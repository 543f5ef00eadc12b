//! A single-account ledger library.
//!
//! The ledger is an append-only text file: one entry per line, a date and an
//! amount separated by `|`.  This crate holds the verified core: entry
//! parsing and validation, the line format, the filtering policies and the
//! exact-decimal delta computation used for reporting.  File and terminal
//! I/O live outside the library and hand it plain values.

pub mod amount;
pub mod chars;
pub mod date;
pub mod delta;
pub mod entry;
pub mod filter;
pub mod report;
pub mod store;

pub use amount::Amount;
pub use date::Date;
pub use delta::{delta_by_line, Delta};
pub use entry::{Entry, Validation};
pub use filter::{filter_entries, parse_filter, parse_usize, Filter};
pub use report::{exit_code, filepath, prepare_append, show_report, Error};
pub use store::entries_from_text;
