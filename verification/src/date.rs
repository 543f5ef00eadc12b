//! Calendar dates as plain values: the year, month and day read out of a
//! `YYYY-MM-DD` string, with the chronological order used by the date
//! filter.

use vstd::prelude::*;

use crate::chars::{digit_val, is_digit};
use crate::entry::valid_date_seq;

verus! {

/// A calendar date, as the three numeric fields of its `YYYY-MM-DD` form.
#[derive(PartialEq, Eq, Structural, Clone, Copy, Debug)]
pub struct Date {
    pub year: u32,
    pub month: u32,
    pub day: u32,
}

/// The year digits of a `YYYY-MM-DD` string.
pub open spec fn date_year(s: Seq<char>) -> nat {
    digit_val(s[0]) * 1000 + digit_val(s[1]) * 100 + digit_val(s[2]) * 10 + digit_val(s[3])
}

/// The month digits of a `YYYY-MM-DD` string.
pub open spec fn date_month(s: Seq<char>) -> nat {
    digit_val(s[5]) * 10 + digit_val(s[6])
}

/// The day digits of a `YYYY-MM-DD` string.
pub open spec fn date_day(s: Seq<char>) -> nat {
    digit_val(s[8]) * 10 + digit_val(s[9])
}

/// The date a valid `YYYY-MM-DD` string denotes.
pub open spec fn date_of_seq(s: Seq<char>) -> Date {
    Date { year: date_year(s) as u32, month: date_month(s) as u32, day: date_day(s) as u32 }
}

/// Chronological order on dates: by year, then month, then day.
pub open spec fn date_le(a: Date, b: Date) -> bool {
    if a.year != b.year {
        a.year < b.year
    } else if a.month != b.month {
        a.month < b.month
    } else {
        a.day <= b.day
    }
}

impl Date {
    /// `self` is no later than `other`.
    pub fn le(&self, other: &Date) -> (r: bool)
        ensures
            r == date_le(*self, *other),
    {
        if self.year != other.year {
            self.year < other.year
        } else if self.month != other.month {
            self.month < other.month
        } else {
            self.day <= other.day
        }
    }
}

/// The numeric value of the digit at position `i`.
pub fn digit_at(s: &str, i: usize) -> (d: u32)
    requires
        i < s@.len(),
        is_digit(s@[i as int]),
    ensures
        d == digit_val(s@[i as int]),
{
    s.get_char(i) as u32 - 48
}

/// Reads the three fields out of a valid `YYYY-MM-DD` string.
pub fn parse_date(s: &str) -> (d: Date)
    requires
        valid_date_seq(s@),
    ensures
        d == date_of_seq(s@),
{
    let year = digit_at(s, 0) * 1000 + digit_at(s, 1) * 100 + digit_at(s, 2) * 10 + digit_at(s, 3);
    let month = digit_at(s, 5) * 10 + digit_at(s, 6);
    let day = digit_at(s, 8) * 10 + digit_at(s, 9);
    Date { year, month, day }
}

} // verus!
