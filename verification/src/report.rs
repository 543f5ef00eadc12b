//! Command-level outcomes: the error taxonomy and exit-code mapping,
//! ledger path resolution, and the compute halves of the add and show
//! commands.

use vstd::prelude::*;

use crate::amount::amount_in_range;
use crate::delta::{delta_by_line, delta_line_view};
use crate::entry::{serialize_view, valid_date_seq, validate_spec, Entry, Validation};
use crate::filter::{arg_view, filter_entries, filter_of, filter_split, parse_filter, Filter};

verus! {

/// What can go wrong in a command: bad input, an unreadable ledger, an
/// unwritable ledger.
#[derive(PartialEq, Eq, Structural, Clone, Copy, Debug)]
pub enum Error {
    InputError,
    ReadError,
    WriteError,
}

/// Maps a command outcome to the process exit code: success is zero, an
/// input failure one, a read failure two, a write failure three.
pub fn exit_code(status: Result<bool, Error>) -> (c: i32)
    ensures
        c == match status {
            Ok(true) => 0int,
            Ok(false) => 1int,
            Err(Error::InputError) => 1int,
            Err(Error::ReadError) => 2int,
            Err(Error::WriteError) => 3int,
        },
{
    match status {
        Ok(true) => 0,
        Ok(false) => 1,
        Err(Error::InputError) => 1,
        Err(Error::ReadError) => 2,
        Err(Error::WriteError) => 3,
    }
}

/// Resolves the ledger path: an explicit file argument wins; otherwise the
/// `.budget` file under the default directory; nothing without either.
pub fn filepath(file: Option<&str>, default_dir: Option<&str>) -> (r: Option<String>)
    ensures
        match file {
            Some(p) => r is Some && r.unwrap()@ == p@,
            None => match default_dir {
                Some(d) => r is Some && r.unwrap()@ == if d@.len() > 0 && d@.last() == '/' {
                    d@ + ".budget"@
                } else {
                    d@ + "/.budget"@
                },
                None => r is None,
            },
        },
{
    match file {
        Some(p) => Some(p.to_owned()),
        None => match default_dir {
            Some(dir) => {
                let mut r = dir.to_owned();
                let n = dir.unicode_len();
                if n > 0 && dir.get_char(n - 1) == '/' {
                    r.append(".budget");
                } else {
                    r.append("/.budget");
                }
                Some(r)
            },
            None => None,
        },
    }
}

/// The compute half of the add command: the serialized line to append for
/// a valid entry, or the message naming the offending raw field.
pub fn prepare_append(e: &Entry) -> (r: Result<String, String>)
    ensures
        r is Ok <==> validate_spec(e) == Validation::Valid,
        r is Ok ==> r->Ok_0@ == serialize_view(e),
        validate_spec(e) == Validation::DateParseError ==> r->Err_0@ == "Invalid Date "@
            + e.date_string@ + "; must format as yyyy-mm-dd"@,
        validate_spec(e) == Validation::AmountParseError ==> r->Err_0@ == "Invalid Amount "@
            + e.amount_string@ + "; must be a float"@,
{
    match e.validate() {
        Validation::Valid => Ok(e.serialize()),
        Validation::DateParseError => {
            let mut m = String::new();
            m.append("Invalid Date ");
            m.append(e.date_string.as_str());
            m.append("; must format as yyyy-mm-dd");
            Err(m)
        },
        Validation::AmountParseError => {
            let mut m = String::new();
            m.append("Invalid Amount ");
            m.append(e.amount_string.as_str());
            m.append("; must be a float");
            Err(m)
        },
    }
}

/// The trailing window a filter selects.
pub open spec fn selected(s: Seq<Entry>, f: Filter) -> Seq<Entry> {
    s.subrange(filter_split(s, f), s.len() as int)
}

/// Filtering by date reads every entry's date, so it needs them all well
/// formed.
pub open spec fn dates_ok(s: Seq<Entry>, f: Filter) -> bool {
    f is Since ==> forall|i: int| 0 <= i < s.len() ==> valid_date_seq(s[i].date_string@)
}

/// Every entry that takes part in a delta carries a readable amount.  A
/// window of at most one entry yields no delta and reads no amount.
pub open spec fn amounts_ok(s: Seq<Entry>) -> bool {
    s.len() <= 1 || forall|i: int| 0 <= i < s.len() ==> amount_in_range(s[i].amount_string@)
}

/// The compute half of the show command: filters the entries by the two
/// optional raw arguments, pairs the selected window into deltas and
/// renders one display line per delta, in order.  Reports an input error
/// when a date filter meets a malformed date, or a delta an unreadable
/// amount.
pub fn show_report(entries: &Vec<Entry>, num: Option<&str>, date: Option<&str>) -> (r: Result<
    Vec<String>,
    Error,
>)
    ensures
        r is Ok <==> dates_ok(entries@, filter_of(arg_view(num), arg_view(date))) && amounts_ok(
            selected(entries@, filter_of(arg_view(num), arg_view(date))),
        ),
        r is Err ==> r->Err_0 == Error::InputError,
        r is Ok ==> r->Ok_0@.len() == if selected(
            entries@,
            filter_of(arg_view(num), arg_view(date)),
        ).len() == 0 {
            0int
        } else {
            selected(entries@, filter_of(arg_view(num), arg_view(date))).len() - 1
        },
        r is Ok ==> forall|i: int|
            0 <= i < r->Ok_0@.len() ==> r->Ok_0@[i]@ == delta_line_view(
                selected(entries@, filter_of(arg_view(num), arg_view(date)))[i].date_string@,
                selected(entries@, filter_of(arg_view(num), arg_view(date)))[i].amount_string@,
                selected(entries@, filter_of(arg_view(num), arg_view(date)))[i + 1].date_string@,
                selected(entries@, filter_of(arg_view(num), arg_view(date)))[i + 1].amount_string@,
            ),
{
    let ghost f_spec = filter_of(arg_view(num), arg_view(date));
    let f = parse_filter(num, date);
    let is_since = match &f {
        Filter::Since(_) => true,
        _ => false,
    };
    if is_since {
        // The date filter reads every entry's date.
        let n = entries.len();
        let mut i: usize = 0;
        while i < n
            invariant
                0 <= i <= n,
                n == entries@.len(),
                f_spec == filter_of(arg_view(num), arg_view(date)),
                f_spec is Since,
                forall|j: int| 0 <= j < i ==> valid_date_seq(entries@[j].date_string@),
            decreases n - i,
        {
            if !entries[i].valid_date() {
                return Err(Error::InputError);
            }
            i = i + 1;
        }
    }
    let filtered = filter_entries(entries, &f);
    proof {
        assert(filtered@ =~= selected(entries@, f_spec));
    }
    let deltas = delta_by_line(&filtered);
    let mut lines: Vec<String> = Vec::new();
    let dn = deltas.len();
    let mut i: usize = 0;
    while i < dn
        invariant
            0 <= i <= dn,
            dn == deltas@.len(),
            filtered@ == selected(entries@, filter_of(arg_view(num), arg_view(date))),
            dn == if filtered@.len() == 0 {
                0int
            } else {
                filtered@.len() - 1
            },
            forall|j: int|
                0 <= j < dn ==> deltas@[j].start == filtered@[j] && deltas@[j].end == filtered@[j
                    + 1],
            lines@.len() == i,
            forall|j: int| 0 <= j < i ==> amount_in_range(#[trigger] filtered@[j].amount_string@),
            forall|j: int| 1 <= j <= i ==> amount_in_range(#[trigger] filtered@[j].amount_string@),
            forall|j: int|
                0 <= j < i ==> lines@[j]@ == delta_line_view(
                    filtered@[j].date_string@,
                    filtered@[j].amount_string@,
                    filtered@[j + 1].date_string@,
                    filtered@[j + 1].amount_string@,
                ),
        decreases dn - i,
    {
        match deltas[i].display() {
            Some(s) => {
                lines.push(s);
            },
            None => {
                proof {
                    assert(!amount_in_range(filtered@[i as int].amount_string@)
                        || !amount_in_range(filtered@[i + 1].amount_string@));
                    assert(filtered@.len() > 1);
                    assert(!amounts_ok(filtered@));
                }
                return Err(Error::InputError);
            },
        }
        i = i + 1;
    }
    proof {
        assert(amounts_ok(filtered@)) by {
            if filtered@.len() > 1 {
                assert forall|j: int| 0 <= j < filtered@.len() implies amount_in_range(
                    filtered@[j].amount_string@,
                ) by {
                }
            }
        }
    }
    Ok(lines)
}

} // verus!
