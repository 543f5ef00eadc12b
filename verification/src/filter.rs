//! The two selection policies over the full ordered entry sequence: a
//! trailing count, or the suffix from the first entry dated at or after a
//! cutoff.  Filter arguments that cannot be read fall back, leniently, to
//! the whole sequence.

use vstd::prelude::*;

use crate::chars::{
    all_digits,
    digits_val,
    is_digit,
    lemma_digits_val_prefix,
    lemma_digits_val_push,
};
use crate::date::{date_le, date_of_seq, parse_date, Date};
use crate::entry::{char_is_digit, valid_date_seq, valid_date_str, Entry};

verus! {

/// The digits of a count argument; a leading `+` is allowed.
pub open spec fn usize_digits(s: Seq<char>) -> Seq<char> {
    if s.len() > 0 && s[0] == '+' {
        s.skip(1)
    } else {
        s
    }
}

/// `s` is a non-negative integer literal.
pub open spec fn valid_usize_seq(s: Seq<char>) -> bool {
    usize_digits(s).len() > 0 && all_digits(usize_digits(s))
}

/// `s` is a non-negative integer literal whose value fits the machine.
pub open spec fn usize_in_range(s: Seq<char>) -> bool {
    valid_usize_seq(s) && digits_val(usize_digits(s)) <= usize::MAX
}

/// Reads a count argument.  Returns the value exactly when the string is a
/// non-negative integer literal that fits.
pub fn parse_usize(s: &str) -> (r: Option<usize>)
    ensures
        r is Some <==> usize_in_range(s@),
        r is Some ==> r.unwrap() == digits_val(usize_digits(s@)),
{
    let n = s.unicode_len();
    if n == 0 {
        return None;
    }
    let start: usize = if s.get_char(0) == '+' {
        1
    } else {
        0
    };
    let ghost d = usize_digits(s@);
    proof {
        assert(d =~= s@.skip(start as int));
    }
    if n == start {
        // A bare sign.
        return None;
    }
    let mut acc: usize = 0;
    let mut i: usize = start;
    while i < n
        invariant
            start <= i <= n,
            start <= 1,
            n == s@.len(),
            d == usize_digits(s@),
            d =~= s@.skip(start as int),
            all_digits(d.take(i - start)),
            acc == digits_val(d.take(i - start)),
        decreases n - i,
    {
        let c = s.get_char(i);
        proof {
            assert(d[i - start] == s@[i as int]);
        }
        if !char_is_digit(c) {
            proof {
                assert(!is_digit(d[i - start]));
                assert(!all_digits(d));
            }
            return None;
        }
        proof {
            lemma_digits_val_push(d.take(i - start), d[i - start]);
            assert(d.take(i - start + 1) =~= d.take(i - start).push(d[i - start]));
            lemma_digits_val_prefix(d.take(i - start + 1), d.skip(i - start + 1));
            assert(d.take(i - start + 1) + d.skip(i - start + 1) =~= d);
        }
        if acc > usize::MAX / 10 {
            // Ten times the prefix already exceeds the machine range, and
            // the digits only extend it.
            return None;
        }
        let t = acc * 10;
        let dv = (c as u32 - 48) as usize;
        if dv > usize::MAX - t {
            return None;
        }
        acc = t + dv;
        i = i + 1;
    }
    proof {
        assert(d.take(n - start) =~= d);
    }
    Some(acc)
}

/// Which trailing window of the entry sequence a report covers.
#[derive(PartialEq, Eq, Structural, Clone, Copy, Debug)]
pub enum Filter {
    /// The trailing `n` entries.
    Count(usize),
    /// The suffix from the first entry dated at or after the cutoff.
    Since(Date),
    /// Every entry.
    All,
}

/// The views of an optional raw argument.
pub open spec fn arg_view(o: Option<&str>) -> Option<Seq<char>> {
    match o {
        Some(s) => Some(s@),
        None => None,
    }
}

/// Which filter two optional raw arguments select.  The count argument
/// takes precedence; an argument that cannot be read, and the absence of
/// both, select the whole sequence.
pub open spec fn filter_of(num: Option<Seq<char>>, date: Option<Seq<char>>) -> Filter {
    match num {
        Some(ns) => if usize_in_range(ns) {
            Filter::Count(digits_val(usize_digits(ns)) as usize)
        } else {
            Filter::All
        },
        None => match date {
            Some(ds) => if valid_date_seq(ds) {
                Filter::Since(date_of_seq(ds))
            } else {
                Filter::All
            },
            None => Filter::All,
        },
    }
}

/// Builds the filter from the two optional raw arguments.
pub fn parse_filter(num: Option<&str>, date: Option<&str>) -> (f: Filter)
    ensures
        f == filter_of(arg_view(num), arg_view(date)),
{
    match num {
        Some(ns) => match parse_usize(ns) {
            Some(v) => Filter::Count(v),
            None => Filter::All,
        },
        None => match date {
            Some(ds) => {
                if valid_date_str(ds) {
                    Filter::Since(parse_date(ds))
                } else {
                    Filter::All
                }
            },
            None => Filter::All,
        },
    }
}

/// The date an entry's date string denotes.
pub open spec fn entry_date(e: Entry) -> Date {
    date_of_seq(e.date_string@)
}

/// The index of the first entry dated at or after `d`, or the length if
/// none is.
pub open spec fn first_at_or_after(s: Seq<Entry>, d: Date) -> int
    decreases s.len(),
{
    if s.len() == 0 {
        0
    } else if date_le(d, entry_date(s[0])) {
        0
    } else {
        1 + first_at_or_after(s.skip(1), d)
    }
}

/// `first_at_or_after` is pinned by its characterization.
pub proof fn lemma_first_at_or_after_at(s: Seq<Entry>, d: Date, i: int)
    requires
        0 <= i <= s.len(),
        forall|j: int| 0 <= j < i ==> !date_le(d, entry_date(s[j])),
        i < s.len() ==> date_le(d, entry_date(s[i])),
    ensures
        first_at_or_after(s, d) == i,
    decreases s.len(),
{
    if s.len() == 0 {
    } else if i == 0 {
    } else {
        assert(!date_le(d, entry_date(s[0])));
        assert forall|j: int| 0 <= j < i - 1 implies !date_le(d, entry_date(s.skip(1)[j])) by {
            assert(s.skip(1)[j] == s[j + 1]);
        }
        assert(i - 1 < s.skip(1).len() ==> date_le(d, entry_date(s.skip(1)[i - 1])));
        lemma_first_at_or_after_at(s.skip(1), d, i - 1);
    }
}

/// Where the selected suffix starts: `len - n` for a count of `n` (the
/// whole sequence when `n` is larger), the first qualifying entry for a
/// date cutoff (the whole sequence when none qualifies), and the whole
/// sequence otherwise.
pub open spec fn filter_split(s: Seq<Entry>, f: Filter) -> int {
    match f {
        Filter::Count(n) => if n <= s.len() {
            s.len() - n
        } else {
            0
        },
        Filter::Since(d) => if first_at_or_after(s, d) < s.len() {
            first_at_or_after(s, d)
        } else {
            0
        },
        Filter::All => 0,
    }
}

/// Selects the trailing window of `entries` that the filter names: the
/// suffix starting at `filter_split`.  Filtering by date reads every
/// entry's date, so it asks that all dates are well formed.
pub fn filter_entries(entries: &Vec<Entry>, filter: &Filter) -> (r: Vec<Entry>)
    requires
        *filter matches Filter::Since(_) ==> forall|i: int|
            0 <= i < entries@.len() ==> valid_date_seq(entries@[i].date_string@),
    ensures
        0 <= filter_split(entries@, *filter) <= entries@.len(),
        r@.len() == entries@.len() - filter_split(entries@, *filter),
        forall|i: int|
            0 <= i < r@.len() ==> r@[i] == entries@[filter_split(entries@, *filter) + i],
{
    let n = entries.len();
    let split: usize = match filter {
        Filter::Count(c) => {
            if *c <= n {
                n - *c
            } else {
                0
            }
        },
        Filter::All => 0,
        Filter::Since(d) => {
            let mut i: usize = 0;
            let mut at: usize = n;
            while i < n
                invariant
                    0 <= i <= n,
                    n == entries@.len(),
                    forall|j: int|
                        0 <= j < entries@.len() ==> valid_date_seq(entries@[j].date_string@),
                    at == n || (at < i && date_le(*d, entry_date(entries@[at as int]))),
                    at == n ==> forall|j: int| 0 <= j < i ==> !date_le(*d, entry_date(entries@[j])),
                    at < n ==> forall|j: int| 0 <= j < at ==> !date_le(*d, entry_date(entries@[j])),
                decreases n - i,
            {
                if at == n {
                    let ed = entries[i].date();
                    if d.le(&ed) {
                        at = i;
                    }
                }
                i = i + 1;
            }
            proof {
                if at < n {
                    lemma_first_at_or_after_at(entries@, *d, at as int);
                } else {
                    lemma_first_at_or_after_at(entries@, *d, n as int);
                }
            }
            if at == n {
                0
            } else {
                at
            }
        },
    };
    let mut r: Vec<Entry> = Vec::new();
    let mut i: usize = split;
    while i < n
        invariant
            split <= i <= n,
            n == entries@.len(),
            r@.len() == i - split,
            forall|j: int| 0 <= j < r@.len() ==> r@[j] == entries@[split + j],
        decreases n - i,
    {
        r.push(entries[i].clone());
        i = i + 1;
    }
    r
}

} // verus!
