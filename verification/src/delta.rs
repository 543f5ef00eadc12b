//! Deltas: the change in amount between two chronologically adjacent
//! entries, and its display form.

use vstd::prelude::*;

use crate::amount::{
    amount_in_range,
    amount_mag,
    amount_neg,
    amount_scale,
    diff_num,
    diff_parts,
    diff_scale,
    render_scaled,
    render_scaled_string,
    Amount,
};
use crate::entry::Entry;

verus! {

/// The parsed form of an amount string, as a value.
pub open spec fn amount_of(s: Seq<char>) -> Amount {
    Amount { neg: amount_neg(s), mag: amount_mag(s) as u64, scale: amount_scale(s) as u32 }
}

/// The display form of the numeric difference between two amount strings:
/// the second minus the first, exactly, at their common scale.
pub open spec fn delta_amount_view(s1: Seq<char>, s2: Seq<char>) -> Seq<char> {
    let d = diff_num(amount_of(s1), amount_of(s2));
    render_scaled(
        d < 0,
        if d < 0 {
            (-d) as nat
        } else {
            d as nat
        },
        diff_scale(amount_of(s1), amount_of(s2)),
    )
}

/// The display form of a delta:
/// `start date -> end date: start amount -> end amount | difference`.
pub open spec fn delta_line_view(
    d1: Seq<char>,
    a1: Seq<char>,
    d2: Seq<char>,
    a2: Seq<char>,
) -> Seq<char> {
    d1 + " -> "@ + d2 + ": "@ + a1 + " -> "@ + a2 + " | "@ + delta_amount_view(a1, a2)
}

/// A pairing of two chronologically adjacent entries, kept only for
/// reporting.
pub struct Delta {
    pub start: Entry,
    pub end: Entry,
}

impl Delta {
    /// Pairs two entries.
    pub fn new(start: &Entry, end: &Entry) -> (d: Delta)
        ensures
            d.start == *start,
            d.end == *end,
    {
        Delta { start: start.clone(), end: end.clone() }
    }

    /// The numeric difference `end - start` in its display form, computed
    /// exactly; nothing when either amount string is not a decimal in
    /// range.
    pub fn delta(&self) -> (r: Option<String>)
        ensures
            r is Some <==> amount_in_range(self.start.amount_string@) && amount_in_range(
                self.end.amount_string@,
            ),
            r is Some ==> r.unwrap()@ == delta_amount_view(
                self.start.amount_string@,
                self.end.amount_string@,
            ),
    {
        let a1 = match Amount::parse(self.start.amount_string.as_str()) {
            Some(a) => a,
            None => {
                return None;
            },
        };
        let a2 = match Amount::parse(self.end.amount_string.as_str()) {
            Some(a) => a,
            None => {
                return None;
            },
        };
        proof {
            assert(a1 == amount_of(self.start.amount_string@));
            assert(a2 == amount_of(self.end.amount_string@));
        }
        let parts = diff_parts(&a1, &a2);
        let k: u32 = if a1.scale >= a2.scale {
            a1.scale
        } else {
            a2.scale
        };
        Some(render_scaled_string(parts.0, parts.1, k))
    }

    /// The full display line of the delta; nothing when either amount
    /// string is not a decimal in range.
    pub fn display(&self) -> (r: Option<String>)
        ensures
            r is Some <==> amount_in_range(self.start.amount_string@) && amount_in_range(
                self.end.amount_string@,
            ),
            r is Some ==> r.unwrap()@ == delta_line_view(
                self.start.date_string@,
                self.start.amount_string@,
                self.end.date_string@,
                self.end.amount_string@,
            ),
    {
        let num = match self.delta() {
            Some(n) => n,
            None => {
                return None;
            },
        };
        let mut r = String::new();
        r.append(self.start.date_string.as_str());
        r.append(" -> ");
        r.append(self.end.date_string.as_str());
        r.append(": ");
        r.append(self.start.amount_string.as_str());
        r.append(" -> ");
        r.append(self.end.amount_string.as_str());
        r.append(" | ");
        r.append(num.as_str());
        proof {
            assert(r@ =~= delta_line_view(
                self.start.date_string@,
                self.start.amount_string@,
                self.end.date_string@,
                self.end.amount_string@,
            ));
        }
        Some(r)
    }
}

/// One delta per consecutive pair of entries, in order: a sequence of
/// length `k` yields exactly `k - 1` deltas, and none when it has one
/// entry or is empty.
pub fn delta_by_line(entries: &Vec<Entry>) -> (ds: Vec<Delta>)
    ensures
        ds@.len() == if entries@.len() == 0 {
            0int
        } else {
            entries@.len() - 1
        },
        forall|i: int|
            0 <= i < ds@.len() ==> ds@[i].start == entries@[i] && ds@[i].end == entries@[i + 1],
{
    let mut ds: Vec<Delta> = Vec::new();
    let n = entries.len();
    if n == 0 {
        return ds;
    }
    let mut i: usize = 0;
    while i + 1 < n
        invariant
            n == entries@.len(),
            0 <= i <= n - 1,
            ds@.len() == i,
            forall|j: int|
                0 <= j < i ==> ds@[j].start == entries@[j] && ds@[j].end == entries@[j + 1],
        decreases n - i,
    {
        ds.push(Delta::new(&entries[i], &entries[i + 1]));
        i = i + 1;
    }
    ds
}

} // verus!
