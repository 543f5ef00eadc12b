//! The entry model: one recorded balance observation, kept as the two raw
//! strings that the ledger file stores.

use vstd::prelude::*;

use crate::amount::{amount_in_range, lemma_amount_shape, Amount};
use crate::chars::{all_digits, find_char, is_digit, lemma_find_char_at};
use crate::date::{date_of_seq, parse_date, Date};

verus! {

/// Outcome of validating an entry's raw strings.  The date is checked
/// first, so an entry that is wrong in both dimensions reports a date error.
#[derive(PartialEq, Eq, Structural, Clone, Copy, Debug)]
pub enum Validation {
    Valid,
    DateParseError,
    AmountParseError,
}

/// One recorded balance observation: a raw date string and a raw amount
/// string, stored verbatim.
#[derive(Debug)]
pub struct Entry {
    pub date_string: String,
    pub amount_string: String,
}

/// `s` matches the fixed date pattern `YYYY-MM-DD`: four digits, a dash,
/// two digits, a dash, two digits.
pub open spec fn valid_date_seq(s: Seq<char>) -> bool {
    &&& s.len() == 10
    &&& is_digit(s[0])
    &&& is_digit(s[1])
    &&& is_digit(s[2])
    &&& is_digit(s[3])
    &&& s[4] == '-'
    &&& is_digit(s[5])
    &&& is_digit(s[6])
    &&& s[7] == '-'
    &&& is_digit(s[8])
    &&& is_digit(s[9])
}

/// The unsigned part of a decimal number: a nonempty run of digits, with
/// at most one `.` somewhere among them.
pub open spec fn valid_unsigned_amount(t: Seq<char>) -> bool {
    t.len() > 0 && (all_digits(t) || (t.len() > 1 && exists|j: int|
        0 <= j < t.len() && t[j] == '.' && all_digits(t.take(j)) && all_digits(
            t.skip(j + 1),
        )))
}

/// `s` with a leading sign removed.
pub open spec fn amount_body(s: Seq<char>) -> Seq<char> {
    if s.len() > 0 && (s[0] == '+' || s[0] == '-') {
        s.skip(1)
    } else {
        s
    }
}

/// `s` is a valid decimal amount: an optional sign, then digits with at
/// most one decimal point and at least one digit.
pub open spec fn valid_amount_seq(s: Seq<char>) -> bool {
    s.len() > 0 && valid_unsigned_amount(amount_body(s))
}

/// A line with its end-of-line characters removed: a trailing `\n` goes,
/// then a trailing `\r`.
pub open spec fn strip_eol(s: Seq<char>) -> Seq<char> {
    let t = if s.len() > 0 && s.last() == '\n' {
        s.drop_last()
    } else {
        s
    };
    if t.len() > 0 && t.last() == '\r' {
        t.drop_last()
    } else {
        t
    }
}

/// The date field of a stripped ledger line: everything before the first
/// `|`.
pub open spec fn line_date(s: Seq<char>) -> Seq<char> {
    s.take(find_char(s, '|'))
}

/// The amount field of a stripped ledger line: everything between the
/// first `|` and the second, or the end.
pub open spec fn line_amount(s: Seq<char>) -> Seq<char> {
    let i = find_char(s, '|');
    if i < s.len() {
        let r = s.skip(i + 1);
        r.take(find_char(r, '|'))
    } else {
        Seq::empty()
    }
}

/// The on-disk form of an entry: `date|amount` with a terminating newline.
pub open spec fn serialize_view(e: &Entry) -> Seq<char> {
    e.date_string@ + seq!['|'] + e.amount_string@ + seq!['\n']
}

/// What `validate` reports for an entry.
pub open spec fn validate_spec(e: &Entry) -> Validation {
    if !valid_date_seq(e.date_string@) {
        Validation::DateParseError
    } else if !valid_amount_seq(e.amount_string@) {
        Validation::AmountParseError
    } else {
        Validation::Valid
    }
}

impl Entry {
    /// Builds an entry from the two raw strings, storing them as they are;
    /// no parsing happens here.
    pub fn new(date_string: String, amount_string: String) -> (e: Entry)
        ensures
            e.date_string@ == date_string@,
            e.amount_string@ == amount_string@,
    {
        Entry { date_string, amount_string }
    }

    /// Splits a ledger line on the `|` delimiter into an entry: the date
    /// is everything before the first `|`, the amount everything between
    /// the first `|` and the second or the end.  End-of-line characters
    /// are stripped first.  The line must contain the delimiter; lines
    /// without one never name an amount and are the caller's to reject.
    pub fn from_line(line: &str) -> (e: Entry)
        requires
            exists|i: int| 0 <= i < line@.len() && line@[i] == '|',
        ensures
            e.date_string@ == line_date(strip_eol(line@)),
            e.amount_string@ == line_amount(strip_eol(line@)),
    {
        let n = line.unicode_len();
        let ghost w0 = choose|i: int| 0 <= i < line@.len() && line@[i] == '|';
        let mut m = n;
        if m > 0 && line.get_char(m - 1) == '\n' {
            m = m - 1;
        }
        proof {
            assert(forall|j: int| m <= j < n ==> line@[j] == '\n');
        }
        if m > 0 && line.get_char(m - 1) == '\r' {
            m = m - 1;
        }
        proof {
            assert(forall|j: int| m <= j < n ==> line@[j] == '\n' || line@[j] == '\r');
            assert(line@.subrange(0, m as int) =~= strip_eol(line@));
            assert(w0 < m);
        }
        let stripped = line.substring_char(0, m);
        let ghost w = w0;
        proof {
            assert(stripped@[w] == '|');
        }
        // The first delimiter.
        let mut i: usize = 0;
        while i < m && stripped.get_char(i) != '|'
            invariant
                0 <= i <= m,
                stripped@.len() == m,
                0 <= w < m,
                stripped@[w] == '|',
                forall|j: int| 0 <= j < i ==> stripped@[j] != '|',
            decreases m - i,
        {
            i = i + 1;
        }
        proof {
            assert(i < m);
            lemma_find_char_at(stripped@, '|', i as int);
        }
        let date = stripped.substring_char(0, i);
        let rest = stripped.substring_char(i + 1, m);
        // The second delimiter, if any, ends the amount field.
        let rl = m - i - 1;
        let mut j: usize = 0;
        while j < rl && rest.get_char(j) != '|'
            invariant
                0 <= j <= rl,
                rest@.len() == rl,
                forall|t: int| 0 <= t < j ==> rest@[t] != '|',
            decreases rl - j,
        {
            j = j + 1;
        }
        proof {
            lemma_find_char_at(rest@, '|', j as int);
        }
        let amt = rest.substring_char(0, j);
        let e = Entry { date_string: date.to_owned(), amount_string: amt.to_owned() };
        proof {
            assert(e.date_string@ =~= line_date(strip_eol(line@)));
            assert(e.amount_string@ =~= line_amount(strip_eol(line@)));
        }
        e
    }

    /// Renders the entry in its on-disk form: the two raw strings joined
    /// by `|`, terminated by a newline, byte for byte.
    pub fn serialize(&self) -> (r: String)
        ensures
            r@ == serialize_view(self),
    {
        let mut r = String::new();
        r.append(self.date_string.as_str());
        r.append("|");
        r.append(self.amount_string.as_str());
        r.append("\n");
        proof {
            reveal_strlit("|");
            reveal_strlit("\n");
            assert(r@ =~= serialize_view(self));
        }
        r
    }

    /// The calendar date the date string denotes; only meaningful once
    /// validation has passed.
    pub fn date(&self) -> (d: Date)
        requires
            valid_date_seq(self.date_string@),
        ensures
            d == date_of_seq(self.date_string@),
    {
        parse_date(self.date_string.as_str())
    }

    /// The decimal amount the amount string denotes; only meaningful for
    /// an amount that is valid and fits the fixed precision.
    pub fn amount(&self) -> (a: Amount)
        requires
            amount_in_range(self.amount_string@),
        ensures
            a.wf(),
            a.represents(self.amount_string@),
    {
        Amount::parse(self.amount_string.as_str()).unwrap()
    }

    /// Checks the date string against `YYYY-MM-DD`, then the amount string
    /// as a decimal number, and reports the first failure.
    pub fn validate(&self) -> (v: Validation)
        ensures
            v == validate_spec(self),
    {
        if !self.valid_date() {
            return Validation::DateParseError;
        }
        if !self.valid_amount() {
            return Validation::AmountParseError;
        }
        Validation::Valid
    }

    /// The date string matches `YYYY-MM-DD`.
    pub fn valid_date(&self) -> (b: bool)
        ensures
            b == valid_date_seq(self.date_string@),
    {
        valid_date_str(self.date_string.as_str())
    }

    /// The amount string is a decimal number: an optional sign, digits,
    /// at most one decimal point, at least one digit.
    pub fn valid_amount(&self) -> (b: bool)
        ensures
            b == valid_amount_seq(self.amount_string@),
    {
        valid_amount_str(self.amount_string.as_str())
    }
}

/// Executable digit test.
pub fn char_is_digit(c: char) -> (b: bool)
    ensures
        b == is_digit(c),
{
    let n = c as u32;
    48 <= n && n <= 57
}

/// Executable check of the `YYYY-MM-DD` pattern.
pub fn valid_date_str(s: &str) -> (b: bool)
    ensures
        b == valid_date_seq(s@),
{
    if s.unicode_len() != 10 {
        return false;
    }
    let mut i: usize = 0;
    while i < 10
        invariant
            0 <= i <= 10,
            s@.len() == 10,
            forall|j: int|
                0 <= j < i ==> (if j == 4 || j == 7 {
                    s@[j] == '-'
                } else {
                    is_digit(s@[j])
                }),
        decreases 10 - i,
    {
        let c = s.get_char(i);
        if i == 4 || i == 7 {
            if c != '-' {
                return false;
            }
        } else {
            if !char_is_digit(c) {
                return false;
            }
        }
        i = i + 1;
    }
    true
}

/// Executable check of the decimal-amount grammar.
#[verifier::rlimit(30)]
pub fn valid_amount_str(s: &str) -> (b: bool)
    ensures
        b == valid_amount_seq(s@),
{
    let n = s.unicode_len();
    if n == 0 {
        return false;
    }
    let first = s.get_char(0);
    let start: usize = if first == '+' || first == '-' {
        1
    } else {
        0
    };
    let ghost body = amount_body(s@);
    proof {
        assert(body =~= s@.skip(start as int));
    }
    if n == start {
        // A bare sign: the body is empty.
        return false;
    }
    // Scan the body for a decimal point; everything else must be a digit.
    let mut i: usize = start;
    let mut dot: usize = n;  // index of the dot in s, or n if none seen yet
    while i < n
        invariant
            start <= i <= n,
            start <= 1,
            n == s@.len(),
            amount_body(s@) == s@.skip(start as int),
            dot == n || (start <= dot < i && s@[dot as int] == '.'),
            forall|j: int| start <= j < i && j != dot ==> is_digit(s@[j]),
        decreases n - i,
    {
        let c = s.get_char(i);
        if char_is_digit(c) {
        } else if c == '.' && dot == n {
            dot = i;
        } else {
            proof {
                lemma_invalid_unsigned(s@, start as int, i as int, dot as int);
            }
            return false;
        }
        i = i + 1;
    }
    if n - start == 1 && dot < n {
        // The body is just a dot, with no digit.
        proof {
            assert(dot == start);
            assert(body.len() == 1);
            assert(body[0] == s@[start as int]);
            assert(body[0] == '.');
            assert(!is_digit(body[0]));
            assert(!all_digits(body));
            assert(!valid_unsigned_amount(body));
        }
        return false;
    }
    proof {
        lemma_valid_unsigned(s@, start as int, dot as int);
    }
    true
}

/// A clean scan (digits everywhere but one optional dot) satisfies the
/// unsigned-amount grammar.
proof fn lemma_valid_unsigned(s: Seq<char>, start: int, dot: int)
    requires
        0 <= start < s.len(),
        dot == s.len() || (start <= dot < s.len() && s[dot] == '.'),
        forall|j: int| start <= j < s.len() && j != dot ==> is_digit(s[j]),
        dot < s.len() ==> s.len() - start > 1,
    ensures
        valid_unsigned_amount(s.skip(start)),
{
    let b = s.skip(start);
    if dot == s.len() {
        assert forall|j: int| 0 <= j < b.len() implies is_digit(b[j]) by {
            assert(b[j] == s[j + start]);
        }
        assert(all_digits(b));
    } else {
        let jd = dot - start;
        assert(b[jd] == s[dot]);
        assert forall|j: int| 0 <= j < jd implies is_digit(#[trigger] b.take(jd)[j]) by {
            assert(b.take(jd)[j] == s[j + start]);
        }
        assert forall|j: int| 0 <= j < b.len() - jd - 1 implies is_digit(
            #[trigger] b.skip(jd + 1)[j],
        ) by {
            assert(b.skip(jd + 1)[j] == s[j + start + jd + 1]);
        }
        assert(b.len() > 1);
        assert(0 <= jd < b.len() && b[jd] == '.' && all_digits(b.take(jd)) && all_digits(
            b.skip(jd + 1),
        ));
    }
}

impl PartialEq for Entry {
    fn eq(&self, other: &Entry) -> bool {
        self.date_string == other.date_string && self.amount_string == other.amount_string
    }
}

impl vstd::std_specs::cmp::PartialEqSpecImpl for Entry {
    open spec fn obeys_eq_spec() -> bool {
        true
    }

    open spec fn eq_spec(&self, other: &Entry) -> bool {
        self.date_string@ == other.date_string@ && self.amount_string@ == other.amount_string@
    }
}

impl Clone for Entry {
    /// A clone carries the same two raw strings.
    fn clone(&self) -> (r: Entry)
        ensures
            r == *self,
    {
        Entry {
            date_string: self.date_string.clone(),
            amount_string: self.amount_string.clone(),
        }
    }
}

/// A date that matches `YYYY-MM-DD` never reports a date error: validation
/// of such an entry turns on the amount alone.
pub proof fn lemma_valid_date_no_date_error(e: &Entry)
    requires
        valid_date_seq(e.date_string@),
    ensures
        validate_spec(e) != Validation::DateParseError,
        validate_spec(e) == if valid_amount_seq(e.amount_string@) {
            Validation::Valid
        } else {
            Validation::AmountParseError
        },
{
}

/// Round trip: parsing the serialized form of a valid entry yields the
/// entry's two raw strings back, unchanged.
pub proof fn lemma_serialize_parse_round_trip(e: &Entry)
    requires
        validate_spec(e) == Validation::Valid,
    ensures
        line_date(strip_eol(serialize_view(e))) == e.date_string@,
        line_amount(strip_eol(serialize_view(e))) == e.amount_string@,
{
    let d = e.date_string@;
    let a = e.amount_string@;
    let s = serialize_view(e);
    lemma_amount_shape(a);
    // No character of a valid amount is an end-of-line character or a
    // delimiter.
    assert forall|j: int| 0 <= j < a.len() implies a[j] != '|' && a[j] != '\n' && a[j] != '\r' by {
        lemma_amount_chars(a, j);
    }
    // Stripping removes exactly the terminating newline.
    let t = d + seq!['|'] + a;
    assert(s.last() == '\n');
    assert(s.drop_last() =~= t);
    assert(t.last() == a.last());
    assert(strip_eol(s) == t);
    // The first delimiter sits right after the date.
    assert forall|j: int| 0 <= j < d.len() implies t[j] != '|' by {
        assert(t[j] == d[j]);
        assert(is_digit(d[j]) || d[j] == '-');
    }
    assert(t[d.len() as int] == '|');
    lemma_find_char_at(t, '|', d.len() as int);
    assert(line_date(t) =~= d);
    // The amount field runs to the end: a valid amount has no delimiter.
    let r = t.skip(d.len() as int + 1);
    assert(r =~= a);
    lemma_find_char_at(r, '|', r.len() as int);
    assert(line_amount(t) =~= a);
}

/// Each character of a valid amount is a digit, a sign or the decimal
/// point.
pub proof fn lemma_amount_chars(a: Seq<char>, j: int)
    requires
        valid_amount_seq(a),
        0 <= j < a.len(),
    ensures
        is_digit(a[j]) || a[j] == '.' || a[j] == '+' || a[j] == '-',
{
    lemma_amount_shape(a);
    let b = amount_body(a);
    if a.len() > 0 && (a[0] == '+' || a[0] == '-') {
        if j > 0 {
            assert(b[j - 1] == a[j]);
        }
    } else {
        assert(b[j] == a[j]);
    }
}

/// An offending character at `i` (neither a digit nor a first dot) rules
/// the whole body out.
proof fn lemma_invalid_unsigned(s: Seq<char>, start: int, i: int, dot: int)
    requires
        0 <= start <= i < s.len(),
        start <= 1,
        !is_digit(s[i]),
        s[i] == '.' ==> start <= dot < i && s[dot] == '.',
        forall|j: int| start <= j < i && j != dot ==> is_digit(s[j]),
    ensures
        !valid_unsigned_amount(s.skip(start)),
{
    let b = s.skip(start);
    let ib = i - start;
    assert(b[ib] == s[i]);
    assert(!all_digits(b));
    if b.len() > 1 {
        assert forall|j: int|
            0 <= j < b.len() && b[j] == '.' implies !(all_digits(b.take(j)) && all_digits(
            b.skip(j + 1),
        )) by {
            if b[ib] == '.' {
                // Two dots: the earlier one is at dot - start.
                let db = dot - start;
                assert(b[db] == s[dot]);
                if j < ib {
                    if j < db {
                        assert(b.skip(j + 1)[db - j - 1] == b[db]);
                        assert(!is_digit(b[db]));
                    } else if j == db {
                        assert(b.skip(j + 1)[ib - j - 1] == b[ib]);
                    } else {
                        assert(b.take(j)[db] == b[db]);
                    }
                } else if j == ib {
                    assert(b.take(j)[db] == b[db]);
                } else {
                    assert(b.take(j)[ib] == b[ib]);
                }
            } else {
                // The offender is not a dot, so it flanks any candidate dot.
                if j < ib {
                    assert(b.skip(j + 1)[ib - j - 1] == b[ib]);
                } else if j == ib {
                    assert(false);
                } else {
                    assert(b.take(j)[ib] == b[ib]);
                }
            }
        }
    }
}

} // verus!
