//! The ledger text format: a file's content split into lines, each
//! parseable line read as an entry, and the law that appending one
//! serialized entry extends the read sequence by exactly that entry.

use vstd::prelude::*;

use crate::chars::{find_char, is_digit, lemma_find_char_at, lemma_find_char_props};
use crate::entry::{
    lemma_amount_chars,
    lemma_serialize_parse_round_trip,
    line_amount,
    line_date,
    serialize_view,
    strip_eol,
    validate_spec,
    Entry,
    Validation,
};

verus! {

/// The lines of a text: the segments between newlines, with an unterminated
/// final segment counting as a line.
pub open spec fn lines_of(t: Seq<char>) -> Seq<Seq<char>>
    decreases t.len(),
{
    if t.len() == 0 {
        Seq::empty()
    } else {
        let i = find_char(t, '\n');
        if 0 <= i < t.len() {
            seq![t.take(i)] + lines_of(t.skip(i + 1))
        } else {
            seq![t]
        }
    }
}

/// A line the reader keeps: nonempty once end-of-line characters are
/// stripped, and carrying the `|` delimiter.
pub open spec fn kept_line(l: Seq<char>) -> bool {
    let c = strip_eol(l);
    c.len() > 0 && find_char(c, '|') < c.len()
}

/// The two raw fields a kept line carries.
pub open spec fn fields_of_line(l: Seq<char>) -> (Seq<char>, Seq<char>) {
    (line_date(strip_eol(l)), line_amount(strip_eol(l)))
}

/// The entries a sequence of lines yields: each kept line's fields, in
/// order; other lines are skipped.
pub open spec fn entries_of_lines(ls: Seq<Seq<char>>) -> Seq<(Seq<char>, Seq<char>)>
    decreases ls.len(),
{
    if ls.len() == 0 {
        Seq::empty()
    } else {
        let rest = entries_of_lines(ls.skip(1));
        if kept_line(ls[0]) {
            seq![fields_of_line(ls[0])] + rest
        } else {
            rest
        }
    }
}

/// The entries a ledger text yields, in file order.
pub open spec fn entries_of_text(t: Seq<char>) -> Seq<(Seq<char>, Seq<char>)> {
    entries_of_lines(lines_of(t))
}

/// Reads a whole ledger text: the text is split into lines and each
/// nonempty line carrying the `|` delimiter becomes an entry, in file
/// order.  Other lines are skipped, so one malformed line never spoils a
/// report.  Reading is a pure function of the text: reading the same text
/// twice yields the same entries.
pub fn entries_from_text(text: &str) -> (r: Vec<Entry>)
    ensures
        r@.len() == entries_of_text(text@).len(),
        forall|i: int|
            0 <= i < r@.len() ==> r@[i].date_string@ == entries_of_text(text@)[i].0
                && r@[i].amount_string@ == entries_of_text(text@)[i].1,
{
    let n = text.unicode_len();
    let mut r: Vec<Entry> = Vec::new();
    let ghost mut produced: Seq<(Seq<char>, Seq<char>)> = Seq::empty();
    let mut start: usize = 0;
    proof {
        assert(text@.skip(0) =~= text@);
        assert(produced + entries_of_text(text@.skip(0)) =~= entries_of_text(text@));
    }
    while start < n
        invariant
            0 <= start <= n,
            n == text@.len(),
            entries_of_text(text@) == produced + entries_of_text(text@.skip(start as int)),
            r@.len() == produced.len(),
            forall|j: int|
                0 <= j < r@.len() ==> r@[j].date_string@ == produced[j].0
                    && r@[j].amount_string@ == produced[j].1,
        decreases n - start,
    {
        // The line runs to the next newline, or to the end of the text.
        let mut j: usize = start;
        while j < n && text.get_char(j) != '\n'
            invariant
                start <= j <= n,
                n == text@.len(),
                forall|t: int| start <= t < j ==> text@[t] != '\n',
            decreases n - j,
        {
            j = j + 1;
        }
        let ghost rem = text@.skip(start as int);
        proof {
            assert forall|t: int| 0 <= t < j - start implies rem[t] != '\n' by {
                assert(rem[t] == text@[t + start]);
            }
            if j < n {
                assert(rem[j - start] == text@[j as int]);
            }
            lemma_find_char_at(rem, '\n', j - start);
        }
        let line = text.substring_char(start, j);
        proof {
            assert(line@ =~= rem.take(j - start));
            if j < n {
                assert(lines_of(rem) == seq![line@] + lines_of(rem.skip(j - start + 1)));
                assert(rem.skip(j - start + 1) =~= text@.skip(j + 1));
            } else {
                assert(rem =~= line@);
                assert(lines_of(rem) == seq![line@]);
            }
            assert(lines_of(rem).skip(1) =~= if j < n {
                lines_of(text@.skip(j + 1))
            } else {
                lines_of(text@.skip(n as int))
            });
        }
        // Strip a trailing carriage return, then look for the delimiter.
        let mut m: usize = j - start;
        if m > 0 && line.get_char(m - 1) == '\r' {
            m = m - 1;
        }
        proof {
            assert(line@.take(m as int) =~= strip_eol(line@));
        }
        let mut p: usize = 0;
        while p < m && line.get_char(p) != '|'
            invariant
                0 <= p <= m <= line@.len(),
                forall|t: int| 0 <= t < p ==> line@[t] != '|',
            decreases m - p,
        {
            p = p + 1;
        }
        let ghost cl = strip_eol(line@);
        proof {
            assert forall|t: int| 0 <= t < p implies cl[t] != '|' by {
                assert(cl[t] == line@[t]);
            }
            if p < m {
                assert(cl[p as int] == line@[p as int]);
            }
            lemma_find_char_at(cl, '|', p as int);
        }
        if m > 0 && p < m {
            // A kept line: the delimiter is present.
            proof {
                assert(kept_line(line@));
                assert(line@[p as int] == '|');
            }
            let e = Entry::from_line(line);
            r.push(e);
            proof {
                produced = produced.push(fields_of_line(line@));
            }
        } else {
            proof {
                assert(!kept_line(line@));
            }
        }
        proof {
            assert(entries_of_lines(lines_of(rem)) == if kept_line(line@) {
                seq![fields_of_line(line@)] + entries_of_lines(lines_of(rem).skip(1))
            } else {
                entries_of_lines(lines_of(rem).skip(1))
            });
        }
        start = if j < n {
            j + 1
        } else {
            n
        };
        proof {
            if kept_line(line@) {
                assert(produced.drop_last() + (seq![fields_of_line(line@)] + entries_of_text(
                    text@.skip(start as int),
                )) =~= produced + entries_of_text(text@.skip(start as int)));
            }
        }
    }
    proof {
        assert(text@.skip(n as int) =~= Seq::<char>::empty());
        assert(entries_of_text(text@) == produced);
    }
    r
}

/// Reading an unmodified ledger twice yields identical sequences: what is
/// read is a function of the text alone, so equal texts read equal.
pub proof fn lemma_read_all_idempotent(t1: Seq<char>, t2: Seq<char>)
    requires
        t1 == t2,
    ensures
        entries_of_text(t1) == entries_of_text(t2),
{
}

/// Concatenating line lists concatenates their entries.
proof fn lemma_entries_of_lines_concat(a: Seq<Seq<char>>, b: Seq<Seq<char>>)
    ensures
        entries_of_lines(a + b) == entries_of_lines(a) + entries_of_lines(b),
    decreases a.len(),
{
    if a.len() == 0 {
        assert(a + b =~= b);
        assert(entries_of_lines(a) + entries_of_lines(b) =~= entries_of_lines(b));
    } else {
        lemma_entries_of_lines_concat(a.skip(1), b);
        assert((a + b).skip(1) =~= a.skip(1) + b);
        assert((a + b)[0] == a[0]);
        if kept_line(a[0]) {
            assert(seq![fields_of_line(a[0])] + (entries_of_lines(a.skip(1)) + entries_of_lines(b))
                =~= (seq![fields_of_line(a[0])] + entries_of_lines(a.skip(1))) + entries_of_lines(
                b,
            ));
        }
    }
}

/// Appending one newline-terminated line to a newline-terminated text
/// appends one line to its line list.
proof fn lemma_lines_of_append(t: Seq<char>, l: Seq<char>)
    requires
        t.len() == 0 || t.last() == '\n',
        forall|j: int| 0 <= j < l.len() ==> l[j] != '\n',
    ensures
        lines_of(t + l + seq!['\n']) == lines_of(t).push(l),
    decreases t.len(),
{
    let s = t + l + seq!['\n'];
    if t.len() == 0 {
        assert forall|j: int| 0 <= j < l.len() implies s[j] != '\n' by {
            assert(s[j] == l[j]);
        }
        assert(s[l.len() as int] == '\n');
        lemma_find_char_at(s, '\n', l.len() as int);
        assert(s.take(l.len() as int) =~= l);
        assert(s.skip(l.len() as int + 1) =~= Seq::<char>::empty());
        assert(lines_of(s) == seq![l] + lines_of(Seq::<char>::empty()));
        assert(seq![l] + lines_of(Seq::<char>::empty()) =~= lines_of(t).push(l));
    } else {
        let i = find_char(t, '\n');
        lemma_find_char_props(t, '\n');
        if i == t.len() {
            assert(t[t.len() - 1] != '\n');
            assert(false);
        }
        assert forall|j: int| 0 <= j < i implies s[j] != '\n' by {
            assert(s[j] == t[j]);
        }
        assert(s[i] == t[i]);
        lemma_find_char_at(s, '\n', i);
        assert(s.take(i) =~= t.take(i));
        assert(s.skip(i + 1) =~= t.skip(i + 1) + l + seq!['\n']);
        if t.skip(i + 1).len() > 0 {
            assert(t.skip(i + 1).last() == t.last());
        }
        lemma_lines_of_append(t.skip(i + 1), l);
        assert(lines_of(s) == seq![t.take(i)] + lines_of(t.skip(i + 1)).push(l));
        assert(lines_of(t) == seq![t.take(i)] + lines_of(t.skip(i + 1)));
        assert(seq![t.take(i)] + lines_of(t.skip(i + 1)).push(l) =~= (seq![t.take(i)] + lines_of(
            t.skip(i + 1),
        )).push(l));
    }
}

/// The append law: appending a valid entry's serialized line to a
/// newline-terminated (or empty) ledger text extends what is read from it
/// by exactly that entry, at the end, and leaves the rest unchanged.
pub proof fn lemma_append_then_read(t: Seq<char>, e: &Entry)
    requires
        validate_spec(e) == Validation::Valid,
        t.len() == 0 || t.last() == '\n',
    ensures
        entries_of_text(t + serialize_view(e)) == entries_of_text(t).push(
            (e.date_string@, e.amount_string@),
        ),
{
    let d = e.date_string@;
    let a = e.amount_string@;
    let l = d + seq!['|'] + a;
    assert(t + serialize_view(e) =~= t + l + seq!['\n']);
    // No character of the serialized fields is a newline.
    assert forall|j: int| 0 <= j < l.len() implies l[j] != '\n' by {
        if j < d.len() {
            assert(l[j] == d[j]);
            assert(is_digit(d[j]) || d[j] == '-');
        } else if j == d.len() {
            assert(l[j] == '|');
        } else {
            assert(l[j] == a[j - d.len() - 1]);
            lemma_amount_chars(a, j - d.len() - 1);
        }
    }
    lemma_lines_of_append(t, l);
    assert(lines_of(t).push(l) =~= lines_of(t) + seq![l]);
    lemma_entries_of_lines_concat(lines_of(t), seq![l]);
    // The one appended line is kept and carries exactly the entry's fields.
    lemma_serialize_parse_round_trip(e);
    assert(serialize_view(e).drop_last() =~= l);
    assert(l.last() == a[a.len() - 1]);
    lemma_amount_chars(a, a.len() - 1);
    assert(strip_eol(serialize_view(e)) == l);
    assert(strip_eol(l) == l);
    assert(line_date(l) == d);
    assert(line_amount(l) == a);
    assert(kept_line(l)) by {
        if find_char(l, '|') >= l.len() {
            assert(line_date(l) == l.take(find_char(l, '|')));
            lemma_find_char_props(l, '|');
            assert(l.take(l.len() as int) =~= l);
            assert(d.len() == l.len());
            assert(false);
        }
    }
    assert(entries_of_lines(seq![l]) =~= seq![(d, a)]) by {
        assert(seq![l][0] == l);
        assert(kept_line(seq![l][0]));
        assert(seq![l].skip(1) =~= Seq::<Seq<char>>::empty());
        assert(entries_of_lines(Seq::<Seq<char>>::empty()) =~= Seq::<(
            Seq<char>,
            Seq<char>,
        )>::empty());
        assert(fields_of_line(l) == (d, a));
        assert(seq![fields_of_line(l)] + entries_of_lines(seq![l].skip(1)) =~= seq![(d, a)]);
    }
    assert(entries_of_text(t) + seq![(d, a)] =~= entries_of_text(t).push((d, a)));
}

} // verus!
