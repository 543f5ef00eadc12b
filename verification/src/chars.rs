//! Character-level helpers shared by the entry format: decimal digits,
//! locating a delimiter in a sequence of characters, and the numeric value
//! of a run of digits.

use vstd::prelude::*;

verus! {

/// `c` is a decimal digit.
pub open spec fn is_digit(c: char) -> bool {
    '0' as u32 <= c as u32 && c as u32 <= '9' as u32
}

/// Numeric value of a digit character.
pub open spec fn digit_val(c: char) -> nat {
    (c as u32 - '0' as u32) as nat
}

/// Every character of `s` is a decimal digit.
pub open spec fn all_digits(s: Seq<char>) -> bool {
    forall|i: int| 0 <= i < s.len() ==> is_digit(s[i])
}

/// Index of the first occurrence of `c` in `s`, or `s.len()` if absent.
pub open spec fn find_char(s: Seq<char>, c: char) -> int
    decreases s.len(),
{
    if s.len() == 0 {
        0
    } else if s[0] == c {
        0
    } else {
        1 + find_char(s.skip(1), c)
    }
}

/// `find_char` lands in range, on an occurrence of `c` if there is one, and
/// nothing before it is `c`.
pub proof fn lemma_find_char_props(s: Seq<char>, c: char)
    ensures
        0 <= find_char(s, c) <= s.len(),
        find_char(s, c) < s.len() ==> s[find_char(s, c)] == c,
        forall|j: int| 0 <= j < find_char(s, c) ==> s[j] != c,
    decreases s.len(),
{
    if s.len() == 0 {
    } else if s[0] == c {
    } else {
        lemma_find_char_props(s.skip(1), c);
        assert forall|j: int| 0 <= j < find_char(s, c) implies s[j] != c by {
            if j > 0 {
                assert(s.skip(1)[j - 1] == s[j]);
            }
        }
    }
}

/// `find_char` is pinned by its characterization: if nothing before `i` is
/// `c`, and `i` is an occurrence (or the end), then `find_char` is `i`.
pub proof fn lemma_find_char_at(s: Seq<char>, c: char, i: int)
    requires
        0 <= i <= s.len(),
        forall|j: int| 0 <= j < i ==> s[j] != c,
        i < s.len() ==> s[i] == c,
    ensures
        find_char(s, c) == i,
    decreases s.len(),
{
    if s.len() == 0 {
    } else if i == 0 {
    } else {
        assert(s[0] != c);
        assert forall|j: int| 0 <= j < i - 1 implies s.skip(1)[j] != c by {
            assert(s.skip(1)[j] == s[j + 1]);
        }
        assert(i - 1 < s.skip(1).len() ==> s.skip(1)[i - 1] == c);
        lemma_find_char_at(s.skip(1), c, i - 1);
    }
}

/// Numeric value of a digit string read in base ten.
pub open spec fn digits_val(s: Seq<char>) -> nat
    decreases s.len(),
{
    if s.len() == 0 {
        0
    } else {
        digits_val(s.drop_last()) * 10 + digit_val(s.last())
    }
}

/// Powers of ten.
pub open spec fn pow10(n: nat) -> nat
    decreases n,
{
    if n == 0 {
        1
    } else {
        10 * pow10((n - 1) as nat)
    }
}

/// Appending a digit multiplies the value by ten and adds the digit.
pub proof fn lemma_digits_val_push(s: Seq<char>, c: char)
    ensures
        digits_val(s.push(c)) == digits_val(s) * 10 + digit_val(c),
{
    assert(s.push(c).drop_last() =~= s);
    assert(s.push(c).last() == c);
}

/// A digit string's value is below ten to its length.
pub proof fn lemma_digits_val_bound(s: Seq<char>)
    requires
        all_digits(s),
    ensures
        digits_val(s) < pow10(s.len()),
    decreases s.len(),
{
    if s.len() == 0 {
    } else {
        assert(all_digits(s.drop_last()));
        lemma_digits_val_bound(s.drop_last());
        assert(is_digit(s.last()));
        assert(digit_val(s.last()) <= 9);
    }
}

/// Ten to a power is positive.
pub proof fn lemma_pow10_pos(n: nat)
    ensures
        pow10(n) >= 1,
    decreases n,
{
    if n > 0 {
        lemma_pow10_pos((n - 1) as nat);
    }
}

/// Ten to a power only grows with the exponent.
pub proof fn lemma_pow10_le(m: nat, n: nat)
    requires
        m <= n,
    ensures
        1 <= pow10(m) <= pow10(n),
    decreases n,
{
    lemma_pow10_pos(m);
    if m < n {
        lemma_pow10_le(m, (n - 1) as nat);
    }
}

/// Reading a concatenation: the front part is shifted past the back part.
pub proof fn lemma_digits_val_concat(a: Seq<char>, b: Seq<char>)
    ensures
        digits_val(a + b) == digits_val(a) * pow10(b.len()) + digits_val(b),
    decreases b.len(),
{
    if b.len() == 0 {
        assert(a + b =~= a);
        assert(digits_val(b) == 0);
        assert(pow10(b.len()) == 1);
        assert(digits_val(a) * 1 == digits_val(a)) by (nonlinear_arith);
    } else {
        let b0 = b.drop_last();
        lemma_digits_val_concat(a, b0);
        assert(a + b =~= (a + b0).push(b.last()));
        lemma_digits_val_push(a + b0, b.last());
        assert(digits_val(a + b) == (digits_val(a) * pow10(b0.len()) + digits_val(b0)) * 10
            + digit_val(b.last()));
        assert(pow10(b.len()) == 10 * pow10(b0.len()));
        assert(digits_val(b) == digits_val(b0) * 10 + digit_val(b.last()));
        assert(digits_val(a + b) == digits_val(a) * pow10(b.len()) + digits_val(b))
            by (nonlinear_arith)
            requires
                digits_val(a + b) == (digits_val(a) * pow10(b0.len()) + digits_val(b0)) * 10
                    + digit_val(b.last()),
                pow10(b.len()) == 10 * pow10(b0.len()),
                digits_val(b) == digits_val(b0) * 10 + digit_val(b.last()),
        ;
    }
}

/// The value of a digit string is at least the value of any of its prefixes.
pub proof fn lemma_digits_val_prefix(a: Seq<char>, b: Seq<char>)
    ensures
        digits_val(a + b) >= digits_val(a),
{
    lemma_digits_val_concat(a, b);
    lemma_pow10_le(0, b.len());
    assert(digits_val(a) * pow10(b.len()) >= digits_val(a) * 1) by (nonlinear_arith)
        requires
            pow10(b.len()) >= 1,
    ;
}

/// The two power-of-ten constants the amount arithmetic stays below.
pub proof fn lemma_pow10_values()
    ensures
        pow10(18) == 1_000_000_000_000_000_000,
        pow10(36) == 1_000_000_000_000_000_000_000_000_000_000_000_000,
{
    reveal_with_fuel(pow10, 37);
}

} // verus!
