//! Exact decimal amounts.  An amount string such as `-12.50` is read into a
//! sign, an integer magnitude (its digits with the decimal point removed)
//! and a scale (how many of those digits sit after the point), so that the
//! report's differences can be computed exactly in integer arithmetic.

use vstd::prelude::*;

use crate::chars::{
    all_digits,
    digits_val,
    find_char,
    is_digit,
    lemma_digits_val_bound,
    lemma_find_char_at,
    lemma_pow10_le,
    lemma_pow10_values,
    pow10,
};
use crate::entry::{amount_body, valid_amount_seq, valid_amount_str};

verus! {

/// The digits of an amount body with the decimal point removed.
pub open spec fn mant_of_body(t: Seq<char>) -> Seq<char> {
    let j = find_char(t, '.');
    if j < t.len() {
        t.take(j) + t.skip(j + 1)
    } else {
        t
    }
}

/// How many digits of an amount body sit after the decimal point.
pub open spec fn scale_of_body(t: Seq<char>) -> nat {
    let j = find_char(t, '.');
    if j < t.len() {
        (t.len() - j - 1) as nat
    } else {
        0
    }
}

/// The digit string of an amount, sign and decimal point removed.
pub open spec fn amount_mant(s: Seq<char>) -> Seq<char> {
    mant_of_body(amount_body(s))
}

/// The scale of an amount string.
pub open spec fn amount_scale(s: Seq<char>) -> nat {
    scale_of_body(amount_body(s))
}

/// The amount string is negative.
pub open spec fn amount_neg(s: Seq<char>) -> bool {
    s.len() > 0 && s[0] == '-'
}

/// The magnitude of an amount string: the value of its digits, scaled.
pub open spec fn amount_mag(s: Seq<char>) -> nat {
    digits_val(amount_mant(s))
}

/// The amount satisfies the grammar and fits the fixed-precision
/// representation: at most eighteen digits in all.
pub open spec fn amount_in_range(s: Seq<char>) -> bool {
    valid_amount_seq(s) && amount_mant(s).len() <= 18
}

/// Shape of a valid amount's body: the decimal point, if any, is exactly at
/// `find_char`, every other character is a digit, and the digit string is
/// nonempty.
pub proof fn lemma_amount_shape(s: Seq<char>)
    requires
        valid_amount_seq(s),
    ensures
        forall|k: int|
            0 <= k < amount_body(s).len() && k != find_char(amount_body(s), '.') ==> is_digit(
                amount_body(s)[k],
            ),
        find_char(amount_body(s), '.') < amount_body(s).len() ==> amount_body(s)[find_char(
            amount_body(s),
            '.',
        )] == '.',
        amount_mant(s).len() == if find_char(amount_body(s), '.') < amount_body(s).len() {
            amount_body(s).len() - 1
        } else {
            amount_body(s).len() as int
        },
        amount_mant(s).len() >= 1,
        all_digits(amount_mant(s)),
        amount_scale(s) <= amount_mant(s).len(),
{
    let b = amount_body(s);
    if all_digits(b) {
        assert forall|k: int| 0 <= k < b.len() implies b[k] != '.' by {
            assert(is_digit(b[k]));
        }
        lemma_find_char_at(b, '.', b.len() as int);
        assert(mant_of_body(b) == b);
    } else {
        let j = choose|j: int|
            0 <= j < b.len() && b[j] == '.' && all_digits(b.take(j)) && all_digits(b.skip(j + 1));
        assert forall|k: int| 0 <= k < j implies b[k] != '.' by {
            assert(b.take(j)[k] == b[k]);
            assert(is_digit(b[k]));
        }
        lemma_find_char_at(b, '.', j);
        assert forall|k: int| 0 <= k < b.len() && k != j implies is_digit(b[k]) by {
            if k < j {
                assert(b.take(j)[k] == b[k]);
            } else {
                assert(b.skip(j + 1)[k - j - 1] == b[k]);
            }
        }
        let m = b.take(j) + b.skip(j + 1);
        assert(amount_mant(s) == m);
        assert(m.len() == b.len() - 1);
        assert forall|k: int| 0 <= k < m.len() implies is_digit(m[k]) by {
            if k < j {
                assert(m[k] == b[k]);
            } else {
                assert(m[k] == b[k + 1]);
            }
        }
    }
}

/// One step of the mantissa scan: extending the processed prefix of the
/// body by one character either appends a digit to the mantissa or, at the
/// decimal point, leaves it unchanged.
proof fn lemma_mant_step(b: Seq<char>, k: int)
    requires
        0 <= k < b.len(),
        find_char(b, '.') < b.len() ==> b[find_char(b, '.')] == '.',
        forall|t: int| 0 <= t < b.len() && t != find_char(b, '.') ==> is_digit(b[t]),
    ensures
        b[k] != '.' ==> mant_of_body(b.take(k + 1)) == mant_of_body(b.take(k)).push(b[k]),
        b[k] == '.' ==> mant_of_body(b.take(k + 1)) == mant_of_body(b.take(k)),
        scale_of_body(b.take(k + 1)) == if find_char(b, '.') < k + 1 {
            k + 1 - find_char(b, '.') - 1
        } else {
            0
        },
{
    let jd = find_char(b, '.');
    crate::chars::lemma_find_char_props(b, '.');
    assert forall|t: int| 0 <= t < b.len() && t != jd implies b[t] != '.' by {
        assert(is_digit(b[t]));
    }
    let p = b.take(k);
    let q = b.take(k + 1);
    if k < jd {
        lemma_find_char_at(p, '.', k);
        lemma_find_char_at(q, '.', k + 1);
        assert(mant_of_body(p) == p);
        assert(mant_of_body(q) == q);
        assert(q =~= p.push(b[k]));
    } else if k == jd {
        lemma_find_char_at(p, '.', k);
        assert(mant_of_body(p) == p);
        assert forall|t: int| 0 <= t < k implies q[t] != '.' by {
            assert(q[t] == b[t]);
        }
        assert(q[k] == b[k]);
        lemma_find_char_at(q, '.', k);
        assert(mant_of_body(q) =~= q.take(k) + q.skip(k + 1));
        assert(q.skip(k + 1) =~= Seq::<char>::empty());
        assert(q.take(k) =~= p);
        assert(mant_of_body(q) =~= p);
        assert(mant_of_body(q) == mant_of_body(p));
    } else {
        assert forall|t: int| 0 <= t < jd implies p[t] != '.' by {
            assert(p[t] == b[t]);
        }
        assert forall|t: int| 0 <= t < jd implies q[t] != '.' by {
            assert(q[t] == b[t]);
        }
        assert(p[jd] == b[jd]);
        assert(q[jd] == b[jd]);
        lemma_find_char_at(p, '.', jd);
        lemma_find_char_at(q, '.', jd);
        assert(b[k] != '.');
        assert(mant_of_body(q) == q.take(jd) + q.skip(jd + 1));
        assert(q.take(jd) =~= p.take(jd));
        assert(q.skip(jd + 1) =~= p.skip(jd + 1).push(b[k]));
        assert(mant_of_body(q) =~= (p.take(jd) + p.skip(jd + 1)).push(b[k]));
    }
}

/// A decimal amount in fixed precision: `value() / pow10(scale)`.
#[derive(PartialEq, Eq, Structural, Clone, Copy, Debug)]
pub struct Amount {
    pub neg: bool,
    pub mag: u64,
    pub scale: u32,
}

impl Amount {
    /// The bounds every parsed amount satisfies.
    pub open spec fn wf(self) -> bool {
        self.mag < pow10(18) && self.scale <= 18
    }

    /// `self` is the parsed form of the amount string `s`.
    pub open spec fn represents(self, s: Seq<char>) -> bool {
        &&& self.neg == amount_neg(s)
        &&& self.mag == amount_mag(s)
        &&& self.scale == amount_scale(s)
    }

    /// The signed magnitude: the amount denoted is
    /// `value() / pow10(scale)`.
    pub open spec fn value(self) -> int {
        if self.neg {
            -(self.mag as int)
        } else {
            self.mag as int
        }
    }

    /// Reads an amount string.  Returns the parsed amount exactly when the
    /// string satisfies the decimal grammar and carries at most eighteen
    /// digits; longer amounts do not fit this representation.
    #[verifier::rlimit(40)]
    pub fn parse(s: &str) -> (r: Option<Amount>)
        ensures
            r is Some <==> amount_in_range(s@),
            r is Some ==> r.unwrap().wf() && r.unwrap().represents(s@),
    {
        if !valid_amount_str(s) {
            return None;
        }
        proof {
            lemma_amount_shape(s@);
            lemma_pow10_values();
        }
        let n = s.unicode_len();
        let first = s.get_char(0);
        let neg = first == '-';
        let start: usize = if first == '-' || first == '+' {
            1
        } else {
            0
        };
        let ghost b = amount_body(s@);
        proof {
            assert(b =~= s@.skip(start as int));
        }
        // Locate the decimal point, if any.
        let mut dot: usize = n;
        let mut i: usize = start;
        while i < n && dot == n
            invariant
                start <= i <= n,
                start <= 1,
                n == s@.len(),
                b == amount_body(s@),
                b =~= s@.skip(start as int),
                start <= dot <= n,
                dot == n ==> forall|j: int| start <= j < i ==> s@[j] != '.',
                dot < n ==> start <= dot < n && s@[dot as int] == '.' && forall|j: int|
                    start <= j < dot ==> s@[j] != '.',
            decreases n - i + (if dot == n { 1int } else { 0int }),
        {
            if s.get_char(i) == '.' {
                dot = i;
            } else {
                i = i + 1;
            }
        }
        proof {
            if dot < n {
                assert forall|j: int| 0 <= j < dot - start implies b[j] != '.' by {
                    assert(b[j] == s@[j + start]);
                }
                assert(b[dot - start] == s@[dot as int]);
                lemma_find_char_at(b, '.', dot - start);
            } else {
                assert forall|j: int| 0 <= j < b.len() implies b[j] != '.' by {
                    assert(b[j] == s@[j + start]);
                }
                lemma_find_char_at(b, '.', b.len() as int);
            }
        }
        // The mantissa is every body character but the point.
        let mant_len: usize = if dot < n {
            n - start - 1
        } else {
            n - start
        };
        proof {
            assert(amount_mant(s@).len() == mant_len);
        }
        if mant_len > 18 {
            return None;
        }
        // Accumulate the digits.
        let mut mag: u64 = 0;
        let mut count: usize = 0;
        let mut k: usize = start;
        while k < n
            invariant
                start <= k <= n,
                start <= 1,
                n == s@.len(),
                b == amount_body(s@),
                b =~= s@.skip(start as int),
                find_char(b, '.') == if dot < n {
                    dot - start
                } else {
                    b.len() as int
                },
                start <= dot <= n,
                dot < n ==> s@[dot as int] == '.',
                find_char(b, '.') < b.len() ==> b[find_char(b, '.')] == '.',
                forall|t: int| 0 <= t < b.len() && t != find_char(b, '.') ==> is_digit(b[t]),
                amount_mant(s@) == mant_of_body(b),
                amount_mant(s@).len() == mant_len,
                mant_len <= 18,
                count == mant_of_body(b.take(k - start)).len(),
                all_digits(mant_of_body(b.take(k - start))),
                count == k - start - (if dot < k {
                    1int
                } else {
                    0int
                }),
                count <= mant_len,
                mag == digits_val(mant_of_body(b.take(k - start))),
                pow10(18) == 1_000_000_000_000_000_000,
            decreases n - k,
        {
            let c = s.get_char(k);
            proof {
                assert(b[k - start] == s@[k as int]);
                lemma_mant_step(b, k - start);
            }
            if c == '.' {
                // The decimal point: the mantissa is unchanged.
                proof {
                    assert(k == dot);
                }
            } else {
                proof {
                    assert(is_digit(b[k - start]));
                    lemma_digits_val_bound(mant_of_body(b.take(k - start)));
                    assert(count < mant_len <= 18) by {
                        if dot < n && k < dot {
                            assert(count == k - start);
                        }
                    }
                    lemma_pow10_le((count + 1) as nat, 18);
                    crate::chars::lemma_digits_val_push(
                        mant_of_body(b.take(k - start)),
                        b[k - start],
                    );
                    assert(digits_val(mant_of_body(b.take(k - start + 1))) < pow10(
                        (count + 1) as nat,
                    )) by {
                        lemma_digits_val_bound(mant_of_body(b.take(k - start + 1)));
                        assert(all_digits(mant_of_body(b.take(k - start + 1)))) by {
                            assert forall|t: int|
                                0 <= t < mant_of_body(b.take(k - start + 1)).len() implies is_digit(
                                #[trigger] mant_of_body(b.take(k - start + 1))[t],
                            ) by {
                                if t < count {
                                    assert(mant_of_body(b.take(k - start + 1))[t] == mant_of_body(
                                        b.take(k - start),
                                    )[t]);
                                }
                            }
                        }
                    }
                    assert(mag * 10 + (c as u32 - 48) < 1_000_000_000_000_000_000);
                }
                mag = mag * 10 + (c as u32 - 48) as u64;
                count = count + 1;
            }
            k = k + 1;
        }
        proof {
            assert(b.take(n - start) =~= b);
            assert(mag == amount_mag(s@));
        }
        let scale: u32 = if dot < n {
            proof {
                assert(scale_of_body(b) == n - dot - 1);
                assert(amount_scale(s@) <= mant_len);
            }
            (n - dot - 1) as u32
        } else {
            0
        };
        proof {
            assert(scale == amount_scale(s@));
            assert(mag < pow10(18)) by {
                lemma_digits_val_bound(amount_mant(s@));
                lemma_pow10_le(amount_mant(s@).len(), 18);
            }
        }
        Some(Amount { neg, mag, scale })
    }
}

/// The scale at which two amounts are compared: the larger of the two.
pub open spec fn diff_scale(a1: Amount, a2: Amount) -> nat {
    if a1.scale >= a2.scale {
        a1.scale as nat
    } else {
        a2.scale as nat
    }
}

/// The exact difference `a2 - a1`, as a signed magnitude at `diff_scale`:
/// both amounts are brought to the common scale and subtracted.
pub open spec fn diff_num(a1: Amount, a2: Amount) -> int {
    a2.value() * pow10((diff_scale(a1, a2) - a2.scale) as nat) - a1.value() * pow10(
        (diff_scale(a1, a2) - a1.scale) as nat,
    )
}

/// Computes the sign and magnitude of the exact difference `a2 - a1` at
/// the common scale.  Zero comes back unsigned.
pub fn diff_parts(a1: &Amount, a2: &Amount) -> (p: (bool, u128))
    requires
        a1.wf(),
        a2.wf(),
    ensures
        p.0 == (diff_num(*a1, *a2) < 0),
        p.1 == if diff_num(*a1, *a2) < 0 {
            -diff_num(*a1, *a2)
        } else {
            diff_num(*a1, *a2)
        },
{
    proof {
        lemma_pow10_values();
    }
    let k: u32 = if a1.scale >= a2.scale {
        a1.scale
    } else {
        a2.scale
    };
    let p1 = pow10_u128(k - a1.scale);
    let p2 = pow10_u128(k - a2.scale);
    proof {
        lemma_pow10_le((k - a1.scale) as nat, 18);
        lemma_pow10_le((k - a2.scale) as nat, 18);
        assert((a1.mag as nat) * (p1 as nat) < 1_000_000_000_000_000_000_000_000_000_000_000_000)
            by (nonlinear_arith)
            requires
                a1.mag < 1_000_000_000_000_000_000,
                p1 <= 1_000_000_000_000_000_000,
        ;
        assert((a2.mag as nat) * (p2 as nat) < 1_000_000_000_000_000_000_000_000_000_000_000_000)
            by (nonlinear_arith)
            requires
                a2.mag < 1_000_000_000_000_000_000,
                p2 <= 1_000_000_000_000_000_000,
        ;
    }
    let m1 = (a1.mag as u128) * p1;
    let m2 = (a2.mag as u128) * p2;
    proof {
        assert(a1.value() * pow10((k - a1.scale) as nat) == if a1.neg {
            -(m1 as int)
        } else {
            m1 as int
        }) by (nonlinear_arith)
            requires
                m1 == (a1.mag as int) * pow10((k - a1.scale) as nat),
                a1.value() == if a1.neg {
                    -(a1.mag as int)
                } else {
                    a1.mag as int
                },
        ;
        assert(a2.value() * pow10((k - a2.scale) as nat) == if a2.neg {
            -(m2 as int)
        } else {
            m2 as int
        }) by (nonlinear_arith)
            requires
                m2 == (a2.mag as int) * pow10((k - a2.scale) as nat),
                a2.value() == if a2.neg {
                    -(a2.mag as int)
                } else {
                    a2.mag as int
                },
        ;
    }
    if a1.neg == a2.neg {
        // Same sign: the difference of the aligned magnitudes, signed by
        // which is larger.
        if m2 >= m1 {
            (a2.neg && m2 > m1, m2 - m1)
        } else {
            (!a2.neg, m1 - m2)
        }
    } else {
        // Opposite signs: the aligned magnitudes add, with the end sign.
        (a2.neg && m1 + m2 > 0, m1 + m2)
    }
}

/// The character of one decimal digit.
pub open spec fn digit_char(d: nat) -> char {
    if d == 0 {
        '0'
    } else if d == 1 {
        '1'
    } else if d == 2 {
        '2'
    } else if d == 3 {
        '3'
    } else if d == 4 {
        '4'
    } else if d == 5 {
        '5'
    } else if d == 6 {
        '6'
    } else if d == 7 {
        '7'
    } else if d == 8 {
        '8'
    } else {
        '9'
    }
}

/// The decimal digits of `n`, most significant first, with no leading
/// zeros (a single `0` for zero).
pub open spec fn digits_of(n: nat) -> Seq<char>
    decreases n,
{
    if n < 10 {
        seq![digit_char(n)]
    } else {
        digits_of(n / 10).push(digit_char(n % 10))
    }
}

/// The low `w` decimal digits of `n`, zero-padded to exactly `w` characters.
pub open spec fn digits_padded(n: nat, w: nat) -> Seq<char>
    decreases w,
{
    if w == 0 {
        Seq::empty()
    } else {
        digits_padded(n / 10, (w - 1) as nat).push(digit_char(n % 10))
    }
}

/// The magnitude after dropping trailing fractional zeros.
pub open spec fn trimmed_mag(m: nat, k: nat) -> nat
    decreases k,
{
    if k > 0 && m % 10 == 0 {
        trimmed_mag(m / 10, (k - 1) as nat)
    } else {
        m
    }
}

/// The scale after dropping trailing fractional zeros.
pub open spec fn trimmed_scale(m: nat, k: nat) -> nat
    decreases k,
{
    if k > 0 && m % 10 == 0 {
        trimmed_scale(m / 10, (k - 1) as nat)
    } else {
        k
    }
}

/// The display form of the scaled decimal `m / pow10(k)` with the given
/// sign: trailing fractional zeros are dropped, a whole number shows no
/// decimal point, and zero is `0` with no sign.
pub open spec fn render_scaled(neg: bool, m: nat, k: nat) -> Seq<char> {
    let m2 = trimmed_mag(m, k);
    let k2 = trimmed_scale(m, k);
    if m2 == 0 {
        seq!['0']
    } else {
        let sign: Seq<char> = if neg {
            seq!['-']
        } else {
            Seq::empty()
        };
        if k2 == 0 {
            sign + digits_of(m2)
        } else {
            sign + digits_of(m2 / pow10(k2)) + seq!['.'] + digits_padded(m2 % pow10(k2), k2)
        }
    }
}

/// The one-character string of a decimal digit.
pub fn digit_str(d: u64) -> (r: &'static str)
    requires
        d < 10,
    ensures
        r@ == seq![digit_char(d as nat)],
{
    proof {
        reveal_strlit("0");
        reveal_strlit("1");
        reveal_strlit("2");
        reveal_strlit("3");
        reveal_strlit("4");
        reveal_strlit("5");
        reveal_strlit("6");
        reveal_strlit("7");
        reveal_strlit("8");
        reveal_strlit("9");
    }
    let r = if d == 0 {
        "0"
    } else if d == 1 {
        "1"
    } else if d == 2 {
        "2"
    } else if d == 3 {
        "3"
    } else if d == 4 {
        "4"
    } else if d == 5 {
        "5"
    } else if d == 6 {
        "6"
    } else if d == 7 {
        "7"
    } else if d == 8 {
        "8"
    } else {
        "9"
    };
    proof {
        assert(r@ =~= seq![digit_char(d as nat)]);
    }
    r
}

/// The decimal digits of `n` as a string.
pub fn digits_string(n: u128) -> (r: String)
    ensures
        r@ == digits_of(n as nat),
    decreases n,
{
    if n < 10 {
        let mut r = String::new();
        r.append(digit_str(n as u64));
        proof {
            assert(r@ =~= digits_of(n as nat));
        }
        r
    } else {
        let mut r = digits_string(n / 10);
        r.append(digit_str((n % 10) as u64));
        proof {
            assert(r@ =~= digits_of(n as nat));
        }
        r
    }
}

/// The low `w` digits of `n`, zero-padded, as a string.
pub fn digits_padded_string(n: u128, w: u32) -> (r: String)
    ensures
        r@ == digits_padded(n as nat, w as nat),
    decreases w,
{
    if w == 0 {
        let r = String::new();
        proof {
            assert(r@ =~= digits_padded(n as nat, w as nat));
        }
        r
    } else {
        let mut r = digits_padded_string(n / 10, w - 1);
        r.append(digit_str((n % 10) as u64));
        proof {
            assert(r@ =~= digits_padded(n as nat, w as nat));
        }
        r
    }
}

/// Ten to the power `k`, executably.
pub fn pow10_u128(k: u32) -> (r: u128)
    requires
        k <= 36,
    ensures
        r == pow10(k as nat),
{
    proof {
        lemma_pow10_values();
    }
    let mut r: u128 = 1;
    let mut i: u32 = 0;
    while i < k
        invariant
            0 <= i <= k <= 36,
            r == pow10(i as nat),
            pow10(36) == 1_000_000_000_000_000_000_000_000_000_000_000_000,
        decreases k - i,
    {
        proof {
            lemma_pow10_le((i + 1) as nat, 36);
        }
        r = r * 10;
        i = i + 1;
    }
    r
}

/// Renders the scaled decimal `m / pow10(k)` with the given sign in its
/// display form.
pub fn render_scaled_string(neg: bool, m0: u128, k0: u32) -> (r: String)
    requires
        k0 <= 36,
    ensures
        r@ == render_scaled(neg, m0 as nat, k0 as nat),
{
    let mut m = m0;
    let mut k = k0;
    while k > 0 && m % 10 == 0
        invariant
            k <= 36,
            trimmed_mag(m0 as nat, k0 as nat) == trimmed_mag(m as nat, k as nat),
            trimmed_scale(m0 as nat, k0 as nat) == trimmed_scale(m as nat, k as nat),
        decreases k,
    {
        m = m / 10;
        k = k - 1;
    }
    proof {
        assert(trimmed_mag(m as nat, k as nat) == m as nat);
        assert(trimmed_scale(m as nat, k as nat) == k as nat);
    }
    if m == 0 {
        let mut r = String::new();
        r.append(digit_str(0));
        proof {
            assert(r@ =~= render_scaled(neg, m0 as nat, k0 as nat));
        }
        return r;
    }
    let mut r = String::new();
    if neg {
        proof {
            reveal_strlit("-");
        }
        r.append("-");
    }
    if k == 0 {
        let ds = digits_string(m);
        r.append(ds.as_str());
        proof {
            assert(r@ =~= render_scaled(neg, m0 as nat, k0 as nat));
        }
        r
    } else {
        let p = pow10_u128(k);
        proof {
            lemma_pow10_le(0, k as nat);
            reveal_strlit(".");
        }
        let ip = digits_string(m / p);
        let fp = digits_padded_string(m % p, k);
        r.append(ip.as_str());
        r.append(".");
        r.append(fp.as_str());
        proof {
            assert(r@ =~= render_scaled(neg, m0 as nat, k0 as nat));
        }
        r
    }
}

} // verus!
