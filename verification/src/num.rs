//! Exact fixed-point numerics: decimal parsing of attribute values,
//! rounding division, and the `Metric` type that carries a derived value
//! in hundredths together with the non-finite outcomes of division by
//! zero.

use vstd::prelude::*;
use vstd::arithmetic::div_mod::{lemma_fundamental_div_mod, lemma_fundamental_div_mod_converse};
use crate::text::push_char;

verus! {

pub open spec fn is_digit(c: char) -> bool {
    '0' <= c && c <= '9'
}

/// Numeric value of a digit character.
pub open spec fn digit_val(c: char) -> int {
    (c as u32) - 48
}

/// A non-empty sequence made of decimal digits only.
pub open spec fn is_digits(s: Seq<char>) -> bool {
    s.len() > 0 && forall|i: int| 0 <= i < s.len() ==> is_digit(s[i])
}

/// Value of a digit sequence read in base ten.
pub open spec fn dec_val(s: Seq<char>) -> int
    decreases s.len(),
{
    if s.len() == 0 {
        0
    } else {
        dec_val(s.drop_last()) * 10 + digit_val(s.last())
    }
}

pub proof fn lemma_dec_val_nonneg(s: Seq<char>)
    requires
        forall|i: int| 0 <= i < s.len() ==> is_digit(s[i]),
    ensures
        dec_val(s) >= 0,
    decreases s.len(),
{
    if s.len() > 0 {
        lemma_dec_val_nonneg(s.drop_last());
    }
}

/// The value of a prefix of a digit sequence never exceeds the value of
/// the whole sequence.
pub proof fn lemma_dec_val_take_le(s: Seq<char>, j: int)
    requires
        0 <= j <= s.len(),
        forall|i: int| 0 <= i < s.len() ==> is_digit(s[i]),
    ensures
        dec_val(s.take(j)) <= dec_val(s),
    decreases s.len() - j,
{
    if j == s.len() {
        assert(s.take(j) =~= s);
    } else {
        lemma_dec_val_take_le(s, j + 1);
        assert(s.take(j + 1).drop_last() =~= s.take(j));
        assert(forall|i: int| 0 <= i < s.take(j).len() ==> is_digit(s.take(j)[i]));
        lemma_dec_val_nonneg(s.take(j));
    }
}

/// Reads a non-negative decimal integer. Returns the value exactly when
/// the whole string is a non-empty digit sequence whose value fits in a
/// `u64`; anything else is rejected.
pub fn parse_u64(s: &str) -> (r: Option<u64>)
    ensures
        match r {
            Some(v) => is_digits(s@) && dec_val(s@) <= u64::MAX && v == dec_val(s@),
            None => !is_digits(s@) || dec_val(s@) > u64::MAX,
        },
{
    let n: usize = s.unicode_len();
    if n == 0 {
        return None;
    }
    let mut acc: u64 = 0;
    let mut i: usize = 0;
    while i < n
        invariant
            0 <= i <= n,
            n == s@.len(),
            forall|j: int| 0 <= j < i ==> is_digit(s@[j]),
            acc == dec_val(s@.take(i as int)),
        decreases n - i,
    {
        let c = s.get_char(i);
        if !(c >= '0' && c <= '9') {
            return None;
        }
        let d: u64 = ((c as u32) - 48) as u64;
        if acc > (u64::MAX - d) / 10 {
            proof {
                assert(s@.take(i + 1).drop_last() =~= s@.take(i as int));
                assert(dec_val(s@.take(i + 1)) == acc * 10 + d);
                if is_digits(s@) {
                    lemma_dec_val_take_le(s@, i + 1);
                }
            }
            return None;
        }
        proof {
            assert(s@.take(i + 1).drop_last() =~= s@.take(i as int));
        }
        acc = acc * 10 + d;
        i = i + 1;
    }
    proof {
        assert(s@.take(n as int) =~= s@);
    }
    Some(acc)
}

/// A derived value: a finite number of hundredths, or the non-finite
/// result of a division by zero, kept apart so that it can be rendered
/// the way floating-point printing would show it.
#[derive(Clone, Copy, Debug, PartialEq, Eq, Structural)]
pub enum Metric {
    Finite(i128),
    NaN,
    Inf,
    NegInf,
}

impl Metric {
    pub open spec fn is_finite(self) -> bool {
        self is Finite
    }
}

/// `a / b` rounded to the nearest integer, ties away from zero.
/// Meaningful for `b > 0`.
pub open spec fn rha(a: int, b: int) -> int {
    if a >= 0 {
        (2 * a + b) / (2 * b)
    } else {
        -((2 * (-a) + b) / (2 * b))
    }
}

/// `a / b` truncated toward zero. Meaningful for `b > 0`.
pub open spec fn trunc_div(a: int, b: int) -> int {
    if a >= 0 {
        a / b
    } else {
        -((-a) / b)
    }
}

/// Rounded division for machine integers.
pub fn rha_u(a: u128, b: u128) -> (r: u128)
    requires
        b > 0,
        2 * a + b <= u128::MAX,
        2 * b <= u128::MAX,
    ensures
        r == rha(a as int, b as int),
{
    (2 * a + b) / (2 * b)
}

/// The ratio `part / total` as a percentage, rounded to two decimals
/// and held in hundredths; division by a zero total gives the
/// non-finite value with the sign of `part`.
pub open spec fn percentage_metric(part: int, total: int) -> Metric {
    if total == 0 {
        if part == 0 {
            Metric::NaN
        } else if part > 0 {
            Metric::Inf
        } else {
            Metric::NegInf
        }
    } else {
        Metric::Finite(rha(10000 * part, total) as i128)
    }
}

/// Computes `(part / total) * 100`, rounded to exactly two decimal
/// digits, ties away from zero. A zero `total` yields the non-finite
/// outcome instead of a panic.
pub fn calc_percentage(part: u64, total: u64) -> (m: Metric)
    ensures
        m == percentage_metric(part as int, total as int),
        total == 0 ==> !m.is_finite(),
        m matches Metric::Finite(h) ==> h >= 0,
{
    if total == 0 {
        if part == 0 {
            Metric::NaN
        } else {
            Metric::Inf
        }
    } else {
        let a: u128 = 10000 * (part as u128);
        let r: u128 = rha_u(a, total as u128);
        proof {
            assert(2 * a + (total as u128) <= u128::MAX) by {
                assert(a <= 10000 * (u64::MAX as u128));
            }
            assert(r * (2 * (total as int)) <= 2 * a + total) by {
                lemma_fundamental_div_mod(2 * (a as int) + total, 2 * (total as int));
            }
        }
        Metric::Finite(r as i128)
    }
}

/// Hour-and-minute display encoding of the exact ratio `a / b` (hours),
/// in hundredths: the integer part is the whole hours (the floor of the
/// ratio), the two-decimal fraction is the leftover minutes over one
/// hundred, rounded ties-away-from-zero. Meaningful for `b > 0`.
pub open spec fn hm_hundredths(a: int, b: int) -> int {
    let h = a / b;
    let rem = a - trunc_div(a, b) * b;
    rha(100 * h * b + 60 * rem, b)
}

/// The encoded time metric: the hour-and-minute encoding of `a / b`,
/// except that a zero `b` yields the undefined value — the leftover
/// minutes of an unbounded ratio have no meaning.
pub open spec fn hm_encode(a: int, b: int) -> Metric {
    if b == 0 {
        Metric::NaN
    } else {
        Metric::Finite(hm_hundredths(a, b) as i128)
    }
}

/// Computes `hm_encode` for a signed numerator given as sign and
/// magnitude.
pub fn hm_metric(neg: bool, mag: u64, b: u64) -> (m: Metric)
    ensures
        m == hm_encode(if neg { -(mag as int) } else { mag as int }, b as int),
        m matches Metric::Finite(h) ==> h > i128::MIN,
{
    let ghost a: int = if neg { -(mag as int) } else { mag as int };
    if b == 0 {
        Metric::NaN
    } else {
        let bw: u128 = b as u128;
        let q: u128 = (mag as u128) / bw;
        let rem: u128 = (mag as u128) % bw;
        let ghost bi: int = b as int;
        let ghost qi: int = q as int;
        let ghost remi: int = rem as int;
        let ghost magi: int = mag as int;
        proof {
            assert(magi == bi * qi + remi) by {
                lemma_fundamental_div_mod(magi, bi);
            }
            assert(bi * qi == qi * bi) by (nonlinear_arith);
            assert(0 <= remi < bi);
            assert(qi * bi <= magi);
        }
        let qb: u128 = q * bw;
        if !neg {
            let num: u128 = 100 * qb + 60 * rem;
            let r: u128 = rha_u(num, bw);
            proof {
                assert(a / bi == qi);
                assert(trunc_div(a, bi) == qi);
                assert(a - trunc_div(a, bi) * bi == remi);
                assert((100 * qi) * bi == 100 * (qi * bi)) by (nonlinear_arith);
                assert(100 * (a / bi) * bi + 60 * (a - trunc_div(a, bi) * bi) == num as int);
                assert(hm_hundredths(a, bi) == rha(num as int, bi));
                assert((r as int) * (2 * bi) <= 2 * (num as int) + bi) by {
                    lemma_fundamental_div_mod(2 * (num as int) + bi, 2 * bi);
                }
                assert(2 * (r as int) <= (r as int) * (2 * bi)) by (nonlinear_arith)
                    requires
                        bi >= 1,
                        r >= 0,
                ;
            }
            Metric::Finite(r as i128)
        } else {
            let ceil_q: u128 = if rem == 0 { q } else { q + 1 };
            proof {
                assert((ceil_q as int) * bi <= magi + bi) by (nonlinear_arith)
                    requires
                        magi == bi * qi + remi,
                        0 <= remi < bi,
                        ceil_q == if remi == 0 { qi } else { qi + 1 },
                ;
            }
            let cqb: u128 = ceil_q * bw;
            let num_mag: u128 = 100 * cqb + 60 * rem;
            let r: u128 = rha_u(num_mag, bw);
            proof {
                let rr: int = if remi == 0 { 0int } else { bi - remi };
                assert(a == (-(ceil_q as int)) * bi + rr) by (nonlinear_arith)
                    requires
                        magi == bi * qi + remi,
                        0 <= remi < bi,
                        a == -magi,
                        ceil_q == if remi == 0 { qi } else { qi + 1 },
                        rr == if remi == 0 { 0int } else { bi - remi },
                ;
                lemma_fundamental_div_mod_converse(a, bi, -(ceil_q as int), rr);
                assert(a / bi == -(ceil_q as int));
                assert((-a) / bi == qi);
                assert(trunc_div(a, bi) == -qi);
                assert(a - trunc_div(a, bi) * bi == -remi) by (nonlinear_arith)
                    requires
                        a == -magi,
                        magi == bi * qi + remi,
                        trunc_div(a, bi) == -qi,
                ;
                let num: int = 100 * (a / bi) * bi + 60 * (-remi);
                assert(num == -(num_mag as int)) by (nonlinear_arith)
                    requires
                        a / bi == -(ceil_q as int),
                        num == 100 * (a / bi) * bi + 60 * (-remi),
                        num_mag == 100 * ((ceil_q as int) * bi) + 60 * remi,
                ;
                assert(hm_hundredths(a, bi) == rha(num, bi));
                if num_mag == 0 {
                    assert(rha(0, bi) == bi / (2 * bi));
                    assert(bi / (2 * bi) == 0) by {
                        lemma_fundamental_div_mod_converse(bi, 2 * bi, 0, bi);
                    }
                }
                assert((r as int) * (2 * bi) <= 2 * (num_mag as int) + bi) by {
                    lemma_fundamental_div_mod(2 * (num_mag as int) + bi, 2 * bi);
                }
                assert(2 * (r as int) <= (r as int) * (2 * bi)) by (nonlinear_arith)
                    requires
                        bi >= 1,
                        r >= 0,
                ;
            }
            Metric::Finite(-(r as i128))
        }
    }
}

/// Decimal digit character for `0 <= d <= 9`.
pub open spec fn digit_char(d: int) -> char {
    ((48 + d) as u8) as char
}

/// Decimal rendering of a non-negative integer, no leading zeros.
pub open spec fn dec_str(n: int) -> Seq<char>
    decreases n,
{
    if 0 <= n < 10 {
        seq![digit_char(n)]
    } else if n >= 10 {
        dec_str(n / 10).push(digit_char(n % 10))
    } else {
        Seq::empty()
    }
}

/// Appends the decimal rendering of `n` to `s`.
pub fn push_dec(s: &mut String, n: u128)
    ensures
        final(s)@ == old(s)@ + dec_str(n as int),
    decreases n,
{
    if n >= 10 {
        push_dec(s, n / 10);
        let d: u8 = (48 + (n % 10) as u8) as u8;
        push_char(s, d as char);
        proof {
            assert(final(s)@ =~= old(s)@ + dec_str(n as int));
        }
    } else {
        let d: u8 = (48 + n as u8) as u8;
        push_char(s, d as char);
        proof {
            assert(final(s)@ =~= old(s)@ + dec_str(n as int));
        }
    }
}

/// The exact text a metric renders as: a signed two-decimal number, or
/// the printed form of the non-finite values.
pub open spec fn metric_str(m: Metric) -> Seq<char> {
    match m {
        Metric::NaN => "NaN"@,
        Metric::Inf => "inf"@,
        Metric::NegInf => "-inf"@,
        Metric::Finite(h) => {
            let mag = if h < 0 { -(h as int) } else { h as int };
            let sign: Seq<char> = if h < 0 { seq!['-'] } else { Seq::empty() };
            sign + dec_str(mag / 100) + seq!['.'] + seq![digit_char((mag / 10) % 10), digit_char(mag % 10)]
        },
    }
}

/// The zero metric renders as `0.00`.
pub proof fn lemma_metric_zero_renders()
    ensures
        metric_str(Metric::Finite(0)) == "0.00"@,
{
    reveal_strlit("0.00");
    assert(digit_char(0) == '0');
    assert(metric_str(Metric::Finite(0)) =~= "0.00"@);
}

/// Renders a metric to its display text, two decimals for finite
/// values.
pub fn render_metric(m: Metric) -> (s: String)
    requires
        m matches Metric::Finite(h) ==> h > i128::MIN,
    ensures
        s@ == metric_str(m),
{
    match m {
        Metric::NaN => String::from_str("NaN"),
        Metric::Inf => String::from_str("inf"),
        Metric::NegInf => String::from_str("-inf"),
        Metric::Finite(h) => {
            let mut out = String::new();
            if h < 0 {
                push_char(&mut out, '-');
            }
            let mag: u128 = if h < 0 {
                (-h) as u128
            } else {
                h as u128
            };
            push_dec(&mut out, mag / 100);
            push_char(&mut out, '.');
            let d1: u8 = (48 + ((mag / 10) % 10) as u8) as u8;
            push_char(&mut out, d1 as char);
            let d0: u8 = (48 + (mag % 10) as u8) as u8;
            push_char(&mut out, d0 as char);
            proof {
                assert(out@ =~= metric_str(m));
            }
            out
        },
    }
}

} // verus!
