//! Calculator for arithmetic queries: `+ - * / % ^` with parentheses
//! and negative numbers, over exact rational arithmetic. The caret takes
//! whole exponents only and binds tighter than `* / %` (and looser than
//! unary minus), associating to the right. Results are printed
//! as integers when whole, else rounded (half to even) at six decimal
//! places with trailing zeros removed. Malformed, unsafe or degenerate
//! input (division or remainder by zero) yields no result, never an
//! error; so does input whose numbers or intermediate values grow past
//! `CAP`, the evaluator's working range.

use crate::shims;
use crate::strutil;
use crate::strutil::spec_digits;
use vstd::prelude::*;
use vstd::string::StrSliceExecFns;
use vstd::string::StringExecFns;

verus! {

/// Numerators and denominators are kept at or below this bound.
pub const CAP: u128 = 1000000000000000000;

/// A signed rational: a sign, a magnitude numerator and a positive
/// denominator. Zero is never negative.
pub struct Rat {
    pub neg: bool,
    pub num: u128,
    pub den: u128,
}

/// The spec model of a rational: sign, numerator, denominator.
pub open spec fn rat_of(r: Rat) -> (bool, int, int) {
    (r.neg, r.num as int, r.den as int)
}

/// A well-formed model: bounded, positive denominator, zero unsigned.
pub open spec fn s_wf(v: (bool, int, int)) -> bool {
    &&& 0 <= v.1 <= CAP
    &&& 1 <= v.2 <= CAP
    &&& v.1 == 0 ==> !v.0
}

/// The greatest common divisor, by Euclid's rule.
pub open spec fn s_gcd(a: int, b: int) -> int
    decreases b,
    when 0 <= b
{
    if b == 0 {
        a
    } else {
        s_gcd(b, a % b)
    }
}

/// The greatest common divisor is positive and divides both arguments.
proof fn lemma_gcd_divides(a: int, b: int)
    requires
        0 <= a,
        0 <= b,
        a >= 1 || b >= 1,
    ensures
        s_gcd(a, b) >= 1,
        a % s_gcd(a, b) == 0,
        b % s_gcd(a, b) == 0,
    decreases b,
{
    if b == 0 {
        vstd::arithmetic::div_mod::lemma_mod_self_0(a);
        assert(0int % a == 0) by {
            vstd::arithmetic::div_mod::lemma_small_mod(0nat, a as nat);
        }
    } else {
        vstd::arithmetic::div_mod::lemma_fundamental_div_mod(a, b);
        lemma_gcd_divides(b, a % b);
        let g = s_gcd(b, a % b);
        let q1 = b / g;
        let q2 = (a % b) / g;
        vstd::arithmetic::div_mod::lemma_fundamental_div_mod(b, g);
        vstd::arithmetic::div_mod::lemma_fundamental_div_mod(a % b, g);
        assert(b == g * q1);
        assert(a % b == g * q2);
        let k = q1 * (a / b) + q2;
        assert(a == g * k) by (nonlinear_arith)
            requires
                a == b * (a / b) + (a % b),
                b == g * q1,
                a % b == g * q2,
                k == q1 * (a / b) + q2,
        ;
        vstd::arithmetic::div_mod::lemma_mod_multiples_basic(k, g);
        assert((k * g) % g == 0);
        assert(a == k * g) by (nonlinear_arith)
            requires
                a == g * k,
        ;
    }
}

/// Reduce by the greatest common divisor, bound the magnitudes and
/// normalise the sign of zero; values past the working range even after
/// reduction are given up on.
pub open spec fn s_norm(neg: bool, num: int, den: int) -> Option<(bool, int, int)> {
    let g = s_gcd(num, den);
    let num2 = num / g;
    let den2 = den / g;
    if num2 > CAP || den2 > CAP {
        None
    } else {
        Some(
            (
                if num2 == 0 {
                    false
                } else {
                    neg
                },
                num2,
                den2,
            ),
        )
    }
}

/// The greatest common divisor of two magnitudes, at least one nonzero.
fn gcd_u128(a0: u128, b0: u128) -> (g: u128)
    requires
        a0 >= 1 || b0 >= 1,
    ensures
        g as int == s_gcd(a0 as int, b0 as int),
        g >= 1,
        a0 as int % g as int == 0,
        b0 as int % g as int == 0,
{
    let mut a = a0;
    let mut b = b0;
    while b != 0
        invariant
            a >= 1 || b >= 1,
            s_gcd(a as int, b as int) == s_gcd(a0 as int, b0 as int),
        decreases b,
    {
        let t = a % b;
        a = b;
        b = t;
    }
    proof {
        lemma_gcd_divides(a0 as int, b0 as int);
    }
    a
}

/// Negation.
pub open spec fn s_neg(v: (bool, int, int)) -> (bool, int, int) {
    if v.1 == 0 {
        v
    } else {
        (!v.0, v.1, v.2)
    }
}

/// Addition over a common denominator.
pub open spec fn s_add(a: (bool, int, int), b: (bool, int, int)) -> Option<(bool, int, int)> {
    let n1 = a.1 * b.2;
    let n2 = b.1 * a.2;
    let den = a.2 * b.2;
    if a.0 == b.0 {
        s_norm(a.0, n1 + n2, den)
    } else if n1 >= n2 {
        s_norm(a.0, n1 - n2, den)
    } else {
        s_norm(b.0, n2 - n1, den)
    }
}

/// Multiplication.
pub open spec fn s_mul(a: (bool, int, int), b: (bool, int, int)) -> Option<(bool, int, int)> {
    s_norm(a.0 != b.0, a.1 * b.1, a.2 * b.2)
}

/// Division; `None` for a zero divisor.
pub open spec fn s_div(a: (bool, int, int), b: (bool, int, int)) -> Option<(bool, int, int)> {
    if b.1 == 0 {
        None
    } else {
        s_norm(a.0 != b.0, a.1 * b.2, a.2 * b.1)
    }
}

/// Remainder, carrying the dividend's sign; `None` for a zero divisor.
pub open spec fn s_rem(a: (bool, int, int), b: (bool, int, int)) -> Option<(bool, int, int)> {
    if b.1 == 0 {
        None
    } else {
        s_norm(a.0, (a.1 * b.2) % (b.1 * a.2), a.2 * b.2)
    }
}

impl Rat {
    /// The struct matches its model and the model is well-formed.
    pub open spec fn wf(self) -> bool {
        s_wf(rat_of(self))
    }
}

/// Products of two bounded magnitudes stay far inside the machine
/// range.
proof fn lemma_mul_cap(x: int, y: int)
    requires
        0 <= x <= CAP,
        0 <= y <= CAP,
    ensures
        x * y <= 1000000000000000000000000000000000000,
        x >= 1 && y >= 1 ==> x * y >= 1,
{
    assert(x * y <= 1000000000000000000000000000000000000) by (nonlinear_arith)
        requires
            0 <= x <= 1000000000000000000,
            0 <= y <= 1000000000000000000,
    ;
    if x >= 1 && y >= 1 {
        assert(x * y >= 1) by (nonlinear_arith)
            requires
                x >= 1,
                y >= 1,
        ;
    }
}

/// Build a bounded rational in lowest terms, or report that the range
/// was left.
fn norm(neg: bool, num: u128, den: u128) -> (r: Option<Rat>)
    requires
        1 <= den,
    ensures
        match r {
            Some(v) => Some(rat_of(v)) == s_norm(neg, num as int, den as int) && v.wf(),
            None => s_norm(neg, num as int, den as int) is None,
        },
{
    let g = gcd_u128(num, den);
    let num2 = num / g;
    let den2 = den / g;
    proof {
        assert(den2 >= 1) by {
            let d = den as int;
            let gi = g as int;
            let q = d / gi;
            vstd::arithmetic::div_mod::lemma_fundamental_div_mod(d, gi);
            assert(d == gi * q);
            assert(q >= 1) by (nonlinear_arith)
                requires
                    d == gi * q,
                    d >= 1,
                    gi >= 1,
                    q >= 0,
            ;
            vstd::arithmetic::div_mod::lemma_div_pos_is_pos(d, gi);
        }
    }
    if num2 > CAP || den2 > CAP {
        None
    } else {
        Some(Rat { neg: if num2 == 0 { false } else { neg }, num: num2, den: den2 })
    }
}

/// Add two bounded rationals.
fn rat_add(a: &Rat, b: &Rat) -> (r: Option<Rat>)
    requires
        a.wf(),
        b.wf(),
    ensures
        match r {
            Some(v) => Some(rat_of(v)) == s_add(rat_of(*a), rat_of(*b)) && v.wf(),
            None => s_add(rat_of(*a), rat_of(*b)) is None,
        },
{
    proof {
        lemma_mul_cap(a.num as int, b.den as int);
        lemma_mul_cap(b.num as int, a.den as int);
        lemma_mul_cap(a.den as int, b.den as int);
    }
    let n1: u128 = a.num * b.den;
    let n2: u128 = b.num * a.den;
    let den: u128 = a.den * b.den;
    if a.neg == b.neg {
        norm(a.neg, n1 + n2, den)
    } else if n1 >= n2 {
        norm(a.neg, n1 - n2, den)
    } else {
        norm(b.neg, n2 - n1, den)
    }
}

/// Negate a bounded rational.
fn rat_neg(a: &Rat) -> (r: Rat)
    requires
        a.wf(),
    ensures
        rat_of(r) == s_neg(rat_of(*a)),
        r.wf(),
{
    if a.num == 0 {
        Rat { neg: a.neg, num: a.num, den: a.den }
    } else {
        Rat { neg: !a.neg, num: a.num, den: a.den }
    }
}

/// Multiply two bounded rationals.
fn rat_mul(a: &Rat, b: &Rat) -> (r: Option<Rat>)
    requires
        a.wf(),
        b.wf(),
    ensures
        match r {
            Some(v) => Some(rat_of(v)) == s_mul(rat_of(*a), rat_of(*b)) && v.wf(),
            None => s_mul(rat_of(*a), rat_of(*b)) is None,
        },
{
    proof {
        lemma_mul_cap(a.num as int, b.num as int);
        lemma_mul_cap(a.den as int, b.den as int);
    }
    norm(a.neg != b.neg, a.num * b.num, a.den * b.den)
}

/// Divide two bounded rationals; `None` for a zero divisor.
fn rat_div(a: &Rat, b: &Rat) -> (r: Option<Rat>)
    requires
        a.wf(),
        b.wf(),
    ensures
        match r {
            Some(v) => Some(rat_of(v)) == s_div(rat_of(*a), rat_of(*b)) && v.wf(),
            None => s_div(rat_of(*a), rat_of(*b)) is None,
        },
{
    if b.num == 0 {
        None
    } else {
        proof {
            lemma_mul_cap(a.num as int, b.den as int);
            lemma_mul_cap(a.den as int, b.num as int);
        }
        norm(a.neg != b.neg, a.num * b.den, a.den * b.num)
    }
}

/// Remainder of two bounded rationals; `None` for a zero divisor.
fn rat_rem(a: &Rat, b: &Rat) -> (r: Option<Rat>)
    requires
        a.wf(),
        b.wf(),
    ensures
        match r {
            Some(v) => Some(rat_of(v)) == s_rem(rat_of(*a), rat_of(*b)) && v.wf(),
            None => s_rem(rat_of(*a), rat_of(*b)) is None,
        },
{
    if b.num == 0 {
        None
    } else {
        proof {
            lemma_mul_cap(a.num as int, b.den as int);
            lemma_mul_cap(b.num as int, a.den as int);
            lemma_mul_cap(a.den as int, b.den as int);
        }
        let n1: u128 = a.num * b.den;
        let n2: u128 = b.num * a.den;
        norm(a.neg, n1 % n2, a.den * b.den)
    }
}

/// Exponents above this give no result.
pub const MAX_EXPONENT: u128 = 1000000;

/// A bounded rational raised to a natural power by repeated
/// multiplication; anything to the zeroth power is one, and leaving the
/// working range at any step gives nothing.
pub open spec fn s_pow_nat(b: (bool, int, int), n: int) -> Option<(bool, int, int)>
    decreases n,
{
    if n <= 0 {
        Some((false, 1int, 1int))
    } else {
        match s_pow_nat(b, n - 1) {
            None => None,
            Some(acc) => s_mul(acc, b),
        }
    }
}

/// The caret: the exponent must be a whole number of magnitude at most
/// `MAX_EXPONENT`; a negative exponent inverts the base first (nothing
/// for a zero base).
pub open spec fn s_pow(b: (bool, int, int), e: (bool, int, int)) -> Option<(bool, int, int)> {
    if e.1 % e.2 != 0 {
        None
    } else {
        let n = e.1 / e.2;
        if n > MAX_EXPONENT {
            None
        } else if e.0 {
            if b.1 == 0 {
                None
            } else {
                s_pow_nat((b.0, b.2, b.1), n)
            }
        } else {
            s_pow_nat(b, n)
        }
    }
}

/// Once a power step leaves the working range, every higher power does.
proof fn lemma_pow_none_propagates(b: (bool, int, int), i: int, n: int)
    requires
        0 <= i <= n,
        s_pow_nat(b, i) is None,
    ensures
        s_pow_nat(b, n) is None,
    decreases n - i,
{
    if i < n {
        lemma_pow_none_propagates(b, i, n - 1);
    }
}

/// Raise a bounded rational to a natural power.
fn rat_pow_nat(b: &Rat, n: u64) -> (r: Option<Rat>)
    requires
        b.wf(),
    ensures
        match r {
            Some(v) => Some(rat_of(v)) == s_pow_nat(rat_of(*b), n as int) && v.wf(),
            None => s_pow_nat(rat_of(*b), n as int) is None,
        },
{
    let mut acc = Rat { neg: false, num: 1, den: 1 };
    let mut i: u64 = 0;
    while i < n
        invariant
            i <= n,
            b.wf(),
            acc.wf(),
            Some(rat_of(acc)) == s_pow_nat(rat_of(*b), i as int),
        decreases n - i,
    {
        match rat_mul(&acc, b) {
            None => {
                proof {
                    lemma_pow_none_propagates(rat_of(*b), i + 1, n as int);
                }
                return None;
            },
            Some(acc2) => {
                acc = acc2;
            },
        }
        i = i + 1;
    }
    Some(acc)
}

/// Apply the caret to two bounded rationals.
fn rat_pow(b: &Rat, e: &Rat) -> (r: Option<Rat>)
    requires
        b.wf(),
        e.wf(),
    ensures
        match r {
            Some(v) => Some(rat_of(v)) == s_pow(rat_of(*b), rat_of(*e)) && v.wf(),
            None => s_pow(rat_of(*b), rat_of(*e)) is None,
        },
{
    if e.num % e.den != 0 {
        return None;
    }
    let n128: u128 = e.num / e.den;
    if n128 > MAX_EXPONENT {
        return None;
    }
    let n: u64 = n128 as u64;
    if e.neg {
        if b.num == 0 {
            None
        } else {
            let recip = Rat { neg: b.neg, num: b.den, den: b.num };
            rat_pow_nat(&recip, n)
        }
    } else {
        rat_pow_nat(b, n)
    }
}

/// Ten to the `e`-th, for the six fractional digit positions.
pub open spec fn pow10(e: int) -> int
    decreases e,
{
    if e <= 0 {
        1
    } else {
        10 * pow10(e - 1)
    }
}

/// The six decimal digits of `fr` (which is below a million), most
/// significant first.
pub open spec fn s_frac6(fr: int) -> Seq<char> {
    Seq::new(6, |i: int| strutil::digit_char((fr / pow10(5 - i)) % 10))
}

/// Drop trailing zeros.
pub open spec fn s_trim0(s: Seq<char>) -> Seq<char>
    decreases s.len(),
{
    if s.len() > 0 && s.last() == '0' {
        s_trim0(s.drop_last())
    } else {
        s
    }
}

/// How a rational is printed: as a plain integer when it is whole and
/// small enough, else with six decimal places rounded half to even and
/// stripped of trailing zeros (and of the point, when nothing follows
/// it).
pub open spec fn s_format(v: (bool, int, int)) -> Seq<char> {
    let q = v.1 / v.2;
    let rem = v.1 % v.2;
    let sign: Seq<char> = if v.0 {
        seq!['-']
    } else {
        Seq::empty()
    };
    if rem == 0 && q < 1000000000000000 {
        sign + spec_digits(q as nat)
    } else {
        let x = rem * 1000000;
        let frac = x / v.2;
        let r2 = x % v.2;
        let rounded = if 2 * r2 > v.2 {
            frac + 1
        } else if 2 * r2 == v.2 && frac % 2 == 1 {
            frac + 1
        } else {
            frac
        };
        let q2 = if rounded == 1000000 {
            q + 1
        } else {
            q
        };
        let fr = if rounded == 1000000 {
            0
        } else {
            rounded
        };
        let tail = s_trim0(s_frac6(fr));
        if tail.len() == 0 {
            sign + spec_digits(q2 as nat)
        } else {
            sign + spec_digits(q2 as nat) + seq!['.'] + tail
        }
    }
}

/// Print a bounded rational as `s_format` describes.
fn format_rat(v: &Rat) -> (r: String)
    requires
        v.wf(),
    ensures
        r@ == s_format(rat_of(*v)),
{
    let q: u128 = v.num / v.den;
    let rem: u128 = v.num % v.den;
    if rem == 0 && q < 1000000000000000 {
        let digits = strutil::u128_to_string(q);
        if v.neg {
            let mut s = String::from_str("-");
            s.append(digits.as_str());
            proof {
                reveal_strlit("-");
                assert(s@ =~= seq!['-'] + spec_digits(q as nat));
            }
            s
        } else {
            proof {
                assert(digits@ =~= Seq::<char>::empty() + spec_digits(q as nat));
            }
            digits
        }
    } else {
        let x: u128 = rem * 1000000;
        let frac: u128 = x / v.den;
        let r2: u128 = x % v.den;
        let rounded: u128 = if 2 * r2 > v.den {
            frac + 1
        } else if 2 * r2 == v.den && frac % 2 == 1 {
            frac + 1
        } else {
            frac
        };
        proof {
            assert(frac as int == (x as int) / (v.den as int));
            assert(frac < 1000000) by {
                let xi = x as int;
                let di = v.den as int;
                vstd::arithmetic::div_mod::lemma_fundamental_div_mod(xi, di);
                assert(xi < di * 1000000) by (nonlinear_arith)
                    requires
                        rem < v.den,
                        xi == rem * 1000000,
                        di == v.den as int,
                ;
                assert((xi / di) < 1000000) by (nonlinear_arith)
                    requires
                        di >= 1,
                        di * (xi / di) <= xi,
                        xi < di * 1000000,
                ;
            }
        }
        let q2: u128 = if rounded == 1000000 {
            q + 1
        } else {
            q
        };
        let fr: u128 = if rounded == 1000000 {
            0
        } else {
            rounded
        };
        let tail = frac6_trimmed(fr);
        let mut s = if v.neg {
            String::from_str("-")
        } else {
            String::new()
        };
        proof {
            reveal_strlit("-");
        }
        let digits = strutil::u128_to_string(q2);
        s.append(digits.as_str());
        if tail.as_str().unicode_len() > 0 {
            s.append(".");
            s.append(tail.as_str());
            proof {
                reveal_strlit(".");
                let sign: Seq<char> = if v.neg {
                    seq!['-']
                } else {
                    Seq::<char>::empty()
                };
                assert(s@ =~= sign + spec_digits(q2 as nat) + seq!['.'] + s_trim0(
                    s_frac6(fr as int),
                ));
            }
        } else {
            proof {
                let sign: Seq<char> = if v.neg {
                    seq!['-']
                } else {
                    Seq::<char>::empty()
                };
                assert(s_trim0(s_frac6(fr as int)).len() == 0);
                assert(s@ =~= sign + spec_digits(q2 as nat));
            }
        }
        s
    }
}

/// The six decimal digits of `fr`, trailing zeros removed.
fn frac6_trimmed(fr: u128) -> (r: String)
    requires
        fr < 1000000,
    ensures
        r@ == s_trim0(s_frac6(fr as int)),
{
    let mut digits: Vec<char> = Vec::new();
    let mut e: u128 = 100000;
    let mut i: usize = 0;
    proof {
        reveal_with_fuel(pow10, 7);
        assert(pow10(5) == 100000);
    }
    while i < 6
        invariant
            i <= 6,
            digits@.len() == i,
            i < 6 ==> e as int == pow10(5 - i),
            fr < 1000000,
            forall|j: int|
                0 <= j < i ==> digits@[j] == strutil::digit_char((fr as int / pow10(5 - j)) % 10),
        decreases 6 - i,
    {
        proof {
            lemma_pow10_pos(5 - i);
        }
        let d: u128 = (fr / e) % 10;
        let dc = char_of_digit(d);
        digits.push(dc);
        if i < 5 {
            proof {
                assert(e as int == 10 * pow10(5 - i - 1));
            }
            e = e / 10;
        }
        i = i + 1;
    }
    proof {
        assert(digits@ =~= s_frac6(fr as int));
        assert(digits@.take(6int) =~= digits@);
    }
    let mut keep: usize = 6;
    while keep > 0 && digits[keep - 1] == '0'
        invariant
            keep <= 6,
            digits@.len() == 6,
            digits@ == s_frac6(fr as int),
            s_trim0(s_frac6(fr as int)) == s_trim0(digits@.take(keep as int)),
        decreases keep,
    {
        proof {
            assert(digits@.take(keep as int).last() == '0');
            assert(digits@.take(keep as int).drop_last() =~= digits@.take(keep - 1));
        }
        keep = keep - 1;
    }
    let mut out = String::new();
    let mut k: usize = 0;
    proof {
        assert(out@ =~= digits@.take(keep as int).take(0));
    }
    while k < keep
        invariant
            k <= keep <= 6,
            digits@.len() == 6,
            out@ == digits@.take(keep as int).take(k as int),
            forall|j: int|
                0 <= j < 6 ==> digits@[j] == strutil::digit_char((fr as int / pow10(5 - j)) % 10),
        decreases keep - k,
    {
        let c = digits[k];
        proof {
            assert(strutil::is_digit_char(c));
        }
        out.append(strutil::digit_lit(digit_code(c)));
        proof {
            assert(out@ =~= digits@.take(keep as int).take(k + 1));
        }
        k = k + 1;
    }
    proof {
        if keep > 0 {
            assert(digits@.take(keep as int).last() != '0');
            assert(s_trim0(digits@.take(keep as int)) == digits@.take(keep as int));
        } else {
            assert(digits@.take(0) =~= Seq::<char>::empty());
        }
        assert(out@ =~= digits@.take(keep as int));
    }
    out
}

/// Ten to a positive power is positive.
proof fn lemma_pow10_pos(e: int)
    ensures
        pow10(e) >= 1,
    decreases e,
{
    if e > 0 {
        lemma_pow10_pos(e - 1);
    }
}

/// The numeric code of a digit character.
fn digit_code(c: char) -> (d: u8)
    requires
        strutil::is_digit_char(c),
    ensures
        d < 10,
        strutil::digit_char(d as int) == c,
{
    match c {
        '0' => 0,
        '1' => 1,
        '2' => 2,
        '3' => 3,
        '4' => 4,
        '5' => 5,
        '6' => 6,
        '7' => 7,
        '8' => 8,
        _ => 9,
    }
}

/// The character for a digit below ten.
fn char_of_digit(d: u128) -> (c: char)
    requires
        d < 10,
    ensures
        c == strutil::digit_char(d as int),
{
    let lit = strutil::digit_lit(d as u8);
    let c = lit.get_char(0);
    c
}

} // verus!

verus! {

use crate::shims::trimmed_of;

/// An ASCII decimal digit.
pub open spec fn is_digit(c: char) -> bool {
    48 <= c as u32 <= 57
}

/// The numeric value of a digit character.
pub open spec fn digit_val(c: char) -> int {
    c as u32 - 48
}

/// An arithmetic operator character.
pub open spec fn is_op_char(c: char) -> bool {
    c == '+' || c == '-' || c == '*' || c == '/' || c == '%' || c == '^'
}

/// A character the evaluator accepts at all.
pub open spec fn is_safe_char(c: char) -> bool {
    is_digit(c) || c == '+' || c == '-' || c == '*' || c == '/' || c == '.' || c == '(' || c == ')'
        || c == ' ' || c == '%' || c == '^'
}

/// The first position at or after `i` holding something besides a
/// space.
pub open spec fn s_skip(cs: Seq<char>, i: int) -> int
    decreases cs.len() - i,
    when 0 <= i <= cs.len()
{
    if i >= cs.len() {
        i
    } else if cs[i] == ' ' {
        s_skip(cs, i + 1)
    } else {
        i
    }
}

/// Scan a decimal number with at most one point, accumulating the
/// numerator and the denominator given by the fractional digits; gives
/// up past `CAP`, and demands at least one digit.
pub open spec fn s_num_scan(
    cs: Seq<char>,
    j: int,
    acc: int,
    den: int,
    digits: bool,
    dot: bool,
) -> Option<(int, int, int)>
    decreases cs.len() - j,
    when 0 <= j <= cs.len()
{
    if j >= cs.len() {
        if digits {
            Some((j, acc, den))
        } else {
            None
        }
    } else if is_digit(cs[j]) {
        let acc2 = acc * 10 + digit_val(cs[j]);
        let den2 = if dot {
            den * 10
        } else {
            den
        };
        if acc2 > CAP || den2 > CAP {
            None
        } else {
            s_num_scan(cs, j + 1, acc2, den2, true, dot)
        }
    } else if cs[j] == '.' && !dot {
        s_num_scan(cs, j + 1, acc, den, digits, true)
    } else {
        if digits {
            Some((j, acc, den))
        } else {
            None
        }
    }
}

/// Parse a factor: a parenthesised expression, a negated factor, or a
/// number.
pub open spec fn s_factor(cs: Seq<char>, i: int) -> Option<((bool, int, int), int)>
    decreases cs.len() - i, 0int,
    when 0 <= i <= cs.len()
{
    let t = s_skip(cs, i);
    if t < i || t > cs.len() {
        None
    } else if t >= cs.len() {
        None
    } else if cs[t] == '(' {
        match s_expr(cs, t + 1) {
            None => None,
            Some((v, p)) => {
                if p < 0 || p > cs.len() {
                    None
                } else {
                    let q = s_skip(cs, p);
                    if q < cs.len() && cs[q] == ')' {
                        Some((v, q + 1))
                    } else {
                        None
                    }
                }
            },
        }
    } else if cs[t] == '-' {
        match s_factor(cs, t + 1) {
            None => None,
            Some((v, p)) => Some((s_neg(v), p)),
        }
    } else {
        match s_num_scan(cs, t, 0, 1, false, false) {
            None => None,
            Some((end, n, d)) => match s_norm(false, n, d) {
                None => None,
                Some(v) => Some((v, end)),
            },
        }
    }
}

/// Parse a power: a factor, optionally raised with a right-associative
/// caret to another power.
pub open spec fn s_power(cs: Seq<char>, i: int) -> Option<((bool, int, int), int)>
    decreases cs.len() - i, 1int,
    when 0 <= i <= cs.len()
{
    match s_factor(cs, i) {
        None => None,
        Some((b, p)) => {
            if !(i < p <= cs.len()) {
                None
            } else {
                let t = s_skip(cs, p);
                if t < p || t >= cs.len() {
                    Some((b, p))
                } else if cs[t] == '^' {
                    match s_power(cs, t + 1) {
                        None => None,
                        Some((e, p2)) => {
                            if !(p < p2 <= cs.len()) {
                                None
                            } else {
                                match s_pow(b, e) {
                                    None => None,
                                    Some(v) => Some((v, p2)),
                                }
                            }
                        },
                    }
                } else {
                    Some((b, p))
                }
            }
        },
    }
}

/// Fold further powers onto an accumulated term with `* / %`.
pub open spec fn s_term_more(cs: Seq<char>, p: int, acc: (bool, int, int)) -> Option<
    ((bool, int, int), int),
>
    decreases cs.len() - p, 2int,
    when 0 <= p <= cs.len()
{
    let t = s_skip(cs, p);
    if t < p || t >= cs.len() {
        Some((acc, p))
    } else if cs[t] == '*' || cs[t] == '/' || cs[t] == '%' {
        match s_power(cs, t + 1) {
            None => None,
            Some((rhs, p2)) => {
                if !(p < p2 <= cs.len()) {
                    None
                } else {
                    let stepped = if cs[t] == '*' {
                        s_mul(acc, rhs)
                    } else if cs[t] == '/' {
                        s_div(acc, rhs)
                    } else {
                        s_rem(acc, rhs)
                    };
                    match stepped {
                        None => None,
                        Some(acc2) => s_term_more(cs, p2, acc2),
                    }
                }
            },
        }
    } else {
        Some((acc, p))
    }
}

/// Parse a term: a power followed by `* / %` powers.
pub open spec fn s_term(cs: Seq<char>, i: int) -> Option<((bool, int, int), int)>
    decreases cs.len() - i, 3int,
    when 0 <= i <= cs.len()
{
    match s_power(cs, i) {
        None => None,
        Some((v, p)) => {
            if !(i <= p <= cs.len()) {
                None
            } else {
                s_term_more(cs, p, v)
            }
        },
    }
}

/// Fold further terms onto an accumulated expression with `+ -`.
pub open spec fn s_expr_more(cs: Seq<char>, p: int, acc: (bool, int, int)) -> Option<
    ((bool, int, int), int),
>
    decreases cs.len() - p, 4int,
    when 0 <= p <= cs.len()
{
    let t = s_skip(cs, p);
    if t < p || t >= cs.len() {
        Some((acc, p))
    } else if cs[t] == '+' || cs[t] == '-' {
        match s_term(cs, t + 1) {
            None => None,
            Some((rhs, p2)) => {
                if !(p < p2 <= cs.len()) {
                    None
                } else {
                    let stepped = if cs[t] == '+' {
                        s_add(acc, rhs)
                    } else {
                        s_add(acc, s_neg(rhs))
                    };
                    match stepped {
                        None => None,
                        Some(acc2) => s_expr_more(cs, p2, acc2),
                    }
                }
            },
        }
    } else {
        Some((acc, p))
    }
}

/// Parse an expression: a term followed by `+ -` terms.
pub open spec fn s_expr(cs: Seq<char>, i: int) -> Option<((bool, int, int), int)>
    decreases cs.len() - i, 5int,
    when 0 <= i <= cs.len()
{
    match s_term(cs, i) {
        None => None,
        Some((v, p)) => {
            if !(i <= p <= cs.len()) {
                None
            } else {
                s_expr_more(cs, p, v)
            }
        },
    }
}

/// What `evaluate_math` yields for a query: the trimmed input must hold
/// a digit and an operator, hold only accepted characters, and parse as
/// a complete expression; the value is then printed as `s_format` says.
pub open spec fn s_eval(q: Seq<char>) -> Option<Seq<char>> {
    let cs = trimmed_of(q);
    if !(exists|i: int| 0 <= i < cs.len() && is_digit(#[trigger] cs[i])) {
        None
    } else if !(exists|i: int| 0 <= i < cs.len() && is_op_char(#[trigger] cs[i])) {
        None
    } else if !(forall|i: int| 0 <= i < cs.len() ==> is_safe_char(#[trigger] cs[i])) {
        None
    } else {
        match s_expr(cs, 0) {
            None => None,
            Some((v, p)) => {
                if 0 <= p <= cs.len() && (forall|j: int| p <= j < cs.len() ==> cs[j] == ' ') {
                    Some(s_format(v))
                } else {
                    None
                }
            },
        }
    }
}

} // verus!

verus! {

/// Step over spaces.
fn skip_sp(cs: &Vec<char>, i: usize) -> (r: usize)
    requires
        i <= cs@.len(),
    ensures
        r as int == s_skip(cs@, i as int),
        i <= r <= cs@.len(),
        r < cs@.len() ==> cs@[r as int] != ' ',
{
    let mut j = i;
    while j < cs.len() && cs[j] == ' '
        invariant
            i <= j <= cs@.len(),
            s_skip(cs@, i as int) == s_skip(cs@, j as int),
        decreases cs@.len() - j,
    {
        j = j + 1;
    }
    j
}

/// Scan a number, mirroring `s_num_scan`.
fn scan_num(cs: &Vec<char>, j: usize, acc: u128, den: u128, digits: bool, dot: bool) -> (r: Option<
    (usize, u128, u128),
>)
    requires
        j <= cs@.len(),
        acc <= CAP,
        1 <= den <= CAP,
    ensures
        match r {
            Some(t) => s_num_scan(cs@, j as int, acc as int, den as int, digits, dot) == Some(
                ((t.0 as int, t.1 as int, t.2 as int)),
            ) && j <= t.0 <= cs@.len() && t.1 <= CAP && 1 <= t.2 <= CAP && (!digits ==> j
                < t.0),
            None => s_num_scan(cs@, j as int, acc as int, den as int, digits, dot) is None,
        },
    decreases cs@.len() - j,
{
    if j >= cs.len() {
        if digits {
            Some((j, acc, den))
        } else {
            None
        }
    } else {
        let c = cs[j];
        let u = c as u32;
        if u >= 48 && u <= 57 {
            let acc2: u128 = acc * 10 + (u - 48) as u128;
            let den2: u128 = if dot {
                den * 10
            } else {
                den
            };
            if acc2 > CAP || den2 > CAP {
                None
            } else {
                scan_num(cs, j + 1, acc2, den2, true, dot)
            }
        } else if c == '.' && !dot {
            scan_num(cs, j + 1, acc, den, digits, true)
        } else {
            if digits {
                Some((j, acc, den))
            } else {
                None
            }
        }
    }
}

/// Parse a factor, mirroring `s_factor`.
fn parse_factor(cs: &Vec<char>, i: usize) -> (r: Option<(Rat, usize)>)
    requires
        i <= cs@.len(),
    ensures
        match r {
            Some(t) => s_factor(cs@, i as int) == Some((rat_of(t.0), t.1 as int)) && t.0.wf() && i
                < t.1 <= cs@.len(),
            None => s_factor(cs@, i as int) is None,
        },
    decreases cs@.len() - i, 0int,
{
    let t = skip_sp(cs, i);
    if t >= cs.len() {
        None
    } else if cs[t] == '(' {
        match parse_expr(cs, t + 1) {
            None => None,
            Some(vp) => {
                let q = skip_sp(cs, vp.1);
                if q < cs.len() && cs[q] == ')' {
                    Some((vp.0, q + 1))
                } else {
                    None
                }
            },
        }
    } else if cs[t] == '-' {
        match parse_factor(cs, t + 1) {
            None => None,
            Some(vp) => Some((rat_neg(&vp.0), vp.1)),
        }
    } else {
        match scan_num(cs, t, 0, 1, false, false) {
            None => None,
            Some(tr) => {
                match norm(false, tr.1, tr.2) {
                    None => None,
                    Some(v) => Some((v, tr.0)),
                }
            },
        }
    }
}

/// Parse a power, mirroring `s_power`.
fn parse_power(cs: &Vec<char>, i: usize) -> (r: Option<(Rat, usize)>)
    requires
        i <= cs@.len(),
    ensures
        match r {
            Some(t) => s_power(cs@, i as int) == Some((rat_of(t.0), t.1 as int)) && t.0.wf() && i
                < t.1 <= cs@.len(),
            None => s_power(cs@, i as int) is None,
        },
    decreases cs@.len() - i, 1int,
{
    match parse_factor(cs, i) {
        None => None,
        Some(bp) => {
            let t = skip_sp(cs, bp.1);
            if t >= cs.len() {
                Some(bp)
            } else if cs[t] == '^' {
                match parse_power(cs, t + 1) {
                    None => None,
                    Some(ep) => {
                        match rat_pow(&bp.0, &ep.0) {
                            None => None,
                            Some(v) => Some((v, ep.1)),
                        }
                    },
                }
            } else {
                Some(bp)
            }
        },
    }
}

/// Fold `* / %` powers, mirroring `s_term_more`.
fn parse_term_more(cs: &Vec<char>, p: usize, acc: Rat) -> (r: Option<(Rat, usize)>)
    requires
        p <= cs@.len(),
        acc.wf(),
    ensures
        match r {
            Some(t) => s_term_more(cs@, p as int, rat_of(acc)) == Some((rat_of(t.0), t.1 as int))
                && t.0.wf() && p <= t.1 <= cs@.len(),
            None => s_term_more(cs@, p as int, rat_of(acc)) is None,
        },
    decreases cs@.len() - p, 2int,
{
    let t = skip_sp(cs, p);
    if t >= cs.len() {
        Some((acc, p))
    } else if cs[t] == '*' || cs[t] == '/' || cs[t] == '%' {
        match parse_power(cs, t + 1) {
            None => None,
            Some(vp) => {
                let stepped: Option<Rat> = if cs[t] == '*' {
                    rat_mul(&acc, &vp.0)
                } else if cs[t] == '/' {
                    rat_div(&acc, &vp.0)
                } else {
                    rat_rem(&acc, &vp.0)
                };
                match stepped {
                    None => None,
                    Some(acc2) => parse_term_more(cs, vp.1, acc2),
                }
            },
        }
    } else {
        Some((acc, p))
    }
}

/// Parse a term, mirroring `s_term`.
fn parse_term(cs: &Vec<char>, i: usize) -> (r: Option<(Rat, usize)>)
    requires
        i <= cs@.len(),
    ensures
        match r {
            Some(t) => s_term(cs@, i as int) == Some((rat_of(t.0), t.1 as int)) && t.0.wf() && i
                <= t.1 <= cs@.len(),
            None => s_term(cs@, i as int) is None,
        },
    decreases cs@.len() - i, 3int,
{
    match parse_power(cs, i) {
        None => None,
        Some(vp) => parse_term_more(cs, vp.1, vp.0),
    }
}

/// Fold `+ -` terms, mirroring `s_expr_more`.
fn parse_expr_more(cs: &Vec<char>, p: usize, acc: Rat) -> (r: Option<(Rat, usize)>)
    requires
        p <= cs@.len(),
        acc.wf(),
    ensures
        match r {
            Some(t) => s_expr_more(cs@, p as int, rat_of(acc)) == Some((rat_of(t.0), t.1 as int))
                && t.0.wf() && p <= t.1 <= cs@.len(),
            None => s_expr_more(cs@, p as int, rat_of(acc)) is None,
        },
    decreases cs@.len() - p, 4int,
{
    let t = skip_sp(cs, p);
    if t >= cs.len() {
        Some((acc, p))
    } else if cs[t] == '+' || cs[t] == '-' {
        match parse_term(cs, t + 1) {
            None => None,
            Some(vp) => {
                let stepped: Option<Rat> = if cs[t] == '+' {
                    rat_add(&acc, &vp.0)
                } else {
                    let n = rat_neg(&vp.0);
                    rat_add(&acc, &n)
                };
                match stepped {
                    None => None,
                    Some(acc2) => parse_expr_more(cs, vp.1, acc2),
                }
            },
        }
    } else {
        Some((acc, p))
    }
}

/// Parse an expression, mirroring `s_expr`.
fn parse_expr(cs: &Vec<char>, i: usize) -> (r: Option<(Rat, usize)>)
    requires
        i <= cs@.len(),
    ensures
        match r {
            Some(t) => s_expr(cs@, i as int) == Some((rat_of(t.0), t.1 as int)) && t.0.wf() && i
                <= t.1 <= cs@.len(),
            None => s_expr(cs@, i as int) is None,
        },
    decreases cs@.len() - i, 5int,
{
    match parse_term(cs, i) {
        None => None,
        Some(vp) => parse_expr_more(cs, vp.1, vp.0),
    }
}

/// Evaluate an arithmetic query, if it is one: `+ - * / % ^` with
/// parentheses and negative numbers over exact rationals (the caret
/// takes whole exponents of magnitude at most `MAX_EXPONENT`). Yields
/// the printed value, or nothing for input that is not a
/// self-contained arithmetic expression, divides or takes a remainder
/// by zero, raises to a fractional or oversized exponent, or leaves the
/// evaluator's working range.
pub fn evaluate_math(query: &str) -> (r: Option<String>)
    ensures
        match r {
            Some(s) => s_eval(query@) == Some(s@),
            None => s_eval(query@) is None,
        },
{
    let trimmed = shims::str_trim(query);
    let cs = strutil::chars_of(trimmed.as_str());
    let mut has_digit = false;
    let mut has_op = false;
    let mut all_safe = true;
    let mut i: usize = 0;
    while i < cs.len()
        invariant
            i <= cs@.len(),
            has_digit == exists|k: int| 0 <= k < i && is_digit(#[trigger] cs@[k]),
            has_op == exists|k: int| 0 <= k < i && is_op_char(#[trigger] cs@[k]),
            all_safe == forall|k: int| 0 <= k < i ==> is_safe_char(#[trigger] cs@[k]),
        decreases cs@.len() - i,
    {
        let c = cs[i];
        let u = c as u32;
        proof {
            assert(c == cs@[i as int]);
            assert(is_digit(cs@[i as int]) == (48 <= u <= 57));
        }
        if u >= 48 && u <= 57 {
            has_digit = true;
        }
        if c == '+' || c == '-' || c == '*' || c == '/' || c == '%' || c == '^' {
            has_op = true;
        }
        let safe = (u >= 48 && u <= 57) || c == '+' || c == '-' || c == '*' || c == '/' || c == '.'
            || c == '(' || c == ')' || c == ' ' || c == '%' || c == '^';
        if !safe {
            all_safe = false;
        }
        proof {
            assert(is_op_char(cs@[i as int]) == (c == '+' || c == '-' || c == '*' || c == '/' || c
                == '%' || c == '^'));
            assert(is_safe_char(cs@[i as int]) == safe);
        }
        i = i + 1;
    }
    if !has_digit {
        return None;
    }
    if !has_op {
        return None;
    }
    if !all_safe {
        return None;
    }
    match parse_expr(&cs, 0) {
        None => None,
        Some(vp) => {
            let mut j = vp.1;
            while j < cs.len() && cs[j] == ' '
                invariant
                    vp.1 <= j <= cs@.len(),
                    forall|k: int| vp.1 <= k < j ==> cs@[k] == ' ',
                decreases cs@.len() - j,
            {
                j = j + 1;
            }
            if j < cs.len() {
                proof {
                    assert(cs@[j as int] != ' ');
                }
                None
            } else {
                Some(format_rat(&vp.0))
            }
        },
    }
}

} // verus!
