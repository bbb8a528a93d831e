//! The value of a decimal literal: of all binary64 values the one nearest to
//! what the literal says, and of two that are equally near the one with the
//! even significand.

use vstd::prelude::*;
use vstd::arithmetic::power2::{
    lemma2_to64, lemma2_to64_rest, lemma_pow2_adds, lemma_pow2_pos, pow2,
};
use crate::binary64::{bit_length, lemma_bit_length_bounds, pattern, INFINITY, NEGATIVE_ZERO};
use crate::lexer::{has, lemma_run_end, member, run_end, skip_run, Class};
use crate::natural::Natural;
use crate::rounding::{
    lemma_pow2_grows, lemma_round_huge, lemma_round_tiny, lies_at, round_pack, round_ratio,
};

verus! {

/// The value of a decimal digit.
pub open spec fn digit_value(c: char) -> nat {
    (c as int - '0' as int) as nat
}

/// The number that a text of decimal digits writes.
pub open spec fn decimal_value(digits: Seq<char>) -> nat
    decreases digits.len(),
{
    if digits.len() == 0 {
        0
    } else {
        10 * decimal_value(digits.drop_last()) + digit_value(digits.last())
    }
}

/// The position behind a sign at `pos`, or `pos` where there is none.
pub open spec fn sign_end(s: Seq<char>, pos: int) -> int {
    if has(s, pos, '+') || has(s, pos, '-') {
        pos + 1
    } else {
        pos
    }
}

/// Where the digits before the point of a literal end.
pub open spec fn whole_end(literal: Seq<char>) -> int {
    run_end(literal, sign_end(literal, 0), Class::Digit)
}

/// Where the mantissa of a literal ends: behind the digits that follow the
/// point, or behind the digits before it where there is no point.
pub open spec fn mantissa_stop(literal: Seq<char>) -> int {
    if has(literal, whole_end(literal), '.') {
        run_end(literal, whole_end(literal) + 1, Class::Digit)
    } else {
        whole_end(literal)
    }
}

/// The digits of the mantissa of a literal: those before the point and those
/// behind it.
pub open spec fn mantissa_digits(literal: Seq<char>) -> Seq<char> {
    literal.subrange(sign_end(literal, 0), whole_end(literal)) + fraction_digits(literal)
}

/// The digits behind the point of a literal.
pub open spec fn fraction_digits(literal: Seq<char>) -> Seq<char> {
    if has(literal, whole_end(literal), '.') {
        literal.subrange(whole_end(literal) + 1, mantissa_stop(literal))
    } else {
        Seq::empty()
    }
}

/// Whether a literal has an exponent.
pub open spec fn has_exponent(literal: Seq<char>) -> bool {
    has(literal, mantissa_stop(literal), 'e') || has(literal, mantissa_stop(literal), 'E')
}

/// The digits of the exponent of a literal.
pub open spec fn exponent_digits(literal: Seq<char>) -> Seq<char> {
    let from = sign_end(literal, mantissa_stop(literal) + 1);
    literal.subrange(from, run_end(literal, from, Class::Digit))
}

/// The exponent of a literal: 0 where it has none.
pub open spec fn exponent_of(literal: Seq<char>) -> int {
    if !has_exponent(literal) {
        0
    } else if has(literal, mantissa_stop(literal) + 1, '-') {
        -(decimal_value(exponent_digits(literal)) as int)
    } else {
        decimal_value(exponent_digits(literal)) as int
    }
}

/// The power of 10 that the mantissa of a literal, read as a whole number, is
/// to be multiplied by: the exponent, less the number of digits behind the
/// point.
pub open spec fn shift_of(literal: Seq<char>) -> int {
    exponent_of(literal) - fraction_digits(literal).len()
}

/// The binary64 value of a literal: the nearest to what the literal says,
/// with the sign of the literal.
pub open spec fn literal_bits(literal: Seq<char>) -> u64 {
    nearest_to(has(literal, 0, '-'), decimal_value(mantissa_digits(literal)), shift_of(literal))
}

/// The `n`-th power of 10.
pub open spec fn pow10(n: nat) -> nat
    decreases n,
{
    if n == 0 {
        1
    } else {
        10 * pow10((n - 1) as nat)
    }
}

/// The number of ticks that `mantissa * 10^shift` is, as a ratio: the
/// numerator.
pub open spec fn ticks_above(mantissa: nat, shift: int) -> nat {
    if shift >= 0 {
        mantissa * pow10(shift as nat) * pow2(1074)
    } else {
        mantissa * pow2(1074)
    }
}

/// The number of ticks that `mantissa * 10^shift` is, as a ratio: the
/// denominator.
pub open spec fn ticks_below(shift: int) -> nat {
    if shift >= 0 {
        1
    } else {
        pow10((-shift) as nat)
    }
}

/// The binary64 value nearest to `mantissa * 10^shift`, with the given sign.
pub open spec fn nearest_to(minus: bool, mantissa: nat, shift: int) -> u64 {
    pattern(minus, round_ratio(ticks_above(mantissa, shift), ticks_below(shift)))
}

/// A power of 10 lies between the powers of 8 and of 16.
pub proof fn lemma_pow10_bounds(n: nat)
    ensures
        pow2(3 * n) <= pow10(n) <= pow2(4 * n),
        pow10(n) > 0,
    decreases n,
{
    lemma2_to64();
    if n > 0 {
        lemma_pow10_bounds((n - 1) as nat);
        lemma_pow2_adds(3, (3 * (n - 1)) as nat);
        lemma_pow2_adds(4, (4 * (n - 1)) as nat);
    }
}

/// Where a division leaves a quotient and a rest, the dividend having been
/// doubled `t` times or the divisor `s` times before, the ratio lies at the
/// quotient.
proof fn lemma_division_lies(q: nat, rest: nat, n0: nat, den: nat, s: nat, t: nat)
    requires
        den > 0,
        s == 0 || t == 0,
        q * (den * pow2(s)) * pow2(57) + rest == n0 * pow2(t) * pow2(57),
        rest < den * pow2(s) * pow2(57),
    ensures
        lies_at(q, s - t + 1074, rest != 0, n0 * pow2(1074), den),
{
    let c = pow2(57) as int;
    let ps = pow2(s) as int;
    let pt = pow2(t) as int;
    let a = n0 * pt;
    let b = den * ps;
    let num = (n0 * pow2(1074)) as int;
    let d = den as int;
    lemma_pow2_pos(57);
    lemma_pow2_pos(s);
    lemma_pow2_pos(t);
    lemma_pow2_pos(1074);
    lemma2_to64();
    let e = s - t + 1074;
    assert(q * b * c + rest == a * c);
    assert(rest < b * c);
    if e >= 0 {
        let step = pow2(e as nat) as int;
        lemma_pow2_pos(e as nat);
        // Both sides of the division, brought to ticks.
        let g: int = if t == 0 {
            pow2(1074) as int
        } else {
            pow2((1074 - t) as nat) as int
        };
        if t == 0 {
            lemma_pow2_adds(s, 1074);
            assert(pt == 1);
            assert(step == ps * g);
            assert(num == a * g) by (nonlinear_arith)
                requires
                    num == n0 * g,
                    a == n0 * pt,
                    pt == 1,
            ;
        } else {
            lemma_pow2_adds(t, (1074 - t) as nat);
            lemma_pow2_pos((1074 - t) as nat);
            assert(ps == 1);
            assert(step == g);
            assert(step == ps * g) by (nonlinear_arith)
                requires
                    step == g,
                    ps == 1,
            ;
            assert(num == a * g) by (nonlinear_arith)
                requires
                    num == n0 * (pt * g),
                    a == n0 * pt,
            ;
        }
        assert(g > 0);
        let low = q * step;
        assert(low * d == q * b * g) by (nonlinear_arith)
            requires
                low == q * step,
                step == ps * g,
                b == d * ps,
        ;
        assert((q * b * g) * c + rest * g == num * c) by (nonlinear_arith)
            requires
                q * b * c + rest == a * c,
                num == a * g,
        ;
        assert(rest * g < step * d * c) by (nonlinear_arith)
            requires
                rest < b * c,
                b == d * ps,
                step == ps * g,
                g > 0,
        ;
        assert(low * d <= num) by (nonlinear_arith)
            requires
                (low * d) * c + rest * g == num * c,
                rest * g >= 0,
                c > 0,
        ;
        assert(num < (low + step) * d) by (nonlinear_arith)
            requires
                (low * d) * c + rest * g == num * c,
                rest * g < step * d * c,
                c > 0,
        ;
        assert(rest != 0 <==> low * d < num) by (nonlinear_arith)
            requires
                (low * d) * c + rest * g == num * c,
                c > 0,
                g > 0,
                rest >= 0,
        ;
    } else {
        let back = pow2((-e) as nat) as int;
        lemma_pow2_adds(1074, (-e) as nat);
        assert(ps == 1);
        assert(num * back == a) by (nonlinear_arith)
            requires
                num == n0 * pow2(1074),
                a == n0 * pt,
                pt == pow2(1074) * back,
        ;
        assert(b == d) by (nonlinear_arith)
            requires
                b == d * ps,
                ps == 1,
        ;
        assert(q * d <= num * back) by (nonlinear_arith)
            requires
                q * d * c + rest == (num * back) * c,
                rest >= 0,
                c > 0,
        ;
        assert(num * back < (q + 1) * d) by (nonlinear_arith)
            requires
                q * d * c + rest == (num * back) * c,
                rest < d * c,
                c > 0,
        ;
        assert(rest != 0 <==> q * d < num * back) by (nonlinear_arith)
            requires
                q * d * c + rest == (num * back) * c,
                c > 0,
                rest >= 0,
        ;
    }
}

/// A number times a power of 10.
fn times_power_of_ten(n: &Natural, power: u128) -> (r: Natural)
    ensures
        r@ == n@ * pow10(power as nat),
{
    let mut r = n.times_plus(1, 0);
    let mut i: u128 = 0;
    proof {
        assert(n@ * 1 + 0 == n@ * pow10(0)) by (nonlinear_arith)
            requires
                pow10(0) == 1,
        ;
    }
    while i < power
        invariant
            i <= power,
            r@ == n@ * pow10(i as nat),
        decreases power - i,
    {
        proof {
            assert(n@ * pow10(i as nat) * 10 + 0 == n@ * pow10((i + 1) as nat)) by (nonlinear_arith)
                requires
                    pow10((i + 1) as nat) == 10 * pow10(i as nat),
            ;
        }
        r = r.times_plus(10, 0);
        i += 1;
    }
    r
}

/// A number times a power of two.
pub(crate) fn times_power_of_two(n: &Natural, power: u32) -> (r: Natural)
    ensures
        r@ == n@ * pow2(power as nat),
{
    let mut r = n.times_plus(1, 0);
    let mut i: u32 = 0;
    proof {
        lemma2_to64();
        assert(n@ * 1 + 0 == n@ * pow2(0)) by (nonlinear_arith)
            requires
                pow2(0) == 1,
        ;
    }
    while i < power
        invariant
            i <= power,
            r@ == n@ * pow2(i as nat),
        decreases power - i,
    {
        proof {
            lemma_pow2_adds(1, i as nat);
            lemma2_to64();
            assert(n@ * pow2(i as nat) * 2 + 0 == n@ * pow2((i + 1) as nat)) by (nonlinear_arith)
                requires
                    pow2((i + 1) as nat) == 2 * pow2(i as nat),
            ;
        }
        r = r.times_plus(2, 0);
        i += 1;
    }
    r
}

/// The pattern of zero or of an infinity with the given sign.
fn signed(minus: bool, bits: u64) -> (r: u64)
    requires
        bits == 0 || bits == INFINITY,
    ensures
        r == (if minus {
            NEGATIVE_ZERO as int
        } else {
            0
        }) + bits,
{
    if minus {
        NEGATIVE_ZERO + bits
    } else {
        bits
    }
}

/// The binary64 value nearest to `mantissa * 10^shift`, with the given sign.
pub fn nearest_value(minus: bool, mantissa: &Natural, shift: i128) -> (r: u64)
    requires
        mantissa@ > 0,
        -0x1_0000_0000_0000_0000_0000 <= shift <= 0x1_0000_0000_0000_0000_0000,
    ensures
        r == nearest_to(minus, mantissa@, shift as int),
{
    let one = Natural::one();
    let (dividend, divisor) = if shift >= 0 {
        (times_power_of_ten(mantissa, shift as u128), one)
    } else {
        (mantissa.times_plus(1, 0), times_power_of_ten(&one, (-shift) as u128))
    };
    let ghost n0 = dividend@;
    let ghost den = divisor@;
    let ghost num = n0 * pow2(1074);
    proof {
        lemma2_to64();
        lemma2_to64_rest();
        lemma_pow2_pos(1074);
        lemma_pow2_pos(2098);
        if shift >= 0 {
            lemma_pow10_bounds(shift as nat);
            assert(n0 >= 1) by (nonlinear_arith)
                requires
                    n0 == mantissa@ * pow10(shift as nat),
                    mantissa@ >= 1,
                    pow10(shift as nat) >= 1,
            ;
        } else {
            lemma_pow10_bounds((-shift) as nat);
            assert(den == pow10((-shift) as nat)) by (nonlinear_arith)
                requires
                    den == 1 * pow10((-shift) as nat),
            ;
        }
        assert(num == ticks_above(mantissa@, shift as int));
        assert(den == ticks_below(shift as int));
        assert(den >= 1 && n0 >= 1);
    }
    // The divisor, times 2^56 and then doubled until twice of it is more than
    // the dividend.
    let mut t56 = times_power_of_two(&divisor, 56);
    let mut s: u32 = 0;
    loop
        invariant_except_break
            s <= 1100,
            t56@ == den * pow2((56 + s) as nat),
            s > 0 ==> n0 >= t56@,
            dividend@ == n0,
            den >= 1,
            n0 >= 1,
            num == n0 * pow2(1074),
            num == ticks_above(mantissa@, shift as int),
            den == ticks_below(shift as int),
        ensures
            s <= 1100,
            t56@ == den * pow2((56 + s) as nat),
            s > 0 ==> n0 >= t56@,
            n0 < 2 * t56@,
            dividend@ == n0,
        decreases 1101 - s,
    {
        let doubled = t56.times_plus(2, 0);
        match dividend.minus(&doubled) {
            None => {
                break ;
            },
            Some(_) => {
                proof {
                    lemma_pow2_adds(1, (56 + s) as nat);
                    lemma2_to64();
                    assert(doubled@ == den * pow2((57 + s) as nat)) by (nonlinear_arith)
                        requires
                            doubled@ == t56@ * 2 + 0,
                            t56@ == den * pow2((56 + s) as nat),
                            pow2((57 + s) as nat) == 2 * pow2((56 + s) as nat),
                    ;
                }
                if s == 1100 {
                    proof {
                        lemma_pow2_adds(1074, 1157);
                        lemma_pow2_grows(2098, 2231);
                        assert(num >= pow2(2098) * den) by (nonlinear_arith)
                            requires
                                num == n0 * pow2(1074),
                                n0 >= den * pow2(1157),
                                pow2(2231) == pow2(1074) * pow2(1157),
                                pow2(2098) <= pow2(2231),
                                den >= 1,
                        ;
                        lemma_round_huge(num, den);
                        lemma_pow2_pos(2098);
                    }
                    return signed(minus, INFINITY);
                }
                t56 = doubled;
                s = s + 1;
            },
        }
    }
    // The dividend, doubled until it is no less than the divisor.
    let mut widened = dividend;
    let mut t: u32 = 0;
    loop
        invariant_except_break
            t <= 1140,
            s <= 1100,
            widened@ == n0 * pow2(t as nat),
            widened@ < 2 * t56@,
            s > 0 ==> t == 0 && n0 >= t56@,
            t56@ == den * pow2((56 + s) as nat),
            den >= 1,
            n0 >= 1,
            num == n0 * pow2(1074),
            num == ticks_above(mantissa@, shift as int),
            den == ticks_below(shift as int),
        ensures
            t <= 1140,
            widened@ == n0 * pow2(t as nat),
            t56@ <= widened@ < 2 * t56@,
            s == 0 || t == 0,
        decreases 1141 - t,
    {
        match widened.minus(&t56) {
            Some(_) => {
                break ;
            },
            None => {
                if t == 1140 {
                    proof {
                        lemma2_to64();
                        lemma_pow2_adds(56, 1084);
                        lemma_pow2_adds(1075, 9);
                        lemma_pow2_adds(1, 1074);
                        lemma_pow2_pos(1075);
                        lemma_pow2_pos(56);
                        lemma_pow2_pos(2098);
                        assert(2 * num < den) by (nonlinear_arith)
                            requires
                                num == n0 * pow2(1074),
                                n0 * pow2(1140) < den * pow2(56),
                                pow2(1140) == pow2(56) * pow2(1084),
                                pow2(1084) == pow2(1075) * 512,
                                pow2(1075) == 2 * pow2(1074),
                                pow2(56) > 0,
                                pow2(1075) > 0,
                                n0 >= 1,
                        ;
                        lemma_round_tiny(num, den);
                    }
                    return signed(minus, 0);
                }
                proof {
                    lemma_pow2_adds(1, t as nat);
                    lemma2_to64();
                    assert(widened@ * 2 + 0 == n0 * pow2((t + 1) as nat)) by (nonlinear_arith)
                        requires
                            widened@ == n0 * pow2(t as nat),
                            pow2((t + 1) as nat) == 2 * pow2(t as nat),
                    ;
                }
                widened = widened.times_plus(2, 0);
                t = t + 1;
            },
        }
    }
    // The quotient, digit by digit: 57 binary digits.
    let mut q: u64 = 0;
    let mut rest = widened;
    let mut k: u32 = 0;
    proof {
        assert(2 * q * t56@ + rest@ == rest@ * pow2(0)) by (nonlinear_arith)
            requires
                q == 0,
                pow2(0) == 1,
        ;
    }
    let ghost w = rest@;
    while k < 57
        invariant
            k <= 57,
            2 * q * t56@ + rest@ == w * pow2(k as nat),
            rest@ < 2 * t56@,
            q < pow2(k as nat),
            t56@ > 0,
        decreases 57 - k,
    {
        let ghost before = rest@;
        let ghost q0 = q;
        proof {
            lemma_pow2_adds(1, k as nat);
            lemma2_to64();
            lemma2_to64_rest();
            lemma_pow2_grows((k + 1) as nat, 57);
        }
        q = q * 2;
        match rest.minus(&t56) {
            Some(less) => {
                rest = less;
                q = q + 1;
            },
            None => {},
        }
        let ghost taken = rest@;
        rest = rest.times_plus(2, 0);
        proof {
            let tt = t56@ as int;
            assert(2 * q * tt + rest@ == w * pow2((k + 1) as nat)) by (nonlinear_arith)
                requires
                    2 * q0 * tt + before == w * pow2(k as nat),
                    pow2((k + 1) as nat) == 2 * pow2(k as nat),
                    rest@ == taken * 2 + 0,
                    (q == 2 * q0 + 1 && taken == before - tt) || (q == 2 * q0 && taken == before),
            ;
        }
        k = k + 1;
    }
    let sticky = !rest.is_zero();
    let e: i32 = s as i32 - t as i32 + 1074;
    proof {
        lemma2_to64_rest();
        let c = pow2(57) as int;
        let tt = t56@ as int;
        lemma_pow2_adds(56, s as nat);
        lemma_pow2_adds(1, 56);
        lemma_pow2_pos(s as nat);
        assert(tt * 2 == den * pow2(s as nat) * c) by (nonlinear_arith)
            requires
                tt == den * (pow2(56) * pow2(s as nat)),
                c == 2 * pow2(56),
        ;
        assert(q * (den * pow2(s as nat)) * c + rest@ == n0 * pow2(t as nat) * c) by (nonlinear_arith)
            requires
                2 * q * tt + rest@ == w * c,
                w == n0 * pow2(t as nat),
                tt * 2 == den * pow2(s as nat) * c,
        ;
        lemma_division_lies(q as nat, rest@, n0, den, s as nat, t as nat);
        // The quotient has 57 binary digits.
        assert(q >= pow2(56)) by (nonlinear_arith)
            requires
                2 * q * tt + rest@ == w * c,
                rest@ < 2 * tt,
                w >= tt,
                c == 2 * pow2(56),
                tt > 0,
        ;
        lemma_bit_length_bounds(q as nat);
        if bit_length(q as nat) < 55 {
            lemma_pow2_grows(bit_length(q as nat), 56);
        }
    }
    round_pack(minus, q as u128, e, sticky, Ghost(num), Ghost(den))
}

/// A text of `n` digits writes a number below the `n`-th power of 10.
pub proof fn lemma_decimal_value_bound(digits: Seq<char>)
    requires
        forall|i: int| 0 <= i < digits.len() ==> member(Class::Digit, #[trigger] digits[i]),
    ensures
        decimal_value(digits) < pow10(digits.len()),
    decreases digits.len(),
{
    if digits.len() > 0 {
        lemma_decimal_value_bound(digits.drop_last());
        assert(member(Class::Digit, digits[digits.len() - 1]));
    }
}

/// Powers of 10 multiply as their exponents add.
pub proof fn lemma_pow10_adds(a: nat, b: nat)
    ensures
        pow10(a + b) == pow10(a) * pow10(b),
    decreases a,
{
    if a == 0 {
        assert(pow10(0) * pow10(b) == pow10(b)) by (nonlinear_arith)
            requires
                pow10(0) == 1,
        ;
    } else {
        lemma_pow10_adds((a - 1) as nat, b);
        assert(pow10(a + b) == pow10(a) * pow10(b)) by (nonlinear_arith)
            requires
                pow10(a + b) == 10 * pow10((a - 1 + b) as nat),
                pow10(a) == 10 * pow10((a - 1) as nat),
                pow10((a - 1 + b) as nat) == pow10((a - 1) as nat) * pow10(b),
        ;
    }
}

/// A mantissa that is not 0, times a power of 10 from the 400th on, is beyond
/// every value: it is rounded to an infinity.
pub proof fn lemma_huge_decimal(minus: bool, mantissa: nat, shift: int)
    requires
        mantissa >= 1,
        shift >= 400,
    ensures
        nearest_to(minus, mantissa, shift) == (if minus {
            NEGATIVE_ZERO as int
        } else {
            0
        }) + INFINITY,
{
    let ten = pow10(shift as nat);
    lemma_pow10_bounds(shift as nat);
    lemma_pow2_grows(1200, (3 * shift) as nat);
    lemma_pow2_adds(1200, 1074);
    lemma_pow2_grows(2098, 2274);
    lemma_pow2_pos(1074);
    let num = ticks_above(mantissa, shift);
    assert(num >= pow2(2098) * 1) by (nonlinear_arith)
        requires
            num == mantissa * ten * pow2(1074),
            mantissa >= 1,
            ten >= pow2(1200),
            pow2(2274) == pow2(1200) * pow2(1074),
            pow2(2098) <= pow2(2274),
            pow2(1074) > 0,
    ;
    lemma_round_huge(num, 1);
}

/// A mantissa of `n` digits, times a power of 10 that is more than `n + 400`
/// below the first, is less than half a tick: it is rounded to zero.
pub proof fn lemma_tiny_decimal(minus: bool, mantissa: nat, n: nat, shift: int)
    requires
        mantissa < pow10(n),
        shift + n <= -400,
    ensures
        nearest_to(minus, mantissa, shift) == if minus {
            NEGATIVE_ZERO
        } else {
            0
        },
{
    let down = (-shift) as nat;
    let gap = (down - n) as nat;
    lemma_pow10_adds(n, gap);
    lemma_pow10_bounds(gap);
    lemma_pow10_bounds(n);
    lemma_pow2_grows(1200, 3 * gap);
    lemma_pow2_grows(1075, 1200);
    lemma_pow2_adds(1, 1074);
    lemma2_to64();
    lemma_pow2_pos(2098);
    let num = ticks_above(mantissa, shift);
    let den = ticks_below(shift);
    assert(2 * num < den) by (nonlinear_arith)
        requires
            num == mantissa * pow2(1074),
            den == pow10(n) * pow10(gap),
            mantissa < pow10(n),
            pow10(gap) >= pow2(1200),
            pow2(1200) >= pow2(1075),
            pow2(1075) == 2 * pow2(1074),
            pow2(1074) > 0,
    ;
    lemma_round_tiny(num, den);
}

/// The number that digits write, put behind the digits of a number that is
/// given.
fn appended(start: Natural, text: &Vec<char>, from: usize, to: usize, Ghost(before): Ghost<Seq<char>>) -> (r:
    Natural)
    requires
        from <= to <= text.len(),
        forall|i: int| from <= i < to ==> member(Class::Digit, #[trigger] text[i]),
        start@ == decimal_value(before),
    ensures
        r@ == decimal_value(before + text@.subrange(from as int, to as int)),
{
    let mut r = start;
    let mut i: usize = from;
    proof {
        assert(before + text@.subrange(from as int, from as int) =~= before);
    }
    while i < to
        invariant
            from <= i <= to <= text.len(),
            forall|j: int| from <= j < to ==> member(Class::Digit, #[trigger] text[j]),
            r@ == decimal_value(before + text@.subrange(from as int, i as int)),
        decreases to - i,
    {
        let c = text[i];
        assert(member(Class::Digit, text[i as int]));
        let d: u32 = c as u32 - '0' as u32;
        proof {
            let longer = before + text@.subrange(from as int, i + 1);
            assert(longer.drop_last() =~= before + text@.subrange(from as int, i as int));
            assert(longer.last() == c);
        }
        r = r.times_plus(10, d);
        i += 1;
    }
    r
}

/// The number that digits write, or the limit where it is beyond the limit.
fn capped(text: &Vec<char>, from: usize, to: usize) -> (r: u128)
    requires
        from <= to <= text.len(),
        forall|i: int| from <= i < to ==> member(Class::Digit, #[trigger] text[i]),
    ensures
        r <= 0x40_0000_0000_0000_0000,
        r == if decimal_value(text@.subrange(from as int, to as int)) <= 0x40_0000_0000_0000_0000 {
            decimal_value(text@.subrange(from as int, to as int))
        } else {
            0x40_0000_0000_0000_0000
        },
{
    let ghost digits = text@.subrange(from as int, to as int);
    let mut r: u128 = 0;
    let mut i: usize = from;
    proof {
        assert(digits.take(0) =~= Seq::<char>::empty());
    }
    while i < to
        invariant
            from <= i <= to <= text.len(),
            digits == text@.subrange(from as int, to as int),
            forall|j: int| from <= j < to ==> member(Class::Digit, #[trigger] text[j]),
            r <= 0x40_0000_0000_0000_0000,
            r == decimal_value(digits.take(i - from)),
        decreases to - i,
    {
        let c = text[i];
        assert(member(Class::Digit, text[i as int]));
        let d: u128 = (c as u32 - '0' as u32) as u128;
        proof {
            let longer = digits.take(i + 1 - from);
            assert(longer.drop_last() =~= digits.take(i - from));
            assert(longer.last() == c);
        }
        let next = r * 10 + d;
        if next > 0x40_0000_0000_0000_0000 {
            proof {
                lemma_decimal_value_grows(digits, i + 1 - from);
            }
            return 0x40_0000_0000_0000_0000;
        }
        r = next;
        i += 1;
    }
    proof {
        assert(digits.take(to - from) =~= digits);
    }
    r
}

/// A longer text of digits writes no smaller number.
proof fn lemma_decimal_value_grows(digits: Seq<char>, k: int)
    requires
        0 <= k <= digits.len(),
    ensures
        decimal_value(digits.take(k)) <= decimal_value(digits),
    decreases digits.len() - k,
{
    if k < digits.len() {
        lemma_decimal_value_grows(digits.drop_last(), k);
        assert(digits.drop_last().take(k) =~= digits.take(k));
    } else {
        assert(digits.take(k) =~= digits);
    }
}

/// Whether a sign stands at `pos`, and whether it is a minus sign.
fn sign_at(text: &Vec<char>, pos: usize) -> (r: (bool, bool))
    ensures
        r.0 == (has(text@, pos as int, '+') || has(text@, pos as int, '-')),
        r.1 == has(text@, pos as int, '-'),
{
    if pos < text.len() {
        let c = text[pos];
        (c == '+' || c == '-', c == '-')
    } else {
        (false, false)
    }
}

/// What a power of 10 that was read, with a limit, has to do with the power
/// that the literal says: it is that power, or it lies beyond the limit on
/// the same side.
pub open spec fn stands_for(read: int, said: int, behind: int) -> bool {
    ||| read == said
    ||| said > read && read >= 0x40_0000_0000_0000_0000 - behind
    ||| said < read && read <= -0x40_0000_0000_0000_0000 - behind
}

/// The mantissa of a literal: the number that its digits write, the number of
/// the digits behind the point, the number of all digits, and where the
/// mantissa ends.
fn read_mantissa(literal: &Vec<char>) -> (r: (Natural, usize, usize, usize))
    ensures
        r.0@ == decimal_value(mantissa_digits(literal@)),
        r.0@ < pow10(r.2 as nat),
        r.1 == fraction_digits(literal@).len(),
        r.1 <= r.2,
        r.3 == mantissa_stop(literal@),
        r.3 <= literal.len(),
{
    let ghost s = literal@;
    let n = literal.len();
    let (signed_so, _) = sign_at(literal, 0);
    let start: usize = if signed_so {
        1
    } else {
        0
    };
    let whole = skip_run(literal, start, Class::Digit);
    let point = whole < n && literal[whole] == '.';
    let stop = if point {
        skip_run(literal, whole + 1, Class::Digit)
    } else {
        whole
    };
    proof {
        lemma_run_end(s, start as int, Class::Digit);
        if point {
            lemma_run_end(s, whole + 1, Class::Digit);
        }
    }
    let first = appended(Natural::zero(), literal, start, whole, Ghost(Seq::empty()));
    let ghost before = s.subrange(start as int, whole as int);
    proof {
        assert(Seq::<char>::empty() + before =~= before);
    }
    let mantissa = if point {
        appended(first, literal, whole + 1, stop, Ghost(before))
    } else {
        proof {
            assert(before + Seq::<char>::empty() =~= before);
        }
        first
    };
    let behind: usize = if point {
        stop - (whole + 1)
    } else {
        0
    };
    let ghost digits = mantissa_digits(s);
    proof {
        assert forall|i: int| 0 <= i < digits.len() implies member(Class::Digit, #[trigger] digits[i]) by {
            if i < whole - start {
                assert(digits[i] == s[start + i]);
            } else {
                assert(digits[i] == s[whole + 1 + (i - (whole - start))]);
            }
        }
        lemma_decimal_value_bound(digits);
    }
    (mantissa, behind, (whole - start) + behind, stop)
}

/// The power of 10 that the mantissa of a literal is to be multiplied by,
/// where the mantissa ends at `stop` and has `behind` digits behind the point.
fn read_shift(literal: &Vec<char>, stop: usize, behind: usize) -> (r: i128)
    requires
        stop == mantissa_stop(literal@),
        stop <= literal.len(),
        behind == fraction_digits(literal@).len(),
    ensures
        stands_for(r as int, shift_of(literal@), behind as int),
{
    let ghost s = literal@;
    let n = literal.len();
    let marked = stop < n && (literal[stop] == 'e' || literal[stop] == 'E');
    if !marked {
        return -(behind as i128);
    }
    let (signed_too, down) = sign_at(literal, stop + 1);
    let from: usize = if signed_too {
        stop + 2
    } else {
        stop + 1
    };
    let to = skip_run(literal, from, Class::Digit);
    proof {
        lemma_run_end(s, from as int, Class::Digit);
    }
    let power = capped(literal, from, to);
    assert(s.subrange(from as int, to as int) == exponent_digits(s));
    if down {
        -(power as i128) - behind as i128
    } else {
        power as i128 - behind as i128
    }
}

/// Reads a literal: gives the binary64 value nearest to what it says.
pub fn read_literal(literal: &Vec<char>) -> (r: u64)
    ensures
        r == literal_bits(literal@),
{
    let (_, minus) = sign_at(literal, 0);
    let (mantissa, behind, count, stop) = read_mantissa(literal);
    let shift = read_shift(literal, stop, behind);
    let ghost exact = shift_of(literal@);
    if mantissa.is_zero() {
        proof {
            let den = ticks_below(exact);
            if exact < 0 {
                lemma_pow10_bounds((-exact) as nat);
            }
            assert(ticks_above(0, exact) == 0) by (nonlinear_arith)
                requires
                    ticks_above(0, exact) == if exact >= 0 {
                        0 * pow10(exact as nat) * pow2(1074)
                    } else {
                        0 * pow2(1074)
                    },
            ;
            lemma_round_tiny(0, den);
            lemma_pow2_pos(2098);
        }
        return signed(minus, 0);
    }
    if shift >= 400 {
        proof {
            lemma_huge_decimal(minus, mantissa@, exact);
        }
        return signed(minus, INFINITY);
    }
    if shift + count as i128 <= -400 {
        proof {
            lemma_tiny_decimal(minus, mantissa@, count as nat, exact);
        }
        return signed(minus, 0);
    }
    nearest_value(minus, &mantissa, shift)
}

} // verus!
