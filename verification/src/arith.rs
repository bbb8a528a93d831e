//! Arithmetic on binary64 values: sum, difference, product, quotient and
//! remainder, each the exact result, rounded.

use vstd::prelude::*;
use vstd::arithmetic::div_mod::{
    lemma_fundamental_div_mod, lemma_fundamental_div_mod_converse, lemma_mul_mod_noop_right,
    lemma_truncate_middle,
};
use vstd::arithmetic::power2::{
    lemma2_to64, lemma2_to64_rest, lemma_pow2_adds, lemma_pow2_pos, lemma_pow2_strictly_increases,
    pow2,
};
use crate::binary64::{
    bit_length, exponent, fields, fraction, infinite, infinity, lemma_bit_length_bounds, nan, negative,
    parts, pattern, ticks, zero, HIDDEN, INFINITY, NAN, NEGATIVE_ZERO, ZERO,
};
use crate::rounding::{
    digits, lemma_lies_exactly, lemma_round_tiny, lemma_shifted_digits, lies_at, pack, power_of_two,
    round_pack, round_ratio,
};

verus! {

/// What the sum of two terms is rounded to, the terms being given by their
/// signs and their numbers of ticks. An exact sum of nothing is `+0.0`, unless
/// both terms are negative.
pub open spec fn rounded_sum(minus_first: bool, first: nat, minus_second: bool, second: nat) -> u64 {
    let exact = (if minus_first {
        -(first as int)
    } else {
        first as int
    }) + (if minus_second {
        -(second as int)
    } else {
        second as int
    });
    if exact == 0 {
        if minus_first && minus_second {
            NEGATIVE_ZERO
        } else {
            ZERO
        }
    } else if exact < 0 {
        pattern(true, round_ratio((-exact) as nat, 1))
    } else {
        pattern(false, round_ratio(exact as nat, 1))
    }
}

/// The sum of two values. It is no number where a term is none, and where the
/// terms are infinities of different signs; it is an infinity where a term is
/// one; else it is the exact sum, rounded. An exact sum of nothing is `+0.0`,
/// unless both terms are `-0.0`.
pub open spec fn sum(a: u64, b: u64) -> u64 {
    if nan(a) || nan(b) {
        NAN
    } else if infinite(a) {
        if infinite(b) && negative(a) != negative(b) {
            NAN
        } else {
            a
        }
    } else if infinite(b) {
        b
    } else {
        rounded_sum(negative(a), ticks(a), negative(b), ticks(b))
    }
}

/// A value with its sign turned.
pub open spec fn negated(bits: u64) -> u64 {
    if negative(bits) {
        (bits - NEGATIVE_ZERO) as u64
    } else {
        (bits + NEGATIVE_ZERO) as u64
    }
}

/// The difference of two values: the sum of the first and of the second with
/// its sign turned.
pub open spec fn difference(a: u64, b: u64) -> u64 {
    sum(a, negated(b))
}

/// The product of two values. It is no number where a factor is none, and
/// where one factor is an infinity and the other zero; it is an infinity where
/// a factor is one; else it is the exact product, rounded. Its sign is minus
/// where the factors differ in sign.
pub open spec fn product(a: u64, b: u64) -> u64 {
    let minus = negative(a) != negative(b);
    if nan(a) || nan(b) {
        NAN
    } else if infinite(a) || infinite(b) {
        if zero(a) || zero(b) {
            NAN
        } else {
            infinity(minus)
        }
    } else {
        pattern(minus, round_ratio(ticks(a) * ticks(b), pow2(1074)))
    }
}

/// The quotient of two values. It is no number where one of them is none,
/// where both are infinities, and where both are zero. It is an infinity where
/// the dividend is one or the divisor is zero, and zero where the divisor is
/// an infinity; else it is the exact quotient, rounded. Its sign is minus
/// where the two differ in sign.
pub open spec fn quotient(a: u64, b: u64) -> u64 {
    let minus = negative(a) != negative(b);
    if nan(a) || nan(b) {
        NAN
    } else if infinite(a) {
        if infinite(b) {
            NAN
        } else {
            infinity(minus)
        }
    } else if infinite(b) {
        pattern(minus, 0)
    } else if zero(b) {
        if zero(a) {
            NAN
        } else {
            infinity(minus)
        }
    } else {
        pattern(minus, round_ratio(ticks(a) * pow2(1074), ticks(b)))
    }
}

/// The remainder of the division of the first value by the second that
/// truncates the quotient toward zero. It is no number where one of them is
/// none, where the dividend is an infinity, and where the divisor is zero; it
/// is the dividend where the divisor is an infinity. It is exact, and has the
/// sign of the dividend.
pub open spec fn remainder(a: u64, b: u64) -> u64 {
    if nan(a) || nan(b) || infinite(a) || zero(b) {
        NAN
    } else if infinite(b) {
        a
    } else {
        pattern(negative(a), ticks(a) % ticks(b))
    }
}

/// Where a division of widened significands leaves a quotient and a rest, the
/// ratio of the values lies at the quotient.
proof fn lemma_quotient_lies(
    ma: nat,
    mb: nat,
    za: nat,
    zb: nat,
    up: nat,
    down: nat,
    q: nat,
    rest: nat,
    e: int,
)
    requires
        mb > 0,
        q * (mb * pow2(zb)) + rest == ma * pow2(za + 56),
        rest < mb * pow2(zb),
        up + zb == e + down + za + 56,
    ensures
        lies_at(q, e, rest != 0, ma * pow2(up), mb * pow2(down)),
{
    let num = (ma * pow2(up)) as int;
    let den = (mb * pow2(down)) as int;
    let c = pow2(zb) as int;
    let w = pow2(za + 56) as int;
    let pu = pow2(up) as int;
    let pd = pow2(down) as int;
    lemma_pow2_pos(zb);
    lemma_pow2_pos(down);
    lemma_pow2_pos(up);
    lemma_pow2_pos(za + 56);
    assert(den > 0) by (nonlinear_arith)
        requires
            den == mb * pd,
            mb > 0,
            pd > 0,
    ;
    if e >= 0 {
        let step = pow2(e as nat) as int;
        lemma_pow2_pos(e as nat);
        lemma_pow2_adds(up, zb);
        lemma_pow2_adds(e as nat, down);
        lemma_pow2_adds((e + down) as nat, za + 56);
        assert(pu * c == step * pd * w);
        let k = step * pd;
        let widened = ma * w;
        assert(num * c == widened * k) by (nonlinear_arith)
            requires
                num == ma * pu,
                pu * c == k * w,
                widened == ma * w,
        ;
        let part = q * (mb * c);
        assert(widened * k == part * k + rest * k) by (nonlinear_arith)
            requires
                part + rest == widened,
        ;
        assert(part * k == q * step * den * c) by (nonlinear_arith)
            requires
                part == q * (mb * c),
                k == step * pd,
                den == mb * pd,
        ;
        assert(num * c == q * step * den * c + rest * (step * pd));
        assert(rest * (step * pd) < step * den * c) by (nonlinear_arith)
            requires
                rest < mb * c,
                den == mb * pd,
                step > 0,
                pd > 0,
        ;
        let low = q * step;
        assert(low * den <= num) by (nonlinear_arith)
            requires
                num * c == q * step * den * c + rest * (step * pd),
                rest * (step * pd) >= 0,
                low == q * step,
                c > 0,
        ;
        assert(num < (low + step) * den) by (nonlinear_arith)
            requires
                num * c == q * step * den * c + rest * (step * pd),
                rest * (step * pd) < step * den * c,
                low == q * step,
                c > 0,
        ;
        assert(rest != 0 <==> low * den < num) by (nonlinear_arith)
            requires
                num * c == q * step * den * c + rest * (step * pd),
                low == q * step,
                c > 0,
                step > 0,
                pd > 0,
                rest >= 0,
        ;
    } else {
        let d = pow2((-e) as nat) as int;
        lemma_pow2_pos((-e) as nat);
        lemma_pow2_adds(up, (-e) as nat);
        lemma_pow2_adds((up + (-e) as nat) as nat, zb);
        lemma_pow2_adds(down, za + 56);
        assert(pu * d * c == pd * w);
        let widened = ma * w;
        assert(num * d * c == widened * pd) by (nonlinear_arith)
            requires
                num == ma * pu,
                pu * d * c == pd * w,
                widened == ma * w,
        ;
        let part = q * (mb * c);
        assert(widened * pd == part * pd + rest * pd) by (nonlinear_arith)
            requires
                part + rest == widened,
        ;
        assert(part * pd == q * den * c) by (nonlinear_arith)
            requires
                part == q * (mb * c),
                den == mb * pd,
        ;
        assert(num * d * c == q * den * c + rest * pd);
        assert(rest * pd < den * c) by (nonlinear_arith)
            requires
                rest < mb * c,
                den == mb * pd,
                pd > 0,
        ;
        assert(q * den <= num * d) by (nonlinear_arith)
            requires
                num * d * c == q * den * c + rest * pd,
                rest * pd >= 0,
                c > 0,
        ;
        assert(num * d < (q + 1) * den) by (nonlinear_arith)
            requires
                num * d * c == q * den * c + rest * pd,
                rest * pd < den * c,
                c > 0,
        ;
        assert(rest != 0 <==> q * den < num * d) by (nonlinear_arith)
            requires
                num * d * c == q * den * c + rest * pd,
                c > 0,
                pd > 0,
                rest >= 0,
        ;
    }
}

/// A significand of a finite value that is not zero, widened to 53 binary
/// digits: the significand and the number of digits that it was short of.
fn widen(m: u64) -> (r: (u64, u32))
    requires
        0 < m < 2 * HIDDEN,
    ensures
        r.0 == m * pow2(r.1 as nat),
        HIDDEN <= r.0 < 2 * HIDDEN,
        r.1 <= 52,
{
    let width = digits(m as u128);
    proof {
        lemma2_to64();
        lemma2_to64_rest();
        lemma_bit_length_bounds(m as nat);
        if width > 53 {
            lemma_pow2_strictly_increases(53, (width - 1) as nat);
        }
        lemma_shifted_digits(m as nat, (53 - width) as nat);
    }
    let short = 53 - width;
    let factor = power_of_two(short);
    ((m as u128 * factor) as u64, short)
}

/// Multiplies two values.
pub fn multiply(a: u64, b: u64) -> (r: u64)
    ensures
        r == product(a, b),
{
    let (minus_a, exponent_a, fraction_a) = fields(a);
    let (minus_b, exponent_b, fraction_b) = fields(b);
    let minus = minus_a != minus_b;
    let sign: u64 = if minus {
        NEGATIVE_ZERO
    } else {
        0
    };
    if (exponent_a == 2047 && fraction_a != 0) || (exponent_b == 2047 && fraction_b != 0) {
        return NAN;
    }
    if exponent_a == 2047 || exponent_b == 2047 {
        if (exponent_a == 0 && fraction_a == 0) || (exponent_b == 0 && fraction_b == 0) {
            return NAN;
        }
        return sign + INFINITY;
    }
    let x = parts(a);
    let y = parts(b);
    assert(x.significand * y.significand < 0x1_0000_0000_0000_0000_0000_0000_0000_00) by (nonlinear_arith)
        requires
            0 <= x.significand < 0x20_0000_0000_0000,
            0 <= y.significand < 0x20_0000_0000_0000,
    ;
    let m = x.significand as u128 * y.significand as u128;
    let e: i32 = (x.scale as i32 - 1) + (y.scale as i32 - 1) - 1074;
    proof {
        lemma2_to64();
        lemma2_to64_rest();
        let ma = x.significand as int;
        let mb = y.significand as int;
        let pa = pow2((x.scale - 1) as nat) as int;
        let pb = pow2((y.scale - 1) as nat) as int;
        let den = pow2(1074) as int;
        let num = ticks(a) * ticks(b);
        lemma_pow2_adds((x.scale - 1) as nat, (y.scale - 1) as nat);
        lemma_pow2_pos(1074);
        assert(m < 0x1_0000_0000_0000_0000_0000_0000_0000_00) by (nonlinear_arith)
            requires
                m == ma * mb,
                0 <= ma < 0x20_0000_0000_0000,
                0 <= mb < 0x20_0000_0000_0000,
        ;
        assert(num == m * (pa * pb)) by (nonlinear_arith)
            requires
                num == (ma * pa) * (mb * pb),
                m == ma * mb,
        ;
        if e >= 0 {
            lemma_pow2_adds(e as nat, 1074);
            let q = pow2(e as nat) as int;
            lemma_pow2_pos(e as nat);
            assert(m * q * den == num) by (nonlinear_arith)
                requires
                    num == m * (pa * pb),
                    pa * pb == q * den,
            ;
            assert(num < (m * q + q) * den) by (nonlinear_arith)
                requires
                    m * q * den == num,
                    q > 0,
                    den > 0,
            ;
        } else {
            lemma_pow2_adds((x.scale - 1 + y.scale - 1) as nat, (-e) as nat);
            let d = pow2((-e) as nat) as int;
            assert(m * den == num * d) by (nonlinear_arith)
                requires
                    num == m * (pa * pb),
                    den == (pa * pb) * d,
            ;
            assert(num * d < (m + 1) * den) by (nonlinear_arith)
                requires
                    m * den == num * d,
                    den > 0,
            ;
        }
    }
    round_pack(minus, m, e, false, Ghost(ticks(a) * ticks(b)), Ghost(pow2(1074)))
}

/// Adds two terms whose scales are no more than 55 apart: the sum is formed
/// exactly.
fn add_near(minus_big: bool, big: u64, high: u32, minus_small: bool, small: u64, low: u32) -> (r: u64)
    requires
        1 <= low <= high <= 2046,
        high - low <= 55,
        big < 2 * HIDDEN,
        small < 2 * HIDDEN,
    ensures
        r == rounded_sum(
            minus_big,
            big as nat * pow2((high - 1) as nat),
            minus_small,
            small as nat * pow2((low - 1) as nat),
        ),
{
    let apart = high - low;
    let ghost first = big as nat * pow2((high - 1) as nat);
    let ghost second = small as nat * pow2((low - 1) as nat);
    proof {
        lemma2_to64();
        lemma2_to64_rest();
        lemma_pow2_pos((low - 1) as nat);
        lemma_pow2_pos((high - 1) as nat);
    }
let factor = power_of_two(apart);
proof {
    lemma_pow2_strictly_increases(apart as nat, 56);
    assert(big * factor < 0x2000_0000_0000_0000_0000_0000_0000) by (nonlinear_arith)
        requires
            0 <= big < 0x20_0000_0000_0000,
            0 <= factor <= 0x100_0000_0000_0000,
    ;
}
let widened = big as u128 * factor;
let base = (low - 1) as i32;
proof {
    lemma_pow2_adds(apart as nat, (low - 1) as nat);
    lemma_pow2_pos(apart as nat);
    assert(first == widened * pow2((low - 1) as nat)) by (nonlinear_arith)
        requires
            first == big * pow2((high - 1) as nat),
            widened == big * pow2(apart as nat),
            pow2((high - 1) as nat) == pow2(apart as nat) * pow2((low - 1) as nat),
    ;
    assert(widened < 0x2000_0000_0000_0000_0000_0000_0000) by (nonlinear_arith)
        requires
            widened == big * pow2(apart as nat),
            big < 0x20_0000_0000_0000,
            pow2(apart as nat) <= 0x100_0000_0000_0000,
    ;
}
if minus_big == minus_small {
    let m = widened + small as u128;
    proof {
        let unit = pow2((low - 1) as nat) as int;
        assert(first + second == m * unit) by (nonlinear_arith)
            requires
                first == widened * unit,
                second == small * unit,
                m == widened + small,
        ;
        lemma_lies_exactly(m as nat, (low - 1) as nat);
        if m == 0 {
            assert(first + second == 0) by (nonlinear_arith)
                requires
                    first + second == m * unit,
                    m == 0,
            ;
            lemma_round_tiny(0, 1);
            lemma_pow2_pos(2098);
            assert(pattern(minus_big, 0) == if minus_big {
                NEGATIVE_ZERO
            } else {
                ZERO
            });
        } else {
            assert(first + second > 0) by (nonlinear_arith)
                requires
                    first + second == m * unit,
                    m > 0,
                    unit > 0,
            ;
        }
    }
    round_pack(minus_big, m, base, false, Ghost(first + second), Ghost(1))
} else if widened == small as u128 {
    proof {
        assert(first == second);
    }
    ZERO
} else if widened > small as u128 {
    let m = widened - small as u128;
    proof {
        let unit = pow2((low - 1) as nat) as int;
        assert(first - second == m * unit) by (nonlinear_arith)
            requires
                first == widened * unit,
                second == small * unit,
                m == widened - small,
        ;
        assert(first - second > 0) by (nonlinear_arith)
            requires
                first - second == m * unit,
                m > 0,
                unit > 0,
        ;
        lemma_lies_exactly(m as nat, (low - 1) as nat);
    }
    round_pack(minus_big, m, base, false, Ghost((first - second) as nat), Ghost(1))
} else {
    let m = small as u128 - widened;
    proof {
        let unit = pow2((low - 1) as nat) as int;
        assert(second - first == m * unit) by (nonlinear_arith)
            requires
                first == widened * unit,
                second == small * unit,
                m == small - widened,
        ;
        assert(second - first > 0) by (nonlinear_arith)
            requires
                second - first == m * unit,
                m > 0,
                unit > 0,
        ;
        lemma_lies_exactly(m as nat, (low - 1) as nat);
    }
    round_pack(minus_small, m, base, false, Ghost((second - first) as nat), Ghost(1))
}
}

/// Adds two terms whose scales are more than 55 apart: the smaller one
/// decides only on which side of the larger one the sum lies.
fn add_far(minus_big: bool, big: u64, high: u32, minus_small: bool, small: u64, low: u32) -> (r: u64)
    requires
        1 <= low <= high <= 2046,
        high - low > 55,
        HIDDEN <= big < 2 * HIDDEN,
        small < 2 * HIDDEN,
    ensures
        r == rounded_sum(
            minus_big,
            big as nat * pow2((high - 1) as nat),
            minus_small,
            small as nat * pow2((low - 1) as nat),
        ),
{
    let ghost first = big as nat * pow2((high - 1) as nat);
    let ghost second = small as nat * pow2((low - 1) as nat);
    proof {
        lemma2_to64();
        lemma2_to64_rest();
        lemma_pow2_pos((low - 1) as nat);
        lemma_pow2_pos((high - 1) as nat);
    }
    if small == 0 {
        proof {
            assert(second == 0) by (nonlinear_arith)
                requires
                    second == small * pow2((low - 1) as nat),
                    small == 0,
            ;
            lemma_lies_exactly(big as nat, (high - 1) as nat);
            assert(first > 0) by (nonlinear_arith)
                requires
                    first == big * pow2((high - 1) as nat),
                    big >= HIDDEN,
                    pow2((high - 1) as nat) > 0,
            ;
        }
        round_pack(minus_big, big as u128, (high - 1) as i32, false, Ghost(first), Ghost(1))
    } else {
        // The smaller term is less than an eighth of the last place of the
        // larger one: it decides only on which side of the larger one the
        // sum lies.
        let eight = big as u128 * 8;
        let base = (high - 4) as i32;
        let m = if minus_big == minus_small {
            eight
        } else {
            (eight - 1) as u128
        };
        let ghost exact: nat = if minus_big == minus_small {
            first + second
        } else {
            (first - second) as nat
        };
        proof {
            let unit = pow2((high - 4) as nat) as int;
            lemma_pow2_pos((high - 4) as nat);
            lemma_pow2_adds(3, (high - 4) as nat);
            assert(first == eight * unit) by (nonlinear_arith)
                requires
                    first == big * pow2((high - 1) as nat),
                    eight == big * 8,
                    pow2((high - 1) as nat) == 8 * unit,
            ;
            lemma_pow2_adds(53, (low - 1) as nat);
            if 53 + low - 1 < high - 4 {
                lemma_pow2_strictly_increases((53 + low - 1) as nat, (high - 4) as nat);
            }
            assert(0 < second < unit) by (nonlinear_arith)
                requires
                    second == small * pow2((low - 1) as nat),
                    0 < small < 0x20_0000_0000_0000,
                    pow2((low - 1) as nat) > 0,
                    pow2(53) * pow2((low - 1) as nat) <= unit,
                    pow2(53) == 0x20_0000_0000_0000,
            ;
            assert(second < first) by (nonlinear_arith)
                requires
                    first == eight * unit,
                    eight >= 8,
                    second < unit,
                    unit > 0,
            ;
            let low_end = m * unit;
            assert(low_end * 1 < exact && exact < (low_end + unit) * 1) by (nonlinear_arith)
                requires
                    low_end == m * unit,
                    first == eight * unit,
                    0 < second < unit,
                    (m == eight && exact == first + second) || (m == eight - 1 && exact == first - second),
            ;
            assert(m >= pow2(54)) by {
                lemma_pow2_adds(1, 54);
            }
            lemma_bit_length_bounds(m as nat);
            if bit_length(m as nat) < 55 {
                if bit_length(m as nat) < 54 {
                    lemma_pow2_strictly_increases(bit_length(m as nat), 54);
                }
            }
        }
        round_pack(minus_big, m, base, true, Ghost(exact), Ghost(1))
    }
}

/// Adds two values.
pub fn add(a: u64, b: u64) -> (r: u64)
    ensures
        r == sum(a, b),
{
    let (minus_a, exponent_a, fraction_a) = fields(a);
    let (minus_b, exponent_b, fraction_b) = fields(b);
    if (exponent_a == 2047 && fraction_a != 0) || (exponent_b == 2047 && fraction_b != 0) {
        return NAN;
    }
    if exponent_a == 2047 {
        if exponent_b == 2047 && minus_a != minus_b {
            return NAN;
        }
        return a;
    }
    if exponent_b == 2047 {
        return b;
    }
    let x = parts(a);
    let y = parts(b);
    let (big, small) = if x.scale >= y.scale {
        (x, y)
    } else {
        (y, x)
    };
    if big.scale - small.scale <= 55 {
        add_near(big.minus, big.significand, big.scale, small.minus, small.significand, small.scale)
    } else {
        add_far(big.minus, big.significand, big.scale, small.minus, small.significand, small.scale)
    }
}

/// Turns the sign of a value.
pub fn negate(bits: u64) -> (r: u64)
    ensures
        r == negated(bits),
{
    if bits >= NEGATIVE_ZERO {
        bits - NEGATIVE_ZERO
    } else {
        bits + NEGATIVE_ZERO
    }
}

/// Subtracts the second value from the first.
pub fn subtract(a: u64, b: u64) -> (r: u64)
    ensures
        r == difference(a, b),
{
    self::add(a, negate(b))
}

/// Divides the first value by the second.
pub fn divide(a: u64, b: u64) -> (r: u64)
    ensures
        r == quotient(a, b),
{
    let (minus_a, exponent_a, fraction_a) = fields(a);
    let (minus_b, exponent_b, fraction_b) = fields(b);
    let minus = minus_a != minus_b;
    let sign: u64 = if minus {
        NEGATIVE_ZERO
    } else {
        0
    };
    proof {
        lemma_pow2_pos(2098);
        lemma2_to64();
        lemma2_to64_rest();
    }
    if (exponent_a == 2047 && fraction_a != 0) || (exponent_b == 2047 && fraction_b != 0) {
        return NAN;
    }
    if exponent_a == 2047 {
        if exponent_b == 2047 {
            return NAN;
        }
        return sign + INFINITY;
    }
    if exponent_b == 2047 {
        return sign;
    }
    let x = parts(a);
    let y = parts(b);
    if y.significand == 0 {
        if x.significand == 0 {
            return NAN;
        }
        return sign + INFINITY;
    }
    if x.significand == 0 {
        proof {
            assert(ticks(a) * pow2(1074) == 0) by (nonlinear_arith)
                requires
                    ticks(a) == 0,
            ;
            lemma_pow2_pos((y.scale - 1) as nat);
            assert(ticks(b) > 0) by (nonlinear_arith)
                requires
                    ticks(b) == y.significand * pow2((y.scale - 1) as nat),
                    y.significand > 0,
                    pow2((y.scale - 1) as nat) > 0,
            ;
            lemma_round_tiny(0, ticks(b));
        }
        return sign;
    }
    let (na, za) = widen(x.significand);
    let (nb, zb) = widen(y.significand);
    assert(na * 0x100_0000_0000_0000 < 0x2000_0000_0000_0000_0000_0000_0000) by (nonlinear_arith)
        requires
            na < 0x20_0000_0000_0000,
    ;
    let n = na as u128 * 0x100_0000_0000_0000;
    let q = n / nb as u128;
    let rest = n % nb as u128;
    let e: i32 = (x.scale as i32 - za as i32) - (y.scale as i32 - zb as i32) + 1018;
    proof {
        let ma = x.significand as nat;
        let mb = y.significand as nat;
        lemma_fundamental_div_mod(n as int, nb as int);
        lemma_pow2_adds(za as nat, 56);
        assert(q * (mb * pow2(zb as nat)) + rest == ma * pow2((za + 56) as nat)) by (nonlinear_arith)
            requires
                n == nb * q + rest,
                nb == mb * pow2(zb as nat),
                n == na * 0x100_0000_0000_0000,
                na == ma * pow2(za as nat),
                pow2((za + 56) as nat) == pow2(za as nat) * 0x100_0000_0000_0000,
        ;
        let up = (x.scale - 1 + 1074) as nat;
        let down = (y.scale - 1) as nat;
        lemma_quotient_lies(ma, mb, za as nat, zb as nat, up, down, q as nat, rest as nat, e as int);
        lemma_pow2_adds((x.scale - 1) as nat, 1074);
        assert(ticks(a) * pow2(1074) == ma * pow2(up)) by (nonlinear_arith)
            requires
                ticks(a) == ma * pow2((x.scale - 1) as nat),
                pow2(up) == pow2((x.scale - 1) as nat) * pow2(1074),
        ;
        // The quotient of two numbers of 53 binary digits, the dividend
        // widened by 56 more, has 56 or 57 digits.
        assert(q >= 0x80_0000_0000_0000) by (nonlinear_arith)
            requires
                n == nb * q + rest,
                0 <= rest < nb,
                n == na * 0x100_0000_0000_0000,
                0x10_0000_0000_0000 <= na,
                0 < nb < 0x20_0000_0000_0000,
        ;
        assert(q < 0x200_0000_0000_0000) by (nonlinear_arith)
            requires
                n == nb * q + rest,
                0 <= rest,
                n == na * 0x100_0000_0000_0000,
                na < 0x20_0000_0000_0000,
                nb >= 0x10_0000_0000_0000,
        ;
        lemma_bit_length_bounds(q as nat);
        if bit_length(q as nat) < 55 {
            lemma_pow2_strictly_increases(bit_length(q as nat), 55);
        }
        lemma_pow2_pos(down);
        assert(ticks(b) > 0) by (nonlinear_arith)
            requires
                ticks(b) == mb * pow2(down),
                mb > 0,
                pow2(down) > 0,
        ;
    }
    round_pack(minus, q, e, rest != 0, Ghost(ticks(a) * pow2(1074)), Ghost(ticks(b)))
}

/// The remainder of the division of the first value by the second.
pub fn reduce(a: u64, b: u64) -> (r: u64)
    ensures
        r == remainder(a, b),
{
    let (minus_a, exponent_a, fraction_a) = fields(a);
    let (minus_b, exponent_b, fraction_b) = fields(b);
    if (exponent_a == 2047 && fraction_a != 0) || (exponent_b == 2047 && fraction_b != 0) {
        return NAN;
    }
    if exponent_a == 2047 || (exponent_b == 0 && fraction_b == 0) {
        return NAN;
    }
    if exponent_b == 2047 {
        return a;
    }
    let x = parts(a);
    let y = parts(b);
    let ghost ta = ticks(a);
    let ghost tb = ticks(b);
    proof {
        lemma2_to64();
        lemma2_to64_rest();
        lemma_pow2_pos((y.scale - 1) as nat);
        lemma_pow2_pos((x.scale - 1) as nat);
        assert(tb > 0) by (nonlinear_arith)
            requires
                tb == y.significand * pow2((y.scale - 1) as nat),
                y.significand > 0,
                pow2((y.scale - 1) as nat) > 0,
        ;
    }
    if x.scale < y.scale {
        proof {
            // The dividend is the smaller: nothing is taken from it.
            lemma_pow2_adds((y.scale - x.scale) as nat, (x.scale - 1) as nat);
            lemma_pow2_adds(1, (y.scale - x.scale - 1) as nat);
            lemma_pow2_pos((y.scale - x.scale - 1) as nat);
            assert(ta < tb) by (nonlinear_arith)
                requires
                    ta == x.significand * pow2((x.scale - 1) as nat),
                    tb == y.significand * pow2((y.scale - 1) as nat),
                    pow2((y.scale - 1) as nat) == pow2((y.scale - x.scale) as nat) * pow2((x.scale - 1) as nat),
                    pow2((y.scale - x.scale) as nat) >= 2,
                    x.significand < 0x20_0000_0000_0000,
                    y.significand >= 0x10_0000_0000_0000,
                    pow2((x.scale - 1) as nat) > 0,
            ;
            lemma_fundamental_div_mod_converse(ta as int, tb as int, 0, ta as int);
        }
        return pack(x.minus, x.significand, x.scale - 1);
    }
    let apart = x.scale - y.scale;
    let modulus = y.significand;
    let mut rest: u64 = x.significand % modulus;
    let mut i: u32 = 0;
    proof {
        assert(x.significand * pow2(0) == x.significand) by (nonlinear_arith)
            requires
                pow2(0) == 1,
        ;
    }
    while i < apart
        invariant
            i <= apart <= 2046,
            0 < modulus < 2 * HIDDEN,
            rest == (x.significand * pow2(i as nat)) % (modulus as int),
            rest < modulus,
        decreases apart - i,
    {
        proof {
            lemma_pow2_adds(1, i as nat);
            lemma2_to64();
            let before = x.significand * pow2(i as nat);
            lemma_mul_mod_noop_right(2, before as int, modulus as int);
            assert(x.significand * pow2((i + 1) as nat) == 2 * before) by (nonlinear_arith)
                requires
                    before == x.significand * pow2(i as nat),
                    pow2((i + 1) as nat) == 2 * pow2(i as nat),
            ;
        }
        rest = (rest * 2) % modulus;
        i += 1;
    }
    proof {
        let unit = pow2((y.scale - 1) as nat) as int;
        let widened = x.significand * pow2(apart as nat);
        lemma_pow2_adds(apart as nat, (y.scale - 1) as nat);
        lemma_truncate_middle(widened as int, unit, modulus as int);
        assert(ta == unit * widened) by (nonlinear_arith)
            requires
                ta == x.significand * pow2((x.scale - 1) as nat),
                widened == x.significand * pow2(apart as nat),
                pow2((x.scale - 1) as nat) == pow2(apart as nat) * unit,
        ;
        assert(tb == unit * modulus) by (nonlinear_arith)
            requires
                tb == modulus * unit,
        ;
        assert(ta % tb == rest * unit) by (nonlinear_arith)
            requires
                ta % tb == unit * (widened % (modulus as int)),
                rest == widened % (modulus as int),
        ;
    }
    pack(x.minus, rest, y.scale - 1)
}

/// The sum does not depend on the order of its terms, nor the product on the
/// order of its factors.
pub proof fn order_does_not_matter(a: u64, b: u64)
    ensures
        sum(a, b) == sum(b, a) || (nan(sum(a, b)) && nan(sum(b, a))),
        product(a, b) == product(b, a),
{
    assert(ticks(a) * ticks(b) == ticks(b) * ticks(a)) by (nonlinear_arith);
    lemma2_to64();
    lemma2_to64_rest();
    assert(nan(NAN)) by {
        assert(exponent(NAN) == 2047);
        assert(fraction(NAN) == 0x8_0000_0000_0000);
    }
}

} // verus!
