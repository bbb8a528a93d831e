//! Binary64 values and 64-bit integers: the conversion of a value to an
//! integer, of an integer to a value, and the truncation toward zero that the
//! two make together.

use vstd::prelude::*;
use vstd::arithmetic::div_mod::{lemma_fundamental_div_mod_converse};
use vstd::arithmetic::power2::{
    lemma2_to64, lemma2_to64_rest, lemma_pow2_adds, lemma_pow2_pos, lemma_pow2_strictly_increases,
    pow2,
};
use crate::binary64::{
    bit_length, exponent, fraction, lemma_bit_length, lemma_bit_length_bounds, lemma_digits_at_most,
    nan, infinite, negative, pattern, pattern_holds_its_ticks, scale, significand, ticks, HIDDEN,
    NEGATIVE_ZERO, ZERO,
};
use crate::rounding::{
    lemma_lies_exactly, lemma_round_drop, lemma_round_exact, round_pack, round_ratio,
};

verus! {

/// The whole part of the magnitude of a finite value: the magnitude rounded
/// down to an integer.
pub open spec fn whole(bits: u64) -> nat {
    if scale(bits) >= 1075 {
        significand(bits) * pow2((scale(bits) - 1075) as nat)
    } else {
        significand(bits) / pow2((1075 - scale(bits)) as nat)
    }
}

/// Whether a finite value is an integer.
pub open spec fn integral(bits: u64) -> bool {
    exponent(bits) < 2047 && (scale(bits) >= 1075 || significand(bits) % pow2((1075 - scale(bits)) as nat) == 0)
}

/// The integer that an integral value is.
pub open spec fn integer_of(bits: u64) -> int {
    if negative(bits) {
        -(whole(bits) as int)
    } else {
        whole(bits) as int
    }
}

/// The 64-bit integer that a value converts to: its whole part with its sign,
/// where that fits; the nearest 64-bit integer where it does not (for an
/// infinity too); and 0 for a NaN.
pub open spec fn to_integer(bits: u64) -> int {
    if nan(bits) {
        0
    } else if negative(bits) {
        if infinite(bits) || whole(bits) >= 0x8000_0000_0000_0000 {
            i64::MIN as int
        } else {
            -(whole(bits) as int)
        }
    } else {
        if infinite(bits) || whole(bits) > i64::MAX {
            i64::MAX as int
        } else {
            whole(bits) as int
        }
    }
}

/// The binary64 value that a 64-bit integer converts to: the integer itself
/// where a binary64 value can be that, else the nearest that one can be, and
/// of two that are equally near the one with the even significand.
pub open spec fn converted(n: i64) -> u64 {
    if n < 0 {
        pattern(true, round_ratio((-n) as nat * pow2(1074), 1))
    } else {
        pattern(false, round_ratio(n as nat * pow2(1074), 1))
    }
}

/// A value truncated toward zero by way of a 64-bit integer: converted to the
/// integer and back.
pub open spec fn truncated(bits: u64) -> u64 {
    converted(to_integer(bits) as i64)
}

/// A product of a number below `2^53` and a power of two up to `2^10` is below
/// `2^63`.
proof fn lemma_scaled_below(sig: int, j: nat)
    requires
        0 <= sig < 0x20_0000_0000_0000,
        j <= 10,
    ensures
        sig * pow2(j) < 0x8000_0000_0000_0000,
{
    lemma2_to64();
    let p = pow2(j) as int;
    assert(1 <= p <= 1024) by {
        lemma_pow2_pos(j);
        if j < 10 {
            lemma_pow2_strictly_increases(j, 10);
        }
    }
    assert(sig * p <= 0x1F_FFFF_FFFF_FFFF * 1024) by (nonlinear_arith)
        requires
            0 <= sig <= 0x1F_FFFF_FFFF_FFFF,
            1 <= p <= 1024,
    ;
}

/// A product of a number from `2^52` on and a power of two from `2^11` on is
/// `2^63` at least.
proof fn lemma_scaled_above(sig: int, j: nat)
    requires
        0x10_0000_0000_0000 <= sig,
        j >= 11,
    ensures
        sig * pow2(j) >= 0x8000_0000_0000_0000,
{
    lemma2_to64();
    let p = pow2(j) as int;
    assert(p >= 2048) by {
        if j > 11 {
            lemma_pow2_strictly_increases(11, j);
        }
    }
    assert(sig * p >= 0x10_0000_0000_0000 * 2048) by (nonlinear_arith)
        requires
            0x10_0000_0000_0000 <= sig,
            p >= 2048,
    ;
}

/// Converts a value to a 64-bit integer, as [`to_integer`] says.
pub fn to_i64(bits: u64) -> (r: i64)
    ensures
        r == to_integer(bits),
{
    let exponent = (bits / HIDDEN) % 0x800;
    let fraction = bits % HIDDEN;
    let negative = bits >= NEGATIVE_ZERO;
    proof {
        lemma2_to64();
        lemma2_to64_rest();
    }
    if exponent == 2047 && fraction != 0 {
        0
    } else if exponent < 1023 {
        proof {
            let k = (1075 - scale(bits)) as nat;
            assert(significand(bits) < pow2(k)) by {
                if k > 53 {
                    lemma_pow2_strictly_increases(53, k);
                }
            }
            vstd::arithmetic::div_mod::lemma_basic_div(significand(bits) as int, pow2(k) as int);
        }
        0
    } else if exponent >= 1086 {
        proof {
            if exponent < 2047 {
                lemma_scaled_above(significand(bits) as int, (exponent - 1075) as nat);
            }
        }
        if negative {
            i64::MIN
        } else {
            i64::MAX
        }
    } else {
        let significand = HIDDEN + fraction;
        let magnitude = if exponent >= 1075 {
            let shift = exponent - 1075;
            proof {
                lemma_scaled_below(significand as int, shift as nat);
                vstd::bits::lemma_u64_shl_is_mul(significand, shift);
            }
            significand << shift
        } else {
            let shift = 1075 - exponent;
            proof {
                vstd::bits::lemma_u64_shr_is_div(significand, shift);
            }
            significand >> shift
        };
        assert(magnitude == whole(bits));
        assert(magnitude < 0x8000_0000_0000_0000) by {
            if exponent >= 1075 {
                lemma_scaled_below(significand as int, (exponent - 1075) as nat);
            } else {
                lemma_pow2_pos((1075 - exponent) as nat);
                vstd::arithmetic::div_mod::lemma_div_nonincreasing(
                    significand as int,
                    pow2((1075 - exponent) as nat) as int,
                );
            }
        }
        if negative {
            -(magnitude as i64)
        } else {
            magnitude as i64
        }
    }
}

/// Converts a 64-bit integer to binary64, as [`converted`] says.
pub fn from_i64(n: i64) -> (r: u64)
    ensures
        r == converted(n),
{
    let minus = n < 0;
    let m: u64 = if n == i64::MIN {
        0x8000_0000_0000_0000
    } else if minus {
        (-n) as u64
    } else {
        n as u64
    };
    proof {
        lemma_lies_exactly(m as nat, 1074);
        if m > 0 {
            lemma_bit_length_bounds(m as nat);
            lemma2_to64();
            lemma2_to64_rest();
        }
    }
    round_pack(minus, m as u128, 1074, false, Ghost(m as nat * pow2(1074)), Ghost(1))
}

/// Truncates a value toward zero by way of a 64-bit integer.
pub fn truncate(bits: u64) -> (r: u64)
    ensures
        r == truncated(bits),
{
    from_i64(to_i64(bits))
}

/// A finite value of a whole number of `2^1074` ticks is an integer: that
/// number, with its sign.
pub proof fn whole_ticks_are_integers(bits: u64, v: nat)
    requires
        exponent(bits) < 2047,
        ticks(bits) == v * pow2(1074),
    ensures
        integral(bits),
        whole(bits) == v,
{
    lemma2_to64();
    lemma2_to64_rest();
    let sig = significand(bits);
    let sc = scale(bits);
    lemma_pow2_pos(1074);
    if sc >= 1075 {
        let j = (sc - 1075) as nat;
        lemma_pow2_adds(j, 1074);
        assert(v == sig * pow2(j)) by (nonlinear_arith)
            requires
                sig * (pow2(j) * pow2(1074)) == v * pow2(1074),
                pow2(1074) > 0,
        ;
    } else {
        let k = (1075 - sc) as nat;
        lemma_pow2_adds((sc - 1) as nat, k);
        lemma_pow2_pos((sc - 1) as nat);
        lemma_pow2_pos(k);
        assert(sig == v * pow2(k)) by (nonlinear_arith)
            requires
                sig * pow2((sc - 1) as nat) == v * (pow2((sc - 1) as nat) * pow2(k)),
                pow2((sc - 1) as nat) > 0,
        ;
        lemma_fundamental_div_mod_converse(sig as int, pow2(k) as int, v as int, 0);
    }
}

/// A 64-bit integer of up to 53 binary digits converts to itself, and 0 to
/// `+0.0`.
pub proof fn small_integers_convert_exactly(n: i64)
    requires
        bit_length(vstd::math::abs(n as int)) <= 53,
    ensures
        integral(converted(n)),
        integer_of(converted(n)) == n,
        n != 0 ==> negative(converted(n)) == (n < 0),
        n == 0 ==> converted(n) == ZERO,
{
    lemma2_to64();
    lemma2_to64_rest();
    let m = vstd::math::abs(n as int);
    lemma_round_exact(m, 1074, m * pow2(1074) * 1, 1);
    assert(m * pow2(1074) * 1 == m * pow2(1074)) by (nonlinear_arith);
    let t = m * pow2(1074);
    if m > 0 {
        lemma_bit_length_bounds(m);
        lemma_pow2_adds(53, 1074);
        lemma_pow2_strictly_increases(1127, 2098);
        lemma_pow2_pos(1074);
        if bit_length(m) < 53 {
            lemma_pow2_strictly_increases(bit_length(m), 53);
        }
        assert(t < pow2(2098)) by (nonlinear_arith)
            requires
                t == m * pow2(1074),
                m < pow2(53),
                pow2(1127) == pow2(53) * pow2(1074),
                pow2(1127) < pow2(2098),
                pow2(1074) > 0,
        ;
    } else {
        assert(t == 0) by (nonlinear_arith)
            requires
                t == m * pow2(1074),
                m == 0,
        ;
        lemma_pow2_pos(2098);
    }
    pattern_holds_its_ticks(n < 0, m, 1074);
    whole_ticks_are_integers(converted(n), m);
}

/// Truncation is toward zero: of a number whose whole part is below `2^63` it
/// leaves the whole part, with the sign, and nothing else.
pub proof fn truncation_is_toward_zero(bits: u64)
    requires
        exponent(bits) < 2047,
        whole(bits) < 0x8000_0000_0000_0000,
    ensures
        integral(truncated(bits)),
        integer_of(truncated(bits)) == if negative(bits) {
            -(whole(bits) as int)
        } else {
            whole(bits) as int
        },
{
    lemma2_to64();
    lemma2_to64_rest();
    let w = whole(bits);
    let n = to_integer(bits) as i64;
    let minus = n < 0;
    let sig = significand(bits);
    // The whole part is a number of up to 53 binary digits, times a power of
    // two: it is converted as it is.
    let (m, e): (nat, nat) = if scale(bits) >= 1075 {
        (sig, (scale(bits) - 1075) as nat)
    } else {
        (w, 0)
    };
    assert(pow2(0) == 1);
    assert(w == m * pow2(e)) by (nonlinear_arith)
        requires
            (m == sig && w == sig * pow2(e)) || (m == w && pow2(e) == 1),
    ;
    assert(bit_length(m) <= 53) by {
        if scale(bits) >= 1075 {
            assert(sig < pow2(53));
            lemma_digits_at_most(sig, 53);
        } else {
            let k = (1075 - scale(bits)) as nat;
            lemma_pow2_pos(k);
            vstd::arithmetic::div_mod::lemma_div_nonincreasing(sig as int, pow2(k) as int);
            vstd::arithmetic::div_mod::lemma_div_pos_is_pos(sig as int, pow2(k) as int);
            lemma_digits_at_most(w, 53);
        }
    }
    lemma_pow2_adds(e, 1074);
    let t = w * pow2(1074);
    assert(t == m * pow2(e + 1074)) by (nonlinear_arith)
        requires
            t == w * pow2(1074),
            w == m * pow2(e),
            pow2(e + 1074) == pow2(e) * pow2(1074),
    ;
    lemma_round_exact(m, e + 1074, t * 1, 1);
    assert(t * 1 == t) by (nonlinear_arith);
    lemma_pow2_adds(63, 1074);
    lemma_pow2_strictly_increases(1137, 2098);
    lemma_pow2_pos(1074);
    assert(t < pow2(2098)) by (nonlinear_arith)
        requires
            t == w * pow2(1074),
            w < pow2(63),
            pow2(1137) == pow2(63) * pow2(1074),
            pow2(1137) < pow2(2098),
            pow2(1074) > 0,
    ;
    pattern_holds_its_ticks(minus, m, e + 1074);
    assert(truncated(bits) == pattern(minus, t));
    whole_ticks_are_integers(truncated(bits), w);
}

/// Truncation of what is too large for a 64-bit integer, an infinity too,
/// gives `2^63` with the sign; of a NaN it gives `+0.0`.
pub proof fn truncation_at_the_limits(bits: u64)
    requires
        exponent(bits) == 2047 || whole(bits) >= 0x8000_0000_0000_0000,
    ensures
        nan(bits) ==> truncated(bits) == ZERO,
        !nan(bits) ==> integral(truncated(bits)) && integer_of(truncated(bits)) == if negative(bits) {
            -0x8000_0000_0000_0000
        } else {
            0x8000_0000_0000_0000
        },
{
    lemma2_to64();
    lemma2_to64_rest();
    lemma_pow2_pos(2098);
    lemma_pow2_pos(1074);
    let limit = pow2(63);
    let t = limit * pow2(1074);
    lemma_pow2_adds(63, 1074);
    lemma_pow2_strictly_increases(1137, 2098);
    if nan(bits) {
        small_integers_convert_exactly(0);
        assert(bit_length(0) == 0);
    } else if negative(bits) {
        // The smallest 64-bit integer is a power of two.
        assert(bit_length(1) == 1) by {
            assert(bit_length(1) == 1 + bit_length(0));
            assert(bit_length(0) == 0);
        }
        lemma_round_exact(1, 1137, t * 1, 1);
        assert(t * 1 == t) by (nonlinear_arith);
        assert(1 * pow2(1137) == t) by (nonlinear_arith)
            requires
                pow2(1137) == t,
        ;
        pattern_holds_its_ticks(true, 1, 1137);
        whole_ticks_are_integers(truncated(bits), limit);
    } else {
        // The largest 64-bit integer lies between two values, nearer to the
        // power of two above it.
        let m = (limit - 1) as nat;
        lemma_lies_exactly(m, 1074);
        lemma_bit_length(m, 62);
        let kept = m / pow2(10);
        lemma_fundamental_div_mod_converse(m as int, 1024, 0x1F_FFFF_FFFF_FFFF, 1023);
        lemma_bit_length(kept, 52);
        lemma_round_drop(m, 1074, 10, false, m * pow2(1074), 1);
        lemma_pow2_adds(53, 1084);
        assert(bit_length(1) == 1) by {
            assert(bit_length(1) == 1 + bit_length(0));
            assert(bit_length(0) == 0);
        }
        assert((kept + 1) * pow2(1084) == 1 * pow2(1137)) by (nonlinear_arith)
            requires
                kept + 1 == pow2(53),
                pow2(1137) == pow2(53) * pow2(1084),
        ;
        assert(1 * pow2(1137) == t) by (nonlinear_arith)
            requires
                pow2(1137) == t,
        ;
        pattern_holds_its_ticks(false, 1, 1137);
        whole_ticks_are_integers(truncated(bits), limit);
    }
}

} // verus!
