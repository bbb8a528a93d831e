//! The binary64 format: the three fields of a bit pattern, the values that
//! the patterns stand for, and the patterns of the values.
//!
//! A bit pattern holds a sign (1 bit), an exponent (11 bits) and a fraction
//! (52 bits). With the exponent 2047 it is an infinity (fraction zero) or no
//! number at all (NaN). Any other pattern is finite, and is a whole number of
//! ticks, a tick being `2^-1074`, the smallest positive value: its magnitude
//! is `ticks * 2^-1074`. Up to `2^53` every number of ticks is a value; beyond
//! it the values thin out as [`spacing`] says.

use vstd::prelude::*;
use vstd::arithmetic::div_mod::{lemma_fundamental_div_mod, lemma_fundamental_div_mod_converse};
use vstd::arithmetic::power2::{
    lemma2_to64, lemma2_to64_rest, lemma_pow2_adds, lemma_pow2_pos, lemma_pow2_strictly_increases,
    pow2,
};

verus! {

/// The bit pattern of `+0.0`.
pub const ZERO: u64 = 0;

/// The bit pattern of `-0.0`.
pub const NEGATIVE_ZERO: u64 = 0x8000_0000_0000_0000;

/// The bit pattern of `1.0`.
pub const ONE: u64 = 0x3FF0_0000_0000_0000;

/// `2^52`: one more than the largest fraction.
pub const HIDDEN: u64 = 0x10_0000_0000_0000;

/// The bit pattern of positive infinity.
pub const INFINITY: u64 = 0x7FF0_0000_0000_0000;

/// The bit pattern that stands for every result that is no number.
pub const NAN: u64 = 0x7FF8_0000_0000_0000;

/// Whether the sign bit is set.
pub open spec fn negative(bits: u64) -> bool {
    bits >= 0x8000_0000_0000_0000
}

/// The exponent field: 11 bits.
pub open spec fn exponent(bits: u64) -> nat {
    ((bits / HIDDEN) % 0x800) as nat
}

/// The fraction field: 52 bits.
pub open spec fn fraction(bits: u64) -> nat {
    (bits % HIDDEN) as nat
}

/// Whether a bit pattern is no number (NaN).
pub open spec fn nan(bits: u64) -> bool {
    exponent(bits) == 2047 && fraction(bits) != 0
}

/// Whether a bit pattern is an infinity.
pub open spec fn infinite(bits: u64) -> bool {
    exponent(bits) == 2047 && fraction(bits) == 0
}

/// Whether a bit pattern is one of the two zeros, `+0.0` and `-0.0`: the
/// values that compare equal to zero.
pub open spec fn zero(bits: u64) -> bool {
    exponent(bits) == 0 && fraction(bits) == 0
}

/// The significand of a finite value: the fraction, with the hidden bit
/// before it unless the exponent field is 0.
pub open spec fn significand(bits: u64) -> nat {
    if exponent(bits) == 0 {
        fraction(bits)
    } else {
        HIDDEN as nat + fraction(bits)
    }
}

/// The power of two that the significand of a finite value is scaled by, plus
/// 1075: the magnitude is `significand * 2^(scale - 1075)`.
pub open spec fn scale(bits: u64) -> nat {
    if exponent(bits) == 0 {
        1
    } else {
        exponent(bits)
    }
}

/// The magnitude of a finite value in ticks.
pub open spec fn ticks(bits: u64) -> nat {
    significand(bits) * pow2((scale(bits) - 1) as nat)
}

/// The number of binary digits of a natural number.
pub open spec fn bit_length(m: nat) -> nat
    decreases m,
{
    if m == 0 {
        0
    } else {
        1 + bit_length(m / 2)
    }
}

/// The distance between neighbouring binary64 values at the magnitude `m`:
/// 1 for a number of up to 53 binary digits, and twice as much with every
/// digit more.
pub open spec fn spacing(m: nat) -> nat {
    if bit_length(m) <= 53 {
        1
    } else {
        pow2((bit_length(m) - 53) as nat)
    }
}

/// The bit pattern of the value of a given sign and number of ticks, where
/// that number is one of a value; with `2^2098` ticks or more it is an
/// infinity.
pub open spec fn pattern(minus: bool, t: nat) -> u64 {
    let sign: int = if minus {
        NEGATIVE_ZERO as int
    } else {
        0
    };
    if t >= pow2(2098) {
        (sign + INFINITY) as u64
    } else if t < HIDDEN {
        (sign + t) as u64
    } else {
        let top = (bit_length(t) - 1) as nat;
        (sign + (top - 51) * HIDDEN + (t / pow2((top - 52) as nat) - HIDDEN)) as u64
    }
}

/// A value with the given sign: an infinity.
pub open spec fn infinity(minus: bool) -> u64 {
    if minus {
        (NEGATIVE_ZERO + INFINITY) as u64
    } else {
        INFINITY
    }
}

/// Tests a value for zero of either sign.
pub fn is_zero(bits: u64) -> (r: bool)
    ensures
        r == zero(bits),
{
    bits == ZERO || bits == NEGATIVE_ZERO
}

/// The parts of a finite value: its sign, its significand and its scale.
pub(crate) struct Parts {
    pub minus: bool,
    pub significand: u64,
    pub scale: u32,
}

/// Takes a value apart: its sign, its exponent field and its fraction field.
pub(crate) fn fields(bits: u64) -> (r: (bool, u64, u64))
    ensures
        r.0 == negative(bits),
        r.1 == exponent(bits),
        r.2 == fraction(bits),
        r.1 <= 2047,
        r.2 < HIDDEN,
{
    (bits >= NEGATIVE_ZERO, (bits / HIDDEN) % 0x800, bits % HIDDEN)
}

/// Takes a finite value apart.
pub(crate) fn parts(bits: u64) -> (r: Parts)
    requires
        exponent(bits) < 2047,
    ensures
        r.minus == negative(bits),
        r.significand == significand(bits),
        r.scale == scale(bits),
        r.significand < 2 * HIDDEN,
        1 <= r.scale <= 2046,
        r.scale > 1 ==> r.significand >= HIDDEN,
{
    let (minus, exponent, fraction) = fields(bits);
    if exponent == 0 {
        Parts { minus, significand: fraction, scale: 1 }
    } else {
        Parts { minus, significand: HIDDEN + fraction, scale: exponent as u32 }
    }
}

/// A number between two neighbouring powers of two has one binary digit more
/// than the exponent of the lower one says.
pub proof fn lemma_bit_length(m: nat, top: nat)
    requires
        pow2(top) <= m < pow2(top + 1),
    ensures
        bit_length(m) == top + 1,
    decreases top,
{
    lemma2_to64();
    if top == 0 {
        assert(m == 1);
        assert(bit_length(1) == 1 + bit_length(0));
    } else {
        lemma_pow2_adds(1, (top - 1) as nat);
        lemma_pow2_adds(1, top);
        assert(m > 0) by {
            lemma_pow2_pos(top);
        }
        lemma_bit_length(m / 2, (top - 1) as nat);
    }
}

/// A number of at least 1 lies between the two neighbouring powers of two that
/// its number of binary digits names.
pub proof fn lemma_bit_length_bounds(m: nat)
    requires
        m >= 1,
    ensures
        bit_length(m) >= 1,
        pow2((bit_length(m) - 1) as nat) <= m < pow2(bit_length(m)),
    decreases m,
{
    lemma2_to64();
    if m == 1 {
        assert(bit_length(1) == 1 + bit_length(0));
    } else {
        lemma_bit_length_bounds(m / 2);
        let digits = bit_length(m / 2);
        lemma_pow2_adds(1, (digits - 1) as nat);
        lemma_pow2_adds(1, digits);
    }
}

/// A number below a power of two has no more binary digits than the exponent
/// says.
pub proof fn lemma_digits_at_most(m: nat, width: nat)
    requires
        m < pow2(width),
    ensures
        bit_length(m) <= width,
{
    if m == 0 {
        assert(bit_length(0) == 0);
    } else {
        lemma_bit_length_bounds(m);
        if bit_length(m) > width {
            if bit_length(m) - 1 > width {
                lemma_pow2_strictly_increases(width, (bit_length(m) - 1) as nat);
            }
        }
    }
}

/// The fields of a pattern that is put together from a sign, an exponent
/// field and a significand with its hidden bit.
pub proof fn lemma_fields(minus: bool, field: nat, significand: nat)
    requires
        1 <= field <= 2046,
        HIDDEN <= significand < 2 * HIDDEN,
    ensures
        ({
            let bits = ((if minus {
                NEGATIVE_ZERO as int
            } else {
                0
            }) + field * HIDDEN + (significand - HIDDEN)) as u64;
            &&& exponent(bits) == field
            &&& fraction(bits) == significand - HIDDEN
            &&& negative(bits) == minus
        }),
{
    let high: int = if minus {
        2048
    } else {
        0
    };
    let x = high * HIDDEN + field * HIDDEN + (significand - HIDDEN);
    assert(high * HIDDEN == if minus {
        NEGATIVE_ZERO as int
    } else {
        0
    });
    assert(x == (high + field) * HIDDEN + (significand - HIDDEN)) by (nonlinear_arith)
        requires
            x == high * HIDDEN + field * HIDDEN + (significand - HIDDEN),
    ;
    assert(0 <= x <= u64::MAX) by (nonlinear_arith)
        requires
            x == (high + field) * HIDDEN + (significand - HIDDEN),
            0 <= high <= 2048,
            1 <= field <= 2046,
            HIDDEN <= significand < 2 * HIDDEN,
            HIDDEN == 0x10_0000_0000_0000,
    ;
    lemma_fundamental_div_mod_converse(x, HIDDEN as int, high + field, significand - HIDDEN);
    if minus {
        assert(x >= 2048 * HIDDEN) by (nonlinear_arith)
            requires
                x == (high + field) * HIDDEN + (significand - HIDDEN),
                high == 2048,
                field >= 1,
                HIDDEN <= significand,
                HIDDEN > 0,
        ;
    } else {
        assert(x < 2047 * HIDDEN) by (nonlinear_arith)
            requires
                x == (high + field) * HIDDEN + (significand - HIDDEN),
                high == 0,
                field <= 2046,
                significand < 2 * HIDDEN,
                HIDDEN > 0,
        ;
    }
}

/// The pattern of a number of ticks that is a number of up to 53 binary
/// digits times a power of two, below `2^2098`, is a finite value of that
/// many ticks and of the given sign.
pub proof fn pattern_holds_its_ticks(minus: bool, m: nat, e: nat)
    requires
        bit_length(m) <= 53,
        m * pow2(e) < pow2(2098),
    ensures
        exponent(pattern(minus, m * pow2(e))) < 2047,
        negative(pattern(minus, m * pow2(e))) == minus,
        ticks(pattern(minus, m * pow2(e))) == m * pow2(e),
{
    lemma2_to64();
    lemma2_to64_rest();
    let t = m * pow2(e);
    let bits = pattern(minus, t);
    let sign: int = if minus {
        NEGATIVE_ZERO as int
    } else {
        0
    };
    if t < HIDDEN {
        lemma_fundamental_div_mod_converse(sign + t, HIDDEN as int, if minus {
            2048
        } else {
            0
        }, t as int);
        assert(exponent(bits) == 0);
        assert(fraction(bits) == t);
        assert(t * pow2(0) == t) by (nonlinear_arith)
            requires
                pow2(0) == 1,
        ;
    } else {
        assert(m >= 1) by (nonlinear_arith)
            requires
                m * pow2(e) >= 1,
                m >= 0,
        ;
        lemma_bit_length_bounds(m);
        let width = bit_length(m);
        let top = (width + e - 1) as nat;
        lemma_pow2_adds((width - 1) as nat, e);
        lemma_pow2_adds(width, e);
        lemma_pow2_pos(e);
        let p = pow2(e) as int;
        let lo = pow2((width - 1) as nat) as int;
        let hi = pow2(width) as int;
        assert(lo * p <= t < hi * p) by (nonlinear_arith)
            requires
                t == m * p,
                lo <= m < hi,
                p > 0,
        ;
        lemma_bit_length(t, top);
        assert(top >= 52) by {
            if top < 52 {
                lemma_pow2_strictly_increases(top + 1, 53);
                if top + 1 < 52 {
                    lemma_pow2_strictly_increases(top + 1, 52);
                }
            }
        }
        assert(top <= 2097) by {
            if top > 2097 {
                if top > 2098 {
                    lemma_pow2_strictly_increases(2098, top);
                }
            }
        }
        let left = (53 - width) as nat;
        let rest = (top - 52) as nat;
        lemma_pow2_adds(left, rest);
        let sig = m * pow2(left);
        lemma_pow2_adds((width - 1) as nat, left);
        lemma_pow2_adds(width, left);
        lemma_pow2_pos(left);
        let pl = pow2(left) as int;
        assert(lo * pl <= sig < hi * pl) by (nonlinear_arith)
            requires
                sig == m * pl,
                lo <= m < hi,
                pl > 0,
        ;
        assert(t == sig * pow2(rest)) by (nonlinear_arith)
            requires
                t == m * pow2(e),
                sig == m * pow2(left),
                pow2(e) == pow2(left) * pow2(rest),
        ;
        lemma_pow2_pos(rest);
        lemma_fundamental_div_mod_converse(t as int, pow2(rest) as int, sig as int, 0);
        lemma_fields(minus, (top - 51) as nat, sig);
        assert(exponent(bits) == top - 51);
        assert(significand(bits) == sig);
        assert(scale(bits) == top - 51);
        assert((scale(bits) - 1) as nat == rest);
    }
}

/// The pattern of a value of a given number of ticks holds that number of
/// ticks, with the sign.
pub proof fn pattern_of_a_value(minus: bool, t: nat)
    requires
        t < pow2(2098),
        t % spacing(t) == 0,
    ensures
        exponent(pattern(minus, t)) < 2047,
        negative(pattern(minus, t)) == minus,
        ticks(pattern(minus, t)) == t,
{
    lemma2_to64();
    let unit = spacing(t);
    if bit_length(t) <= 53 {
        assert(t * pow2(0) == t) by (nonlinear_arith)
            requires
                pow2(0) == 1,
        ;
        pattern_holds_its_ticks(minus, t, 0);
    } else {
        let j = (bit_length(t) - 53) as nat;
        lemma_pow2_pos(j);
        let m = t / unit;
        lemma_fundamental_div_mod(t as int, unit as int);
        assert(t == m * pow2(j)) by (nonlinear_arith)
            requires
                t == unit * m + 0,
                unit == pow2(j),
        ;
        lemma_bit_length_bounds(t);
        lemma_pow2_adds(53, j);
        assert(m < pow2(53)) by (nonlinear_arith)
            requires
                t == m * pow2(j),
                t < pow2(53) * pow2(j),
                pow2(j) > 0,
        ;
        lemma_digits_at_most(m, 53);
        pattern_holds_its_ticks(minus, m, j);
    }
}

} // verus!
