//! Rounding: of all values the one nearest to an exact result, and of two
//! that are equally near the one with the even significand.

use vstd::prelude::*;
use vstd::arithmetic::div_mod::{lemma_fundamental_div_mod, lemma_fundamental_div_mod_converse};
use vstd::arithmetic::power2::{
    lemma2_to64, lemma2_to64_rest, lemma_pow2_adds, lemma_pow2_pos, lemma_pow2_strictly_increases,
    pow2,
};
use crate::binary64::{
    bit_length, lemma_bit_length, lemma_bit_length_bounds, lemma_digits_at_most, pattern, spacing,
    HIDDEN, INFINITY, NEGATIVE_ZERO,
};

verus! {

/// The number of ticks of the value that is nearest to `num / den` ticks, and
/// of two values that are equally near the one with the even significand. The
/// whole part of the ratio says how far apart the values are there.
pub open spec fn round_ratio(num: nat, den: nat) -> nat
    recommends
        den > 0,
{
    let whole = num / den;
    let unit = spacing(whole);
    let base = (whole - whole % unit) as nat;
    let over = (whole % unit) * den + num % den;
    if 2 * over < unit * den || (2 * over == unit * den && (base / unit) % 2 == 0) {
        base
    } else {
        base + unit
    }
}

/// Whether the ratio `num / den` lies at `m * 2^e`: from there on and below
/// `(m + 1) * 2^e`, and above `m * 2^e` if and only if `sticky` says so.
pub open spec fn lies_at(m: nat, e: int, sticky: bool, num: nat, den: nat) -> bool {
    if e >= 0 {
        let low = m * pow2(e as nat);
        &&& low * den <= num < (low + pow2(e as nat)) * den
        &&& sticky <==> low * den < num
    } else {
        let d = pow2((-e) as nat);
        &&& m * den <= num * d < (m + 1) * den
        &&& sticky <==> m * den < num * d
    }
}

/// `2^k` as a 128-bit number.
pub(crate) fn power_of_two(k: u32) -> (r: u128)
    requires
        k <= 126,
    ensures
        r == pow2(k as nat),
        r <= 0x4000_0000_0000_0000_0000_0000_0000_0000,
{
    proof {
        lemma2_to64();
        lemma2_to64_rest();
        lemma_pow2_adds(63, 63);
    }
    let mut r: u128 = 1;
    let mut i: u32 = 0;
    while i < k
        invariant
            i <= k <= 126,
            r == pow2(i as nat),
            r <= 0x4000_0000_0000_0000_0000_0000_0000_0000,
            pow2(126) == 0x4000_0000_0000_0000_0000_0000_0000_0000,
        decreases k - i,
    {
        proof {
            lemma_pow2_adds(1, i as nat);
            lemma2_to64();
            if i < 125 {
                lemma_pow2_strictly_increases((i + 1) as nat, 126);
            }
        }
        r = r * 2;
        i += 1;
    }
    r
}

/// The number of binary digits of a number.
pub(crate) fn digits(m: u128) -> (r: u32)
    requires
        m < 0x4000_0000_0000_0000_0000_0000_0000_0000,
    ensures
        r == bit_length(m as nat),
        r <= 126,
{
    proof {
        lemma2_to64();
        lemma2_to64_rest();
        lemma_pow2_adds(63, 63);
    }
    if m == 0 {
        assert(bit_length(0) == 0);
        return 0;
    }
    let mut r: u32 = 126;
    let mut p: u128 = 0x2000_0000_0000_0000_0000_0000_0000_0000;
    proof {
        lemma_pow2_adds(1, 125);
    }
    while m < p
        invariant
            1 <= r <= 126,
            p == pow2((r - 1) as nat),
            1 <= m < pow2(r as nat),
        decreases r,
    {
        proof {
            lemma2_to64();
            lemma_pow2_adds(1, (r - 2) as nat);
        }
        p = p / 2;
        r = r - 1;
    }
    proof {
        lemma_bit_length(m as nat, (r - 1) as nat);
    }
    r
}

/// A power of two with a greater exponent is no smaller.
pub proof fn lemma_pow2_grows(a: nat, b: nat)
    requires
        a <= b,
    ensures
        pow2(a) <= pow2(b),
        pow2(a) > 0,
{
    lemma_pow2_pos(a);
    if a < b {
        lemma_pow2_strictly_increases(a, b);
    }
}

/// A number with `top + 1` binary digits, times a power of two, has as many
/// digits more as the exponent says, and lies between the powers of two that
/// this names.
pub proof fn lemma_shifted_digits(t: nat, e: nat)
    requires
        t >= 1,
    ensures
        bit_length(t * pow2(e)) == bit_length(t) + e,
        pow2((bit_length(t) + e - 1) as nat) <= t * pow2(e) < pow2(bit_length(t) + e),
{
    lemma_bit_length_bounds(t);
    let top = (bit_length(t) - 1) as nat;
    lemma_pow2_adds(top, e);
    lemma_pow2_adds(top + 1, e);
    lemma_pow2_pos(e);
    let p = pow2(e) as int;
    let lo = pow2(top) as int;
    let hi = pow2(top + 1) as int;
    assert(lo * p <= t * p < hi * p) by (nonlinear_arith)
        requires
            lo <= t < hi,
            p > 0,
    ;
    lemma_bit_length(t * pow2(e), top + e);
}

/// A multiple of a power of two over that power is the factor.
pub proof fn lemma_cancel(factor: nat, b: nat)
    ensures
        (factor * pow2(b)) / pow2(b) == factor,
        (factor * pow2(b)) % pow2(b) == 0,
{
    lemma_pow2_pos(b);
    lemma_fundamental_div_mod_converse((factor * pow2(b)) as int, pow2(b) as int, factor as int, 0);
}

/// Puts a pattern together from a sign and a number of ticks that is given as
/// a number of up to 53 binary digits, or `2^53`, times a power of two.
pub(crate) fn pack(minus: bool, t: u64, e: u32) -> (r: u64)
    requires
        t <= 2 * HIDDEN,
        e <= 4000,
    ensures
        r == pattern(minus, t as nat * pow2(e as nat)),
{
    let sign: u64 = if minus {
        NEGATIVE_ZERO
    } else {
        0
    };
    proof {
        lemma2_to64();
        lemma2_to64_rest();
        lemma_pow2_pos(2098);
    }
    if t == 0 {
        assert(t as nat * pow2(e as nat) == 0) by (nonlinear_arith)
            requires
                t == 0,
        ;
        return sign;
    }
    let width = digits(t as u128);
    let ghost value = t as nat * pow2(e as nat);
    proof {
        lemma_shifted_digits(t as nat, e as nat);
        lemma_bit_length_bounds(t as nat);
        if width > 54 {
            lemma_pow2_strictly_increases(54, (width - 1) as nat);
            lemma_pow2_adds(1, 53);
        }
        assert(width <= 54);
    }
    let top = width - 1 + e;
    if top >= 2098 {
        proof {
            if top > 2098 {
                lemma_pow2_strictly_increases(2098, top as nat);
            }
        }
        return sign + INFINITY;
    }
    proof {
        if top + 1 < 2098 {
            lemma_pow2_strictly_increases((top + 1) as nat, 2098);
        }
        assert(value < pow2(2098));
    }
    if top < 52 {
        proof {
            if top + 1 < 52 {
                lemma_pow2_strictly_increases((top + 1) as nat, 52);
            }
            assert(value < HIDDEN);
        }
        let scaled = t as u128 * power_of_two(e);
        return sign + scaled as u64;
    }
    proof {
        if top > 52 {
            lemma_pow2_strictly_increases(52, top as nat);
        }
        assert(value >= HIDDEN);
    }
    let field = (top - 51) as u64;
    let significand: u64 = if width == 54 {
        proof {
            lemma_pow2_adds(1, 53);
            assert(t == 2 * HIDDEN);
            lemma_pow2_adds(52, (e + 1) as nat);
            lemma_pow2_adds(1, e as nat);
            assert(value == HIDDEN * pow2((e + 1) as nat)) by (nonlinear_arith)
                requires
                    value == t * pow2(e as nat),
                    t == 2 * HIDDEN,
                    pow2((e + 1) as nat) == 2 * pow2(e as nat),
            ;
            lemma_cancel(HIDDEN as nat, (e + 1) as nat);
            assert((top - 52) as nat == e + 1);
        }
        HIDDEN
    } else {
        let left = 53 - width;
        proof {
            lemma_shifted_digits(t as nat, left as nat);
        }
        let widened = t as u128 * power_of_two(left);
        proof {
            let rest = (e - left) as nat;
            lemma_pow2_adds(left as nat, rest);
            assert(value == widened * pow2(rest)) by (nonlinear_arith)
                requires
                    value == t * pow2(e as nat),
                    widened == t * pow2(left as nat),
                    pow2(e as nat) == pow2(left as nat) * pow2(rest),
            ;
            lemma_cancel(widened as nat, rest);
            assert((top - 52) as nat == rest);
            assert(HIDDEN <= widened < 2 * HIDDEN);
        }
        widened as u64
    };
    sign + field * HIDDEN + (significand - HIDDEN)
}

/// A whole number of ticks lies at itself.
pub proof fn lemma_lies_exactly(m: nat, e: nat)
    ensures
        lies_at(m, e as int, false, m * pow2(e), 1),
{
    lemma_pow2_pos(e);
    let low = m * pow2(e);
    assert(low * 1 == low) by (nonlinear_arith);
    assert(low < (low + pow2(e)) * 1) by (nonlinear_arith)
        requires
            pow2(e) > 0,
    ;
}

/// A ratio that is a number of up to 53 binary digits times a power of two is
/// a value, and is left as it is.
pub proof fn lemma_round_exact(m: nat, e: nat, num: nat, den: nat)
    requires
        den > 0,
        bit_length(m) <= 53,
        num == m * pow2(e) * den,
    ensures
        round_ratio(num, den) == m * pow2(e),
{
    let whole = m * pow2(e);
    lemma_fundamental_div_mod_converse(num as int, den as int, whole as int, 0);
    let unit = spacing(whole);
    if m == 0 {
        assert(whole == 0) by (nonlinear_arith)
            requires
                whole == m * pow2(e),
                m == 0,
        ;
        assert(bit_length(0) == 0);
    } else {
        lemma_shifted_digits(m, e);
        if bit_length(whole) > 53 {
            let j = (bit_length(whole) - 53) as nat;
            let rest = (e - j) as nat;
            lemma_pow2_adds(rest, j);
            assert(whole == (m * pow2(rest)) * pow2(j)) by (nonlinear_arith)
                requires
                    whole == m * pow2(e),
                    pow2(e) == pow2(rest) * pow2(j),
            ;
            lemma_cancel(m * pow2(rest), j);
        }
    }
    assert(whole % unit == 0);
    assert(unit >= 1) by {
        if bit_length(whole) > 53 {
            lemma_pow2_pos((bit_length(whole) - 53) as nat);
        }
    }
    assert(0 < unit * den) by (nonlinear_arith)
        requires
            unit >= 1,
            den > 0,
    ;
}

/// A ratio below half a tick is rounded to nothing.
pub proof fn lemma_round_tiny(num: nat, den: nat)
    requires
        den > 0,
        2 * num < den,
    ensures
        round_ratio(num, den) == 0,
{
    lemma_fundamental_div_mod_converse(num as int, den as int, 0, num as int);
    assert(num / den == 0 && num % den == num);
    assert(bit_length(0) == 0);
    assert(spacing(0) == 1);
    assert(0nat % 1 == 0);
    assert((0nat % 1) * den + num % den == num) by (nonlinear_arith)
        requires
            num % den == num,
    ;
    assert(1 * den == den) by (nonlinear_arith);
}

/// A ratio of `2^2098` ticks or more is rounded to no less.
pub proof fn lemma_round_huge(num: nat, den: nat)
    requires
        den > 0,
        num >= pow2(2098) * den,
    ensures
        round_ratio(num, den) >= pow2(2098),
{
    let whole = num / den;
    let rest = num % den;
    lemma_fundamental_div_mod(num as int, den as int);
    lemma_pow2_pos(2098);
    let limit = pow2(2098) as int;
    assert(whole >= limit) by (nonlinear_arith)
        requires
            num == den * whole + rest,
            0 <= rest < den,
            num >= limit * den,
            den > 0,
    ;
    lemma_bit_length_bounds(whole);
    let width = bit_length(whole);
    assert(width >= 2099) by {
        if width < 2099 {
            lemma_pow2_grows(width, 2098);
        }
    }
    let unit = spacing(whole);
    let j = (width - 53) as nat;
    assert(unit == pow2(j));
    lemma_pow2_pos(j);
    // The power of two below the whole part is a multiple of the unit, so
    // that what is taken off the whole part does not reach below it.
    let floor = pow2((width - 1) as nat) as int;
    lemma_pow2_adds(52, j);
    let low = whole as int % (unit as int);
    let base = whole - low;
    lemma_fundamental_div_mod(whole as int, unit as int);
    let count = whole as int / (unit as int);
    assert(count >= pow2(52)) by (nonlinear_arith)
        requires
            whole == unit * count + low,
            0 <= low < unit,
            whole >= pow2(52) * unit,
            unit > 0,
    ;
    assert(base >= floor) by (nonlinear_arith)
        requires
            base == unit * count,
            count >= pow2(52),
            floor == pow2(52) * unit,
            unit > 0,
    ;
    lemma_pow2_grows(2098, (width - 1) as nat);
}

/// Rounding by dropping digits: where the last `k` binary digits of `m` are
/// dropped, and what is kept has 53 digits or stands for whole ticks, the
/// ratio is rounded to what is kept or to the next number, as the dropped
/// digits say.
pub proof fn lemma_round_drop(m: nat, e: int, k: nat, sticky: bool, num: nat, den: nat)
    requires
        den > 0,
        k >= 1,
        e + k >= 0,
        lies_at(m, e, sticky, num, den),
        bit_length(m / pow2(k)) == 53 || (e + k == 0 && bit_length(m / pow2(k)) < 53),
    ensures
        ({
            let kept = m / pow2(k);
            let dropped = m % pow2(k);
            let half = pow2((k - 1) as nat);
            let up = dropped > half || (dropped == half && (sticky || kept % 2 == 1));
            round_ratio(num, den) == (if up {
                kept + 1
            } else {
                kept
            }) * pow2((e + k) as nat)
        }),
{
    let p = pow2(k) as int;
    let half = pow2((k - 1) as nat) as int;
    let step = pow2((e + k) as nat) as int;
    let kept = m as int / p;
    let dropped = m as int % p;
    lemma_pow2_pos(k);
    lemma_pow2_pos((k - 1) as nat);
    lemma_pow2_pos((e + k) as nat);
    lemma_pow2_adds(1, (k - 1) as nat);
    lemma2_to64();
    assert(p == 2 * half);
    lemma_fundamental_div_mod(m as int, p);
    assert(m == p * kept + dropped);
    let base = kept * step;
    let n = num as int;
    let d = den as int;
    // The ratio lies from what is kept on and below the next number, and the
    // excess over what is kept compares to half a step as the dropped digits
    // compare to half of what they could be.
    let excess = n - base * d;
    if e >= 0 {
        let q = pow2(e as nat) as int;
        lemma_pow2_pos(e as nat);
        lemma_pow2_adds(k, e as nat);
        assert(step == p * q);
        let low = m * q;
        assert(low == base + dropped * q) by (nonlinear_arith)
            requires
                low == m * q,
                m == p * kept + dropped,
                base == kept * step,
                step == p * q,
        ;
        assert(excess >= dropped * q * d) by (nonlinear_arith)
            requires
                excess == n - base * d,
                low * d <= n,
                low == base + dropped * q,
        ;
        assert(excess < (dropped + 1) * q * d) by (nonlinear_arith)
            requires
                excess == n - base * d,
                n < (low + q) * d,
                low == base + dropped * q,
        ;
        assert(sticky <==> excess > dropped * q * d) by (nonlinear_arith)
            requires
                excess == n - base * d,
                sticky <==> low * d < n,
                low == base + dropped * q,
        ;
        assert(step * d == 2 * half * q * d) by (nonlinear_arith)
            requires
                step == p * q,
                p == 2 * half,
        ;
        assert(0 <= excess < step * d) by (nonlinear_arith)
            requires
                excess >= dropped * q * d,
                excess < (dropped + 1) * q * d,
                0 <= dropped < p,
                step == p * q,
                q > 0,
                d > 0,
        ;
        if dropped > half {
            assert(2 * excess > step * d) by (nonlinear_arith)
                requires
                    excess >= dropped * q * d,
                    dropped >= half + 1,
                    step * d == 2 * half * q * d,
                    q > 0,
                    d > 0,
            ;
        } else if dropped < half {
            assert(2 * excess < step * d) by (nonlinear_arith)
                requires
                    excess < (dropped + 1) * q * d,
                    dropped + 1 <= half,
                    step * d == 2 * half * q * d,
                    q > 0,
                    d > 0,
            ;
        } else {
            assert(2 * excess >= step * d) by (nonlinear_arith)
                requires
                    excess >= dropped * q * d,
                    dropped == half,
                    step * d == 2 * half * q * d,
            ;
            assert(sticky <==> 2 * excess > step * d) by (nonlinear_arith)
                requires
                    sticky <==> excess > dropped * q * d,
                    dropped == half,
                    step * d == 2 * half * q * d,
            ;
        }
    } else {
        let q = pow2((-e) as nat) as int;
        lemma_pow2_pos((-e) as nat);
        lemma_pow2_adds((-e) as nat, (e + k) as nat);
        assert(p == q * step);
        assert(excess * q == n * q - kept * p * d) by (nonlinear_arith)
            requires
                excess == n - base * d,
                base == kept * step,
                p == q * step,
        ;
        assert(excess * q >= dropped * d) by (nonlinear_arith)
            requires
                excess * q == n * q - kept * p * d,
                m * d <= n * q,
                m == p * kept + dropped,
        ;
        assert(excess * q < (dropped + 1) * d) by (nonlinear_arith)
            requires
                excess * q == n * q - kept * p * d,
                n * q < (m + 1) * d,
                m == p * kept + dropped,
        ;
        assert(sticky <==> excess * q > dropped * d) by (nonlinear_arith)
            requires
                excess * q == n * q - kept * p * d,
                sticky <==> m * d < n * q,
                m == p * kept + dropped,
        ;
        assert(0 <= excess) by (nonlinear_arith)
            requires
                excess * q >= dropped * d,
                dropped >= 0,
                d > 0,
                q > 0,
        ;
        assert(excess < step * d) by (nonlinear_arith)
            requires
                excess * q < (dropped + 1) * d,
                dropped + 1 <= p,
                p == q * step,
                q > 0,
                d > 0,
        ;
        if dropped > half {
            assert(2 * excess > step * d) by (nonlinear_arith)
                requires
                    excess * q >= dropped * d,
                    dropped >= half + 1,
                    p == q * step,
                    p == 2 * half,
                    q > 0,
                    d > 0,
            ;
        } else if dropped < half {
            assert(2 * excess < step * d) by (nonlinear_arith)
                requires
                    excess * q < (dropped + 1) * d,
                    dropped + 1 <= half,
                    p == q * step,
                    p == 2 * half,
                    q > 0,
                    d > 0,
            ;
        } else {
            assert(2 * excess >= step * d) by (nonlinear_arith)
                requires
                    excess * q >= dropped * d,
                    dropped == half,
                    p == q * step,
                    p == 2 * half,
                    q > 0,
            ;
            assert(sticky <==> 2 * excess > step * d) by (nonlinear_arith)
                requires
                    sticky <==> excess * q > dropped * d,
                    dropped == half,
                    p == q * step,
                    p == 2 * half,
                    q > 0,
            ;
        }
    }
    // The whole part of the ratio lies in the same step, where the values are
    // one step apart.
    let whole = n / d;
    let rest = n % d;
    lemma_fundamental_div_mod(n, d);
    assert(base <= whole < base + step) by (nonlinear_arith)
        requires
            n == d * whole + rest,
            0 <= rest < d,
            excess == n - base * d,
            0 <= excess < step * d,
            d > 0,
    ;
    assert(kept >= 0) by (nonlinear_arith)
        requires
            m == p * kept + dropped,
            0 <= dropped < p,
            m >= 0,
            p > 0,
    ;
    if bit_length(kept as nat) == 53 {
        lemma_bit_length_bounds(kept as nat);
        lemma_pow2_adds(52, (e + k) as nat);
        lemma_pow2_adds(53, (e + k) as nat);
        assert(pow2(52 + (e + k) as nat) <= whole < pow2(53 + (e + k) as nat)) by (nonlinear_arith)
            requires
                base <= whole < base + step,
                base == kept * step,
                pow2(52) <= kept < pow2(53),
                pow2(52 + (e + k) as nat) == pow2(52) * step,
                pow2(53 + (e + k) as nat) == pow2(53) * step,
                step > 0,
        ;
        lemma_bit_length(whole as nat, 52 + (e + k) as nat);
        assert(spacing(whole as nat) == step);
    } else {
        assert(step == 1);
        assert(whole == kept) by (nonlinear_arith)
            requires
                base <= whole < base + step,
                base == kept * step,
                step == 1,
        ;
        assert(spacing(whole as nat) == 1);
    }
    lemma_fundamental_div_mod_converse(whole, step, kept, whole - base);
    assert(whole % step == whole - base);
    assert((whole - whole % step) / step == kept) by {
        lemma_fundamental_div_mod_converse(base, step, kept, 0);
    }
    assert((whole % step) * d + rest == excess) by (nonlinear_arith)
        requires
            whole % step == whole - base,
            n == d * whole + rest,
            excess == n - base * d,
    ;
    assert((kept + 1) * step == base + step) by (nonlinear_arith)
        requires
            base == kept * step,
    ;
}

/// What is kept of a number when its last `k` binary digits are dropped lies
/// between the powers of two that the number lies between, `k` lower.
proof fn lemma_kept_bounds(m: nat, width: nat, k: nat)
    requires
        m < pow2(width),
        k <= width,
    ensures
        m / pow2(k) < pow2((width - k) as nat),
        width >= 1 && k < width && pow2((width - 1) as nat) <= m ==> pow2((width - 1 - k) as nat) <= m / pow2(k),
{
    let p = pow2(k) as int;
    let kept = m as int / p;
    let dropped = m as int % p;
    lemma_pow2_pos(k);
    lemma_fundamental_div_mod(m as int, p);
    lemma_pow2_adds((width - k) as nat, k);
    let hi = pow2((width - k) as nat) as int;
    assert(kept < hi) by (nonlinear_arith)
        requires
            m == p * kept + dropped,
            0 <= dropped < p,
            m < hi * p,
            p > 0,
    ;
    if width >= 1 && k < width && pow2((width - 1) as nat) <= m {
        lemma_pow2_adds((width - 1 - k) as nat, k);
        let lo = pow2((width - 1 - k) as nat) as int;
        assert(kept >= lo) by (nonlinear_arith)
            requires
                m == p * kept + dropped,
                0 <= dropped < p,
                lo * p <= m,
                p > 0,
        ;
    }
}

/// Rounds a ratio that lies at `m * 2^e` ticks to the nearest value and puts
/// the pattern together.
pub(crate) fn round_pack(
    minus: bool,
    m: u128,
    e: i32,
    sticky: bool,
    Ghost(num): Ghost<nat>,
    Ghost(den): Ghost<nat>,
) -> (r:
    u64)
    requires
        m < 0x1_0000_0000_0000_0000_0000_0000_0000_00,
        -1200 <= e <= 3900,
        den > 0,
        lies_at(m as nat, e as int, sticky, num, den),
        sticky ==> bit_length(m as nat) >= 55,
    ensures
        r == pattern(minus, round_ratio(num, den)),
{
    let width = digits(m);
    proof {
        lemma2_to64();
        lemma2_to64_rest();
        lemma_pow2_adds(60, 60);
        lemma_digits_at_most(m as nat, 120);
    }
    let need: u32 = if width > 53 {
        width - 53
    } else {
        0
    };
    let low: u32 = if e < 0 {
        (-e) as u32
    } else {
        0
    };
    let k: u32 = if need > low {
        need
    } else {
        low
    };
    if k == 0 {
        proof {
            assert(num == m as nat * pow2(e as nat) * den);
            lemma_round_exact(m as nat, e as nat, num, den);
            if m > 0 {
                lemma_bit_length_bounds(m as nat);
                if width < 53 {
                    lemma_pow2_strictly_increases(width as nat, 53);
                }
            }
        }
        return pack(minus, m as u64, e as u32);
    }
    if k > width {
        proof {
            let d = pow2(k as nat) as int;
            let w = pow2(width as nat) as int;
            if m > 0 {
                lemma_bit_length_bounds(m as nat);
            } else {
                assert(bit_length(0) == 0);
                lemma_pow2_pos(0);
            }
            lemma_pow2_pos(width as nat);
            lemma_pow2_adds(1, width as nat);
            if k > width + 1 {
                lemma_pow2_strictly_increases((width + 1) as nat, k as nat);
            }
            assert(2 * num < den) by (nonlinear_arith)
                requires
                    num * d < (m + 1) * den,
                    m + 1 <= w,
                    d >= 2 * w,
                    w > 0,
                    den > 0,
            ;
            lemma_round_tiny(num, den);
            assert(0nat * pow2(0) == 0) by (nonlinear_arith);
        }
        return pack(minus, 0, 0);
    }
    let p = power_of_two(k);
    proof {
        lemma_pow2_pos(k as nat);
    }
    let kept = m / p;
    let dropped = m % p;
    let half = p / 2;
    proof {
        lemma_pow2_adds(1, (k - 1) as nat);
        if m > 0 {
            lemma_bit_length_bounds(m as nat);
        } else {
            assert(bit_length(0) == 0);
            lemma_pow2_pos(0);
        }
        lemma_kept_bounds(m as nat, width as nat, k as nat);
        if k == need {
            lemma_bit_length(kept as nat, 52);
        } else {
            if width - k < 52 {
                lemma_pow2_strictly_increases((width - k) as nat, 52);
            }
            lemma_digits_at_most(kept as nat, 52);
        }
        lemma_round_drop(m as nat, e as int, k as nat, sticky, num, den);
        lemma_digits_at_most(kept as nat, 53);
    }
    let up = dropped > half || (dropped == half && (sticky || kept % 2 == 1));
    let rounded = if up {
        kept + 1
    } else {
        kept
    };
    pack(minus, rounded as u64, (e + k as i32) as u32)
}

/// Rounding is to the nearest: what a ratio is rounded to is a multiple of the
/// spacing at the ratio, and differs from the ratio by half the spacing at
/// most.
pub proof fn rounding_is_near(num: nat, den: nat)
    requires
        den > 0,
    ensures
        round_ratio(num, den) % spacing(num / den) == 0,
        2 * (round_ratio(num, den) * den - num) <= spacing(num / den) * den,
        2 * (num - round_ratio(num, den) * den) <= spacing(num / den) * den,
{
    let whole = (num / den) as int;
    let rest = (num % den) as int;
    let unit = spacing(num / den) as int;
    let d = den as int;
    lemma_fundamental_div_mod(num as int, d);
    assert(unit >= 1) by {
        if bit_length(num / den) > 53 {
            lemma_pow2_pos((bit_length(num / den) - 53) as nat);
        }
    }
    let low = whole % unit;
    let count = whole / unit;
    lemma_fundamental_div_mod(whole, unit);
    let base = whole - low;
    assert(base == unit * count);
    lemma_fundamental_div_mod_converse(base, unit, count, 0);
    assert(base + unit == unit * (count + 1)) by (nonlinear_arith)
        requires
            base == unit * count,
    ;
    lemma_fundamental_div_mod_converse(base + unit, unit, count + 1, 0);
    let over = low * d + rest;
    assert(base * d + over == num) by (nonlinear_arith)
        requires
            num == d * whole + rest,
            base == whole - low,
            over == low * d + rest,
    ;
    assert(0 <= over < unit * d) by (nonlinear_arith)
        requires
            over == low * d + rest,
            0 <= low,
            low + 1 <= unit,
            0 <= rest < d,
    ;
    assert((base + unit) * d - num == unit * d - over) by (nonlinear_arith)
        requires
            base * d + over == num,
    ;
}

/// What a ratio is rounded to is a value: a multiple of the spacing at
/// itself.
pub proof fn rounding_gives_a_value(num: nat, den: nat)
    requires
        den > 0,
    ensures
        round_ratio(num, den) % spacing(round_ratio(num, den)) == 0,
{
    lemma2_to64();
    lemma2_to64_rest();
    let whole = num / den;
    let unit = spacing(whole);
    let r = round_ratio(num, den);
    rounding_is_near(num, den);
    assert(unit >= 1) by {
        if bit_length(whole) > 53 {
            lemma_pow2_pos((bit_length(whole) - 53) as nat);
        }
    }
    assert(r == (whole - whole % unit) as nat || r == (whole - whole % unit) as nat + unit);
    lemma_fundamental_div_mod(whole as int, unit as int);
    if whole == 0 {
        assert(bit_length(0) == 0);
        assert(bit_length(1) == 1) by {
            assert(bit_length(1) == 1 + bit_length(0));
        }
        assert(r <= 1);
    } else {
        lemma_bit_length_bounds(whole);
        let width = bit_length(whole);
        let top = pow2(width);
        // What the ratio is rounded to lies in the same binade, or is the
        // power of two above it.
        assert(unit >= 1) by {
            if width > 53 {
                lemma_pow2_pos((width - 53) as nat);
            }
        }
        if width > 53 {
            lemma_pow2_adds((width - 53) as nat, 53);
            lemma_pow2_adds((width - 53) as nat, 52);
            lemma_cancel(pow2(53), (width - 53) as nat);
            lemma_cancel(pow2(52), (width - 53) as nat);
            assert(pow2(53) * unit == top) by (nonlinear_arith)
                requires
                    top == unit * pow2(53),
            ;
            assert(pow2(52) * unit == pow2((width - 1) as nat)) by (nonlinear_arith)
                requires
                    pow2((width - 1) as nat) == unit * pow2(52),
            ;
        }
        let count = whole as int / (unit as int);
        assert(whole - whole % unit == unit * count);
        assert(r <= top) by {
            if width > 53 {
                assert(count + 1 <= pow2(53)) by (nonlinear_arith)
                    requires
                        whole < pow2(53) * unit,
                        whole == unit * count + whole % unit,
                        0 <= whole % unit,
                        unit > 0,
                ;
                assert(unit * (count + 1) <= pow2(53) * unit) by (nonlinear_arith)
                    requires
                        count + 1 <= pow2(53),
                        unit > 0,
                ;
                assert(unit * count + unit == unit * (count + 1)) by (nonlinear_arith);
            }
        }
        assert(r >= pow2((width - 1) as nat)) by {
            if width > 53 {
                assert(count >= pow2(52)) by (nonlinear_arith)
                    requires
                        whole >= pow2(52) * unit,
                        whole == unit * count + whole % unit,
                        whole % unit < unit,
                        unit > 0,
                ;
                assert(unit * count >= pow2(52) * unit) by (nonlinear_arith)
                    requires
                        count >= pow2(52),
                        unit > 0,
                ;
            }
        }
        if r < top {
            lemma_bit_length(r, (width - 1) as nat);
            assert(spacing(r) == unit);
        } else {
            lemma_pow2_adds(1, width);
            lemma_bit_length(r, width);
            if width + 1 > 53 {
                let j = (width + 1 - 53) as nat;
                lemma_pow2_adds(j, (width - j) as nat);
                lemma_cancel(pow2((width - j) as nat), j);
                assert(r == pow2((width - j) as nat) * pow2(j)) by (nonlinear_arith)
                    requires
                        r == pow2(j) * pow2((width - j) as nat),
                ;
            }
        }
    }
}

} // verus!
