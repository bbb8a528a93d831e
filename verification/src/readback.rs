//! What is written of a number is read back: the decimal number that is
//! written for a finite binary64 value is rounded to that value when it is
//! read, so that reading gives the value again, bit for bit.

use vstd::prelude::*;
use vstd::arithmetic::div_mod::{lemma_fundamental_div_mod, lemma_fundamental_div_mod_converse};
use vstd::arithmetic::power2::{lemma2_to64, lemma2_to64_rest, lemma_pow2_adds, lemma_pow2_pos, pow2};
use crate::binary64::{
    bit_length, exponent, fraction, lemma_bit_length, lemma_bit_length_bounds, lemma_digits_at_most,
    negative, pattern, scale, significand, spacing, ticks, zero, HIDDEN,
};
use crate::decimal::{
    decimal_value, digit_value, exponent_of, fraction_digits, has_exponent, lemma_pow10_adds,
    lemma_pow10_bounds, literal_bits, mantissa_digits, mantissa_stop, nearest_to, pow10, shift_of,
    sign_end, ticks_above, ticks_below, whole_end,
};
use crate::error::{numeral, EvalErrorView};
use crate::eval::eval;
use crate::expr::ExprView;
use crate::grammar::{expression_at, literal_at, mantissa_end, number_at, value_of, Found, Syntax};
use crate::laws::{all_of, run_end_is_exact};
use crate::lexer::{has, member, Class};
use crate::rounding::{
    lemma_cancel, lemma_pow2_grows, lemma_round_tiny, lemma_shifted_digits, round_ratio,
};
use crate::shortest::{
    is_order, lead, left, lemma_pow10_values, needed, number_text, order_of, picked, positional,
    reads, scaled_above, scaled_below, settled, shortest, zeros,
};
use crate::show::written;
use crate::turn::{worth, FailureView};

verus! {

/// A finite value is the pattern of its sign and its ticks, and its ticks are
/// a multiple of the spacing there: less than `2^53` times the spacing, and
/// no less than `2^52` times the spacing where that is more than 1.
pub proof fn value_is_the_pattern_of_its_ticks(m: u64)
    requires
        exponent(m) < 2047,
    ensures
        pattern(negative(m), ticks(m)) == m,
        ticks(m) < pow2(2098),
        ticks(m) % spacing(ticks(m)) == 0,
        ticks(m) < pow2(53) * spacing(ticks(m)),
        spacing(ticks(m)) > 1 ==> ticks(m) >= pow2(52) * spacing(ticks(m)),
        spacing(ticks(m)) >= 1,
{
    lemma2_to64();
    lemma2_to64_rest();
    let t = ticks(m);
    let sig = significand(m);
    let e = (scale(m) - 1) as nat;
    let sign: int = if negative(m) {
        0x8000_0000_0000_0000
    } else {
        0
    };
    assert(m == sign + exponent(m) * HIDDEN + fraction(m));
    lemma_pow2_pos(e);
    if exponent(m) == 0 {
        assert(t == sig) by (nonlinear_arith)
            requires
                t == sig * pow2(0),
                pow2(0) == 1,
        ;
        lemma_digits_at_most(t, 52);
        lemma_pow2_grows(52, 2098);
        assert(t % 1 == 0);
    } else {
        lemma_digits_at_most(sig, 53);
        lemma_bit_length(sig, 52);
        lemma_shifted_digits(sig, e);
        lemma_cancel(sig, e);
        lemma_pow2_grows(53 + e, 2098);
        assert(bit_length(t) == 53 + e);
        if e == 0 {
            assert(t == sig) by (nonlinear_arith)
                requires
                    t == sig * pow2(0),
                    pow2(0) == 1,
            ;
            assert(t % 1 == 0);
        } else {
            assert(spacing(t) == pow2(e));
            assert(t < pow2(53) * pow2(e) && t >= pow2(52) * pow2(e)) by (nonlinear_arith)
                requires
                    t == sig * pow2(e),
                    pow2(52) <= sig < pow2(53),
                    pow2(e) > 0,
            ;
        }
    }
}

/// From a value up to the next one the spacing stays the same.
pub proof fn spacing_stays(t: nat, w: nat)
    requires
        t % spacing(t) == 0,
        t <= w < t + spacing(t),
    ensures
        spacing(w) == spacing(t),
{
    let g = spacing(t);
    if bit_length(t) > 53 {
        let top = (bit_length(t) - 1) as nat;
        let j = (bit_length(t) - 53) as nat;
        lemma_bit_length_bounds(t);
        lemma_pow2_adds(53, j);
        lemma_pow2_pos(j);
        lemma_fundamental_div_mod(t as int, g as int);
        let q = t / g;
        assert(t + g <= pow2(top + 1)) by (nonlinear_arith)
            requires
                t == g * q + 0,
                t < pow2(53) * g,
                pow2(top + 1) == pow2(53) * g,
                g > 0,
        ;
        lemma_bit_length(w, top);
    }
}

/// A ratio from a value on, and nearer to it than half the spacing, is
/// rounded to the value.
pub proof fn rounded_down_to(t: nat, c: nat, den: nat)
    requires
        den > 0,
        t % spacing(t) == 0,
        spacing(t) >= 1,
        t * den <= c,
        2 * (c - t * den) < spacing(t) * den,
    ensures
        round_ratio(c, den) == t,
{
    let g = spacing(t) as int;
    let whole = (c / den) as int;
    let rest = (c % den) as int;
    let d = den as int;
    lemma_fundamental_div_mod(c as int, d);
    assert(t <= whole < t + g) by (nonlinear_arith)
        requires
            c == d * whole + rest,
            0 <= rest < d,
            t * d <= c,
            2 * (c - t * d) < g * d,
            g >= 1,
    ;
    spacing_stays(t, whole as nat);
    lemma_fundamental_div_mod(t as int, g);
    let q = t as int / g;
    assert(whole == g * q + (whole - t));
    lemma_fundamental_div_mod_converse(whole, g, q, whole - t);
    assert((whole - t) * d + rest == c - t * d) by (nonlinear_arith)
        requires
            c == d * whole + rest,
    ;
}

/// A ratio below a value, and nearer to it than half the spacing below the
/// value, is rounded to the value.
pub proof fn rounded_up_to(t: nat, u: nat, c: nat, den: nat)
    requires
        den > 0,
        1 <= u <= t,
        spacing((t - u) as nat) == u,
        t % u == 0,
        c < t * den,
        2 * (t * den - c) < u * den,
    ensures
        round_ratio(c, den) == t,
{
    let below = (t - u) as nat;
    let whole = (c / den) as int;
    let rest = (c % den) as int;
    let d = den as int;
    lemma_fundamental_div_mod(c as int, d);
    assert(below <= whole < t) by (nonlinear_arith)
        requires
            c == d * whole + rest,
            0 <= rest < d,
            c < t * d,
            2 * (t * d - c) < u * d,
            below == t - u,
            u >= 1,
    ;
    lemma_fundamental_div_mod(t as int, u as int);
    let q = t as int / (u as int);
    assert(q >= 1) by (nonlinear_arith)
        requires
            t == u * q + 0,
            t >= u,
            u >= 1,
    ;
    assert(below == u * (q - 1) + 0) by (nonlinear_arith)
        requires
            t == u * q + 0,
            below == t - u,
    ;
    lemma_fundamental_div_mod_converse(below as int, u as int, q - 1, 0);
    spacing_stays(below, whole as nat);
    assert(whole == u * (q - 1) + (whole - below)) by (nonlinear_arith)
        requires
            below == u * (q - 1) + 0,
    ;
    lemma_fundamental_div_mod_converse(whole, u as int, q - 1, whole - below);
    let over = (whole - below) * d + rest;
    assert(over == c - below * d) by (nonlinear_arith)
        requires
            over == (whole - below) * d + rest,
            c == d * whole + rest,
    ;
    assert(2 * over > u * d) by (nonlinear_arith)
        requires
            over == c - below * d,
            below == t - u,
            2 * (t * d - c) < u * d,
    ;
}

/// The spacing below a value: that at the value, or half of it where the
/// value is the least of its spacing.
proof fn lemma_spacing_below(t: nat)
    requires
        t >= 1,
        t % spacing(t) == 0,
        t < pow2(53) * spacing(t),
        spacing(t) > 1 ==> t >= pow2(52) * spacing(t),
    ensures
        spacing(t) == 1 ==> spacing((t - 1) as nat) == 1,
        spacing(t) > 1 && t > pow2(52) * spacing(t) ==> spacing((t - spacing(t)) as nat) == spacing(t) && t
            >= spacing(t),
        spacing(t) > 1 && t == pow2(52) * spacing(t) ==> spacing(t) % 2 == 0 && spacing(
            (t - spacing(t) / 2) as nat,
        ) == spacing(t) / 2 && t % (spacing(t) / 2) == 0 && t >= spacing(t) / 2 >= 1,
{
    lemma2_to64();
    lemma2_to64_rest();
    let g = spacing(t);
    if g == 1 {
        assert(pow2(53) * 1 == pow2(53)) by (nonlinear_arith);
        lemma_digits_at_most((t - 1) as nat, 53);
    } else {
        let j = (bit_length(t) - 53) as nat;
        let top = (bit_length(t) - 1) as nat;
        assert(g == pow2(j));
        lemma_pow2_pos(j);
        lemma_pow2_adds(52, j);
        lemma_pow2_adds(53, j);
        lemma_bit_length_bounds(t);
        lemma_fundamental_div_mod(t as int, g as int);
        let q = t / g;
        if t > pow2(52) * g {
            let below = (t - g) as nat;
            assert(q >= pow2(52) + 1 && below >= pow2(52) * g) by (nonlinear_arith)
                requires
                    t == g * q + 0,
                    t > pow2(52) * g,
                    below == t - g,
                    g > 0,
            ;
            lemma_bit_length(below, top);
        } else {
            assert(j >= 1) by {
                if j == 0 {
                    assert(pow2(0) == 1);
                }
            }
            let i = (j - 1) as nat;
            let h = pow2(i);
            lemma_pow2_adds(1, i);
            lemma_pow2_pos(i);
            assert(g == 2 * h);
            assert(g / 2 == h && g % 2 == 0);
            let below = (t - h) as nat;
            let most: nat = 0x1F_FFFF_FFFF_FFFF;
            assert(below == most * h && t == (most + 1) * h + 0) by (nonlinear_arith)
                requires
                    t == pow2(52) * g,
                    g == 2 * h,
                    pow2(52) == 0x10_0000_0000_0000,
                    most == 0x1F_FFFF_FFFF_FFFF,
                    below == t - h,
            ;
            lemma_bit_length(most, 52);
            lemma_shifted_digits(most, i);
            lemma_fundamental_div_mod_converse(t as int, h as int, (most + 1) as int, 0);
            assert(t >= h) by (nonlinear_arith)
                requires
                    t == (most + 1) * h + 0,
                    h > 0,
                    most >= 0,
            ;
            if i == 0 {
                assert(h == 1);
            }
        }
    }
}

/// Of two ratios that have a value between them, and that are no further
/// apart than the `10^16`-th part of the value, one is rounded to the value.
pub proof fn one_of_two_is_rounded_to(t: nat, a: nat, b: nat, den: nat)
    requires
        den > 0,
        t >= 1,
        t % spacing(t) == 0,
        t < pow2(53) * spacing(t),
        spacing(t) > 1 ==> t >= pow2(52) * spacing(t),
        a <= t * den < b,
        10000000000000000 * (b - a) <= t * den,
    ensures
        round_ratio(a, den) == t || round_ratio(b, den) == t,
{
    lemma2_to64();
    lemma2_to64_rest();
    lemma_spacing_below(t);
    let g = spacing(t) as int;
    let d = den as int;
    let at = t * d;
    let step = g * d;
    assert(g >= 1) by {
        if bit_length(t) > 53 {
            lemma_pow2_pos((bit_length(t) - 53) as nat);
        }
    }
    assert(at < 0x20_0000_0000_0000 * step) by (nonlinear_arith)
        requires
            at == t * d,
            step == g * d,
            t < 0x20_0000_0000_0000 * g,
            d > 0,
    ;
    if g > 1 && t == pow2(52) * g {
        let h = g / 2;
        let half = h * d;
        assert(step == 2 * half && at == 0x20_0000_0000_0000 * half) by (nonlinear_arith)
            requires
                step == g * d,
                half == h * d,
                g == 2 * h,
                at == t * d,
                t == 0x10_0000_0000_0000 * g,
        ;
        if 2 * (at - a) < half {
            if a == at {
                rounded_down_to(t, a, den);
            } else {
                rounded_up_to(t, h as nat, a, den);
            }
        } else {
            rounded_down_to(t, b, den);
        }
    } else {
        if 2 * (at - a) < step {
            if a == at {
                rounded_down_to(t, a, den);
            } else {
                rounded_up_to(t, g as nat, a, den);
            }
        } else {
            rounded_down_to(t, b, den);
        }
    }
}

/// Only the ratio counts: with the numerator and the denominator multiplied
/// by the same number, a ratio is rounded as before.
pub proof fn ratio_is_what_counts(num: nat, den: nat, c: nat)
    requires
        den > 0,
        c > 0,
    ensures
        round_ratio(c * num, c * den) == round_ratio(num, den),
{
    let whole = (num / den) as int;
    let rest = (num % den) as int;
    let d = den as int;
    let f = c as int;
    lemma_fundamental_div_mod(num as int, d);
    assert(f * num == (f * d) * whole + f * rest && 0 <= f * rest < f * d) by (nonlinear_arith)
        requires
            num == d * whole + rest,
            0 <= rest < d,
            f > 0,
    ;
    lemma_fundamental_div_mod_converse(f * num, f * d, whole, f * rest);
    let unit = spacing(whole as nat) as int;
    let low = whole % unit;
    let over = low * d + rest;
    assert(low * (f * d) + f * rest == f * over && unit * (f * d) == f * (unit * d)) by (nonlinear_arith)
        requires
            over == low * d + rest,
    ;
    let wide = unit * d;
    assert((2 * (f * over) < f * wide <==> 2 * over < wide) && (2 * (f * over) == f * wide <==> 2 * over
        == wide)) by (nonlinear_arith)
        requires
            f > 0,
    ;
}

/// A number that is not 0 is below the power of 10 that it names.
proof fn lemma_pow10_exceeds(n: nat)
    ensures
        n < pow10(n),
    decreases n,
{
    if n > 0 {
        lemma_pow10_exceeds((n - 1) as nat);
    }
}

/// From a power of 10 that a number of ticks reaches, there is an order.
proof fn lemma_order_above(t: nat, k: nat)
    requires
        pow10(k) * pow2(1074) <= t,
    ensures
        exists|order: int| is_order(t, order),
    decreases t - k,
{
    let unit = pow2(1074) as int;
    lemma_pow2_pos(1074);
    lemma_pow10_exceeds(k);
    assert(k < t) by (nonlinear_arith)
        requires
            pow10(k) * unit <= t,
            k < pow10(k),
            unit > 0,
    ;
    if t < 10 * (pow10(k) * pow2(1074)) {
        assert(is_order(t, k as int));
    } else {
        assert(pow10(k + 1) * unit == 10 * (pow10(k) * unit)) by (nonlinear_arith)
            requires
                pow10(k + 1) == 10 * pow10(k),
        ;
        lemma_order_above(t, k + 1);
    }
}

/// From a power of 10 that does not bring a number of ticks to one whole,
/// there is an order.
proof fn lemma_order_below(t: nat, j: nat)
    requires
        t >= 1,
        t * pow10(j) < pow2(1074),
    ensures
        exists|order: int| is_order(t, order),
    decreases pow2(1074) - t * pow10(j),
{
    let unit = pow2(1074) as int;
    let next = t * pow10(j + 1);
    lemma_pow10_bounds(j);
    assert(next == 10 * (t * pow10(j)) && next > t * pow10(j)) by (nonlinear_arith)
        requires
            next == t * pow10(j + 1),
            pow10(j + 1) == 10 * pow10(j),
            t >= 1,
            pow10(j) > 0,
    ;
    if next >= unit {
        assert(is_order(t, -(j + 1)));
    } else {
        lemma_order_below(t, j + 1);
    }
}

/// Every number of ticks but 0 has its order.
pub proof fn every_number_has_its_order(t: nat)
    requires
        t >= 1,
    ensures
        is_order(t, order_of(t)),
{
    assert(pow10(0) == 1);
    if t >= pow2(1074) {
        assert(pow10(0) * pow2(1074) == pow2(1074)) by (nonlinear_arith)
            requires
                pow10(0) == 1,
        ;
        lemma_order_above(t, 0);
    } else {
        assert(t * pow10(0) == t) by (nonlinear_arith)
            requires
                pow10(0) == 1,
        ;
        lemma_order_below(t, 0);
    }
}

/// The first 17 digits of a value, or these with 1 added in the last place,
/// are read as the value.
pub proof fn seventeen_digits_are_enough(m: u64)
    requires
        exponent(m) < 2047,
        ticks(m) > 0,
    ensures
        settled(
            m,
            scaled_above(ticks(m), order_of(ticks(m))),
            scaled_below(order_of(ticks(m))),
            order_of(ticks(m)),
            17,
        ),
{
    let t = ticks(m);
    let k = order_of(t);
    let r = scaled_above(t, k);
    let s = scaled_below(k);
    let x = k - 16;
    let unit = pow2(1074);
    let p = pow10(16);
    let digits = lead(r, s, 17);
    let rest = left(r, s, 17);
    let den = ticks_below(x);
    let a = ticks_above(digits, x);
    let b = ticks_above(digits + 1, x);
    every_number_has_its_order(t);
    value_is_the_pattern_of_its_ticks(m);
    lemma_pow10_values();
    lemma_pow2_pos(1074);
    lemma2_to64();
    lemma2_to64_rest();
    assert(s > 0 && s <= r) by {
        if k >= 0 {
            lemma_pow10_bounds(k as nat);
            assert(pow10(k as nat) * unit > 0) by (nonlinear_arith)
                requires
                    pow10(k as nat) > 0,
                    unit > 0,
            ;
        }
    }
    lemma_fundamental_div_mod((r * p) as int, s as int);
    assert(r * p == s * digits + rest && 0 <= rest < s);
    assert(digits >= p) by (nonlinear_arith)
        requires
            r * p == s * digits + rest,
            rest < s,
            s <= r,
            s > 0,
            p > 0,
    ;
    if k >= 16 {
        let y = pow10(x as nat) * unit;
        lemma_pow10_adds(16, x as nat);
        assert(s == p * y) by (nonlinear_arith)
            requires
                s == pow10(k as nat) * unit,
                pow10(k as nat) == p * pow10(x as nat),
                y == pow10(x as nat) * unit,
        ;
        assert(a == digits * y && b == digits * y + y) by (nonlinear_arith)
            requires
                a == digits * pow10(x as nat) * unit,
                b == (digits + 1) * pow10(x as nat) * unit,
                y == pow10(x as nat) * unit,
        ;
        assert(a <= t * 1 < b && p * (b - a) <= t * 1) by (nonlinear_arith)
            requires
                t * p == (p * y) * digits + rest,
                0 <= rest < p * y,
                a == digits * y,
                b == digits * y + y,
                digits >= p,
                p > 0,
                y >= 0,
        ;
    } else if k >= 0 {
        let q = pow10(k as nat);
        lemma_pow10_adds(k as nat, (16 - k) as nat);
        lemma_pow10_bounds(k as nat);
        assert(a <= t * den < b && p * (b - a) <= t * den) by (nonlinear_arith)
            requires
                t * p == (q * unit) * digits + rest,
                0 <= rest < q * unit,
                p == q * den,
                a == digits * unit,
                b == (digits + 1) * unit,
                digits >= p,
                q > 0,
                unit > 0,
        ;
    } else {
        let q = pow10((-k) as nat);
        lemma_pow10_adds(16, (-k) as nat);
        assert(a <= t * den < b && p * (b - a) <= t * den) by (nonlinear_arith)
            requires
                (t * q) * p == unit * digits + rest,
                0 <= rest < unit,
                den == p * q,
                a == digits * unit,
                b == (digits + 1) * unit,
                digits >= p,
                unit > 0,
        ;
    }
    lemma_pow10_bounds((-x) as nat);
    one_of_two_is_rounded_to(t, a, b, den);
}

/// The least number of digits that is enough is one that is enough.
proof fn lemma_needed_is_settled(m: u64, r: nat, s: nat, k: int, n: nat)
    requires
        1 <= n <= 17,
        settled(m, r, s, k, 17),
    ensures
        n <= needed(m, r, s, k, n) <= 17,
        settled(m, r, s, k, needed(m, r, s, k, n)),
    decreases 17 - n,
{
    if n < 17 && !settled(m, r, s, k, n) {
        lemma_needed_is_settled(m, r, s, k, n + 1);
    }
}

/// A power of 10 times a power of 10 is read as 1 times the power of 10 that
/// both make.
proof fn lemma_carried(minus: bool, n: nat, x: int)
    ensures
        nearest_to(minus, pow10(n), x) == nearest_to(minus, 1, x + n),
{
    let unit = pow2(1074);
    lemma_pow10_bounds(n);
    if x >= 0 {
        lemma_pow10_adds(n, x as nat);
        assert(1 * pow10((x + n) as nat) * unit == pow10(n) * pow10(x as nat) * unit) by (nonlinear_arith)
            requires
                pow10((x + n) as nat) == pow10(n) * pow10(x as nat),
        ;
    } else if x + n >= 0 {
        let c = pow10((-x) as nat);
        let num = 1 * pow10((x + n) as nat) * unit;
        lemma_pow10_adds((x + n) as nat, (-x) as nat);
        lemma_pow10_bounds((-x) as nat);
        assert(pow10(n) * unit == c * num && c == c * 1) by (nonlinear_arith)
            requires
                pow10(n) == pow10((x + n) as nat) * c,
                num == 1 * pow10((x + n) as nat) * unit,
        ;
        ratio_is_what_counts(num, 1, c);
    } else {
        let c = pow10(n);
        let den = pow10((-x - n) as nat);
        lemma_pow10_adds(n, (-x - n) as nat);
        lemma_pow10_bounds((-x - n) as nat);
        assert(pow10(n) * unit == c * (1 * unit)) by (nonlinear_arith)
            requires
                c == pow10(n),
        ;
        ratio_is_what_counts(1 * unit, den, c);
    }
}

/// The shortest decimal number of a finite value other than zero is read as
/// that value.
pub proof fn shortest_is_read(m: u64)
    requires
        exponent(m) < 2047,
        ticks(m) > 0,
    ensures
        reads(m, shortest(m).0, shortest(m).1),
        shortest(m).0 > 0,
{
    let t = ticks(m);
    let k = order_of(t);
    let r = scaled_above(t, k);
    let s = scaled_below(k);
    seventeen_digits_are_enough(m);
    lemma_needed_is_settled(m, r, s, k, 1);
    let n = needed(m, r, s, k, 1);
    let d = picked(m, r, s, k, n);
    let x = k - n + 1;
    assert(reads(m, d, x));
    lemma_pow10_bounds(n);
    if d == pow10(n) {
        lemma_carried(negative(m), n, x);
    } else {
        every_number_has_its_order(t);
        lemma_pow2_pos(1074);
        lemma_pow10_bounds((n - 1) as nat);
        if k >= 0 {
            lemma_pow10_bounds(k as nat);
            assert(pow10(k as nat) * pow2(1074) > 0) by (nonlinear_arith)
                requires
                    pow10(k as nat) > 0,
                    pow2(1074) > 0,
            ;
        }
        let power = pow10((n - 1) as nat);
        lemma_fundamental_div_mod((r * power) as int, s as int);
        assert(lead(r, s, n) >= 1) by (nonlinear_arith)
            requires
                r * power == s * lead(r, s, n) + left(r, s, n),
                left(r, s, n) < s,
                s <= r,
                s > 0,
                power >= 1,
        ;
    }
}

/// The numeral of a number is made of digits, and writes the number.
pub proof fn numeral_writes_its_number(n: nat)
    ensures
        numeral(n).len() >= 1,
        all_of(numeral(n), Class::Digit),
        decimal_value(numeral(n)) == n,
    decreases n,
{
    let text = numeral(n);
    if n < 10 {
        assert(text.drop_last() =~= Seq::<char>::empty());
        assert(decimal_value(text.drop_last()) == 0);
        assert(digit_value(text.last()) == n);
    } else {
        numeral_writes_its_number(n / 10);
        assert(text.drop_last() =~= numeral(n / 10));
        assert(digit_value(text.last()) == n % 10);
        assert forall|i: int| 0 <= i < text.len() implies member(Class::Digit, #[trigger] text[i]) by {
            if i < text.len() - 1 {
                assert(text[i] == numeral(n / 10)[i]);
            }
        }
    }
}

/// Two texts of digits, one behind the other, write the number of the first,
/// times the power of 10 that the length of the second names, plus the
/// number of the second.
pub proof fn joined_digits(first: Seq<char>, second: Seq<char>)
    ensures
        decimal_value(first + second) == decimal_value(first) * pow10(second.len()) + decimal_value(
            second,
        ),
    decreases second.len(),
{
    if second.len() == 0 {
        assert(first + second =~= first);
        assert(decimal_value(first) * pow10(0) == decimal_value(first)) by (nonlinear_arith)
            requires
                pow10(0) == 1,
        ;
    } else {
        let both = first + second;
        assert(both.drop_last() =~= first + second.drop_last());
        assert(both.last() == second.last());
        joined_digits(first, second.drop_last());
        let a = decimal_value(first) as int;
        let b = decimal_value(second.drop_last()) as int;
        let p = pow10(second.drop_last().len()) as int;
        assert(10 * (a * p + b) == a * (10 * p) + 10 * b) by (nonlinear_arith);
    }
}

/// A run of zeros is made of digits and writes 0.
pub proof fn zeros_write_nothing(n: nat)
    ensures
        all_of(zeros(n), Class::Digit),
        decimal_value(zeros(n)) == 0,
    decreases n,
{
    if n > 0 {
        zeros_write_nothing((n - 1) as nat);
        assert(zeros(n).drop_last() =~= zeros((n - 1) as nat));
    }
}

/// A literal without an exponent: a minus sign or none, digits, and then a
/// point with digits behind it or nothing.
pub open spec fn plain(minus: bool, whole: Seq<char>, behind: Seq<char>) -> Seq<char> {
    let sign = if minus {
        seq!['-']
    } else {
        Seq::empty()
    };
    if behind.len() > 0 {
        sign + whole + seq!['.'] + behind
    } else {
        sign + whole
    }
}

/// A literal without an exponent is a whole literal, and is read as its
/// digits say.
pub proof fn plain_literal_is_read(minus: bool, whole: Seq<char>, behind: Seq<char>)
    requires
        whole.len() > 0,
        all_of(whole, Class::Digit),
        all_of(behind, Class::Digit),
    ensures
        literal_at(plain(minus, whole, behind), 0) == Found::Present(
            plain(minus, whole, behind),
            plain(minus, whole, behind).len() as int,
        ),
        literal_bits(plain(minus, whole, behind)) == nearest_to(
            minus,
            decimal_value(whole + behind),
            -(behind.len() as int),
        ),
{
    let text = plain(minus, whole, behind);
    let start: int = if minus {
        1
    } else {
        0
    };
    let point = start + whole.len();
    let end = text.len() as int;
    assert(text[start] == whole[0]);
    assert(member(Class::Digit, whole[0]));
    assert(sign_end(text, 0) == start);
    assert(has(text, 0, '-') == minus);
    assert forall|i: int| start <= i < point implies member(Class::Digit, #[trigger] text[i]) by {
        assert(text[i] == whole[i - start]);
    }
    if behind.len() > 0 {
        assert(text[point] == '.');
        assert forall|i: int| point + 1 <= i < end implies member(Class::Digit, #[trigger] text[i]) by {
            assert(text[i] == behind[i - point - 1]);
        }
        run_end_is_exact(text, point + 1, end, Class::Digit);
        assert(text.subrange(point + 1, end) =~= behind);
    }
    run_end_is_exact(text, start, point, Class::Digit);
    assert(whole_end(text) == point);
    assert(mantissa_stop(text) == end);
    assert(mantissa_end(text, start) == Some(end));
    assert(text.subrange(0, end) =~= text);
    assert(text.subrange(start, point) =~= whole);
    assert(fraction_digits(text) =~= behind);
    assert(mantissa_digits(text) =~= whole + behind);
    assert(!has_exponent(text));
    assert(exponent_of(text) == 0);
    assert(shift_of(text) == -(behind.len() as int));
}

/// The sign of a number in writing.
pub open spec fn sign_text(minus: bool) -> Seq<char> {
    if minus {
        seq!['-']
    } else {
        Seq::empty()
    }
}

/// Whether a text is a whole literal that is read as `d * 10^x` with the
/// given sign.
pub open spec fn writes(text: Seq<char>, minus: bool, d: nat, x: int) -> bool {
    &&& literal_at(text, 0) == Found::Present(text, text.len() as int)
    &&& literal_bits(text) == nearest_to(minus, d, x)
}

/// A number with zeros behind its digits is read as the number that was
/// written.
proof fn lemma_zeros_behind(minus: bool, d: nat, x: nat)
    ensures
        writes(plain(minus, numeral(d) + zeros(x), Seq::empty()), minus, d, x as int),
{
    let digits = numeral(d);
    let whole = digits + zeros(x);
    let none = Seq::<char>::empty();
    numeral_writes_its_number(d);
    zeros_write_nothing(x);
    joined_digits(digits, zeros(x));
    assert(whole + none =~= whole);
    assert forall|i: int| 0 <= i < whole.len() implies member(Class::Digit, #[trigger] whole[i]) by {
        if i < digits.len() {
            assert(whole[i] == digits[i]);
        } else {
            assert(whole[i] == zeros(x)[i - digits.len()]);
        }
    }
    plain_literal_is_read(minus, whole, none);
    let unit = pow2(1074);
    assert(decimal_value(whole) * pow10(0) * unit == d * pow10(x) * unit) by (nonlinear_arith)
        requires
            decimal_value(whole) == d * pow10(x) + 0,
            pow10(0) == 1,
    ;
}

/// A number with a point among its digits is read as the number that was
/// written.
proof fn lemma_point_among(minus: bool, d: nat, x: int)
    requires
        x < 0,
        numeral(d).len() > -x,
    ensures
        writes(
            plain(
                minus,
                numeral(d).subrange(0, numeral(d).len() + x),
                numeral(d).subrange(numeral(d).len() + x, numeral(d).len() as int),
            ),
            minus,
            d,
            x,
        ),
{
    let digits = numeral(d);
    let cut = digits.len() + x;
    let whole = digits.subrange(0, cut);
    let behind = digits.subrange(cut, digits.len() as int);
    numeral_writes_its_number(d);
    assert(whole + behind =~= digits);
    assert forall|i: int| 0 <= i < whole.len() implies member(Class::Digit, #[trigger] whole[i]) by {
        assert(whole[i] == digits[i]);
    }
    assert forall|i: int| 0 <= i < behind.len() implies member(Class::Digit, #[trigger] behind[i]) by {
        assert(behind[i] == digits[i + cut]);
    }
    plain_literal_is_read(minus, whole, behind);
}

/// A number with a zero and a point before its digits is read as the number
/// that was written.
proof fn lemma_point_before(minus: bool, d: nat, x: int)
    requires
        x < 0,
        numeral(d).len() <= -x,
    ensures
        writes(
            plain(minus, seq!['0'], zeros((-x - numeral(d).len()) as nat) + numeral(d)),
            minus,
            d,
            x,
        ),
{
    let digits = numeral(d);
    let whole = seq!['0'];
    let run = zeros((-x - digits.len()) as nat);
    let behind = run + digits;
    let none = Seq::<char>::empty();
    numeral_writes_its_number(d);
    zeros_write_nothing((-x - digits.len()) as nat);
    joined_digits(run, digits);
    joined_digits(whole, behind);
    assert(whole.drop_last() =~= none);
    assert(decimal_value(whole.drop_last()) == 0);
    assert(decimal_value(whole) == 0);
    assert(decimal_value(whole + behind) == d) by (nonlinear_arith)
        requires
            decimal_value(whole + behind) == decimal_value(whole) * pow10(behind.len()) + decimal_value(
                behind,
            ),
            decimal_value(behind) == decimal_value(run) * pow10(digits.len()) + decimal_value(digits),
            decimal_value(whole) == 0,
            decimal_value(run) == 0,
            decimal_value(digits) == d,
    ;
    assert forall|i: int| 0 <= i < behind.len() implies member(Class::Digit, #[trigger] behind[i]) by {
        if i < run.len() {
            assert(behind[i] == run[i]);
        } else {
            assert(behind[i] == digits[i - run.len()]);
        }
    }
    plain_literal_is_read(minus, whole, behind);
}

/// A number in positional notation behind its sign, as a literal without an
/// exponent.
pub open spec fn shape(minus: bool, d: nat, x: int) -> Seq<char> {
    let digits = numeral(d);
    if x >= 0 {
        plain(minus, digits + zeros(x as nat), Seq::empty())
    } else if digits.len() > -x {
        plain(
            minus,
            digits.subrange(0, digits.len() + x),
            digits.subrange(digits.len() + x, digits.len() as int),
        )
    } else {
        plain(minus, seq!['0'], zeros((-x - digits.len()) as nat) + digits)
    }
}

/// A number in positional notation is a literal without an exponent.
proof fn lemma_shape(minus: bool, d: nat, x: int)
    ensures
        sign_text(minus) + positional(d, x) == shape(minus, d, x),
{
    numeral_writes_its_number(d);
    assert(sign_text(minus) + positional(d, x) =~= shape(minus, d, x));
}

/// A number in positional notation is a whole literal, and is read as the
/// number that was written.
pub proof fn positional_is_read(minus: bool, d: nat, x: int)
    ensures
        writes(sign_text(minus) + positional(d, x), minus, d, x),
{
    lemma_shape(minus, d, x);
    if x >= 0 {
        lemma_zeros_behind(minus, d, x as nat);
    } else if numeral(d).len() > -x {
        lemma_point_among(minus, d, x);
    } else {
        lemma_point_before(minus, d, x);
    }
}

/// What is written of a finite value is a whole literal, and is read back as
/// that value, bit for bit.
pub proof fn written_number_is_read_back(m: u64)
    requires
        exponent(m) < 2047,
    ensures
        literal_at(number_text(m), 0) == Found::Present(number_text(m), number_text(m).len() as int),
        literal_bits(number_text(m)) == m,
{
    let minus = negative(m);
    if zero(m) {
        let whole = seq!['0'];
        let none = Seq::<char>::empty();
        assert(number_text(m) =~= plain(minus, whole, none));
        plain_literal_is_read(minus, whole, none);
        assert(whole + none =~= whole);
        assert(whole.drop_last() =~= none);
        assert(decimal_value(whole.drop_last()) == 0);
        assert(decimal_value(whole) == 0);
        assert(pow10(0) == 1);
        assert(0 * pow10(0) * pow2(1074) == 0) by (nonlinear_arith);
        lemma_round_tiny(0, 1);
        value_is_the_pattern_of_its_ticks(m);
        assert(ticks(m) == 0) by (nonlinear_arith)
            requires
                ticks(m) == significand(m) * pow2((scale(m) - 1) as nat),
                significand(m) == 0,
        ;
    } else {
        lemma_pow2_pos((scale(m) - 1) as nat);
        assert(ticks(m) > 0) by (nonlinear_arith)
            requires
                ticks(m) == significand(m) * pow2((scale(m) - 1) as nat),
                significand(m) > 0,
                pow2((scale(m) - 1) as nat) > 0,
        ;
        shortest_is_read(m);
        positional_is_read(minus, shortest(m).0, shortest(m).1);
        assert(number_text(m) =~= sign_text(minus) + positional(shortest(m).0, shortest(m).1));
    }
}

/// A whole literal is read as a number, and is worth the value of the
/// literal.
pub proof fn literal_is_worth_its_value(text: Seq<char>)
    requires
        literal_at(text, 0) == Found::Present(text, text.len() as int),
    ensures
        expression_at(text, 0) == Found::Present(Syntax::Number(text), text.len() as int),
        value_of(Syntax::Number(text)) == ExprView::Float(literal_bits(text)),
        worth(text) == Ok::<ExprView, FailureView>(ExprView::Float(literal_bits(text))),
{
    let found = Found::Present(Syntax::Number(text), text.len() as int);
    assert(number_at(text, 0) == found);
    assert(expression_at(text, 0) == found);
    let value = value_of(Syntax::Number(text));
    assert(value == ExprView::Float(literal_bits(text)));
    assert(eval(value) == Ok::<ExprView, EvalErrorView>(value));
}

/// A number as an expression is written as the number is.
proof fn lemma_written_number(m: u64)
    ensures
        written(ExprView::Float(m)) == number_text(m),
{
}

/// A finite number that was written is read as a number and is worth itself:
/// the answer to a line can be put to the interpreter again, and comes back
/// bit for bit.
pub proof fn written_number_is_worth_itself(m: u64)
    requires
        exponent(m) < 2047,
    ensures
        worth(written(ExprView::Float(m))) == Ok::<ExprView, FailureView>(ExprView::Float(m)),
{
    let text = number_text(m);
    written_number_is_read_back(m);
    literal_is_worth_its_value(text);
    lemma_written_number(m);
}

} // verus!
