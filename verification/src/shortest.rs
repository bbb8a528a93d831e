//! Binary64 values in decimal: as few of the first digits of a value as are
//! read back as the value, as they are or with 1 added in the last place, and
//! these in positional notation.

use vstd::prelude::*;
use vstd::arithmetic::power2::{lemma2_to64, lemma2_to64_rest, lemma_pow2_adds, lemma_pow2_pos, pow2};
use vstd::arithmetic::div_mod::lemma_fundamental_div_mod_converse;
use crate::decimal::{lemma_pow10_bounds, nearest_to, nearest_value, pow10, times_power_of_two};
use crate::binary64::{
    exponent, fields, infinite, nan, negative, parts, scale, significand, ticks, zero, NEGATIVE_ZERO,
};
use crate::error::{decimal, numeral};
use crate::natural::Natural;
use crate::rounding::lemma_pow2_grows;

verus! {

/// Whether `10^k` is the order of a number of ticks: the number is no less
/// than `10^k` and less than `10^(k + 1)`.
pub open spec fn is_order(t: nat, k: int) -> bool {
    if k >= 0 {
        pow10(k as nat) * pow2(1074) <= t < 10 * (pow10(k as nat) * pow2(1074))
    } else {
        pow2(1074) <= t * pow10((-k) as nat) < 10 * pow2(1074)
    }
}

/// The order of a number of ticks that is not 0.
pub open spec fn order_of(t: nat) -> int {
    choose|k: int| is_order(t, k)
}

/// The number of ticks, brought to its order: the numerator of a ratio from 1
/// on and below 10.
pub open spec fn scaled_above(t: nat, k: int) -> nat {
    if k >= 0 {
        t
    } else {
        t * pow10((-k) as nat)
    }
}

/// The number of ticks, brought to its order: the denominator.
pub open spec fn scaled_below(k: int) -> nat {
    if k >= 0 {
        pow10(k as nat) * pow2(1074)
    } else {
        pow2(1074)
    }
}

/// A power of 10 with a greater exponent is greater.
pub proof fn lemma_pow10_increases(a: nat, b: nat)
    requires
        a < b,
    ensures
        pow10(a) < pow10(b),
        pow10(a) * 10 <= pow10(b),
    decreases b - a,
{
    lemma_pow10_bounds(a);
    if a + 1 < b {
        lemma_pow10_increases(a + 1, b);
    }
}

/// A number has one order at most.
pub proof fn lemma_one_order(t: nat, a: int, b: int)
    requires
        is_order(t, a),
        is_order(t, b),
    ensures
        a == b,
{
    lemma_order_not_below(t, a, b);
    lemma_order_not_below(t, b, a);
}

/// A number that has an order does not have a higher one.
proof fn lemma_order_not_below(t: nat, a: int, b: int)
    requires
        is_order(t, a),
        is_order(t, b),
    ensures
        a >= b,
{
    let unit = pow2(1074) as int;
    lemma_pow2_pos(1074);
    if a >= b {
    } else if a >= 0 {
        lemma_pow10_increases(a as nat, b as nat);
        let pa = pow10(a as nat) as int;
        let pb = pow10(b as nat) as int;
        assert(10 * (pa * unit) <= pb * unit) by (nonlinear_arith)
            requires
                pa * 10 <= pb,
                unit > 0,
        ;
    } else if b < 0 {
        lemma_pow10_increases((-b) as nat, (-a) as nat);
        let pa = pow10((-a) as nat) as int;
        let pb = pow10((-b) as nat) as int;
        assert(t * pa >= (t * pb) * 10) by (nonlinear_arith)
            requires
                pb * 10 <= pa,
                t >= 0,
        ;
    } else {
        let pa = pow10((-a) as nat) as int;
        let pb = pow10(b as nat) as int;
        lemma_pow10_bounds((-a) as nat);
        lemma_pow10_bounds(b as nat);
        lemma_pow10_increases(0, (-a) as nat);
        assert(pow10(0) == 1);
        assert(t * pa >= 10 * unit) by (nonlinear_arith)
            requires
                t >= pb * unit,
                pb >= 1,
                pa >= 10,
                unit > 0,
        ;
    }
}

/// Brings a number of ticks to its order: gives the numerator and the
/// denominator of a ratio from 1 on and below 10, and the order.
fn normalize(t: &Natural) -> (r: (Natural, Natural, i32))
    requires
        0 < t@ < pow2(2098),
    ensures
        is_order(t@, r.2 as int),
        r.0@ == scaled_above(t@, r.2 as int),
        r.1@ == scaled_below(r.2 as int),
        0 < r.1@ <= r.0@ < 10 * r.1@,
        -400 <= r.2 <= 400,
{
    let one = Natural::one();
    proof {
        assert(1 * pow2(1074) == pow2(1074)) by (nonlinear_arith);
        lemma_pow2_pos(1074);
    }
    let den = times_power_of_two(&one, 1074);
    match t.minus(&den) {
        Some(_) => {
            let mut s = den;
            let mut k: i32 = 0;
            proof {
                assert(pow10(0) * pow2(1074) == pow2(1074)) by (nonlinear_arith)
                    requires
                        pow10(0) == 1,
                ;
            }
            loop
                invariant_except_break
                    0 <= k <= 342,
                    s@ == pow10(k as nat) * pow2(1074),
                    s@ <= t@ < pow2(2098),
                ensures
                    0 <= k <= 342,
                    s@ == pow10(k as nat) * pow2(1074),
                    s@ <= t@ < 10 * s@,
                decreases 343 - k,
            {
                let next = s.times_plus(10, 0);
                match t.minus(&next) {
                    None => {
                        break ;
                    },
                    Some(_) => {
                        proof {
                            let p = pow10((k + 1) as nat);
                            assert(next@ == p * pow2(1074)) by (nonlinear_arith)
                                requires
                                    next@ == s@ * 10 + 0,
                                    s@ == pow10(k as nat) * pow2(1074),
                                    p == 10 * pow10(k as nat),
                            ;
                            lemma_pow10_bounds((k + 1) as nat);
                            lemma_pow2_adds((3 * (k + 1)) as nat, 1074);
                            lemma_pow2_pos(1074);
                            assert(pow2((3 * (k + 1) + 1074) as nat) <= next@) by (nonlinear_arith)
                                requires
                                    next@ == p * pow2(1074),
                                    p >= pow2((3 * (k + 1)) as nat),
                                    pow2((3 * (k + 1) + 1074) as nat) == pow2((3 * (k + 1)) as nat) * pow2(
                                        1074,
                                    ),
                                    pow2(1074) > 0,
                            ;
                            if 3 * (k + 1) + 1074 >= 2098 {
                                lemma_pow2_grows(2098, (3 * (k + 1) + 1074) as nat);
                            }
                        }
                        s = next;
                        k = k + 1;
                    },
                }
            }
            (t.times_plus(1, 0), s, k)
        },
        None => {
            let mut r = t.times_plus(1, 0);
            let mut j: i32 = 0;
            proof {
                assert(t@ * 1 + 0 == t@ * pow10(0)) by (nonlinear_arith)
                    requires
                        pow10(0) == 1,
                ;
            }
            loop
                invariant_except_break
                    0 <= j <= 358,
                    r@ == t@ * pow10(j as nat),
                    r@ < den@,
                    den@ == pow2(1074),
                    t@ >= 1,
                ensures
                    1 <= j <= 359,
                    r@ == t@ * pow10(j as nat),
                    den@ <= r@ < 10 * den@,
                    den@ == pow2(1074),
                decreases 359 - j,
            {
                proof {
                    lemma_pow10_bounds(j as nat);
                    let p = pow10(j as nat);
                    assert(p <= r@) by (nonlinear_arith)
                        requires
                            r@ == t@ * p,
                            t@ >= 1,
                            p >= 0,
                    ;
                    if 3 * j >= 1074 {
                        lemma_pow2_grows(1074, (3 * j) as nat);
                    }
                    assert(t@ * pow10(j as nat) * 10 + 0 == t@ * pow10((j + 1) as nat)) by (nonlinear_arith)
                        requires
                            pow10((j + 1) as nat) == 10 * pow10(j as nat),
                    ;
                }
                r = r.times_plus(10, 0);
                j = j + 1;
                match r.minus(&den) {
                    Some(_) => {
                        break ;
                    },
                    None => {},
                }
            }
            (r, den, -j)
        },
    }
}

/// The first digit of a ratio below 10, and what is left of the numerator.
fn leading_digit(numerator: Natural, s: &Natural) -> (r: (u32, Natural))
    requires
        numerator@ < 10 * s@,
    ensures
        numerator@ == r.0 * s@ + r.1@,
        r.1@ < s@,
        r.0 <= 9,
{
    let ghost whole = numerator@;
    let mut d: u32 = 0;
    let mut rest = numerator;
    proof {
        assert(0 * s@ + rest@ == rest@) by (nonlinear_arith);
    }
    loop
        invariant_except_break
            d <= 9,
            whole == d * s@ + rest@,
            whole < 10 * s@,
        ensures
            d <= 9,
            whole == d * s@ + rest@,
            rest@ < s@,
        decreases 10 - d,
    {
        match rest.minus(s) {
            None => {
                break ;
            },
            Some(less) => {
                proof {
                    assert(whole == (d + 1) * s@ + less@) by (nonlinear_arith)
                        requires
                            whole == d * s@ + rest@,
                            less@ == rest@ - s@,
                    ;
                    assert(d + 1 <= 9) by (nonlinear_arith)
                        requires
                            whole == (d + 1) * s@ + less@,
                            whole < 10 * s@,
                            less@ >= 0,
                            d >= 0,
                    ;
                }
                rest = less;
                d = d + 1;
            },
        }
    }
    (d, rest)
}

/// The first `n` digits of a ratio from 1 on and below 10, as a number.
pub open spec fn lead(r: nat, s: nat, n: nat) -> nat {
    (r * pow10((n - 1) as nat)) / s
}

/// What the first `n` digits leave of the numerator.
pub open spec fn left(r: nat, s: nat, n: nat) -> nat {
    (r * pow10((n - 1) as nat)) % s
}

/// Whether `d * 10^x`, with the sign of `m`, is read as the value `m`.
pub open spec fn reads(m: u64, d: nat, x: int) -> bool {
    nearest_to(negative(m), d, x) == m
}

/// Whether `n` digits are enough for the value `m`: the first `n` digits of
/// it, as they are or with 1 added in the last place, are read as `m`.
pub open spec fn settled(m: u64, r: nat, s: nat, k: int, n: nat) -> bool {
    reads(m, lead(r, s, n), k - n + 1) || reads(m, lead(r, s, n) + 1, k - n + 1)
}

/// The least number of digits from `n` on that is enough, or 17.
pub open spec fn needed(m: u64, r: nat, s: nat, k: int, n: nat) -> nat
    decreases 17 - n,
{
    if n >= 17 || settled(m, r, s, k, n) {
        n
    } else {
        needed(m, r, s, k, n + 1)
    }
}

/// Of the first `n` digits as they are and with 1 added in the last place,
/// the one that is read as the value; of both the nearer, and the greater
/// where they are equally near.
pub open spec fn picked(m: u64, r: nat, s: nat, k: int, n: nat) -> nat {
    let low = lead(r, s, n);
    let x = k - n + 1;
    let nearer_low = 2 * left(r, s, n) < s;
    if reads(m, low, x) && (nearer_low || !reads(m, low + 1, x)) {
        low
    } else if reads(m, low + 1, x) {
        low + 1
    } else {
        low
    }
}

/// The shortest decimal number that is read as a finite value other than
/// zero: its digits, as a number, and the power of 10 that they are to be
/// multiplied by. The sign is left out.
pub open spec fn shortest(m: u64) -> (nat, int) {
    let t = ticks(m);
    let k = order_of(t);
    let r = scaled_above(t, k);
    let s = scaled_below(k);
    let n = needed(m, r, s, k, 1);
    let d = picked(m, r, s, k, n);
    let x = k - n + 1;
    if d == pow10(n) {
        (1, x + n)
    } else {
        (d, x)
    }
}

/// The first powers of 10.
pub proof fn lemma_pow10_values()
    ensures
        pow10(0) == 1,
        pow10(1) == 10,
        pow10(2) == 100,
        pow10(3) == 1000,
        pow10(4) == 10000,
        pow10(5) == 100000,
        pow10(6) == 1000000,
        pow10(7) == 10000000,
        pow10(8) == 100000000,
        pow10(9) == 1000000000,
        pow10(10) == 10000000000,
        pow10(11) == 100000000000,
        pow10(12) == 1000000000000,
        pow10(13) == 10000000000000,
        pow10(14) == 100000000000000,
        pow10(15) == 1000000000000000,
        pow10(16) == 10000000000000000,
        pow10(17) == 100000000000000000,
        pow10(18) == 1000000000000000000,
{
    reveal_with_fuel(pow10, 20);
}

/// A power of 10, up to the 18th.
fn ten_to(n: u32) -> (r: u64)
    requires
        n <= 18,
    ensures
        r == pow10(n as nat),
{
    let mut r: u64 = 1;
    let mut i: u32 = 0;
    proof {
        lemma_pow10_values();
    }
    while i < n
        invariant
            i <= n <= 18,
            r == pow10(i as nat),
        decreases n - i,
    {
        proof {
            lemma_pow10_values();
            if i + 1 < 18 {
                lemma_pow10_increases((i + 1) as nat, 18);
            }
        }
        r = r * 10;
        i += 1;
    }
    r
}

/// Whether `digits * 10^x`, with the sign of `m`, is read as the value `m`.
fn is_read(m: u64, digits: u64, x: i32) -> (r: bool)
    requires
        digits > 0,
        -1000 <= x <= 1000,
    ensures
        r == reads(m, digits as nat, x as int),
{
    let mantissa = Natural::from_u64(digits);
    nearest_value(m >= NEGATIVE_ZERO, &mantissa, x as i128) == m
}

/// Finds the shortest decimal number that is read as a finite value other
/// than zero.
pub fn shortest_digits(m: u64) -> (r: (u64, i32))
    requires
        exponent(m) < 2047,
        ticks(m) > 0,
    ensures
        (r.0 as nat, r.1 as int) == shortest(m),
        0 < r.0,
        -420 <= r.1 <= 420,
{
    let p = parts(m);
    let significand = Natural::from_u64(p.significand);
    let t = times_power_of_two(&significand, p.scale - 1);
    proof {
        lemma2_to64();
        lemma2_to64_rest();
        lemma_pow2_adds(53, (p.scale - 1) as nat);
        lemma_pow2_grows((53 + p.scale - 1) as nat, 2098);
        lemma_pow2_pos((p.scale - 1) as nat);
        assert(t@ < pow2(2098)) by (nonlinear_arith)
            requires
                t@ == p.significand * pow2((p.scale - 1) as nat),
                p.significand < pow2(53),
                pow2((53 + p.scale - 1) as nat) == pow2(53) * pow2((p.scale - 1) as nat),
                pow2((53 + p.scale - 1) as nat) <= pow2(2098),
                pow2((p.scale - 1) as nat) > 0,
        ;
    }
    let (r, s, k) = normalize(&t);
    proof {
        assert(is_order(t@, order_of(t@)));
        lemma_one_order(t@, k as int, order_of(t@));
        lemma_pow10_values();
        assert(r@ * pow10(0) == r@) by (nonlinear_arith)
            requires
                pow10(0) == 1,
        ;
    }
    let ghost rr = r@;
    let ghost ss = s@;
    let (first, rest) = leading_digit(r, &s);
    let mut digits: u64 = first as u64;
    let mut rest = rest;
    let mut n: u32 = 1;
    let mut low_ok = false;
    let mut high_ok = false;
    loop
        invariant_except_break
            1 <= n <= 17,
            ss == s@,
            0 < ss <= rr < 10 * ss,
            rr * pow10((n - 1) as nat) == digits * ss + rest@,
            rest@ < ss,
            -400 <= k <= 400,
            needed(m, rr, ss, k as int, 1) == needed(m, rr, ss, k as int, n as nat),
        ensures
            1 <= n <= 17,
            n == needed(m, rr, ss, k as int, 1),
            digits == lead(rr, ss, n as nat),
            rest@ == left(rr, ss, n as nat),
            ss == s@,
            ss > 0,
            pow10((n - 1) as nat) <= digits < pow10(n as nat),
            low_ok == reads(m, digits as nat, k - n + 1),
            high_ok == reads(m, (digits + 1) as nat, k - n + 1),
        decreases 18 - n,
    {
        proof {
            // The digits so far are the first digits of the ratio.
            let power = pow10((n - 1) as nat);
            lemma_fundamental_div_mod_converse((rr * power) as int, ss as int, digits as int, rest@ as int);
            lemma_pow10_values();
            lemma_pow10_bounds((n - 1) as nat);
            if n < 18 {
                lemma_pow10_increases(n as nat, 18);
            }
            assert(digits < pow10(n as nat) && digits >= power) by (nonlinear_arith)
                requires
                    rr * power == digits * ss + rest@,
                    0 <= rest@ < ss,
                    ss <= rr < 10 * ss,
                    pow10(n as nat) == 10 * power,
                    power > 0,
                    digits >= 0,
            ;
        }
        let x: i32 = k - n as i32 + 1;
        low_ok = is_read(m, digits, x);
        high_ok = is_read(m, digits + 1, x);
        if low_ok || high_ok || n == 17 {
            break ;
        }
        let (d, next) = leading_digit(rest.times_plus(10, 0), &s);
        proof {
            assert(rr * pow10(n as nat) == (digits * 10 + d) * ss + next@) by (nonlinear_arith)
                requires
                    rr * pow10((n - 1) as nat) == digits * ss + rest@,
                    rest@ * 10 + 0 == d * ss + next@,
                    pow10(n as nat) == 10 * pow10((n - 1) as nat),
            ;
        }
        digits = digits * 10 + d as u64;
        rest = next;
        n = n + 1;
    }
    proof {
        lemma_pow10_values();
        lemma_pow10_bounds((n - 1) as nat);
        if n < 18 {
            lemma_pow10_increases(n as nat, 18);
        }
    }
    let twice = rest.times_plus(2, 0);
    let nearer_low = match s.minus(&twice) {
        Some(gap) => !gap.is_zero(),
        None => false,
    };
    let x: i32 = k - n as i32 + 1;
    let d = if low_ok && (nearer_low || !high_ok) {
        digits
    } else if high_ok {
        digits + 1
    } else {
        digits
    };
    if d == ten_to(n) {
        (1, x + n as i32)
    } else {
        (d, x)
    }
}

/// A run of `n` zeros.
pub open spec fn zeros(n: nat) -> Seq<char> {
    Seq::new(n, |i: int| '0')
}

/// The number `d * 10^x` in positional notation: the digits of `d`, with
/// zeros behind them or with a point among them as `x` asks for, and with a
/// single zero before a leading point.
pub open spec fn positional(d: nat, x: int) -> Seq<char> {
    let digits = numeral(d);
    if x >= 0 {
        digits + zeros(x as nat)
    } else if digits.len() > -x {
        digits.subrange(0, digits.len() + x) + seq!['.'] + digits.subrange(
            digits.len() + x,
            digits.len() as int,
        )
    } else {
        seq!['0', '.'] + zeros((-x - digits.len()) as nat) + digits
    }
}

/// A binary64 value in writing: `NaN`, `inf` and `-inf` for what is no finite
/// number, `0` and `-0` for the zeros, and else the shortest decimal number
/// that is read as the value, in positional notation and behind its sign.
pub open spec fn number_text(bits: u64) -> Seq<char> {
    let sign = if negative(bits) {
        seq!['-']
    } else {
        Seq::empty()
    };
    if nan(bits) {
        "NaN"@
    } else if infinite(bits) {
        sign + "inf"@
    } else if zero(bits) {
        sign + seq!['0']
    } else {
        sign + positional(shortest(bits).0, shortest(bits).1)
    }
}

/// Appends a run of zeros to a text.
fn append_zeros(text: &mut String, count: usize)
    ensures
        final(text)@ == old(text)@ + zeros(count as nat),
{
    let ghost before = text@;
    let mut i: usize = 0;
    proof {
        assert(text@ =~= before + zeros(0));
    }
    while i < count
        invariant
            i <= count,
            text@ == before + zeros(i as nat),
        decreases count - i,
    {
        text.append("0");
        proof {
            reveal_strlit("0");
            assert(text@ =~= before + zeros((i + 1) as nat));
        }
        i += 1;
    }
}

/// Writes `d * 10^x` in positional notation behind a text.
fn append_positional(text: &mut String, d: u64, x: i32)
    requires
        -1000 <= x <= 1000,
    ensures
        final(text)@ == old(text)@ + positional(d as nat, x as int),
{
    let ghost before = text@;
    let digits = decimal(d);
    let length = digits.as_str().unicode_len();
    if x >= 0 {
        text.append(digits.as_str());
        append_zeros(text, x as usize);
        proof {
            assert(text@ =~= before + positional(d as nat, x as int));
        }
    } else {
        let behind: usize = (-x) as usize;
        if length > behind {
            let point = length - behind;
            text.append(digits.as_str().substring_char(0, point));
            text.append(".");
            text.append(digits.as_str().substring_char(point, length));
            proof {
                reveal_strlit(".");
                assert(text@ =~= before + positional(d as nat, x as int));
            }
        } else {
            text.append("0.");
            append_zeros(text, behind - length);
            text.append(digits.as_str());
            proof {
                reveal_strlit("0.");
                assert("0."@ =~= seq!['0', '.']);
                assert(text@ =~= before + positional(d as nat, x as int));
            }
        }
    }
}

/// Writes a binary64 value.
pub fn write_number(bits: u64) -> (r: String)
    ensures
        r@ == number_text(bits),
{
    let (minus, exponent, fraction) = fields(bits);
    if exponent == 2047 && fraction != 0 {
        return "NaN".to_string();
    }
    let mut r = if minus {
        "-".to_string()
    } else {
        "".to_string()
    };
    proof {
        reveal_strlit("-");
        reveal_strlit("");
        assert(r@ =~= if negative(bits) {
            seq!['-']
        } else {
            Seq::empty()
        });
    }
    if exponent == 2047 {
        r.append("inf");
    } else if exponent == 0 && fraction == 0 {
        r.append("0");
        proof {
            reveal_strlit("0");
            assert("0"@ =~= seq!['0']);
        }
    } else {
        proof {
            lemma_pow2_pos((scale(bits) - 1) as nat);
            assert(ticks(bits) > 0) by (nonlinear_arith)
                requires
                    ticks(bits) == significand(bits) * pow2((scale(bits) - 1) as nat),
                    significand(bits) > 0,
                    pow2((scale(bits) - 1) as nat) > 0,
            ;
        }
        let (d, x) = shortest_digits(bits);
        append_positional(&mut r, d, x);
    }
    r
}

} // verus!
