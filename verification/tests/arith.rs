use mahampreter::arith::{add, divide, multiply, negate, reduce, subtract};

fn interesting() -> Vec<u64> {
    let mut all: Vec<u64> = vec![
        0.0,
        -0.0,
        1.0,
        -1.0,
        2.0,
        0.5,
        3.0,
        7.0,
        10.0,
        0.1,
        0.2,
        0.3,
        1.5,
        -2.5,
        1e-320,
        5e-324,
        -5e-324,
        2.2250738585072014e-308,
        2.225073858507201e-308,
        1e-308,
        1e-200,
        1e-160,
        1e-154,
        1.5e-154,
        1e154,
        1.3e154,
        1e200,
        1e300,
        1e308,
        f64::MAX,
        f64::MIN,
        f64::MIN_POSITIVE,
        f64::EPSILON,
        9007199254740991.0,
        9007199254740992.0,
        9007199254740993.0,
        4503599627370496.5,
        1.0000000000000002,
        0.9999999999999999,
        1.7976931348623157e308,
        8.98846567431158e307,
        f64::INFINITY,
        f64::NEG_INFINITY,
        f64::NAN,
    ]
    .into_iter()
    .map(f64::to_bits)
    .collect();
    for exponent in [0u64, 1, 2, 52, 53, 54, 970, 1021, 1022, 1023, 1024, 1025, 1075, 1076, 2044, 2045, 2046, 2047]
    {
        for fraction in [0u64, 1, 2, 0x8_0000_0000_0000, 0xF_FFFF_FFFF_FFFF, 0xF_FFFF_FFFF_FFFE, 0x5_5555_5555_5555]
        {
            all.push((exponent << 52) | fraction);
            all.push((1 << 63) | (exponent << 52) | fraction);
        }
    }
    all
}

fn random(count: usize, seed: u64) -> Vec<u64> {
    let mut state = seed;
    let mut all = Vec::new();
    for _ in 0..count {
        state ^= state << 13;
        state ^= state >> 7;
        state ^= state << 17;
        all.push(state);
    }
    all
}

fn same(ours: u64, theirs: f64) -> bool {
    if theirs.is_nan() {
        f64::from_bits(ours).is_nan()
    } else {
        ours == theirs.to_bits()
    }
}

fn check(name: &str, ours: fn(u64, u64) -> u64, theirs: fn(f64, f64) -> f64) {
    let special = interesting();
    for &a in &special {
        for &b in &special {
            let expected = theirs(f64::from_bits(a), f64::from_bits(b));
            assert!(
                same(ours(a, b), expected),
                "{} {:#018x} {:#018x}: {:#018x} instead of {:#018x}",
                name,
                a,
                b,
                ours(a, b),
                expected.to_bits()
            );
        }
    }
    let left = random(30000, 0x9E37_79B9_7F4A_7C15);
    let right = random(30000, 0x2545_F491_4F6C_DD1D);
    for (&a, &b) in left.iter().zip(right.iter()) {
        let expected = theirs(f64::from_bits(a), f64::from_bits(b));
        assert!(same(ours(a, b), expected), "{} {:#018x} {:#018x}", name, a, b);
        // Values of nearly the same size, where rounding and cancellation show.
        let near = (a & 0xFFF0_0000_0000_0000) | (b & 0x000F_FFFF_FFFF_FFFF);
        let expected = theirs(f64::from_bits(a), f64::from_bits(near));
        assert!(same(ours(a, near), expected), "{} {:#018x} {:#018x}", name, a, near);
        let close = a ^ (b & 0x8000_0000_0000_00FF);
        let expected = theirs(f64::from_bits(a), f64::from_bits(close));
        assert!(same(ours(a, close), expected), "{} {:#018x} {:#018x}", name, a, close);
        // Values a few binades apart.
        let shifted = a.wrapping_add((b % 120) << 52);
        let expected = theirs(f64::from_bits(a), f64::from_bits(shifted));
        assert!(same(ours(a, shifted), expected), "{} {:#018x} {:#018x}", name, a, shifted);
        for &c in special.iter().take(40) {
            let expected = theirs(f64::from_bits(a), f64::from_bits(c));
            assert!(same(ours(a, c), expected), "{} {:#018x} {:#018x}", name, a, c);
            let expected = theirs(f64::from_bits(c), f64::from_bits(a));
            assert!(same(ours(c, a), expected), "{} {:#018x} {:#018x}", name, c, a);
        }
    }
}

#[test]
fn products_are_the_machine_s() {
    check("product", multiply, |a, b| a * b);
}

#[test]
fn sums_are_the_machine_s() {
    check("sum", add, |a, b| a + b);
}

#[test]
fn differences_are_the_machine_s() {
    check("difference", subtract, |a, b| a - b);
}

#[test]
fn the_sign_is_turned() {
    for bits in interesting() {
        let expected = -f64::from_bits(bits);
        assert_eq!(negate(bits), expected.to_bits());
    }
}

#[test]
fn chosen_sums_and_products() {
    let value = |bits: u64| f64::from_bits(bits);
    assert_eq!(value(add(1.0f64.to_bits(), 2.0f64.to_bits())), 3.0);
    assert_eq!(value(add(0.1f64.to_bits(), 0.2f64.to_bits())), 0.30000000000000004);
    assert_eq!(value(subtract(1.0f64.to_bits(), 2.5f64.to_bits())), -1.5);
    assert_eq!(value(multiply(1.5f64.to_bits(), 2.0f64.to_bits())), 3.0);
    assert_eq!(value(multiply(1e200f64.to_bits(), 1e200f64.to_bits())), f64::INFINITY);
    assert_eq!(value(add(1e308f64.to_bits(), 1e308f64.to_bits())), f64::INFINITY);
    assert_eq!(add(5.0f64.to_bits(), (-5.0f64).to_bits()), 0.0f64.to_bits());
    assert_eq!(add((-0.0f64).to_bits(), (-0.0f64).to_bits()), (-0.0f64).to_bits());
    assert_eq!(add((-0.0f64).to_bits(), 0.0f64.to_bits()), 0.0f64.to_bits());
    assert!(value(add(f64::INFINITY.to_bits(), f64::NEG_INFINITY.to_bits())).is_nan());
    assert!(value(multiply(f64::INFINITY.to_bits(), 0.0f64.to_bits())).is_nan());
}

#[test]
fn quotients_are_the_machine_s() {
    check("quotient", divide, |a, b| a / b);
}

#[test]
fn remainders_are_the_machine_s() {
    check("remainder", reduce, |a, b| a % b);
}

#[test]
fn chosen_quotients_and_remainders() {
    let value = |bits: u64| f64::from_bits(bits);
    assert_eq!(value(divide(7.0f64.to_bits(), 2.0f64.to_bits())), 3.5);
    assert_eq!(value(divide(1.0f64.to_bits(), 3.0f64.to_bits())), 1.0 / 3.0);
    assert_eq!(value(divide(1.0f64.to_bits(), 0.0f64.to_bits())), f64::INFINITY);
    assert_eq!(value(divide(1.0f64.to_bits(), (-0.0f64).to_bits())), f64::NEG_INFINITY);
    assert!(value(divide(0.0f64.to_bits(), 0.0f64.to_bits())).is_nan());
    assert_eq!(value(divide(1e300f64.to_bits(), 1e-300f64.to_bits())), f64::INFINITY);
    assert_eq!(value(divide(1e-300f64.to_bits(), 1e300f64.to_bits())), 0.0);
    assert_eq!(value(reduce(7.0f64.to_bits(), 3.0f64.to_bits())), 1.0);
    assert_eq!(value(reduce((-7.0f64).to_bits(), 3.0f64.to_bits())), -1.0);
    assert_eq!(value(reduce(7.0f64.to_bits(), (-3.0f64).to_bits())), 1.0);
    assert_eq!(value(reduce(7.5f64.to_bits(), 2.0f64.to_bits())), 1.5);
    assert_eq!(reduce((-6.0f64).to_bits(), 3.0f64.to_bits()), (-0.0f64).to_bits());
    assert_eq!(value(reduce(1e300f64.to_bits(), 7.0f64.to_bits())), 1e300 % 7.0);
    assert_eq!(value(reduce(5.0f64.to_bits(), f64::INFINITY.to_bits())), 5.0);
    assert!(value(reduce(1.0f64.to_bits(), 0.0f64.to_bits())).is_nan());
    assert!(value(reduce(f64::INFINITY.to_bits(), 2.0f64.to_bits())).is_nan());
}
