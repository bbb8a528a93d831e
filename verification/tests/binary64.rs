use mahampreter::binary64::{is_zero, NEGATIVE_ZERO, ONE, ZERO};
use mahampreter::integer::{from_i64, to_i64, truncate};

const UPPER: u64 = 0x43E0_0000_0000_0000;
const LOWER: u64 = 0xC3E0_0000_0000_0000;

fn samples() -> Vec<u64> {
    let mut all: Vec<u64> = vec![
        0.0,
        -0.0,
        0.5,
        -0.5,
        0.999999999999,
        1.0,
        -1.0,
        1.5,
        -1.5,
        2.0,
        3.5,
        -3.5,
        7.0 / 2.0,
        1e10 + 0.5,
        4503599627370495.5,
        4503599627370496.0,
        4503599627370497.0,
        9007199254740991.0,
        9007199254740992.0,
        9007199254740994.0,
        4611686018427387904.0,
        9223372036854774784.0,
        9223372036854775808.0,
        -9223372036854775808.0,
        -9223372036854777856.0,
        18446744073709551616.0,
        1e19,
        -1e19,
        1e300,
        -1e300,
        f64::MAX,
        f64::MIN,
        f64::MIN_POSITIVE,
        -f64::MIN_POSITIVE,
        5e-324,
        -5e-324,
        f64::EPSILON,
        f64::INFINITY,
        f64::NEG_INFINITY,
        f64::NAN,
        -f64::NAN,
    ]
    .into_iter()
    .map(f64::to_bits)
    .collect();
    all.push(0x7FF0_0000_0000_0001);
    all.push(0xFFF8_0000_0000_0000);
    all.push(0x7FFF_FFFF_FFFF_FFFF);
    all.push(0x000F_FFFF_FFFF_FFFF);
    all.push(0x8000_0000_0000_0001);
    for exponent in 0..2048u64 {
        for fraction in [0u64, 1, 0x8_0000_0000_0000, 0xF_FFFF_FFFF_FFFF, 0x5_5555_5555_5555] {
            all.push((exponent << 52) | fraction);
            all.push((1 << 63) | (exponent << 52) | fraction);
        }
    }
    let mut state: u64 = 0x9E37_79B9_7F4A_7C15;
    for _ in 0..20000 {
        state ^= state << 13;
        state ^= state >> 7;
        state ^= state << 17;
        all.push(state);
    }
    all
}

#[test]
fn truncation_is_the_cast_to_an_integer_and_back() {
    for bits in samples() {
        let expected = ((f64::from_bits(bits) as i64) as f64).to_bits();
        assert_eq!(truncate(bits), expected, "{:#018x} {:e}", bits, f64::from_bits(bits));
    }
}

#[test]
fn truncation_of_chosen_values() {
    let truncated = |value: f64| f64::from_bits(truncate(value.to_bits()));
    assert_eq!(truncated(3.5), 3.0);
    assert_eq!(truncated(-3.5), -3.0);
    assert_eq!(truncated(3.0), 3.0);
    assert_eq!(truncated(0.75), 0.0);
    assert_eq!(truncated(1e18 + 0.5), 1e18);
    assert_eq!(truncated(1e19), 9223372036854775808.0);
    assert_eq!(truncated(-1e19), -9223372036854775808.0);
    assert_eq!(truncated(f64::INFINITY), 9223372036854775808.0);
    assert_eq!(truncated(f64::NEG_INFINITY), -9223372036854775808.0);
    assert_eq!(truncate((-0.75f64).to_bits()), ZERO);
    assert_eq!(truncate((-0.0f64).to_bits()), ZERO);
    assert_eq!(truncate(f64::NAN.to_bits()), ZERO);
    assert_eq!(truncate(1e19f64.to_bits()), UPPER);
    assert_eq!(truncate((-1e19f64).to_bits()), LOWER);
}

#[test]
fn truncation_twice_is_truncation_once() {
    for bits in samples() {
        let once = truncate(bits);
        assert_eq!(truncate(once), once);
    }
}

#[test]
fn zero_is_what_compares_equal_to_zero() {
    for bits in samples() {
        assert_eq!(is_zero(bits), f64::from_bits(bits) == 0.0, "{:#018x}", bits);
    }
    assert!(is_zero(ZERO));
    assert!(is_zero(NEGATIVE_ZERO));
    assert!(!is_zero(ONE));
    assert!(!is_zero(5e-324f64.to_bits()));
    assert!(!is_zero(f64::NAN.to_bits()));
}

#[test]
fn the_named_values() {
    assert_eq!(ZERO, 0.0f64.to_bits());
    assert_eq!(NEGATIVE_ZERO, (-0.0f64).to_bits());
    assert_eq!(ONE, 1.0f64.to_bits());
    assert_eq!(UPPER, 9223372036854775808.0f64.to_bits());
    assert_eq!(LOWER, (-9223372036854775808.0f64).to_bits());
    assert_eq!(UPPER, (i64::MAX as f64).to_bits());
    assert_eq!(LOWER, (i64::MIN as f64).to_bits());
}

fn integers() -> Vec<i64> {
    let mut all: Vec<i64> = vec![
        0,
        1,
        -1,
        2,
        3,
        7,
        -7,
        1023,
        1024,
        i64::MAX,
        i64::MIN,
        i64::MAX - 1,
        i64::MIN + 1,
        9007199254740991,
        9007199254740992,
        9007199254740993,
        9007199254740994,
        9007199254740995,
        -9007199254740993,
        -9007199254740995,
        18014398509481985,
        18014398509481986,
        18014398509481987,
        9223372036854775295,
        9223372036854775296,
        9223372036854775297,
        9223372036854774784,
        9223372036854775807 - 511,
        9223372036854775807 - 512,
        4611686018427387903,
        4611686018427387904,
        4611686018427387905,
        4611686018427388160,
    ];
    for shift in 0..63 {
        let power = 1i64 << shift;
        for delta in [-3i64, -2, -1, 0, 1, 2, 3] {
            let value = power.wrapping_add(delta);
            all.push(value);
            all.push(value.wrapping_neg());
            all.push(power.wrapping_add(power / 2).wrapping_add(delta));
            all.push(power.wrapping_add(power / 1024 * 3).wrapping_add(delta));
        }
    }
    let mut state: u64 = 0x2545_F491_4F6C_DD1D;
    for _ in 0..20000 {
        state ^= state << 13;
        state ^= state >> 7;
        state ^= state << 17;
        all.push(state as i64);
        all.push((state >> (state % 64)) as i64);
    }
    all
}

#[test]
fn conversion_from_an_integer_is_the_cast() {
    for value in integers() {
        assert_eq!(
            from_i64(value),
            (value as f64).to_bits(),
            "{}",
            value
        );
    }
}

#[test]
fn conversion_to_an_integer_is_the_cast() {
    for bits in samples() {
        assert_eq!(
            to_i64(bits),
            f64::from_bits(bits) as i64,
            "{:#018x}",
            bits
        );
    }
    for value in integers() {
        let bits = (value as f64).to_bits();
        assert_eq!(to_i64(bits), (value as f64) as i64);
    }
}

#[test]
fn chosen_integers_convert_exactly_or_to_the_nearest() {
    let convert = |value: i64| f64::from_bits(from_i64(value));
    assert_eq!(convert(0), 0.0);
    assert_eq!(from_i64(0), ZERO);
    assert_eq!(convert(1), 1.0);
    assert_eq!(convert(-1), -1.0);
    assert_eq!(convert(42), 42.0);
    assert_eq!(convert(9007199254740992), 9007199254740992.0);
    assert_eq!(convert(9007199254740993), 9007199254740992.0);
    assert_eq!(convert(9007199254740995), 9007199254740996.0);
    assert_eq!(convert(i64::MAX), 9223372036854775808.0);
    assert_eq!(convert(i64::MIN), -9223372036854775808.0);
    assert_eq!(from_i64(i64::MAX), UPPER);
    assert_eq!(from_i64(i64::MIN), LOWER);
}
