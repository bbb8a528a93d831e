use mahampreter::decimal::{nearest_value, read_literal};
use mahampreter::natural::Natural;

fn natural(digits: &str) -> Natural {
    let mut n = Natural::zero();
    for c in digits.chars() {
        n = n.times_plus(10, c.to_digit(10).unwrap());
    }
    n
}

fn read(text: &str) -> u64 {
    let literal: Vec<char> = text.chars().collect();
    read_literal(&literal)
}

fn convert(digits: &str, shift: i32) -> u64 {
    let by_reading = read(&format!("{}e{}", digits, shift));
    if shift.abs() < 2000 {
        assert_eq!(nearest_value(false, &natural(digits), shift as i128), by_reading);
    }
    by_reading
}

fn expected(digits: &str, shift: i32) -> u64 {
    format!("{}e{}", digits, shift).parse::<f64>().unwrap().to_bits()
}

#[test]
fn chosen_decimals() {
    assert_eq!(f64::from_bits(convert("1", 0)), 1.0);
    assert_eq!(f64::from_bits(convert("1", -1)), 0.1);
    assert_eq!(f64::from_bits(convert("3", -1)), 0.3);
    assert_eq!(f64::from_bits(convert("314", -2)), 3.14);
    assert_eq!(f64::from_bits(convert("15", 2)), 1500.0);
    assert_eq!(f64::from_bits(convert("1", 22)), 1e22);
    assert_eq!(f64::from_bits(convert("1", 23)), 1e23);
    assert_eq!(f64::from_bits(convert("1", 308)), 1e308);
    assert_eq!(f64::from_bits(convert("17976931348623157", 292)), f64::MAX);
    assert_eq!(f64::from_bits(convert("17976931348623158", 292)), f64::MAX);
    assert_eq!(f64::from_bits(convert("17976931348623159", 292)), f64::INFINITY);
    assert_eq!(f64::from_bits(convert("1", 309)), f64::INFINITY);
    assert_eq!(f64::from_bits(convert("1", 999)), f64::INFINITY);
    assert_eq!(f64::from_bits(convert("1", 1000000000)), f64::INFINITY);
    assert_eq!(f64::from_bits(convert("22250738585072014", -324)), f64::MIN_POSITIVE);
    assert_eq!(f64::from_bits(convert("5", -324)), 5e-324);
    assert_eq!(f64::from_bits(convert("3", -324)), 5e-324);
    assert_eq!(f64::from_bits(convert("2", -324)), 0.0);
    assert_eq!(f64::from_bits(convert("24703282292062327", -340)), 0.0);
    assert_eq!(f64::from_bits(convert("24703282292062328", -340)), 5e-324);
    assert_eq!(f64::from_bits(convert("1", -400)), 0.0);
    assert_eq!(f64::from_bits(convert("1", -1000000000)), 0.0);
    assert_eq!(nearest_value(true, &natural("25"), -1), (-2.5f64).to_bits());
    assert_eq!(nearest_value(true, &natural("1"), -400), (-0.0f64).to_bits());
    assert_eq!(nearest_value(true, &natural("1"), 400), f64::NEG_INFINITY.to_bits());
    assert_eq!(read("-2.5"), (-2.5f64).to_bits());
    assert_eq!(read("-1e-400"), (-0.0f64).to_bits());
    assert_eq!(read("-1e400"), f64::NEG_INFINITY.to_bits());
    assert_eq!(read("-0"), (-0.0f64).to_bits());
    assert_eq!(read("0e99999999999999999999999999999999999999"), 0.0f64.to_bits());
    assert_eq!(read("1e99999999999999999999999999999999999999"), f64::INFINITY.to_bits());
    assert_eq!(read("1e-99999999999999999999999999999999999999"), 0.0f64.to_bits());
    assert_eq!(read("+.5E+1"), 5.0f64.to_bits());
    assert_eq!(read("5."), 5.0f64.to_bits());
}

#[test]
fn halfway_cases() {
    // 2^53 + 1 lies halfway between two values: the even one is taken, unless
    // a digit far behind says that it is more.
    assert_eq!(f64::from_bits(convert("9007199254740993", 0)), 9007199254740992.0);
    assert_eq!(f64::from_bits(convert("9007199254740995", 0)), 9007199254740996.0);
    assert_eq!(
        f64::from_bits(convert("90071992547409930000000000000000000000000000000000000000001", -43)),
        9007199254740994.0
    );
    assert_eq!(
        f64::from_bits(convert("90071992547409930000000000000000000000000000000000000000000", -43)),
        9007199254740992.0
    );
    assert_eq!(
        f64::from_bits(convert("90071992547409929999999999999999999999999999999999999999999", -43)),
        9007199254740992.0
    );
}

#[test]
fn decimals_are_read_as_the_machine_reads_them() {
    let mut state: u64 = 0x9E37_79B9_7F4A_7C15;
    let mut next = || {
        state ^= state << 13;
        state ^= state >> 7;
        state ^= state << 17;
        state
    };
    for _ in 0..3000 {
        let digits = (next() >> (next() % 64)).max(1).to_string();
        let shift = (next() % 700) as i32 - 350;
        assert_eq!(convert(&digits, shift), expected(&digits, shift), "{}e{}", digits, shift);
    }
    for _ in 0..300 {
        let mut digits = String::new();
        for _ in 0..(1 + next() % 60) {
            digits.push_str(&(next() % 1_000_000_000).to_string());
        }
        let digits = digits.trim_start_matches('0').to_string();
        if digits.is_empty() {
            continue;
        }
        let shift = (next() % 1000) as i32 - 700;
        assert_eq!(convert(&digits, shift), expected(&digits, shift), "{}e{}", digits, shift);
    }
}

#[test]
fn every_shortest_writing_is_read_back() {
    let mut state: u64 = 0x2545_F491_4F6C_DD1D;
    for _ in 0..3000 {
        state ^= state << 13;
        state ^= state >> 7;
        state ^= state << 17;
        let value = f64::from_bits(state & 0x7FFF_FFFF_FFFF_FFFF);
        if !value.is_finite() || value == 0.0 {
            continue;
        }
        let text = format!("{:e}", value);
        let (mantissa, exponent) = text.split_once('e').unwrap();
        let (whole, fraction) = mantissa.split_once('.').unwrap_or((mantissa, ""));
        let digits = format!("{}{}", whole, fraction);
        let shift = exponent.parse::<i32>().unwrap() - fraction.len() as i32;
        assert_eq!(convert(&digits, shift), value.to_bits(), "{}", text);
    }
}

#[test]
fn naturals_are_computed_with() {
    let a = natural("123456789012345678901234567890");
    let b = natural("987654321098765432109876543210");
    assert!(a.minus(&b).is_none());
    let rest = b.minus(&a).unwrap();
    assert!(rest.minus(&natural("864197532086419753208641975320")).unwrap().is_zero());
    assert!(a.minus(&a).unwrap().is_zero());
    assert!(!a.is_zero());
    assert!(Natural::zero().is_zero());
    assert!(Natural::one().minus(&natural("1")).unwrap().is_zero());
    assert!(natural("4294967296").minus(&natural("4294967295")).unwrap().minus(&Natural::one()).unwrap().is_zero());
    assert!(natural("0").times_plus(7, 5).minus(&natural("5")).unwrap().is_zero());
}
