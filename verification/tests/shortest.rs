use mahampreter::shortest::shortest_digits;

fn expected(value: f64) -> (u64, i32) {
    let text = format!("{:e}", value);
    let (mantissa, exponent) = text.split_once('e').unwrap();
    let (whole, fraction) = mantissa.split_once('.').unwrap_or((mantissa, ""));
    let digits = format!("{}{}", whole, fraction);
    (
        digits.parse::<u64>().unwrap(),
        exponent.parse::<i32>().unwrap() - fraction.len() as i32,
    )
}

#[test]
fn chosen_values_have_their_shortest_digits() {
    for value in [
        1.0,
        2.0,
        0.5,
        0.1,
        0.2,
        0.3,
        0.1 + 0.2,
        1.5,
        3.14,
        100.0,
        1e21,
        1e22,
        1e23,
        9.999999999999999e22,
        1e-7,
        1e-5,
        123456789.0,
        0.000123,
        5e-324,
        1e-323,
        2.2250738585072014e-308,
        2.225073858507201e-308,
        f64::MAX,
        f64::MIN_POSITIVE,
        f64::EPSILON,
        9007199254740992.0,
        9007199254740993.0,
        4.35,
        2.675,
        1e100,
        1e-100,
        6.02214076e23,
        1.7976931348623157e308,
        9.5367431640625e-7,
        1.0000000000000002,
        0.9999999999999999,
        299792458.0,
    ] {
        assert_eq!(shortest_digits(f64::to_bits(value)), expected(value), "{:e}", value);
    }
}

fn check_power_of_two(exponent: i32) {
    let bits: u64 = if exponent >= -1022 {
        ((exponent + 1023) as u64) << 52
    } else {
        1u64 << (exponent + 1074)
    };
    let value = f64::from_bits(bits);
    assert_eq!(shortest_digits(value.to_bits()), expected(value), "2^{}", exponent);
}

#[test]
fn powers_of_two_have_their_shortest_digits() {
    for exponent in [-1074, -1073, -1023, -1022, -1, 0, 1, 52, 53, 63, 64, 1023] {
        check_power_of_two(exponent);
    }
}

#[test]
fn small_powers_of_two_have_their_shortest_digits() {
    for exponent in (-1074..-500).step_by(5) {
        check_power_of_two(exponent);
    }
}

#[test]
fn middle_powers_of_two_have_their_shortest_digits() {
    for exponent in (-500..500).step_by(5) {
        check_power_of_two(exponent);
    }
}

#[test]
fn great_powers_of_two_have_their_shortest_digits() {
    for exponent in (500..1024).step_by(5) {
        check_power_of_two(exponent);
    }
}

#[test]
fn powers_of_ten_have_their_shortest_digits() {
    for exponent in (-323..309).step_by(7).chain([-1, 0, 1, 21, 22, 23, 308]) {
        let value: f64 = format!("1e{}", exponent).parse().unwrap();
        assert_eq!(shortest_digits(value.to_bits()), expected(value), "1e{}", exponent);
        let below = f64::from_bits(value.to_bits() - 1);
        assert_eq!(shortest_digits(below.to_bits()), expected(below), "below 1e{}", exponent);
        let above = f64::from_bits(value.to_bits() + 1);
        if above.is_finite() {
            assert_eq!(shortest_digits(above.to_bits()), expected(above), "above 1e{}", exponent);
        }
    }
}

#[test]
fn any_values_have_their_shortest_digits() {
    let mut state: u64 = 0x9E37_79B9_7F4A_7C15;
    let mut checked = 0;
    while checked < 400 {
        state ^= state << 13;
        state ^= state >> 7;
        state ^= state << 17;
        let value = f64::from_bits(state & 0x7FFF_FFFF_FFFF_FFFF);
        if !value.is_finite() || value == 0.0 {
            continue;
        }
        assert_eq!(shortest_digits(value.to_bits()), expected(value), "{:e}", value);
        checked += 1;
    }
}
