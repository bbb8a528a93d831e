use mahampreter::SchemeExpr::{Float, List, Operation, Symbol};
use mahampreter::{
    parse_expr, parse_float, parse_list, parse_op, parse_symbol, Expected, ParseError,
    SchemeExpr, SchemeOp,
};

fn number(value: f64) -> SchemeExpr {
    Float(value.to_bits())
}

fn symbol(name: &str) -> SchemeExpr {
    Symbol(name.to_string())
}

fn failure(position: usize, expected: Expected) -> Result<(&'static str, SchemeExpr), ParseError> {
    Err(ParseError { position, expected })
}

#[test]
fn digits_parse_as_floats() {
    assert_eq!(parse_expr("3"), Ok(("", number(3.0))));
    assert_eq!(parse_expr("0"), Ok(("", number(0.0))));
    assert_eq!(parse_expr("007"), Ok(("", number(7.0))));
    assert_eq!(parse_expr("42"), Ok(("", number(42.0))));
    assert_eq!(
        parse_expr("12345678901234567890"),
        Ok(("", number(12345678901234567890.0)))
    );
}

#[test]
fn digits_never_parse_as_integers() {
    for text in ["0", "1", "9", "10", "123456789", "9007199254740993"] {
        let (rest, parsed) = parse_expr(text).unwrap();
        assert_eq!(rest, "");
        assert!(matches!(parsed, Float(_)));
        assert_eq!(parsed, number(text.parse::<f64>().unwrap()));
    }
}

#[test]
fn numbers_with_sign_fraction_and_exponent() {
    assert_eq!(parse_expr("3.14"), Ok(("", number(3.14))));
    assert_eq!(parse_expr("-2.5"), Ok(("", number(-2.5))));
    assert_eq!(parse_expr("+7"), Ok(("", number(7.0))));
    assert_eq!(parse_expr(".5"), Ok(("", number(0.5))));
    assert_eq!(parse_expr("5."), Ok(("", number(5.0))));
    assert_eq!(parse_expr("1e3"), Ok(("", number(1000.0))));
    assert_eq!(parse_expr("1E-2"), Ok(("", number(0.01))));
    assert_eq!(parse_expr("1.5e+3"), Ok(("", number(1500.0))));
    assert_eq!(parse_expr("5.e2"), Ok(("", number(500.0))));
    assert_eq!(parse_expr("-.25E1"), Ok(("", number(-2.5))));
    assert_eq!(parse_expr("-0"), Ok(("", number(-0.0))));
}

#[test]
fn a_number_ends_where_its_literal_ends() {
    assert_eq!(parse_expr("1.5.5"), Ok((".5", number(1.5))));
    assert_eq!(parse_expr("1-2"), Ok(("-2", number(1.0))));
    assert_eq!(parse_expr("12abc"), Ok(("abc", number(12.0))));
    assert_eq!(parse_expr("1 2"), Ok((" 2", number(1.0))));
    assert_eq!(parse_expr("2x3"), Ok(("x3", number(2.0))));
}

#[test]
fn a_literal_too_large_is_infinite() {
    assert_eq!(parse_expr("1e999"), Ok(("", number(f64::INFINITY))));
    assert_eq!(parse_expr("-1e999"), Ok(("", number(f64::NEG_INFINITY))));
    assert_eq!(parse_expr("1e-999"), Ok(("", number(0.0))));
}

#[test]
fn an_exponent_owes_its_digits() {
    assert_eq!(parse_expr("1e"), failure(2, Expected::ExponentDigits));
    assert_eq!(parse_expr("1e+"), failure(3, Expected::ExponentDigits));
    assert_eq!(parse_expr("1E-x"), failure(3, Expected::ExponentDigits));
    assert_eq!(parse_expr("2.5e "), failure(4, Expected::ExponentDigits));
    assert_eq!(parse_expr("(+ 1 2e)"), failure(7, Expected::ExponentDigits));
    assert_eq!(parse_expr("(1 (2 3e) 4)"), failure(8, Expected::ExponentDigits));
    assert_eq!(parse_float("7e"), failure(2, Expected::ExponentDigits));
}

#[test]
fn every_operator_is_read() {
    let cases = [
        ("*", SchemeOp::Mul),
        ("/", SchemeOp::Div),
        ("+", SchemeOp::Add),
        ("-", SchemeOp::Sub),
        ("%", SchemeOp::Mod),
        (">", SchemeOp::Gt),
        ("<", SchemeOp::Lt),
        ("<=", SchemeOp::Leq),
        (">=", SchemeOp::Geq),
        ("=", SchemeOp::Eq),
    ];
    for (text, op) in cases {
        assert_eq!(parse_expr(text), Ok(("", Operation(op))));
        assert_eq!(parse_op(text), Ok(("", Operation(op))));
        assert_eq!(op.text(), text);
    }
}

#[test]
fn the_longer_operator_wins() {
    assert_eq!(parse_expr("<="), Ok(("", Operation(SchemeOp::Leq))));
    assert_eq!(parse_expr(">="), Ok(("", Operation(SchemeOp::Geq))));
    assert_eq!(parse_expr("<= 1"), Ok((" 1", Operation(SchemeOp::Leq))));
    assert_eq!(parse_expr("<=>"), Ok((">", Operation(SchemeOp::Leq))));
    assert_eq!(parse_expr("=<"), Ok(("<", Operation(SchemeOp::Eq))));
    assert_eq!(parse_expr("<<"), Ok(("<", Operation(SchemeOp::Lt))));
    assert_eq!(parse_expr("=="), Ok(("=", Operation(SchemeOp::Eq))));
    assert_eq!(
        parse_expr("(<= 1 2)"),
        Ok(("", List(vec![Operation(SchemeOp::Leq), number(1.0), number(2.0)])))
    );
    assert_eq!(
        parse_expr("(>= 1 2)"),
        Ok(("", List(vec![Operation(SchemeOp::Geq), number(1.0), number(2.0)])))
    );
}

#[test]
fn a_number_goes_before_an_operator() {
    assert_eq!(parse_expr("+1"), Ok(("", number(1.0))));
    assert_eq!(parse_expr("-1"), Ok(("", number(-1.0))));
    assert_eq!(parse_expr("+.5"), Ok(("", number(0.5))));
    assert_eq!(parse_expr("+"), Ok(("", Operation(SchemeOp::Add))));
    assert_eq!(parse_expr("- 1"), Ok((" 1", Operation(SchemeOp::Sub))));
    assert_eq!(parse_expr("-x"), Ok(("x", Operation(SchemeOp::Sub))));
    assert_eq!(parse_expr("--1"), Ok(("-1", Operation(SchemeOp::Sub))));
    assert_eq!(parse_expr("+."), Ok((".", Operation(SchemeOp::Add))));
    assert_eq!(parse_expr("(+1 2)"), Ok(("", List(vec![number(1.0), number(2.0)]))));
}

#[test]
fn symbols_are_runs_of_letters() {
    assert_eq!(parse_expr("abc"), Ok(("", symbol("abc"))));
    assert_eq!(parse_expr("NIL"), Ok(("", symbol("NIL"))));
    assert_eq!(parse_expr("abc1"), Ok(("1", symbol("abc"))));
    assert_eq!(parse_expr("foo-bar"), Ok(("-bar", symbol("foo"))));
    assert_eq!(parse_expr("e5"), Ok(("5", symbol("e"))));
    assert_eq!(parse_expr("x_y"), Ok(("_y", symbol("x"))));
    assert_eq!(parse_symbol("Zeta rest"), Ok((" rest", symbol("Zeta"))));
}

#[test]
fn words_for_special_values_are_symbols() {
    assert_eq!(parse_expr("inf"), Ok(("", symbol("inf"))));
    assert_eq!(parse_expr("nan"), Ok(("", symbol("nan"))));
    assert_eq!(parse_expr("NaN"), Ok(("", symbol("NaN"))));
    assert_eq!(parse_expr("infinity"), Ok(("", symbol("infinity"))));
    assert_eq!(parse_expr("-inf"), Ok(("inf", Operation(SchemeOp::Sub))));
}

#[test]
fn the_empty_list_with_any_spaces() {
    let empty = || List(vec![]);
    assert_eq!(parse_expr("()"), Ok(("", empty())));
    assert_eq!(parse_expr("( )"), Ok(("", empty())));
    assert_eq!(parse_expr("(   )"), Ok(("", empty())));
    assert_eq!(parse_expr("(\t\r\n )"), Ok(("", empty())));
    assert_eq!(parse_expr(" ()"), Ok(("", empty())));
    assert_eq!(parse_expr("\n\t ( )"), Ok(("", empty())));
    assert_eq!(parse_expr("() "), Ok((" ", empty())));
    assert_eq!(parse_expr(" ( ) x"), Ok((" x", empty())));
    assert_eq!(parse_list("()"), Ok(("", empty())));
}

#[test]
fn lists_hold_their_items_in_order() {
    assert_eq!(parse_expr("(1)"), Ok(("", List(vec![number(1.0)]))));
    assert_eq!(parse_expr("( 1 )"), Ok(("", List(vec![number(1.0)]))));
    assert_eq!(
        parse_expr("(1 2 3)"),
        Ok(("", List(vec![number(1.0), number(2.0), number(3.0)])))
    );
    assert_eq!(
        parse_expr("(1  \t\n 2)"),
        Ok(("", List(vec![number(1.0), number(2.0)])))
    );
    assert_eq!(
        parse_expr("(foo + 1.5 bar)"),
        Ok((
            "",
            List(vec![symbol("foo"), Operation(SchemeOp::Add), number(1.5), symbol("bar")])
        ))
    );
    assert_eq!(
        parse_expr("(+ 1 2) rest"),
        Ok((" rest", List(vec![Operation(SchemeOp::Add), number(1.0), number(2.0)])))
    );
}

#[test]
fn lists_nest() {
    assert_eq!(parse_expr("(())"), Ok(("", List(vec![List(vec![])]))));
    assert_eq!(
        parse_expr("((1) (2 (3)))"),
        Ok((
            "",
            List(vec![
                List(vec![number(1.0)]),
                List(vec![number(2.0), List(vec![number(3.0)])]),
            ])
        ))
    );
    assert_eq!(
        parse_expr("(+ 1 2 (+ 1 1 1))"),
        Ok((
            "",
            List(vec![
                Operation(SchemeOp::Add),
                number(1.0),
                number(2.0),
                List(vec![Operation(SchemeOp::Add), number(1.0), number(1.0), number(1.0)]),
            ])
        ))
    );
    let deep = format!("{}{}", "(".repeat(200), ")".repeat(200));
    let (rest, mut parsed) = parse_expr(&deep).unwrap();
    assert_eq!(rest, "");
    let mut depth = 0;
    while let List(mut items) = parsed {
        depth += 1;
        if items.is_empty() {
            break;
        }
        assert_eq!(items.len(), 1);
        parsed = items.remove(0);
    }
    assert_eq!(depth, 200);
}

#[test]
fn items_need_a_space_between_them() {
    assert_eq!(parse_expr("(1(2))"), failure(2, Expected::ClosingParenthesis));
    assert_eq!(parse_expr("(a(b))"), failure(2, Expected::ClosingParenthesis));
    assert_eq!(parse_expr("(1.5.5)"), failure(4, Expected::ClosingParenthesis));
    assert_eq!(parse_expr("(<==)"), failure(3, Expected::ClosingParenthesis));
}

#[test]
fn a_list_must_be_closed() {
    assert_eq!(parse_expr("("), failure(1, Expected::ClosingParenthesis));
    assert_eq!(parse_expr("(   "), failure(4, Expected::ClosingParenthesis));
    assert_eq!(parse_expr("(1 2"), failure(4, Expected::ClosingParenthesis));
    assert_eq!(parse_expr("(1 2 "), failure(5, Expected::ClosingParenthesis));
    assert_eq!(parse_expr("(1 ?)"), failure(3, Expected::ClosingParenthesis));
    assert_eq!(parse_expr("(1 (2 3)"), failure(8, Expected::ClosingParenthesis));
    assert_eq!(parse_expr("(1 (2 ?) 3)"), failure(6, Expected::ClosingParenthesis));
    assert_eq!(parse_list("(1"), failure(2, Expected::ClosingParenthesis));
}

#[test]
fn where_no_expression_begins() {
    assert_eq!(parse_expr(""), failure(0, Expected::Expression));
    assert_eq!(parse_expr("?"), failure(0, Expected::Expression));
    assert_eq!(parse_expr(")"), failure(0, Expected::Expression));
    assert_eq!(parse_expr(" 1"), failure(0, Expected::Expression));
    assert_eq!(parse_expr("   "), failure(0, Expected::Expression));
    assert_eq!(parse_expr("."), failure(0, Expected::Expression));
    assert_eq!(parse_expr("#b101"), failure(0, Expected::Expression));
    assert_eq!(parse_expr("_x"), failure(0, Expected::Expression));
}

#[test]
fn each_form_says_what_it_expected() {
    assert_eq!(parse_float("x"), failure(0, Expected::Number));
    assert_eq!(parse_float(""), failure(0, Expected::Number));
    assert_eq!(parse_float("+"), failure(0, Expected::Number));
    assert_eq!(parse_op("1"), failure(0, Expected::Operator));
    assert_eq!(parse_op(""), failure(0, Expected::Operator));
    assert_eq!(parse_symbol("1"), failure(0, Expected::Symbol));
    assert_eq!(parse_symbol(""), failure(0, Expected::Symbol));
    assert_eq!(parse_list("1"), failure(0, Expected::OpeningParenthesis));
    assert_eq!(parse_list(""), failure(0, Expected::OpeningParenthesis));
}

#[test]
fn each_form_reads_only_itself() {
    assert_eq!(parse_float("1.5 x"), Ok((" x", number(1.5))));
    assert_eq!(parse_op("+1"), Ok(("1", Operation(SchemeOp::Add))));
    assert_eq!(parse_symbol("abc"), Ok(("", symbol("abc"))));
    assert_eq!(parse_list(" (a) b"), Ok((" b", List(vec![symbol("a")]))));
}

#[test]
fn positions_count_characters() {
    assert_eq!(parse_expr("é"), failure(0, Expected::Expression));
    assert_eq!(parse_expr("(λ)"), failure(1, Expected::ClosingParenthesis));
    assert_eq!(parse_expr("abcé"), Ok(("é", symbol("abc"))));
    assert_eq!(
        parse_expr("(1 2) ünï"),
        Ok((" ünï", List(vec![number(1.0), number(2.0)])))
    );
    assert_eq!(parse_expr("(a é)"), failure(3, Expected::ClosingParenthesis));
    assert_eq!(parse_expr("１"), failure(0, Expected::Expression));
}

#[test]
fn integers_are_read_exactly_or_to_the_nearest() {
    assert_eq!(parse_expr("0"), Ok(("", number(0.0))));
    assert_eq!(parse_expr("1"), Ok(("", number(1.0))));
    assert_eq!(parse_expr("+1"), Ok(("", number(1.0))));
    assert_eq!(parse_expr("-1"), Ok(("", number(-1.0))));
    assert_eq!(parse_expr("-0"), Ok(("", number(-0.0))));
    assert_eq!(parse_expr("+0"), Ok(("", number(0.0))));
    assert_eq!(parse_expr("000123"), Ok(("", number(123.0))));
    assert_eq!(parse_expr("9007199254740992"), Ok(("", number(9007199254740992.0))));
    assert_eq!(parse_expr("9007199254740993"), Ok(("", number(9007199254740992.0))));
    assert_eq!(parse_expr("9007199254740995"), Ok(("", number(9007199254740996.0))));
    assert_eq!(parse_expr("-9007199254740995"), Ok(("", number(-9007199254740996.0))));
    assert_eq!(parse_expr("9223372036854775807"), Ok(("", number(9223372036854775808.0))));
    assert_eq!(parse_expr("00000000000000000000000000000000000000007"), Ok(("", number(7.0))));
    let largest = format!("{:.0}", f64::MAX);
    assert_eq!(largest.len(), 309);
    assert_eq!(parse_expr(&largest), Ok(("", number(f64::MAX))));
}

#[test]
fn literals_are_read_as_the_machine_reads_them() {
    let mut texts: Vec<String> = Vec::new();
    for value in 0..2000u64 {
        texts.push(value.to_string());
        texts.push(format!("{}.{}", value / 7, value));
        texts.push(format!("-.{}e{}", value, value % 40));
        texts.push(format!("{}.E-{}", value, value % 400));
    }
    let mut state: u64 = 0x9E37_79B9_7F4A_7C15;
    for _ in 0..3000 {
        state ^= state << 13;
        state ^= state >> 7;
        state ^= state << 17;
        texts.push((state >> (state % 64)).to_string());
        texts.push(format!("-{}", state >> 1));
        texts.push(format!("+{}", state));
        texts.push(format!("{}.{}e{}", state % 1000, state >> 20, (state % 700) as i64 - 350));
        texts.push(format!("{:e}", f64::from_bits(state & 0x7FEF_FFFF_FFFF_FFFF)));
        texts.push(format!("{}", f64::from_bits(0x3FF0_0000_0000_0000 | (state >> 12))));
    }
    for shift in 0..64 {
        for delta in [-2i128, -1, 0, 1, 2] {
            let value = (1i128 << shift) + delta;
            if value >= 0 {
                texts.push(value.to_string());
                texts.push(format!("-{}", value));
            }
        }
    }
    for text in [
        "9223372036854775807",
        "9223372036854775808",
        "18446744073709551615",
        "99999999999999999999999999",
        "0.1",
        "0.2",
        "0.30000000000000004",
        "1e22",
        "1e23",
        "1e308",
        "1.7976931348623157e308",
        "1.7976931348623158e308",
        "1.7976931348623159e308",
        "1e309",
        "4.9e-324",
        "5e-324",
        "2.4703282292062327e-324",
        "2.4703282292062328e-324",
        "2.2250738585072014e-308",
        "2.2250738585072011e-308",
        "1e-400",
        "0e999999999999999999999",
        "1e999999999999999999999",
        "1e-999999999999999999999",
        "0.000000000000000000000000000000000000000000001e45",
        "123456789012345678901234567890123456789012345678901234567890e-60",
    ] {
        texts.push(text.to_string());
    }
    for text in texts {
        let expected = text.parse::<f64>().unwrap();
        assert_eq!(parse_expr(&text), Ok(("", number(expected))), "{}", text);
    }
}
