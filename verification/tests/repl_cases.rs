use mahampreter::SchemeExpr::{Float, List, Operation, Symbol};
use mahampreter::SchemeOp::Add;
use mahampreter::{evaluate, parse_expr, SchemeExpr};

#[test]
fn main_double_numbers_list() {
    let result = "(+ 1 2)";

    assert_eq!(
        parse_expr(result),
        Ok((
            "",
            List([Operation(Add), Float(1.0f64.to_bits()), Float(2.0f64.to_bits())].to_vec())
        ))
    );
}

#[test]
fn main_empty_list() {
    let result = "()";

    assert_eq!(parse_expr(result), Ok(("", List([].to_vec()))));
}

#[test]
fn main_nested_execution() {
    let input = "(+ 1 2 (+ 1 1 1))";
    let (_, parsed) = parse_expr(input).unwrap();

    assert_eq!(evaluate(parsed), Ok(SchemeExpr::Float(6.0f64.to_bits())));
}

#[test]
fn main_floating_point_addition() {
    let input = "(+ 1.0 2.0)";
    let (_, parsed) = parse_expr(input).unwrap();
    assert_eq!(evaluate(parsed), Ok(SchemeExpr::Float(3.0f64.to_bits())));
}

#[test]
fn main_nil_case() {
    let input = "()";
    let (_, parsed) = parse_expr(input).unwrap();
    assert_eq!(evaluate(parsed), Ok(SchemeExpr::Symbol("NIL".to_string())));
}

#[test]
fn test_double_numbers_list() {
    let result = "(+ 1 2)";

    assert_eq!(
        parse_expr(result),
        Ok((
            "",
            List([Operation(Add), Float(1.0f64.to_bits()), Float(2.0f64.to_bits())].to_vec())
        ))
    );
}

#[test]
fn test_empty_list() {
    let result = "()";

    assert_eq!(parse_expr(result), Ok(("", List([].to_vec()))));
}

#[test]
fn test_nested_execution() {
    let input = "(+ 1 2 (+ 1 1 1))";
    let (_, parsed) = parse_expr(input).unwrap();

    assert_eq!(evaluate(parsed), Ok(SchemeExpr::Float(6.0f64.to_bits())));
}

#[test]
fn test_floating_point_addition() {
    let input = "(+ 1.0 2.0)";
    let (_, parsed) = parse_expr(input).unwrap();
    assert_eq!(evaluate(parsed), Ok(SchemeExpr::Float(3.0f64.to_bits())));
}

#[test]
fn test_nil_case() {
    let input = "()";
    let (_, parsed) = parse_expr(input).unwrap();
    assert_eq!(evaluate(parsed), Ok(SchemeExpr::Symbol("NIL".to_string())));
}

#[test]
fn symbol_in_list_stays_a_symbol() {
    let (rest, parsed) = parse_expr("(foo 1)").unwrap();
    assert_eq!(rest, "");
    assert_eq!(parsed, List(vec![Symbol("foo".to_string()), Float(1.0f64.to_bits())]));
}
