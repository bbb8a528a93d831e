use mahampreter::SchemeExpr::{Float, Integer, List, Operation, Symbol};
use mahampreter::{
    eval_op, evaluate, parse_expr, ArithErr, EvalError, SchemeExpr, SchemeOp, ValueErr,
};

fn number(value: f64) -> SchemeExpr {
    Float(value.to_bits())
}

fn run(text: &str) -> Result<SchemeExpr, EvalError> {
    let (rest, parsed) = parse_expr(text).unwrap();
    assert_eq!(rest, "");
    evaluate(parsed)
}

fn arith(error: ArithErr) -> Result<SchemeExpr, EvalError> {
    Err(EvalError::Arith(error))
}

fn unbound(name: &str) -> Result<SchemeExpr, EvalError> {
    Err(EvalError::Value(ValueErr::UnknownFunction(name.to_string())))
}

#[test]
fn addition_of_two_numbers() {
    assert_eq!(run("(+ 1 2)"), Ok(number(3.0)));
    assert_eq!(run("(+ 1.0 2.0)"), Ok(number(3.0)));
}

#[test]
fn addition_takes_any_number_of_operands() {
    assert_eq!(run("(+)"), Ok(number(0.0)));
    assert_eq!(run("(+ 5)"), Ok(number(5.0)));
    assert_eq!(run("(+ 1 2 3 4)"), Ok(number(10.0)));
    assert_eq!(run("(+ 0.1 0.2)"), Ok(number(0.1 + 0.2)));
    assert_eq!(run("(+ 1e308 1e308)"), Ok(number(f64::INFINITY)));
    assert_eq!(run("(+ -1.5 1.5)"), Ok(number(0.0)));
}

#[test]
fn addition_goes_from_left_to_right() {
    assert_eq!(run("(+ 1e16 1 -1e16)"), Ok(number((0.0 + 1e16 + 1.0) + -1e16)));
    assert_eq!(run("(+ 1e16 -1e16 1)"), Ok(number(1.0)));
    assert_eq!(run("(+ 0.1 0.2 0.3)"), Ok(number(((0.0 + 0.1) + 0.2) + 0.3)));
}

#[test]
fn nested_application() {
    assert_eq!(run("(+ 1 2 (+ 1 1 1))"), Ok(number(6.0)));
    assert_eq!(run("(* (+ 1 2) (- 5 3))"), Ok(number(6.0)));
    assert_eq!(run("(/ (* 7 3) (+ 1 1))"), Ok(number(10.0)));
    assert_eq!(run("(+ (+ (+ (+ 1))))"), Ok(number(1.0)));
    assert_eq!(run("(% (+ 5 5) (- 4 1))"), Ok(number(1.0)));
}

#[test]
fn multiplication_with_a_zero_is_zero() {
    assert_eq!(run("(* 5 0 9)"), Ok(number(0.0)));
    assert_eq!(run("(* 0 5 9)"), Ok(number(0.0)));
    assert_eq!(run("(* 5 9 0)"), Ok(number(0.0)));
    assert_eq!(run("(* 0)"), Ok(number(0.0)));
    assert_eq!(run("(* -5 0)"), Ok(number(0.0)));
    assert_eq!(run("(* 5 -0.0 9)"), Ok(number(0.0)));
    assert_eq!(run("(* 0 1e999)"), Ok(number(0.0)));
    assert_eq!(run("(* 1e999 0)"), Ok(number(0.0)));
    assert_eq!(run("(* 3 (- 2 2) 1e999)"), Ok(number(0.0)));
}

#[test]
fn multiplication_stops_at_a_zero() {
    // Without the stop, a zero times an infinity would be no number.
    let operands = vec![number(2.0), number(f64::INFINITY), number(0.0), number(f64::NAN)];
    assert_eq!(eval_op(SchemeOp::Mul, operands), Ok(0.0f64.to_bits()));
    let operands = vec![number(0.0), number(f64::INFINITY)];
    assert_eq!(eval_op(SchemeOp::Mul, operands), Ok(0.0f64.to_bits()));
    let operands = vec![number(f64::INFINITY), number(-0.0)];
    assert_eq!(eval_op(SchemeOp::Mul, operands), Ok(0.0f64.to_bits()));
}

#[test]
fn multiplication_takes_any_number_of_operands() {
    assert_eq!(run("(*)"), Ok(number(1.0)));
    assert_eq!(run("(* 7)"), Ok(number(7.0)));
    assert_eq!(run("(* 2 3 4)"), Ok(number(24.0)));
    assert_eq!(run("(* -2 3)"), Ok(number(-6.0)));
    assert_eq!(run("(* 0.5 0.5)"), Ok(number(0.25)));
    assert_eq!(run("(* 1e200 1e200)"), Ok(number(f64::INFINITY)));
}

#[test]
fn division_truncates() {
    assert_eq!(run("(/ 7 2)"), Ok(number(3.0)));
    assert_eq!(run("(/ -7 2)"), Ok(number(-3.0)));
    assert_eq!(run("(/ 7 -2)"), Ok(number(-3.0)));
    assert_eq!(run("(/ 6 3)"), Ok(number(2.0)));
    assert_eq!(run("(/ 1 3)"), Ok(number(0.0)));
    assert_eq!(run("(/ -1 3)"), Ok(number(0.0)));
    assert_eq!(run("(/ 0 5)"), Ok(number(0.0)));
    assert_eq!(run("(/ -0.0 5)"), Ok(number(0.0)));
    assert_eq!(run("(/ 9.99 1)"), Ok(number(9.0)));
    assert_eq!(run("(/ 1e20 1)"), Ok(number(9223372036854775807i64 as f64)));
    assert_eq!(run("(/ -1e20 1)"), Ok(number(i64::MIN as f64)));
    assert_eq!(run("(/ 1e300 1e-300)"), Ok(number(9223372036854775808.0)));
    assert_eq!(run("(/ 1e15 3)"), Ok(number(333333333333333.0)));
}

#[test]
fn division_by_zero_fails() {
    assert_eq!(run("(/ 1 0)"), arith(ArithErr::DivideByZero));
    assert_eq!(run("(/ 1 -0.0)"), arith(ArithErr::DivideByZero));
    assert_eq!(run("(/ 0 0)"), arith(ArithErr::DivideByZero));
    assert_eq!(run("(/ 1 (- 2 2))"), arith(ArithErr::DivideByZero));
    assert_eq!(run("(/ 1 1e-999)"), arith(ArithErr::DivideByZero));
    assert_eq!(run("(+ 1 (/ 1 0))"), arith(ArithErr::DivideByZero));
}

#[test]
fn subtraction_is_binary() {
    assert_eq!(run("(- 5 3)"), Ok(number(2.0)));
    assert_eq!(run("(- 1 2)"), Ok(number(-1.0)));
    assert_eq!(run("(- 0.5 0.25)"), Ok(number(0.25)));
    assert_eq!(run("(- 1 2 3)"), arith(ArithErr::WrongArity(SchemeOp::Sub, 3)));
    assert_eq!(run("(- 1)"), arith(ArithErr::WrongArity(SchemeOp::Sub, 1)));
    assert_eq!(run("(-)"), arith(ArithErr::WrongArity(SchemeOp::Sub, 0)));
}

#[test]
fn division_and_remainder_are_binary() {
    assert_eq!(run("(/ 7)"), arith(ArithErr::WrongArity(SchemeOp::Div, 1)));
    assert_eq!(run("(/ 1 2 3)"), arith(ArithErr::WrongArity(SchemeOp::Div, 3)));
    assert_eq!(run("(/)"), arith(ArithErr::WrongArity(SchemeOp::Div, 0)));
    assert_eq!(run("(/ 1 0 3)"), arith(ArithErr::WrongArity(SchemeOp::Div, 3)));
    assert_eq!(run("(% 7)"), arith(ArithErr::WrongArity(SchemeOp::Mod, 1)));
    assert_eq!(run("(% 1 2 3)"), arith(ArithErr::WrongArity(SchemeOp::Mod, 3)));
    assert_eq!(run("(%)"), arith(ArithErr::WrongArity(SchemeOp::Mod, 0)));
}

#[test]
fn remainder_has_the_sign_of_the_dividend() {
    assert_eq!(run("(% 7 3)"), Ok(number(1.0)));
    assert_eq!(run("(% -7 3)"), Ok(number(-1.0)));
    assert_eq!(run("(% 7 -3)"), Ok(number(1.0)));
    assert_eq!(run("(% -7 -3)"), Ok(number(-1.0)));
    assert_eq!(run("(% 7.5 2)"), Ok(number(1.5)));
    assert_eq!(run("(% 6 3)"), Ok(number(0.0)));
    assert_eq!(run("(% -6 3)"), Ok(number(-0.0)));
    match run("(% 1 0)") {
        Ok(Float(bits)) => assert!(f64::from_bits(bits).is_nan()),
        other => panic!("{:?}", other),
    }
}

#[test]
fn comparisons_have_no_rule() {
    assert_eq!(run("(> 1 2)"), arith(ArithErr::BadOperator(SchemeOp::Gt)));
    assert_eq!(run("(< 1 2)"), arith(ArithErr::BadOperator(SchemeOp::Lt)));
    assert_eq!(run("(<= 1 2)"), arith(ArithErr::BadOperator(SchemeOp::Leq)));
    assert_eq!(run("(>= 1 2)"), arith(ArithErr::BadOperator(SchemeOp::Geq)));
    assert_eq!(run("(= 1 2)"), arith(ArithErr::BadOperator(SchemeOp::Eq)));
    assert_eq!(run("(=)"), arith(ArithErr::BadOperator(SchemeOp::Eq)));
}

#[test]
fn numbers_and_operators_are_their_own_values() {
    for value in [0.0, -0.0, 1.5, -3.0, f64::INFINITY, f64::NAN, f64::MAX, 5e-324] {
        assert_eq!(evaluate(number(value)), Ok(number(value)));
    }
    for value in [0, 1, -1, i64::MAX, i64::MIN] {
        assert_eq!(evaluate(Integer(value)), Ok(Integer(value)));
    }
    for op in [
        SchemeOp::Div,
        SchemeOp::Mul,
        SchemeOp::Add,
        SchemeOp::Sub,
        SchemeOp::Mod,
        SchemeOp::Gt,
        SchemeOp::Lt,
        SchemeOp::Leq,
        SchemeOp::Geq,
        SchemeOp::Eq,
    ] {
        assert_eq!(evaluate(Operation(op)), Ok(Operation(op)));
    }
    assert_eq!(run("42"), Ok(number(42.0)));
    assert_eq!(run("+"), Ok(Operation(SchemeOp::Add)));
}

#[test]
fn a_value_evaluates_to_itself_again() {
    for text in ["(+ 1 2)", "(* 2 3 4)", "(/ 7 2)", "(% 7 3)", "(- 1 2)", "1.5", "<="] {
        let first = run(text).unwrap();
        assert_eq!(evaluate(first.clone()), Ok(first));
    }
}

#[test]
fn symbols_are_unbound() {
    assert_eq!(run("x"), unbound("x"));
    assert_eq!(run("foo"), unbound("foo"));
    assert_eq!(run("NIL"), unbound("NIL"));
    assert_eq!(run("(foo 1 2)"), unbound("foo"));
    assert_eq!(run("(+ 1 x)"), unbound("x"));
    assert_eq!(run("(+ x y)"), unbound("x"));
    assert_eq!(run("(+ 1 (* 2 y))"), unbound("y"));
    assert_eq!(evaluate(Symbol(String::new())), unbound(""));
}

#[test]
fn the_empty_list_is_nil() {
    assert_eq!(run("()"), Ok(Symbol("NIL".to_string())));
    assert_eq!(run("(   )"), Ok(Symbol("NIL".to_string())));
    assert_eq!(run(" ( \t\n)"), Ok(Symbol("NIL".to_string())));
    assert_eq!(evaluate(List(vec![])), Ok(Symbol("NIL".to_string())));
}

#[test]
fn the_head_must_be_an_operator() {
    assert_eq!(run("(1 2 3)"), arith(ArithErr::NonOperatorHead));
    assert_eq!(run("(() 1)"), arith(ArithErr::NonOperatorHead));
    assert_eq!(run("((+ 1 2) 3)"), arith(ArithErr::NonOperatorHead));
    assert_eq!(run("(1)"), arith(ArithErr::NonOperatorHead));
    assert_eq!(
        evaluate(List(vec![Integer(1), number(2.0)])),
        arith(ArithErr::NonOperatorHead)
    );
}

#[test]
fn operands_must_be_numbers() {
    assert_eq!(run("(+ 1 ())"), arith(ArithErr::NonNumericOperand));
    assert_eq!(run("(+ 1 +)"), arith(ArithErr::NonNumericOperand));
    assert_eq!(run("(* () 0)"), arith(ArithErr::NonNumericOperand));
    assert_eq!(run("(< () 1)"), arith(ArithErr::NonNumericOperand));
    assert_eq!(
        eval_op(SchemeOp::Add, vec![number(1.0), Symbol("x".to_string())]),
        Err(ArithErr::NonNumericOperand)
    );
    assert_eq!(
        eval_op(SchemeOp::Mul, vec![number(0.0), List(vec![])]),
        Err(ArithErr::NonNumericOperand)
    );
    assert_eq!(
        eval_op(SchemeOp::Sub, vec![Operation(SchemeOp::Sub)]),
        Err(ArithErr::NonNumericOperand)
    );
}

#[test]
fn the_first_failure_decides() {
    assert_eq!(run("(+ (/ 1 0) x)"), arith(ArithErr::DivideByZero));
    assert_eq!(run("(+ x (/ 1 0))"), unbound("x"));
    assert_eq!(run("(foo (/ 1 0))"), unbound("foo"));
    assert_eq!(run("(1 (/ 1 0))"), arith(ArithErr::NonOperatorHead));
    assert_eq!(run("(< (/ 1 0) 1)"), arith(ArithErr::DivideByZero));
    assert_eq!(run("(- 1 2 x)"), unbound("x"));
    assert_eq!(run("(- () 2 3)"), arith(ArithErr::NonNumericOperand));
    assert_eq!(run("(/ (- 1) 0)"), arith(ArithErr::WrongArity(SchemeOp::Sub, 1)));
    assert_eq!(run("(* 0 (/ 1 0))"), arith(ArithErr::DivideByZero));
}

#[test]
fn integers_are_converted_before_use() {
    assert_eq!(
        evaluate(List(vec![Operation(SchemeOp::Add), Integer(2), number(0.5)])),
        Ok(number(2.5))
    );
    assert_eq!(
        evaluate(List(vec![Operation(SchemeOp::Div), Integer(7), Integer(2)])),
        Ok(number(3.0))
    );
    assert_eq!(
        evaluate(List(vec![Operation(SchemeOp::Div), Integer(7), Integer(0)])),
        arith(ArithErr::DivideByZero)
    );
    assert_eq!(
        evaluate(List(vec![Operation(SchemeOp::Mul), Integer(3), Integer(0), Integer(4)])),
        Ok(number(0.0))
    );
    assert_eq!(
        eval_op(SchemeOp::Sub, vec![Integer(i64::MAX), Integer(1)]),
        Ok((i64::MAX as f64 - 1.0).to_bits())
    );
    assert_eq!(eval_op(SchemeOp::Add, vec![Integer(-3)]), Ok((-3.0f64).to_bits()));
}

#[test]
fn the_table_on_reduced_operands() {
    assert_eq!(eval_op(SchemeOp::Add, vec![]), Ok(0.0f64.to_bits()));
    assert_eq!(eval_op(SchemeOp::Mul, vec![]), Ok(1.0f64.to_bits()));
    assert_eq!(
        eval_op(SchemeOp::Add, vec![number(1.0), number(2.0)]),
        Ok(3.0f64.to_bits())
    );
    assert_eq!(
        eval_op(SchemeOp::Sub, vec![number(1.0), number(2.0)]),
        Ok((-1.0f64).to_bits())
    );
    assert_eq!(
        eval_op(SchemeOp::Mul, vec![number(1.5), number(2.0)]),
        Ok(3.0f64.to_bits())
    );
    assert_eq!(
        eval_op(SchemeOp::Div, vec![number(-9.0), number(2.0)]),
        Ok((-4.0f64).to_bits())
    );
    assert_eq!(
        eval_op(SchemeOp::Mod, vec![number(9.0), number(2.0)]),
        Ok(1.0f64.to_bits())
    );
    assert_eq!(
        eval_op(SchemeOp::Div, vec![number(1.0), number(0.0)]),
        Err(ArithErr::DivideByZero)
    );
    assert_eq!(
        eval_op(SchemeOp::Sub, vec![number(1.0)]),
        Err(ArithErr::WrongArity(SchemeOp::Sub, 1))
    );
    assert_eq!(
        eval_op(SchemeOp::Geq, vec![number(1.0), number(2.0)]),
        Err(ArithErr::BadOperator(SchemeOp::Geq))
    );
}

#[test]
fn a_copy_evaluates_alike() {
    let (_, parsed) = parse_expr("(+ 1 2 (* 3 4))").unwrap();
    let copy = parsed.clone();
    assert_eq!(copy, parsed);
    assert_eq!(evaluate(parsed), Ok(number(15.0)));
    assert_eq!(evaluate(copy.clone()), Ok(number(15.0)));
    assert_eq!(parse_expr("(+ 1 2 (* 3 4))"), Ok(("", copy)));
}

#[test]
fn deep_nesting_is_evaluated() {
    let mut text = String::from("1");
    for _ in 0..300 {
        text = format!("(+ 1 {})", text);
    }
    assert_eq!(run(&text), Ok(number(301.0)));
}
