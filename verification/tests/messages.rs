use mahampreter::error::decimal;
use mahampreter::{ArithErr, EvalError, Expected, ParseError, SchemeOp, ValueErr};

#[test]
fn value_errors_in_words() {
    assert_eq!(
        ValueErr::UnknownBase.message(),
        "Only decimal, octal (#o), and binary (#b) are supported."
    );
    assert_eq!(ValueErr::OutOfBounds.message(), "Number is too large to be supported.");
    assert_eq!(
        ValueErr::UnknownFunction("foo".to_string()).message(),
        "Unknown function: foo\n Have you forgotten something?"
    );
    assert_eq!(
        ValueErr::UnknownFunction(String::new()).message(),
        "Unknown function: \n Have you forgotten something?"
    );
}

#[test]
fn arithmetic_errors_in_words() {
    assert_eq!(ArithErr::DivideByZero.message(), "Illegal divide by zero operation.");
    assert_eq!(ArithErr::BadOperator(SchemeOp::Lt).message(), "< is not a valid operator.");
    assert_eq!(ArithErr::BadOperator(SchemeOp::Geq).message(), ">= is not a valid operator.");
    assert_eq!(
        ArithErr::WrongArity(SchemeOp::Sub, 3).message(),
        "- takes exactly 2 operands, not 3."
    );
    assert_eq!(
        ArithErr::WrongArity(SchemeOp::Mod, 0).message(),
        "% takes exactly 2 operands, not 0."
    );
    assert_eq!(
        ArithErr::WrongArity(SchemeOp::Div, 120).message(),
        "/ takes exactly 2 operands, not 120."
    );
    assert_eq!(ArithErr::NonOperatorHead.message(), "The head of a list is not an operator.");
    assert_eq!(ArithErr::NonNumericOperand.message(), "An operand is not a number.");
}

#[test]
fn evaluation_errors_say_what_their_cause_says() {
    assert_eq!(
        EvalError::Arith(ArithErr::DivideByZero).message(),
        "Illegal divide by zero operation."
    );
    assert_eq!(
        EvalError::Value(ValueErr::UnknownFunction("x".to_string())).message(),
        "Unknown function: x\n Have you forgotten something?"
    );
    assert_eq!(
        EvalError::Arith(ArithErr::BadOperator(SchemeOp::Eq)).message(),
        "= is not a valid operator."
    );
}

#[test]
fn parse_errors_in_words() {
    let message = |position, expected| ParseError { position, expected }.message();
    assert_eq!(message(0, Expected::Expression), "Expected an expression at position 0.");
    assert_eq!(message(7, Expected::Number), "Expected a number at position 7.");
    assert_eq!(message(10, Expected::Operator), "Expected an operator at position 10.");
    assert_eq!(message(99, Expected::Symbol), "Expected a symbol at position 99.");
    assert_eq!(
        message(0, Expected::OpeningParenthesis),
        "Expected an opening parenthesis at position 0."
    );
    assert_eq!(
        message(12345, Expected::ClosingParenthesis),
        "Expected a closing parenthesis at position 12345."
    );
    assert_eq!(
        message(3, Expected::ExponentDigits),
        "Expected the digits of an exponent at position 3."
    );
}

#[test]
fn numbers_in_decimal() {
    assert_eq!(decimal(0), "0");
    assert_eq!(decimal(7), "7");
    assert_eq!(decimal(10), "10");
    assert_eq!(decimal(1234567890), "1234567890");
    assert_eq!(decimal(u64::MAX), u64::MAX.to_string());
    for n in 0..2000 {
        assert_eq!(decimal(n), n.to_string());
    }
}

#[test]
fn operators_as_they_are_written() {
    assert_eq!(SchemeOp::Div.text(), "/");
    assert_eq!(SchemeOp::Mul.text(), "*");
    assert_eq!(SchemeOp::Add.text(), "+");
    assert_eq!(SchemeOp::Sub.text(), "-");
    assert_eq!(SchemeOp::Mod.text(), "%");
    assert_eq!(SchemeOp::Gt.text(), ">");
    assert_eq!(SchemeOp::Lt.text(), "<");
    assert_eq!(SchemeOp::Leq.text(), "<=");
    assert_eq!(SchemeOp::Geq.text(), ">=");
    assert_eq!(SchemeOp::Eq.text(), "=");
}
