use mahampreter::{
    interpret, pretty, reply, ArithErr, EvalError, Expected, Failure, ParseError,
    SchemeExpr, SchemeOp, ValueErr,
};

#[test]
fn a_line_is_parsed_and_evaluated() {
    assert_eq!(interpret("(+ 1 2)"), Ok(SchemeExpr::Float(3.0f64.to_bits())));
    assert_eq!(interpret("(+ 1 2 (+ 1 1 1))"), Ok(SchemeExpr::Float(6.0f64.to_bits())));
    assert_eq!(interpret("()"), Ok(SchemeExpr::Symbol("NIL".to_string())));
    assert_eq!(interpret("7"), Ok(SchemeExpr::Float(7.0f64.to_bits())));
    assert_eq!(interpret("%"), Ok(SchemeExpr::Operation(SchemeOp::Mod)));
}

#[test]
fn what_follows_the_expression_is_not_looked_at() {
    assert_eq!(interpret("(+ 1 2) (/ 1 0)"), Ok(SchemeExpr::Float(3.0f64.to_bits())));
    assert_eq!(interpret("(* 2 3)))"), Ok(SchemeExpr::Float(6.0f64.to_bits())));
    assert_eq!(interpret("1 2 3"), Ok(SchemeExpr::Float(1.0f64.to_bits())));
    assert_eq!(reply("(+ 1 2) ?"), "3");
}

#[test]
fn a_turn_fails_at_parsing_or_at_evaluating() {
    assert_eq!(
        interpret(""),
        Err(Failure::Parse(ParseError { position: 0, expected: Expected::Expression }))
    );
    assert_eq!(
        interpret("(+ 1 2"),
        Err(Failure::Parse(ParseError { position: 6, expected: Expected::ClosingParenthesis }))
    );
    assert_eq!(
        interpret("(+ 1 2e)"),
        Err(Failure::Parse(ParseError { position: 7, expected: Expected::ExponentDigits }))
    );
    assert_eq!(
        interpret("(/ 1 0)"),
        Err(Failure::Eval(EvalError::Arith(ArithErr::DivideByZero)))
    );
    assert_eq!(
        interpret("(- 1 2 3)"),
        Err(Failure::Eval(EvalError::Arith(ArithErr::WrongArity(SchemeOp::Sub, 3))))
    );
    assert_eq!(
        interpret("x"),
        Err(Failure::Eval(EvalError::Value(ValueErr::UnknownFunction("x".to_string()))))
    );
}

#[test]
fn the_answer_to_a_line() {
    assert_eq!(reply("(+ 1 2)"), "3");
    assert_eq!(reply("(+ 1.0 2.0)"), "3");
    assert_eq!(reply("(+ 1 2 (+ 1 1 1))"), "6");
    assert_eq!(reply("(* 5 0 9)"), "0");
    assert_eq!(reply("(/ 7 2)"), "3");
    assert_eq!(reply("(% 7.5 2)"), "1.5");
    assert_eq!(reply("()"), "NIL");
    assert_eq!(reply("(/ 1 0)"), "Illegal divide by zero operation.");
    assert_eq!(reply("(- 1 2 3)"), "- takes exactly 2 operands, not 3.");
    assert_eq!(reply("(<= 1 2)"), "<= is not a valid operator.");
    assert_eq!(
        reply("foo"),
        "Unknown function: foo\n Have you forgotten something?"
    );
    assert_eq!(reply("(1 2)"), "The head of a list is not an operator.");
    assert_eq!(reply("(+ 1 ())"), "An operand is not a number.");
    assert_eq!(reply("(+ 1"), "Expected a closing parenthesis at position 4.");
    assert_eq!(reply("?"), "Expected an expression at position 0.");
    assert_eq!(
        reply("(+ 1e+ 2)"),
        "Expected the digits of an exponent at position 6."
    );
}

#[test]
fn a_line_written_anew() {
    assert_eq!(pretty("(+   1\t2.50 )"), "(+ 1 2.5)");
    assert_eq!(pretty(" ( ) "), "()");
    assert_eq!(pretty("(/ 1 0)"), "(/ 1 0)");
    assert_eq!(pretty("(a (b (c)))"), "(a (b (c)))");
    assert_eq!(pretty("(a"), "Expected a closing parenthesis at position 2.");
}

#[test]
fn failures_in_words() {
    assert_eq!(
        Failure::Parse(ParseError { position: 3, expected: Expected::Number }).message(),
        "Expected a number at position 3."
    );
    assert_eq!(
        Failure::Eval(EvalError::Arith(ArithErr::DivideByZero)).message(),
        "Illegal divide by zero operation."
    );
}

#[test]
fn each_turn_stands_alone() {
    assert_eq!(reply("(/ 1 0)"), "Illegal divide by zero operation.");
    assert_eq!(reply("(+ 1 2)"), "3");
    assert_eq!(reply("("), "Expected a closing parenthesis at position 1.");
    assert_eq!(reply("(+ 1 2)"), "3");
}

#[test]
fn an_answer_can_be_put_again() {
    for line in ["(+ 0.1 0.2)", "(* 1e200 1e-190)", "(- 0 2.5)", "(/ 1e300 7)", "(% 7.5 2)", "(* -1 0.0)"] {
        let answer = reply(line);
        assert_eq!(interpret(&answer), interpret(line), "{}", line);
        assert_eq!(reply(&answer), answer, "{}", line);
    }
    assert_eq!(reply("(+ 0.1 0.2)"), "0.30000000000000004");
    assert_eq!(reply("0.30000000000000004"), "0.30000000000000004");
}
