//! The failures that parsing and evaluation report, and what they say.

use vstd::prelude::*;
use crate::expr::{spelling, SchemeOp};

verus! {

/// A failure that concerns a value.
#[derive(Debug, PartialEq, Eq)]
pub enum ValueErr {
    /// A number is written in a base that is not supported.
    UnknownBase,
    /// A number is too large.
    OutOfBounds,
    /// A name that nothing binds.
    UnknownFunction(String),
}

/// A failure that concerns the application of an operator.
#[derive(Debug, PartialEq, Eq, Structural, Clone, Copy)]
pub enum ArithErr {
    /// The divisor is zero.
    DivideByZero,
    /// The operator has no reduction rule.
    BadOperator(SchemeOp),
    /// The operator takes two operands and was given another number of them.
    WrongArity(SchemeOp, usize),
    /// The head of an application does not reduce to an operator.
    NonOperatorHead,
    /// An operand does not reduce to a number.
    NonNumericOperand,
}

/// Every failure of evaluation.
#[derive(Debug, PartialEq, Eq)]
pub enum EvalError {
    Value(ValueErr),
    Arith(ArithErr),
}

/// What was expected where parsing failed.
#[derive(Debug, PartialEq, Eq, Structural, Clone, Copy)]
pub enum Expected {
    /// An expression of any form.
    Expression,
    /// A number.
    Number,
    /// An operator.
    Operator,
    /// A symbol.
    Symbol,
    /// The parenthesis that opens a list.
    OpeningParenthesis,
    /// The parenthesis that closes a list.
    ClosingParenthesis,
    /// The digits of an exponent.
    ExponentDigits,
}

/// A failure of parsing: the position, counted in characters from the start
/// of the text, and what was expected there.
#[derive(Debug, PartialEq, Eq, Structural, Clone, Copy)]
pub struct ParseError {
    pub position: usize,
    pub expected: Expected,
}

/// The model of a [`ValueErr`]: the name is a sequence of characters.
pub enum ValueErrView {
    UnknownBase,
    OutOfBounds,
    UnknownFunction(Seq<char>),
}

/// The model of an [`EvalError`].
pub enum EvalErrorView {
    Value(ValueErrView),
    Arith(ArithErr),
}

impl View for ValueErr {
    type V = ValueErrView;

    open spec fn view(&self) -> ValueErrView {
        match self {
            ValueErr::UnknownBase => ValueErrView::UnknownBase,
            ValueErr::OutOfBounds => ValueErrView::OutOfBounds,
            ValueErr::UnknownFunction(name) => ValueErrView::UnknownFunction(name@),
        }
    }
}

impl View for EvalError {
    type V = EvalErrorView;

    open spec fn view(&self) -> EvalErrorView {
        match self {
            EvalError::Value(error) => EvalErrorView::Value(error@),
            EvalError::Arith(error) => EvalErrorView::Arith(*error),
        }
    }
}

/// The character of a decimal digit.
pub open spec fn digit_char(d: nat) -> char {
    if d == 0 {
        '0'
    } else if d == 1 {
        '1'
    } else if d == 2 {
        '2'
    } else if d == 3 {
        '3'
    } else if d == 4 {
        '4'
    } else if d == 5 {
        '5'
    } else if d == 6 {
        '6'
    } else if d == 7 {
        '7'
    } else if d == 8 {
        '8'
    } else {
        '9'
    }
}

/// The decimal numeral of a natural number, without leading zeros.
pub open spec fn numeral(n: nat) -> Seq<char>
    decreases n,
{
    if n < 10 {
        seq![digit_char(n)]
    } else {
        numeral(n / 10).push(digit_char(n % 10))
    }
}

/// What a [`ValueErr`] says.
pub open spec fn value_message(error: ValueErrView) -> Seq<char> {
    match error {
        ValueErrView::UnknownBase => "Only decimal, octal (#o), and binary (#b) are supported."@,
        ValueErrView::OutOfBounds => "Number is too large to be supported."@,
        ValueErrView::UnknownFunction(name) => "Unknown function: "@ + name
            + "\n Have you forgotten something?"@,
    }
}

/// What an [`ArithErr`] says.
pub open spec fn arith_message(error: ArithErr) -> Seq<char> {
    match error {
        ArithErr::DivideByZero => "Illegal divide by zero operation."@,
        ArithErr::BadOperator(op) => spelling(op) + " is not a valid operator."@,
        ArithErr::WrongArity(op, given) => spelling(op) + " takes exactly 2 operands, not "@ + numeral(
            given as nat,
        ) + "."@,
        ArithErr::NonOperatorHead => "The head of a list is not an operator."@,
        ArithErr::NonNumericOperand => "An operand is not a number."@,
    }
}

/// What an [`EvalError`] says.
pub open spec fn eval_message(error: EvalErrorView) -> Seq<char> {
    match error {
        EvalErrorView::Value(inner) => value_message(inner),
        EvalErrorView::Arith(inner) => arith_message(inner),
    }
}

/// How a thing that was expected is called.
pub open spec fn expected_name(expected: Expected) -> Seq<char> {
    match expected {
        Expected::Expression => "an expression"@,
        Expected::Number => "a number"@,
        Expected::Operator => "an operator"@,
        Expected::Symbol => "a symbol"@,
        Expected::OpeningParenthesis => "an opening parenthesis"@,
        Expected::ClosingParenthesis => "a closing parenthesis"@,
        Expected::ExponentDigits => "the digits of an exponent"@,
    }
}

/// What a [`ParseError`] says.
pub open spec fn parse_message(error: ParseError) -> Seq<char> {
    "Expected "@ + expected_name(error.expected) + " at position "@ + numeral(error.position as nat)
        + "."@
}

/// The text of one decimal digit.
fn digit_text(d: u64) -> (r: &'static str)
    requires
        d < 10,
    ensures
        r@ == seq![digit_char(d as nat)],
{
    proof {
        reveal_strlit("0");
        reveal_strlit("1");
        reveal_strlit("2");
        reveal_strlit("3");
        reveal_strlit("4");
        reveal_strlit("5");
        reveal_strlit("6");
        reveal_strlit("7");
        reveal_strlit("8");
        reveal_strlit("9");
    }
    let r = match d {
        0 => "0",
        1 => "1",
        2 => "2",
        3 => "3",
        4 => "4",
        5 => "5",
        6 => "6",
        7 => "7",
        8 => "8",
        _ => "9",
    };
    assert(r@ =~= seq![digit_char(d as nat)]);
    r
}

/// Writes a number in decimal.
pub fn decimal(n: u64) -> (r: String)
    ensures
        r@ == numeral(n as nat),
    decreases n,
{
    if n < 10 {
        digit_text(n).to_string()
    } else {
        let mut r = decimal(n / 10);
        r.append(digit_text(n % 10));
        assert(r@ =~= numeral(n as nat));
        r
    }
}

impl ValueErr {
    /// The failure in words.
    pub fn message(&self) -> (r: String)
        ensures
            r@ == value_message(self@),
    {
        match self {
            ValueErr::UnknownBase => "Only decimal, octal (#o), and binary (#b) are supported.".to_string(),
            ValueErr::OutOfBounds => "Number is too large to be supported.".to_string(),
            ValueErr::UnknownFunction(name) => {
                let mut r = "Unknown function: ".to_string();
                r.append(name.as_str());
                r.append("\n Have you forgotten something?");
                r
            },
        }
    }
}

impl ArithErr {
    /// The failure in words.
    pub fn message(&self) -> (r: String)
        ensures
            r@ == arith_message(*self),
    {
        match self {
            ArithErr::DivideByZero => "Illegal divide by zero operation.".to_string(),
            ArithErr::BadOperator(op) => {
                let mut r = op.text().to_string();
                r.append(" is not a valid operator.");
                r
            },
            ArithErr::WrongArity(op, given) => {
                let mut r = op.text().to_string();
                r.append(" takes exactly 2 operands, not ");
                r.append(decimal(*given as u64).as_str());
                r.append(".");
                r
            },
            ArithErr::NonOperatorHead => "The head of a list is not an operator.".to_string(),
            ArithErr::NonNumericOperand => "An operand is not a number.".to_string(),
        }
    }
}

impl EvalError {
    /// The failure in words.
    pub fn message(&self) -> (r: String)
        ensures
            r@ == eval_message(self@),
    {
        match self {
            EvalError::Value(inner) => inner.message(),
            EvalError::Arith(inner) => inner.message(),
        }
    }
}

impl Expected {
    /// How the thing that was expected is called.
    pub fn name(&self) -> (r: &'static str)
        ensures
            r@ == expected_name(*self),
    {
        match self {
            Expected::Expression => "an expression",
            Expected::Number => "a number",
            Expected::Operator => "an operator",
            Expected::Symbol => "a symbol",
            Expected::OpeningParenthesis => "an opening parenthesis",
            Expected::ClosingParenthesis => "a closing parenthesis",
            Expected::ExponentDigits => "the digits of an exponent",
        }
    }
}

impl ParseError {
    /// The failure in words.
    pub fn message(&self) -> (r: String)
        ensures
            r@ == parse_message(*self),
    {
        let mut r = "Expected ".to_string();
        r.append(self.expected.name());
        r.append(" at position ");
        r.append(decimal(self.position as u64).as_str());
        r.append(".");
        r
    }
}

} // verus!
