//! One turn of the interpreter: a line of text goes in, and a value or a
//! failure comes out, as an expression and in writing.

use vstd::prelude::*;
use crate::error::{
    eval_message, parse_message, EvalError, EvalErrorView, Expected, ParseError,
};
use crate::eval::{eval, evaluate};
use crate::expr::{ExprView, SchemeExpr};
use crate::grammar::{expression_at, value_of, Found};
use crate::parser::parse_expr;
use crate::show::{render, written};

verus! {

/// Why a turn failed: the line could not be parsed, or the expression could
/// not be evaluated.
#[derive(Debug, PartialEq, Eq)]
pub enum Failure {
    Parse(ParseError),
    Eval(EvalError),
}

/// The model of a [`Failure`].
pub enum FailureView {
    Parse(ParseError),
    Eval(EvalErrorView),
}

impl View for Failure {
    type V = FailureView;

    open spec fn view(&self) -> FailureView {
        match self {
            Failure::Parse(error) => FailureView::Parse(*error),
            Failure::Eval(error) => FailureView::Eval(error@),
        }
    }
}

/// What a [`Failure`] says.
pub open spec fn failure_message(failure: FailureView) -> Seq<char> {
    match failure {
        FailureView::Parse(error) => parse_message(error),
        FailureView::Eval(error) => eval_message(error),
    }
}

impl Failure {
    /// The failure in words.
    pub fn message(&self) -> (r: String)
        ensures
            r@ == failure_message(self@),
    {
        match self {
            Failure::Parse(error) => error.message(),
            Failure::Eval(error) => error.message(),
        }
    }
}

/// What a line is worth: the value of the expression that stands at its
/// start, or the failure to find one there or to evaluate it. What follows the
/// expression in the line is not looked at.
pub open spec fn worth(line: Seq<char>) -> Result<ExprView, FailureView> {
    match expression_at(line, 0) {
        Found::Present(tree, _) => match eval(value_of(tree)) {
            Ok(value) => Ok(value),
            Err(error) => Err(FailureView::Eval(error)),
        },
        Found::Malformed(at, expected) => Err(
            FailureView::Parse(ParseError { position: at as usize, expected }),
        ),
        Found::Absent => Err(FailureView::Parse(ParseError { position: 0, expected: Expected::Expression })),
    }
}

/// The model of what [`interpret`] returns.
pub open spec fn turn_outcome(r: Result<SchemeExpr, Failure>) -> Result<ExprView, FailureView> {
    match r {
        Ok(value) => Ok(value@),
        Err(failure) => Err(failure@),
    }
}

/// The answer to a line: its value in writing, or what the failure says.
pub open spec fn answer(line: Seq<char>) -> Seq<char> {
    match worth(line) {
        Ok(value) => written(value),
        Err(failure) => failure_message(failure),
    }
}

/// A line written anew: the expression that stands at its start in writing,
/// or what the failure to find one says.
pub open spec fn rewritten(line: Seq<char>) -> Seq<char> {
    match expression_at(line, 0) {
        Found::Present(tree, _) => written(value_of(tree)),
        Found::Malformed(at, expected) => parse_message(ParseError { position: at as usize, expected }),
        Found::Absent => parse_message(ParseError { position: 0, expected: Expected::Expression }),
    }
}

/// Parses the expression at the start of a line and evaluates it: the result
/// is [`worth`]`(..)`.
pub fn interpret(line: &str) -> (r: Result<SchemeExpr, Failure>)
    ensures
        turn_outcome(r) == worth(line@),
{
    match parse_expr(line) {
        Err(error) => Err(Failure::Parse(error)),
        Ok((_, expression)) => match evaluate(expression) {
            Ok(value) => Ok(value),
            Err(error) => Err(Failure::Eval(error)),
        },
    }
}

/// Answers a line, with its value in writing or with what the failure says:
/// the result is [`answer`]`(..)`.
pub fn reply(line: &str) -> (r: String)
    ensures
        r@ == answer(line@),
{
    match interpret(line) {
        Ok(value) => render(&value),
        Err(failure) => failure.message(),
    }
}

/// Writes the expression at the start of a line anew, without evaluating it:
/// the result is [`rewritten`]`(..)`.
pub fn pretty(line: &str) -> (r: String)
    ensures
        r@ == rewritten(line@),
{
    match parse_expr(line) {
        Ok((_, expression)) => render(&expression),
        Err(error) => error.message(),
    }
}

} // verus!
