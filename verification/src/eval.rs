//! The evaluator: the reduction of an expression tree to a value.

use vstd::prelude::*;
use crate::error::{ArithErr, EvalError, EvalErrorView, ValueErr, ValueErrView};
use crate::expr::{ExprView, SchemeExpr};
use crate::ops::{apply, eval_op, numeric, views};

verus! {

/// The name of the value that an empty list reduces to.
pub open spec fn nil_name() -> Seq<char> {
    "NIL"@
}

/// What an operand of an application reduces to: the value of the expression,
/// which has to be a number.
pub open spec fn eval_operand(e: ExprView) -> Result<ExprView, EvalErrorView>
    decreases e, 1nat,
{
    match eval(e) {
        Ok(value) => if numeric(value) {
            Ok(value)
        } else {
            Err(EvalErrorView::Arith(ArithErr::NonNumericOperand))
        },
        Err(error) => Err(error),
    }
}

/// The operands of an application, each reduced: all of `items` but the head.
pub open spec fn eval_operands(items: Seq<ExprView>) -> Seq<
    Result<ExprView, EvalErrorView>,
>
    decreases items, 2nat,
{
    Seq::new(
        (items.len() - 1) as nat,
        |i: int|
            if 0 <= i < items.len() - 1 {
                eval_operand(items[i + 1])
            } else {
                Ok(ExprView::List(Seq::empty()))
            },
    )
}

/// The first failure among `results`, if there is one.
pub open spec fn first_failure(results: Seq<Result<ExprView, EvalErrorView>>) -> Option<EvalErrorView>
    decreases results.len(),
{
    if results.len() == 0 {
        None
    } else {
        match results[0] {
            Err(error) => Some(error),
            Ok(_) => first_failure(results.drop_first()),
        }
    }
}

/// The values of `results`, where none is a failure.
pub open spec fn values(results: Seq<Result<ExprView, EvalErrorView>>) -> Seq<ExprView> {
    results.map_values(|r: Result<ExprView, EvalErrorView>| r->Ok_0)
}

/// The value of an expression.
///
/// A number or an operator is its own value. A symbol has none: nothing binds
/// it. The empty list is worth the symbol `NIL`. Of any other list the head is
/// reduced first and has to give an operator; then the operands are reduced
/// from left to right, each to a number; then the operator is applied to them.
/// The first failure on that way is the failure of the whole.
pub open spec fn eval(e: ExprView) -> Result<ExprView, EvalErrorView>
    decreases e, 0nat,
{
    match e {
        ExprView::Symbol(name) => Err(EvalErrorView::Value(ValueErrView::UnknownFunction(name))),
        ExprView::Operation(_) => Ok(e),
        ExprView::Integer(_) => Ok(e),
        ExprView::Float(_) => Ok(e),
        ExprView::List(items) => if items.len() == 0 {
            Ok(ExprView::Symbol(nil_name()))
        } else {
            match eval(items[0]) {
                Err(error) => Err(error),
                Ok(ExprView::Operation(op)) => {
                    let operands = eval_operands(items);
                    match first_failure(operands) {
                        Some(error) => Err(error),
                        None => match apply(op, values(operands)) {
                            Ok(bits) => Ok(ExprView::Float(bits)),
                            Err(error) => Err(EvalErrorView::Arith(error)),
                        },
                    }
                },
                Ok(_) => Err(EvalErrorView::Arith(ArithErr::NonOperatorHead)),
            }
        }
    }
}

/// The model of what [`evaluate`] returns.
pub open spec fn outcome(r: Result<SchemeExpr, EvalError>) -> Result<ExprView, EvalErrorView> {
    match r {
        Ok(value) => Ok(value@),
        Err(error) => Err(error@),
    }
}

/// If every result before the `k`-th is a value and the `k`-th is a failure,
/// that failure is the first.
pub proof fn lemma_first_failure_at(results: Seq<Result<ExprView, EvalErrorView>>, k: int)
    requires
        0 <= k < results.len(),
        forall|j: int| 0 <= j < k ==> (#[trigger] results[j]) is Ok,
        results[k] is Err,
    ensures
        first_failure(results) == Some(results[k]->Err_0),
    decreases k,
{
    if k > 0 {
        let rest = results.drop_first();
        assert forall|j: int| 0 <= j < k - 1 implies (#[trigger] rest[j]) is Ok by {
            assert(rest[j] == results[j + 1]);
        }
        lemma_first_failure_at(rest, k - 1);
    }
}

/// If every result is a value, there is no failure.
pub proof fn lemma_no_failure(results: Seq<Result<ExprView, EvalErrorView>>)
    requires
        forall|j: int| 0 <= j < results.len() ==> (#[trigger] results[j]) is Ok,
    ensures
        first_failure(results) is None,
    decreases results.len(),
{
    if results.len() > 0 {
        let rest = results.drop_first();
        assert forall|j: int| 0 <= j < rest.len() implies (#[trigger] rest[j]) is Ok by {
            assert(rest[j] == results[j + 1]);
        }
        lemma_no_failure(rest);
    }
}

/// Reduces an expression to its value: the result is [`eval`]`(..)`. A number
/// or an operator comes back unchanged.
pub fn evaluate(expression: SchemeExpr) -> (r: Result<SchemeExpr, EvalError>)
    ensures
        outcome(r) == eval(expression@),
        expression is Float || expression is Integer || expression is Operation ==> r == Ok::<
            SchemeExpr,
            EvalError,
        >(expression),
        expression matches SchemeExpr::Symbol(name) ==> r == Err::<SchemeExpr, EvalError>(
            EvalError::Value(ValueErr::UnknownFunction(name)),
        ),
    decreases expression@,
{
    let ghost whole = expression@;
    match expression {
        SchemeExpr::Symbol(name) => Err(EvalError::Value(ValueErr::UnknownFunction(name))),
        SchemeExpr::Operation(op) => Ok(SchemeExpr::Operation(op)),
        SchemeExpr::Integer(value) => Ok(SchemeExpr::Integer(value)),
        SchemeExpr::Float(bits) => Ok(SchemeExpr::Float(bits)),
        SchemeExpr::List(list) => {
            if list.len() == 0 {
                return Ok(SchemeExpr::Symbol("NIL".to_string()));
            }
            let ghost items = whole->List_0;
            assert(whole == ExprView::List(items));
            assert(items.len() == list.len());
            assert(forall|j: int| 0 <= j < list.len() ==> items[j] == (#[trigger] list[j])@);
            let ghost results = eval_operands(items);
            let op = match evaluate(list[0].clone()) {
                Err(error) => {
                    return Err(error);
                },
                Ok(SchemeExpr::Operation(op)) => op,
                Ok(_) => {
                    return Err(EvalError::Arith(ArithErr::NonOperatorHead));
                },
            };
            let mut operands: Vec<SchemeExpr> = Vec::new();
            let mut i: usize = 1;
            while i < list.len()
                invariant
                    1 <= i <= list.len(),
                    operands.len() == i - 1,
                    expression == SchemeExpr::List(list),
                    whole == expression@,
                    whole == ExprView::List(items),
                    items.len() == list.len(),
                    forall|j: int| 0 <= j < list.len() ==> items[j] == (#[trigger] list[j])@,
                    results == eval_operands(items),
                    eval(items[0]) == Ok::<ExprView, EvalErrorView>(ExprView::Operation(op)),
                    forall|j: int| 0 <= j < i - 1 ==> (#[trigger] results[j]) == Ok::<ExprView, EvalErrorView>(
                        operands[j]@,
                    ),
                decreases list.len() - i,
            {
                assert(whole->List_0[i as int] == list[i as int]@);
                assert(results[i - 1] == eval_operand(items[i as int]));
                let value = match evaluate(list[i].clone()) {
                    Err(error) => {
                        proof {
                            lemma_first_failure_at(results, i - 1);
                        }
                        return Err(error);
                    },
                    Ok(value) => value,
                };
                match value {
                    SchemeExpr::Integer(_) | SchemeExpr::Float(_) => {},
                    _ => {
                        proof {
                            lemma_first_failure_at(results, i - 1);
                        }
                        return Err(EvalError::Arith(ArithErr::NonNumericOperand));
                    },
                }
                operands.push(value);
                i += 1;
            }
            proof {
                lemma_no_failure(results);
                assert(values(results) =~= views(operands@));
            }
            match eval_op(op, operands) {
                Ok(bits) => Ok(SchemeExpr::Float(bits)),
                Err(error) => Err(EvalError::Arith(error)),
            }
        },
    }
}

} // verus!
