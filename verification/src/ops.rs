//! The operator table: what each operator asks of its operands and how it
//! combines them.

use vstd::prelude::*;
use crate::error::ArithErr;
use crate::expr::{ExprView, SchemeExpr, SchemeOp};
use crate::arith::{
    difference, divide, multiply, product, quotient, reduce, remainder, subtract, sum,
};
use crate::binary64::{is_zero, zero, ONE, ZERO};
use crate::integer::{converted, from_i64, truncate, truncated};

verus! {

/// Whether an expression is a number.
pub open spec fn numeric(e: ExprView) -> bool {
    e is Float || e is Integer
}

/// The binary64 value of a number: a `Float` as it is, an `Integer` converted.
pub open spec fn bits_of(e: ExprView) -> u64 {
    match e {
        ExprView::Float(bits) => bits,
        ExprView::Integer(value) => converted(value),
        _ => ZERO,
    }
}

/// The sum of `operands`, added one by one to `acc` from the left.
pub open spec fn sum_from(acc: u64, operands: Seq<u64>) -> u64
    decreases operands.len(),
{
    if operands.len() == 0 {
        acc
    } else {
        sum_from(sum(acc, operands[0]), operands.drop_first())
    }
}

/// The product of `operands`, multiplied one by one onto `acc` from the left,
/// unless one of them is zero: at the first zero the product is `+0.0`,
/// whatever stands before or behind it.
pub open spec fn product_from(acc: u64, operands: Seq<u64>) -> u64
    decreases operands.len(),
{
    if operands.len() == 0 {
        acc
    } else if zero(operands[0]) {
        ZERO
    } else {
        product_from(product(acc, operands[0]), operands.drop_first())
    }
}

/// Whether every one of the expressions is a number.
pub open spec fn all_numeric(operands: Seq<ExprView>) -> bool {
    forall|i: int| 0 <= i < operands.len() ==> numeric(#[trigger] operands[i])
}

/// The operators that the table reduces: the five of arithmetic. The
/// comparisons have no rule.
pub open spec fn arithmetic(op: SchemeOp) -> bool {
    op is Add || op is Sub || op is Mul || op is Div || op is Mod
}

/// The operators that take exactly two operands. `Add` and `Mul` take any
/// number of them.
pub open spec fn binary(op: SchemeOp) -> bool {
    op is Sub || op is Div || op is Mod
}

/// The models of a sequence of expressions.
pub open spec fn views(expressions: Seq<SchemeExpr>) -> Seq<ExprView> {
    expressions.map_values(|e: SchemeExpr| e@)
}

/// The binary64 values of numbers.
pub open spec fn values_of(operands: Seq<ExprView>) -> Seq<u64> {
    operands.map_values(|e: ExprView| bits_of(e))
}

/// Why an operator refuses its operands, if it does: one of them is no
/// number, the operator is a comparison, there are not two of them where two
/// are due, or the divisor is zero. What comes first in this order is the
/// reason.
pub open spec fn refusal(op: SchemeOp, operands: Seq<ExprView>) -> Option<ArithErr> {
    if !all_numeric(operands) {
        Some(ArithErr::NonNumericOperand)
    } else if !arithmetic(op) {
        Some(ArithErr::BadOperator(op))
    } else if binary(op) && operands.len() != 2 {
        Some(ArithErr::WrongArity(op, operands.len() as usize))
    } else if op is Div && zero(bits_of(operands[1])) {
        Some(ArithErr::DivideByZero)
    } else {
        None
    }
}

/// What an operator of arithmetic makes of binary64 operands that it does not
/// refuse: `Add` their sum from `+0.0` on, `Mul` their product from `1.0` on,
/// `Sub` the difference, `Div` the quotient truncated toward zero by way of a
/// 64-bit integer, `Mod` the remainder.
pub open spec fn result(op: SchemeOp, operands: Seq<u64>) -> u64 {
    match op {
        SchemeOp::Add => sum_from(ZERO, operands),
        SchemeOp::Mul => product_from(ONE, operands),
        SchemeOp::Sub => difference(operands[0], operands[1]),
        SchemeOp::Div => truncated(quotient(operands[0], operands[1])),
        SchemeOp::Mod => remainder(operands[0], operands[1]),
        _ => ZERO,
    }
}

/// What an operator makes of reduced operands: the refusal, or the result on
/// the operands' binary64 values.
pub open spec fn apply(op: SchemeOp, operands: Seq<ExprView>) -> Result<u64, ArithErr> {
    match refusal(op, operands) {
        Some(error) => Err(error),
        None => Ok(result(op, values_of(operands))),
    }
}

/// Converts the operands to binary64, or reports that one is no number.
fn operand_values(expressions: &Vec<SchemeExpr>) -> (r: Option<Vec<u64>>)
    ensures
        r is Some <==> all_numeric(views(expressions@)),
        r is Some ==> r->0@ == values_of(views(expressions@)),
{
    let mut values: Vec<u64> = Vec::new();
    let mut i: usize = 0;
    while i < expressions.len()
        invariant
            i <= expressions.len(),
            values.len() == i,
            forall|j: int| 0 <= j < i ==> numeric(#[trigger] expressions[j]@),
            forall|j: int| 0 <= j < i ==> #[trigger] values[j] == bits_of(expressions[j]@),
        decreases expressions.len() - i,
    {
        let bits = match &expressions[i] {
            SchemeExpr::Float(bits) => *bits,
            SchemeExpr::Integer(value) => from_i64(*value),
            _ => {
                assert(!numeric(views(expressions@)[i as int]));
                return None;
            },
        };
        values.push(bits);
        i += 1;
    }
    assert(values@ =~= values_of(views(expressions@)));
    Some(values)
}

/// The sum of the operands, as [`sum_from`] defines it, starting from `+0.0`.
fn sum_of(operands: &Vec<u64>) -> (r: u64)
    ensures
        r == sum_from(ZERO, operands@),
{
    let mut acc: u64 = ZERO;
    let mut i: usize = 0;
    assert(operands@.skip(0) =~= operands@);
    while i < operands.len()
        invariant
            i <= operands.len(),
            sum_from(acc, operands@.skip(i as int)) == sum_from(ZERO, operands@),
        decreases operands.len() - i,
    {
        assert(operands@.skip(i as int).drop_first() =~= operands@.skip(i as int + 1));
        acc = crate::arith::add(acc, operands[i]);
        i += 1;
    }
    acc
}

/// The product of the operands, as [`product_from`] defines it, starting from
/// `1.0`. Nothing is multiplied once a zero operand is met.
fn product_of(operands: &Vec<u64>) -> (r: u64)
    ensures
        r == product_from(ONE, operands@),
{
    let mut acc: u64 = ONE;
    let mut i: usize = 0;
    assert(operands@.skip(0) =~= operands@);
    while i < operands.len()
        invariant
            i <= operands.len(),
            product_from(acc, operands@.skip(i as int)) == product_from(ONE, operands@),
        decreases operands.len() - i,
    {
        if is_zero(operands[i]) {
            return ZERO;
        }
        assert(operands@.skip(i as int).drop_first() =~= operands@.skip(i as int + 1));
        acc = multiply(acc, operands[i]);
        i += 1;
    }
    acc
}

/// Applies an operator to reduced operands: the result is [`apply`]`(..)`.
pub fn eval_op(operation: SchemeOp, expressions: Vec<SchemeExpr>) -> (r: Result<u64, ArithErr>)
    ensures
        r == apply(operation, views(expressions@)),
{
    let operands = match operand_values(&expressions) {
        Some(values) => values,
        None => {
            return Err(ArithErr::NonNumericOperand);
        },
    };
    match operation {
        SchemeOp::Add => Ok(sum_of(&operands)),
        SchemeOp::Mul => Ok(product_of(&operands)),
        SchemeOp::Sub => {
            if operands.len() != 2 {
                Err(ArithErr::WrongArity(operation, operands.len()))
            } else {
                Ok(subtract(operands[0], operands[1]))
            }
        },
        SchemeOp::Div => {
            if operands.len() != 2 {
                Err(ArithErr::WrongArity(operation, operands.len()))
            } else if is_zero(operands[1]) {
                Err(ArithErr::DivideByZero)
            } else {
                Ok(truncate(divide(operands[0], operands[1])))
            }
        },
        SchemeOp::Mod => {
            if operands.len() != 2 {
                Err(ArithErr::WrongArity(operation, operands.len()))
            } else {
                Ok(reduce(operands[0], operands[1]))
            }
        },
        _ => Err(ArithErr::BadOperator(operation)),
    }
}

} // verus!
