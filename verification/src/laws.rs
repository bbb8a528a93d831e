//! What holds of the grammar and of evaluation for all inputs.

use vstd::prelude::*;
use vstd::arithmetic::power2::{
    lemma2_to64, lemma2_to64_rest, lemma_pow2_adds, lemma_pow2_pos, lemma_pow2_strictly_increases,
    pow2,
};
use crate::arith::product;
use crate::binary64::{
    bit_length, lemma_bit_length_bounds, pattern, pattern_holds_its_ticks, zero, ONE, ZERO,
};
use crate::decimal::{
    decimal_value, exponent_of, fraction_digits, literal_bits, mantissa_digits, mantissa_stop, nearest_to,
    pow10, shift_of, sign_end, whole_end,
};
use crate::error::{ArithErr, EvalErrorView, ValueErrView};
use crate::eval::{eval, nil_name};
use crate::expr::{spelling, ExprView, SchemeOp};
use crate::grammar::{
    expression_at, items_at, list_at, literal_at, mantissa_end, operator_at, stands_at, value_of,
    Found, Syntax,
};
use crate::integer::{integer_of, integral, whole_ticks_are_integers};
use crate::lexer::{member, run_end, Class};
use crate::ops::{numeric, product_from, refusal, result};
use crate::rounding::lemma_round_exact;

verus! {

/// Whether every character of `s` is of `class`.
pub open spec fn all_of(s: Seq<char>, class: Class) -> bool {
    forall|i: int| 0 <= i < s.len() ==> member(class, #[trigger] s[i])
}

/// Whether a character can begin an operator.
pub open spec fn operator_start(c: char) -> bool {
    c == '<' || c == '>' || c == '*' || c == '/' || c == '+' || c == '-' || c == '%' || c == '='
}

/// A run that holds only characters of the class and stops on another
/// character, or on the end of the text, is the run that [`run_end`] finds.
pub proof fn run_end_is_exact(s: Seq<char>, pos: int, end: int, class: Class)
    requires
        0 <= pos <= end <= s.len(),
        forall|i: int| pos <= i < end ==> member(class, #[trigger] s[i]),
        end < s.len() ==> !member(class, s[end]),
    ensures
        run_end(s, pos, class) == end,
    decreases end - pos,
{
    if pos < end {
        run_end_is_exact(s, pos + 1, end, class);
    }
}

/// An operator begins with one of eight characters: where none of them
/// stands, there is no operator.
pub proof fn operator_needs_its_start(s: Seq<char>, pos: int)
    requires
        0 <= pos,
        pos < s.len() ==> !operator_start(s[pos]),
    ensures
        operator_at(s, pos) is Absent,
{
    assert forall|op: SchemeOp| !stands_at(s, pos, #[trigger] spelling(op)) by {
        if stands_at(s, pos, spelling(op)) {
            assert(s.subrange(pos, pos + spelling(op).len())[0] == s[pos]);
            assert(spelling(op)[0] == s[pos]);
        }
    }
}

/// Longest match: the operator that is found is written at that position, and
/// no operator that is written there has a longer spelling.
pub proof fn operator_is_longest_match(s: Seq<char>, pos: int, op: SchemeOp)
    requires
        stands_at(s, pos, spelling(op)),
    ensures
        operator_at(s, pos) matches Found::Present(found, end) && stands_at(s, pos, spelling(found)) && end
            == pos + spelling(found).len() && spelling(op).len() <= spelling(found).len(),
{
    if spelling(op).len() == 2 {
        assert(op == SchemeOp::Leq || op == SchemeOp::Geq);
    } else {
        match operator_at(s, pos) {
            Found::Present(found, end) => {},
            _ => {
                assert(false);
            },
        }
    }
}

/// Every operator is read back from its own spelling.
pub proof fn operator_round_trip(op: SchemeOp)
    ensures
        operator_at(spelling(op), 0) == Found::Present(op, spelling(op).len() as int),
{
    let s = spelling(op);
    assert(s.subrange(0, s.len() as int) =~= s);
    assert(stands_at(s, 0, spelling(op)));
    assert forall|other: SchemeOp| other != op && spelling(other).len() == spelling(op).len() implies !stands_at(
        s,
        0,
        #[trigger] spelling(other),
    ) by {
        if stands_at(s, 0, spelling(other)) {
            assert(s.subrange(0, spelling(other).len() as int)[0] == s[0]);
        }
    }
}

/// A text of decimal digits is one number, and its literal is the whole text:
/// it is never read as anything else.
pub proof fn digits_are_a_number(d: Seq<char>)
    requires
        d.len() > 0,
        all_of(d, Class::Digit),
    ensures
        expression_at(d, 0) == Found::Present(Syntax::Number(d), d.len() as int),
{
    run_end_is_exact(d, 0, d.len() as int, Class::Digit);
    assert(sign_end(d, 0) == 0);
    assert(mantissa_end(d, 0) == Some(d.len() as int));
    assert(d.subrange(0, d.len() as int) =~= d);
    assert(literal_at(d, 0) == Found::Present(d, d.len() as int));
}

/// A text of decimal digits is worth the number that it writes: the value that
/// it parses to is the nearest to that number, and the number itself where
/// that has no more than 53 binary digits.
pub proof fn digits_have_their_value(d: Seq<char>)
    requires
        d.len() > 0,
        all_of(d, Class::Digit),
    ensures
        value_of(Syntax::Number(d)) == ExprView::Float(nearest_to(false, decimal_value(d), 0)),
        bit_length(decimal_value(d)) <= 53 ==> integral(nearest_to(false, decimal_value(d), 0)) && integer_of(
            nearest_to(false, decimal_value(d), 0),
        ) == decimal_value(d),
{
    let n = d.len() as int;
    assert(sign_end(d, 0) == 0);
    run_end_is_exact(d, 0, n, Class::Digit);
    assert(whole_end(d) == n);
    assert(mantissa_stop(d) == n);
    assert(fraction_digits(d) =~= Seq::<char>::empty());
    assert(mantissa_digits(d) =~= d);
    assert(exponent_of(d) == 0);
    assert(shift_of(d) == 0);
    assert(literal_bits(d) == nearest_to(false, decimal_value(d), 0));
    let m = decimal_value(d);
    if bit_length(m) <= 53 {
        lemma2_to64();
        lemma2_to64_rest();
        let t = m * pow2(1074);
        assert(m * pow10(0) * pow2(1074) == t) by (nonlinear_arith)
            requires
                pow10(0) == 1,
                t == m * pow2(1074),
        ;
        assert(t * 1 == t) by (nonlinear_arith);
        lemma_round_exact(m, 1074, t * 1, 1);
        lemma_pow2_pos(1074);
        lemma_pow2_pos(2098);
        if m > 0 {
            lemma_bit_length_bounds(m);
            if bit_length(m) < 53 {
                lemma_pow2_strictly_increases(bit_length(m), 53);
            }
            lemma_pow2_adds(53, 1074);
            lemma_pow2_strictly_increases(1127, 2098);
            assert(t < pow2(2098)) by (nonlinear_arith)
                requires
                    t == m * pow2(1074),
                    m < pow2(53),
                    pow2(1127) == pow2(53) * pow2(1074),
                    pow2(1127) < pow2(2098),
                    pow2(1074) > 0,
            ;
        } else {
            assert(t == 0) by (nonlinear_arith)
                requires
                    t == m * pow2(1074),
                    m == 0,
            ;
        }
        pattern_holds_its_ticks(false, m, 1074);
        whole_ticks_are_integers(pattern(false, t), m);
    }
}

/// A pair of parentheses with nothing but spaces between them is the empty
/// list, whatever spaces stand before it and whatever text follows it.
pub proof fn empty_list_is_read(before: Seq<char>, inside: Seq<char>, rest: Seq<char>)
    requires
        all_of(before, Class::Space),
        all_of(inside, Class::Space),
    ensures
        expression_at(before + seq!['('] + inside + seq![')'] + rest, 0) == Found::Present(
            Syntax::List(Seq::empty()),
            (before.len() + inside.len() + 2) as int,
        ),
{
    let s = before + seq!['('] + inside + seq![')'] + rest;
    let open = before.len() as int;
    let close = open + 1 + inside.len();
    assert(s[open] == '(');
    assert(s[close] == ')');
    assert forall|i: int| 0 <= i < open implies member(Class::Space, #[trigger] s[i]) by {
        assert(s[i] == before[i]);
    }
    assert forall|i: int| open + 1 <= i < close implies member(Class::Space, #[trigger] s[i]) by {
        assert(s[i] == inside[i - open - 1]);
    }
    nothing_but_a_list(s, 0);
    run_end_is_exact(s, 0, open, Class::Space);
    run_end_is_exact(s, open + 1, close, Class::Space);
    nothing_but_a_list(s, close);
    run_end_is_exact(s, close, close, Class::Space);
    assert(list_at(s, close) is Absent);
    assert(expression_at(s, close) is Absent);
    assert(items_at(s, close) == Found::Present(Seq::<Syntax>::empty(), close));
}

/// Where a space or a parenthesis stands, only a list can begin.
pub proof fn nothing_but_a_list(s: Seq<char>, pos: int)
    requires
        0 <= pos < s.len(),
        member(Class::Space, s[pos]) || s[pos] == '(' || s[pos] == ')',
    ensures
        expression_at(s, pos) == list_at(s, pos),
{
    run_end_is_exact(s, pos, pos, Class::Digit);
    run_end_is_exact(s, pos, pos, Class::Letter);
    operator_needs_its_start(s, pos);
    assert(literal_at(s, pos) is Absent);
}

/// The empty list is worth the symbol `NIL`.
pub proof fn empty_list_is_nil()
    ensures
        eval(value_of(Syntax::List(Seq::empty()))) == Ok::<ExprView, EvalErrorView>(
            ExprView::Symbol(nil_name()),
        ),
{
    assert(value_of(Syntax::List(Seq::empty()))->List_0.len() == 0);
}

/// A product with a zero among its operands is `+0.0`, wherever the zero
/// stands and whatever the other operands are.
pub proof fn product_with_zero(acc: u64, operands: Seq<u64>, k: int)
    requires
        0 <= k < operands.len(),
        zero(operands[k]),
    ensures
        product_from(acc, operands) == ZERO,
    decreases operands.len(),
{
    if !zero(operands[0]) {
        let rest = operands.drop_first();
        assert(rest[k - 1] == operands[k]);
        product_with_zero(product(acc, operands[0]), rest, k - 1);
    }
}

/// `Mul` gives `+0.0` as soon as one operand is zero.
pub proof fn multiplication_by_zero(operands: Seq<u64>, k: int)
    requires
        0 <= k < operands.len(),
        zero(operands[k]),
    ensures
        result(SchemeOp::Mul, operands) == ZERO,
{
    product_with_zero(ONE, operands, k);
}

/// `Div` by a zero of either sign fails, whatever the dividend is.
pub proof fn division_by_zero(dividend: u64, divisor: u64)
    requires
        zero(divisor),
    ensures
        refusal(SchemeOp::Div, seq![ExprView::Float(dividend), ExprView::Float(divisor)]) == Some(
            ArithErr::DivideByZero,
        ),
{
}

/// `Sub`, `Div` and `Mod` take two operands: with any other number of
/// numbers they fail, and never go on with some of the operands.
pub proof fn binary_operators_are_strict(op: SchemeOp, operands: Seq<ExprView>)
    requires
        op == SchemeOp::Sub || op == SchemeOp::Div || op == SchemeOp::Mod,
        operands.len() != 2,
        forall|i: int| 0 <= i < operands.len() ==> numeric(#[trigger] operands[i]),
    ensures
        refusal(op, operands) == Some(ArithErr::WrongArity(op, operands.len() as usize)),
{
}

/// A value is a number, an operator or the symbol `NIL`.
pub proof fn values_are_reduced(e: ExprView)
    ensures
        eval(e) matches Ok(value) ==> numeric(value) || value is Operation || value == ExprView::Symbol(
            nil_name(),
        ),
{
}

/// A number or an operator is its own value.
pub proof fn numbers_and_operators_are_values(e: ExprView)
    requires
        e is Float || e is Integer || e is Operation,
    ensures
        eval(e) == Ok::<ExprView, EvalErrorView>(e),
{
}

/// Evaluation is idempotent: a value that is a number or an operator is
/// worth itself when it is evaluated again.
pub proof fn evaluation_is_idempotent(e: ExprView)
    requires
        eval(e) is Ok,
        eval(e)->Ok_0 != ExprView::Symbol(nil_name()),
    ensures
        eval(eval(e)->Ok_0) == eval(e),
{
    values_are_reduced(e);
}

/// A symbol has no value: it fails as unbound, whatever its name is.
pub proof fn symbols_are_unbound(name: Seq<char>)
    ensures
        eval(ExprView::Symbol(name)) == Err::<ExprView, EvalErrorView>(
            EvalErrorView::Value(ValueErrView::UnknownFunction(name)),
        ),
{
}

} // verus!
