//! The grammar: which expression stands at a position of a text.
//!
//! Four forms are tried in this order, and the first that is present
//! decides: a number, an operator, a symbol, a list.
//!
//! ```text
//! number   = [ "+" | "-" ] mantissa [ ( "e" | "E" ) [ "+" | "-" ] digits ]
//! mantissa = digits [ "." [ digits ] ] | "." digits
//! operator = "<=" | ">=" | "*" | "/" | "+" | "-" | "%" | ">" | "<" | "="
//! symbol   = letter { letter }
//! list     = spaces "(" spaces [ expression { space spaces expression } ] spaces ")"
//! ```
//!
//! Every run of digits, letters or spaces is taken as long as it goes. A
//! mantissa that is followed by `e` or `E` owes the digits of an exponent:
//! without them the text is malformed, and nothing else is tried.

use vstd::prelude::*;
use crate::decimal::{literal_bits, sign_end};
use crate::error::Expected;
use crate::expr::{spelling, ExprView, SchemeOp};
use crate::lexer::{has, lemma_run_end, run_end, Class};

verus! {

/// An expression as it is written: a number is the text of its literal.
pub enum Syntax {
    Number(Seq<char>),
    Operation(SchemeOp),
    Symbol(Seq<char>),
    List(Seq<Syntax>),
}

/// What stands at a position: nothing of the form asked for, something
/// malformed (with the position of the fault and what was expected there), or
/// a tree that ends before the given position.
pub enum Found<T> {
    Absent,
    Malformed(int, Expected),
    Present(T, int),
}

/// Where the mantissa that starts at `pos` ends, if there is one: digits,
/// then optionally a point and optionally digits; or a point and digits.
pub open spec fn mantissa_end(s: Seq<char>, pos: int) -> Option<int> {
    let whole = run_end(s, pos, Class::Digit);
    if whole > pos {
        if has(s, whole, '.') {
            Some(run_end(s, whole + 1, Class::Digit))
        } else {
            Some(whole)
        }
    } else if has(s, pos, '.') && run_end(s, pos + 1, Class::Digit) > pos + 1 {
        Some(run_end(s, pos + 1, Class::Digit))
    } else {
        None
    }
}

/// The literal of the number at `pos`: its text.
pub open spec fn literal_at(s: Seq<char>, pos: int) -> Found<Seq<char>> {
    match mantissa_end(s, sign_end(s, pos)) {
        None => Found::Absent,
        Some(mantissa) => if has(s, mantissa, 'e') || has(s, mantissa, 'E') {
            let digits = sign_end(s, mantissa + 1);
            let end = run_end(s, digits, Class::Digit);
            if end > digits {
                Found::Present(s.subrange(pos, end), end)
            } else {
                Found::Malformed(digits, Expected::ExponentDigits)
            }
        } else {
            Found::Present(s.subrange(pos, mantissa), mantissa)
        },
    }
}

/// The number at `pos`.
pub open spec fn number_at(s: Seq<char>, pos: int) -> Found<Syntax> {
    match literal_at(s, pos) {
        Found::Present(literal, end) => Found::Present(Syntax::Number(literal), end),
        Found::Malformed(at, expected) => Found::Malformed(at, expected),
        Found::Absent => Found::Absent,
    }
}

/// Whether `word` stands at `pos`.
pub open spec fn stands_at(s: Seq<char>, pos: int, word: Seq<char>) -> bool {
    0 <= pos && pos + word.len() <= s.len() && s.subrange(pos, pos + word.len()) == word
}

/// The operator at `pos`: the one whose spelling stands there, and of two
/// such the one with the longer spelling.
pub open spec fn operator_at(s: Seq<char>, pos: int) -> Found<SchemeOp> {
    if stands_at(s, pos, spelling(SchemeOp::Leq)) {
        Found::Present(SchemeOp::Leq, pos + 2)
    } else if stands_at(s, pos, spelling(SchemeOp::Geq)) {
        Found::Present(SchemeOp::Geq, pos + 2)
    } else if stands_at(s, pos, spelling(SchemeOp::Mul)) {
        Found::Present(SchemeOp::Mul, pos + 1)
    } else if stands_at(s, pos, spelling(SchemeOp::Div)) {
        Found::Present(SchemeOp::Div, pos + 1)
    } else if stands_at(s, pos, spelling(SchemeOp::Add)) {
        Found::Present(SchemeOp::Add, pos + 1)
    } else if stands_at(s, pos, spelling(SchemeOp::Sub)) {
        Found::Present(SchemeOp::Sub, pos + 1)
    } else if stands_at(s, pos, spelling(SchemeOp::Mod)) {
        Found::Present(SchemeOp::Mod, pos + 1)
    } else if stands_at(s, pos, spelling(SchemeOp::Gt)) {
        Found::Present(SchemeOp::Gt, pos + 1)
    } else if stands_at(s, pos, spelling(SchemeOp::Lt)) {
        Found::Present(SchemeOp::Lt, pos + 1)
    } else if stands_at(s, pos, spelling(SchemeOp::Eq)) {
        Found::Present(SchemeOp::Eq, pos + 1)
    } else {
        Found::Absent
    }
}

/// The operator at `pos`, as an expression.
pub open spec fn operation_at(s: Seq<char>, pos: int) -> Found<Syntax> {
    match operator_at(s, pos) {
        Found::Present(op, end) => Found::Present(Syntax::Operation(op), end),
        _ => Found::Absent,
    }
}

/// The symbol at `pos`: its name is the longest run of letters.
pub open spec fn symbol_at(s: Seq<char>, pos: int) -> Found<Syntax> {
    let end = run_end(s, pos, Class::Letter);
    if end > pos {
        Found::Present(Syntax::Symbol(s.subrange(pos, end)), end)
    } else {
        Found::Absent
    }
}

/// The first of two findings, unless nothing was found: then the second.
pub open spec fn or_else(first: Found<Syntax>, second: Found<Syntax>) -> Found<Syntax> {
    if first is Absent {
        second
    } else {
        first
    }
}

/// The expression at `pos`: a number, else an operator, else a symbol, else a
/// list.
pub open spec fn expression_at(s: Seq<char>, pos: int) -> Found<Syntax>
    decreases s.len() - pos, 2nat,
{
    or_else(
        number_at(s, pos),
        or_else(operation_at(s, pos), or_else(symbol_at(s, pos), list_at(s, pos))),
    )
}

/// The list at `pos`. Spaces may stand before the opening parenthesis, behind
/// it, and before the closing one.
pub open spec fn list_at(s: Seq<char>, pos: int) -> Found<Syntax>
    decreases s.len() - pos, 1nat,
{
    let open = run_end(s, pos, Class::Space);
    if has(s, open, '(') {
        let first = run_end(s, open + 1, Class::Space);
        proof {
            lemma_run_end(s, pos, Class::Space);
            lemma_run_end(s, open + 1, Class::Space);
        }
        match items_at(s, first) {
            Found::Present(items, end) => {
                let close = run_end(s, end, Class::Space);
                if has(s, close, ')') {
                    Found::Present(Syntax::List(items), close + 1)
                } else {
                    Found::Malformed(close, Expected::ClosingParenthesis)
                }
            },
            Found::Malformed(at, expected) => Found::Malformed(at, expected),
            Found::Absent => Found::Absent,
        }
    } else {
        Found::Absent
    }
}

/// The items of a list from `pos` on: as many expressions as stand there, one
/// behind the other, with at least one space between two of them.
pub open spec fn items_at(s: Seq<char>, pos: int) -> Found<Seq<Syntax>>
    decreases s.len() - pos, 3nat,
{
    match expression_at(s, pos) {
        Found::Absent => Found::Present(Seq::empty(), pos),
        Found::Malformed(at, expected) => Found::Malformed(at, expected),
        Found::Present(item, end) => {
            let next = run_end(s, end, Class::Space);
            if pos < end && end < next {
                proof {
                    if end <= s.len() {
                        lemma_run_end(s, end, Class::Space);
                    }
                }
                match items_at(s, next) {
                    Found::Present(rest, stop) => Found::Present(seq![item] + rest, stop),
                    Found::Malformed(at, expected) => Found::Malformed(at, expected),
                    Found::Absent => Found::Absent,
                }
            } else {
                Found::Present(seq![item], end)
            }
        },
    }
}

/// The expression that a tree stands for: each literal is replaced by its
/// binary64 value.
pub open spec fn value_of(tree: Syntax) -> ExprView
    decreases tree,
{
    match tree {
        Syntax::Number(literal) => ExprView::Float(literal_bits(literal)),
        Syntax::Operation(op) => ExprView::Operation(op),
        Syntax::Symbol(name) => ExprView::Symbol(name),
        Syntax::List(items) => ExprView::List(
            Seq::new(
                items.len(),
                |i: int|
                    if 0 <= i < items.len() {
                        value_of(items[i])
                    } else {
                        ExprView::List(Seq::empty())
                    },
            ),
        ),
    }
}

} // verus!
