//! Expressions in writing.
//!
//! A symbol is written as its name, an operator as its spelling, an integer in
//! decimal, and a list as its items between parentheses with one space between
//! two of them. A binary64 value is written as the shortest decimal number
//! that is read back as that value.

use vstd::prelude::*;
use crate::error::{decimal, numeral};
use crate::expr::{spelling, ExprView, SchemeExpr};
use crate::shortest::{number_text, write_number};

verus! {

/// An integer in decimal, with a minus sign before a negative one.
pub open spec fn signed_numeral(value: int) -> Seq<char> {
    if value < 0 {
        seq!['-'] + numeral((-value) as nat)
    } else {
        numeral(value as nat)
    }
}

/// The texts one behind the other, with one space between two of them.
pub open spec fn spaced(texts: Seq<Seq<char>>) -> Seq<char>
    decreases texts.len(),
{
    if texts.len() == 0 {
        Seq::empty()
    } else if texts.len() == 1 {
        texts[0]
    } else {
        spaced(texts.drop_last()) + seq![' '] + texts.last()
    }
}

/// Each of the expressions in writing.
pub open spec fn written_each(items: Seq<ExprView>) -> Seq<Seq<char>>
    decreases items, 1nat,
{
    Seq::new(
        items.len(),
        |i: int|
            if 0 <= i < items.len() {
                written(items[i])
            } else {
                Seq::empty()
            },
    )
}

/// An expression in writing.
pub open spec fn written(e: ExprView) -> Seq<char>
    decreases e, 0nat,
{
    match e {
        ExprView::Symbol(name) => name,
        ExprView::Operation(op) => spelling(op),
        ExprView::Integer(value) => signed_numeral(value as int),
        ExprView::Float(bits) => number_text(bits),
        ExprView::List(items) => seq!['('] + spaced(written_each(items)) + seq![')'],
    }
}

/// Writes an integer in decimal.
fn signed_decimal(value: i64) -> (r: String)
    ensures
        r@ == signed_numeral(value as int),
{
    if value >= 0 {
        decimal(value as u64)
    } else {
        let magnitude: u64 = if value == i64::MIN {
            0x8000_0000_0000_0000
        } else {
            (-value) as u64
        };
        let mut r = "-".to_string();
        r.append(decimal(magnitude).as_str());
        proof {
            reveal_strlit("-");
            assert(r@ =~= signed_numeral(value as int));
        }
        r
    }
}

/// Writes an expression: the result is [`written`]`(..)`.
pub fn render(expression: &SchemeExpr) -> (r: String)
    ensures
        r@ == written(expression@),
    decreases expression,
{
    match expression {
        SchemeExpr::Symbol(name) => name.clone(),
        SchemeExpr::Operation(op) => op.text().to_string(),
        SchemeExpr::Integer(value) => signed_decimal(*value),
        SchemeExpr::Float(bits) => write_number(*bits),
        SchemeExpr::List(list) => {
            let ghost items = expression@->List_0;
            let mut r = "(".to_string();
            let mut i: usize = 0;
            proof {
                reveal_strlit("(");
                reveal_strlit(" ");
                assert(spaced(written_each(items).take(0)) =~= Seq::<char>::empty());
                assert(r@ =~= seq!['('] + spaced(written_each(items).take(0)));
            }
            while i < list.len()
                invariant
                    i <= list.len(),
                    *expression == SchemeExpr::List(*list),
                    items == expression@->List_0,
                    items.len() == list.len(),
                    " "@ == seq![' '],
                    r@ == seq!['('] + spaced(written_each(items).take(i as int)),
                decreases list.len() - i,
            {
                if i > 0 {
                    r.append(" ");
                }
                assert(items[i as int] == list[i as int]@);
                let item = render(&list[i]);
                r.append(item.as_str());
                proof {
                    let texts = written_each(items).take(i + 1);
                    assert(texts.drop_last() =~= written_each(items).take(i as int));
                    assert(texts.last() == written(items[i as int]));
                    if i == 0 {
                        assert(spaced(texts.drop_last()) =~= Seq::<char>::empty());
                    }
                    assert(r@ =~= seq!['('] + spaced(texts));
                }
                i += 1;
            }
            r.append(")");
            proof {
                reveal_strlit(")");
                assert(written_each(items).take(list.len() as int) =~= written_each(items));
            }
            r
        },
    }
}

} // verus!
