//! The expression tree and its mathematical model.

use vstd::prelude::*;

verus! {

/// The ten operator tags.
#[derive(Debug, PartialEq, Eq, Structural, Clone, Copy)]
pub enum SchemeOp {
    Div,
    Mul,
    Add,
    Sub,
    Mod,
    Gt,
    Lt,
    Leq,
    Geq,
    Eq,
}

/// How an operator is written.
pub open spec fn spelling(op: SchemeOp) -> Seq<char> {
    match op {
        SchemeOp::Div => seq!['/'],
        SchemeOp::Mul => seq!['*'],
        SchemeOp::Add => seq!['+'],
        SchemeOp::Sub => seq!['-'],
        SchemeOp::Mod => seq!['%'],
        SchemeOp::Gt => seq!['>'],
        SchemeOp::Lt => seq!['<'],
        SchemeOp::Leq => seq!['<', '='],
        SchemeOp::Geq => seq!['>', '='],
        SchemeOp::Eq => seq!['='],
    }
}

impl SchemeOp {
    /// The operator as it is written.
    pub fn text(&self) -> (r: &'static str)
        ensures
            r@ == spelling(*self),
    {
        proof {
            reveal_strlit("/");
            reveal_strlit("*");
            reveal_strlit("+");
            reveal_strlit("-");
            reveal_strlit("%");
            reveal_strlit(">");
            reveal_strlit("<");
            reveal_strlit("<=");
            reveal_strlit(">=");
            reveal_strlit("=");
        }
        let r = match self {
            SchemeOp::Div => "/",
            SchemeOp::Mul => "*",
            SchemeOp::Add => "+",
            SchemeOp::Sub => "-",
            SchemeOp::Mod => "%",
            SchemeOp::Gt => ">",
            SchemeOp::Lt => "<",
            SchemeOp::Leq => "<=",
            SchemeOp::Geq => ">=",
            SchemeOp::Eq => "=",
        };
        assert(r@ =~= spelling(*self));
        r
    }
}

/// An expression: what the parser builds and what the evaluator reduces.
///
/// `Float` holds the bit pattern of a binary64 value. `Integer` is never
/// built by the parser; an operator converts it to binary64 before use.
#[derive(Debug, PartialEq)]
pub enum SchemeExpr {
    Symbol(String),
    Operation(SchemeOp),
    Integer(i64),
    Float(u64),
    List(Vec<SchemeExpr>),
}

/// The model of a [`SchemeExpr`]: names are sequences of characters and lists
/// are sequences of models.
pub enum ExprView {
    Symbol(Seq<char>),
    Operation(SchemeOp),
    Integer(i64),
    Float(u64),
    List(Seq<ExprView>),
}

/// The model of an expression.
pub open spec fn model(e: SchemeExpr) -> ExprView
    decreases e,
{
    match e {
        SchemeExpr::Symbol(name) => ExprView::Symbol(name@),
        SchemeExpr::Operation(op) => ExprView::Operation(op),
        SchemeExpr::Integer(value) => ExprView::Integer(value),
        SchemeExpr::Float(bits) => ExprView::Float(bits),
        SchemeExpr::List(items) => ExprView::List(
            Seq::new(
                items@.len(),
                |i: int|
                    if 0 <= i < items@.len() {
                        model(items@[i])
                    } else {
                        ExprView::List(Seq::empty())
                    },
            ),
        ),
    }
}

impl View for SchemeExpr {
    type V = ExprView;

    open spec fn view(&self) -> ExprView {
        model(*self)
    }
}

/// Copies an expression.
fn duplicate(e: &SchemeExpr) -> (r: SchemeExpr)
    ensures
        r@ == e@,
    decreases e,
{
    match e {
        SchemeExpr::Symbol(name) => SchemeExpr::Symbol(name.clone()),
        SchemeExpr::Operation(op) => SchemeExpr::Operation(*op),
        SchemeExpr::Integer(value) => SchemeExpr::Integer(*value),
        SchemeExpr::Float(bits) => SchemeExpr::Float(*bits),
        SchemeExpr::List(items) => {
            let mut copies: Vec<SchemeExpr> = Vec::new();
            let mut i: usize = 0;
            while i < items.len()
                invariant
                    i <= items.len(),
                    copies.len() == i,
                    *e == SchemeExpr::List(*items),
                    forall|j: int| 0 <= j < i ==> (#[trigger] copies[j])@ == items[j]@,
                decreases items.len() - i,
            {
                assert(e->List_0 == *items);
                copies.push(duplicate(&items[i]));
                i += 1;
            }
            assert(SchemeExpr::List(copies)@->List_0 =~= e@->List_0);
            SchemeExpr::List(copies)
        },
    }
}

impl Clone for SchemeExpr {
    /// A copy with the same model.
    fn clone(&self) -> (r: Self)
        ensures
            r@ == self@,
    {
        duplicate(self)
    }
}

} // verus!
