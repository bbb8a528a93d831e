//! The parser: from text to expression trees, as the grammar says.

use vstd::prelude::*;
use crate::error::{Expected, ParseError};
use crate::expr::{spelling, ExprView, SchemeExpr, SchemeOp};
use crate::decimal::{read_literal, sign_end};
use crate::grammar::{
    expression_at, items_at, list_at, literal_at, mantissa_end, number_at, operator_at, stands_at,
    symbol_at, value_of, Found, Syntax,
};
use crate::lexer::{characters, has, run_end, skip_run, Class};

verus! {

/// What the parser finds at a position: nothing of the form asked for,
/// something malformed, or a value that ends before the given position.
enum Scan<T> {
    Absent,
    Malformed(ParseError),
    Present(T, usize),
}

/// Whether `c` stands at `pos`.
fn at(text: &Vec<char>, pos: usize, c: char) -> (r: bool)
    ensures
        r == has(text@, pos as int, c),
{
    pos < text.len() && text[pos] == c
}

/// Steps over a sign at `pos`.
fn skip_sign(text: &Vec<char>, pos: usize) -> (end: usize)
    requires
        pos <= text.len(),
    ensures
        end == sign_end(text@, pos as int),
        pos <= end <= text.len(),
{
    if at(text, pos, '+') || at(text, pos, '-') {
        pos + 1
    } else {
        pos
    }
}

/// Finds the end of the mantissa at `pos`.
fn skip_mantissa(text: &Vec<char>, pos: usize) -> (r: Option<usize>)
    requires
        pos <= text.len(),
    ensures
        r == match mantissa_end(text@, pos as int) {
            Some(end) => Some(end as usize),
            None => None,
        },
        r matches Some(end) ==> pos < end <= text.len() && mantissa_end(text@, pos as int) == Some(end as int),
{
    let whole = skip_run(text, pos, Class::Digit);
    if whole > pos {
        if at(text, whole, '.') {
            Some(skip_run(text, whole + 1, Class::Digit))
        } else {
            Some(whole)
        }
    } else if at(text, pos, '.') {
        let end = skip_run(text, pos + 1, Class::Digit);
        if end > pos + 1 {
            Some(end)
        } else {
            None
        }
    } else {
        None
    }
}

/// Finds the number at `pos`: the end of its literal.
fn number_span(text: &Vec<char>, pos: usize) -> (r: Scan<()>)
    requires
        pos <= text.len(),
    ensures
        match literal_at(text@, pos as int) {
            Found::Absent => r is Absent,
            Found::Malformed(at, expected) => r == Scan::<()>::Malformed(
                ParseError { position: at as usize, expected },
            ) && 0 <= at <= text.len(),
            Found::Present(literal, end) => r == Scan::Present((), end as usize) && pos < end <= text.len(),
        },
{
    let start = skip_sign(text, pos);
    match skip_mantissa(text, start) {
        None => Scan::Absent,
        Some(mantissa) => {
            if at(text, mantissa, 'e') || at(text, mantissa, 'E') {
                let digits = skip_sign(text, mantissa + 1);
                let end = skip_run(text, digits, Class::Digit);
                if end > digits {
                    Scan::Present((), end)
                } else {
                    Scan::Malformed(ParseError { position: digits, expected: Expected::ExponentDigits })
                }
            } else {
                Scan::Present((), mantissa)
            }
        },
    }
}

/// Finds the operator at `pos`.
fn operator_span(text: &Vec<char>, pos: usize) -> (r: Scan<SchemeOp>)
    requires
        pos <= text.len(),
    ensures
        match operator_at(text@, pos as int) {
            Found::Present(op, end) => r == Scan::Present(op, end as usize) && pos < end <= text.len(),
            _ => r is Absent,
        },
{
    if pos >= text.len() {
        return Scan::Absent;
    }
    let c = text[pos];
    let ghost s = text@;
    let ghost p = pos as int;
    assert forall|op: SchemeOp| spelling(op).len() == 1 implies (stands_at(s, p, #[trigger] spelling(op)) <==> s[p]
        == spelling(op)[0]) by {
        if s[p] == spelling(op)[0] {
            assert(s.subrange(p, p + 1) =~= spelling(op));
        } else {
            assert(s.subrange(p, p + 1)[0] == s[p]);
        }
    }
    assert forall|op: SchemeOp| spelling(op).len() == 2 implies (stands_at(s, p, #[trigger] spelling(op)) <==> p + 1
        < s.len() && s[p] == spelling(op)[0] && s[p + 1] == spelling(op)[1]) by {
        if p + 1 < s.len() {
            if s[p] == spelling(op)[0] && s[p + 1] == spelling(op)[1] {
                assert(s.subrange(p, p + 2) =~= spelling(op));
            } else {
                assert(s.subrange(p, p + 2)[0] == s[p]);
                assert(s.subrange(p, p + 2)[1] == s[p + 1]);
            }
        }
    }
    let followed = at(text, pos + 1, '=');
    if c == '<' && followed {
        Scan::Present(SchemeOp::Leq, pos + 2)
    } else if c == '>' && followed {
        Scan::Present(SchemeOp::Geq, pos + 2)
    } else if c == '*' {
        Scan::Present(SchemeOp::Mul, pos + 1)
    } else if c == '/' {
        Scan::Present(SchemeOp::Div, pos + 1)
    } else if c == '+' {
        Scan::Present(SchemeOp::Add, pos + 1)
    } else if c == '-' {
        Scan::Present(SchemeOp::Sub, pos + 1)
    } else if c == '%' {
        Scan::Present(SchemeOp::Mod, pos + 1)
    } else if c == '>' {
        Scan::Present(SchemeOp::Gt, pos + 1)
    } else if c == '<' {
        Scan::Present(SchemeOp::Lt, pos + 1)
    } else if c == '=' {
        Scan::Present(SchemeOp::Eq, pos + 1)
    } else {
        Scan::Absent
    }
}

/// Whether what the parser found is what the grammar says stands there: the
/// same fault, or the same end and the expression that the tree stands for.
spec fn agrees(r: Scan<SchemeExpr>, found: Found<Syntax>) -> bool {
    match found {
        Found::Absent => r is Absent,
        Found::Malformed(at, expected) => r == Scan::<SchemeExpr>::Malformed(
            ParseError { position: at as usize, expected },
        ),
        Found::Present(tree, end) => r matches Scan::Present(e, stop) && stop == end && e@ == value_of(tree),
    }
}

/// The items found so far, put before what follows them.
spec fn prepend(trees: Seq<Syntax>, found: Found<Seq<Syntax>>) -> Found<Seq<Syntax>> {
    match found {
        Found::Present(rest, stop) => Found::Present(trees + rest, stop),
        Found::Malformed(at, expected) => Found::Malformed(at, expected),
        Found::Absent => Found::Absent,
    }
}

/// The characters of a text from `from` to `to`.
fn copied(text: &Vec<char>, from: usize, to: usize) -> (r: Vec<char>)
    requires
        from <= to <= text.len(),
    ensures
        r@ == text@.subrange(from as int, to as int),
{
    let mut r: Vec<char> = Vec::new();
    let mut i: usize = from;
    while i < to
        invariant
            from <= i <= to <= text.len(),
            r@ == text@.subrange(from as int, i as int),
        decreases to - i,
    {
        r.push(text[i]);
        assert(r@ =~= text@.subrange(from as int, i + 1));
        i += 1;
    }
    r
}

/// Parses the number at `pos`.
fn parse_float_at(text: &Vec<char>, pos: usize) -> (r: Scan<SchemeExpr>)
    requires
        pos <= text.len(),
    ensures
        agrees(r, number_at(text@, pos as int)),
        r matches Scan::Present(_, end) ==> pos < end <= text.len(),
        r matches Scan::Malformed(error) ==> error.position <= text.len(),
{
    match number_span(text, pos) {
        Scan::Present(_, end) => {
            let literal = copied(text, pos, end);
            Scan::Present(SchemeExpr::Float(read_literal(&literal)), end)
        },
        Scan::Malformed(error) => Scan::Malformed(error),
        Scan::Absent => Scan::Absent,
    }
}

/// Parses the operator at `pos`.
fn parse_op_at(text: &Vec<char>, pos: usize) -> (r: Scan<SchemeExpr>)
    requires
        pos <= text.len(),
    ensures
        match operator_at(text@, pos as int) {
            Found::Present(op, end) => r matches Scan::Present(e, stop) && stop == end && e@
                == ExprView::Operation(op) && pos < end <= text.len(),
            _ => r is Absent,
        },
{
    match operator_span(text, pos) {
        Scan::Present(op, end) => Scan::Present(SchemeExpr::Operation(op), end),
        _ => Scan::Absent,
    }
}

/// Parses the symbol at `pos`.
fn parse_symbol_at(input: &str, text: &Vec<char>, pos: usize) -> (r: Scan<SchemeExpr>)
    requires
        text@ == input@,
        pos <= text.len(),
    ensures
        match symbol_at(text@, pos as int) {
            Found::Present(tree, end) => r matches Scan::Present(e, stop) && stop == end && e@
                == ExprView::Symbol(tree->Symbol_0) && pos < end <= text.len(),
            _ => r is Absent,
        },
{
    let end = skip_run(text, pos, Class::Letter);
    if end > pos {
        let name = input.substring_char(pos, end).to_string();
        Scan::Present(SchemeExpr::Symbol(name), end)
    } else {
        Scan::Absent
    }
}

/// Parses the expression at `pos`.
fn parse_at(input: &str, text: &Vec<char>, pos: usize) -> (r: Scan<SchemeExpr>)
    requires
        text@ == input@,
        pos <= text.len(),
    ensures
        agrees(r, expression_at(text@, pos as int)),
        r matches Scan::Present(_, end) ==> pos < end <= text.len(),
        r matches Scan::Malformed(error) ==> error.position <= text.len(),
    decreases text.len() - pos, 1nat,
{
    match parse_float_at(text, pos) {
        Scan::Absent => {},
        found => {
            return found;
        },
    }
    match parse_op_at(text, pos) {
        Scan::Absent => {},
        found => {
            return found;
        },
    }
    match parse_symbol_at(input, text, pos) {
        Scan::Absent => {},
        found => {
            return found;
        },
    }
    parse_list_at(input, text, pos)
}

/// Parses the list at `pos`.
fn parse_list_at(input: &str, text: &Vec<char>, pos: usize) -> (r: Scan<SchemeExpr>)
    requires
        text@ == input@,
        pos <= text.len(),
    ensures
        agrees(r, list_at(text@, pos as int)),
        r matches Scan::Present(_, end) ==> pos < end <= text.len(),
        r matches Scan::Malformed(error) ==> error.position <= text.len(),
    decreases text.len() - pos, 0nat,
{
    let open = skip_run(text, pos, Class::Space);
    if !at(text, open, '(') {
        return Scan::Absent;
    }
    let first = skip_run(text, open + 1, Class::Space);
    let ghost s = text@;
    let mut items: Vec<SchemeExpr> = Vec::new();
    let ghost mut trees: Seq<Syntax> = Seq::empty();
    let mut p: usize = first;
    let mut more: bool = true;
    assert(prepend(trees, items_at(s, p as int)) == items_at(s, first as int)) by {
        match items_at(s, first as int) {
            Found::Present(rest, stop) => {
                assert(trees + rest =~= rest);
            },
            _ => {},
        }
    }
    while more
        invariant
            text@ == input@,
            s == text@,
            pos < first <= p <= text.len(),
            open == run_end(s, pos as int, Class::Space),
            has(s, open as int, '('),
            first == run_end(s, open + 1, Class::Space),
            items.len() == trees.len(),
            more ==> prepend(trees, items_at(s, p as int)) == items_at(s, first as int),
            !more ==> items_at(s, first as int) == Found::Present(trees, p as int),
            forall|j: int| 0 <= j < items.len() ==> (#[trigger] items[j])@ == value_of(trees[j]),
        decreases text.len() - p, if more { 1nat } else { 0nat },
    {
        match parse_at(input, text, p) {
            Scan::Absent => {
                assert(trees + Seq::<Syntax>::empty() =~= trees);
                more = false;
            },
            Scan::Malformed(error) => {
                return Scan::Malformed(error);
            },
            Scan::Present(item, end) => {
                let ghost tree = expression_at(s, p as int)->Present_0;
                let ghost before = trees;
                items.push(item);
                proof {
                    trees = trees.push(tree);
                }
                let next = skip_run(text, end, Class::Space);
                proof {
                    match items_at(s, next as int) {
                        Found::Present(rest, stop) => {
                            assert(before + (seq![tree] + rest) =~= trees + rest);
                        },
                        _ => {},
                    }
                    assert(before + seq![tree] =~= trees);
                }
                if next > end {
                    p = next;
                } else {
                    p = end;
                    more = false;
                }
            },
        }
    }
    let close = skip_run(text, p, Class::Space);
    if at(text, close, ')') {
        proof {
            assert(SchemeExpr::List(items)@->List_0 =~= value_of(Syntax::List(trees))->List_0);
        }
        Scan::Present(SchemeExpr::List(items), close + 1)
    } else {
        Scan::Malformed(ParseError { position: close, expected: Expected::ClosingParenthesis })
    }
}

/// Whether the result of parsing a whole text is what the grammar says stands
/// at its start. Where an expression stands there, the result holds what the
/// tree stands for and the rest of the text behind it. Where something is
/// malformed, the result is that fault. Where nothing of the form stands
/// there, the result says at position 0 that the form was expected.
pub open spec fn parsed(
    input: Seq<char>,
    r: Result<(&str, SchemeExpr), ParseError>,
    found: Found<Syntax>,
    form: Expected,
) -> bool {
    match found {
        Found::Absent => r == Err::<(&str, SchemeExpr), ParseError>(ParseError { position: 0, expected: form }),
        Found::Malformed(at, expected) => r == Err::<(&str, SchemeExpr), ParseError>(
            ParseError { position: at as usize, expected },
        ),
        Found::Present(tree, end) => r matches Ok((rest, e)) && rest@ == input.subrange(end, input.len() as int)
            && e@ == value_of(tree),
    }
}

/// Turns what was found at the start of `input` into the result of parsing
/// `input`: the expression with the rest of the text, or the failure.
fn finish<'a>(input: &'a str, total: usize, found: Scan<SchemeExpr>, form: Expected) -> (r: Result<
    (&'a str, SchemeExpr),
    ParseError,
>)
    requires
        total == input@.len(),
        found matches Scan::Present(_, end) ==> end <= total,
    ensures
        match found {
            Scan::Absent => r == Err::<(&str, SchemeExpr), ParseError>(ParseError { position: 0, expected: form }),
            Scan::Malformed(error) => r == Err::<(&str, SchemeExpr), ParseError>(error),
            Scan::Present(e, end) => r matches Ok((rest, out)) && out == e && rest@ == input@.subrange(
                end as int,
                total as int,
            ),
        },
{
    match found {
        Scan::Absent => Err(ParseError { position: 0, expected: form }),
        Scan::Malformed(error) => Err(error),
        Scan::Present(e, end) => Ok((input.substring_char(end, total), e)),
    }
}

/// Parses the expression at the start of `input`: a number, an operator, a
/// symbol or a list, as [`expression_at`] says.
pub fn parse_expr<'a>(input: &'a str) -> (r: Result<(&'a str, SchemeExpr), ParseError>)
    ensures
        parsed(input@, r, expression_at(input@, 0), Expected::Expression),
{
    let text = characters(input);
    let found = parse_at(input, &text, 0);
    finish(input, text.len(), found, Expected::Expression)
}

/// Parses the number at the start of `input`, as [`number_at`] says.
pub fn parse_float<'a>(input: &'a str) -> (r: Result<(&'a str, SchemeExpr), ParseError>)
    ensures
        parsed(input@, r, number_at(input@, 0), Expected::Number),
{
    let text = characters(input);
    let found = parse_float_at(&text, 0);
    finish(input, text.len(), found, Expected::Number)
}

/// Parses the operator at the start of `input`, as [`operator_at`] says.
pub fn parse_op<'a>(input: &'a str) -> (r: Result<(&'a str, SchemeExpr), ParseError>)
    ensures
        match operator_at(input@, 0) {
            Found::Present(op, end) => r matches Ok((rest, e)) && rest@ == input@.subrange(
                end,
                input@.len() as int,
            ) && e@ == ExprView::Operation(op),
            _ => r == Err::<(&str, SchemeExpr), ParseError>(
                ParseError { position: 0, expected: Expected::Operator },
            ),
        },
{
    let text = characters(input);
    let found = parse_op_at(&text, 0);
    finish(input, text.len(), found, Expected::Operator)
}

/// Parses the symbol at the start of `input`, as [`symbol_at`] says.
pub fn parse_symbol<'a>(input: &'a str) -> (r: Result<(&'a str, SchemeExpr), ParseError>)
    ensures
        match symbol_at(input@, 0) {
            Found::Present(tree, end) => r matches Ok((rest, e)) && rest@ == input@.subrange(
                end,
                input@.len() as int,
            ) && e@ == ExprView::Symbol(tree->Symbol_0),
            _ => r == Err::<(&str, SchemeExpr), ParseError>(
                ParseError { position: 0, expected: Expected::Symbol },
            ),
        },
{
    let text = characters(input);
    let found = parse_symbol_at(input, &text, 0);
    finish(input, text.len(), found, Expected::Symbol)
}

/// Parses the list at the start of `input`, as [`list_at`] says.
pub fn parse_list<'a>(input: &'a str) -> (r: Result<(&'a str, SchemeExpr), ParseError>)
    ensures
        parsed(input@, r, list_at(input@, 0), Expected::OpeningParenthesis),
{
    let text = characters(input);
    let found = parse_list_at(input, &text, 0);
    finish(input, text.len(), found, Expected::OpeningParenthesis)
}

} // verus!
