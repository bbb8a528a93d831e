//! What is written is read back: every well-formed tree, written down with
//! one space between the items of a list, is what the grammar finds in the
//! writing.

use vstd::prelude::*;
use crate::expr::{spelling, SchemeOp};
use crate::decimal::sign_end;
use crate::grammar::{
    expression_at, items_at, list_at, literal_at, mantissa_end, operator_at, stands_at, symbol_at,
    Found, Syntax,
};
use crate::laws::{all_of, nothing_but_a_list, operator_needs_its_start, run_end_is_exact};
use crate::lexer::{has, lemma_run_end, member, run_end, Class};
use crate::show::spaced;

verus! {

/// A finding, with its positions moved on by `by`.
pub open spec fn moved<T>(found: Found<T>, by: int) -> Found<T> {
    match found {
        Found::Absent => Found::Absent,
        Found::Malformed(at, expected) => Found::Malformed(at + by, expected),
        Found::Present(tree, end) => Found::Present(tree, end + by),
    }
}

/// A run in a text that stands behind another text is the run in the text
/// itself, moved on.
pub proof fn run_end_moves(a: Seq<char>, t: Seq<char>, pos: int, class: Class)
    requires
        0 <= pos,
    ensures
        run_end(a + t, a.len() + pos, class) == a.len() + run_end(t, pos, class),
    decreases t.len() - pos,
{
    if pos < t.len() {
        assert((a + t)[a.len() + pos] == t[pos]);
        if member(class, t[pos]) {
            run_end_moves(a, t, pos + 1, class);
        }
    }
}

/// A run ends where it starts or later.
pub proof fn run_end_is_later(t: Seq<char>, pos: int, class: Class)
    ensures
        pos <= run_end(t, pos, class),
        0 <= pos ==> run_end(t, pos, class) <= t.len() || run_end(t, pos, class) == pos,
{
    if 0 <= pos <= t.len() {
        lemma_run_end(t, pos, class);
    }
}

/// A character stands in a text behind another text where it stands in the
/// text itself, moved on.
pub proof fn has_moves(a: Seq<char>, t: Seq<char>, pos: int, c: char)
    requires
        0 <= pos,
    ensures
        has(a + t, a.len() + pos, c) == has(t, pos, c),
{
    if pos < t.len() {
        assert((a + t)[a.len() + pos] == t[pos]);
    }
}

/// The literal of a number moves with its text.
pub proof fn literal_moves(a: Seq<char>, t: Seq<char>, pos: int)
    requires
        0 <= pos,
    ensures
        literal_at(a + t, a.len() + pos) == moved(literal_at(t, pos), a.len() as int),
{
    let s = a + t;
    let n = a.len() as int;
    has_moves(a, t, pos, '+');
    has_moves(a, t, pos, '-');
    let start = sign_end(t, pos);
    assert(sign_end(s, n + pos) == n + start);
    run_end_moves(a, t, start, Class::Digit);
    let whole = run_end(t, start, Class::Digit);
    run_end_is_later(t, start, Class::Digit);
    run_end_is_later(t, start + 1, Class::Digit);
    run_end_is_later(t, whole + 1, Class::Digit);
    has_moves(a, t, whole, '.');
    has_moves(a, t, start, '.');
    run_end_moves(a, t, whole + 1, Class::Digit);
    run_end_moves(a, t, start + 1, Class::Digit);
    match mantissa_end(t, start) {
        None => {
            assert(mantissa_end(s, n + start) is None);
        },
        Some(mantissa) => {
            assert(mantissa_end(s, n + start) == Some(n + mantissa));
            has_moves(a, t, mantissa, 'e');
            has_moves(a, t, mantissa, 'E');
            has_moves(a, t, mantissa + 1, '+');
            has_moves(a, t, mantissa + 1, '-');
            let digits = sign_end(t, mantissa + 1);
            assert(sign_end(s, n + mantissa + 1) == n + digits);
            run_end_moves(a, t, digits, Class::Digit);
            let end = run_end(t, digits, Class::Digit);
            run_end_is_later(t, digits, Class::Digit);
            if has(t, mantissa, 'e') || has(t, mantissa, 'E') {
                if end > digits {
                    assert(s.subrange(n + pos, n + end) =~= t.subrange(pos, end));
                }
            } else {
                assert(s.subrange(n + pos, n + mantissa) =~= t.subrange(pos, mantissa));
            }
        },
    }
}

/// A word stands in a text behind another text where it stands in the text
/// itself, moved on.
pub proof fn stands_at_moves(a: Seq<char>, t: Seq<char>, pos: int, word: Seq<char>)
    requires
        0 <= pos,
    ensures
        stands_at(a + t, a.len() + pos, word) == stands_at(t, pos, word),
{
    let s = a + t;
    let n = a.len() as int;
    if pos + word.len() <= t.len() {
        assert(s.subrange(n + pos, n + pos + word.len()) =~= t.subrange(pos, pos + word.len()));
    }
}

/// The operator moves with its text.
pub proof fn operator_moves(a: Seq<char>, t: Seq<char>, pos: int)
    requires
        0 <= pos,
    ensures
        operator_at(a + t, a.len() + pos) == moved(operator_at(t, pos), a.len() as int),
{
    assert forall|op: SchemeOp|
        stands_at(a + t, a.len() + pos, #[trigger] spelling(op)) == stands_at(t, pos, spelling(op)) by {
        stands_at_moves(a, t, pos, spelling(op));
    }
}

/// The symbol moves with its text.
pub proof fn symbol_moves(a: Seq<char>, t: Seq<char>, pos: int)
    requires
        0 <= pos,
    ensures
        symbol_at(a + t, a.len() + pos) == moved(symbol_at(t, pos), a.len() as int),
{
    let s = a + t;
    let n = a.len() as int;
    run_end_moves(a, t, pos, Class::Letter);
    let end = run_end(t, pos, Class::Letter);
    if end > pos {
        run_end_is_later(t, pos, Class::Letter);
        assert(s.subrange(n + pos, n + end) =~= t.subrange(pos, end));
    }
}

/// Whether a finding at `pos` lies in the text: what is present ends behind
/// `pos`, and what is malformed is so at `pos` or behind it.
pub open spec fn within<T>(found: Found<T>, t: Seq<char>, pos: int) -> bool {
    match found {
        Found::Absent => true,
        Found::Malformed(at, _) => pos <= at <= t.len(),
        Found::Present(_, end) => pos < end <= t.len(),
    }
}

/// The literal of a number lies in the text.
pub proof fn literal_lies_within(t: Seq<char>, pos: int)
    requires
        0 <= pos,
    ensures
        within(literal_at(t, pos), t, pos),
{
    let start = sign_end(t, pos);
    run_end_is_later(t, start, Class::Digit);
    run_end_is_later(t, start + 1, Class::Digit);
    let whole = run_end(t, start, Class::Digit);
    run_end_is_later(t, whole + 1, Class::Digit);
    match mantissa_end(t, start) {
        None => {},
        Some(mantissa) => {
            let digits = sign_end(t, mantissa + 1);
            run_end_is_later(t, digits, Class::Digit);
        },
    }
}

/// The expression, the list and the items of a list lie in the text.
pub proof fn expression_lies_within(t: Seq<char>, pos: int)
    requires
        0 <= pos,
    ensures
        within(expression_at(t, pos), t, pos),
    decreases t.len() - pos, 2nat,
{
    literal_lies_within(t, pos);
    run_end_is_later(t, pos, Class::Letter);
    if pos <= t.len() {
        list_lies_within(t, pos);
    } else {
        run_end_is_later(t, pos, Class::Space);
    }
}

/// The list lies in the text.
pub proof fn list_lies_within(t: Seq<char>, pos: int)
    requires
        0 <= pos <= t.len(),
    ensures
        within(list_at(t, pos), t, pos),
    decreases t.len() - pos, 1nat,
{
    let open = run_end(t, pos, Class::Space);
    lemma_run_end(t, pos, Class::Space);
    if has(t, open, '(') {
        let first = run_end(t, open + 1, Class::Space);
        lemma_run_end(t, open + 1, Class::Space);
        items_lie_within(t, first);
        match items_at(t, first) {
            Found::Present(items, end) => {
                lemma_run_end(t, end, Class::Space);
            },
            _ => {},
        }
    }
}

/// The items of a list lie in the text: they end at `pos` or behind it.
pub proof fn items_lie_within(t: Seq<char>, pos: int)
    requires
        0 <= pos <= t.len(),
    ensures
        match items_at(t, pos) {
            Found::Absent => false,
            Found::Malformed(at, _) => pos <= at <= t.len(),
            Found::Present(_, end) => pos <= end <= t.len(),
        },
    decreases t.len() - pos, 3nat,
{
    expression_lies_within(t, pos);
    match expression_at(t, pos) {
        Found::Present(item, end) => {
            let next = run_end(t, end, Class::Space);
            lemma_run_end(t, end, Class::Space);
            if end < next {
                items_lie_within(t, next);
            }
        },
        _ => {},
    }
}

/// The expression moves with its text: what stands at a position of a text
/// that stands behind another text is what stands at that position of the
/// text itself.
pub proof fn expression_moves(a: Seq<char>, t: Seq<char>, pos: int)
    requires
        0 <= pos,
    ensures
        expression_at(a + t, a.len() + pos) == moved(expression_at(t, pos), a.len() as int),
    decreases t.len() - pos, 2nat,
{
    literal_moves(a, t, pos);
    operator_moves(a, t, pos);
    symbol_moves(a, t, pos);
    if pos <= t.len() {
        list_moves(a, t, pos);
    } else {
        run_end_moves(a, t, pos, Class::Space);
        has_moves(a, t, pos, '(');
    }
}

/// The list moves with its text.
pub proof fn list_moves(a: Seq<char>, t: Seq<char>, pos: int)
    requires
        0 <= pos <= t.len(),
    ensures
        list_at(a + t, a.len() + pos) == moved(list_at(t, pos), a.len() as int),
    decreases t.len() - pos, 1nat,
{
    let n = a.len() as int;
    let open = run_end(t, pos, Class::Space);
    lemma_run_end(t, pos, Class::Space);
    run_end_moves(a, t, pos, Class::Space);
    has_moves(a, t, open, '(');
    if has(t, open, '(') {
        let first = run_end(t, open + 1, Class::Space);
        lemma_run_end(t, open + 1, Class::Space);
        run_end_moves(a, t, open + 1, Class::Space);
        items_move(a, t, first);
        items_lie_within(t, first);
        match items_at(t, first) {
            Found::Present(items, end) => {
                run_end_moves(a, t, end, Class::Space);
                lemma_run_end(t, end, Class::Space);
                has_moves(a, t, run_end(t, end, Class::Space), ')');
            },
            _ => {},
        }
    }
}

/// The items of a list move with their text.
pub proof fn items_move(a: Seq<char>, t: Seq<char>, pos: int)
    requires
        0 <= pos <= t.len(),
    ensures
        items_at(a + t, a.len() + pos) == moved(items_at(t, pos), a.len() as int),
    decreases t.len() - pos, 3nat,
{
    expression_moves(a, t, pos);
    expression_lies_within(t, pos);
    match expression_at(t, pos) {
        Found::Present(item, end) => {
            let next = run_end(t, end, Class::Space);
            lemma_run_end(t, end, Class::Space);
            run_end_moves(a, t, end, Class::Space);
            if end < next {
                items_move(a, t, next);
            }
        },
        _ => {},
    }
}

/// A tree in writing: a number as its literal, an operator as its spelling, a
/// symbol as its name, and a list as its items between parentheses, with one
/// space between two of them.
pub open spec fn spelled(tree: Syntax) -> Seq<char>
    decreases tree, 0nat,
{
    match tree {
        Syntax::Number(literal) => literal,
        Syntax::Operation(op) => spelling(op),
        Syntax::Symbol(name) => name,
        Syntax::List(items) => seq!['('] + spaced(spelled_each(items)) + seq![')'],
    }
}

/// Each of the trees in writing.
pub open spec fn spelled_each(items: Seq<Syntax>) -> Seq<Seq<char>>
    decreases items, 1nat,
{
    Seq::new(
        items.len(),
        |i: int|
            if 0 <= i < items.len() {
                spelled(items[i])
            } else {
                Seq::empty()
            },
    )
}

/// Whether a tree can be written: the literal of each number is a whole
/// literal, and the name of each symbol is made of letters, one at least.
pub open spec fn well_formed(tree: Syntax) -> bool
    decreases tree,
{
    match tree {
        Syntax::Number(literal) => literal_at(literal, 0) == Found::Present(literal, literal.len() as int),
        Syntax::Operation(_) => true,
        Syntax::Symbol(name) => name.len() > 0 && all_of(name, Class::Letter),
        Syntax::List(items) => forall|i: int| 0 <= i < items.len() ==> well_formed(#[trigger] items[i]),
    }
}

/// Whether a text closes what stands before it: it is empty, or begins with a
/// space or with a closing parenthesis.
pub open spec fn closing(rest: Seq<char>) -> bool {
    rest.len() == 0 || rest[0] == ' ' || rest[0] == ')'
}

/// A run of digits or letters in a text does not go on into a text that
/// closes it.
pub proof fn run_end_stops(t: Seq<char>, rest: Seq<char>, pos: int, class: Class)
    requires
        0 <= pos <= t.len(),
        closing(rest),
        class != Class::Space,
    ensures
        run_end(t + rest, pos, class) == run_end(t, pos, class),
    decreases t.len() - pos,
{
    if pos < t.len() {
        assert((t + rest)[pos] == t[pos]);
        if member(class, t[pos]) {
            run_end_stops(t, rest, pos + 1, class);
        }
    } else if rest.len() > 0 {
        assert((t + rest)[pos] == rest[0]);
    }
}

/// A character that is neither a space nor a closing parenthesis stands in a
/// text, and at its end, where it stands when a closing text follows.
pub proof fn has_stops(t: Seq<char>, rest: Seq<char>, pos: int, c: char)
    requires
        0 <= pos <= t.len(),
        closing(rest),
        c != ' ',
        c != ')',
    ensures
        has(t + rest, pos, c) == has(t, pos, c),
{
    if pos < t.len() {
        assert((t + rest)[pos] == t[pos]);
    } else if rest.len() > 0 {
        assert((t + rest)[pos] == rest[0]);
    }
}

/// A whole literal is the literal of the number that stands where a closing
/// text follows it.
pub proof fn literal_is_read_back(literal: Seq<char>, rest: Seq<char>)
    requires
        literal_at(literal, 0) == Found::Present(literal, literal.len() as int),
        closing(rest),
    ensures
        literal_at(literal + rest, 0) == Found::Present(literal, literal.len() as int),
{
    let t = literal;
    let s = literal + rest;
    literal_lies_within(t, 0);
    has_stops(t, rest, 0, '+');
    has_stops(t, rest, 0, '-');
    let start = sign_end(t, 0);
    assert(sign_end(s, 0) == start);
    run_end_is_later(t, start, Class::Digit);
    let whole = run_end(t, start, Class::Digit);
    if start <= t.len() {
        lemma_run_end(t, start, Class::Digit);
        run_end_stops(t, rest, start, Class::Digit);
        has_stops(t, rest, start, '.');
        has_stops(t, rest, whole, '.');
        if start + 1 <= t.len() {
            lemma_run_end(t, start + 1, Class::Digit);
            run_end_stops(t, rest, start + 1, Class::Digit);
        }
        if whole + 1 <= t.len() {
            lemma_run_end(t, whole + 1, Class::Digit);
            run_end_stops(t, rest, whole + 1, Class::Digit);
        }
    }
    match mantissa_end(t, start) {
        None => {},
        Some(mantissa) => {
            assert(mantissa_end(s, start) == Some(mantissa));
            assert(mantissa <= t.len());
            has_stops(t, rest, mantissa, 'e');
            has_stops(t, rest, mantissa, 'E');
            if has(t, mantissa, 'e') || has(t, mantissa, 'E') {
                has_stops(t, rest, mantissa + 1, '+');
                has_stops(t, rest, mantissa + 1, '-');
                let digits = sign_end(t, mantissa + 1);
                assert(sign_end(s, mantissa + 1) == digits);
                lemma_run_end(t, digits, Class::Digit);
                run_end_stops(t, rest, digits, Class::Digit);
            }
            assert(s.subrange(0, t.len() as int) =~= t);
            assert(t.subrange(0, t.len() as int) =~= t);
        },
    }
}

/// Whether a character can begin an expression in writing: it is no space and
/// no closing parenthesis.
pub open spec fn opening(c: char) -> bool {
    !member(Class::Space, c) && c != ')'
}

/// An operator is read back from its spelling where a closing text follows
/// it, and is not taken for a number.
pub proof fn operator_is_read_back(op: SchemeOp, rest: Seq<char>)
    requires
        closing(rest),
    ensures
        literal_at(spelling(op) + rest, 0) is Absent,
        operator_at(spelling(op) + rest, 0) == Found::Present(op, spelling(op).len() as int),
{
    let t = spelling(op);
    let s = t + rest;
    assert(s[0] == t[0]);
    assert(s.subrange(0, t.len() as int) =~= t);
    assert(stands_at(s, 0, spelling(op)));
    assert forall|other: SchemeOp| other != op && spelling(other).len() == t.len() implies !stands_at(
        s,
        0,
        #[trigger] spelling(other),
    ) by {
        if stands_at(s, 0, spelling(other)) {
            assert(s.subrange(0, spelling(other).len() as int)[0] == s[0]);
        }
    }
    if t.len() == 1 {
        assert forall|other: SchemeOp| spelling(other).len() == 2 implies !stands_at(
            s,
            0,
            #[trigger] spelling(other),
        ) by {
            if stands_at(s, 0, spelling(other)) {
                assert(s.subrange(0, 2)[1] == s[1]);
                assert(s[1] == rest[0]);
            }
        }
    }
    let start = sign_end(s, 0);
    run_end_is_exact(s, start, start, Class::Digit);
    if start < s.len() {
        assert(start == 1 ==> s[1] == rest[0]);
    }
}

/// A symbol is read back from its name where a closing text follows it, and
/// is taken for nothing else.
pub proof fn symbol_is_read_back(name: Seq<char>, rest: Seq<char>)
    requires
        name.len() > 0,
        all_of(name, Class::Letter),
        closing(rest),
    ensures
        literal_at(name + rest, 0) is Absent,
        operator_at(name + rest, 0) is Absent,
        symbol_at(name + rest, 0) == Found::Present(Syntax::Symbol(name), name.len() as int),
{
    let s = name + rest;
    assert(s[0] == name[0]);
    assert(member(Class::Letter, name[0]));
    run_end_is_exact(s, 0, 0, Class::Digit);
    operator_needs_its_start(s, 0);
    run_end_is_exact(name, 0, name.len() as int, Class::Letter);
    run_end_stops(name, rest, 0, Class::Letter);
    assert(s.subrange(0, name.len() as int) =~= name);
}

/// A well-formed tree in writing is not empty and begins with a character that
/// is no space and no closing parenthesis.
pub proof fn writing_has_an_opening(tree: Syntax)
    requires
        well_formed(tree),
    ensures
        spelled(tree).len() > 0,
        opening(spelled(tree)[0]),
{
    match tree {
        Syntax::Number(literal) => {
            literal_lies_within(literal, 0);
            let start = sign_end(literal, 0);
            run_end_is_later(literal, start, Class::Digit);
            if start < literal.len() {
                lemma_run_end(literal, start, Class::Digit);
            }
        },
        Syntax::Operation(op) => {},
        Syntax::Symbol(name) => {
            assert(member(Class::Letter, name[0]));
        },
        Syntax::List(items) => {},
    }
}

/// Texts with spaces between them, taken from the left: the first, and where
/// more follow, a space and the others with spaces between them.
pub proof fn spaced_from_the_left(texts: Seq<Seq<char>>)
    requires
        texts.len() >= 2,
    ensures
        spaced(texts) == texts[0] + seq![' '] + spaced(texts.drop_first()),
    decreases texts.len(),
{
    if texts.len() == 2 {
        assert(texts.drop_last().len() == 1);
        assert(texts.drop_first().len() == 1);
        assert(spaced(texts.drop_last()) == texts[0]);
        assert(spaced(texts.drop_first()) == texts[1]);
    } else {
        let front = texts.drop_last();
        spaced_from_the_left(front);
        assert(front.drop_first() =~= texts.drop_first().drop_last());
        assert(texts.drop_first().last() == texts.last());
        assert(spaced(texts) =~= texts[0] + seq![' '] + spaced(texts.drop_first()));
    }
}

/// What is written is read back: a well-formed tree in writing, with a text
/// behind it that closes it, is the expression that stands at the start.
pub proof fn written_is_read_back(tree: Syntax, rest: Seq<char>)
    requires
        well_formed(tree),
        closing(rest),
    ensures
        expression_at(spelled(tree) + rest, 0) == Found::Present(tree, spelled(tree).len() as int),
    decreases tree, 0nat,
{
    match tree {
        Syntax::Number(literal) => {
            literal_is_read_back(literal, rest);
        },
        Syntax::Operation(op) => {
            operator_is_read_back(op, rest);
        },
        Syntax::Symbol(name) => {
            symbol_is_read_back(name, rest);
        },
        Syntax::List(items) => {
            let body = spaced(spelled_each(items));
            let tail = body + seq![')'] + rest;
            let s = spelled(tree) + rest;
            assert(s =~= seq!['('] + tail);
            items_are_read_back(items, rest);
            items_move(seq!['('], tail, 0);
            let close = 1 + body.len() as int;
            assert(items_at(s, 1) == Found::Present(items, close));
            assert(s[0] == '(');
            assert(s[close] == ')');
            nothing_but_a_list(s, 0);
            run_end_is_exact(s, 0, 0, Class::Space);
            if items.len() == 0 {
                assert(body.len() == 0);
            } else {
                items_have_an_opening(items);
                assert(s[1] == body[0]);
            }
            run_end_is_exact(s, 1, 1, Class::Space);
            run_end_is_exact(s, close, close, Class::Space);
        },
    }
}

/// Where nothing but a closing parenthesis stands, there are no items.
proof fn no_items_before_the_end(rest: Seq<char>)
    ensures
        items_at(seq![')'] + rest, 0) == Found::Present(Seq::<Syntax>::empty(), 0),
{
    let s = seq![')'] + rest;
    assert(s[0] == ')');
    nothing_but_a_list(s, 0);
    run_end_is_exact(s, 0, 0, Class::Space);
}

/// One expression before a closing parenthesis is the one item.
proof fn one_item_before_the_end(word: Seq<char>, first: Syntax, rest: Seq<char>)
    requires
        word.len() > 0,
        expression_at(word + (seq![')'] + rest), 0) == Found::Present(first, word.len() as int),
    ensures
        items_at(word + (seq![')'] + rest), 0) == Found::Present(seq![first], word.len() as int),
{
    let s = word + (seq![')'] + rest);
    let q = word.len() as int;
    assert(s[q] == ')');
    run_end_is_exact(s, q, q, Class::Space);
}

/// One expression, a space, and the items that follow are the items.
proof fn one_item_before_others(word: Seq<char>, first: Syntax, later: Seq<char>, others: Seq<Syntax>, end: int)
    requires
        word.len() > 0,
        later.len() > 0,
        opening(later[0]),
        expression_at(word + (seq![' '] + later), 0) == Found::Present(first, word.len() as int),
        items_at(later, 0) == Found::Present(others, end),
    ensures
        items_at(word + (seq![' '] + later), 0) == Found::Present(seq![first] + others, word.len() + 1 + end),
{
    let s = word + (seq![' '] + later);
    let q = word.len() as int;
    assert(s[q] == ' ');
    assert(s[q + 1] == later[0]);
    run_end_is_exact(s, q, q + 1, Class::Space);
    assert(s =~= (word + seq![' ']) + later);
    items_move(word + seq![' '], later, 0);
}

/// The writing of items begins as the writing of the first of them begins.
proof fn items_have_an_opening(items: Seq<Syntax>)
    requires
        items.len() > 0,
        forall|i: int| 0 <= i < items.len() ==> well_formed(#[trigger] items[i]),
    ensures
        spaced(spelled_each(items)).len() > 0,
        opening(spaced(spelled_each(items))[0]),
{
    writing_has_an_opening(items[0]);
    let texts = spelled_each(items);
    assert(texts[0] == spelled(items[0]));
    if items.len() >= 2 {
        spaced_from_the_left(texts);
        assert(spaced(texts)[0] == texts[0][0]);
    } else {
        assert(spaced(texts) == texts[0]);
    }
}

/// The items of a list are read back from their writing, with one space
/// between two of them, where a closing parenthesis follows.
pub proof fn items_are_read_back(items: Seq<Syntax>, rest: Seq<char>)
    requires
        forall|i: int| 0 <= i < items.len() ==> well_formed(#[trigger] items[i]),
    ensures
        items_at(spaced(spelled_each(items)) + seq![')'] + rest, 0) == Found::Present(
            items,
            spaced(spelled_each(items)).len() as int,
        ),
    decreases items, 1nat,
{
    let texts = spelled_each(items);
    let body = spaced(texts);
    let s = body + seq![')'] + rest;
    if items.len() == 0 {
        no_items_before_the_end(rest);
        assert(s =~= seq![')'] + rest);
        assert(items =~= Seq::<Syntax>::empty());
    } else {
        let first = items[0];
        let word = spelled(first);
        assert(texts[0] == word);
        writing_has_an_opening(first);
        if items.len() == 1 {
            assert(body == word);
            let after = seq![')'] + rest;
            assert(s =~= word + after);
            written_is_read_back(first, after);
            one_item_before_the_end(word, first, rest);
            assert(seq![first] =~= items);
        } else {
            let others = items.drop_first();
            assert forall|i: int| 0 <= i < others.len() implies well_formed(#[trigger] others[i]) by {
                assert(others[i] == items[i + 1]);
            }
            assert(spelled_each(others) =~= texts.drop_first());
            spaced_from_the_left(texts);
            let later = spaced(spelled_each(others)) + seq![')'] + rest;
            assert(s =~= word + (seq![' '] + later));
            written_is_read_back(first, seq![' '] + later);
            items_have_an_opening(others);
            assert(later[0] == spaced(spelled_each(others))[0]);
            items_are_read_back(others, rest);
            one_item_before_others(word, first, later, others, spaced(spelled_each(others)).len() as int);
            assert(seq![first] + others =~= items);
        }
    }
}

} // verus!
