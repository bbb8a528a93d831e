//! Characters and the runs of them that tokens are made of.

use vstd::prelude::*;

verus! {

/// The three classes of characters that the grammar knows.
#[derive(Debug, PartialEq, Eq, Structural, Clone, Copy)]
pub enum Class {
    /// The decimal digits `0` to `9`.
    Digit,
    /// The letters `a` to `z` and `A` to `Z`.
    Letter,
    /// Space, tab, carriage return and line feed.
    Space,
}

/// Whether a character belongs to a class.
pub open spec fn member(class: Class, c: char) -> bool {
    match class {
        Class::Digit => '0' <= c && c <= '9',
        Class::Letter => ('a' <= c && c <= 'z') || ('A' <= c && c <= 'Z'),
        Class::Space => c == ' ' || c == '\t' || c == '\r' || c == '\n',
    }
}

/// Whether the character `c` stands at `pos`.
pub open spec fn has(s: Seq<char>, pos: int, c: char) -> bool {
    0 <= pos < s.len() && s[pos] == c
}

/// Where the longest run of characters of `class` that starts at `pos` ends.
/// Without such a character at `pos` the run is empty and ends at `pos`.
pub open spec fn run_end(s: Seq<char>, pos: int, class: Class) -> int
    decreases s.len() - pos,
{
    if 0 <= pos < s.len() && member(class, s[pos]) {
        run_end(s, pos + 1, class)
    } else {
        pos
    }
}

/// A run ends where it starts or later, within the text, on a character that
/// is not of the class or on the end of the text, and holds only characters of
/// the class.
pub proof fn lemma_run_end(s: Seq<char>, pos: int, class: Class)
    requires
        0 <= pos <= s.len(),
    ensures
        pos <= run_end(s, pos, class) <= s.len(),
        forall|i: int| pos <= i < run_end(s, pos, class) ==> member(class, #[trigger] s[i]),
        run_end(s, pos, class) < s.len() ==> !member(class, s[run_end(s, pos, class)]),
    decreases s.len() - pos,
{
    if pos < s.len() && member(class, s[pos]) {
        lemma_run_end(s, pos + 1, class);
    }
}

/// Tests a character for membership in a class.
fn in_class(class: Class, c: char) -> (r: bool)
    ensures
        r == member(class, c),
{
    match class {
        Class::Digit => '0' <= c && c <= '9',
        Class::Letter => ('a' <= c && c <= 'z') || ('A' <= c && c <= 'Z'),
        Class::Space => c == ' ' || c == '\t' || c == '\r' || c == '\n',
    }
}

/// Finds the end of the run of `class` that starts at `pos`.
pub fn skip_run(text: &Vec<char>, pos: usize, class: Class) -> (end: usize)
    requires
        pos <= text.len(),
    ensures
        end == run_end(text@, pos as int, class),
        pos <= end <= text.len(),
{
    let mut i: usize = pos;
    while i < text.len() && in_class(class, text[i])
        invariant
            pos <= i <= text.len(),
            run_end(text@, i as int, class) == run_end(text@, pos as int, class),
        decreases text.len() - i,
    {
        i += 1;
    }
    i
}

/// The characters of a string, one by one.
pub fn characters(input: &str) -> (text: Vec<char>)
    ensures
        text@ == input@,
{
    let mut text: Vec<char> = Vec::new();
    for c in it: input.chars()
        invariant
            text@ == it.seq().take(it.index() as int),
            it.seq() == input@,
    {
        text.push(c);
        assert(text@ =~= it.seq().take(it.index() + 1));
    }
    assert(input@.take(input@.len() as int) =~= input@);
    text
}

} // verus!
