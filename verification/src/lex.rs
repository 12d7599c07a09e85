//! Characters and runs of characters: what the grammar is made of below
//! the level of expressions.

use vstd::prelude::*;

verus! {

/// Whether `char::is_alphanumeric` holds of a character.
pub uninterp spec fn alphanumeric(c: char) -> bool;

/// `char::is_alphanumeric` tells whether a character is a letter or a
/// number.
#[verifier::external_body]
fn is_alphanumeric(c: char) -> (r: bool)
    ensures
        r == alphanumeric(c),
{
    c.is_alphanumeric()
}

/// Whether `c` is one of the 128 ASCII characters.
pub open spec fn is_ascii(c: char) -> bool {
    c <= '\u{7f}'
}

/// Whether `c` is a letter or a number.  Of the ASCII characters these are
/// `a` to `z`, `A` to `Z` and `0` to `9`; of the others, those that
/// `char::is_alphanumeric` takes for one.
pub open spec fn is_letter_or_number(c: char) -> bool {
    if is_ascii(c) {
        ('a' <= c <= 'z') || ('A' <= c <= 'Z') || ('0' <= c <= '9')
    } else {
        alphanumeric(c)
    }
}

/// Tells whether `c` is a letter or a number.
pub fn letter_or_number(c: char) -> (r: bool)
    ensures
        r == is_letter_or_number(c),
{
    if c <= '\u{7f}' {
        ('a' <= c && c <= 'z') || ('A' <= c && c <= 'Z') || ('0' <= c && c <= '9')
    } else {
        is_alphanumeric(c)
    }
}

/// Whether `c` is one of the blanks that may stand between tokens.
pub open spec fn is_blank(c: char) -> bool {
    c == ' ' || c == '\t' || c == '\r' || c == '\n'
}

/// Whether `c` is a decimal digit.
pub open spec fn is_digit(c: char) -> bool {
    '0' <= c <= '9'
}

/// Whether `c` may stand in a name or a key: a letter, a number, `_`, `-`
/// or `$`.
pub open spec fn is_plain(c: char) -> bool {
    is_letter_or_number(c) || c == '_' || c == '-' || c == '$'
}

/// Whether `c` may stand unescaped in a string: anything but `\`, `"` and
/// the end of a line.
pub open spec fn is_ordinary(c: char) -> bool {
    c != '\\' && c != '"' && c != '\n'
}

/// The kinds of characters that make up runs.
#[derive(Debug, Clone, Copy, PartialEq, Eq, Structural)]
pub enum Class {
    Blank,
    Digit,
    Plain,
    Ordinary,
}

/// Whether `c` is of class `class`.
pub open spec fn in_class(class: Class, c: char) -> bool {
    match class {
        Class::Blank => is_blank(c),
        Class::Digit => is_digit(c),
        Class::Plain => is_plain(c),
        Class::Ordinary => is_ordinary(c),
    }
}

/// Tells whether `c` is of class `class`.
pub fn has_class(class: Class, c: char) -> (r: bool)
    ensures
        r == in_class(class, c),
{
    match class {
        Class::Blank => c == ' ' || c == '\t' || c == '\r' || c == '\n',
        Class::Digit => '0' <= c && c <= '9',
        Class::Plain => letter_or_number(c) || c == '_' || c == '-' || c == '$',
        Class::Ordinary => c != '\\' && c != '"' && c != '\n',
    }
}

/// The end of the longest run of characters of class `class` that starts at
/// `pos`.
pub open spec fn run_end(input: Seq<char>, pos: int, class: Class) -> int
    decreases input.len() - pos,
{
    if 0 <= pos < input.len() && in_class(class, input[pos]) {
        run_end(input, pos + 1, class)
    } else {
        pos
    }
}

/// A run ends no earlier than it starts, and within the input; every
/// character of it is of the class, and the next one is not.
pub proof fn lemma_run_end(input: Seq<char>, pos: int, class: Class)
    requires
        0 <= pos <= input.len(),
    ensures
        pos <= run_end(input, pos, class) <= input.len(),
        forall|i: int| pos <= i < run_end(input, pos, class) ==> in_class(class, #[trigger] input[i]),
        run_end(input, pos, class) < input.len() ==> !in_class(
            class,
            input[run_end(input, pos, class)],
        ),
    decreases input.len() - pos,
{
    if pos < input.len() && in_class(class, input[pos]) {
        lemma_run_end(input, pos + 1, class);
    }
}

/// Finds the end of the run of class `class` that starts at `pos`.
pub fn scan_run(input: &Vec<char>, pos: usize, class: Class) -> (r: usize)
    requires
        pos <= input.len(),
    ensures
        r == run_end(input@, pos as int, class),
        pos <= r <= input.len(),
{
    let mut i: usize = pos;
    while i < input.len() && has_class(class, input[i])
        invariant
            pos <= i <= input.len(),
            run_end(input@, pos as int, class) == run_end(input@, i as int, class),
        decreases input.len() - i,
    {
        i += 1;
    }
    i
}

/// The position after the blanks that start at `pos`.
pub open spec fn after_blanks(input: Seq<char>, pos: int) -> int {
    run_end(input, pos, Class::Blank)
}

/// Skips the blanks that start at `pos`.
pub fn skip_blanks(input: &Vec<char>, pos: usize) -> (r: usize)
    requires
        pos <= input.len(),
    ensures
        r == after_blanks(input@, pos as int),
        pos <= r <= input.len(),
{
    scan_run(input, pos, Class::Blank)
}

/// Whether the character at `pos` is `c`.
pub open spec fn char_at(input: Seq<char>, pos: int, c: char) -> bool {
    0 <= pos < input.len() && input[pos] == c
}

/// Tells whether the character at `pos` is `c`.
pub fn is_char_at(input: &Vec<char>, pos: usize, c: char) -> (r: bool)
    ensures
        r == char_at(input@, pos as int, c),
{
    pos < input.len() && input[pos] == c
}

/// Whether `text` stands at `pos`.
pub open spec fn text_at(input: Seq<char>, pos: int, text: Seq<char>) -> bool {
    0 <= pos && pos + text.len() <= input.len() && input.subrange(pos, pos + text.len()) == text
}

/// The lower-case form of an ASCII letter, and any other character as it
/// is.
pub open spec fn lowered(c: char) -> char {
    if 'A' <= c <= 'Z' {
        ((c as u8) + 32) as char
    } else {
        c
    }
}

/// Whether `text` stands at `pos` when ASCII letters are compared without
/// regard to case.
pub open spec fn caseless_at(input: Seq<char>, pos: int, text: Seq<char>) -> bool {
    0 <= pos && pos + text.len() <= input.len() && forall|i: int|
        0 <= i < text.len() ==> lowered(#[trigger] input[pos + i]) == lowered(text[i])
}

fn lower(c: char) -> (r: char)
    ensures
        r == lowered(c),
{
    if 'A' <= c && c <= 'Z' {
        ((c as u8) + 32) as char
    } else {
        c
    }
}

/// Tells whether `text` stands at `pos`.
pub fn is_text_at(input: &Vec<char>, pos: usize, text: &Vec<char>) -> (r: bool)
    ensures
        r == text_at(input@, pos as int, text@),
{
    if pos > input.len() || text.len() > input.len() - pos {
        return false;
    }
    let mut i: usize = 0;
    while i < text.len()
        invariant
            i <= text.len(),
            pos + text.len() <= input.len(),
            forall|j: int| 0 <= j < i ==> input@[pos + j] == text@[j],
        decreases text.len() - i,
    {
        if input[pos + i] != text[i] {
            assert(input@.subrange(pos as int, pos + text.len())[i as int] == input@[pos + i]);
            return false;
        }
        i += 1;
    }
    assert(input@.subrange(pos as int, pos + text.len()) =~= text@);
    true
}

/// Tells whether `text` stands at `pos` without regard to the case of ASCII
/// letters.
pub fn is_caseless_at(input: &Vec<char>, pos: usize, text: &Vec<char>) -> (r: bool)
    ensures
        r == caseless_at(input@, pos as int, text@),
{
    if pos > input.len() || text.len() > input.len() - pos {
        return false;
    }
    let mut i: usize = 0;
    while i < text.len()
        invariant
            i <= text.len(),
            pos + text.len() <= input.len(),
            forall|j: int| 0 <= j < i ==> lowered(#[trigger] input@[pos + j]) == lowered(text@[j]),
        decreases text.len() - i,
    {
        if lower(input[pos + i]) != lower(text[i]) {
            return false;
        }
        i += 1;
    }
    true
}

} // verus!
