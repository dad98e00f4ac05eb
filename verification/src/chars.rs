//! The character classes that the grammar dispatches on.

use vstd::prelude::*;

verus! {

/// Whitespace between tokens: space, tab or newline.
pub open spec fn spec_is_space(c: char) -> bool {
    c == ' ' || c == '\n' || c == '\t'
}

/// A letter of a command name: `a` to `z`.
pub open spec fn spec_is_lower(c: char) -> bool {
    'a' <= c <= 'z'
}

/// A decimal digit: `0` to `9`.
pub open spec fn spec_is_digit(c: char) -> bool {
    '0' <= c <= '9'
}

/// A character of a list word: a letter of either case or one of `+ * / %`.
pub open spec fn spec_is_word_char(c: char) -> bool {
    ('a' <= c <= 'z') || ('A' <= c <= 'Z') || c == '+' || c == '*' || c == '/' || c == '%'
}

/// A character of a number literal: a digit or the decimal point.
pub open spec fn spec_is_number_char(c: char) -> bool {
    spec_is_digit(c) || c == '.'
}

/// The value of a digit character; meaningful where `is_digit(c)`.
pub open spec fn digit_value(c: char) -> u8 {
    (c as u32 - '0' as u32) as u8
}

/// The character of a digit value; meaningful where `d <= 9`.
pub open spec fn digit_char(d: u8) -> char {
    (d as u32 + '0' as u32) as char
}

#[verifier::when_used_as_spec(spec_is_space)]
pub fn is_space(c: char) -> (b: bool)
    ensures
        b == spec_is_space(c),
{
    c == ' ' || c == '\n' || c == '\t'
}

#[verifier::when_used_as_spec(spec_is_lower)]
pub fn is_lower(c: char) -> (b: bool)
    ensures
        b == spec_is_lower(c),
{
    'a' <= c && c <= 'z'
}

#[verifier::when_used_as_spec(spec_is_digit)]
pub fn is_digit(c: char) -> (b: bool)
    ensures
        b == spec_is_digit(c),
{
    '0' <= c && c <= '9'
}

#[verifier::when_used_as_spec(spec_is_word_char)]
pub fn is_word_char(c: char) -> (b: bool)
    ensures
        b == spec_is_word_char(c),
{
    ('a' <= c && c <= 'z') || ('A' <= c && c <= 'Z') || c == '+' || c == '*' || c == '/' || c
        == '%'
}

#[verifier::when_used_as_spec(spec_is_number_char)]
pub fn is_number_char(c: char) -> (b: bool)
    ensures
        b == spec_is_number_char(c),
{
    is_digit(c) || c == '.'
}

/// The value of a digit character.
pub(crate) fn value_of_digit(c: char) -> (d: u8)
    requires
        is_digit(c),
    ensures
        d == digit_value(c),
        d <= 9,
{
    (c as u32 - '0' as u32) as u8
}

/// The character of a digit value.
pub(crate) fn char_of_digit(d: u8) -> (c: char)
    requires
        d <= 9,
    ensures
        c == digit_char(d),
        is_digit(c),
        digit_value(c) == d,
{
    (d + 48u8) as char
}

/// A class of characters of which a token is a run.
#[derive(Clone, Copy, Debug, PartialEq, Eq)]
pub enum Class {
    /// The letters of a command name.
    Lower,
    /// The decimal digits.
    Digit,
    /// The characters of a number literal.
    NumberChar,
    /// The characters of a list word.
    WordChar,
}

impl Class {
    /// Whether `c` belongs to the class.
    pub open spec fn spec_has(self, c: char) -> bool {
        match self {
            Class::Lower => is_lower(c),
            Class::Digit => is_digit(c),
            Class::NumberChar => is_number_char(c),
            Class::WordChar => is_word_char(c),
        }
    }

    /// Whether `c` belongs to the class.
    #[verifier::when_used_as_spec(spec_has)]
    pub fn has(self, c: char) -> (b: bool)
        ensures
            b == self.spec_has(c),
    {
        match self {
            Class::Lower => is_lower(c),
            Class::Digit => is_digit(c),
            Class::NumberChar => is_number_char(c),
            Class::WordChar => is_word_char(c),
        }
    }
}

/// How many characters of `text`, counted from `pos` on, belong to `class`
/// before the first that does not, or before the text ends.
pub open spec fn run(text: Seq<char>, pos: int, class: Class) -> nat
    decreases text.len() - pos,
{
    if 0 <= pos < text.len() && class.has(text[pos]) {
        1 + run(text, pos + 1, class)
    } else {
        0
    }
}

/// A run is the longest stretch of characters of its class: it stays inside
/// the text, all its characters belong to the class, and the character
/// after it, if there is one, does not.
pub proof fn lemma_run(text: Seq<char>, pos: int, class: Class)
    requires
        0 <= pos <= text.len(),
    ensures
        pos + run(text, pos, class) <= text.len(),
        forall|i: int| pos <= i < pos + run(text, pos, class) ==> class.has(#[trigger] text[i]),
        pos + run(text, pos, class) < text.len() ==> !class.has(
            text[pos + run(text, pos, class)],
        ),
    decreases text.len() - pos,
{
    if pos < text.len() && class.has(text[pos]) {
        lemma_run(text, pos + 1, class);
    }
}

/// The converse: a stretch of characters of a class that the end of the text
/// or a character of another class ends is the run.
pub proof fn lemma_run_is(text: Seq<char>, pos: int, end: int, class: Class)
    requires
        0 <= pos <= end <= text.len(),
        forall|i: int| pos <= i < end ==> class.has(#[trigger] text[i]),
        end < text.len() ==> !class.has(text[end]),
    ensures
        run(text, pos, class) == end - pos,
    decreases end - pos,
{
    if pos < end {
        lemma_run_is(text, pos + 1, end, class);
    }
}

/// The characters of a string, in order.
pub fn to_chars(text: &str) -> (chars: Vec<char>)
    ensures
        chars@ == text@,
{
    let mut chars: Vec<char> = Vec::new();
    for c in it: text.chars()
        invariant
            chars@ == it.seq().take(it.index() as int),
    {
        chars.push(c);
    }
    chars
}

} // verus!
