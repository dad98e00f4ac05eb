//! The text of syntax errors.
//!
//! Every error names what the parser expected and what it met instead: the
//! offending character, the end of the input, or a literal that has no value.

use vstd::prelude::*;

verus! {

/// Appending one character to a `String`: `String::push` of the standard
/// library. The contract says that the text afterwards is the text before
/// followed by `ch`, as the documentation of `push` does.
pub assume_specification[ String::push ](s: &mut String, ch: char)
    ensures
        final(s)@ == old(s)@.push(ch),
;

/// What a production was looking for when it failed.
#[derive(Clone, Copy, Debug, PartialEq, Eq)]
pub enum Expected {
    /// The `[` that opens a stream.
    StreamStart,
    /// The `]` that closes a stream.
    StreamEnd,
    /// The first letter of a command, where a stage begins.
    Command,
    /// A letter of a command name, or the whitespace that ends it.
    CommandName,
    /// An argument of a command.
    Argument,
    /// What may follow a `-` among the arguments: a digit, or `>`.
    DigitOrArrow,
    /// A character of a number.
    Number,
    /// The `(` that opens a list.
    ListStart,
    /// A member of a list.
    ListMember,
    /// The `)` that closes a list.
    ListEnd,
    /// The digit that may follow a `-` in a list.
    Digit,
    /// The `$` that opens a stream index.
    IndexSign,
    /// A digit of a stream index, or what ends it.
    Index,
    /// A character of a word, or what ends it.
    Word,
}

/// The kind of literal that was found to have no value.
#[derive(Clone, Copy, Debug, PartialEq, Eq)]
pub enum Literal {
    Number,
    Index,
}

impl Expected {
    /// How the expectation is worded in a message.
    pub open spec fn text(self) -> Seq<char> {
        match self {
            Expected::StreamStart => "stream start '['"@,
            Expected::StreamEnd => "end of stream ']'"@,
            Expected::Command => "cmd: 'a' ... 'z'"@,
            Expected::CommandName => "cmd_name: 'a' ... 'z'"@,
            Expected::Argument => "argument"@,
            Expected::DigitOrArrow => "'0' ... '9' or ->"@,
            Expected::Number => "number: '0' ... '9'"@,
            Expected::ListStart => "list start '('"@,
            Expected::ListMember => "list member"@,
            Expected::ListEnd => "end of list ')'"@,
            Expected::Digit => "'0' ... '9'"@,
            Expected::IndexSign => "index sign '$'"@,
            Expected::Index => "index: '0' ... '9' or list end ')'"@,
            Expected::Word => "word or list end ')'"@,
        }
    }

    /// The wording of the expectation.
    pub fn describe(self) -> (words: &'static str)
        ensures
            words@ == self.text(),
    {
        match self {
            Expected::StreamStart => "stream start '['",
            Expected::StreamEnd => "end of stream ']'",
            Expected::Command => "cmd: 'a' ... 'z'",
            Expected::CommandName => "cmd_name: 'a' ... 'z'",
            Expected::Argument => "argument",
            Expected::DigitOrArrow => "'0' ... '9' or ->",
            Expected::Number => "number: '0' ... '9'",
            Expected::ListStart => "list start '('",
            Expected::ListMember => "list member",
            Expected::ListEnd => "end of list ')'",
            Expected::Digit => "'0' ... '9'",
            Expected::IndexSign => "index sign '$'",
            Expected::Index => "index: '0' ... '9' or list end ')'",
            Expected::Word => "word or list end ')'",
        }
    }
}

impl Literal {
    /// How the kind of literal is worded in a message.
    pub open spec fn text(self) -> Seq<char> {
        match self {
            Literal::Number => "number"@,
            Literal::Index => "index"@,
        }
    }

    /// The wording of the kind of literal.
    pub fn describe(self) -> (words: &'static str)
        ensures
            words@ == self.text(),
    {
        match self {
            Literal::Number => "number",
            Literal::Index => "index",
        }
    }
}

/// The message for a character that the production cannot take:
/// `Expected <expectation>, found '<character>'`.
pub open spec fn unexpected(expected: Expected, found: char) -> Seq<char> {
    "Expected "@ + expected.text() + ", found '"@ + seq![found] + "'"@
}

/// The message for input that ends too early:
/// `Expected <expectation>, got end of input.`
pub open spec fn truncated(expected: Expected) -> Seq<char> {
    "Expected "@ + expected.text() + ", got end of input."@
}

/// The message for a literal that has no value:
/// `Found invalid <kind> literal: '<literal>'`.
pub open spec fn invalid(kind: Literal, literal: Seq<char>) -> Seq<char> {
    "Found invalid "@ + kind.text() + " literal: '"@ + literal + "'"@
}

/// Writes the message for a character that the production cannot take.
pub fn unexpected_message(expected: Expected, found: char) -> (message: String)
    ensures
        message@ == unexpected(expected, found),
{
    let mut message = String::from_str("Expected ");
    message.append(expected.describe());
    message.append(", found '");
    message.push(found);
    message.append("'");
    assert(message@ =~= unexpected(expected, found));
    message
}

/// Writes the message for input that ends too early.
pub fn truncated_message(expected: Expected) -> (message: String)
    ensures
        message@ == truncated(expected),
{
    let mut message = String::from_str("Expected ");
    message.append(expected.describe());
    message.append(", got end of input.");
    message
}

/// Writes the message for a literal that has no value.
pub fn invalid_message(kind: Literal, literal: &str) -> (message: String)
    ensures
        message@ == invalid(kind, literal@),
{
    let mut message = String::from_str("Found invalid ");
    message.append(kind.describe());
    message.append(" literal: '");
    message.append(literal);
    message.append("'");
    message
}

} // verus!
