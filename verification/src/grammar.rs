//! The grammar of the language, as functions from a text and a position to
//! what the parser makes of it.
//!
//! ```text
//! stream      := '[' (stage | ws)* ']'
//! stage       := cmd | '|' | '>'
//! cmd         := cmd_name (cmd_arg | ws)*
//! cmd_name    := letter* (ws | end of input)
//! cmd_arg     := number | '-' number | list | stream
//! list        := '(' (list_member | ws)* ')'
//! list_member := stream_idx | word | number | '-' number | '-'
//! stream_idx  := '$' digit+
//! word        := (letter | '+' | '*' | '/' | '%')+
//! number      := digits and at most one '.', with at least one digit
//! ```
//!
//! Every production reads from left to right, decides by the next character
//! alone and never goes back. It yields a tree and the number of characters
//! it consumed; where it fails the tree is an `Error`, and the offending
//! character, if there is one, counts as consumed.

use vstd::prelude::*;
use crate::chars::{is_digit, is_lower, is_space, is_word_char, lemma_run, run, Class};
use crate::decimal::{
    digit_values,
    digits_value,
    is_decimal_literal,
    numeral_of,
};
use crate::message::{invalid, truncated, unexpected, Expected, Literal};
use crate::syntax::Syntax;

verus! {

/// What a production makes of the text at a position.
pub struct Outcome {
    /// The tree; an `Error` where the production fails.
    pub tree: Syntax,
    /// How many characters the production consumed.
    pub consumed: nat,
}

/// What a repeated production makes of the text at a position.
pub enum Items {
    /// One of the items failed, or the text ended too early.
    Failed { message: Seq<char>, consumed: nat },
    /// The items in order, up to what ends them.
    Done { nodes: Seq<Syntax>, consumed: nat },
}

impl Items {
    /// How many characters were consumed, whether the items failed or not.
    pub open spec fn consumed(self) -> nat {
        match self {
            Items::Failed { consumed, .. } => consumed,
            Items::Done { consumed, .. } => consumed,
        }
    }
}

/// A failure with the given message.
pub open spec fn failure(message: Seq<char>, consumed: nat) -> Outcome {
    Outcome { tree: Syntax::Error(message), consumed }
}

/// The items `rest`, found after `count` more characters were consumed.
pub open spec fn after(count: nat, rest: Items) -> Items {
    match rest {
        Items::Failed { message, consumed } => Items::Failed { message, consumed: count + consumed },
        Items::Done { nodes, consumed } => Items::Done { nodes, consumed: count + consumed },
    }
}

/// The item `first` followed by the items `rest`. If `first` is an error,
/// it is the result and `rest` does not count.
pub open spec fn then(first: Outcome, rest: Items) -> Items {
    match first.tree {
        Syntax::Error(message) => Items::Failed { message, consumed: first.consumed },
        _ => match rest {
            Items::Failed { message, consumed } => Items::Failed {
                message,
                consumed: first.consumed + consumed,
            },
            Items::Done { nodes, consumed } => Items::Done {
                nodes: seq![first.tree] + nodes,
                consumed: first.consumed + consumed,
            },
        },
    }
}

/// The items `rest`, found after the items `nodes`, which took `count`
/// characters.
pub open spec fn prefixed(nodes: Seq<Syntax>, count: nat, rest: Items) -> Items {
    match rest {
        Items::Failed { message, consumed } => Items::Failed { message, consumed: count + consumed },
        Items::Done { nodes: more, consumed } => Items::Done {
            nodes: nodes + more,
            consumed: count + consumed,
        },
    }
}

/// Nothing before the items leaves them as they are.
pub proof fn lemma_prefixed_by_nothing(rest: Items)
    ensures
        prefixed(Seq::empty(), 0, rest) == rest,
{
    match rest {
        Items::Failed { .. } => {},
        Items::Done { nodes, .. } => {
            assert(Seq::<Syntax>::empty() + nodes =~= nodes);
        },
    }
}

/// Characters skipped between the items count as consumed.
pub proof fn lemma_prefixed_after(nodes: Seq<Syntax>, count: nat, skipped: nat, rest: Items)
    ensures
        prefixed(nodes, count, after(skipped, rest)) == prefixed(nodes, count + skipped, rest),
{
}

/// One more item joins the items before it; if it is an error, the error
/// is the result.
pub proof fn lemma_prefixed_then(nodes: Seq<Syntax>, count: nat, first: Outcome, rest: Items)
    ensures
        first.tree matches Syntax::Error(message) ==> prefixed(nodes, count, then(first, rest))
            == (Items::Failed { message, consumed: count + first.consumed }),
        !(first.tree is Error) ==> prefixed(nodes, count, then(first, rest)) == prefixed(
            nodes.push(first.tree),
            count + first.consumed,
            rest,
        ),
{
    if !(first.tree is Error) {
        match rest {
            Items::Failed { .. } => {},
            Items::Done { nodes: more, .. } => {
                assert(nodes + (seq![first.tree] + more) =~= nodes.push(first.tree) + more);
            },
        }
    }
}

/// The list whose opening parenthesis preceded `members`.
pub open spec fn as_list(members: Items) -> Outcome {
    match members {
        Items::Failed { message, consumed } => failure(message, 1 + consumed),
        Items::Done { nodes, consumed } => Outcome {
            tree: Syntax::List(nodes),
            consumed: 1 + consumed,
        },
    }
}

/// The stream whose opening bracket preceded `stages`.
pub open spec fn as_stream(stages: Items) -> Outcome {
    match stages {
        Items::Failed { message, consumed } => failure(message, 1 + consumed),
        Items::Done { nodes, consumed } => Outcome {
            tree: Syntax::Stream(nodes),
            consumed: 1 + consumed,
        },
    }
}

/// The command with the given name and arguments. If the name is an error,
/// it is the result and the arguments do not count.
pub open spec fn as_command(name: Outcome, arguments: Items) -> Outcome {
    match name.tree {
        Syntax::Error(_) => name,
        _ => match arguments {
            Items::Failed { message, consumed } => failure(message, name.consumed + consumed),
            Items::Done { nodes, consumed } => Outcome {
                tree: Syntax::Cmd(seq![name.tree] + nodes),
                consumed: name.consumed + consumed,
            },
        },
    }
}

/// Whether `c` may end a member of a list: whitespace or `)`.
pub open spec fn ends_member(c: char) -> bool {
    is_space(c) || c == ')'
}

/// Whether `c` may end a number: whitespace, `)` or `]`.
pub open spec fn ends_number(c: char) -> bool {
    is_space(c) || c == ')' || c == ']'
}

/// How many characters are left from `pos` on; the measure by which the
/// productions terminate.
pub open spec fn left(text: Seq<char>, pos: int) -> nat {
    if pos < text.len() {
        (text.len() - pos) as nat
    } else {
        0
    }
}

/// The name of a command: a run of lower-case letters. Whitespace ends it
/// and is consumed with it; so does the end of the input. Any other
/// character is an error.
pub open spec fn cmd_name(text: Seq<char>, pos: int) -> Outcome {
    let length = run(text, pos, Class::Lower);
    let end = pos + length;
    let name = Syntax::CmdName(text.subrange(pos, end));
    if !(0 <= end < text.len()) {
        Outcome { tree: name, consumed: length }
    } else if is_space(text[end]) {
        Outcome { tree: name, consumed: length + 1 }
    } else {
        failure(unexpected(Expected::CommandName, text[end]), length + 1)
    }
}

/// A number: a run of digits and decimal points that whitespace, `)`, `]` or
/// the end of the input ends, none of which is consumed. The run must be a
/// decimal literal. `positive` is false where a minus sign preceded it.
pub open spec fn number(text: Seq<char>, pos: int, positive: bool) -> Outcome {
    let length = run(text, pos, Class::NumberChar);
    let end = pos + length;
    let literal = text.subrange(pos, end);
    if 0 <= end < text.len() && !ends_number(text[end]) {
        failure(unexpected(Expected::Number, text[end]), length + 1)
    } else if is_decimal_literal(literal) {
        Outcome { tree: Syntax::Number(numeral_of(literal, !positive)), consumed: length }
    } else {
        failure(invalid(Literal::Number, literal), length)
    }
}

/// A stream index: `$` and a run of digits that whitespace or `)` ends,
/// neither of which is consumed, or the end of the input after at least one
/// digit. The digits must denote a number that fits a `usize`.
pub open spec fn stream_idx(text: Seq<char>, pos: int) -> Outcome {
    if !(0 <= pos < text.len()) {
        failure(truncated(Expected::IndexSign), 0)
    } else if text[pos] != '$' {
        failure(unexpected(Expected::IndexSign, text[pos]), 1)
    } else {
        let length = run(text, pos + 1, Class::Digit);
        let end = pos + 1 + length;
        let literal = text.subrange(pos + 1, end);
        if end < text.len() && !ends_member(text[end]) {
            failure(unexpected(Expected::Index, text[end]), length + 2)
        } else if end >= text.len() && length == 0 {
            failure(truncated(Expected::Index), 1)
        } else if length > 0 && digits_value(digit_values(literal)) <= usize::MAX {
            Outcome {
                tree: Syntax::StreamIdx(digits_value(digit_values(literal)) as int),
                consumed: length + 1,
            }
        } else {
            failure(invalid(Literal::Index, literal), length + 1)
        }
    }
}

/// A word: a run of letters and operator characters that whitespace or `)`
/// ends, neither of which is consumed. The end of the input is an error.
pub open spec fn word(text: Seq<char>, pos: int) -> Outcome {
    let length = run(text, pos, Class::WordChar);
    let end = pos + length;
    if !(0 <= end < text.len()) {
        failure(truncated(Expected::Word), length)
    } else if ends_member(text[end]) {
        Outcome { tree: Syntax::Word(text.subrange(pos, end)), consumed: length }
    } else {
        failure(unexpected(Expected::Word, text[end]), length + 1)
    }
}

/// A token that starts with a character of its own class consumes it.
pub proof fn lemma_token_progress(text: Seq<char>, pos: int)
    requires
        0 <= pos < text.len(),
    ensures
        is_lower(text[pos]) ==> cmd_name(text, pos).consumed >= 1,
        is_digit(text[pos]) ==> forall|positive: bool|
            (#[trigger] number(text, pos, positive)).consumed >= 1,
        is_word_char(text[pos]) ==> word(text, pos).consumed >= 1,
        text[pos] == '$' ==> stream_idx(text, pos).consumed >= 1,
{
    lemma_run(text, pos, Class::Lower);
    lemma_run(text, pos, Class::NumberChar);
    lemma_run(text, pos, Class::WordChar);
}

/// The members of a list, from `pos` up to the `)` that closes it.
///
/// Whitespace is skipped. `$` starts a stream index, a letter or operator
/// character a word, a digit a number. A `-` negates the number that
/// follows it at once, or stands as a word of its own before whitespace or
/// `)`. The end of the input is an error.
pub open spec fn list_members(text: Seq<char>, pos: int) -> Items
    decreases left(text, pos),
{
    if !(0 <= pos < text.len()) {
        Items::Failed { message: truncated(Expected::ListEnd), consumed: 0 }
    } else {
        let c = text[pos];
        if is_space(c) {
            after(1, list_members(text, pos + 1))
        } else if c == ')' {
            Items::Done { nodes: Seq::empty(), consumed: 1 }
        } else if c == '$' {
            let index = stream_idx(text, pos);
            proof {
                lemma_token_progress(text, pos);
            }
            then(index, list_members(text, pos + index.consumed))
        } else if is_word_char(c) {
            let word = word(text, pos);
            proof {
                lemma_token_progress(text, pos);
            }
            then(word, list_members(text, pos + word.consumed))
        } else if is_digit(c) {
            let number = number(text, pos, true);
            proof {
                lemma_token_progress(text, pos);
            }
            then(number, list_members(text, pos + number.consumed))
        } else if c == '-' {
            if pos + 1 >= text.len() {
                Items::Failed { message: truncated(Expected::Digit), consumed: 1 }
            } else if is_digit(text[pos + 1]) {
                let number = number(text, pos + 1, false);
                after(1, then(number, list_members(text, pos + 1 + number.consumed)))
            } else if ends_member(text[pos + 1]) {
                then(
                    Outcome { tree: Syntax::Word(seq!['-']), consumed: 1 },
                    list_members(text, pos + 1),
                )
            } else {
                Items::Failed {
                    message: unexpected(Expected::Digit, text[pos + 1]),
                    consumed: 2,
                }
            }
        } else {
            Items::Failed { message: unexpected(Expected::ListMember, c), consumed: 1 }
        }
    }
}

/// A list: `(`, its members, and the `)` that closes it.
pub open spec fn list(text: Seq<char>, pos: int) -> Outcome {
    if !(0 <= pos < text.len()) {
        failure(truncated(Expected::ListStart), 0)
    } else if text[pos] != '(' {
        failure(unexpected(Expected::ListStart, text[pos]), 1)
    } else {
        as_list(list_members(text, pos + 1))
    }
}

/// The stages of a stream, from `pos` up to the `]` that closes it.
///
/// Whitespace is skipped. A lower-case letter starts a command; `|` and `>`
/// are pipes. The end of the input is an error.
pub open spec fn stages(text: Seq<char>, pos: int) -> Items
    decreases left(text, pos),
{
    if !(0 <= pos < text.len()) {
        Items::Failed { message: truncated(Expected::StreamEnd), consumed: 0 }
    } else {
        let c = text[pos];
        if is_space(c) {
            after(1, stages(text, pos + 1))
        } else if is_lower(c) {
            let name = cmd_name(text, pos);
            proof {
                lemma_token_progress(text, pos);
            }
            let command = as_command(name, arguments(text, pos + name.consumed));
            then(command, stages(text, pos + command.consumed))
        } else if c == '|' || c == '>' {
            then(Outcome { tree: Syntax::CmdPipe, consumed: 1 }, stages(text, pos + 1))
        } else if c == ']' {
            Items::Done { nodes: Seq::empty(), consumed: 1 }
        } else {
            Items::Failed { message: unexpected(Expected::Command, c), consumed: 1 }
        }
    }
}

/// The arguments of a command, from `pos` up to what ends the command: `|`,
/// `]` or the end of the input, none of which is consumed, or the `-` of an
/// arrow `->`, which is consumed while its `>` is not.
///
/// Whitespace is skipped. A digit starts a number, `(` a list, `[` a nested
/// stream. A `-` negates the number that follows it at once.
pub open spec fn arguments(text: Seq<char>, pos: int) -> Items
    decreases left(text, pos),
{
    if !(0 <= pos < text.len()) {
        Items::Done { nodes: Seq::empty(), consumed: 0 }
    } else {
        let c = text[pos];
        if c == '|' || c == ']' {
            Items::Done { nodes: Seq::empty(), consumed: 0 }
        } else if is_space(c) {
            after(1, arguments(text, pos + 1))
        } else if is_digit(c) {
            let number = number(text, pos, true);
            proof {
                lemma_token_progress(text, pos);
            }
            then(number, arguments(text, pos + number.consumed))
        } else if c == '(' {
            let list = list(text, pos);
            then(list, arguments(text, pos + list.consumed))
        } else if c == '[' {
            let stream = as_stream(stages(text, pos + 1));
            then(stream, arguments(text, pos + stream.consumed))
        } else if c == '-' {
            if pos + 1 >= text.len() {
                Items::Failed { message: truncated(Expected::DigitOrArrow), consumed: 1 }
            } else if is_digit(text[pos + 1]) {
                let number = number(text, pos + 1, false);
                after(1, then(number, arguments(text, pos + 1 + number.consumed)))
            } else if text[pos + 1] == '>' {
                Items::Done { nodes: Seq::empty(), consumed: 1 }
            } else {
                Items::Failed {
                    message: unexpected(Expected::DigitOrArrow, text[pos + 1]),
                    consumed: 2,
                }
            }
        } else {
            Items::Failed { message: unexpected(Expected::Argument, c), consumed: 1 }
        }
    }
}

/// A command: its name, then its arguments.
pub open spec fn cmd(text: Seq<char>, pos: int) -> Outcome {
    let name = cmd_name(text, pos);
    as_command(name, arguments(text, pos + name.consumed))
}

/// A stream: `[`, its stages, and the `]` that closes it.
pub open spec fn stream(text: Seq<char>, pos: int) -> Outcome {
    if !(0 <= pos < text.len()) {
        failure(truncated(Expected::StreamStart), 0)
    } else if text[pos] != '[' {
        failure(unexpected(Expected::StreamStart, text[pos]), 1)
    } else {
        as_stream(stages(text, pos + 1))
    }
}

/// A whole program: nothing at all, or one stream at the start of the text.
/// What follows the stream is not read.
pub open spec fn program(text: Seq<char>) -> Syntax {
    if text.len() == 0 {
        Syntax::Null
    } else {
        stream(text, 0).tree
    }
}

} // verus!
