//! What holds of every parse, proved from the grammar.
//!
//! Each production stays inside the text. Where it fails, its message
//! reports what stood at the place where it stopped; where it succeeds, its
//! tree has the shape that the grammar gives it, with no error inside.

use vstd::prelude::*;
use crate::chars::{
    is_digit,
    is_lower,
    is_space,
    is_word_char,
    lemma_run,
    lemma_run_is,
    run,
    Class,
};
use crate::decimal::{
    digit_values,
    digits_value,
    fraction_part,
    is_decimal_literal,
    lemma_numeral_of_value,
    lemma_numeral_of_well_formed,
    numeral_of,
    pow10,
    whole_part,
};
use crate::grammar::{
    after,
    arguments,
    as_command,
    as_stream,
    cmd,
    cmd_name,
    ends_member,
    ends_number,
    failure,
    left,
    lemma_token_progress,
    list,
    list_members,
    number,
    program,
    stages,
    stream,
    stream_idx,
    then,
    word,
    Items,
    Outcome,
};
use crate::message::{invalid, truncated, unexpected, Expected, Literal};
use crate::syntax::{all_fit, lemma_shaped_is_error_free, Place, Syntax};

verus! {

/// Whether `message` reports a failure of a parse that stopped at `end`: it
/// names the character consumed last as the one it did not expect, or says
/// that the text ended there, or quotes a literal that ends there.
#[verifier::opaque]
pub open spec fn reports(message: Seq<char>, text: Seq<char>, end: int) -> bool {
    ||| 0 < end <= text.len() && exists|expected: Expected|
        message == #[trigger] unexpected(expected, text[end - 1])
    ||| end == text.len() && exists|expected: Expected| message == #[trigger] truncated(expected)
    ||| exists|kind: Literal, from: int|
        0 <= from <= end <= text.len() && message == #[trigger] invalid(
            kind,
            text.subrange(from, end),
        )
}

/// Naming the character consumed last reports a failure.
pub proof fn lemma_reports_unexpected(expected: Expected, text: Seq<char>, end: int)
    requires
        0 < end <= text.len(),
    ensures
        reports(unexpected(expected, text[end - 1]), text, end),
{
    reveal(reports);
}

/// Saying that the text ended reports a failure at its end.
pub proof fn lemma_reports_truncated(expected: Expected, text: Seq<char>)
    ensures
        reports(truncated(expected), text, text.len() as int),
{
    reveal(reports);
}

/// Quoting a literal reports a failure at its end.
pub proof fn lemma_reports_invalid(kind: Literal, text: Seq<char>, from: int, end: int)
    requires
        0 <= from <= end <= text.len(),
    ensures
        reports(invalid(kind, text.subrange(from, end)), text, end),
{
    reveal(reports);
}

/// Whether a production that yields `tree` at `pos`, having consumed
/// `consumed` characters, stays inside the text and, if it failed, reports
/// it.
pub open spec fn accounted(tree: Syntax, consumed: nat, text: Seq<char>, pos: int) -> bool {
    &&& pos + consumed <= text.len()
    &&& tree matches Syntax::Error(message) ==> reports(message, text, pos + consumed)
}

/// Whether `items`, found at `pos`, stay inside the text and are a failure
/// that reports it, or trees that may all stand at `place`.
pub open spec fn items_sound(items: Items, text: Seq<char>, pos: int, place: Place) -> bool {
    &&& pos + items.consumed() <= text.len()
    &&& match items {
        Items::Failed { message, consumed } => reports(message, text, pos + consumed),
        Items::Done { nodes, .. } => all_fit(nodes, place),
    }
}

/// Sound items stay sound after skipped characters.
proof fn lemma_after_sound(count: nat, rest: Items, text: Seq<char>, pos: int, place: Place)
    requires
        items_sound(rest, text, pos + count, place),
    ensures
        items_sound(after(count, rest), text, pos, place),
{
}

/// Sound items stay sound after one more item that is an accounted
/// failure or fits the place.
proof fn lemma_then_sound(first: Outcome, rest: Items, text: Seq<char>, pos: int, place: Place)
    requires
        accounted(first.tree, first.consumed, text, pos),
        first.tree is Error || first.tree.fits(place),
        items_sound(rest, text, pos + first.consumed, place),
    ensures
        items_sound(then(first, rest), text, pos, place),
{
    if !(first.tree is Error) {
        match rest {
            Items::Failed { .. } => {},
            Items::Done { nodes, .. } => {
                let all = seq![first.tree] + nodes;
                assert forall|i: int| 0 <= i < all.len() implies (#[trigger] all[i]).fits(
                    place,
                ) by {
                    if i > 0 {
                        assert(all[i] == nodes[i - 1]);
                    }
                }
            },
        }
    }
}

/// A command name stays inside the text, and is a failure that reports what
/// was found or a name of lower-case letters.
pub proof fn lemma_cmd_name_sound(text: Seq<char>, pos: int)
    requires
        0 <= pos <= text.len(),
    ensures
        accounted(cmd_name(text, pos).tree, cmd_name(text, pos).consumed, text, pos),
        cmd_name(text, pos).tree is Error || cmd_name(text, pos).tree.is_name(),
{
    lemma_run(text, pos, Class::Lower);
    let end = pos + cmd_name(text, pos).consumed;
    if cmd_name(text, pos).tree is Error {
        lemma_reports_unexpected(Expected::CommandName, text, end);
    }
}

/// A number stays inside the text, and is a failure that reports what was
/// found or a well-formed number.
pub proof fn lemma_number_sound(text: Seq<char>, pos: int, positive: bool)
    requires
        0 <= pos <= text.len(),
    ensures
        accounted(number(text, pos, positive).tree, number(text, pos, positive).consumed, text, pos),
        number(text, pos, positive).tree is Error || number(text, pos, positive).tree.is_number(),
{
    lemma_run(text, pos, Class::NumberChar);
    let length = run(text, pos, Class::NumberChar);
    let end = pos + length;
    let literal = text.subrange(pos, end);
    if end < text.len() && !ends_number(text[end]) {
        lemma_reports_unexpected(Expected::Number, text, end + 1);
    } else if is_decimal_literal(literal) {
        lemma_numeral_of_well_formed(literal, !positive);
    } else {
        lemma_reports_invalid(Literal::Number, text, pos, end);
    }
}

/// A word stays inside the text, and is a failure that reports what was
/// found or a word of letters and operator characters.
pub proof fn lemma_word_sound(text: Seq<char>, pos: int)
    requires
        0 <= pos <= text.len(),
    ensures
        accounted(word(text, pos).tree, word(text, pos).consumed, text, pos),
        word(text, pos).tree is Error || word(text, pos).tree.is_word(),
{
    lemma_run(text, pos, Class::WordChar);
    let end = pos + run(text, pos, Class::WordChar);
    if end >= text.len() {
        lemma_reports_truncated(Expected::Word, text);
    } else if !ends_member(text[end]) {
        lemma_reports_unexpected(Expected::Word, text, end + 1);
    }
}

/// A stream index stays inside the text, and is a failure that reports what
/// was found or an index that fits a `usize`.
pub proof fn lemma_stream_idx_sound(text: Seq<char>, pos: int)
    requires
        0 <= pos <= text.len(),
    ensures
        accounted(stream_idx(text, pos).tree, stream_idx(text, pos).consumed, text, pos),
        stream_idx(text, pos).tree is Error || (stream_idx(text, pos).tree matches Syntax::StreamIdx(
            index,
        ) && 0 <= index <= usize::MAX),
{
    if pos >= text.len() {
        lemma_reports_truncated(Expected::IndexSign, text);
    } else if text[pos] != '$' {
        lemma_reports_unexpected(Expected::IndexSign, text, pos + 1);
    } else {
        lemma_run(text, pos + 1, Class::Digit);
        let end = pos + 1 + run(text, pos + 1, Class::Digit);
        if end < text.len() && !ends_member(text[end]) {
            lemma_reports_unexpected(Expected::Index, text, end + 1);
        } else if end >= text.len() && end == pos + 1 {
            lemma_reports_truncated(Expected::Index, text);
        } else {
            lemma_reports_invalid(Literal::Index, text, pos + 1, end);
        }
    }
}

/// The members of a list stay inside the text, and are a failure that
/// reports what was found or numbers, words and stream indexes.
pub proof fn lemma_list_members_sound(text: Seq<char>, pos: int)
    requires
        0 <= pos <= text.len(),
    ensures
        items_sound(list_members(text, pos), text, pos, Place::Member),
    decreases left(text, pos),
{
    let place = Place::Member;
    if pos >= text.len() {
        lemma_reports_truncated(Expected::ListEnd, text);
    } else {
        let c = text[pos];
        lemma_token_progress(text, pos);
        if is_space(c) {
            lemma_list_members_sound(text, pos + 1);
            lemma_after_sound(1, list_members(text, pos + 1), text, pos, place);
        } else if c == ')' {
        } else if c == '$' || is_word_char(c) || is_digit(c) {
            let first = if c == '$' {
                stream_idx(text, pos)
            } else if is_word_char(c) {
                word(text, pos)
            } else {
                number(text, pos, true)
            };
            lemma_stream_idx_sound(text, pos);
            lemma_word_sound(text, pos);
            lemma_number_sound(text, pos, true);
            lemma_list_members_sound(text, pos + first.consumed);
            lemma_then_sound(first, list_members(text, pos + first.consumed), text, pos, place);
        } else if c == '-' {
            if pos + 1 >= text.len() {
                lemma_reports_truncated(Expected::Digit, text);
            } else if is_digit(text[pos + 1]) {
                let first = number(text, pos + 1, false);
                let rest = list_members(text, pos + 1 + first.consumed);
                lemma_number_sound(text, pos + 1, false);
                lemma_list_members_sound(text, pos + 1 + first.consumed);
                lemma_then_sound(first, rest, text, pos + 1, place);
                lemma_after_sound(1, then(first, rest), text, pos, place);
            } else if ends_member(text[pos + 1]) {
                let first = Outcome { tree: Syntax::Word(seq!['-']), consumed: 1 };
                lemma_list_members_sound(text, pos + 1);
                lemma_then_sound(first, list_members(text, pos + 1), text, pos, place);
            } else {
                lemma_reports_unexpected(Expected::Digit, text, pos + 2);
            }
        } else {
            lemma_reports_unexpected(Expected::ListMember, text, pos + 1);
        }
    }
}

/// A list stays inside the text, and is a failure that reports what was
/// found or a list of numbers, words and stream indexes.
pub proof fn lemma_list_sound(text: Seq<char>, pos: int)
    requires
        0 <= pos <= text.len(),
    ensures
        accounted(list(text, pos).tree, list(text, pos).consumed, text, pos),
        list(text, pos).tree is Error || list(text, pos).tree.is_list(),
{
    if pos >= text.len() {
        lemma_reports_truncated(Expected::ListStart, text);
    } else if text[pos] != '(' {
        lemma_reports_unexpected(Expected::ListStart, text, pos + 1);
    } else {
        lemma_list_members_sound(text, pos + 1);
        match list_members(text, pos + 1) {
            Items::Failed { .. } => {},
            Items::Done { nodes, .. } => {
                assert forall|i: int| 0 <= i < nodes.len() implies (
                #[trigger] nodes[i]).is_member() by {
                    assert(nodes[i].fits(Place::Member));
                }
            },
        }
    }
}

/// The stages of a stream stay inside the text, and are a failure that
/// reports what was found or commands and pipes.
pub proof fn lemma_stages_sound(text: Seq<char>, pos: int)
    requires
        0 <= pos <= text.len(),
    ensures
        items_sound(stages(text, pos), text, pos, Place::Stage),
    decreases left(text, pos),
{
    let place = Place::Stage;
    if pos >= text.len() {
        lemma_reports_truncated(Expected::StreamEnd, text);
    } else {
        let c = text[pos];
        if is_space(c) {
            lemma_stages_sound(text, pos + 1);
            lemma_after_sound(1, stages(text, pos + 1), text, pos, place);
        } else if is_lower(c) {
            let name = cmd_name(text, pos);
            let first = cmd(text, pos);
            lemma_token_progress(text, pos);
            lemma_cmd_name_sound(text, pos);
            lemma_arguments_sound(text, pos + name.consumed);
            lemma_command_sound(name, arguments(text, pos + name.consumed), text, pos);
            lemma_stages_sound(text, pos + first.consumed);
            lemma_then_sound(first, stages(text, pos + first.consumed), text, pos, place);
        } else if c == '|' || c == '>' {
            let first = Outcome { tree: Syntax::CmdPipe, consumed: 1 };
            lemma_stages_sound(text, pos + 1);
            lemma_then_sound(first, stages(text, pos + 1), text, pos, place);
        } else if c == ']' {
        } else {
            lemma_reports_unexpected(Expected::Command, text, pos + 1);
        }
    }
}

/// The arguments of a command stay inside the text, and are a failure that
/// reports what was found or numbers, lists and streams.
pub proof fn lemma_arguments_sound(text: Seq<char>, pos: int)
    requires
        0 <= pos <= text.len(),
    ensures
        items_sound(arguments(text, pos), text, pos, Place::Argument),
    decreases left(text, pos),
{
    let place = Place::Argument;
    if pos < text.len() {
        let c = text[pos];
        if c == '|' || c == ']' {
        } else if is_space(c) {
            lemma_arguments_sound(text, pos + 1);
            lemma_after_sound(1, arguments(text, pos + 1), text, pos, place);
        } else if is_digit(c) || c == '(' || c == '[' {
            let first = if is_digit(c) {
                number(text, pos, true)
            } else if c == '(' {
                list(text, pos)
            } else {
                stream(text, pos)
            };
            lemma_token_progress(text, pos);
            lemma_number_sound(text, pos, true);
            lemma_list_sound(text, pos);
            if c == '[' {
                lemma_stages_sound(text, pos + 1);
                lemma_enclosed_sound(stages(text, pos + 1), text, pos);
            }
            lemma_arguments_sound(text, pos + first.consumed);
            lemma_then_sound(first, arguments(text, pos + first.consumed), text, pos, place);
        } else if c == '-' {
            if pos + 1 >= text.len() {
                lemma_reports_truncated(Expected::DigitOrArrow, text);
            } else if is_digit(text[pos + 1]) {
                let first = number(text, pos + 1, false);
                let rest = arguments(text, pos + 1 + first.consumed);
                lemma_number_sound(text, pos + 1, false);
                lemma_arguments_sound(text, pos + 1 + first.consumed);
                lemma_then_sound(first, rest, text, pos + 1, place);
                lemma_after_sound(1, then(first, rest), text, pos, place);
            } else if text[pos + 1] == '>' {
            } else {
                lemma_reports_unexpected(Expected::DigitOrArrow, text, pos + 2);
            }
        } else {
            lemma_reports_unexpected(Expected::Argument, text, pos + 1);
        }
    }
}

/// A sound name and sound arguments make a sound command.
proof fn lemma_command_sound(name: Outcome, arguments: Items, text: Seq<char>, pos: int)
    requires
        accounted(name.tree, name.consumed, text, pos),
        name.tree is Error || name.tree.is_name(),
        items_sound(arguments, text, pos + name.consumed, Place::Argument),
    ensures
        accounted(
            as_command(name, arguments).tree,
            as_command(name, arguments).consumed,
            text,
            pos,
        ),
        as_command(name, arguments).tree is Error || as_command(name, arguments).tree.is_command(),
{
    if !(name.tree is Error) {
        match arguments {
            Items::Failed { .. } => {},
            Items::Done { nodes, .. } => {
                let parts = seq![name.tree] + nodes;
                assert(parts[0] == name.tree);
                assert forall|i: int| 1 <= i < parts.len() implies (
                #[trigger] parts[i]).is_argument() by {
                    assert(parts[i] == nodes[i - 1]);
                    assert(nodes[i - 1].fits(Place::Argument));
                }
            },
        }
    }
}

/// Sound stages after a bracket make a sound stream.
proof fn lemma_enclosed_sound(stages: Items, text: Seq<char>, pos: int)
    requires
        items_sound(stages, text, pos + 1, Place::Stage),
    ensures
        accounted(as_stream(stages).tree, as_stream(stages).consumed, text, pos),
        as_stream(stages).tree is Error || as_stream(stages).tree.is_stream(),
{
    match stages {
        Items::Failed { .. } => {},
        Items::Done { nodes, .. } => {
            assert forall|i: int| 0 <= i < nodes.len() implies (#[trigger] nodes[i]).is_stage() by {
                assert(nodes[i].fits(Place::Stage));
            }
        },
    }
}

/// A command stays inside the text, and is a failure that reports what was
/// found or a name followed by numbers, lists and streams.
pub proof fn lemma_cmd_sound(text: Seq<char>, pos: int)
    requires
        0 <= pos <= text.len(),
    ensures
        accounted(cmd(text, pos).tree, cmd(text, pos).consumed, text, pos),
        cmd(text, pos).tree is Error || cmd(text, pos).tree.is_command(),
{
    let name = cmd_name(text, pos);
    lemma_cmd_name_sound(text, pos);
    lemma_arguments_sound(text, pos + name.consumed);
    lemma_command_sound(name, arguments(text, pos + name.consumed), text, pos);
}

/// A stream stays inside the text, and is a failure that reports what was
/// found or a stream of commands and pipes.
pub proof fn lemma_stream_sound(text: Seq<char>, pos: int)
    requires
        0 <= pos <= text.len(),
    ensures
        accounted(stream(text, pos).tree, stream(text, pos).consumed, text, pos),
        stream(text, pos).tree is Error || stream(text, pos).tree.is_stream(),
{
    if pos >= text.len() {
        lemma_reports_truncated(Expected::StreamStart, text);
    } else if text[pos] != '[' {
        lemma_reports_unexpected(Expected::StreamStart, text, pos + 1);
    } else {
        lemma_stages_sound(text, pos + 1);
        lemma_enclosed_sound(stages(text, pos + 1), text, pos);
    }
}

/// A program is nothing where the text is empty and only there; otherwise
/// it is a failure that stands alone and reports what was found, or a
/// stream of commands and pipes with no error anywhere in it.
pub proof fn lemma_program_sound(text: Seq<char>)
    ensures
        text.len() == 0 <==> program(text) is Null,
        program(text) is Null || program(text) is Error || program(text).is_stream(),
        program(text) is Error || program(text).error_free(),
        program(text) matches Syntax::Error(message) ==> exists|end: int|
            0 <= end <= text.len() && #[trigger] reports(message, text, end),
{
    lemma_stream_sound(text, 0);
    if program(text).is_stream() {
        lemma_shaped_is_error_free(program(text));
    }
    if text.len() > 0 {
        let o = stream(text, 0);
        if o.tree is Error {
            assert(reports(o.tree->Error_0, text, o.consumed as int));
        }
    }
}

/// A decimal literal, read by itself as a number, is the number it denotes:
/// the mantissa of the result is the number before the point, shifted by as
/// many places as there are digits after the point, plus the number after
/// the point; the scale is that many places; and the result is negative
/// exactly where a minus sign preceded the literal.
pub proof fn lemma_number_reads_decimal(literal: Seq<char>, positive: bool)
    requires
        is_decimal_literal(literal),
    ensures
        number(literal, 0, positive) == (Outcome {
            tree: Syntax::Number(numeral_of(literal, !positive)),
            consumed: literal.len(),
        }),
        numeral_of(literal, !positive).negative == !positive,
        numeral_of(literal, !positive).scale == fraction_part(literal).len(),
        numeral_of(literal, !positive).mantissa() == digits_value(
            digit_values(whole_part(literal)),
        ) * pow10(fraction_part(literal).len()) + digits_value(
            digit_values(fraction_part(literal)),
        ),
{
    lemma_run_is(literal, 0, literal.len() as int, Class::NumberChar);
    assert(literal.subrange(0, literal.len() as int) =~= literal);
    lemma_numeral_of_value(literal, !positive);
}

/// Parsing is a function of the text: two trees that are parses of the same
/// text hold the same.
pub proof fn lemma_parse_is_deterministic(first: Syntax, second: Syntax, text: Seq<char>)
    requires
        first == program(text),
        second == program(text),
    ensures
        first == second,
{
}

/// What the end of the input means to each production: a list and a stream
/// still lack what closes them and a stream index its digits, while a
/// command is complete.
pub proof fn lemma_at_end_of_input(text: Seq<char>)
    ensures
        list_members(text, text.len() as int) == (Items::Failed {
            message: truncated(Expected::ListEnd),
            consumed: 0,
        }),
        stages(text, text.len() as int) == (Items::Failed {
            message: truncated(Expected::StreamEnd),
            consumed: 0,
        }),
        text.len() > 0 && text.last() == '$' ==> stream_idx(text, text.len() - 1) == failure(
            truncated(Expected::Index),
            1,
        ),
        arguments(text, text.len() as int) == (Items::Done { nodes: Seq::empty(), consumed: 0 }),
        cmd(text, text.len() as int) == (Outcome {
            tree: Syntax::Cmd(seq![Syntax::CmdName(Seq::empty())]),
            consumed: 0,
        }),
{
    let end = text.len() as int;
    assert(text.subrange(end, end) =~= Seq::<char>::empty());
    assert(seq![Syntax::CmdName(Seq::empty())] + Seq::<Syntax>::empty() =~= seq![
        Syntax::CmdName(Seq::empty()),
    ]);
}

} // verus!
