//! What becomes of a parse when the text is cut short.
//!
//! A list or a stream that parses needs all of its text: cut anywhere
//! before its end, it fails, and the failure says that the input ended. A
//! command does not: cut anywhere, it is a shorter command or such a
//! failure.

use vstd::prelude::*;
use crate::chars::{
    is_digit,
    is_lower,
    is_number_char,
    is_space,
    is_word_char,
    lemma_run,
    lemma_run_is,
    run,
    Class,
};
use crate::decimal::{digit_values, is_decimal_literal, lemma_digits_value_grows};
use crate::grammar::{
    after,
    arguments,
    cmd,
    cmd_name,
    left,
    lemma_token_progress,
    list,
    list_members,
    number,
    program,
    stages,
    stream,
    stream_idx,
    then,
    word,
    Items,
    Outcome,
};
use crate::message::{truncated, Expected};
use crate::syntax::Syntax;

verus! {

/// Whether `message` says that the input ended.
#[verifier::opaque]
pub open spec fn says_truncated(message: Seq<char>) -> bool {
    exists|expected: Expected| message == #[trigger] truncated(expected)
}

/// The message for input that ends too early says that the input ended.
pub proof fn lemma_says_truncated(expected: Expected)
    ensures
        says_truncated(truncated(expected)),
{
    reveal(says_truncated);
}

/// Whether `outcome` is a failure that consumed `count` characters and
/// says that the input ended.
pub open spec fn cut_short(outcome: Outcome, count: int) -> bool {
    &&& outcome.consumed == count
    &&& outcome.tree matches Syntax::Error(message) && says_truncated(message)
}

/// Whether `items` are a failure that consumed `count` characters and says
/// that the input ended.
pub open spec fn items_cut_short(items: Items, count: int) -> bool {
    items matches Items::Failed { message, consumed } && consumed == count && says_truncated(
        message,
    )
}

/// Whether `outcome` consumed `count` characters and is a tree or a
/// failure that says that the input ended.
pub open spec fn ends_with_input(outcome: Outcome, count: int) -> bool {
    &&& outcome.consumed == count
    &&& outcome.tree matches Syntax::Error(message) ==> says_truncated(message)
}

/// Whether `items` consumed `count` characters and are trees or a failure
/// that says that the input ended.
pub open spec fn items_end_with_input(items: Items, count: int) -> bool {
    &&& items.consumed() == count
    &&& items matches Items::Failed { message, .. } ==> says_truncated(message)
}

/// A run in a text cut at `n` is the run in the whole text, or what is left
/// of it before the cut.
pub proof fn lemma_run_cut(text: Seq<char>, n: int, pos: int, class: Class)
    requires
        0 <= pos <= n <= text.len(),
    ensures
        run(text.take(n), pos, class) == if pos + run(text, pos, class) <= n {
            run(text, pos, class)
        } else {
            (n - pos) as nat
        },
{
    let cut = text.take(n);
    let whole = run(text, pos, class);
    let end = if pos + whole <= n {
        pos + whole
    } else {
        n
    };
    lemma_run(text, pos, class);
    assert forall|i: int| pos <= i < end implies class.has(#[trigger] cut[i]) by {
        assert(cut[i] == text[i]);
    }
    if end < n {
        assert(cut[end] == text[end]);
    }
    lemma_run_is(cut, pos, end, class);
}

/// A word in a text cut after the character that ends it is the same word;
/// cut earlier, it lacks its end.
pub proof fn lemma_word_cut(text: Seq<char>, n: int, pos: int)
    requires
        0 <= pos <= n <= text.len(),
    ensures
        n > pos + run(text, pos, Class::WordChar) ==> word(text.take(n), pos) == word(text, pos),
        n <= pos + run(text, pos, Class::WordChar) ==> cut_short(word(text.take(n), pos), n - pos),
{
    let cut = text.take(n);
    let end = pos + run(text, pos, Class::WordChar);
    lemma_run_cut(text, n, pos, Class::WordChar);
    lemma_run(text, pos, Class::WordChar);
    if n > end {
        assert(cut[end] == text[end]);
        assert(cut.subrange(pos, end) =~= text.subrange(pos, end));
    } else {
        lemma_says_truncated(Expected::Word);
    }
}

/// A decimal literal that starts with a digit and is cut after one
/// character or more is a decimal literal.
pub proof fn lemma_decimal_literal_cut(literal: Seq<char>, n: int)
    requires
        is_decimal_literal(literal),
        0 < n <= literal.len(),
        is_digit(literal[0]),
    ensures
        is_decimal_literal(literal.take(n)),
{
    let cut = literal.take(n);
    assert forall|i: int| 0 <= i < cut.len() implies is_number_char(
        #[trigger] cut[i],
    ) by {
        assert(cut[i] == literal[i]);
    }
    assert forall|i: int, j: int| 0 <= i < j < cut.len() implies !(#[trigger] cut[i] == '.'
        && #[trigger] cut[j] == '.') by {
        assert(cut[i] == literal[i] && cut[j] == literal[j]);
    }
    assert(is_digit(cut[0]));
}

/// A number in a text cut at or after its end is the same number; cut
/// earlier, but after its first digit, it is a number still.
pub proof fn lemma_number_cut(text: Seq<char>, n: int, pos: int, positive: bool)
    requires
        0 <= pos <= n <= text.len(),
        !(number(text, pos, positive).tree is Error),
    ensures
        n >= pos + number(text, pos, positive).consumed ==> number(text.take(n), pos, positive)
            == number(text, pos, positive),
        pos < n < pos + number(text, pos, positive).consumed && is_digit(text[pos]) ==> number(
            text.take(n),
            pos,
            positive,
        ).tree is Number && number(text.take(n), pos, positive).consumed == n - pos,
{
    let cut = text.take(n);
    let end = pos + run(text, pos, Class::NumberChar);
    let literal = text.subrange(pos, end);
    lemma_run_cut(text, n, pos, Class::NumberChar);
    lemma_run(text, pos, Class::NumberChar);
    if n >= end {
        if n > end {
            assert(cut[end] == text[end]);
        }
        assert(cut.subrange(pos, end) =~= literal);
    } else if pos < n && is_digit(text[pos]) {
        assert(cut.subrange(pos, n) =~= literal.take(n - pos));
        lemma_decimal_literal_cut(literal, n - pos);
    }
}

/// A stream index in a text cut at or after its end is the same index; cut
/// earlier, but after its first digit, it is an index still; cut right
/// after its `$`, it lacks its digits.
pub proof fn lemma_stream_idx_cut(text: Seq<char>, n: int, pos: int)
    requires
        0 <= pos < n <= text.len(),
        text[pos] == '$',
        !(stream_idx(text, pos).tree is Error),
    ensures
        n >= pos + stream_idx(text, pos).consumed ==> stream_idx(text.take(n), pos) == stream_idx(
            text,
            pos,
        ),
        pos + 1 < n < pos + stream_idx(text, pos).consumed ==> stream_idx(
            text.take(n),
            pos,
        ).tree is StreamIdx && stream_idx(text.take(n), pos).consumed == n - pos,
        n == pos + 1 && n < pos + stream_idx(text, pos).consumed ==> cut_short(
            stream_idx(text.take(n), pos),
            1,
        ),
{
    let cut = text.take(n);
    let end = pos + 1 + run(text, pos + 1, Class::Digit);
    let literal = text.subrange(pos + 1, end);
    assert(cut[pos] == text[pos]);
    lemma_run_cut(text, n, pos + 1, Class::Digit);
    lemma_run(text, pos + 1, Class::Digit);
    if n >= end {
        if n > end {
            assert(cut[end] == text[end]);
        }
        assert(cut.subrange(pos + 1, end) =~= literal);
    } else if n == pos + 1 {
        lemma_says_truncated(Expected::Index);
    } else {
        let shorter = cut.subrange(pos + 1, n);
        assert(shorter =~= literal.take(n - pos - 1));
        assert(digit_values(shorter) =~= digit_values(literal).take(n - pos - 1));
        lemma_digits_value_grows(digit_values(shorter), digit_values(literal), n - pos - 1);
    }
}

/// A command name in a text cut at or after its end is the same name; cut
/// earlier, it is a shorter name.
pub proof fn lemma_cmd_name_cut(text: Seq<char>, n: int, pos: int)
    requires
        0 <= pos <= n <= text.len(),
        !(cmd_name(text, pos).tree is Error),
    ensures
        n >= pos + cmd_name(text, pos).consumed ==> cmd_name(text.take(n), pos) == cmd_name(
            text,
            pos,
        ),
        n < pos + cmd_name(text, pos).consumed ==> cmd_name(text.take(n), pos).tree is CmdName
            && cmd_name(text.take(n), pos).consumed == n - pos,
{
    let cut = text.take(n);
    let end = pos + run(text, pos, Class::Lower);
    lemma_run_cut(text, n, pos, Class::Lower);
    lemma_run(text, pos, Class::Lower);
    if n >= pos + cmd_name(text, pos).consumed {
        if end < text.len() {
            assert(cut[end] == text[end]);
        }
        assert(cut.subrange(pos, end) =~= text.subrange(pos, end));
    }
}

/// The members of a list that parse consume the `)` that closes the list,
/// so they consume at least that.
pub proof fn lemma_list_members_consume(text: Seq<char>, pos: int)
    requires
        list_members(text, pos) is Done,
    ensures
        list_members(text, pos).consumed() >= 1,
        0 <= pos < text.len(),
{
    lemma_token_progress(text, pos);
}

/// The members of a list that parse end with the `)` that closes the list.
pub proof fn lemma_list_members_closed(text: Seq<char>, pos: int)
    requires
        list_members(text, pos) is Done,
    ensures
        text[pos + list_members(text, pos).consumed() - 1] == ')',
    decreases left(text, pos),
{
    lemma_list_members_consume(text, pos);
    let c = text[pos];
    if is_space(c) {
        lemma_list_members_closed(text, pos + 1);
    } else if c == ')' {
    } else if c == '$' || is_word_char(c) || is_digit(c) {
        let first = first_member(text, pos, true);
        let rest = list_members(text, pos + first.consumed);
        lemma_token_progress(text, pos);
        assert(list_members(text, pos) == then(first, rest));
        lemma_list_members_closed(text, pos + first.consumed);
    } else if c == '-' {
        if is_digit(text[pos + 1]) {
            let first = number(text, pos + 1, false);
            let rest = list_members(text, pos + 1 + first.consumed);
            assert(list_members(text, pos) == after(1, then(first, rest)));
            lemma_list_members_closed(text, pos + 1 + first.consumed);
        } else {
            lemma_list_members_closed(text, pos + 1);
        }
    }
}

/// A list that parses starts with `(` and ends with `)`.
pub proof fn lemma_list_closed(text: Seq<char>, pos: int)
    requires
        list(text, pos).tree is List,
    ensures
        list(text, pos).consumed >= 2,
        text[pos] == '(',
        text[pos + list(text, pos).consumed - 1] == ')',
{
    lemma_list_members_consume(text, pos + 1);
    lemma_list_members_closed(text, pos + 1);
}

/// One item and the items after it, in the whole text and in the cut one:
/// if the item is the same where the cut comes after it and ends with the
/// input where the cut comes earlier, and the items after it are the same
/// or cut short, then so are all of them together.
proof fn lemma_step_cut(
    first: Outcome,
    rest: Items,
    first_cut: Outcome,
    rest_cut: Items,
    n: int,
    pos: int,
)
    requires
        !(first.tree is Error),
        rest is Done,
        rest.consumed() >= 1,
        n > pos + first.consumed ==> first_cut == first,
        n <= pos + first.consumed ==> ends_with_input(first_cut, n - pos) && items_cut_short(
            rest_cut,
            0,
        ),
        n >= pos + first.consumed + rest.consumed() ==> rest_cut == rest,
        pos + first.consumed < n < pos + first.consumed + rest.consumed() ==> items_cut_short(
            rest_cut,
            n - pos - first.consumed,
        ),
    ensures
        n >= pos + then(first, rest).consumed() ==> then(first_cut, rest_cut) == then(first, rest),
        n < pos + then(first, rest).consumed() ==> items_cut_short(
            then(first_cut, rest_cut),
            n - pos,
        ),
{
}

/// The members of a list in a text cut at or after the `)` that closes the
/// list are the same members; cut earlier, they are cut short.
pub proof fn lemma_list_members_cut(text: Seq<char>, n: int, pos: int)
    requires
        0 <= pos <= n <= text.len(),
        list_members(text, pos) is Done,
    ensures
        n >= pos + list_members(text, pos).consumed() ==> list_members(text.take(n), pos)
            == list_members(text, pos),
        n < pos + list_members(text, pos).consumed() ==> items_cut_short(
            list_members(text.take(n), pos),
            n - pos,
        ),
    decreases left(text, pos),
{
    let cut = text.take(n);
    lemma_list_members_consume(text, pos);
    lemma_says_truncated(Expected::ListEnd);
    lemma_says_truncated(Expected::Digit);
    assert(items_cut_short(list_members(cut, n), 0));
    if n > pos {
        let c = text[pos];
        assert(cut[pos] == c);
        if is_space(c) {
            lemma_list_members_cut(text, n, pos + 1);
        } else if c == ')' {
        } else if c == '$' || is_word_char(c) || is_digit(c) {
            lemma_first_member_cut(text, n, pos, true);
            let first = first_member(text, pos, true);
            let first_cut = first_member(cut, pos, true);
            let end = pos + first.consumed;
            lemma_list_members_consume(text, end);
            if n > end {
                lemma_list_members_cut(text, n, end);
            }
            lemma_step_cut(
                first,
                list_members(text, end),
                first_cut,
                list_members(cut, pos + first_cut.consumed),
                n,
                pos,
            );
        } else if c == '-' {
            if n > pos + 1 {
                assert(cut[pos + 1] == text[pos + 1]);
                if is_digit(text[pos + 1]) {
                    lemma_first_member_cut(text, n, pos + 1, false);
                    let first = first_member(text, pos + 1, false);
                    let first_cut = first_member(cut, pos + 1, false);
                    let end = pos + 1 + first.consumed;
                    lemma_list_members_consume(text, end);
                    if n > end {
                        lemma_list_members_cut(text, n, end);
                    }
                    lemma_step_cut(
                        first,
                        list_members(text, end),
                        first_cut,
                        list_members(cut, pos + 1 + first_cut.consumed),
                        n,
                        pos + 1,
                    );
                } else {
                    lemma_list_members_cut(text, n, pos + 1);
                }
            }
        }
    }
}

/// The member of a list that starts with the character at `pos`, where
/// that is `$`, a character of a word or a digit; `positive` is false where
/// a `-` preceded the digit.
spec fn first_member(text: Seq<char>, pos: int, positive: bool) -> Outcome {
    if text[pos] == '$' {
        stream_idx(text, pos)
    } else if is_word_char(text[pos]) {
        word(text, pos)
    } else {
        number(text, pos, positive)
    }
}

/// A member of a list in a text cut after its end is the same member; cut
/// at its end or earlier, it ends with the input, and so do the members
/// after it.
proof fn lemma_first_member_cut(text: Seq<char>, n: int, pos: int, positive: bool)
    requires
        0 <= pos < n <= text.len(),
        text[pos] == '$' || is_word_char(text[pos]) || is_digit(text[pos]),
        !(first_member(text, pos, positive).tree is Error),
    ensures
        first_member(text, pos, positive).consumed >= 1,
        n > pos + first_member(text, pos, positive).consumed ==> first_member(
            text.take(n),
            pos,
            positive,
        ) == first_member(text, pos, positive),
        n <= pos + first_member(text, pos, positive).consumed ==> ends_with_input(
            first_member(text.take(n), pos, positive),
            n - pos,
        ) && items_cut_short(
            list_members(text.take(n), pos + first_member(text.take(n), pos, positive).consumed),
            0,
        ),
{
    let cut = text.take(n);
    let c = text[pos];
    assert(cut[pos] == c);
    lemma_token_progress(text, pos);
    lemma_says_truncated(Expected::ListEnd);
    assert(items_cut_short(list_members(cut, n), 0));
    if c == '$' {
        lemma_stream_idx_cut(text, n, pos);
    } else if is_word_char(c) {
        lemma_run(text, pos, Class::WordChar);
        lemma_word_cut(text, n, pos);
    } else {
        lemma_number_cut(text, n, pos, positive);
    }
}

/// A list that parses needs all of its text: in a text cut before the `)`
/// that closes it, the list is a failure which says that the input ended.
pub proof fn lemma_list_cut(text: Seq<char>, n: int, pos: int)
    requires
        0 <= pos <= n <= text.len(),
        list(text, pos).tree is List,
    ensures
        n >= pos + list(text, pos).consumed ==> list(text.take(n), pos) == list(text, pos),
        n < pos + list(text, pos).consumed ==> cut_short(list(text.take(n), pos), n - pos),
{
    lemma_says_truncated(Expected::ListStart);
    if n > pos {
        assert(text.take(n)[pos] == text[pos]);
        lemma_list_members_cut(text, n, pos + 1);
    }
}

/// Whether a text cut at `n` still shows what ended the arguments of a
/// command at `end`: the cut comes later, or nothing or something other
/// than the `>` of an arrow stood there.
pub open spec fn shows_end(text: Seq<char>, n: int, end: int) -> bool {
    n > end || (n == end && (n == text.len() || text[n] != '>'))
}

/// The stages of a stream that parse consume the `]` that closes the
/// stream, so they consume at least that.
pub proof fn lemma_stages_consume(text: Seq<char>, pos: int)
    requires
        stages(text, pos) is Done,
    ensures
        stages(text, pos).consumed() >= 1,
        0 <= pos < text.len(),
{
    lemma_token_progress(text, pos);
}

/// The stages of a stream that parse end with the `]` that closes the
/// stream.
pub proof fn lemma_stages_closed(text: Seq<char>, pos: int)
    requires
        stages(text, pos) is Done,
    ensures
        text[pos + stages(text, pos).consumed() - 1] == ']',
    decreases left(text, pos),
{
    lemma_stages_consume(text, pos);
    lemma_token_progress(text, pos);
    let c = text[pos];
    if is_space(c) {
        lemma_stages_closed(text, pos + 1);
    } else if is_lower(c) {
        lemma_stages_closed(text, pos + cmd(text, pos).consumed);
    } else if c == '|' || c == '>' {
        lemma_stages_closed(text, pos + 1);
    }
}

/// A stream that parses starts with `[` and ends with `]`.
pub proof fn lemma_stream_closed(text: Seq<char>, pos: int)
    requires
        stream(text, pos).tree is Stream,
    ensures
        stream(text, pos).consumed >= 2,
        text[pos] == '[',
        text[pos + stream(text, pos).consumed - 1] == ']',
{
    lemma_stages_consume(text, pos + 1);
    lemma_stages_closed(text, pos + 1);
}

/// The argument of a command that starts with the character at `pos`,
/// where that is a digit, `(` or `[`; `positive` is false where a `-`
/// preceded the digit.
spec fn first_argument(text: Seq<char>, pos: int, positive: bool) -> Outcome {
    if text[pos] == '(' {
        list(text, pos)
    } else if text[pos] == '[' {
        stream(text, pos)
    } else {
        number(text, pos, positive)
    }
}

/// One argument and the arguments after it, in the whole text and in the
/// cut one: if the argument is the same where the cut comes at its end or
/// later and ends with the input where the cut comes earlier, and the
/// arguments after it are the same or end with the input, then so are all
/// of them together.
proof fn lemma_argument_step_cut(
    text: Seq<char>,
    first: Outcome,
    rest: Items,
    first_cut: Outcome,
    rest_cut: Items,
    n: int,
    pos: int,
)
    requires
        !(first.tree is Error),
        rest is Done,
        first.consumed >= 1,
        n >= pos + first.consumed ==> first_cut == first,
        n < pos + first.consumed ==> ends_with_input(first_cut, n - pos) && rest_cut == (
        Items::Done { nodes: Seq::empty(), consumed: 0 }),
        shows_end(text, n, pos + first.consumed + rest.consumed()) ==> rest_cut == rest,
        pos + first.consumed <= n <= pos + first.consumed + rest.consumed()
            ==> items_end_with_input(rest_cut, n - pos - first.consumed),
    ensures
        shows_end(text, n, pos + then(first, rest).consumed()) ==> then(first_cut, rest_cut)
            == then(first, rest),
        n <= pos + then(first, rest).consumed() ==> items_end_with_input(
            then(first_cut, rest_cut),
            n - pos,
        ),
{
}

/// The stages of a stream in a text cut at or after the `]` that closes the
/// stream are the same stages; cut earlier, they are cut short.
pub proof fn lemma_stages_cut(text: Seq<char>, n: int, pos: int)
    requires
        0 <= pos <= n <= text.len(),
        stages(text, pos) is Done,
    ensures
        n >= pos + stages(text, pos).consumed() ==> stages(text.take(n), pos) == stages(text, pos),
        n < pos + stages(text, pos).consumed() ==> items_cut_short(
            stages(text.take(n), pos),
            n - pos,
        ),
    decreases left(text, pos), 3int,
{
    let cut = text.take(n);
    lemma_stages_consume(text, pos);
    lemma_says_truncated(Expected::StreamEnd);
    assert(items_cut_short(stages(cut, n), 0));
    if n > pos {
        let c = text[pos];
        assert(cut[pos] == c);
        if is_space(c) {
            lemma_stages_cut(text, n, pos + 1);
        } else if is_lower(c) {
            let first = cmd(text, pos);
            let first_cut = cmd(cut, pos);
            let end = pos + first.consumed;
            lemma_token_progress(text, pos);
            lemma_stages_consume(text, end);
            lemma_cmd_cut(text, n, pos);
            if n > end {
                lemma_stages_cut(text, n, end);
            }
            lemma_step_cut(
                first,
                stages(text, end),
                first_cut,
                stages(cut, pos + first_cut.consumed),
                n,
                pos,
            );
        } else if c == '|' || c == '>' {
            let pipe = Outcome { tree: Syntax::CmdPipe, consumed: 1 };
            lemma_stages_consume(text, pos + 1);
            if n > pos + 1 {
                lemma_stages_cut(text, n, pos + 1);
            }
            lemma_step_cut(pipe, stages(text, pos + 1), pipe, stages(cut, pos + 1), n, pos);
        }
    }
}

/// A command in a text cut after its end, or at its end where no arrow
/// follows, is the same command; cut at its end or earlier, it is a
/// command still or a failure which says that the input ended.
pub proof fn lemma_cmd_cut(text: Seq<char>, n: int, pos: int)
    requires
        0 <= pos <= n <= text.len(),
        !(cmd(text, pos).tree is Error),
    ensures
        shows_end(text, n, pos + cmd(text, pos).consumed) ==> cmd(text.take(n), pos) == cmd(
            text,
            pos,
        ),
        n <= pos + cmd(text, pos).consumed ==> ends_with_input(cmd(text.take(n), pos), n - pos),
    decreases left(text, pos), 2int,
{
    let cut = text.take(n);
    let name = cmd_name(text, pos);
    lemma_cmd_name_cut(text, n, pos);
    assert(arguments(cut, n) == (Items::Done { nodes: Seq::empty(), consumed: 0 }));
    if n >= pos + name.consumed {
        lemma_arguments_cut(text, n, pos + name.consumed);
    }
}

/// The arguments of a command in a text cut after their end, or at their
/// end where no arrow follows, are the same arguments; cut at their end or
/// earlier, they are arguments still or a failure which says that the
/// input ended.
pub proof fn lemma_arguments_cut(text: Seq<char>, n: int, pos: int)
    requires
        0 <= pos <= n <= text.len(),
        arguments(text, pos) is Done,
    ensures
        shows_end(text, n, pos + arguments(text, pos).consumed()) ==> arguments(text.take(n), pos)
            == arguments(text, pos),
        n <= pos + arguments(text, pos).consumed() ==> items_end_with_input(
            arguments(text.take(n), pos),
            n - pos,
        ),
    decreases left(text, pos), 1int,
{
    let cut = text.take(n);
    lemma_says_truncated(Expected::DigitOrArrow);
    assert(arguments(cut, n) == (Items::Done { nodes: Seq::empty(), consumed: 0 }));
    if n > pos {
        let c = text[pos];
        assert(cut[pos] == c);
        if c == '|' || c == ']' {
        } else if is_space(c) {
            lemma_arguments_cut(text, n, pos + 1);
        } else if is_digit(c) || c == '(' || c == '[' {
            lemma_first_argument_cut(text, n, pos, true);
            let first = first_argument(text, pos, true);
            let first_cut = first_argument(cut, pos, true);
            let end = pos + first.consumed;
            if n >= end {
                lemma_arguments_cut(text, n, end);
            }
            lemma_argument_step_cut(
                text,
                first,
                arguments(text, end),
                first_cut,
                arguments(cut, pos + first_cut.consumed),
                n,
                pos,
            );
        } else if c == '-' {
            if n > pos + 1 {
                assert(cut[pos + 1] == text[pos + 1]);
                if is_digit(text[pos + 1]) {
                    lemma_first_argument_cut(text, n, pos + 1, false);
                    let first = first_argument(text, pos + 1, false);
                    let first_cut = first_argument(cut, pos + 1, false);
                    let end = pos + 1 + first.consumed;
                    if n >= end {
                        lemma_arguments_cut(text, n, end);
                    }
                    lemma_argument_step_cut(
                        text,
                        first,
                        arguments(text, end),
                        first_cut,
                        arguments(cut, pos + 1 + first_cut.consumed),
                        n,
                        pos + 1,
                    );
                }
            }
        }
    }
}

/// An argument in a text cut at its end or later is the same argument; cut
/// earlier, it ends with the input, and no argument follows it.
proof fn lemma_first_argument_cut(text: Seq<char>, n: int, pos: int, positive: bool)
    requires
        0 <= pos < n <= text.len(),
        text[pos] == '(' || text[pos] == '[' || is_digit(text[pos]),
        !(first_argument(text, pos, positive).tree is Error),
    ensures
        first_argument(text, pos, positive).consumed >= 1,
        n >= pos + first_argument(text, pos, positive).consumed ==> first_argument(
            text.take(n),
            pos,
            positive,
        ) == first_argument(text, pos, positive),
        n < pos + first_argument(text, pos, positive).consumed ==> ends_with_input(
            first_argument(text.take(n), pos, positive),
            n - pos,
        ) && arguments(
            text.take(n),
            pos + first_argument(text.take(n), pos, positive).consumed,
        ) == (Items::Done { nodes: Seq::empty(), consumed: 0 }),
    decreases left(text, pos), 0int,
{
    let cut = text.take(n);
    let c = text[pos];
    assert(cut[pos] == c);
    lemma_token_progress(text, pos);
    assert(arguments(cut, n) == (Items::Done { nodes: Seq::empty(), consumed: 0 }));
    if c == '(' {
        lemma_list_cut(text, n, pos);
    } else if c == '[' {
        lemma_stages_cut(text, n, pos + 1);
    } else {
        lemma_number_cut(text, n, pos, positive);
    }
}

/// A stream that parses needs all of its text: in a text cut before the `]`
/// that closes it, the stream is a failure which says that the input
/// ended.
pub proof fn lemma_stream_cut(text: Seq<char>, n: int, pos: int)
    requires
        0 <= pos <= n <= text.len(),
        stream(text, pos).tree is Stream,
    ensures
        n >= pos + stream(text, pos).consumed ==> stream(text.take(n), pos) == stream(text, pos),
        n < pos + stream(text, pos).consumed ==> cut_short(stream(text.take(n), pos), n - pos),
{
    lemma_says_truncated(Expected::StreamStart);
    if n > pos {
        assert(text.take(n)[pos] == text[pos]);
        lemma_stages_cut(text, n, pos + 1);
    }
}

/// A program that parses needs all of its stream: cut before the `]` that
/// closes the stream, but not down to nothing, the program is a failure
/// which says that the input ended.
pub proof fn lemma_program_cut(text: Seq<char>, n: int)
    requires
        0 < n <= text.len(),
        program(text) is Stream,
    ensures
        n >= stream(text, 0).consumed ==> program(text.take(n)) == program(text),
        n < stream(text, 0).consumed ==> (program(text.take(n)) matches Syntax::Error(message)
            && says_truncated(message)),
{
    lemma_stream_cut(text, n, 0);
}

} // verus!
