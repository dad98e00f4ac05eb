//! The parser: a recursive descent over a [`Cursor`], one function for each
//! production of the grammar.

use vstd::prelude::*;
use crate::chars::{is_digit, is_lower, is_space, is_word_char, lemma_run, Class};
use crate::cursor::Cursor;
use crate::decimal::{index_from_literal, Decimal};
use crate::grammar::{
    arguments,
    cmd,
    cmd_name,
    left,
    lemma_prefixed_after,
    lemma_prefixed_by_nothing,
    lemma_prefixed_then,
    lemma_token_progress,
    list,
    list_members,
    number,
    prefixed,
    program,
    stages,
    stream,
    stream_idx,
    then,
    word,
    Items,
    Outcome,
};
use crate::laws::lemma_program_sound;
use crate::message::{invalid_message, truncated_message, unexpected_message, Expected, Literal};
use crate::syntax::Syntax;

verus! {

/// The abstract syntax tree of a program.
///
/// A tree is built once, by one call of [`SaphTree::parse`], and read from
/// then on. `Stream` is the node at the top.
#[derive(Debug, PartialEq, Eq)]
pub enum SaphTree {
    /// A syntax error, with its message. It is never found inside another
    /// node.
    Error(String),
    /// A bracketed block: commands and the pipes between them.
    Stream(Vec<SaphTree>),
    /// One stage of a pipeline: its name, then its arguments.
    Cmd(Vec<SaphTree>),
    /// The name of a command.
    CmdName(String),
    /// The separator between two stages.
    CmdPipe,
    /// A parenthesized list of numbers, words and stream indexes.
    List(Vec<SaphTree>),
    /// A `$N` reference to an item of an enclosing stream.
    StreamIdx(usize),
    /// A symbolic token of a list.
    Word(String),
    /// The parse of empty input.
    Null,
    /// A signed decimal number.
    Number(Decimal),
}

/// The views of a sequence of trees.
pub open spec fn views(trees: Seq<SaphTree>) -> Seq<Syntax> {
    Seq::new(trees.len(), |i: int| trees[i]@)
}

impl View for SaphTree {
    type V = Syntax;

    open spec fn view(&self) -> Syntax
        decreases self,
    {
        match self {
            SaphTree::Error(message) => Syntax::Error(message@),
            SaphTree::Stream(stages) => Syntax::Stream(
                Seq::new(
                    stages@.len(),
                    |i: int|
                        if 0 <= i < stages@.len() {
                            stages@[i].view()
                        } else {
                            Syntax::Null
                        },
                ),
            ),
            SaphTree::Cmd(parts) => Syntax::Cmd(
                Seq::new(
                    parts@.len(),
                    |i: int|
                        if 0 <= i < parts@.len() {
                            parts@[i].view()
                        } else {
                            Syntax::Null
                        },
                ),
            ),
            SaphTree::CmdName(name) => Syntax::CmdName(name@),
            SaphTree::CmdPipe => Syntax::CmdPipe,
            SaphTree::List(members) => Syntax::List(
                Seq::new(
                    members@.len(),
                    |i: int|
                        if 0 <= i < members@.len() {
                            members@[i].view()
                        } else {
                            Syntax::Null
                        },
                ),
            ),
            SaphTree::StreamIdx(index) => Syntax::StreamIdx(*index as int),
            SaphTree::Word(word) => Syntax::Word(word@),
            SaphTree::Null => Syntax::Null,
            SaphTree::Number(number) => Syntax::Number(number@),
        }
    }
}

/// The view of a node with children holds the views of the children.
pub proof fn lemma_view_of_children(children: Vec<SaphTree>)
    ensures
        SaphTree::Stream(children)@ == Syntax::Stream(views(children@)),
        SaphTree::Cmd(children)@ == Syntax::Cmd(views(children@)),
        SaphTree::List(children)@ == Syntax::List(views(children@)),
{
    assert(SaphTree::Stream(children)@->Stream_0 =~= views(children@));
    assert(SaphTree::Cmd(children)@->Cmd_0 =~= views(children@));
    assert(SaphTree::List(children)@->List_0 =~= views(children@));
}

/// The views of a sequence of trees with one more tree at its end.
pub proof fn lemma_views_push(trees: Seq<SaphTree>, tree: SaphTree)
    ensures
        views(trees.push(tree)) == views(trees).push(tree@),
{
    assert(views(trees.push(tree)) =~= views(trees).push(tree@));
}

impl SaphTree {
    /// Whether the tree is a syntax error.
    pub fn is_error(&self) -> (b: bool)
        ensures
            b == (self@ is Error),
    {
        match self {
            SaphTree::Error(_) => true,
            _ => false,
        }
    }

    /// Parses the name of a command at the cursor.
    ///
    /// The name is the run of lower-case letters at the cursor; whitespace
    /// ends it and is consumed, and so does the end of the input. Any other
    /// character is consumed and named in the error.
    pub fn parse_cmd_name(context: &mut Cursor) -> (tree: SaphTree)
        ensures
            final(context).text() == old(context).text(),
            final(context).position() == old(context).position() + cmd_name(
                old(context).text(),
                old(context).position() as int,
            ).consumed,
            tree@ == cmd_name(old(context).text(), old(context).position() as int).tree,
    {
        let start: usize = context.offset();
        context.skip_run(Class::Lower);
        let end: usize = context.offset();
        let name = context.slice(start, end);
        match context.next() {
            None => SaphTree::CmdName(name),
            Some(c) => {
                if is_space(c) {
                    SaphTree::CmdName(name)
                } else {
                    SaphTree::Error(unexpected_message(Expected::CommandName, c))
                }
            },
        }
    }

    /// Parses a number at the cursor; `pos` is false where a minus sign
    /// preceded it.
    ///
    /// The number is the run of digits and decimal points at the cursor.
    /// Whitespace, `)`, `]` or the end of the input must follow, and stays
    /// unconsumed; any other character is consumed and named in the error.
    /// A run that is no decimal literal is an error that quotes it.
    pub fn parse_number(context: &mut Cursor, pos: bool) -> (tree: SaphTree)
        ensures
            final(context).text() == old(context).text(),
            final(context).position() == old(context).position() + number(
                old(context).text(),
                old(context).position() as int,
                pos,
            ).consumed,
            tree@ == number(old(context).text(), old(context).position() as int, pos).tree,
    {
        let start: usize = context.offset();
        context.skip_run(Class::NumberChar);
        let end: usize = context.offset();
        match context.peek() {
            Some(c) => {
                if !(is_space(c) || c == ')' || c == ']') {
                    context.next();
                    return SaphTree::Error(unexpected_message(Expected::Number, c));
                }
            },
            None => {},
        }
        let literal = context.slice(start, end);
        match Decimal::from_literal(literal.as_str(), !pos) {
            Some(number) => SaphTree::Number(number),
            None => SaphTree::Error(invalid_message(Literal::Number, literal.as_str())),
        }
    }

    /// Parses a stream index at the cursor.
    ///
    /// The index is `$` and the run of digits after it. Whitespace or `)`
    /// must follow, and stays unconsumed, or the input ends after the last
    /// digit; any other character is consumed and named in the error.
    /// Digits that denote no `usize`, and an index without digits before
    /// whitespace or `)`, are an error that quotes them.
    pub fn parse_stream_idx(context: &mut Cursor) -> (tree: SaphTree)
        ensures
            final(context).text() == old(context).text(),
            final(context).position() == old(context).position() + stream_idx(
                old(context).text(),
                old(context).position() as int,
            ).consumed,
            tree@ == stream_idx(old(context).text(), old(context).position() as int).tree,
    {
        match context.next() {
            None => {
                return SaphTree::Error(truncated_message(Expected::IndexSign));
            },
            Some(c) => {
                if c != '$' {
                    return SaphTree::Error(unexpected_message(Expected::IndexSign, c));
                }
            },
        }
        let start: usize = context.offset();
        let length: usize = context.skip_run(Class::Digit);
        let end: usize = context.offset();
        match context.peek() {
            Some(c) => {
                if !(is_space(c) || c == ')') {
                    context.next();
                    return SaphTree::Error(unexpected_message(Expected::Index, c));
                }
            },
            None => {
                if length == 0 {
                    return SaphTree::Error(truncated_message(Expected::Index));
                }
            },
        }
        let literal = context.slice(start, end);
        proof {
            lemma_run(context.text(), start as int, Class::Digit);
        }
        match index_from_literal(literal.as_str()) {
            Some(index) => SaphTree::StreamIdx(index),
            None => SaphTree::Error(invalid_message(Literal::Index, literal.as_str())),
        }
    }

    /// Parses a word at the cursor.
    ///
    /// The word is the run of letters and operator characters at the
    /// cursor. Whitespace or `)` must follow, and stays unconsumed; any
    /// other character is consumed and named in the error, and the end of
    /// the input is an error too.
    pub fn parse_word(context: &mut Cursor) -> (tree: SaphTree)
        ensures
            final(context).text() == old(context).text(),
            final(context).position() == old(context).position() + word(
                old(context).text(),
                old(context).position() as int,
            ).consumed,
            tree@ == word(old(context).text(), old(context).position() as int).tree,
    {
        let start: usize = context.offset();
        context.skip_run(Class::WordChar);
        let end: usize = context.offset();
        match context.peek() {
            None => SaphTree::Error(truncated_message(Expected::Word)),
            Some(c) => {
                if is_space(c) || c == ')' {
                    SaphTree::Word(context.slice(start, end))
                } else {
                    context.next();
                    SaphTree::Error(unexpected_message(Expected::Word, c))
                }
            },
        }
    }

    /// Parses a list at the cursor.
    ///
    /// The list is `(`, its members with whitespace between them, and `)`.
    /// A member is a stream index, a word, a number, a number negated by
    /// the `-` before it, or a `-` by itself. The first member that fails
    /// is the result; so is a character that starts no member, and the end
    /// of the input before `)`.
    pub fn parse_list(context: &mut Cursor) -> (tree: SaphTree)
        ensures
            final(context).text() == old(context).text(),
            final(context).position() == old(context).position() + list(
                old(context).text(),
                old(context).position() as int,
            ).consumed,
            tree@ == list(old(context).text(), old(context).position() as int).tree,
    {
        match context.next() {
            None => {
                return SaphTree::Error(truncated_message(Expected::ListStart));
            },
            Some(c) => {
                if c != '(' {
                    return SaphTree::Error(unexpected_message(Expected::ListStart, c));
                }
            },
        }
        let ghost text = context.text();
        let ghost start = context.position() as int;
        let mut lst: Vec<SaphTree> = Vec::new();
        proof {
            lemma_prefixed_by_nothing(list_members(text, start));
            assert(views(lst@) =~= Seq::empty());
        }
        loop
            invariant_except_break
                list_members(text, start) == prefixed(
                    views(lst@),
                    (context.position() - start) as nat,
                    list_members(text, context.position() as int),
                ),
            invariant
                context.text() == text,
                text == old(context).text(),
                start == old(context).position() + 1,
                0 < start <= context.position(),
                start <= text.len(),
                text[start - 1] == '(',
            ensures
                context.text() == text,
                start <= context.position(),
                list_members(text, start) == (Items::Done {
                    nodes: views(lst@),
                    consumed: (context.position() - start) as nat,
                }),
            decreases left(text, context.position() as int),
        {
            let ghost pos = context.position() as int;
            let ghost count = (pos - start) as nat;
            let ghost nodes = views(lst@);
            match context.peek() {
                None => {
                    return SaphTree::Error(truncated_message(Expected::ListEnd));
                },
                Some(c) => {
                    if is_space(c) {
                        context.next();
                        proof {
                            lemma_prefixed_after(nodes, count, 1, list_members(text, pos + 1));
                        }
                    } else if c == ')' {
                        context.next();
                        assert(nodes + Seq::<Syntax>::empty() =~= nodes);
                        break ;
                    } else if c == '$' || is_word_char(c) || is_digit(c) {
                        let got = if c == '$' {
                            SaphTree::parse_stream_idx(context)
                        } else if is_word_char(c) {
                            SaphTree::parse_word(context)
                        } else {
                            SaphTree::parse_number(context, true)
                        };
                        proof {
                            let first = if c == '$' {
                                stream_idx(text, pos)
                            } else if is_word_char(c) {
                                word(text, pos)
                            } else {
                                number(text, pos, true)
                            };
                            lemma_token_progress(text, pos);
                            lemma_prefixed_then(
                                nodes,
                                count,
                                first,
                                list_members(text, pos + first.consumed),
                            );
                            lemma_views_push(lst@, got);
                        }
                        if got.is_error() {
                            return got;
                        }
                        lst.push(got);
                    } else if c == '-' {
                        context.next();
                        match context.peek() {
                            None => {
                                return SaphTree::Error(truncated_message(Expected::Digit));
                            },
                            Some(d) => {
                                if is_digit(d) {
                                    let got = SaphTree::parse_number(context, false);
                                    proof {
                                        let first = number(text, pos + 1, false);
                                        let rest = list_members(text, pos + 1 + first.consumed);
                                        lemma_prefixed_after(nodes, count, 1, then(first, rest));
                                        lemma_prefixed_then(nodes, count + 1, first, rest);
                                        lemma_views_push(lst@, got);
                                    }
                                    if got.is_error() {
                                        return got;
                                    }
                                    lst.push(got);
                                } else if is_space(d) || d == ')' {
                                    let got = SaphTree::Word(String::from_str("-"));
                                    proof {
                                        reveal_strlit("-");
                                        assert("-"@ =~= seq!['-']);
                                        lemma_prefixed_then(
                                            nodes,
                                            count,
                                            Outcome { tree: Syntax::Word(seq!['-']), consumed: 1 },
                                            list_members(text, pos + 1),
                                        );
                                        lemma_views_push(lst@, got);
                                    }
                                    lst.push(got);
                                } else {
                                    context.next();
                                    return SaphTree::Error(
                                        unexpected_message(Expected::Digit, d),
                                    );
                                }
                            },
                        }
                    } else {
                        context.next();
                        return SaphTree::Error(unexpected_message(Expected::ListMember, c));
                    }
                },
            }
        }
        proof {
            lemma_view_of_children(lst);
        }
        SaphTree::List(lst)
    }

    /// Parses a command at the cursor.
    ///
    /// The command is its name and, after it, its arguments with whitespace
    /// between them: numbers, numbers negated by the `-` before them, lists
    /// and nested streams. It ends before `|` and `]`, at the end of the
    /// input, and after the `-` of an arrow `->`. The first part that fails
    /// is the result; so is a character that starts no argument.
    pub fn parse_cmd(context: &mut Cursor) -> (tree: SaphTree)
        ensures
            final(context).text() == old(context).text(),
            final(context).position() == old(context).position() + cmd(
                old(context).text(),
                old(context).position() as int,
            ).consumed,
            tree@ == cmd(old(context).text(), old(context).position() as int).tree,
        decreases left(old(context).text(), old(context).position() as int), 1int,
    {
        let ghost text = context.text();
        let ghost origin = context.position() as int;
        let name = SaphTree::parse_cmd_name(context);
        if name.is_error() {
            return name;
        }
        let ghost start = context.position() as int;
        let ghost head = name@;
        let mut arr: Vec<SaphTree> = Vec::new();
        arr.push(name);
        proof {
            lemma_prefixed_by_nothing(arguments(text, start));
            assert(views(arr@).skip(1) =~= Seq::empty());
        }
        loop
            invariant_except_break
                arguments(text, start) == prefixed(
                    views(arr@).skip(1),
                    (context.position() - start) as nat,
                    arguments(text, context.position() as int),
                ),
            invariant
                context.text() == text,
                text == old(context).text(),
                origin == old(context).position() as int,
                0 <= origin <= start <= context.position(),
                cmd_name(text, origin) == (Outcome {
                    tree: head,
                    consumed: (start - origin) as nat,
                }),
                !(head is Error),
                arr.len() >= 1,
                arr[0]@ == head,
            ensures
                context.text() == text,
                start <= context.position(),
                arr.len() >= 1,
                arr[0]@ == head,
                arguments(text, start) == (Items::Done {
                    nodes: views(arr@).skip(1),
                    consumed: (context.position() - start) as nat,
                }),
            decreases left(text, context.position() as int),
        {
            let ghost pos = context.position() as int;
            let ghost count = (pos - start) as nat;
            let ghost nodes = views(arr@).skip(1);
            proof {
                assert(nodes + Seq::<Syntax>::empty() =~= nodes);
            }
            match context.peek() {
                None => {
                    break ;
                },
                Some(c) => {
                    if c == '|' || c == ']' {
                        break ;
                    } else if is_space(c) {
                        context.next();
                        proof {
                            lemma_prefixed_after(nodes, count, 1, arguments(text, pos + 1));
                        }
                    } else if is_digit(c) || c == '(' || c == '[' {
                        let got = if is_digit(c) {
                            SaphTree::parse_number(context, true)
                        } else if c == '(' {
                            SaphTree::parse_list(context)
                        } else {
                            SaphTree::parse_stream(context)
                        };
                        proof {
                            let first = if is_digit(c) {
                                number(text, pos, true)
                            } else if c == '(' {
                                list(text, pos)
                            } else {
                                stream(text, pos)
                            };
                            lemma_token_progress(text, pos);
                            lemma_prefixed_then(
                                nodes,
                                count,
                                first,
                                arguments(text, pos + first.consumed),
                            );
                            lemma_views_push(arr@, got);
                            assert(views(arr@.push(got)).skip(1) =~= nodes.push(got@));
                        }
                        if got.is_error() {
                            return got;
                        }
                        arr.push(got);
                    } else if c == '-' {
                        context.next();
                        match context.peek() {
                            None => {
                                return SaphTree::Error(
                                    truncated_message(Expected::DigitOrArrow),
                                );
                            },
                            Some(d) => {
                                if is_digit(d) {
                                    let got = SaphTree::parse_number(context, false);
                                    proof {
                                        let first = number(text, pos + 1, false);
                                        let rest = arguments(text, pos + 1 + first.consumed);
                                        lemma_prefixed_after(nodes, count, 1, then(first, rest));
                                        lemma_prefixed_then(nodes, count + 1, first, rest);
                                        lemma_views_push(arr@, got);
                                        assert(views(arr@.push(got)).skip(1) =~= nodes.push(
                                            got@,
                                        ));
                                    }
                                    if got.is_error() {
                                        return got;
                                    }
                                    arr.push(got);
                                } else if d == '>' {
                                    break ;
                                } else {
                                    context.next();
                                    return SaphTree::Error(
                                        unexpected_message(Expected::DigitOrArrow, d),
                                    );
                                }
                            },
                        }
                    } else {
                        context.next();
                        return SaphTree::Error(unexpected_message(Expected::Argument, c));
                    }
                },
            }
        }
        proof {
            lemma_view_of_children(arr);
            assert(seq![head] + views(arr@).skip(1) =~= views(arr@));
        }
        SaphTree::Cmd(arr)
    }

    /// Parses a stream at the cursor.
    ///
    /// The stream is `[`, its stages with whitespace between them, and `]`.
    /// A stage is a command or one of the pipes `|` and `>`. The first
    /// command that fails is the result; so is a character that starts no
    /// stage, and the end of the input before `]`.
    pub fn parse_stream(context: &mut Cursor) -> (tree: SaphTree)
        ensures
            final(context).text() == old(context).text(),
            final(context).position() == old(context).position() + stream(
                old(context).text(),
                old(context).position() as int,
            ).consumed,
            tree@ == stream(old(context).text(), old(context).position() as int).tree,
        decreases left(old(context).text(), old(context).position() as int), 0int,
    {
        match context.next() {
            None => {
                return SaphTree::Error(truncated_message(Expected::StreamStart));
            },
            Some(c) => {
                if c != '[' {
                    return SaphTree::Error(unexpected_message(Expected::StreamStart, c));
                }
            },
        }
        let ghost text = context.text();
        let ghost start = context.position() as int;
        let mut arr: Vec<SaphTree> = Vec::new();
        proof {
            lemma_prefixed_by_nothing(stages(text, start));
            assert(views(arr@) =~= Seq::empty());
        }
        loop
            invariant_except_break
                stages(text, start) == prefixed(
                    views(arr@),
                    (context.position() - start) as nat,
                    stages(text, context.position() as int),
                ),
            invariant
                context.text() == text,
                text == old(context).text(),
                start == old(context).position() + 1,
                0 < start <= context.position(),
                start <= text.len(),
                text[start - 1] == '[',
            ensures
                context.text() == text,
                start <= context.position(),
                stages(text, start) == (Items::Done {
                    nodes: views(arr@),
                    consumed: (context.position() - start) as nat,
                }),
            decreases left(text, context.position() as int),
        {
            let ghost pos = context.position() as int;
            let ghost count = (pos - start) as nat;
            let ghost nodes = views(arr@);
            match context.peek() {
                None => {
                    return SaphTree::Error(truncated_message(Expected::StreamEnd));
                },
                Some(c) => {
                    if is_space(c) {
                        context.next();
                        proof {
                            lemma_prefixed_after(nodes, count, 1, stages(text, pos + 1));
                        }
                    } else if is_lower(c) {
                        let got = SaphTree::parse_cmd(context);
                        proof {
                            let first = cmd(text, pos);
                            lemma_token_progress(text, pos);
                            lemma_prefixed_then(
                                nodes,
                                count,
                                first,
                                stages(text, pos + first.consumed),
                            );
                            lemma_views_push(arr@, got);
                        }
                        if got.is_error() {
                            return got;
                        }
                        arr.push(got);
                    } else if c == '|' || c == '>' {
                        context.next();
                        proof {
                            lemma_prefixed_then(
                                nodes,
                                count,
                                Outcome { tree: Syntax::CmdPipe, consumed: 1 },
                                stages(text, pos + 1),
                            );
                            lemma_views_push(arr@, SaphTree::CmdPipe);
                        }
                        arr.push(SaphTree::CmdPipe);
                    } else if c == ']' {
                        context.next();
                        assert(nodes + Seq::<Syntax>::empty() =~= nodes);
                        break ;
                    } else {
                        context.next();
                        return SaphTree::Error(unexpected_message(Expected::Command, c));
                    }
                },
            }
        }
        proof {
            lemma_view_of_children(arr);
        }
        SaphTree::Stream(arr)
    }

    /// Parses a program.
    ///
    /// Empty text gives `Null`. Any other text is read as one stream from
    /// its first character on; what follows the stream is not read. A text
    /// that breaks the grammar gives an `Error` whose message names what
    /// was expected and what was found.
    pub fn parse(code: &String) -> (tree: SaphTree)
        ensures
            tree@ == program(code@),
            tree@ is Null <==> code@.len() == 0,
            tree@ is Null || tree@ is Error || tree@.is_stream(),
            tree@ is Error || tree@.error_free(),
    {
        proof {
            lemma_program_sound(code@);
        }
        if code.as_str().is_empty() {
            return SaphTree::Null;
        }
        let mut context = Cursor::new(code.as_str());
        SaphTree::parse_stream(&mut context)
    }
}

} // verus!
