//! The abstract syntax tree as a mathematical value, and the shapes that
//! the grammar gives it.

use vstd::prelude::*;
use crate::chars::{is_lower, is_word_char};
use crate::decimal::Numeral;

verus! {

/// What a parse tree holds: the view of a `SaphTree`.
pub enum Syntax {
    /// A parse failure, with its message.
    Error(Seq<char>),
    /// A bracketed block: commands and the pipes between them.
    Stream(Seq<Syntax>),
    /// One stage of a pipeline: its name, then its arguments.
    Cmd(Seq<Syntax>),
    /// The name of a command.
    CmdName(Seq<char>),
    /// The separator between two stages.
    CmdPipe,
    /// A parenthesized list of numbers, words and stream indexes.
    List(Seq<Syntax>),
    /// A `$N` reference to an item of an enclosing stream.
    StreamIdx(int),
    /// A symbolic token of a list.
    Word(Seq<char>),
    /// The parse of empty input.
    Null,
    /// A signed decimal number.
    Number(Numeral),
}

/// Where a tree may stand under another.
pub enum Place {
    /// Among the members of a list.
    Member,
    /// Among the arguments of a command.
    Argument,
    /// Among the stages of a stream.
    Stage,
}

/// Whether every one of `nodes` may stand at `place`.
pub open spec fn all_fit(nodes: Seq<Syntax>, place: Place) -> bool {
    forall|i: int| 0 <= i < nodes.len() ==> (#[trigger] nodes[i]).fits(place)
}

impl Syntax {
    /// Whether the tree may stand at `place`.
    pub open spec fn fits(self, place: Place) -> bool {
        match place {
            Place::Member => self.is_member(),
            Place::Argument => self.is_argument(),
            Place::Stage => self.is_stage(),
        }
    }

    /// A number whose numeral is well formed.
    pub open spec fn is_number(self) -> bool {
        self matches Syntax::Number(n) && n.well_formed()
    }

    /// A word: letters and the operator characters `+ * / %`, or the bare
    /// minus sign.
    pub open spec fn is_word(self) -> bool {
        self matches Syntax::Word(w) && (w == seq!['-'] || forall|i: int|
            0 <= i < w.len() ==> is_word_char(#[trigger] w[i]))
    }

    /// A command name: lower-case letters only.
    pub open spec fn is_name(self) -> bool {
        self matches Syntax::CmdName(n) && forall|i: int|
            0 <= i < n.len() ==> is_lower(#[trigger] n[i])
    }

    /// What a list may hold: a number, a word or a stream index.
    pub open spec fn is_member(self) -> bool {
        self.is_number() || self.is_word() || self is StreamIdx
    }

    /// A list, all of whose members are numbers, words or stream indexes.
    pub open spec fn is_list(self) -> bool {
        self matches Syntax::List(members) && forall|i: int|
            0 <= i < members.len() ==> (#[trigger] members[i]).is_member()
    }

    /// What a command may take as an argument: a number, a list or a nested
    /// stream.
    pub open spec fn is_argument(self) -> bool
        decreases self, 2int,
    {
        self.is_number() || self.is_list() || self.is_stream()
    }

    /// A command: a name followed by arguments.
    pub open spec fn is_command(self) -> bool
        decreases self, 0int,
    {
        self matches Syntax::Cmd(parts) && parts.len() >= 1 && parts[0].is_name() && forall|
            i: int,
        |
            1 <= i < parts.len() ==> (#[trigger] parts[i]).is_argument()
    }

    /// What a stream may hold: a command or a pipe.
    pub open spec fn is_stage(self) -> bool
        decreases self, 1int,
    {
        self is CmdPipe || self.is_command()
    }

    /// A stream, all of whose children are commands or pipes.
    pub open spec fn is_stream(self) -> bool
        decreases self, 1int,
    {
        self matches Syntax::Stream(stages) && forall|i: int|
            0 <= i < stages.len() ==> (#[trigger] stages[i]).is_stage()
    }

    /// Whether no error stands in the tree, at the top or anywhere below.
    pub open spec fn error_free(self) -> bool
        decreases self,
    {
        match self {
            Syntax::Error(_) => false,
            Syntax::Stream(children) | Syntax::Cmd(children) | Syntax::List(children) => forall|
                i: int,
            |
                0 <= i < children.len() ==> (#[trigger] children[i]).error_free(),
            _ => true,
        }
    }
}

/// A tree of any of the shapes of the grammar holds no error: an error is
/// never wrapped in another node.
pub proof fn lemma_shaped_is_error_free(tree: Syntax)
    requires
        tree.is_name() || tree.is_member() || tree.is_list() || tree.is_argument()
            || tree.is_command() || tree.is_stage() || tree.is_stream(),
    ensures
        tree.error_free(),
    decreases tree,
{
    match tree {
        Syntax::Stream(stages) => {
            assert(tree.is_stream());
            assert forall|i: int| 0 <= i < stages.len() implies (#[trigger] stages[i]).error_free() by {
                assert(stages[i].is_stage());
                lemma_shaped_is_error_free(stages[i]);
            }
        },
        Syntax::Cmd(parts) => {
            assert(tree.is_command());
            assert forall|i: int| 0 <= i < parts.len() implies (#[trigger] parts[i]).error_free() by {
                if i >= 1 {
                    assert(parts[i].is_argument());
                }
                lemma_shaped_is_error_free(parts[i]);
            }
        },
        Syntax::List(members) => {
            assert(tree.is_list());
            assert forall|i: int| 0 <= i < members.len() implies (
            #[trigger] members[i]).error_free() by {
                assert(members[i].is_member());
                lemma_shaped_is_error_free(members[i]);
            }
        },
        _ => {},
    }
}

} // verus!
