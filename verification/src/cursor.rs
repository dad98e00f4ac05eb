//! A cursor over the characters of a source text.

use vstd::prelude::*;
use crate::chars::{run, to_chars, Class};

verus! {

/// A position in an immutable text. A character can be looked at without
/// being consumed, and once consumed it is never seen again.
pub struct Cursor {
    chars: Vec<char>,
    pos: usize,
}

impl Cursor {
    #[verifier::type_invariant]
    spec fn in_bounds(self) -> bool {
        self.pos <= self.chars.len()
    }

    /// The whole text, consumed or not.
    pub closed spec fn text(&self) -> Seq<char> {
        self.chars@
    }

    /// How many characters have been consumed.
    pub closed spec fn position(&self) -> nat {
        self.pos as nat
    }

    /// The character at the position, if the text has not ended there.
    pub open spec fn peeked(&self) -> Option<char> {
        if self.position() < self.text().len() {
            Some(self.text()[self.position() as int])
        } else {
            None
        }
    }

    /// A cursor at the start of `code`.
    pub fn new(code: &str) -> (cursor: Cursor)
        ensures
            cursor.text() == code@,
            cursor.position() == 0,
    {
        let chars = to_chars(code);
        Cursor { chars, pos: 0 }
    }

    /// The number of characters consumed so far.
    pub fn offset(&self) -> (offset: usize)
        ensures
            offset == self.position(),
            offset <= self.text().len(),
    {
        proof {
            use_type_invariant(self);
        }
        self.pos
    }

    /// The next character, which stays in place; `None` at the end.
    pub fn peek(&self) -> (next: Option<char>)
        ensures
            self.position() <= self.text().len(),
            next == self.peeked(),
    {
        proof {
            use_type_invariant(self);
        }
        if self.pos < self.chars.len() {
            Some(self.chars[self.pos])
        } else {
            None
        }
    }

    /// Consumes the next character and returns it; `None` at the end, where
    /// nothing changes.
    pub fn next(&mut self) -> (next: Option<char>)
        ensures
            final(self).text() == old(self).text(),
            old(self).position() <= old(self).text().len(),
            next == old(self).peeked(),
            final(self).position() == if next.is_some() {
                old(self).position() + 1
            } else {
                old(self).position()
            },
    {
        proof {
            use_type_invariant(&*self);
        }
        if self.pos < self.chars.len() {
            let c = self.chars[self.pos];
            self.pos = self.pos + 1;
            Some(c)
        } else {
            None
        }
    }

    /// Consumes the run of characters of `class` that starts at the
    /// position, and returns its length.
    pub fn skip_run(&mut self, class: Class) -> (length: usize)
        ensures
            final(self).text() == old(self).text(),
            length == run(old(self).text(), old(self).position() as int, class),
            final(self).position() == old(self).position() + length,
            final(self).position() <= old(self).text().len(),
    {
        proof {
            use_type_invariant(&*self);
        }
        let start: usize = self.pos;
        while self.pos < self.chars.len() && class.has(self.chars[self.pos])
            invariant
                start <= self.pos <= self.chars.len(),
                self.chars == old(self).chars,
                run(self.chars@, start as int, class) == (self.pos - start) + run(
                    self.chars@,
                    self.pos as int,
                    class,
                ),
            decreases self.chars.len() - self.pos,
        {
            self.pos = self.pos + 1;
        }
        self.pos - start
    }

    /// The characters from `from` up to `to`, as a string.
    pub(crate) fn slice(&self, from: usize, to: usize) -> (part: String)
        requires
            from <= to <= self.text().len(),
        ensures
            part@ == self.text().subrange(from as int, to as int),
    {
        let mut part = String::new();
        let mut i: usize = from;
        while i < to
            invariant
                from <= i <= to <= self.chars.len(),
                part@ == self.chars@.subrange(from as int, i as int),
            decreases to - i,
        {
            part.push(self.chars[i]);
            i = i + 1;
        }
        part
    }
}

} // verus!
