//! A position in a text, with one character of lookahead.
use crate::grammar::whitespace_len;
use crate::text::chars_of;
use vstd::prelude::*;

verus! {

/// The input as a sequence of characters, and an offset into it that only
/// the methods below move. The offset never passes the end of the text.
pub struct Cursor {
    chars: Vec<char>,
    pos: usize,
}

impl Cursor {
    #[verifier::type_invariant]
    spec fn in_bounds(&self) -> bool {
        self.pos <= self.chars@.len()
    }

    /// The whole text, read or not.
    pub closed spec fn text(&self) -> Seq<char> {
        self.chars@
    }

    /// How many characters have been consumed.
    pub closed spec fn offset(&self) -> int {
        self.pos as int
    }

    /// A cursor at the start of `text`.
    pub fn new(text: &str) -> (cursor: Cursor)
        ensures
            cursor.text() == text@,
            cursor.offset() == 0,
    {
        Cursor { chars: chars_of(text), pos: 0 }
    }

    /// The offset of the next character, for diagnostics.
    pub fn position(&self) -> (pos: usize)
        ensures
            pos == self.offset(),
            pos <= self.text().len(),
    {
        proof {
            use_type_invariant(self);
        }
        self.pos
    }

    /// Whether every character has been consumed.
    pub fn at_end(&self) -> (end: bool)
        ensures
            end == (self.offset() == self.text().len()),
            0 <= self.offset() <= self.text().len(),
    {
        proof {
            use_type_invariant(self);
        }
        self.pos == self.chars.len()
    }

    /// The next character, which stays where it is; `None` at the end of the
    /// text.
    pub fn peek(&self) -> (next: Option<char>)
        ensures
            0 <= self.offset() <= self.text().len(),
            next == if self.offset() < self.text().len() {
                Some(self.text()[self.offset()])
            } else {
                None
            },
    {
        proof {
            use_type_invariant(self);
        }
        if self.pos < self.chars.len() {
            Some(self.chars[self.pos])
        } else {
            None
        }
    }

    /// Consumes the next character and returns it; at the end of the text
    /// returns `None` and stays.
    pub fn next(&mut self) -> (next: Option<char>)
        ensures
            final(self).text() == old(self).text(),
            0 <= old(self).offset() <= old(self).text().len(),
            old(self).offset() < old(self).text().len() ==> next == Some(
                old(self).text()[old(self).offset()],
            ) && final(self).offset() == old(self).offset() + 1,
            old(self).offset() >= old(self).text().len() ==> next is None && final(self).offset()
                == old(self).offset(),
    {
        proof {
            use_type_invariant(&*self);
        }
        if self.pos < self.chars.len() {
            let c = self.chars[self.pos];
            self.pos = self.pos + 1;
            Some(c)
        } else {
            None
        }
    }

    /// Moves to the offset `pos`, which lies within the text or at its end.
    pub fn seek(&mut self, pos: usize)
        requires
            pos <= old(self).text().len(),
        ensures
            final(self).text() == old(self).text(),
            final(self).offset() == pos,
    {
        self.pos = pos;
    }

    /// Consumes the whitespace that stands at the cursor, all of it.
    pub fn skip_whitespace(&mut self)
        ensures
            final(self).text() == old(self).text(),
            final(self).offset() == old(self).offset() + whitespace_len(
                old(self).text(),
                old(self).offset(),
            ),
            final(self).offset() <= final(self).text().len(),
    {
        proof {
            use_type_invariant(&*self);
        }
        let ghost start = self.pos as int;
        while self.pos < self.chars.len() && (self.chars[self.pos] == ' ' || self.chars[self.pos]
            == '\t' || self.chars[self.pos] == '\n' || self.chars[self.pos] == '\r')
            invariant
                self.chars == old(self).chars,
                start == old(self).pos,
                start <= self.pos <= self.chars@.len(),
                whitespace_len(self.chars@, start) == (self.pos - start) + whitespace_len(
                    self.chars@,
                    self.pos as int,
                ),
            decreases self.chars@.len() - self.pos,
        {
            self.pos = self.pos + 1;
        }
    }
}

} // verus!
