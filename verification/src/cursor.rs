//! A forward-only reader over a text, with one character of lookahead.

use vstd::prelude::*;

use crate::chars::Glyph;

verus! {

/// A text, read as glyphs, and a position in it. The position only ever
/// moves forward and never passes the end.
pub struct Cursor<'a> {
    text: &'a [Glyph],
    at: usize,
}

impl<'a> Cursor<'a> {
    #[verifier::type_invariant]
    spec fn in_bounds(&self) -> bool {
        self.at <= self.text@.len()
    }

    /// The whole text, both what was passed and what is still ahead.
    pub closed spec fn text(&self) -> Seq<Glyph> {
        self.text@
    }

    /// How many glyphs have been passed.
    pub closed spec fn pos(&self) -> int {
        self.at as int
    }

    /// A cursor at the start of `text`.
    pub fn new(text: &'a [Glyph]) -> (r: Cursor<'a>)
        ensures
            r.text() == text@,
            r.pos() == 0,
    {
        Cursor { text, at: 0 }
    }

    /// The glyph under the cursor, if any is left.
    pub fn peek(&self) -> (r: Option<&Glyph>)
        ensures
            0 <= self.pos() <= self.text().len(),
            self.pos() < self.text().len() ==> r == Some(&self.text()[self.pos()]),
            self.pos() == self.text().len() ==> r is None,
    {
        proof {
            use_type_invariant(self);
        }
        if self.at < self.text.len() {
            Some(&self.text[self.at])
        } else {
            None
        }
    }

    /// Hands out the glyph under the cursor and moves past it; at the end
    /// nothing is handed out and nothing moves.
    pub fn next(&mut self) -> (r: Option<Glyph>)
        ensures
            final(self).text() == old(self).text(),
            old(self).pos() < old(self).text().len() ==> r == Some(old(self).text()[old(self).pos()])
                && final(self).pos() == old(self).pos() + 1,
            old(self).pos() >= old(self).text().len() ==> r is None && final(self).pos() == old(
                self,
            ).pos(),
    {
        proof {
            use_type_invariant(&*self);
        }
        if self.at < self.text.len() {
            let glyph = self.text[self.at];
            self.at = self.at + 1;
            Some(glyph)
        } else {
            None
        }
    }
}

} // verus!
