//! Values that can be read as text, and the length they are ranked by.

use vstd::prelude::*;
use vstd::utf8::encode_utf8;

verus! {

/// A value that can be read as text, owned or borrowed. Candidates and
/// queries are taken as such values, and a candidate that is selected is
/// handed back as it was given.
pub trait AsText {
    /// The text this value stands for.
    spec fn text(&self) -> Seq<char>;

    /// The text this value stands for.
    fn as_text(&self) -> (s: &str)
        ensures
            s@ == self.text(),
    ;
}

impl AsText for str {
    open spec fn text(&self) -> Seq<char> {
        self@
    }

    fn as_text(&self) -> (s: &str) {
        self
    }
}

impl AsText for String {
    open spec fn text(&self) -> Seq<char> {
        self@
    }

    fn as_text(&self) -> (s: &str) {
        self.as_str()
    }
}

impl<T: AsText + ?Sized> AsText for &T {
    open spec fn text(&self) -> Seq<char> {
        (**self).text()
    }

    fn as_text(&self) -> (s: &str) {
        (**self).as_text()
    }
}

/// The length by which candidates are ranked: the number of bytes of the
/// text in UTF-8.
pub open spec fn weight(text: Seq<char>) -> nat {
    encode_utf8(text).len()
}

/// The texts of a sequence of candidates, in the same order.
pub open spec fn texts_of<O: AsText>(options: Seq<O>) -> Seq<Seq<char>> {
    Seq::new(options.len(), |i: int| options[i].text())
}

/// Computes [`weight`].
pub fn byte_len(s: &str) -> (n: usize)
    ensures
        n == weight(s@),
{
    s.as_bytes().len()
}

} // verus!
