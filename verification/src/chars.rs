//! What the matcher reads of a character: the key it is compared by and
//! whether it continues a word. Both come from the standard library's
//! Unicode tables.

use vstd::prelude::*;

verus! {

/// Whether the standard library classes `c` as alphabetic or numeric.
pub uninterp spec fn alphanumeric(c: char) -> bool;

/// Whether the standard library classes `c` as an uppercase letter.
pub uninterp spec fn uppercase(c: char) -> bool;

/// The lowercase mapping of `c`: the characters, in order, that the standard
/// library's lowercase conversion yields for it.
pub uninterp spec fn lowercase_of(c: char) -> Seq<char>;

/// `char::is_alphanumeric`. The answer depends on the character alone and is
/// read from Unicode tables; nothing more is claimed of it than that.
#[verifier::external_body]
pub(crate) fn is_alphanumeric(c: char) -> (r: bool)
    ensures
        r == alphanumeric(c),
{
    c.is_alphanumeric()
}

/// `char::is_uppercase`. The answer depends on the character alone and is
/// read from Unicode tables; nothing more is claimed of it than that.
#[verifier::external_body]
pub(crate) fn is_uppercase(c: char) -> (r: bool)
    ensures
        r == uppercase(c),
{
    c.is_uppercase()
}

/// `char::to_lowercase`, with the characters it yields gathered in a vector.
/// The mapping depends on the character alone and is read from Unicode tables.
#[verifier::external_body]
pub(crate) fn lowercase(c: char) -> (r: Vec<char>)
    ensures
        r@ == lowercase_of(c),
{
    c.to_lowercase().collect()
}

/// One character as the matcher sees it.
#[derive(Clone, Copy, Debug, PartialEq, Eq)]
pub struct Glyph {
    /// The key the character is compared by. Two characters are equal up to
    /// case exactly when their keys are equal.
    pub folded: Option<char>,
    /// Whether the character continues a word. A character that does not is
    /// a word boundary.
    pub in_word: bool,
}

/// The first character of a lowercase mapping, if the mapping has one.
pub open spec fn first_of(lower: Seq<char>) -> Option<char> {
    if lower.len() > 0 {
        Some(lower[0])
    } else {
        None
    }
}

/// How a character reads, given what the Unicode tables say of it: its key
/// is the first code point of its lowercase mapping, and it continues a word
/// when it is alphanumeric and not uppercase.
pub open spec fn glyph_from(lower: Seq<char>, alphanumeric: bool, uppercase: bool) -> Glyph {
    Glyph { folded: first_of(lower), in_word: alphanumeric && !uppercase }
}

/// How the character `c` reads.
pub open spec fn glyph_of(c: char) -> Glyph {
    glyph_from(lowercase_of(c), alphanumeric(c), uppercase(c))
}

/// How the characters of `s` read, in order.
pub open spec fn glyphs_of(s: Seq<char>) -> Seq<Glyph> {
    Seq::new(s.len(), |i: int| glyph_of(s[i]))
}

/// Computes [`glyph_from`].
pub fn glyph(lower: &[char], alphanumeric: bool, uppercase: bool) -> (g: Glyph)
    ensures
        g == glyph_from(lower@, alphanumeric, uppercase),
{
    let folded = if lower.len() > 0 {
        Some(lower[0])
    } else {
        None
    };
    Glyph { folded, in_word: alphanumeric && !uppercase }
}

/// Reads one character.
pub fn classify(c: char) -> (g: Glyph)
    ensures
        g == glyph_of(c),
{
    let lower = lowercase(c);
    glyph(lower.as_slice(), is_alphanumeric(c), is_uppercase(c))
}

/// Reads the characters of `s`, in order.
pub fn read(s: &str) -> (glyphs: Vec<Glyph>)
    ensures
        glyphs@ == glyphs_of(s@),
{
    let mut glyphs: Vec<Glyph> = Vec::new();
    for c in it: s.chars()
        invariant
            it.seq() == s@,
            glyphs@ == glyphs_of(s@.take(it.index())),
    {
        let ghost before = glyphs@;
        glyphs.push(classify(c));
        assert(glyphs@ == glyphs_of(s@.take(it.index() + 1))) by {
            assert(s@.take(it.index() + 1) == s@.take(it.index()).push(c));
        }
    }
    assert(s@.take(s@.len() as int) == s@);
    glyphs
}

/// The characters of `s`, in order.
pub fn decode(s: &str) -> (r: Vec<char>)
    ensures
        r@ == s@,
{
    let mut out: Vec<char> = Vec::new();
    for c in it: s.chars()
        invariant
            it.seq() == s@,
            out@ == s@.take(it.index()),
    {
        out.push(c);
    }
    out
}

} // verus!
