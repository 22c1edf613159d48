//! The matcher: decides whether a query is an abbreviation of a candidate.
//!
//! The candidate is read once, front to back, without backtracking. For each
//! stretch of the query the scan first looks for the stretch's first
//! character, then consumes as long a run of agreeing characters as it can,
//! and then jumps to the end of the word in which the run stopped. Letters
//! typed in order therefore match across the starts of several words, but an
//! abbreviation is not found scattered inside one unbroken word.

use vstd::prelude::*;

use crate::chars::{glyphs_of, read, Glyph};
use crate::cursor::Cursor;
use crate::text::AsText;

verus! {

/// Whether two characters are equal up to case.
pub open spec fn same_fold(a: Glyph, b: Glyph) -> bool {
    a.folded == b.folded
}

/// The first position at or after `from` where `text` holds a character
/// that equals `x` up to case; `text.len()` if there is none.
pub open spec fn seek(text: Seq<Glyph>, from: int, x: Glyph) -> int
    decreases text.len() - from,
{
    if from >= text.len() {
        text.len() as int
    } else if same_fold(x, text[from]) {
        from
    } else {
        seek(text, from + 1, x)
    }
}

/// How many characters agree up to case, one by one, reading `text` from
/// `at` and `query` from `qat`.
pub open spec fn run(text: Seq<Glyph>, at: int, query: Seq<Glyph>, qat: int) -> nat
    decreases query.len() - qat,
{
    if 0 <= at < text.len() && 0 <= qat < query.len() && same_fold(query[qat], text[at]) {
        1 + run(text, at + 1, query, qat + 1)
    } else {
        0
    }
}

/// The end of the word that `from` lies in: the first position at or after
/// `from` that holds a word boundary, or `text.len()` if the word runs to the
/// end.
pub open spec fn word_end(text: Seq<Glyph>, from: int) -> int
    decreases text.len() - from,
{
    if 0 <= from < text.len() && text[from].in_word {
        word_end(text, from + 1)
    } else {
        from
    }
}

/// Whether the query from `qat` on is matched by the candidate from `at` on.
pub open spec fn matches_from(text: Seq<Glyph>, at: int, query: Seq<Glyph>, qat: int) -> bool
    decreases query.len() - qat,
    via matches_from_decreases
{
    if qat < 0 || qat >= query.len() {
        true
    } else {
        let hit = seek(text, at, query[qat]);
        if at < 0 || hit >= text.len() {
            false
        } else {
            let n = run(text, hit, query, qat);
            matches_from(text, word_end(text, hit + n), query, qat + n)
        }
    }
}

#[via_fn]
proof fn matches_from_decreases(text: Seq<Glyph>, at: int, query: Seq<Glyph>, qat: int) {
    if 0 <= qat < query.len() && 0 <= at {
        let hit = seek(text, at, query[qat]);
        if hit < text.len() {
            lemma_seek(text, at, query[qat]);
            lemma_run(text, hit, query, qat);
            assert(run(text, hit, query, qat) >= 1);
        }
    }
}

/// Whether the query matches the candidate, both given as glyphs.
pub open spec fn scans(candidate: Seq<Glyph>, query: Seq<Glyph>) -> bool {
    matches_from(candidate, 0, query, 0)
}

/// Whether `query` matches `candidate`.
pub open spec fn matches_spec(candidate: Seq<char>, query: Seq<char>) -> bool {
    scans(glyphs_of(candidate), glyphs_of(query))
}

/// `seek` finds the first agreeing character: it lies at or after `from`,
/// nothing before it agrees, and it agrees unless the text ran out.
pub proof fn lemma_seek(text: Seq<Glyph>, from: int, x: Glyph)
    requires
        0 <= from,
    ensures
        from <= seek(text, from, x) || seek(text, from, x) == text.len(),
        seek(text, from, x) <= text.len(),
        seek(text, from, x) < text.len() ==> same_fold(x, text[seek(text, from, x)]),
        forall|k: int| from <= k < seek(text, from, x) ==> !same_fold(x, #[trigger] text[k]),
    decreases text.len() - from,
{
    if from < text.len() && !same_fold(x, text[from]) {
        lemma_seek(text, from + 1, x);
    }
}

/// A run stays within both the text and the query, and every pair of
/// characters in it agrees; the pair just after it, if there is one, does not.
pub proof fn lemma_run(text: Seq<Glyph>, at: int, query: Seq<Glyph>, qat: int)
    requires
        0 <= at,
        0 <= qat,
    ensures
        at + run(text, at, query, qat) <= text.len() || run(text, at, query, qat) == 0,
        qat + run(text, at, query, qat) <= query.len() || run(text, at, query, qat) == 0,
        forall|k: int|
            0 <= k < run(text, at, query, qat) ==> same_fold(
                #[trigger] query[qat + k],
                text[at + k],
            ),
        ({
            let n = run(text, at, query, qat);
            at + n < text.len() && qat + n < query.len() ==> !same_fold(
                query[qat + n],
                text[at + n],
            )
        }),
    decreases query.len() - qat,
{
    if at < text.len() && qat < query.len() && same_fold(query[qat], text[at]) {
        lemma_run(text, at + 1, query, qat + 1);
        let n = run(text, at + 1, query, qat + 1);
        assert forall|k: int| 0 <= k < n + 1 implies same_fold(
            #[trigger] query[qat + k],
            text[at + k],
        ) by {
            if k > 0 {
                assert(same_fold(query[(qat + 1) + (k - 1)], text[(at + 1) + (k - 1)]));
            }
        }
    }
}

/// The end of a word lies at or after the start, within the text, and
/// everything passed on the way continues the word.
pub proof fn lemma_word_end(text: Seq<Glyph>, from: int)
    requires
        0 <= from <= text.len(),
    ensures
        from <= word_end(text, from) <= text.len(),
        word_end(text, from) < text.len() ==> !text[word_end(text, from)].in_word,
        forall|k: int| from <= k < word_end(text, from) ==> (#[trigger] text[k]).in_word,
    decreases text.len() - from,
{
    if from < text.len() && text[from].in_word {
        lemma_word_end(text, from + 1);
    }
}

/// Whether both characters are present and equal up to case.
pub fn same_char(a: Option<&Glyph>, b: Option<&Glyph>) -> (r: bool)
    ensures
        r == match (a, b) {
            (Some(x), Some(y)) => same_fold(*x, *y),
            _ => false,
        },
{
    match (a, b) {
        (Some(achar), Some(bchar)) => achar.folded == bchar.folded,
        _ => false,
    }
}

/// Moves the cursor to the end of the word it is in: past every character
/// that continues the word, stopping at the first boundary or at the end.
pub fn skip_word(chars: &mut Cursor)
    ensures
        final(chars).text() == old(chars).text(),
        final(chars).pos() == word_end(old(chars).text(), old(chars).pos()),
{
    let mut has_more = chars.peek().is_some();
    while has_more
        invariant
            chars.text() == old(chars).text(),
            0 <= chars.pos() <= chars.text().len(),
            has_more <==> chars.pos() < chars.text().len(),
            word_end(chars.text(), chars.pos()) == word_end(old(chars).text(), old(chars).pos()),
        ensures
            chars.text() == old(chars).text(),
            chars.pos() == word_end(old(chars).text(), old(chars).pos()),
        decreases chars.text().len() - chars.pos(),
    {
        if let Some(c) = chars.peek() {
            if !c.in_word {
                break ;
            }
        }
        chars.next();
        has_more = chars.peek().is_some();
    }
}

/// Whether the query matches the candidate, both given as glyphs: whether
/// every character of the query is consumed by some run while the candidate
/// is read once from the front. The empty query matches everything.
pub fn scan(candidate: &[Glyph], query: &[Glyph]) -> (r: bool)
    ensures
        r == scans(candidate@, query@),
        query@.len() == 0 ==> r,
        r ==> in_order(candidate@, query@),
{
    let mut optchars = Cursor::new(candidate);
    let mut querychars = Cursor::new(query);
    let ghost text = candidate@;
    let ghost ask = query@;

    while querychars.peek().is_some()
        invariant_except_break
            scans(text, ask) == matches_from(text, optchars.pos(), ask, querychars.pos()),
        invariant
            optchars.text() == text,
            querychars.text() == ask,
            0 <= optchars.pos() <= text.len(),
            0 <= querychars.pos() <= ask.len(),
        ensures
            (querychars.pos() == ask.len()) == scans(text, ask),
        decreases ask.len() - querychars.pos(),
    {
        let ghost start = optchars.pos();
        let ghost qstart = querychars.pos();

        while optchars.peek().is_some() && !same_char(querychars.peek(), optchars.peek())
            invariant
                optchars.text() == text,
                querychars.text() == ask,
                querychars.pos() == qstart,
                0 <= qstart < ask.len(),
                0 <= start <= optchars.pos() <= text.len(),
                seek(text, start, ask[qstart]) == seek(text, optchars.pos(), ask[qstart]),
            decreases text.len() - optchars.pos(),
        {
            optchars.next();
        }

        if optchars.peek().is_none() {
            break ;
        }
        let ghost hit = optchars.pos();
        assert(hit == seek(text, start, ask[qstart]));

        while querychars.peek().is_some() && same_char(querychars.peek(), optchars.peek())
            invariant
                optchars.text() == text,
                querychars.text() == ask,
                0 <= hit <= optchars.pos() <= text.len(),
                0 <= qstart <= querychars.pos() <= ask.len(),
                optchars.pos() - hit == querychars.pos() - qstart,
                run(text, hit, ask, qstart) == (querychars.pos() - qstart) + run(
                    text,
                    optchars.pos(),
                    ask,
                    querychars.pos(),
                ),
            decreases ask.len() - querychars.pos(),
        {
            querychars.next();
            optchars.next();
        }
        assert(run(text, optchars.pos(), ask, querychars.pos()) == 0);
        assert(querychars.pos() > qstart);

        skip_word(&mut optchars);
        proof {
            lemma_word_end(text, hit + run(text, hit, ask, qstart));
        }
    }

    proof {
        lemma_in_order(candidate@, query@);
    }
    querychars.peek().is_none()
}

/// Whether `query` matches `candidate`: whether every character of the
/// query is consumed by some run while the candidate is read once from the
/// front. The empty query matches everything, and nothing is matched unless
/// the characters of the query appear in the candidate, in order, up to case.
pub fn matches<Candidate: AsText, Query: AsText>(candidate: Candidate, query: Query) -> (r: bool)
    ensures
        r == matches_spec(candidate.text(), query.text()),
        query.text().len() == 0 ==> r,
        r ==> in_order(glyphs_of(candidate.text()), glyphs_of(query.text())),
{
    let text = read(candidate.as_text());
    let ask = read(query.as_text());
    scan(text.as_slice(), ask.as_slice())
}

/// Whether the characters of `query` all appear in `text`, in the order of
/// the query, each equal up to case to the character it stands for.
pub open spec fn in_order(text: Seq<Glyph>, query: Seq<Glyph>) -> bool {
    exists|at: Seq<int>| aligns(text, query, at)
}

/// Whether `at` gives, for each character of `query`, a position in `text`
/// that holds the same character up to case, the positions strictly rising.
pub open spec fn aligns(text: Seq<Glyph>, query: Seq<Glyph>, at: Seq<int>) -> bool {
    &&& at.len() == query.len()
    &&& forall|j: int| 0 <= j < at.len() ==> 0 <= #[trigger] at[j] < text.len()
    &&& forall|j: int| 0 <= j < at.len() ==> same_fold(query[j], text[#[trigger] at[j]])
    &&& forall|i: int, j: int| 0 <= i < j < at.len() ==> #[trigger] at[i] < #[trigger] at[j]
}

/// The positions at which the matcher consumes the query's characters from
/// `qat` on, reading the candidate from `at`.
pub open spec fn alignment(text: Seq<Glyph>, at: int, query: Seq<Glyph>, qat: int) -> Seq<int>
    decreases query.len() - qat,
    via alignment_decreases
{
    if qat < 0 || qat >= query.len() {
        Seq::empty()
    } else {
        let hit = seek(text, at, query[qat]);
        if at < 0 || hit >= text.len() {
            Seq::empty()
        } else {
            let n = run(text, hit, query, qat);
            Seq::new(n, |k: int| hit + k) + alignment(
                text,
                word_end(text, hit + n),
                query,
                qat + n,
            )
        }
    }
}

#[via_fn]
proof fn alignment_decreases(text: Seq<Glyph>, at: int, query: Seq<Glyph>, qat: int) {
    if 0 <= qat < query.len() && 0 <= at {
        let hit = seek(text, at, query[qat]);
        if hit < text.len() {
            lemma_seek(text, at, query[qat]);
            lemma_run(text, hit, query, qat);
            assert(run(text, hit, query, qat) >= 1);
        }
    }
}

/// Where the matcher succeeds from `at` and `qat`, the positions it consumed
/// are as many as the query's remaining characters, lie at or after `at`
/// within the text, rise strictly, and each holds the query's character up to
/// case.
proof fn lemma_alignment(text: Seq<Glyph>, at: int, query: Seq<Glyph>, qat: int)
    requires
        0 <= at <= text.len(),
        0 <= qat <= query.len(),
        matches_from(text, at, query, qat),
    ensures
        ({
            let a = alignment(text, at, query, qat);
            &&& a.len() == query.len() - qat
            &&& forall|j: int| 0 <= j < a.len() ==> at <= #[trigger] a[j] < text.len()
            &&& forall|j: int|
                0 <= j < a.len() ==> same_fold(query[qat + j], text[#[trigger] a[j]])
            &&& forall|i: int, j: int| 0 <= i < j < a.len() ==> #[trigger] a[i] < #[trigger] a[j]
        }),
    decreases query.len() - qat,
{
    if qat < query.len() {
        let hit = seek(text, at, query[qat]);
        lemma_seek(text, at, query[qat]);
        let n = run(text, hit, query, qat);
        lemma_run(text, hit, query, qat);
        let next = word_end(text, hit + n);
        lemma_word_end(text, hit + n);
        lemma_alignment(text, next, query, qat + n);
        let head = Seq::new(n, |k: int| hit + k);
        let tail = alignment(text, next, query, qat + n);
        let a = alignment(text, at, query, qat);
        assert(a == head + tail);
        assert forall|j: int| 0 <= j < a.len() implies at <= #[trigger] a[j] < text.len()
            && same_fold(query[qat + j], text[a[j]]) by {
            if j < n {
                assert(a[j] == hit + j);
            } else {
                assert(a[j] == tail[j - n]);
                assert(same_fold(query[(qat + n) + (j - n)], text[tail[j - n]]));
            }
        }
        assert forall|i: int, j: int| 0 <= i < j < a.len() implies #[trigger] a[i] < #[trigger] a[j] by {
            if j < n {
                assert(a[i] == hit + i);
                assert(a[j] == hit + j);
            } else if i < n {
                assert(a[i] == hit + i);
                assert(a[j] == tail[j - n]);
            } else {
                assert(a[i] == tail[i - n]);
                assert(a[j] == tail[j - n]);
            }
        }
    }
}

/// The empty query matches every candidate.
pub proof fn lemma_empty_query_matches(candidate: Seq<char>)
    ensures
        matches_spec(candidate, Seq::<char>::empty()),
{
    assert(glyphs_of(Seq::<char>::empty()).len() == 0);
}

/// A match is only ever found where every character of the query appears in
/// the candidate, in order, up to case.
pub proof fn lemma_in_order(candidate: Seq<Glyph>, query: Seq<Glyph>)
    ensures
        scans(candidate, query) ==> in_order(candidate, query),
{
    if scans(candidate, query) {
        lemma_alignment(candidate, 0, query, 0);
        let a = alignment(candidate, 0, query, 0);
        assert(aligns(candidate, query, a));
    }
}

/// Whether `text` is one unbroken word: no character of it is a boundary.
pub open spec fn unbroken(text: Seq<Glyph>) -> bool {
    forall|k: int| 0 <= k < text.len() ==> (#[trigger] text[k]).in_word
}

/// The scan does not look twice within one word: in a candidate that is one
/// unbroken word, a query matches exactly when it is found as a single
/// contiguous stretch that begins at the first occurrence of its first
/// character.
pub proof fn lemma_unbroken_word(candidate: Seq<Glyph>, query: Seq<Glyph>)
    requires
        unbroken(candidate),
        query.len() > 0,
    ensures
        scans(candidate, query) <==> ({
            let hit = seek(candidate, 0, query[0]);
            hit < candidate.len() && run(candidate, hit, query, 0) == query.len()
        }),
{
    let hit = seek(candidate, 0, query[0]);
    lemma_seek(candidate, 0, query[0]);
    if hit < candidate.len() {
        let n = run(candidate, hit, query, 0);
        lemma_run(candidate, hit, query, 0);
        lemma_word_end(candidate, hit + n);
        let next = word_end(candidate, hit + n);
        assert(next == candidate.len()) by {
            if next < candidate.len() {
                assert(candidate[next].in_word);
            }
        }
        assert(n >= 1);
        assert(scans(candidate, query) == matches_from(candidate, next, query, 0int + n));
        if n < query.len() {
            assert(seek(candidate, next, query[n as int]) == candidate.len());
            assert(!matches_from(candidate, next, query, n as int));
        } else {
            assert(matches_from(candidate, next, query, n as int));
        }
    }
}

} // verus!
