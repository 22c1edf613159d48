//! The selector: the shortest candidate that a query matches, the earliest
//! of the shortest where several are equally short.

use vstd::prelude::*;

use crate::least::{
    all_out,
    chooses,
    first_least,
    is_first_least,
    lemma_choice_exists,
    lemma_choice_unique,
};
use crate::matcher::matches_spec;
use crate::text::{byte_len, texts_of, weight, AsText};

verus! {

/// Whether the candidate at `i` is the one to select: the query matches it,
/// no candidate that the query matches is shorter, and none before it is as
/// short.
pub open spec fn is_best(texts: Seq<Seq<char>>, query: Seq<char>, i: int) -> bool {
    &&& 0 <= i < texts.len()
    &&& matches_spec(texts[i], query)
    &&& forall|j: int|
        0 <= j < texts.len() && matches_spec(#[trigger] texts[j], query) ==> weight(texts[i])
            <= weight(texts[j])
    &&& forall|j: int|
        0 <= j < i && matches_spec(#[trigger] texts[j], query) ==> weight(texts[i]) < weight(
            texts[j],
        )
}

/// Whether the query matches none of the candidates.
pub open spec fn none_match(texts: Seq<Seq<char>>, query: Seq<char>) -> bool {
    forall|j: int| 0 <= j < texts.len() ==> !matches_spec(#[trigger] texts[j], query)
}

/// Whether `pick` is what selection yields: the place of the best
/// candidate, or nothing where the query matches no candidate at all.
pub open spec fn selects(texts: Seq<Seq<char>>, query: Seq<char>, pick: Option<int>) -> bool {
    match pick {
        Some(i) => is_best(texts, query, i),
        None => none_match(texts, query),
    }
}

/// What each candidate costs: its weight where the query matches it; a
/// candidate that the query does not match is out of the running.
pub open spec fn ranks(texts: Seq<Seq<char>>, query: Seq<char>) -> Seq<Option<nat>> {
    Seq::new(
        texts.len(),
        |i: int|
            if matches_spec(texts[i], query) {
                Some(weight(texts[i]))
            } else {
                None
            },
    )
}

/// Selection is the choice of the first least weight among the candidates
/// that the query matches.
pub proof fn lemma_selects_first_least(
    texts: Seq<Seq<char>>,
    query: Seq<char>,
    pick: Option<int>,
)
    ensures
        selects(texts, query, pick) <==> chooses(ranks(texts, query), pick),
{
    let cost = ranks(texts, query);
    match pick {
        Some(i) => {
            if is_best(texts, query, i) {
                assert forall|j: int| 0 <= j < cost.len() && (#[trigger] cost[j]) is Some implies cost[i]->0
                    <= cost[j]->0 by {
                    assert(matches_spec(texts[j], query));
                }
                assert forall|j: int| 0 <= j < i && (#[trigger] cost[j]) is Some implies cost[i]->0
                    < cost[j]->0 by {
                    assert(matches_spec(texts[j], query));
                }
            }
            if is_first_least(cost, i) {
                assert forall|j: int|
                    0 <= j < texts.len() && matches_spec(#[trigger] texts[j], query) implies weight(
                    texts[i],
                ) <= weight(texts[j]) by {
                    assert(cost[j] is Some);
                }
                assert forall|j: int|
                    0 <= j < i && matches_spec(#[trigger] texts[j], query) implies weight(texts[i])
                    < weight(texts[j]) by {
                    assert(cost[j] is Some);
                }
            }
        },
        None => {
            if none_match(texts, query) {
                assert forall|j: int| 0 <= j < cost.len() implies (#[trigger] cost[j]) is None by {
                    assert(!matches_spec(texts[j], query));
                }
            }
            if all_out(cost) {
                assert forall|j: int| 0 <= j < texts.len() implies !matches_spec(
                    #[trigger] texts[j],
                    query,
                ) by {
                    assert(cost[j] is None);
                }
            }
        },
    }
}

/// Selection is a function of the candidates and the query: two runs over
/// the same candidates with the same query yield the same pick.
pub proof fn lemma_selection_unique(
    texts: Seq<Seq<char>>,
    query: Seq<char>,
    first: Option<int>,
    second: Option<int>,
)
    requires
        selects(texts, query, first),
        selects(texts, query, second),
    ensures
        first == second,
{
    lemma_selects_first_least(texts, query, first);
    lemma_selects_first_least(texts, query, second);
    lemma_choice_unique(ranks(texts, query), first, second);
}

/// Selection always has an outcome, and it yields a candidate exactly where
/// the query matches any.
pub proof fn lemma_selection_exists(texts: Seq<Seq<char>>, query: Seq<char>)
    ensures
        selects(texts, query, first_least(ranks(texts, query))),
        first_least(ranks(texts, query)) is None <==> none_match(texts, query),
{
    let cost = ranks(texts, query);
    lemma_choice_exists(cost);
    lemma_selects_first_least(texts, query, first_least(cost));
    lemma_selects_first_least(texts, query, None);
}

/// The shorter of a newly proposed candidate and the one held so far; the
/// one held so far where neither is shorter.
pub fn select_shortest<T: AsText>(proposed: T, previous: Option<T>) -> (r: T)
    ensures
        r == match previous {
            None => proposed,
            Some(prev) => if weight(proposed.text()) < weight(prev.text()) {
                proposed
            } else {
                prev
            },
        },
{
    match previous {
        None => proposed,
        Some(prev) => {
            if byte_len(proposed.as_text()) < byte_len(prev.as_text()) {
                proposed
            } else {
                prev
            }
        },
    }
}

/// The closest match to `query` among `options`: the shortest option that
/// the query matches, the first of them where several are equally short, and
/// nothing where the query matches none.
pub fn close_enough<'a, O: AsText, Q: AsText>(options: &'a [O], query: Q) -> (r: Option<&'a O>)
    ensures
        match r {
            Some(o) => exists|i: int|
                is_best(texts_of(options@), query.text(), i) && *o == #[trigger] options@[i],
            None => none_match(texts_of(options@), query.text()),
        },
{
    let query = query.as_text();
    let ghost texts = texts_of(options@);
    let mut shortest_answer: Option<&O> = None;
    let ghost mut held: int = 0;

    for n in 0..options.len()
        invariant
            texts == texts_of(options@),
            match shortest_answer {
                Some(o) => 0 <= held < n && is_best(texts.take(n as int), query@, held) && *o
                    == options@[held],
                None => none_match(texts.take(n as int), query@),
            },
    {
        let opt = &options[n];
        assert(texts.take(n + 1)[n as int] == opt.text());
        assert(forall|j: int| 0 <= j < n ==> texts.take(n as int)[j] == texts.take(n + 1)[j]);
        if crate::matcher::matches(opt.as_text(), query) {
            proof {
                match shortest_answer {
                    Some(o) => {
                        if weight(opt.text()) < weight(o.text()) {
                            held = n as int;
                        }
                    },
                    None => {
                        held = n as int;
                    },
                }
            }
            shortest_answer = Some(select_shortest(opt, shortest_answer));
        }
    }
    assert(texts.take(options.len() as int) == texts);
    shortest_answer
}

} // verus!
