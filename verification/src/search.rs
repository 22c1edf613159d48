//! Choosing among directories that a walk or a listing has found.
//!
//! Nothing here touches the file system. A caller walks or lists, hands over
//! what it found as plain names, in the order in which it found them, and
//! gets back what the query selects.

use vstd::prelude::*;

use crate::least::{
    all_out,
    chooses,
    first_least,
    is_first_least,
    lemma_choice_exists,
    lemma_choice_unique,
};
use crate::matcher::matches_spec;
use crate::path::{extended, rendered, PathView, WorkingPath};
use crate::text::{byte_len, texts_of, weight};

verus! {

/// The name lists of a sequence of entries, each taken as character
/// sequences.
pub open spec fn name_lists(entries: Seq<Vec<String>>) -> Seq<Seq<Seq<char>>> {
    Seq::new(entries.len(), |i: int| texts_of(entries[i]@))
}

/// The views of a sequence of paths, in order.
pub open spec fn path_views(paths: Seq<WorkingPath>) -> Seq<PathView> {
    Seq::new(paths.len(), |i: int| paths[i]@)
}

/// Whether an entry of a walk, given as the names that lead to it from the
/// walk's root, is a directory that `query` could select: it lies below the
/// root, and the query matches its own name, the last on the way to it.
pub open spec fn is_candidate(entry: Seq<Seq<char>>, query: Seq<char>) -> bool {
    entry.len() > 0 && matches_spec(entry.last(), query)
}

/// Whether the entry at `k` is the one a recursive search selects: it is a
/// candidate, no candidate lies nearer to the root, and none that comes
/// before it lies as near.
pub open spec fn is_nearest(entries: Seq<Seq<Seq<char>>>, query: Seq<char>, k: int) -> bool {
    &&& 0 <= k < entries.len()
    &&& is_candidate(entries[k], query)
    &&& forall|j: int|
        0 <= j < entries.len() && is_candidate(#[trigger] entries[j], query) ==> entries[k].len()
            <= entries[j].len()
    &&& forall|j: int|
        0 <= j < k && is_candidate(#[trigger] entries[j], query) ==> entries[k].len()
            < entries[j].len()
}

/// Whether `pick` is what a recursive search yields: the place of the
/// nearest candidate, or nothing where the walk holds no candidate.
pub open spec fn finds(entries: Seq<Seq<Seq<char>>>, query: Seq<char>, pick: Option<int>) -> bool {
    match pick {
        Some(k) => is_nearest(entries, query, k),
        None => forall|j: int| 0 <= j < entries.len() ==> !is_candidate(#[trigger] entries[j], query),
    }
}

/// What each entry costs: its depth below the root where it is a candidate;
/// an entry that is none is out of the running.
pub open spec fn depths(entries: Seq<Seq<Seq<char>>>, query: Seq<char>) -> Seq<Option<nat>> {
    Seq::new(
        entries.len(),
        |i: int|
            if is_candidate(entries[i], query) {
                Some(entries[i].len())
            } else {
                None
            },
    )
}

/// The place of the entry that a recursive search selects, if there is one.
pub open spec fn nearest(entries: Seq<Seq<Seq<char>>>, query: Seq<char>) -> Option<int> {
    first_least(depths(entries, query))
}

/// A recursive search is the choice of the first least depth among the
/// candidates.
pub proof fn lemma_finds_first_least(
    entries: Seq<Seq<Seq<char>>>,
    query: Seq<char>,
    pick: Option<int>,
)
    ensures
        finds(entries, query, pick) <==> chooses(depths(entries, query), pick),
{
    let cost = depths(entries, query);
    match pick {
        Some(k) => {
            if is_nearest(entries, query, k) {
                assert forall|j: int| 0 <= j < cost.len() && (#[trigger] cost[j]) is Some implies cost[k]->0
                    <= cost[j]->0 by {
                    assert(is_candidate(entries[j], query));
                }
                assert forall|j: int| 0 <= j < k && (#[trigger] cost[j]) is Some implies cost[k]->0
                    < cost[j]->0 by {
                    assert(is_candidate(entries[j], query));
                }
            }
            if is_first_least(cost, k) {
                assert forall|j: int|
                    0 <= j < entries.len() && is_candidate(
                        #[trigger] entries[j],
                        query,
                    ) implies entries[k].len() <= entries[j].len() by {
                    assert(cost[j] is Some);
                }
                assert forall|j: int|
                    0 <= j < k && is_candidate(#[trigger] entries[j], query) implies entries[k].len()
                    < entries[j].len() by {
                    assert(cost[j] is Some);
                }
            }
        },
        None => {
            if finds(entries, query, pick) {
                assert forall|j: int| 0 <= j < cost.len() implies (#[trigger] cost[j]) is None by {
                    assert(!is_candidate(entries[j], query));
                }
            }
            if all_out(cost) {
                assert forall|j: int| 0 <= j < entries.len() implies !is_candidate(
                    #[trigger] entries[j],
                    query,
                ) by {
                    assert(cost[j] is None);
                }
            }
        },
    }
}

/// A recursive search has one outcome only, [`nearest`]: it selects an
/// entry exactly where the walk holds a candidate, and then the nearest.
pub proof fn lemma_nearest(entries: Seq<Seq<Seq<char>>>, query: Seq<char>, pick: Option<int>)
    ensures
        finds(entries, query, pick) <==> pick == nearest(entries, query),
{
    let cost = depths(entries, query);
    lemma_choice_exists(cost);
    lemma_finds_first_least(entries, query, pick);
    lemma_finds_first_least(entries, query, nearest(entries, query));
    if finds(entries, query, pick) {
        lemma_choice_unique(cost, pick, nearest(entries, query));
    }
}

/// Selects, among the entries of a walk, the directory nearest to the
/// walk's root whose name `query` matches; among several equally near, the
/// one that the walk found first. Each entry is the list of names that lead
/// to it from the root.
pub fn find_nearest(entries: &[Vec<String>], query: &str) -> (r: Option<usize>)
    ensures
        match r {
            Some(k) => nearest(name_lists(entries@), query@) == Some(k as int),
            None => nearest(name_lists(entries@), query@) is None,
        },
        r matches Some(k) ==> is_nearest(name_lists(entries@), query@, k as int),
{
    let ghost all = name_lists(entries@);
    let mut found: Option<usize> = None;
    let mut depth: usize = 0;
    for n in 0..entries.len()
        invariant
            all == name_lists(entries@),
            match found {
                Some(k) => k < n && is_nearest(all.take(n as int), query@, k as int) && depth
                    == all[k as int].len(),
                None => forall|j: int| 0 <= j < n ==> !is_candidate(#[trigger] all[j], query@),
            },
    {
        let entry = &entries[n];
        let ghost head = all.take(n + 1);
        assert(forall|j: int| 0 <= j < n ==> all.take(n as int)[j] == #[trigger] head[j]);
        assert(head[n as int] == texts_of(entry@));
        let len = entry.len();
        let nearer = match found {
            Some(_) => len < depth,
            None => true,
        };
        if len > 0 && nearer && crate::matcher::matches(entry[len - 1].as_str(), query) {
            assert(texts_of(entry@).last() == entry@[len - 1]@);
            found = Some(n);
            depth = len;
            assert(is_nearest(head, query@, n as int));
        } else {
            proof {
                if let Some(k) = found {
                    assert(is_nearest(head, query@, k as int));
                } else {
                    assert(texts_of(entry@).len() > 0 ==> texts_of(entry@).last() == entry@[len
                        - 1]@);
                    assert(!is_candidate(all[n as int], query@));
                }
            }
        }
    }
    assert(all.take(entries.len() as int) == all);
    proof {
        let pick = match found {
            Some(k) => Some(k as int),
            None => None,
        };
        lemma_nearest(all, query@, pick);
    }
    found
}

/// The paths one level below `base` under those of `names` that `query`
/// matches, in the order of the names.
pub open spec fn kept(base: PathView, names: Seq<Seq<char>>, query: Seq<char>) -> Seq<PathView>
    decreases names.len(),
{
    if names.len() == 0 {
        Seq::empty()
    } else {
        let before = kept(base, names.drop_last(), query);
        if matches_spec(names.last(), query) {
            before.push(extended(base, seq![names.last()]))
        } else {
            before
        }
    }
}

/// One step of narrowing: every path of `set` is replaced by the paths one
/// level below it whose names `query` matches, `listings` holding, in the
/// place of each path of the set, the names found directly below it. A path
/// for which no listing is given has nothing below it.
pub open spec fn narrowed(
    set: Seq<PathView>,
    listings: Seq<Seq<Seq<char>>>,
    query: Seq<char>,
) -> Seq<PathView>
    decreases set.len(),
{
    if set.len() == 0 {
        Seq::empty()
    } else {
        let last = set.len() - 1;
        narrowed(set.drop_last(), listings, query) + if last < listings.len() {
            kept(set.last(), listings[last], query)
        } else {
            Seq::empty()
        }
    }
}

/// A path is kept exactly when it lies one level below the base under a
/// listed name that the query matches.
pub proof fn lemma_kept(base: PathView, names: Seq<Seq<char>>, query: Seq<char>, path: PathView)
    ensures
        kept(base, names, query).contains(path) <==> exists|j: int|
            0 <= j < names.len() && matches_spec(#[trigger] names[j], query) && path == extended(
                base,
                seq![names[j]],
            ),
    decreases names.len(),
{
    if names.len() > 0 {
        let fewer = names.drop_last();
        let before = kept(base, fewer, query);
        lemma_kept(base, fewer, query, path);
        let now = kept(base, names, query);
        if now.contains(path) {
            let at = choose|at: int| 0 <= at < now.len() && now[at] == path;
            if at < before.len() {
                assert(before[at] == path);
                assert(before.contains(path));
                let j = choose|j: int|
                    0 <= j < fewer.len() && matches_spec(#[trigger] fewer[j], query) && path
                        == extended(base, seq![fewer[j]]);
                assert(names[j] == fewer[j]);
            } else {
                assert(matches_spec(names[names.len() - 1], query));
            }
        }
        if exists|j: int|
            0 <= j < names.len() && matches_spec(#[trigger] names[j], query) && path == extended(
                base,
                seq![names[j]],
            ) {
            let j = choose|j: int|
                0 <= j < names.len() && matches_spec(#[trigger] names[j], query) && path
                    == extended(base, seq![names[j]]);
            if j < names.len() - 1 {
                assert(fewer[j] == names[j]);
                assert(before.contains(path));
                let at = choose|at: int| 0 <= at < before.len() && before[at] == path;
                assert(now[at] == path);
            } else {
                assert(now[now.len() - 1] == path);
            }
        }
    }
}

/// Narrowing yields the union, over the paths of the set, of the paths one
/// level below each whose names the query matches: a path comes out exactly
/// when it lies directly below some path of the set, under a name listed for
/// that path that the query matches.
pub proof fn lemma_narrowed(
    set: Seq<PathView>,
    listings: Seq<Seq<Seq<char>>>,
    query: Seq<char>,
    path: PathView,
)
    ensures
        narrowed(set, listings, query).contains(path) <==> exists|i: int, j: int|
            0 <= i < set.len() && i < listings.len() && 0 <= j < listings[i].len() && matches_spec(
                #[trigger] listings[i][j],
                query,
            ) && path == extended(#[trigger] set[i], seq![listings[i][j]]),
    decreases set.len(),
{
    if set.len() > 0 {
        let last = set.len() - 1;
        let fewer = set.drop_last();
        let before = narrowed(fewer, listings, query);
        let added = if last < listings.len() {
            kept(set.last(), listings[last], query)
        } else {
            Seq::empty()
        };
        let now = narrowed(set, listings, query);
        assert(now == before + added);
        lemma_narrowed(fewer, listings, query, path);
        if last < listings.len() {
            lemma_kept(set.last(), listings[last], query, path);
        }
        if now.contains(path) {
            let at = choose|at: int| 0 <= at < now.len() && now[at] == path;
            if at < before.len() {
                assert(before[at] == path);
                assert(before.contains(path));
                let (i, j) = choose|i: int, j: int|
                    0 <= i < fewer.len() && i < listings.len() && 0 <= j < listings[i].len()
                        && matches_spec(#[trigger] listings[i][j], query) && path == extended(
                        #[trigger] fewer[i],
                        seq![listings[i][j]],
                    );
                assert(set[i] == fewer[i]);
            } else {
                assert(added[at - before.len()] == path);
                assert(added.contains(path));
                let j = choose|j: int|
                    0 <= j < listings[last].len() && matches_spec(
                        #[trigger] listings[last][j],
                        query,
                    ) && path == extended(set.last(), seq![listings[last][j]]);
                assert(set[last] == set.last());
            }
        }
        if exists|i: int, j: int|
            0 <= i < set.len() && i < listings.len() && 0 <= j < listings[i].len() && matches_spec(
                #[trigger] listings[i][j],
                query,
            ) && path == extended(#[trigger] set[i], seq![listings[i][j]]) {
            let (i, j) = choose|i: int, j: int|
                0 <= i < set.len() && i < listings.len() && 0 <= j < listings[i].len()
                    && matches_spec(#[trigger] listings[i][j], query) && path == extended(
                    #[trigger] set[i],
                    seq![listings[i][j]],
                );
            if i < last {
                assert(fewer[i] == set[i]);
                assert(before.contains(path));
                let at = choose|at: int| 0 <= at < before.len() && before[at] == path;
                assert(now[at] == path);
            } else {
                assert(added.contains(path));
                let at = choose|at: int| 0 <= at < added.len() && added[at] == path;
                assert(now[before.len() + at] == path);
            }
        }
    }
}

/// Narrows a working set by one query: each path of the set is replaced by
/// the paths directly below it whose names the query matches. `listings`
/// gives, in the place of each path of the set, the names directly below it.
pub fn narrow(set: &[WorkingPath], listings: &[Vec<String>], query: &str) -> (out: Vec<WorkingPath>)
    ensures
        path_views(out@) == narrowed(path_views(set@), name_lists(listings@), query@),
{
    let ghost paths = path_views(set@);
    let ghost lists = name_lists(listings@);
    let mut out: Vec<WorkingPath> = Vec::new();
    for i in 0..set.len()
        invariant
            paths == path_views(set@),
            lists == name_lists(listings@),
            path_views(out@) == narrowed(paths.take(i as int), lists, query@),
    {
        assert(paths.take(i + 1).drop_last() == paths.take(i as int));
        assert(paths.take(i + 1).last() == set@[i as int]@);
        if i < listings.len() {
            let names = &listings[i];
            let ghost texts = texts_of(names@);
            let ghost before = path_views(out@);
            assert(lists[i as int] == texts);
            for j in 0..names.len()
                invariant
                    i < set@.len(),
                    texts == texts_of(names@),
                    path_views(out@) == before + kept(set@[i as int]@, texts.take(j as int), query@),
            {
                assert(texts.take(j + 1).drop_last() == texts.take(j as int));
                assert(texts.take(j + 1).last() == names@[j as int]@);
                if crate::matcher::matches(names[j].as_str(), query) {
                    let ghost held = out@;
                    out.push(set[i].child(names[j].as_str()));
                    assert(path_views(out@) == path_views(held).push(
                        extended(set@[i as int]@, seq![names@[j as int]@]),
                    ));
                }
            }
            assert(texts.take(names.len() as int) == texts);
        } else {
            assert(path_views(out@) + Seq::<PathView>::empty() == path_views(out@));
        }
    }
    assert(paths.take(set.len() as int) == paths);
    out
}

/// Whether the path at `k` is the one a chain commits to: no path of the
/// set is shorter as text, and none before it is as short.
pub open spec fn is_shortest(set: Seq<PathView>, k: int) -> bool {
    &&& 0 <= k < set.len()
    &&& forall|j: int|
        0 <= j < set.len() ==> weight(rendered(set[k])) <= weight(rendered(#[trigger] set[j]))
    &&& forall|j: int| 0 <= j < k ==> weight(rendered(set[k])) < weight(rendered(#[trigger] set[j]))
}

/// What each path costs: the length of its text.
pub open spec fn lengths(set: Seq<PathView>) -> Seq<Option<nat>> {
    Seq::new(set.len(), |i: int| Some(weight(rendered(set[i]))))
}

/// The place of the path that a chain commits to, if the set has any.
pub open spec fn shortest(set: Seq<PathView>) -> Option<int> {
    first_least(lengths(set))
}

/// A chain commits by the choice of the first least length.
pub proof fn lemma_shortest_first_least(set: Seq<PathView>, k: int)
    ensures
        is_shortest(set, k) <==> is_first_least(lengths(set), k),
{
    let cost = lengths(set);
    if is_shortest(set, k) {
        assert forall|j: int| 0 <= j < cost.len() && (#[trigger] cost[j]) is Some implies cost[k]->0
            <= cost[j]->0 by {
            assert(weight(rendered(set[k])) <= weight(rendered(set[j])));
        }
        assert forall|j: int| 0 <= j < k && (#[trigger] cost[j]) is Some implies cost[k]->0
            < cost[j]->0 by {
            assert(weight(rendered(set[k])) < weight(rendered(set[j])));
        }
    }
    if is_first_least(cost, k) {
        assert forall|j: int| 0 <= j < set.len() implies weight(rendered(set[k])) <= weight(
            rendered(#[trigger] set[j]),
        ) by {
            assert(cost[j] is Some);
        }
        assert forall|j: int| 0 <= j < k implies weight(rendered(set[k])) < weight(
            rendered(#[trigger] set[j]),
        ) by {
            assert(cost[j] is Some);
        }
    }
}

/// A chain commits to one path only, [`shortest`]: every set but the empty
/// one has a shortest path, and no set has two.
pub proof fn lemma_shortest(set: Seq<PathView>, k: int)
    ensures
        shortest(set) is Some <==> set.len() > 0,
        is_shortest(set, k) <==> shortest(set) == Some(k),
{
    let cost = lengths(set);
    lemma_choice_exists(cost);
    lemma_shortest_first_least(set, k);
    if set.len() > 0 {
        assert(cost[0] is Some);
    }
    if let Some(chosen) = shortest(set) {
        lemma_shortest_first_least(set, chosen);
    }
    if is_first_least(cost, k) {
        lemma_choice_unique(cost, Some(k), shortest(set));
    }
}

/// Selects the path whose text is shortest; among several equally short,
/// the first. Only an empty set has none.
pub fn find_shortest(set: &[WorkingPath]) -> (r: Option<usize>)
    ensures
        match r {
            Some(k) => shortest(path_views(set@)) == Some(k as int),
            None => shortest(path_views(set@)) is None,
        },
        r matches Some(k) ==> is_shortest(path_views(set@), k as int),
        r is Some <==> set@.len() > 0,
{
    let ghost all = path_views(set@);
    let mut found: Option<usize> = None;
    let mut least: usize = 0;
    for n in 0..set.len()
        invariant
            all == path_views(set@),
            found is Some <==> n > 0,
            found matches Some(k) ==> k < n && is_shortest(all.take(n as int), k as int) && least
                == weight(rendered(all[k as int])),
    {
        let ghost head = all.take(n + 1);
        assert(forall|j: int| 0 <= j < n ==> all.take(n as int)[j] == #[trigger] head[j]);
        assert(head[n as int] == set@[n as int]@);
        let text = set[n].render();
        let len = byte_len(text.as_str());
        let shorter = match found {
            Some(_) => len < least,
            None => true,
        };
        if shorter {
            found = Some(n);
            least = len;
            assert(is_shortest(head, n as int));
        } else {
            assert(is_shortest(head, found.unwrap() as int));
        }
    }
    assert(all.take(set.len() as int) == all);
    proof {
        if let Some(k) = found {
            lemma_shortest(all, k as int);
        } else {
            lemma_shortest(all, 0);
        }
    }
    found
}

} // verus!
