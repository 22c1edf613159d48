//! The rule by which every choice in this library is made: the least cost
//! wins, and among equal costs the first.
//!
//! The things to choose from are given by their costs, in order; a thing that
//! is out of the running has no cost.

use vstd::prelude::*;

verus! {

/// Whether the place `k` holds the choice: it has a cost, no cost is less,
/// and no place before it has a cost as low.
pub open spec fn is_first_least(cost: Seq<Option<nat>>, k: int) -> bool {
    &&& 0 <= k < cost.len()
    &&& cost[k] is Some
    &&& forall|j: int|
        0 <= j < cost.len() && (#[trigger] cost[j]) is Some ==> cost[k]->0 <= cost[j]->0
    &&& forall|j: int| 0 <= j < k && (#[trigger] cost[j]) is Some ==> cost[k]->0 < cost[j]->0
}

/// Whether nothing is in the running.
pub open spec fn all_out(cost: Seq<Option<nat>>) -> bool {
    forall|j: int| 0 <= j < cost.len() ==> (#[trigger] cost[j]) is None
}

/// Whether `pick` is the outcome of the choice: the place that holds it, or
/// nothing where nothing is in the running.
pub open spec fn chooses(cost: Seq<Option<nat>>, pick: Option<int>) -> bool {
    match pick {
        Some(k) => is_first_least(cost, k),
        None => all_out(cost),
    }
}

/// The outcome of the choice.
pub open spec fn first_least(cost: Seq<Option<nat>>) -> Option<int> {
    if exists|k: int| is_first_least(cost, k) {
        Some(choose|k: int| is_first_least(cost, k))
    } else {
        None
    }
}

/// The outcome after one more thing has been looked at, given the outcome
/// `pick` among the `n` things before it: the new thing takes over where it
/// has a cost and either nothing was picked or its cost is strictly less.
pub open spec fn next_pick(cost: Seq<Option<nat>>, n: int, pick: Option<int>) -> Option<int> {
    match (cost[n], pick) {
        (Some(c), Some(k)) => if c < cost[k]->0 {
            Some(n)
        } else {
            Some(k)
        },
        (Some(_), None) => Some(n),
        (None, _) => pick,
    }
}

/// The choice has one outcome only: looking again changes nothing.
pub proof fn lemma_choice_unique(cost: Seq<Option<nat>>, first: Option<int>, second: Option<int>)
    requires
        chooses(cost, first),
        chooses(cost, second),
    ensures
        first == second,
{
    match (first, second) {
        (Some(a), Some(b)) => {
            assert(cost[a] is Some && cost[b] is Some);
        },
        (Some(a), None) => {
            assert(cost[a] is Some);
        },
        (None, Some(b)) => {
            assert(cost[b] is Some);
        },
        (None, None) => {},
    }
}

/// The choice can be made in one pass: from the outcome among the first `n`
/// things and the cost of the next, the outcome among the first `n + 1`
/// follows.
pub proof fn lemma_choice_extends(cost: Seq<Option<nat>>, n: int, pick: Option<int>)
    requires
        0 <= n < cost.len(),
        chooses(cost.take(n), pick),
    ensures
        chooses(cost.take(n + 1), next_pick(cost, n, pick)),
{
    let before = cost.take(n);
    let now = cost.take(n + 1);
    assert forall|j: int| 0 <= j < n implies #[trigger] now[j] == before[j] by {}
    assert(now[n] == cost[n]);
    match pick {
        Some(k) => {
            assert(before[k] is Some);
            assert forall|j: int| 0 <= j < n && (#[trigger] now[j]) is Some implies before[k]->0
                <= now[j]->0 by {
                assert(before[j] is Some);
            }
            assert forall|j: int| 0 <= j < k && (#[trigger] now[j]) is Some implies before[k]->0
                < now[j]->0 by {
                assert(before[j] is Some);
            }
        },
        None => {
            assert forall|j: int| 0 <= j < n implies (#[trigger] now[j]) is None by {
                assert(before[j] is None);
            }
        },
    }
}

/// The choice has an outcome, and that outcome is [`first_least`]: a place
/// is picked exactly where something is in the running.
pub proof fn lemma_choice_exists(cost: Seq<Option<nat>>)
    ensures
        chooses(cost, first_least(cost)),
        first_least(cost) is None <==> all_out(cost),
{
    let pick = lemma_choice_among(cost, cost.len() as int);
    assert(cost.take(cost.len() as int) == cost);
    lemma_choice_unique(cost, pick, pick);
    match pick {
        Some(k) => {
            assert(cost[k] is Some);
        },
        None => {
            if exists|k: int| is_first_least(cost, k) {
                let k = choose|k: int| is_first_least(cost, k);
                assert(cost[k] is Some);
            }
        },
    }
}

/// The outcome among the first `n` things.
proof fn lemma_choice_among(cost: Seq<Option<nat>>, n: int) -> (pick: Option<int>)
    requires
        0 <= n <= cost.len(),
    ensures
        chooses(cost.take(n), pick),
    decreases n,
{
    if n == 0 {
        None
    } else {
        let before = lemma_choice_among(cost, n - 1);
        lemma_choice_extends(cost, n - 1, before);
        next_pick(cost, n - 1, before)
    }
}

/// An outcome found in one pass is the outcome of the choice.
pub proof fn lemma_choice_found(cost: Seq<Option<nat>>, pick: Option<int>)
    requires
        chooses(cost, pick),
    ensures
        first_least(cost) == pick,
{
    lemma_choice_exists(cost);
    lemma_choice_unique(cost, pick, first_least(cost));
}

} // verus!
