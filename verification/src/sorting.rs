//! Finding the order in which scores rank, and putting genomes in it.
//!
//! The order is found by merging: each half of the places is put in order,
//! and the two halves are merged. Genomes are moved once, when the order is
//! known.

use vstd::prelude::*;
use crate::fitness::Fitness;
use crate::ranking::{arranged, is_rearrangement, precedes, ranks};

verus! {

/// Places as the contracts speak of them.
pub open spec fn places(order: Seq<usize>) -> Seq<int> {
    Seq::new(order.len(), |i: int| order[i] as int)
}

/// Each place in `order` is one of `scores`, and belongs before all places
/// behind it.
spec fn in_rank_order(order: Seq<usize>, scores: Seq<Fitness>) -> bool {
    &&& forall|i: int| 0 <= i < order.len() ==> (#[trigger] order[i]) < scores.len()
    &&& forall|i: int, j: int|
        0 <= i < j < order.len() ==> precedes(
            scores,
            #[trigger] order[i] as int,
            #[trigger] order[j] as int,
        )
}

/// Each place in `order` lies between `low` and `high`.
spec fn within(order: Seq<usize>, low: int, high: int) -> bool {
    forall|i: int| 0 <= i < order.len() ==> low <= (#[trigger] order[i]) < high
}

/// Whether the score at place `a` belongs before the score at place `b`.
fn comes_first(scores: &Vec<Fitness>, a: usize, b: usize) -> (first: bool)
    requires
        a < scores.len(),
        b < scores.len(),
    ensures
        first == precedes(scores@, a as int, b as int),
{
    let x: i64 = scores[a].order_key();
    let y: i64 = scores[b].order_key();
    x > y || (x == y && a < b)
}

/// Merges two runs of places that are in order into one.
fn merge(
    scores: &Vec<Fitness>,
    left: &Vec<usize>,
    right: &Vec<usize>,
    Ghost(middle): Ghost<int>,
) -> (merged: Vec<usize>)
    requires
        in_rank_order(left@, scores@),
        in_rank_order(right@, scores@),
        within(left@, middle - left.len(), middle),
        within(right@, middle, middle + right.len()),
        middle + right.len() <= scores.len(),
    ensures
        merged.len() == left.len() + right.len(),
        in_rank_order(merged@, scores@),
        within(merged@, middle - left.len(), middle + right.len()),
{
    let mut merged: Vec<usize> = Vec::new();
    let mut i: usize = 0;
    let mut j: usize = 0;
    while i < left.len() || j < right.len()
        invariant
            i <= left.len(),
            j <= right.len(),
            merged.len() == i + j,
            in_rank_order(left@, scores@),
            in_rank_order(right@, scores@),
            within(left@, middle - left.len(), middle),
            within(right@, middle, middle + right.len()),
            middle + right.len() <= scores.len(),
            in_rank_order(merged@, scores@),
            within(merged@, middle - left.len(), middle + right.len()),
            forall|k: int, l: int|
                0 <= k < merged.len() && i <= l < left.len() ==> precedes(
                    scores@,
                    #[trigger] merged[k] as int,
                    #[trigger] left[l] as int,
                ),
            forall|k: int, r: int|
                0 <= k < merged.len() && j <= r < right.len() ==> precedes(
                    scores@,
                    #[trigger] merged[k] as int,
                    #[trigger] right[r] as int,
                ),
        decreases left.len() - i + right.len() - j,
    {
        let from_left: bool = if j == right.len() {
            true
        } else if i == left.len() {
            false
        } else {
            comes_first(scores, left[i], right[j])
        };
        let ghost before = merged@;
        if from_left {
            let place: usize = left[i];
            merged.push(place);
            proof {
                assert forall|k: int, r: int|
                    0 <= k < merged.len() && j <= r < right.len() implies precedes(
                    scores@,
                    #[trigger] merged[k] as int,
                    #[trigger] right[r] as int,
                ) by {
                    if k == before.len() {
                        assert(precedes(scores@, left[i as int] as int, right[j as int] as int));
                        if r > j {
                            assert(precedes(scores@, right[j as int] as int, right[r] as int));
                        }
                    } else {
                        assert(merged[k] == before[k]);
                    }
                }
                assert forall|k: int, l: int|
                    0 <= k < merged.len() && i + 1 <= l < left.len() implies precedes(
                    scores@,
                    #[trigger] merged[k] as int,
                    #[trigger] left[l] as int,
                ) by {
                    if k == before.len() {
                        assert(precedes(scores@, left[i as int] as int, left[l] as int));
                    } else {
                        assert(merged[k] == before[k]);
                    }
                }
                assert forall|k: int, l: int| 0 <= k < l < merged.len() implies precedes(
                    scores@,
                    #[trigger] merged[k] as int,
                    #[trigger] merged[l] as int,
                ) by {
                    if l == before.len() {
                        assert(merged[k] == before[k]);
                        assert(precedes(scores@, before[k] as int, left[i as int] as int));
                    } else {
                        assert(merged[k] == before[k] && merged[l] == before[l]);
                    }
                }
            }
            i = i + 1;
        } else {
            let place: usize = right[j];
            merged.push(place);
            proof {
                assert forall|k: int, l: int|
                    0 <= k < merged.len() && i <= l < left.len() implies precedes(
                    scores@,
                    #[trigger] merged[k] as int,
                    #[trigger] left[l] as int,
                ) by {
                    if k == before.len() {
                        assert(left[i as int] < middle <= right[j as int]);
                        assert(precedes(scores@, right[j as int] as int, left[i as int] as int));
                        if l > i {
                            assert(precedes(scores@, left[i as int] as int, left[l] as int));
                        }
                    } else {
                        assert(merged[k] == before[k]);
                    }
                }
                assert forall|k: int, r: int|
                    0 <= k < merged.len() && j + 1 <= r < right.len() implies precedes(
                    scores@,
                    #[trigger] merged[k] as int,
                    #[trigger] right[r] as int,
                ) by {
                    if k == before.len() {
                        assert(precedes(scores@, right[j as int] as int, right[r] as int));
                    } else {
                        assert(merged[k] == before[k]);
                    }
                }
                assert forall|k: int, l: int| 0 <= k < l < merged.len() implies precedes(
                    scores@,
                    #[trigger] merged[k] as int,
                    #[trigger] merged[l] as int,
                ) by {
                    if l == before.len() {
                        assert(merged[k] == before[k]);
                        assert(precedes(scores@, before[k] as int, right[j as int] as int));
                    } else {
                        assert(merged[k] == before[k] && merged[l] == before[l]);
                    }
                }
            }
            j = j + 1;
        }
    }
    merged
}

/// The places from `low` up to `high`, in the order in which their scores
/// rank.
fn order_between(scores: &Vec<Fitness>, low: usize, high: usize) -> (order: Vec<usize>)
    requires
        low <= high <= scores.len(),
    ensures
        order.len() == high - low,
        in_rank_order(order@, scores@),
        within(order@, low as int, high as int),
    decreases high - low,
{
    if high - low == 0 {
        return Vec::new();
    }
    if high - low == 1 {
        let mut order: Vec<usize> = Vec::new();
        order.push(low);
        return order;
    }
    let middle: usize = low + (high - low) / 2;
    let left: Vec<usize> = order_between(scores, low, middle);
    let right: Vec<usize> = order_between(scores, middle, high);
    merge(scores, &left, &right, Ghost(middle as int))
}

/// The order in which `scores` rank: the place of the best score first,
/// and of equal scores the one that stands first.
pub fn ranking_order(scores: &Vec<Fitness>) -> (order: Vec<usize>)
    ensures
        ranks(places(order@), scores@),
{
    let order: Vec<usize> = order_between(scores, 0, scores.len());
    proof {
        let listed = places(order@);
        assert forall|i: int, j: int| 0 <= i < j < listed.len() implies precedes(
            scores@,
            #[trigger] listed[i],
            #[trigger] listed[j],
        ) && listed[i] != listed[j] by {
            assert(precedes(scores@, order[i] as int, order[j] as int));
        }
        assert forall|i: int| 0 <= i < listed.len() implies 0 <= #[trigger] listed[i]
            < scores.len() by {
            assert(order[i] < scores.len());
        }
        assert(is_rearrangement(listed, scores@.len()));
    }
    order
}

/// The scores at the places that `order` lists.
pub(crate) fn arrange_scores(scores: &Vec<Fitness>, order: &Vec<usize>) -> (arrangement: Vec<
    Fitness,
>)
    requires
        is_rearrangement(places(order@), scores@.len()),
    ensures
        arranged(places(order@), scores@, arrangement@),
{
    let mut arrangement: Vec<Fitness> = Vec::new();
    let mut i: usize = 0;
    while i < order.len()
        invariant
            i <= order.len(),
            arrangement.len() == i,
            is_rearrangement(places(order@), scores@.len()),
            forall|k: int| 0 <= k < i ==> #[trigger] arrangement[k] == scores[order[k] as int],
        decreases order.len() - i,
    {
        assert(0 <= places(order@)[i as int] < scores.len());
        arrangement.push(scores[order[i]]);
        i = i + 1;
    }
    proof {
        assert forall|k: int| 0 <= k < places(order@).len() implies #[trigger] arrangement@[k]
            == scores@[places(order@)[k]] by {}
    }
    arrangement
}

/// What stands in slot `k` while genomes are moved to their places: the
/// genome that was given at place `k`, until one of the first `moved`
/// places of `order` has called for it.
spec fn slot<T>(given: Seq<T>, order: Seq<usize>, moved: int, k: int) -> Option<T> {
    if exists|j: int| 0 <= j < moved && #[trigger] order[j] == k {
        None
    } else {
        Some(given[k])
    }
}

/// The genomes at the places that `order` lists, each moved to where it is
/// listed.
pub(crate) fn arrange_genomes<T>(genomes: Vec<T>, order: &Vec<usize>) -> (arrangement: Vec<T>)
    requires
        is_rearrangement(places(order@), genomes@.len()),
    ensures
        arranged(places(order@), genomes@, arrangement@),
{
    let ghost given = genomes@;
    let n: usize = genomes.len();
    let mut rest: Vec<T> = genomes;
    let mut slots: Vec<Option<T>> = Vec::new();
    while rest.len() > 0
        invariant
            given.len() == n,
            rest.len() <= n,
            rest@ == given.subrange(0, rest.len() as int),
            slots.len() == n - rest.len(),
            forall|k: int|
                rest.len() <= k < n ==> #[trigger] slots[n - 1 - k] == Some(given[k]),
        decreases rest.len(),
    {
        let ghost remaining = rest@;
        let last: Option<T> = rest.pop();
        assert(last == Some(given[remaining.len() - 1]));
        slots.push(last);
    }
    let mut arrangement: Vec<T> = Vec::new();
    let mut i: usize = 0;
    while i < n
        invariant
            i <= n,
            given.len() == n,
            order.len() == n,
            is_rearrangement(places(order@), n as nat),
            slots.len() == n,
            arrangement.len() == i,
            forall|k: int|
                0 <= k < n ==> #[trigger] slots[n - 1 - k] == slot(given, order@, i as int, k),
            forall|k: int| 0 <= k < i ==> #[trigger] arrangement[k] == given[order[k] as int],
        decreases n - i,
    {
        let place: usize = order[i];
        proof {
            assert(places(order@)[i as int] == place);
            assert(0 <= places(order@)[i as int] < n);
            if exists|j: int| 0 <= j < i && #[trigger] order@[j] == place {
                let j = choose|j: int| 0 <= j < i && #[trigger] order@[j] == place;
                assert(places(order@)[j] == places(order@)[i as int]);
            }
            assert(slot(given, order@, i as int, place as int) == Some(given[place as int]));
            assert(slots[n - 1 - place] == slot(given, order@, i as int, place as int));
        }
        let ghost before = slots@;
        let taken: Option<T> = slots[n - 1 - place].take();
        proof {
            assert(slots@ == before.update(n - 1 - place, None::<T>));
            assert forall|k: int| 0 <= k < n implies #[trigger] slots[n - 1 - k] == slot(
                given,
                order@,
                i + 1,
                k,
            ) by {
                if k == place {
                    assert(order@[i as int] == k);
                } else {
                    assert(slots[n - 1 - k] == before[n - 1 - k]);
                    assert(before[n - 1 - k] == slot(given, order@, i as int, k));
                    if exists|j: int| 0 <= j < i + 1 && #[trigger] order@[j] == k {
                        let j = choose|j: int| 0 <= j < i + 1 && #[trigger] order@[j] == k;
                        assert(j < i);
                    }
                }
            }
        }
        match taken {
            Some(genome) => {
                arrangement.push(genome);
            },
            None => {
                proof {
                    assert(false);
                }
                return arrangement;
            },
        }
        i = i + 1;
    }
    proof {
        assert forall|k: int| 0 <= k < places(order@).len() implies #[trigger] arrangement@[k]
            == given[places(order@)[k]] by {}
    }
    arrangement
}

} // verus!
