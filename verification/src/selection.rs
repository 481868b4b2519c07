//! How parents are chosen.
//!
//! A policy says which members of a ranked population may become parents and
//! how they are drawn. The genome type has a policy of its own, and the
//! engine offers two more. Both of these favour the front of the ranking,
//! where the best genomes stand. A caller who wants none of them hands a
//! trial a function of its own.

use vstd::prelude::*;
use crate::entropy::{draw_below, total_weight};
use crate::error::ExperimentError;
use crate::fitness::Fitness;

verus! {

/// A policy for choosing the parents of a child.
#[derive(Clone, Copy, Debug, PartialEq, Eq, Structural)]
pub enum Selection {
    /// The parents are those that the genome type chooses. This is the
    /// policy of an experiment that is given no other.
    ByGenome,
    /// Both parents are drawn, each with equal chance, from the best
    /// `1 / divisor` of the population, which is never taken to be empty.
    TopFraction { divisor: usize },
    /// Both parents are drawn from the first `death_rate` members of the
    /// ranking, each member with a chance in proportion to its fitness
    /// rounded up to a whole number. The members behind these do not
    /// reproduce.
    Weighted { death_rate: usize },
}

/// How many of `len` genomes are the best `1 / divisor` of them: the
/// quotient rounded down, but one at least.
pub open spec fn pool(len: nat, divisor: nat) -> nat {
    if len / divisor == 0 {
        1
    } else {
        len / divisor
    }
}

/// The sampling weight of the member at `index`: that of its score where it
/// stands among the first `death_rate`, and zero behind them.
pub open spec fn weight_at(scores: Seq<Fitness>, death_rate: nat, index: int) -> Result<
    u32,
    ExperimentError,
> {
    if index < death_rate {
        scores[index].weight_of()
    } else {
        Ok(0)
    }
}

/// The members of a population as weighted items, in ranking order: each
/// index with its weight. Where a score has no weight, the first such score
/// decides the failure.
pub open spec fn weigh(scores: Seq<Fitness>, death_rate: nat) -> Result<
    Seq<(u32, usize)>,
    ExperimentError,
>
    decreases scores.len(),
{
    if scores.len() == 0 {
        Ok(Seq::empty())
    } else {
        match weigh(scores.drop_last(), death_rate) {
            Err(error) => Err(error),
            Ok(items) => match weight_at(scores, death_rate, scores.len() - 1) {
                Err(error) => Err(error),
                Ok(weight) => Ok(items.push((weight, (scores.len() - 1) as usize))),
            },
        }
    }
}

impl Selection {
    /// Why no parents can be drawn from a population with these scores, if
    /// that is so.
    ///
    /// A top fraction needs a divisor that is not zero. Weighted drawing
    /// needs a weight for every candidate, and a total weight that is not
    /// zero and fits in 32 bits.
    pub open spec fn refusal(self, scores: Seq<Fitness>) -> Option<ExperimentError> {
        match self {
            Selection::ByGenome => None,
            Selection::TopFraction { divisor } => if divisor == 0 {
                Some(ExperimentError::ZeroDivisor)
            } else {
                None
            },
            Selection::Weighted { death_rate } => match weigh(scores, death_rate as nat) {
                Err(error) => Some(error),
                Ok(items) => if total_weight(items) == 0 {
                    Some(ExperimentError::NoWeight)
                } else if total_weight(items) > u32::MAX {
                    Some(ExperimentError::WeightOverflow)
                } else {
                    None
                },
            },
        }
    }

    /// Whether the member at `index` may become a parent.
    pub open spec fn eligible(self, scores: Seq<Fitness>, index: int) -> bool {
        &&& 0 <= index < scores.len()
        &&& match self {
            Selection::ByGenome => true,
            Selection::TopFraction { divisor } => index < pool(scores.len(), divisor as nat),
            Selection::Weighted { death_rate } => {
                &&& index < death_rate
                &&& scores[index].weight_of() is Ok
                &&& scores[index].weight_of()->Ok_0 > 0
            },
        }
    }

    /// The policy that draws from the top half.
    pub fn top_half() -> (selection: Selection)
        ensures
            selection == (Selection::TopFraction { divisor: 2 }),
    {
        Selection::TopFraction { divisor: 2 }
    }
}

/// The best `1 / divisor` of a population are some of its members, and at
/// least one.
pub proof fn lemma_pool_is_within(len: nat, divisor: nat)
    requires
        len > 0,
        divisor > 0,
    ensures
        0 < pool(len, divisor) <= len,
{
    vstd::arithmetic::div_mod::lemma_div_is_ordered_by_denominator(len as int, 1, divisor as int);
}

/// How many of `len` genomes are the best `1 / divisor` of them.
pub fn pool_size(len: usize, divisor: usize) -> (size: usize)
    requires
        divisor > 0,
    ensures
        size == pool(len as nat, divisor as nat),
{
    let quotient: usize = len / divisor;
    if quotient == 0 {
        1
    } else {
        quotient
    }
}

/// The places of two parents, each drawn with equal chance from the best
/// `1 / divisor` of `len` genomes.
pub fn draw_from_top(len: usize, divisor: usize, rng: &mut rand::StdRng) -> (parents: (
    usize,
    usize,
))
    requires
        divisor > 0,
    ensures
        parents.0 < pool(len as nat, divisor as nat),
        parents.1 < pool(len as nat, divisor as nat),
{
    let candidates: usize = pool_size(len, divisor);
    let mother: usize = draw_below(rng, candidates);
    let father: usize = draw_below(rng, candidates);
    (mother, father)
}

/// What `weigh` gives where it succeeds: as many items as scores, each with
/// its own index and the weight of its place.
pub proof fn lemma_weigh_items(scores: Seq<Fitness>, death_rate: nat)
    requires
        weigh(scores, death_rate) is Ok,
        scores.len() <= usize::MAX,
    ensures
        weigh(scores, death_rate)->Ok_0.len() == scores.len(),
        forall|i: int|
            0 <= i < scores.len() ==> {
                &&& (#[trigger] weigh(scores, death_rate)->Ok_0[i]).1 == i
                &&& weight_at(scores, death_rate, i) == Ok::<u32, ExperimentError>(
                    weigh(scores, death_rate)->Ok_0[i].0,
                )
            },
    decreases scores.len(),
{
    if scores.len() > 0 {
        let front = scores.drop_last();
        lemma_weigh_items(front, death_rate);
        assert forall|i: int| 0 <= i < front.len() implies weight_at(front, death_rate, i)
            == weight_at(scores, death_rate, i) by {}
    }
}

/// `weigh` succeeds with `items` where every score has a weight and `items`
/// holds each index with that weight.
pub proof fn lemma_weigh_succeeds(scores: Seq<Fitness>, death_rate: nat, items: Seq<(u32, usize)>)
    requires
        items.len() == scores.len(),
        forall|i: int|
            0 <= i < scores.len() ==> {
                &&& (#[trigger] items[i]).1 == i
                &&& weight_at(scores, death_rate, i) == Ok::<u32, ExperimentError>(items[i].0)
            },
    ensures
        weigh(scores, death_rate) == Ok::<Seq<(u32, usize)>, ExperimentError>(items),
    decreases scores.len(),
{
    if scores.len() > 0 {
        let front = scores.drop_last();
        assert forall|i: int| 0 <= i < front.len() implies {
            &&& (#[trigger] items.drop_last()[i]).1 == i
            &&& weight_at(front, death_rate, i) == Ok::<u32, ExperimentError>(
                items.drop_last()[i].0,
            )
        } by {
            assert(items.drop_last()[i] == items[i]);
            assert(weight_at(front, death_rate, i) == weight_at(scores, death_rate, i));
        }
        lemma_weigh_succeeds(front, death_rate, items.drop_last());
        let last = scores.len() - 1;
        assert(items[last].1 == last);
        assert(items.drop_last().push(items[last]) =~= items);
    } else {
        assert(items =~= Seq::empty());
    }
}

/// `weigh` fails with `error` where the score at `index` has no weight for
/// that reason and every score before it has a weight.
pub proof fn lemma_weigh_fails(
    scores: Seq<Fitness>,
    death_rate: nat,
    index: int,
    error: ExperimentError,
)
    requires
        scores.len() <= usize::MAX,
        0 <= index < scores.len(),
        weight_at(scores, death_rate, index) == Err::<u32, ExperimentError>(error),
        forall|j: int| 0 <= j < index ==> (#[trigger] weight_at(scores, death_rate, j)) is Ok,
    ensures
        weigh(scores, death_rate) == Err::<Seq<(u32, usize)>, ExperimentError>(error),
    decreases scores.len(),
{
    let front = scores.drop_last();
    assert forall|i: int| 0 <= i < front.len() implies #[trigger] weight_at(front, death_rate, i)
        == weight_at(scores, death_rate, i) by {}
    if index < front.len() {
        lemma_weigh_fails(front, death_rate, index, error);
    } else {
        let items = Seq::new(
            front.len(),
            |i: int| (weight_at(front, death_rate, i)->Ok_0, i as usize),
        );
        assert forall|i: int| 0 <= i < front.len() implies {
            &&& (#[trigger] items[i]).1 == i
            &&& weight_at(front, death_rate, i) == Ok::<u32, ExperimentError>(items[i].0)
        } by {
            assert(weight_at(scores, death_rate, i) is Ok);
        }
        lemma_weigh_succeeds(front, death_rate, items);
    }
}

/// The weights add up to zero exactly where every weight is zero.
pub proof fn lemma_no_weight(items: Seq<(u32, usize)>)
    ensures
        total_weight(items) >= 0,
        total_weight(items) == 0 <==> forall|i: int|
            0 <= i < items.len() ==> (#[trigger] items[i]).0 == 0,
    decreases items.len(),
{
    if items.len() > 0 {
        let front = items.drop_last();
        lemma_no_weight(front);
        if total_weight(items) == 0 {
            assert forall|i: int| 0 <= i < items.len() implies (#[trigger] items[i]).0 == 0 by {
                if i < front.len() {
                    assert(front[i] == items[i]);
                }
            }
        }
        if forall|i: int| 0 <= i < items.len() ==> (#[trigger] items[i]).0 == 0 {
            assert forall|i: int| 0 <= i < front.len() implies (#[trigger] front[i]).0 == 0 by {
                assert(front[i] == items[i]);
            }
            assert(items.last() == items[items.len() - 1]);
        }
    }
}

} // verus!
