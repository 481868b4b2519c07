//! Which of two genomes ranks first.

use vstd::prelude::*;
use std::cmp::Ordering;
use crate::error::ExperimentError;
use crate::fitness::Fitness;
use crate::genome::{fitness_is_pure, measured, Evolvable};

verus! {

/// How a genome with score `a` ranks against one with score `b`: `Less`
/// where it belongs before the other, because its score is the greater
/// number; `Greater` where it belongs behind; `Equal` where the scores are
/// equal numbers. Scores of which one is not a number do not rank.
pub open spec fn order_of(a: Fitness, b: Fitness) -> Result<Ordering, ExperimentError> {
    if a.nan() || b.nan() {
        Err(ExperimentError::NotComparable)
    } else if a.key() > b.key() {
        Ok(Ordering::Less)
    } else if a.key() < b.key() {
        Ok(Ordering::Greater)
    } else {
        Ok(Ordering::Equal)
    }
}

/// `order` is how `a` ranks against `b` by scores that they reported.
pub open spec fn ranked_as<T: Evolvable>(
    a: T,
    b: T,
    order: Result<Ordering, ExperimentError>,
) -> bool {
    exists|x: Fitness, y: Fitness|
        #[trigger] measured(a, x) && #[trigger] measured(b, y) && order == order_of(x, y)
}

/// How a genome with score `a` ranks against one with score `b`.
pub fn rank_scores(a: Fitness, b: Fitness) -> (order: Result<Ordering, ExperimentError>)
    ensures
        order == order_of(a, b),
{
    if a.is_nan() || b.is_nan() {
        return Err(ExperimentError::NotComparable);
    }
    let x: i64 = a.order_key();
    let y: i64 = b.order_key();
    if x > y {
        Ok(Ordering::Less)
    } else if x < y {
        Ok(Ordering::Greater)
    } else {
        Ok(Ordering::Equal)
    }
}

/// How `a` ranks against `b`: the better genome first.
///
/// Fails when either reports a score that is not a number.
pub fn rank<T: Evolvable>(a: &T, b: &T) -> (order: Result<Ordering, ExperimentError>)
    ensures
        ranked_as(*a, *b, order),
{
    let y: Fitness = b.fitness();
    let x: Fitness = a.fitness();
    assert(measured(*a, x) && measured(*b, y));
    rank_scores(x, y)
}

/// Where fitness is a function of the genome alone, two genomes rank in one
/// way only: asked again, `rank` gives the same answer.
pub proof fn lemma_rank_is_settled<T: Evolvable>(
    a: T,
    b: T,
    once: Result<Ordering, ExperimentError>,
    again: Result<Ordering, ExperimentError>,
)
    requires
        fitness_is_pure::<T>(),
        ranked_as(a, b, once),
        ranked_as(a, b, again),
    ensures
        once == again,
{
}

/// Where fitness is a function of the genome alone, a genome that reports a
/// number ranks equal to itself.
pub proof fn lemma_rank_against_itself<T: Evolvable>(
    a: T,
    order: Result<Ordering, ExperimentError>,
)
    requires
        fitness_is_pure::<T>(),
        ranked_as(a, a, order),
    ensures
        order == Ok::<Ordering, ExperimentError>(Ordering::Equal) || order == Err::<
            Ordering,
            ExperimentError,
        >(ExperimentError::NotComparable),
{
}

} // verus!
