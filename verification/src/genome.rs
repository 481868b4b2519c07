//! What the engine asks of a genome.

use vstd::prelude::*;
use crate::fitness::Fitness;
use crate::selection::{draw_from_top, pool};

verus! {

/// A candidate solution that the engine can evolve.
///
/// The engine never looks inside a genome. It makes genomes at random,
/// measures them, mates them and lets them choose their parents, and what
/// these operations promise of their results is all that it passes on to its
/// callers: see [`spawned`], [`measured`], [`offspring`] and [`selected`].
pub trait Evolvable: Sized + Clone {
    /// A genome made at random, from the randomness that `rng` supplies.
    fn random(rng: &mut rand::StdRng) -> Self;

    /// How good this genome is. Higher is better.
    fn fitness(&self) -> Fitness;

    /// A child of two parents. It may differ at random from what the parents
    /// alone would give.
    fn mate(mother: &Self, father: &Self, rng: &mut rand::StdRng) -> Self;

    /// The places, in a ranked population, of the two parents of one child.
    ///
    /// A genome type that has no policy of its own draws both parents with
    /// equal chance from the top half of the population, which is never
    /// taken to be empty. The engine takes no place on trust: a trial that
    /// is given a place behind the end of the population fails.
    fn select(population: &Vec<Self>, rng: &mut rand::StdRng) -> (parents: (usize, usize))
        ensures
            Self::selects_from_top_half() ==> parents.0 < pool(population@.len(), 2) && parents.1
                < pool(population@.len(), 2),
    {
        draw_from_top(population.len(), 2, rng)
    }

    /// Whether `select` keeps to the top half of the population, as it does
    /// for a genome type that has no policy of its own. A genome type that
    /// chooses its parents in another way says so here, and what is proved
    /// of its trials then rests on what its own `select` promises.
    open spec fn selects_from_top_half() -> bool {
        true
    }
}

/// `genome` is something that `random` may return.
pub open spec fn spawned<T: Evolvable>(genome: T) -> bool {
    exists|rng: &mut rand::StdRng| call_ensures(T::random, (rng,), genome)
}

/// `score` is something that `fitness` may return for `genome`.
pub open spec fn measured<T: Evolvable>(genome: T, score: Fitness) -> bool {
    call_ensures(T::fitness, (&genome,), score)
}

/// The fitness of a genome is a function of the genome alone: asked twice,
/// a genome reports the same score.
pub open spec fn fitness_is_pure<T: Evolvable>() -> bool {
    forall|genome: T, once: Fitness, again: Fitness|
        #[trigger] measured(genome, once) && #[trigger] measured(genome, again) ==> once == again
}

/// `child` is something that `mate` may return for `mother` and `father`.
pub open spec fn offspring<T: Evolvable>(mother: T, father: T, child: T) -> bool {
    exists|rng: &mut rand::StdRng| call_ensures(T::mate, (&mother, &father, rng), child)
}

/// `mother` and `father` are places that `select` may return for a
/// population of these genomes.
pub open spec fn selected<T: Evolvable>(genomes: Seq<T>, mother: usize, father: usize) -> bool {
    exists|population: &Vec<T>, rng: &mut rand::StdRng|
        population@ == genomes && #[trigger] call_ensures(
            T::select,
            (population, rng),
            (mother, father),
        )
}

} // verus!
