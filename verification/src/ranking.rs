//! Ranking a population: best score first, and of equal scores the one that
//! was there first.

use vstd::prelude::*;
use vstd::set_lib::{lemma_int_range, lemma_subset_equality, set_int_range};
use crate::error::ExperimentError;
use crate::fitness::Fitness;
use crate::genome::{fitness_is_pure, measured, Evolvable};
use crate::sorting::{arrange_genomes, arrange_scores, places, ranking_order};

verus! {

/// A population as the contracts speak of it: the genomes, and beside each
/// genome the score that was measured for it.
#[verifier::ext_equal]
pub struct Ranking<T> {
    pub genomes: Seq<T>,
    pub scores: Seq<Fitness>,
}

/// No score is followed by a better one.
pub open spec fn descending(scores: Seq<Fitness>) -> bool {
    forall|i: int, j: int| 0 <= i < j < scores.len() ==> scores[i].key() >= scores[j].key()
}

/// Every score is a number.
pub open spec fn comparable(scores: Seq<Fitness>) -> bool {
    forall|i: int| 0 <= i < scores.len() ==> !(#[trigger] scores[i]).nan()
}

/// Each score is one that its genome reported.
pub open spec fn scored<T: Evolvable>(genomes: Seq<T>, scores: Seq<Fitness>) -> bool {
    &&& genomes.len() == scores.len()
    &&& forall|i: int| 0 <= i < genomes.len() ==> measured(#[trigger] genomes[i], scores[i])
}

impl<T: Evolvable> Ranking<T> {
    /// What holds of every population that an experiment keeps, be it a
    /// copy of another: it is not empty, every genome has a score beside
    /// it, every score is a number, and the scores descend.
    pub open spec fn ordered(self) -> bool {
        &&& self.genomes.len() > 0
        &&& self.genomes.len() == self.scores.len()
        &&& comparable(self.scores)
        &&& descending(self.scores)
    }

    /// What holds of every population that the engine has made: it is
    /// ordered, and the score beside each genome is one that this genome
    /// reported, so that the first genome is the best.
    pub open spec fn ranked(self) -> bool {
        &&& self.ordered()
        &&& scored(self.genomes, self.scores)
    }
}

/// Where fitness is a function of the genome alone, a ranked population is
/// in the order of what its genomes report: the score beside a genome is
/// the score that it reports whenever it is asked, the first genome reports
/// the best score, and no genome reports less than the one behind it.
pub proof fn lemma_ranked_by_fitness<T: Evolvable>(population: Ranking<T>)
    requires
        population.ranked(),
        fitness_is_pure::<T>(),
    ensures
        forall|i: int, score: Fitness|
            0 <= i < population.genomes.len() && #[trigger] measured(population.genomes[i], score)
                ==> score == population.scores[i],
        forall|i: int, j: int, better: Fitness, worse: Fitness|
            0 <= i < j < population.genomes.len() && #[trigger] measured(
                population.genomes[i],
                better,
            ) && #[trigger] measured(population.genomes[j], worse) ==> better.reaches(worse),
{
    assert forall|i: int, score: Fitness|
        0 <= i < population.genomes.len() && #[trigger] measured(
            population.genomes[i],
            score,
        ) implies score == population.scores[i] by {
        assert(measured(population.genomes[i], population.scores[i]));
    }
    assert forall|i: int, j: int, better: Fitness, worse: Fitness|
        0 <= i < j < population.genomes.len() && #[trigger] measured(
            population.genomes[i],
            better,
        ) && #[trigger] measured(population.genomes[j], worse) implies better.reaches(worse) by {
        assert(measured(population.genomes[i], population.scores[i]));
        assert(measured(population.genomes[j], population.scores[j]));
        assert(!population.scores[i].nan() && !population.scores[j].nan());
    }
}

/// The item at index `a` belongs before the item at index `b`: its score is
/// better, or the scores are equal and it came first.
pub open spec fn precedes(scores: Seq<Fitness>, a: int, b: int) -> bool {
    scores[a].key() > scores[b].key() || (scores[a].key() == scores[b].key() && a < b)
}

/// `order` names every index below `n` once.
pub open spec fn is_rearrangement(order: Seq<int>, n: nat) -> bool {
    &&& order.len() == n
    &&& forall|i: int| 0 <= i < n ==> 0 <= #[trigger] order[i] < n
    &&& forall|i: int, j: int| 0 <= i < j < n ==> order[i] != order[j]
}

/// `order` lists the indices of `scores` as they are ranked: each index
/// once, and each before all those that it precedes.
pub open spec fn ranks(order: Seq<int>, scores: Seq<Fitness>) -> bool {
    &&& is_rearrangement(order, scores.len())
    &&& forall|i: int, j: int|
        0 <= i < j < order.len() ==> precedes(scores, #[trigger] order[i], #[trigger] order[j])
}

/// `to` holds the items of `from` in the order that `order` gives.
pub open spec fn arranged<A>(order: Seq<int>, from: Seq<A>, to: Seq<A>) -> bool {
    &&& to.len() == order.len()
    &&& forall|i: int| 0 <= i < order.len() ==> #[trigger] to[i] == from[order[i]]
}

/// `ranked` holds the genomes and scores of `given`, ranked.
pub open spec fn is_ranking_of<T>(given: Ranking<T>, ranked: Ranking<T>) -> bool {
    exists|order: Seq<int>|
        {
            &&& ranks(order, given.scores)
            &&& arranged(order, given.genomes, ranked.genomes)
            &&& arranged(order, given.scores, ranked.scores)
        }
}

/// Some genome reports a score that is not a number.
pub open spec fn misreported<T: Evolvable>(genomes: Seq<T>) -> bool {
    exists|i: int, score: Fitness|
        0 <= i < genomes.len() && #[trigger] measured(genomes[i], score) && score.nan()
}

/// `ranked` holds `genomes`, each with a score that it reported, all of
/// them numbers, ranked by these scores.
pub open spec fn is_measured_ranking_of<T: Evolvable>(genomes: Seq<T>, ranked: Ranking<T>) -> bool {
    exists|scores: Seq<Fitness>|
        {
            &&& scored(genomes, scores)
            &&& comparable(scores)
            &&& #[trigger] is_ranking_of(Ranking { genomes, scores }, ranked)
        }
}

/// Ranking loses nothing and adds nothing: every genome that was given has
/// its place, with the score that stood beside it, and the scores descend.
pub proof fn lemma_ranking_keeps<T: Evolvable>(given: Ranking<T>, ranked: Ranking<T>)
    requires
        is_ranking_of(given, ranked),
        scored(given.genomes, given.scores),
        comparable(given.scores),
    ensures
        ranked.genomes.len() == given.genomes.len(),
        scored(ranked.genomes, ranked.scores),
        comparable(ranked.scores),
        descending(ranked.scores),
        forall|i: int|
            0 <= i < ranked.genomes.len() ==> given.genomes.contains(#[trigger] ranked.genomes[i]),
        forall|i: int|
            0 <= i < given.genomes.len() ==> ranked.genomes.contains(#[trigger] given.genomes[i]),
{
    let order = choose|order: Seq<int>|
        {
            &&& ranks(order, given.scores)
            &&& arranged(order, given.genomes, ranked.genomes)
            &&& arranged(order, given.scores, ranked.scores)
        };
    assert forall|i: int| 0 <= i < given.genomes.len() implies ranked.genomes.contains(
        #[trigger] given.genomes[i],
    ) by {
        lemma_rearrangement_names_all(order, given.scores.len(), i);
        let at = choose|at: int| 0 <= at < given.scores.len() && #[trigger] order[at] == i;
        assert(ranked.genomes[at] == given.genomes[i]);
    }
    assert forall|i: int| 0 <= i < ranked.genomes.len() implies measured(
        #[trigger] ranked.genomes[i],
        ranked.scores[i],
    ) && !ranked.scores[i].nan() && given.genomes.contains(ranked.genomes[i]) by {
        let from = order[i];
        assert(ranked.genomes[i] == given.genomes[from]);
        assert(ranked.scores[i] == given.scores[from]);
        assert(measured(given.genomes[from], given.scores[from]));
    }
    assert forall|i: int, j: int| 0 <= i < j < ranked.scores.len() implies ranked.scores[i].key()
        >= ranked.scores[j].key() by {
        assert(precedes(given.scores, order[i], order[j]));
    }
}

/// What comes of measuring and ranking: as many genomes as were given, the
/// same ones, each with a score that it reported, and the scores descend.
pub proof fn lemma_measured_ranking<T: Evolvable>(genomes: Seq<T>, ranked: Ranking<T>)
    requires
        is_measured_ranking_of(genomes, ranked),
    ensures
        ranked.genomes.len() == genomes.len(),
        genomes.len() > 0 ==> ranked.ranked(),
        scored(ranked.genomes, ranked.scores),
        comparable(ranked.scores),
        descending(ranked.scores),
        forall|i: int|
            0 <= i < ranked.genomes.len() ==> genomes.contains(#[trigger] ranked.genomes[i]),
        forall|i: int| 0 <= i < genomes.len() ==> ranked.genomes.contains(#[trigger] genomes[i]),
{
    let scores = choose|scores: Seq<Fitness>|
        {
            &&& scored(genomes, scores)
            &&& comparable(scores)
            &&& #[trigger] is_ranking_of(Ranking { genomes, scores }, ranked)
        };
    lemma_ranking_keeps(Ranking { genomes, scores }, ranked);
}

/// A rearrangement leaves no index out.
proof fn lemma_rearrangement_names_all(order: Seq<int>, n: nat, index: int)
    requires
        is_rearrangement(order, n),
        0 <= index < n,
    ensures
        exists|at: int| 0 <= at < n && #[trigger] order[at] == index,
{
    assert(order.no_duplicates());
    order.unique_seq_to_set();
    lemma_int_range(0, n as int);
    let named = order.to_set();
    let all = set_int_range(0, n as int);
    assert(named.subset_of(all)) by {
        assert forall|x: int| named.contains(x) implies all.contains(x) by {
            let at = choose|at: int| 0 <= at < order.len() && order[at] == x;
            assert(0 <= order[at] < n);
        }
    }
    vstd::set_lib::lemma_set_subset_finite(all, named);
    lemma_subset_equality(named, all);
    assert(all.contains(index));
    assert(named.contains(index));
}

/// Two orders that rank the same scores agree up to `upto`.
proof fn lemma_ranks_agree(first: Seq<int>, second: Seq<int>, scores: Seq<Fitness>, upto: int)
    requires
        ranks(first, scores),
        ranks(second, scores),
        0 <= upto <= scores.len(),
    ensures
        forall|i: int| 0 <= i < upto ==> first[i] == second[i],
    decreases upto,
{
    if upto > 0 {
        lemma_ranks_agree(first, second, scores, upto - 1);
        let at = upto - 1;
        let a = first[at];
        let b = second[at];
        if a != b {
            lemma_rearrangement_names_all(second, scores.len(), a);
            let p = choose|p: int| 0 <= p < scores.len() && #[trigger] second[p] == a;
            lemma_rearrangement_names_all(first, scores.len(), b);
            let q = choose|q: int| 0 <= q < scores.len() && #[trigger] first[q] == b;
            if p < at {
                assert(first[p] == second[p]);
                assert(first[p] != first[at]);
            }
            if q < at {
                assert(first[q] == second[q]);
                assert(second[q] != second[at]);
            }
            assert(precedes(scores, second[at], second[p]));
            assert(precedes(scores, first[at], first[q]));
        }
    }
}

/// Scores rank in one order only.
pub proof fn lemma_order_is_unique(one: Seq<int>, other: Seq<int>, scores: Seq<Fitness>)
    requires
        ranks(one, scores),
        ranks(other, scores),
    ensures
        one == other,
{
    lemma_ranks_agree(one, other, scores, scores.len() as int);
    assert(one =~= other);
}

/// There is one way to rank: what is given decides what comes out, ties
/// included.
pub proof fn lemma_ranking_is_unique<T>(given: Ranking<T>, one: Ranking<T>, other: Ranking<T>)
    requires
        is_ranking_of(given, one),
        is_ranking_of(given, other),
    ensures
        one == other,
{
    let first = choose|order: Seq<int>|
        {
            &&& ranks(order, given.scores)
            &&& arranged(order, given.genomes, one.genomes)
            &&& arranged(order, given.scores, one.scores)
        };
    let second = choose|order: Seq<int>|
        {
            &&& ranks(order, given.scores)
            &&& arranged(order, given.genomes, other.genomes)
            &&& arranged(order, given.scores, other.scores)
        };
    lemma_order_is_unique(first, second, given.scores);
    assert(one.genomes =~= other.genomes);
    assert(one.scores =~= other.scores);
    assert(one =~= other);
}

/// Ranks genomes by the scores beside them.
pub(crate) fn rank_by_scores<T>(genomes: Vec<T>, scores: Vec<Fitness>) -> (ranked: (
    Vec<T>,
    Vec<Fitness>,
))
    requires
        genomes.len() == scores.len(),
    ensures
        is_ranking_of(
            Ranking { genomes: genomes@, scores: scores@ },
            Ranking { genomes: ranked.0@, scores: ranked.1@ },
        ),
{
    let order: Vec<usize> = ranking_order(&scores);
    let ranked_scores: Vec<Fitness> = arrange_scores(&scores, &order);
    let ghost given = genomes@;
    let ranked_genomes: Vec<T> = arrange_genomes(genomes, &order);
    proof {
        let listed = places(order@);
        let given = Ranking { genomes: given, scores: scores@ };
        let ranked = Ranking { genomes: ranked_genomes@, scores: ranked_scores@ };
        assert(ranks(listed, given.scores) && arranged(listed, given.genomes, ranked.genomes)
            && arranged(listed, given.scores, ranked.scores));
    }
    (ranked_genomes, ranked_scores)
}

/// The scores of `genomes`, each measured once.
///
/// Fails when a genome reports a score that is not a number.
pub fn measure<T: Evolvable>(genomes: &Vec<T>) -> (scores: Result<Vec<Fitness>, ExperimentError>)
    ensures
        match scores {
            Ok(scores) => scored(genomes@, scores@) && comparable(scores@),
            Err(error) => error == ExperimentError::NotComparable && misreported(genomes@),
        },
{
    let mut scores: Vec<Fitness> = Vec::new();
    let mut i: usize = 0;
    while i < genomes.len()
        invariant
            i <= genomes.len(),
            scores.len() == i,
            forall|j: int| 0 <= j < i ==> measured(#[trigger] genomes[j], scores[j]),
            comparable(scores@),
        decreases genomes.len() - i,
    {
        let score: Fitness = genomes[i].fitness();
        if score.is_nan() {
            assert(measured(genomes[i as int], score));
            return Err(ExperimentError::NotComparable);
        }
        scores.push(score);
        i = i + 1;
    }
    Ok(scores)
}

/// Measures `genomes` and ranks them by what was measured.
///
/// Fails when a genome reports a score that is not a number.
pub fn rank_population<T: Evolvable>(genomes: Vec<T>) -> (ranked: Result<
    (Vec<T>, Vec<Fitness>),
    ExperimentError,
>)
    ensures
        match ranked {
            Ok(ranked) => is_measured_ranking_of(
                genomes@,
                Ranking { genomes: ranked.0@, scores: ranked.1@ },
            ),
            Err(error) => error == ExperimentError::NotComparable && misreported(genomes@),
        },
{
    match measure(&genomes) {
        Ok(scores) => {
            let ghost given = scores@;
            let ranked = rank_by_scores(genomes, scores);
            proof {
                assert(is_ranking_of(
                    Ranking { genomes: genomes@, scores: given },
                    Ranking { genomes: ranked.0@, scores: ranked.1@ },
                ));
            }
            Ok(ranked)
        },
        Err(error) => Err(error),
    }
}

} // verus!
