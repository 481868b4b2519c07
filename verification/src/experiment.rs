//! The experiment: a ranked population and the trials that renew it.

use vstd::prelude::*;
use rand::distributions::Weighted;
use crate::entropy::{
    draw_weighted,
    entries,
    table_entries,
    total_weight,
    weighted_choice,
};
use crate::error::ExperimentError;
use crate::evolution::{
    admits,
    bred,
    by_function,
    callable_at_size,
    callable_on,
    child_may_misreport,
    cut_short,
    descends_from,
    evolved,
    fails,
    fresh,
    lemma_history_grows,
    may_choose_outside,
    meets,
    ran_until,
    records,
    spawn_may_misreport,
    step,
    Choice,
};
use crate::fitness::Fitness;
use crate::genome::{measured, offspring, selected, spawned, Evolvable};
use crate::ranking::{lemma_measured_ranking, rank_population, Ranking};
use crate::selection::{
    lemma_weigh_fails,
    lemma_weigh_items,
    lemma_weigh_succeeds,
    draw_from_top,
    lemma_pool_is_within,
    weigh,
    weight_at,
    Selection,
};

verus! {

/// A population of genomes under evolution.
///
/// The population is ranked at all times: its first member is the best one
/// found in the current generation. A trial replaces the whole population by
/// a new generation of the same size. The experiment has a policy for
/// choosing parents, which a trial follows unless it is given another.
///
/// A copy of an experiment holds copies of its genomes, with the scores that
/// were measured for the genomes they are copies of. It is in order, and a
/// trial makes of it a population that is ranked by its own scores.
pub struct Experiment<T: Evolvable> {
    population: Vec<T>,
    scores: Vec<Fitness>,
    selection: Selection,
}

impl<T: Evolvable> View for Experiment<T> {
    type V = Ranking<T>;

    closed spec fn view(&self) -> Ranking<T> {
        Ranking { genomes: self.population@, scores: self.scores@ }
    }
}

impl<T: Evolvable> Experiment<T> {
    #[verifier::type_invariant]
    spec fn well_formed(self) -> bool {
        self@.ordered()
    }

    /// The experiment's own policy for choosing parents.
    pub closed spec fn policy(&self) -> Selection {
        self.selection
    }

    /// The choice that a trial follows: the policy that the caller names
    /// for it, or else the experiment's own.
    pub open spec fn follows(&self, select: Option<Selection>) -> Choice<T> {
        match select {
            Some(selection) => Choice::Policy(selection),
            None => Choice::Policy(self.policy()),
        }
    }

    /// Makes `size` genomes at random.
    fn spawn(size: usize, rng: &mut rand::StdRng) -> (genomes: Vec<T>)
        ensures
            genomes.len() == size,
            forall|i: int| 0 <= i < size ==> spawned(#[trigger] genomes[i]),
    {
        let mut genomes: Vec<T> = Vec::new();
        while genomes.len() < size
            invariant
                genomes.len() <= size,
                forall|i: int| 0 <= i < genomes.len() ==> spawned(#[trigger] genomes[i]),
            decreases size - genomes.len(),
        {
            let genome: T = T::random(rng);
            assert(spawned(genome));
            genomes.push(genome);
        }
        genomes
    }

    /// A new experiment on `size` genomes made at random, in which the
    /// genome type chooses the parents.
    ///
    /// Fails when `size` is zero, and when a genome reports a score that is
    /// not a number.
    pub fn new(size: usize, rng: &mut rand::StdRng) -> (made: Result<
        Experiment<T>,
        ExperimentError,
    >)
        ensures
            match made {
                Ok(experiment) => size > 0 && fresh(experiment@, size as nat)
                    && experiment.policy() == Selection::ByGenome,
                Err(error) => if size == 0 {
                    error == ExperimentError::EmptyPopulation
                } else {
                    error == ExperimentError::NotComparable && spawn_may_misreport::<T>()
                },
            },
    {
        Self::with_selection(size, Selection::ByGenome, rng)
    }

    /// A new experiment on `size` genomes made at random, in which parents
    /// are chosen as `selection` says.
    ///
    /// Fails when `size` is zero, and when a genome reports a score that is
    /// not a number.
    pub fn with_selection(size: usize, selection: Selection, rng: &mut rand::StdRng) -> (made:
        Result<Experiment<T>, ExperimentError>)
        ensures
            match made {
                Ok(experiment) => size > 0 && fresh(experiment@, size as nat)
                    && experiment.policy() == selection,
                Err(error) => if size == 0 {
                    error == ExperimentError::EmptyPopulation
                } else {
                    error == ExperimentError::NotComparable && spawn_may_misreport::<T>()
                },
            },
    {
        if size == 0 {
            return Err(ExperimentError::EmptyPopulation);
        }
        let genomes: Vec<T> = Self::spawn(size, rng);
        let ghost given = genomes@;
        match rank_population(genomes) {
            Ok((population, scores)) => {
                proof {
                    lemma_measured_ranking(
                        given,
                        Ranking { genomes: population@, scores: scores@ },
                    );
                    assert forall|i: int| 0 <= i < size implies spawned(
                        #[trigger] population@[i],
                    ) by {
                        assert(given.contains(population@[i]));
                    }
                }
                Ok(Experiment { population, scores, selection })
            },
            Err(error) => {
                proof {
                    let (i, score) = choose|i: int, score: Fitness|
                        0 <= i < given.len() && #[trigger] measured(given[i], score)
                            && score.nan();
                    assert(spawned(given[i]) && measured(given[i], score) && score.nan());
                }
                Err(error)
            },
        }
    }

    /// The experiment's own policy for choosing parents.
    pub fn selection(&self) -> (selection: Selection)
        ensures
            selection == self.policy(),
    {
        self.selection
    }

    /// The genomes, best first.
    pub fn population(&self) -> (genomes: &Vec<T>)
        ensures
            genomes@ == self@.genomes,
            self@.ordered(),
    {
        proof {
            use_type_invariant(self);
        }
        &self.population
    }

    /// The score of each genome, in the same order.
    pub fn scores(&self) -> (scores: &Vec<Fitness>)
        ensures
            scores@ == self@.scores,
            self@.ordered(),
    {
        proof {
            use_type_invariant(self);
        }
        &self.scores
    }

    /// The number of genomes.
    pub fn size(&self) -> (size: usize)
        ensures
            size == self@.genomes.len(),
            size > 0,
            self@.ordered(),
    {
        proof {
            use_type_invariant(self);
        }
        self.population.len()
    }

    /// The best genome of the current generation.
    pub fn result(&self) -> (best: &T)
        ensures
            *best == self@.genomes[0],
            self@.ordered(),
    {
        proof {
            use_type_invariant(self);
        }
        &self.population[0]
    }

    /// The score of the best genome of the current generation.
    pub fn score(&self) -> (score: Fitness)
        ensures
            score == self@.scores[0],
            self@.ranked() ==> measured(self@.genomes[0], score),
            self@.ordered(),
    {
        proof {
            use_type_invariant(self);
        }
        self.scores[0]
    }
}

impl<T: Evolvable> Clone for Experiment<T> {
    /// A copy of the experiment: copies of its genomes in the same order,
    /// the same scores beside them, and the same policy.
    fn clone(&self) -> (copy: Self)
        ensures
            copy@.ordered(),
            copy@.scores == self@.scores,
            copy@.genomes.len() == self@.genomes.len(),
            forall|i: int|
                0 <= i < self@.genomes.len() ==> cloned(
                    self@.genomes[i],
                    #[trigger] copy@.genomes[i],
                ),
            copy.policy() == self.policy(),
    {
        proof {
            use_type_invariant(self);
        }
        let population: Vec<T> = self.population.clone();
        let scores: Vec<Fitness> = self.scores.clone();
        proof {
            assert(scores@ =~= self.scores@);
        }
        Experiment { population, scores, selection: self.selection }
    }
}

/// The sum of the first `upto` weights is no more than the sum of all.
proof fn lemma_total_grows(items: Seq<(u32, usize)>, upto: int)
    requires
        0 <= upto <= items.len(),
    ensures
        total_weight(items.subrange(0, upto)) <= total_weight(items),
    decreases items.len(),
{
    if upto < items.len() {
        lemma_total_grows(items.drop_last(), upto);
        assert(items.drop_last().subrange(0, upto) =~= items.subrange(0, upto));
    } else {
        assert(items.subrange(0, upto) =~= items);
    }
}

/// The sum of the weights of `items`, unless it takes more than 32 bits.
fn total(items: &Vec<Weighted<usize>>) -> (sum: Option<u32>)
    ensures
        match sum {
            Some(sum) => total_weight(entries(items@)) == sum,
            None => total_weight(entries(items@)) > u32::MAX,
        },
{
    let ghost all = entries(items@);
    let mut sum: u32 = 0;
    let mut i: usize = 0;
    while i < items.len()
        invariant
            i <= items.len(),
            all == entries(items@),
            sum == total_weight(all.subrange(0, i as int)),
        decreases items.len() - i,
    {
        proof {
            assert(all.subrange(0, i + 1).drop_last() =~= all.subrange(0, i as int));
            assert(all.subrange(0, i + 1).last() == all[i as int]);
        }
        let weight: u32 = items[i].weight;
        if weight > u32::MAX - sum {
            proof {
                lemma_total_grows(all, i + 1);
            }
            return None;
        }
        sum = sum + weight;
        i = i + 1;
    }
    proof {
        assert(all.subrange(0, i as int) =~= all);
    }
    Some(sum)
}

impl<T: Evolvable> Experiment<T> {
    /// The member at `index` as a weighted item: its index, with the weight
    /// of its score where it stands among the first `death_rate`, and with
    /// weight zero behind them.
    fn make_weighted(&self, index: usize, death_rate: usize) -> (item: Result<
        Weighted<usize>,
        ExperimentError,
    >)
        requires
            index < self@.scores.len(),
        ensures
            match item {
                Ok(item) => item.item == index && weight_at(
                    self@.scores,
                    death_rate as nat,
                    index as int,
                ) == Ok::<u32, ExperimentError>(item.weight),
                Err(error) => weight_at(self@.scores, death_rate as nat, index as int) == Err::<
                    u32,
                    ExperimentError,
                >(error),
            },
    {
        let weight: u32 = if index < death_rate {
            match self.scores[index].weight() {
                Ok(weight) => weight,
                Err(error) => {
                    return Err(error);
                },
            }
        } else {
            0
        };
        Ok(Weighted { weight, item: index })
    }

    /// All members as weighted items, in ranking order.
    fn weights(&self, death_rate: usize) -> (items: Result<Vec<Weighted<usize>>, ExperimentError>)
        ensures
            match items {
                Ok(items) => weigh(self@.scores, death_rate as nat) == Ok::<
                    Seq<(u32, usize)>,
                    ExperimentError,
                >(entries(items@)),
                Err(error) => weigh(self@.scores, death_rate as nat) == Err::<
                    Seq<(u32, usize)>,
                    ExperimentError,
                >(error),
            },
    {
        let size: usize = self.scores.len();
        let mut items: Vec<Weighted<usize>> = Vec::new();
        let mut index: usize = 0;
        while index < size
            invariant
                index <= size,
                size == self@.scores.len(),
                items.len() == index,
                forall|i: int|
                    0 <= i < index ==> {
                        &&& (#[trigger] items[i]).item == i
                        &&& weight_at(self@.scores, death_rate as nat, i) == Ok::<
                            u32,
                            ExperimentError,
                        >(items[i].weight)
                    },
            decreases size - index,
        {
            match self.make_weighted(index, death_rate) {
                Ok(item) => {
                    items.push(item);
                },
                Err(error) => {
                    proof {
                        assert forall|j: int| 0 <= j < index implies (#[trigger] weight_at(
                            self@.scores,
                            death_rate as nat,
                            j,
                        )) is Ok by {
                            assert(items[j].item == j);
                        }
                        lemma_weigh_fails(self@.scores, death_rate as nat, index as int, error);
                    }
                    return Err(error);
                },
            }
            index = index + 1;
        }
        proof {
            lemma_weigh_succeeds(self@.scores, death_rate as nat, entries(items@));
        }
        Ok(items)
    }

    /// A child of the members at `mother` and `father`.
    fn mate(&self, mother: usize, father: usize, rng: &mut rand::StdRng) -> (child: T)
        requires
            mother < self@.genomes.len(),
            father < self@.genomes.len(),
        ensures
            offspring(self@.genomes[mother as int], self@.genomes[father as int], child),
    {
        T::mate(&self.population[mother], &self.population[father], rng)
    }

    /// A brood whose parents are those that the genome type chooses.
    fn breed_chosen(&self, rng: &mut rand::StdRng) -> (children: Result<Vec<T>, ExperimentError>)
        ensures
            match children {
                Ok(children) => bred(self@, Choice::Policy(Selection::ByGenome), children@),
                Err(error) => error == ExperimentError::NoSuchParent && may_choose_outside(
                    self@,
                    Choice::Policy(Selection::ByGenome),
                ),
            },
    {
        proof {
            use_type_invariant(self);
        }
        let size: usize = self.population.len();
        let ghost choice = Choice::<T>::Policy(Selection::ByGenome);
        let mut children: Vec<T> = Vec::new();
        while children.len() < size
            invariant
                self@.ordered(),
                size == self@.genomes.len(),
                choice == Choice::<T>::Policy(Selection::ByGenome),
                children.len() <= size,
                forall|i: int|
                    0 <= i < children.len() ==> descends_from(
                        self@,
                        choice,
                        #[trigger] children[i],
                    ),
            decreases size - children.len(),
        {
            let (mother, father) = T::select(&self.population, rng);
            assert(choice.picks(self@, mother, father)) by {
                assert(selected(self@.genomes, mother, father));
            }
            if mother >= size || father >= size {
                return Err(ExperimentError::NoSuchParent);
            }
            let child: T = self.mate(mother, father, rng);
            proof {
                assert(admits(self@, choice, mother as int, father as int));
                assert(descends_from(self@, choice, child));
            }
            children.push(child);
        }
        Ok(children)
    }

    /// A brood whose parents are those that the caller's function chooses.
    fn breed_by<F: Fn(&Vec<T>, &mut rand::StdRng) -> (usize, usize)>(
        &self,
        rng: &mut rand::StdRng,
        select: &F,
    ) -> (children: Result<Vec<T>, ExperimentError>)
        requires
            callable_on(*select, self@.genomes),
        ensures
            match children {
                Ok(children) => bred(self@, by_function(*select), children@),
                Err(error) => error == ExperimentError::NoSuchParent && may_choose_outside(
                    self@,
                    by_function(*select),
                ),
            },
    {
        proof {
            use_type_invariant(self);
        }
        let size: usize = self.population.len();
        let ghost choice = by_function::<T, F>(*select);
        let mut children: Vec<T> = Vec::new();
        while children.len() < size
            invariant
                self@.ordered(),
                size == self@.genomes.len(),
                callable_on(*select, self@.genomes),
                choice == by_function::<T, F>(*select),
                children.len() <= size,
                forall|i: int|
                    0 <= i < children.len() ==> descends_from(
                        self@,
                        choice,
                        #[trigger] children[i],
                    ),
            decreases size - children.len(),
        {
            let (mother, father) = select(&self.population, rng);
            assert(choice.picks(self@, mother, father));
            if mother >= size || father >= size {
                return Err(ExperimentError::NoSuchParent);
            }
            let child: T = self.mate(mother, father, rng);
            proof {
                assert(admits(self@, choice, mother as int, father as int));
                assert(descends_from(self@, choice, child));
            }
            children.push(child);
        }
        Ok(children)
    }

    /// A brood whose parents are drawn with equal chance from the best
    /// `1 / divisor` of the population.
    fn breed_top(&self, divisor: usize, rng: &mut rand::StdRng) -> (children: Vec<T>)
        requires
            divisor > 0,
        ensures
            bred(self@, Choice::Policy(Selection::TopFraction { divisor }), children@),
    {
        proof {
            use_type_invariant(self);
        }
        let size: usize = self.population.len();
        let ghost choice = Choice::<T>::Policy(Selection::TopFraction { divisor });
        let mut children: Vec<T> = Vec::new();
        while children.len() < size
            invariant
                divisor > 0,
                self@.ordered(),
                size == self@.genomes.len(),
                choice == Choice::<T>::Policy(Selection::TopFraction { divisor }),
                children.len() <= size,
                forall|i: int|
                    0 <= i < children.len() ==> descends_from(
                        self@,
                        choice,
                        #[trigger] children[i],
                    ),
            decreases size - children.len(),
        {
            let (mother, father) = draw_from_top(size, divisor, rng);
            proof {
                lemma_pool_is_within(size as nat, divisor as nat);
            }
            let child: T = self.mate(mother, father, rng);
            proof {
                assert(admits(self@, choice, mother as int, father as int));
                assert(descends_from(self@, choice, child));
            }
            children.push(child);
        }
        children
    }

    /// A brood whose parents are drawn from the first `death_rate` members
    /// in proportion to their weights.
    fn breed_weighted(&self, death_rate: usize, rng: &mut rand::StdRng) -> (children: Result<
        Vec<T>,
        ExperimentError,
    >)
        ensures
            match children {
                Ok(children) => (Selection::Weighted { death_rate }).refusal(self@.scores) is None
                    && bred(self@, Choice::Policy(Selection::Weighted { death_rate }), children@),
                Err(error) => (Selection::Weighted { death_rate }).refusal(self@.scores) == Some(
                    error,
                ),
            },
    {
        proof {
            use_type_invariant(self);
        }
        let size: usize = self.population.len();
        let ghost choice = Choice::<T>::Policy(Selection::Weighted { death_rate });
        let mut weighted: Vec<Weighted<usize>> = match self.weights(death_rate) {
            Ok(weighted) => weighted,
            Err(error) => {
                return Err(error);
            },
        };
        match total(&weighted) {
            None => {
                return Err(ExperimentError::WeightOverflow);
            },
            Some(sum) => {
                if sum == 0 {
                    return Err(ExperimentError::NoWeight);
                }
            },
        }
        let ghost items = entries(weighted@);
        proof {
            lemma_weigh_items(self@.scores, death_rate as nat);
        }
        let table = weighted_choice(&mut weighted);
        let mut children: Vec<T> = Vec::new();
        while children.len() < size
            invariant
                self@.ordered(),
                size == self@.genomes.len(),
                choice == Choice::<T>::Policy(Selection::Weighted { death_rate }),
                table_entries(table) == items,
                weigh(self@.scores, death_rate as nat) == Ok::<Seq<(u32, usize)>, ExperimentError>(
                    items,
                ),
                items.len() == size,
                forall|i: int|
                    0 <= i < size ==> {
                        &&& (#[trigger] items[i]).1 == i
                        &&& weight_at(self@.scores, death_rate as nat, i) == Ok::<
                            u32,
                            ExperimentError,
                        >(items[i].0)
                    },
                children.len() <= size,
                forall|i: int|
                    0 <= i < children.len() ==> descends_from(
                        self@,
                        choice,
                        #[trigger] children[i],
                    ),
            decreases size - children.len(),
        {
            let mother: usize = draw_weighted(&table, rng);
            let father: usize = draw_weighted(&table, rng);
            proof {
                let m = choose|k: int|
                    0 <= k < items.len() && (#[trigger] items[k]).0 > 0 && items[k].1 == mother;
                let f = choose|k: int|
                    0 <= k < items.len() && (#[trigger] items[k]).0 > 0 && items[k].1 == father;
                assert(m == mother && f == father);
                assert(admits(self@, choice, mother as int, father as int));
            }
            let child: T = self.mate(mother, father, rng);
            proof {
                assert(descends_from(self@, choice, child));
            }
            children.push(child);
        }
        Ok(children)
    }

    /// A brood under `selection`.
    fn breed(&self, selection: Selection, rng: &mut rand::StdRng) -> (children: Result<
        Vec<T>,
        ExperimentError,
    >)
        ensures
            match children {
                Ok(children) => selection.refusal(self@.scores) is None && bred(
                    self@,
                    Choice::Policy(selection),
                    children@,
                ),
                Err(error) => match selection.refusal(self@.scores) {
                    Some(refusal) => error == refusal,
                    None => error == ExperimentError::NoSuchParent && may_choose_outside(
                        self@,
                        Choice::Policy(selection),
                    ),
                },
            },
    {
        match selection {
            Selection::ByGenome => self.breed_chosen(rng),
            Selection::TopFraction { divisor } => {
                if divisor == 0 {
                    return Err(ExperimentError::ZeroDivisor);
                }
                Ok(self.breed_top(divisor, rng))
            },
            Selection::Weighted { death_rate } => self.breed_weighted(death_rate, rng),
        }
    }

    /// Measures and ranks a brood and puts it in the place of the
    /// population.
    fn settle(&mut self, children: Vec<T>, Ghost(choice): Ghost<Choice<T>>) -> (outcome: Result<
        (),
        ExperimentError,
    >)
        requires
            choice.refusal(old(self)@.scores) is None,
            bred(old(self)@, choice, children@),
        ensures
            final(self)@.ordered(),
            old(self)@.ranked() ==> final(self)@.ranked(),
            final(self)@.genomes.len() == old(self)@.genomes.len(),
            match outcome {
                Ok(()) => step(old(self)@, final(self)@, choice),
                Err(error) => final(self)@ == old(self)@ && error == ExperimentError::NotComparable
                    && child_may_misreport(old(self)@, choice),
            },
            final(self).policy() == old(self).policy(),
    {
        proof {
            use_type_invariant(&*self);
        }
        let ghost brood = children@;
        match rank_population(children) {
            Ok((population, scores)) => {
                proof {
                    lemma_measured_ranking(
                        brood,
                        Ranking { genomes: population@, scores: scores@ },
                    );
                    assert forall|i: int| 0 <= i < population@.len() implies descends_from(
                        self@,
                        choice,
                        #[trigger] population@[i],
                    ) by {
                        assert(brood.contains(population@[i]));
                    }
                }
                *self = Experiment { population, scores, selection: self.selection };
                Ok(())
            },
            Err(error) => {
                proof {
                    let (i, score) = choose|i: int, score: Fitness|
                        0 <= i < brood.len() && #[trigger] measured(brood[i], score)
                            && score.nan();
                    assert(descends_from(self@, choice, brood[i]) && measured(brood[i], score)
                        && score.nan());
                }
                Err(error)
            },
        }
    }

    /// Runs one trial: breeds a new generation of the same size, measures
    /// and ranks it, and puts it in the place of the old one.
    ///
    /// Parents are chosen as `select` says, or by the experiment's own
    /// policy where it says nothing. A trial fails when no parents can be
    /// drawn, when the genome type chooses a parent that is not there, and
    /// when a child reports a score that is not a number. A trial that fails
    /// changes nothing.
    pub fn trial(&mut self, rng: &mut rand::StdRng, select: Option<Selection>) -> (outcome: Result<
        (),
        ExperimentError,
    >)
        ensures
            final(self)@.ordered(),
            old(self)@.ranked() ==> final(self)@.ranked(),
            final(self)@.genomes.len() == old(self)@.genomes.len(),
            match outcome {
                Ok(()) => step(old(self)@, final(self)@, old(self).follows(select)),
                Err(error) => final(self)@ == old(self)@ && fails(
                    old(self)@,
                    old(self).follows(select),
                    error,
                ),
            },
            old(self).follows(select).refusal(old(self)@.scores) matches Some(refusal)
                ==> outcome == Err::<(), ExperimentError>(refusal),
            final(self).policy() == old(self).policy(),
    {
        proof {
            use_type_invariant(&*self);
        }
        let selection: Selection = match select {
            Some(selection) => selection,
            None => self.selection,
        };
        match self.breed(selection, rng) {
            Ok(children) => self.settle(children, Ghost(Choice::Policy(selection))),
            Err(error) => Err(error),
        }
    }

    /// Runs one trial in which the caller's function chooses the parents.
    ///
    /// For each child the function is handed the ranked population and the
    /// generator, and returns the places of mother and father. A trial
    /// fails when the function returns a place behind the end of the
    /// population, and when a child reports a score that is not a number.
    /// A trial that fails changes nothing.
    pub fn trial_by<F: Fn(&Vec<T>, &mut rand::StdRng) -> (usize, usize)>(
        &mut self,
        rng: &mut rand::StdRng,
        select: &F,
    ) -> (outcome: Result<(), ExperimentError>)
        requires
            callable_on(*select, old(self)@.genomes),
        ensures
            final(self)@.ordered(),
            old(self)@.ranked() ==> final(self)@.ranked(),
            final(self)@.genomes.len() == old(self)@.genomes.len(),
            match outcome {
                Ok(()) => step(old(self)@, final(self)@, by_function(*select)),
                Err(error) => final(self)@ == old(self)@ && fails(
                    old(self)@,
                    by_function(*select),
                    error,
                ),
            },
            final(self).policy() == old(self).policy(),
    {
        proof {
            use_type_invariant(&*self);
        }
        match self.breed_by(rng, select) {
            Ok(children) => self.settle(children, Ghost(by_function(*select))),
            Err(error) => Err(error),
        }
    }
}

impl<T: Evolvable> Experiment<T> {
    /// Runs trials until `max_trials` of them are done or the best score is
    /// a number at least as great as `threshold`, whichever comes first, and
    /// returns how many were run.
    ///
    /// The threshold is looked at before each trial, so a population that has
    /// reached it is left as it is. Without a threshold all `max_trials`
    /// trials are run. Parents are chosen as `select` says, or by the
    /// experiment's own policy where it says nothing. When a trial fails the
    /// run ends with that failure, and the population is what the trials
    /// before it made of it.
    pub fn run_until(
        &mut self,
        max_trials: usize,
        rng: &mut rand::StdRng,
        threshold: Option<Fitness>,
        select: Option<Selection>,
    ) -> (outcome: Result<usize, ExperimentError>)
        ensures
            final(self)@.ordered(),
            old(self)@.ranked() ==> final(self)@.ranked(),
            final(self)@.genomes.len() == old(self)@.genomes.len(),
            match outcome {
                Ok(trials) => ran_until(
                    old(self)@,
                    final(self)@,
                    old(self).follows(select),
                    threshold,
                    max_trials as nat,
                    trials as nat,
                ),
                Err(error) => cut_short(
                    old(self)@,
                    final(self)@,
                    old(self).follows(select),
                    threshold,
                    max_trials as nat,
                    error,
                ),
            },
            meets(old(self)@, threshold) ==> outcome == Ok::<usize, ExperimentError>(0)
                && final(self)@ == old(self)@,
            final(self).policy() == old(self).policy(),
    {
        proof {
            use_type_invariant(&*self);
        }
        let ghost choice = self.follows(select);
        let ghost start = self@;
        let ghost mut history: Seq<Ranking<T>> = seq![self@];
        let mut trials: usize = 0;
        loop
            invariant
                trials <= max_trials,
                choice == self.follows(select),
                self.policy() == old(self).policy(),
                start == old(self)@,
                self@.ordered(),
                start.ranked() ==> self@.ranked(),
                self@.genomes.len() == start.genomes.len(),
                records(history, start, self@, choice, threshold, trials as nat),
                trials > 0 ==> !meets(start, threshold),
            decreases max_trials - trials,
        {
            if trials == max_trials || self.reached(threshold) {
                proof {
                    assert(evolved(start, self@, choice, threshold, trials as nat));
                }
                return Ok(trials);
            }
            let ghost before = self@;
            match self.trial(rng, select) {
                Ok(()) => {
                    proof {
                        lemma_history_grows(history, start, before, self@, choice, threshold);
                        history = history.push(self@);
                    }
                },
                Err(error) => {
                    proof {
                        assert(evolved(start, self@, choice, threshold, trials as nat));
                    }
                    return Err(error);
                },
            }
            trials = trials + 1;
        }
    }

    /// Runs trials in which the caller's function chooses the parents,
    /// until `max_trials` of them are done or the best score is a number at
    /// least as great as `threshold`, whichever comes first, and returns how
    /// many were run.
    ///
    /// The threshold is looked at before each trial, and without a threshold
    /// all `max_trials` trials are run. When a trial fails the run ends with
    /// that failure, and the population is what the trials before it made of
    /// it.
    pub fn run_until_by<F: Fn(&Vec<T>, &mut rand::StdRng) -> (usize, usize)>(
        &mut self,
        max_trials: usize,
        rng: &mut rand::StdRng,
        threshold: Option<Fitness>,
        select: &F,
    ) -> (outcome: Result<usize, ExperimentError>)
        requires
            callable_at_size(*select, old(self)@.genomes.len()),
        ensures
            final(self)@.ordered(),
            old(self)@.ranked() ==> final(self)@.ranked(),
            final(self)@.genomes.len() == old(self)@.genomes.len(),
            match outcome {
                Ok(trials) => ran_until(
                    old(self)@,
                    final(self)@,
                    by_function(*select),
                    threshold,
                    max_trials as nat,
                    trials as nat,
                ),
                Err(error) => cut_short(
                    old(self)@,
                    final(self)@,
                    by_function(*select),
                    threshold,
                    max_trials as nat,
                    error,
                ),
            },
            meets(old(self)@, threshold) ==> outcome == Ok::<usize, ExperimentError>(0)
                && final(self)@ == old(self)@,
            final(self).policy() == old(self).policy(),
    {
        proof {
            use_type_invariant(&*self);
        }
        let ghost choice = by_function::<T, F>(*select);
        let ghost start = self@;
        let ghost mut history: Seq<Ranking<T>> = seq![self@];
        let mut trials: usize = 0;
        loop
            invariant
                trials <= max_trials,
                choice == by_function::<T, F>(*select),
                callable_at_size(*select, start.genomes.len()),
                self.policy() == old(self).policy(),
                start == old(self)@,
                self@.ordered(),
                start.ranked() ==> self@.ranked(),
                self@.genomes.len() == start.genomes.len(),
                records(history, start, self@, choice, threshold, trials as nat),
                trials > 0 ==> !meets(start, threshold),
            decreases max_trials - trials,
        {
            if trials == max_trials || self.reached(threshold) {
                proof {
                    assert(evolved(start, self@, choice, threshold, trials as nat));
                }
                return Ok(trials);
            }
            let ghost before = self@;
            match self.trial_by(rng, select) {
                Ok(()) => {
                    proof {
                        lemma_history_grows(history, start, before, self@, choice, threshold);
                        history = history.push(self@);
                    }
                },
                Err(error) => {
                    proof {
                        assert(evolved(start, self@, choice, threshold, trials as nat));
                    }
                    return Err(error);
                },
            }
            trials = trials + 1;
        }
    }

    /// Whether the best score is a number at least as great as `threshold`.
    fn reached(&self, threshold: Option<Fitness>) -> (answer: bool)
        ensures
            answer == meets(self@, threshold),
    {
        match threshold {
            Some(threshold) => self.score().at_least(&threshold),
            None => false,
        }
    }

    /// Runs `count` trials, each with the experiment's own policy.
    ///
    /// When a trial fails the run ends with that failure, and the population
    /// is what the trials before it made of it.
    pub fn run_trials(&mut self, count: usize, rng: &mut rand::StdRng) -> (outcome: Result<
        (),
        ExperimentError,
    >)
        ensures
            final(self)@.ordered(),
            old(self)@.ranked() ==> final(self)@.ranked(),
            final(self)@.genomes.len() == old(self)@.genomes.len(),
            match outcome {
                Ok(()) => evolved(
                    old(self)@,
                    final(self)@,
                    old(self).follows(None),
                    None,
                    count as nat,
                ),
                Err(error) => cut_short(
                    old(self)@,
                    final(self)@,
                    old(self).follows(None),
                    None,
                    count as nat,
                    error,
                ),
            },
            final(self).policy() == old(self).policy(),
    {
        match self.run_until(count, rng, None, None) {
            Ok(_) => Ok(()),
            Err(error) => Err(error),
        }
    }

    /// Puts a new population of the same size, made at random, in the place
    /// of the current one. The experiment's policy stays as it is.
    ///
    /// Fails when a genome reports a score that is not a number, and then
    /// changes nothing.
    pub fn reset(&mut self, rng: &mut rand::StdRng) -> (outcome: Result<(), ExperimentError>)
        ensures
            match outcome {
                Ok(()) => fresh(final(self)@, old(self)@.genomes.len()),
                Err(error) => final(self)@ == old(self)@ && error == ExperimentError::NotComparable
                    && spawn_may_misreport::<T>(),
            },
            final(self).policy() == old(self).policy(),
    {
        proof {
            use_type_invariant(&*self);
        }
        match Self::with_selection(self.population.len(), self.selection, rng) {
            Ok(experiment) => {
                *self = experiment;
                Ok(())
            },
            Err(error) => Err(error),
        }
    }
}

} // verus!
