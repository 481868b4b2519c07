//! What a trial does to a population, and what a run of trials does.
//!
//! A trial draws its parents at random and the genomes mate at random, so
//! the engine cannot say which generation comes next. It says which ones can:
//! the relations in this file hold between a population and every population
//! that the engine may put in its place.

use vstd::prelude::*;
use crate::error::ExperimentError;
use crate::fitness::Fitness;
use crate::genome::{measured, offspring, selected, spawned, Evolvable};
use crate::ranking::Ranking;
use crate::selection::{lemma_pool_is_within, pool, Selection};

verus! {

/// `population` is what a new experiment of `size` genomes may hold: as many
/// genomes as were asked for, each made at random, ranked.
pub open spec fn fresh<T: Evolvable>(population: Ranking<T>, size: nat) -> bool {
    &&& population.ranked()
    &&& population.genomes.len() == size
    &&& forall|i: int| 0 <= i < size ==> spawned(#[trigger] population.genomes[i])
}

/// Some genome made at random reports a score that is not a number.
pub open spec fn spawn_may_misreport<T: Evolvable>() -> bool {
    exists|genome: T, score: Fitness|
        spawned(genome) && #[trigger] measured(genome, score) && score.nan()
}

/// A way of choosing the parents of a child, as the contracts speak of it:
/// a policy, or a function that the caller hands to a trial. Of a function
/// the contracts know which places it may return for which genomes.
#[verifier::reject_recursive_types(T)]
pub enum Choice<T> {
    Policy(Selection),
    Function(spec_fn(Seq<T>, usize, usize) -> bool),
}

/// The places that `select` may return for a population of these genomes,
/// as a choice.
pub open spec fn by_function<T, F: Fn(&Vec<T>, &mut rand::StdRng) -> (usize, usize)>(
    select: F,
) -> Choice<T> {
    Choice::Function(
        |genomes: Seq<T>, mother: usize, father: usize|
            exists|population: &Vec<T>, rng: &mut rand::StdRng|
                population@ == genomes && #[trigger] call_ensures(
                    select,
                    (population, rng),
                    (mother, father),
                ),
    )
}

/// `select` may be called on every population of these genomes.
pub open spec fn callable_on<T, F: Fn(&Vec<T>, &mut rand::StdRng) -> (usize, usize)>(
    select: F,
    genomes: Seq<T>,
) -> bool {
    forall|population: &Vec<T>, rng: &mut rand::StdRng|
        population@ == genomes ==> #[trigger] call_requires(select, (population, rng))
}

/// `select` may be called on every population of `size` genomes.
pub open spec fn callable_at_size<T, F: Fn(&Vec<T>, &mut rand::StdRng) -> (usize, usize)>(
    select: F,
    size: nat,
) -> bool {
    forall|population: &Vec<T>, rng: &mut rand::StdRng|
        population@.len() == size ==> #[trigger] call_requires(select, (population, rng))
}

impl<T: Evolvable> Choice<T> {
    /// Why no parents can be drawn from a population with these scores, if
    /// that is so. A function refuses nothing.
    pub open spec fn refusal(self, scores: Seq<Fitness>) -> Option<ExperimentError> {
        match self {
            Choice::Policy(selection) => selection.refusal(scores),
            Choice::Function(_) => None,
        }
    }

    /// Whether the places `mother` and `father` may be chosen, be they in
    /// the population or behind its end.
    pub open spec fn picks(self, population: Ranking<T>, mother: usize, father: usize) -> bool {
        match self {
            Choice::Policy(Selection::ByGenome) => selected(population.genomes, mother, father),
            Choice::Policy(selection) => selection.eligible(population.scores, mother as int)
                && selection.eligible(population.scores, father as int),
            Choice::Function(places) => places(population.genomes, mother, father),
        }
    }
}

/// `choice` admits the members at `mother` and `father` as the parents of a
/// child: both are members of the population, and they may be chosen.
pub open spec fn admits<T: Evolvable>(
    population: Ranking<T>,
    choice: Choice<T>,
    mother: int,
    father: int,
) -> bool {
    &&& 0 <= mother < population.scores.len()
    &&& 0 <= father < population.scores.len()
    &&& mother <= usize::MAX
    &&& father <= usize::MAX
    &&& choice.picks(population, mother as usize, father as usize)
}

/// A parent may be chosen at a place behind the end of `population`.
pub open spec fn may_choose_outside<T: Evolvable>(
    population: Ranking<T>,
    choice: Choice<T>,
) -> bool {
    exists|mother: usize, father: usize|
        #[trigger] choice.picks(population, mother, father) && !(mother
            < population.genomes.len() && father < population.genomes.len())
}

/// `child` is what two members of `parents` that `choice` admits as parents
/// may have as a child.
pub open spec fn descends_from<T: Evolvable>(
    parents: Ranking<T>,
    choice: Choice<T>,
    child: T,
) -> bool {
    exists|mother: int, father: int|
        {
            &&& admits(parents, choice, mother, father)
            &&& #[trigger] offspring(parents.genomes[mother], parents.genomes[father], child)
        }
}

/// `children` is a brood of `parents` under `choice`: one child for each
/// member of the population, each of admitted parents.
pub open spec fn bred<T: Evolvable>(
    parents: Ranking<T>,
    choice: Choice<T>,
    children: Seq<T>,
) -> bool {
    &&& children.len() == parents.genomes.len()
    &&& forall|i: int|
        0 <= i < children.len() ==> descends_from(parents, choice, #[trigger] children[i])
}

/// One trial leads from `before` to `after`: `after` is a brood of `before`,
/// measured and ranked.
pub open spec fn step<T: Evolvable>(
    before: Ranking<T>,
    after: Ranking<T>,
    choice: Choice<T>,
) -> bool {
    &&& choice.refusal(before.scores) is None
    &&& after.ranked()
    &&& bred(before, choice, after.genomes)
}

/// A child that may be born to `population` under `choice` reports a score
/// that is not a number.
pub open spec fn child_may_misreport<T: Evolvable>(
    population: Ranking<T>,
    choice: Choice<T>,
) -> bool {
    exists|child: T, score: Fitness|
        {
            &&& descends_from(population, choice, child)
            &&& #[trigger] measured(child, score)
            &&& score.nan()
        }
}

/// A trial on `population` may fail with `error`: no parents can be drawn,
/// or a parent is chosen that is not there, or a child that may be born
/// reports a score that is not a number.
pub open spec fn fails<T: Evolvable>(
    population: Ranking<T>,
    choice: Choice<T>,
    error: ExperimentError,
) -> bool {
    match choice.refusal(population.scores) {
        Some(refusal) => error == refusal,
        None => {
            ||| {
                &&& error == ExperimentError::NoSuchParent
                &&& may_choose_outside(population, choice)
            }
            ||| {
                &&& error == ExperimentError::NotComparable
                &&& child_may_misreport(population, choice)
            }
        },
    }
}

/// The policies of the engine choose members of the population only.
pub proof fn lemma_policies_choose_inside<T: Evolvable>(
    population: Ranking<T>,
    selection: Selection,
)
    requires
        selection != Selection::ByGenome,
        population.genomes.len() == population.scores.len(),
    ensures
        !may_choose_outside(population, Choice::Policy(selection)),
{
}

/// A genome type that keeps to the top half chooses only parents that the
/// top half policy admits.
pub proof fn lemma_own_choice_is_from_top_half<T: Evolvable>(
    population: Ranking<T>,
    mother: int,
    father: int,
)
    requires
        T::selects_from_top_half(),
        population.genomes.len() == population.scores.len(),
        admits(population, Choice::Policy(Selection::ByGenome), mother, father),
    ensures
        admits(
            population,
            Choice::Policy(Selection::TopFraction { divisor: 2 }),
            mother,
            father,
        ),
{
    assert(selected(population.genomes, mother as usize, father as usize));
}

/// A genome type that keeps to the top half never chooses a parent that is
/// not there.
pub proof fn lemma_own_choice_is_inside<T: Evolvable>(population: Ranking<T>)
    requires
        T::selects_from_top_half(),
        population.genomes.len() > 0,
    ensures
        !may_choose_outside(population, Choice::Policy(Selection::ByGenome)),
{
    lemma_pool_is_within(population.genomes.len(), 2);
    let choice = Choice::<T>::Policy(Selection::ByGenome);
    assert forall|mother: usize, father: usize| #[trigger]
        choice.picks(population, mother, father) implies mother < population.genomes.len()
        && father < population.genomes.len() by {
        assert(selected(population.genomes, mother, father));
        assert(mother < pool(population.genomes.len(), 2));
    }
}

/// Where the genome type keeps to the top half, a trial in which it chooses
/// the parents is a trial under the top half policy.
pub proof fn lemma_own_step_is_top_half_step<T: Evolvable>(before: Ranking<T>, after: Ranking<T>)
    requires
        T::selects_from_top_half(),
        before.genomes.len() == before.scores.len(),
        step(before, after, Choice::Policy(Selection::ByGenome)),
    ensures
        step(before, after, Choice::Policy(Selection::TopFraction { divisor: 2 })),
{
    let own = Choice::<T>::Policy(Selection::ByGenome);
    let top_half = Choice::<T>::Policy(Selection::TopFraction { divisor: 2 });
    assert forall|i: int| 0 <= i < after.genomes.len() implies descends_from(
        before,
        top_half,
        #[trigger] after.genomes[i],
    ) by {
        let child = after.genomes[i];
        assert(descends_from(before, own, child));
        let (mother, father) = choose|mother: int, father: int|
            {
                &&& admits(before, own, mother, father)
                &&& #[trigger] offspring(before.genomes[mother], before.genomes[father], child)
            };
        lemma_own_choice_is_from_top_half(before, mother, father);
    }
}

/// `population` has reached `threshold`: its best score is a number at least
/// as great. Where there is no threshold, nothing reaches it.
pub open spec fn meets<T: Evolvable>(population: Ranking<T>, threshold: Option<Fitness>) -> bool {
    match threshold {
        Some(threshold) => population.scores[0].reaches(threshold),
        None => false,
    }
}

/// In `history`, trial number `k` was run as it should: it led from one
/// entry to the next, and the population it was run on had not reached
/// `threshold`.
pub open spec fn in_order<T: Evolvable>(
    history: Seq<Ranking<T>>,
    k: int,
    choice: Choice<T>,
    threshold: Option<Fitness>,
) -> bool {
    step(history[k], history[k + 1], choice) && !meets(history[k], threshold)
}

/// `history` records a run of `trials` trials from `before` to `after`: it
/// starts with `before`, holds the population after each trial, and ends
/// with `after`; and no trial was run on a population that had reached
/// `threshold`.
pub open spec fn records<T: Evolvable>(
    history: Seq<Ranking<T>>,
    before: Ranking<T>,
    after: Ranking<T>,
    choice: Choice<T>,
    threshold: Option<Fitness>,
    trials: nat,
) -> bool {
    &&& history.len() == trials + 1
    &&& history[0] == before
    &&& history[trials as int] == after
    &&& forall|k: int| 0 <= k < trials ==> #[trigger] in_order(history, k, choice, threshold)
}

/// A history grows by a trial: where `history` records a run that ends in
/// `before`, and a trial on `before`, which has not reached the threshold,
/// leads to `after`, the history with `after` behind it records the run
/// with that trial.
pub proof fn lemma_history_grows<T: Evolvable>(
    history: Seq<Ranking<T>>,
    start: Ranking<T>,
    before: Ranking<T>,
    after: Ranking<T>,
    choice: Choice<T>,
    threshold: Option<Fitness>,
)
    requires
        history.len() > 0,
        records(history, start, before, choice, threshold, (history.len() - 1) as nat),
        step(before, after, choice),
        !meets(before, threshold),
    ensures
        records(history.push(after), start, after, choice, threshold, history.len()),
{
    let longer = history.push(after);
    let trials = history.len() - 1;
    assert forall|k: int| 0 <= k < trials + 1 implies #[trigger] in_order(
        longer,
        k,
        choice,
        threshold,
    ) by {
        if k < trials {
            assert(in_order(history, k, choice, threshold));
        }
    }
}

/// `trials` trials in a row lead from `before` to `after`, none of them run
/// on a population that had reached `threshold`.
pub open spec fn evolved<T: Evolvable>(
    before: Ranking<T>,
    after: Ranking<T>,
    choice: Choice<T>,
    threshold: Option<Fitness>,
    trials: nat,
) -> bool {
    exists|history: Seq<Ranking<T>>| records(history, before, after, choice, threshold, trials)
}

/// A run with a budget of `max_trials` trials ends after `trials` of them in
/// `after`: the trials were run in a row while the threshold was not
/// reached, and the run ended when it was reached or the budget was spent.
pub open spec fn ran_until<T: Evolvable>(
    before: Ranking<T>,
    after: Ranking<T>,
    choice: Choice<T>,
    threshold: Option<Fitness>,
    max_trials: nat,
    trials: nat,
) -> bool {
    &&& trials <= max_trials
    &&& evolved(before, after, choice, threshold, trials)
    &&& trials < max_trials ==> meets(after, threshold)
}

/// A run with a budget of `max_trials` trials is cut short in `after` by
/// `error`: fewer trials than the budget allows led there, the threshold was
/// not reached, and the next trial failed.
pub open spec fn cut_short<T: Evolvable>(
    before: Ranking<T>,
    after: Ranking<T>,
    choice: Choice<T>,
    threshold: Option<Fitness>,
    max_trials: nat,
    error: ExperimentError,
) -> bool {
    exists|trials: nat|
        {
            &&& trials < max_trials
            &&& #[trigger] evolved(before, after, choice, threshold, trials)
            &&& !meets(after, threshold)
            &&& fails(after, choice, error)
        }
}

/// No trials lead nowhere: a run of zero trials ends where it began.
pub proof fn lemma_no_trial<T: Evolvable>(
    before: Ranking<T>,
    after: Ranking<T>,
    choice: Choice<T>,
    threshold: Option<Fitness>,
)
    ensures
        evolved(before, after, choice, threshold, 0) <==> after == before,
{
    if after == before {
        assert(records(seq![before], before, after, choice, threshold, 0));
    }
}

/// A run of one trial is one trial: it leads exactly where a single trial
/// on a population that has not reached the threshold may lead.
pub proof fn lemma_one_trial<T: Evolvable>(
    before: Ranking<T>,
    after: Ranking<T>,
    choice: Choice<T>,
    threshold: Option<Fitness>,
)
    ensures
        evolved(before, after, choice, threshold, 1) <==> step(before, after, choice)
            && !meets(before, threshold),
{
    if step(before, after, choice) && !meets(before, threshold) {
        let history = seq![before, after];
        assert(in_order(history, 0, choice, threshold));
        assert(records(history, before, after, choice, threshold, 1));
    }
    if evolved(before, after, choice, threshold, 1) {
        let history = choose|history: Seq<Ranking<T>>|
            records(history, before, after, choice, threshold, 1);
        assert(in_order(history, 0, choice, threshold));
    }
}

/// Runs add up: a run of `first` trials followed by a run of `second`
/// trials is a run of `first + second` trials.
pub proof fn lemma_trials_add_up<T: Evolvable>(
    before: Ranking<T>,
    between: Ranking<T>,
    after: Ranking<T>,
    choice: Choice<T>,
    threshold: Option<Fitness>,
    first: nat,
    second: nat,
)
    requires
        evolved(before, between, choice, threshold, first),
        evolved(between, after, choice, threshold, second),
    ensures
        evolved(before, after, choice, threshold, first + second),
{
    let head = choose|history: Seq<Ranking<T>>|
        records(history, before, between, choice, threshold, first);
    let tail = choose|history: Seq<Ranking<T>>|
        records(history, between, after, choice, threshold, second);
    let history = head.drop_last() + tail;
    assert forall|k: int| 0 <= k < first + second implies #[trigger] in_order(
        history,
        k,
        choice,
        threshold,
    ) by {
        if k + 1 < first {
            assert(in_order(head, k, choice, threshold));
            assert(history[k] == head[k] && history[k + 1] == head[k + 1]);
        } else if k + 1 == first {
            assert(in_order(head, k, choice, threshold));
            assert(history[k] == head[k] && history[k + 1] == tail[0]);
            assert(head[k + 1] == tail[0]);
        } else {
            assert(in_order(tail, k - first, choice, threshold));
            assert(history[k] == tail[k - first] && history[k + 1] == tail[k - first + 1]);
        }
    }
    assert(records(history, before, after, choice, threshold, first + second));
}

/// A run that is cut short before its first trial is a trial that fails: it
/// fails as a single trial on the population would, and changes nothing.
pub proof fn lemma_cut_short_at_once<T: Evolvable>(
    before: Ranking<T>,
    after: Ranking<T>,
    choice: Choice<T>,
    threshold: Option<Fitness>,
    error: ExperimentError,
)
    ensures
        cut_short(before, after, choice, threshold, 1, error) <==> after == before && !meets(
            before,
            threshold,
        ) && fails(before, choice, error),
{
    lemma_no_trial(before, after, choice, threshold);
    if cut_short(before, after, choice, threshold, 1, error) {
        let trials = choose|trials: nat|
            {
                &&& trials < 1
                &&& #[trigger] evolved(before, after, choice, threshold, trials)
                &&& !meets(after, threshold)
                &&& fails(after, choice, error)
            };
        assert(trials == 0);
    }
    if after == before && !meets(before, threshold) && fails(before, choice, error) {
        assert(evolved(before, after, choice, threshold, 0));
    }
}

/// A run of `first` trials followed by a run that is cut short within
/// `second` trials is a run that is cut short within `first + second`.
pub proof fn lemma_trials_add_up_to_failure<T: Evolvable>(
    before: Ranking<T>,
    between: Ranking<T>,
    after: Ranking<T>,
    choice: Choice<T>,
    threshold: Option<Fitness>,
    first: nat,
    second: nat,
    error: ExperimentError,
)
    requires
        evolved(before, between, choice, threshold, first),
        cut_short(between, after, choice, threshold, second, error),
    ensures
        cut_short(before, after, choice, threshold, first + second, error),
{
    let rest = choose|trials: nat|
        {
            &&& trials < second
            &&& #[trigger] evolved(between, after, choice, threshold, trials)
            &&& !meets(after, threshold)
            &&& fails(after, choice, error)
        };
    lemma_trials_add_up(before, between, after, choice, threshold, first, rest);
    let done = first + rest;
    assert(evolved(before, after, choice, threshold, done));
}

/// A trial under `choice` has one outcome: whatever is drawn, the same
/// population leads to the same next one. That is so where nothing is left
/// to chance, as when the draws and what the genomes do are fixed.
pub open spec fn trial_is_settled<T: Evolvable>(choice: Choice<T>) -> bool {
    forall|before: Ranking<T>, one: Ranking<T>, other: Ranking<T>|
        #[trigger] step(before, one, choice) && #[trigger] step(before, other, choice) ==> one
            == other
}

/// Two histories of runs from one population agree as far as both go, where
/// a trial has one outcome.
proof fn lemma_histories_agree<T: Evolvable>(
    one: Seq<Ranking<T>>,
    other: Seq<Ranking<T>>,
    before: Ranking<T>,
    first: Ranking<T>,
    second: Ranking<T>,
    choice: Choice<T>,
    threshold: Option<Fitness>,
    trials: nat,
    at: nat,
)
    requires
        trial_is_settled(choice),
        records(one, before, first, choice, threshold, trials),
        records(other, before, second, choice, threshold, trials),
        at <= trials,
    ensures
        one[at as int] == other[at as int],
    decreases at,
{
    if at > 0 {
        lemma_histories_agree(
            one,
            other,
            before,
            first,
            second,
            choice,
            threshold,
            trials,
            (at - 1) as nat,
        );
        assert(in_order(one, at - 1, choice, threshold));
        assert(in_order(other, at - 1, choice, threshold));
        assert(step(one[at - 1], one[at - 1 + 1], choice));
        assert(step(one[at - 1], other[at - 1 + 1], choice));
    }
}

/// Where a trial has one outcome, a run of trials has one outcome: as many
/// trials in a row, however they are asked for, lead from the same
/// population to the same population.
pub proof fn lemma_runs_agree<T: Evolvable>(
    before: Ranking<T>,
    one: Ranking<T>,
    other: Ranking<T>,
    choice: Choice<T>,
    threshold: Option<Fitness>,
    trials: nat,
)
    requires
        trial_is_settled(choice),
        evolved(before, one, choice, threshold, trials),
        evolved(before, other, choice, threshold, trials),
    ensures
        one == other,
{
    let first = choose|history: Seq<Ranking<T>>|
        records(history, before, one, choice, threshold, trials);
    let second = choose|history: Seq<Ranking<T>>|
        records(history, before, other, choice, threshold, trials);
    lemma_histories_agree(first, second, before, one, other, choice, threshold, trials, trials);
}

/// Every run can be split: the first `first` trials of a run are a run,
/// and so are the rest.
pub proof fn lemma_trials_split<T: Evolvable>(
    before: Ranking<T>,
    after: Ranking<T>,
    choice: Choice<T>,
    threshold: Option<Fitness>,
    first: nat,
    second: nat,
)
    requires
        evolved(before, after, choice, threshold, first + second),
    ensures
        exists|between: Ranking<T>|
            #[trigger] evolved(before, between, choice, threshold, first) && evolved(
                between,
                after,
                choice,
                threshold,
                second,
            ),
{
    let trials = first + second;
    let history = choose|history: Seq<Ranking<T>>|
        records(history, before, after, choice, threshold, trials);
    let between = history[first as int];
    let head = history.subrange(0, (first + 1) as int);
    let tail = history.subrange(first as int, (first + second + 1) as int);
    assert(history.len() == first + second + 1);
    assert(head.len() == first + 1 && tail.len() == second + 1);
    assert forall|k: int| 0 <= k < first implies #[trigger] in_order(
        head,
        k,
        choice,
        threshold,
    ) by {
        assert(in_order(history, k, choice, threshold));
        assert(head[k] == history[k] && head[k + 1] == history[k + 1]);
    }
    assert(records(head, before, between, choice, threshold, first));
    assert forall|k: int| 0 <= k < second implies #[trigger] in_order(
        tail,
        k,
        choice,
        threshold,
    ) by {
        assert(in_order(history, first + k, choice, threshold));
        assert(tail[k] == history[first + k] && tail[k + 1] == history[first + k + 1]);
    }
    assert(records(tail, between, after, choice, threshold, second));
    assert(evolved(before, between, choice, threshold, first));
    assert(evolved(between, after, choice, threshold, second));
}

/// After any number of trials the population has the size it had, and it
/// is ranked.
pub proof fn lemma_trials_keep_rank<T: Evolvable>(
    before: Ranking<T>,
    after: Ranking<T>,
    choice: Choice<T>,
    threshold: Option<Fitness>,
    trials: nat,
)
    requires
        before.ranked(),
        evolved(before, after, choice, threshold, trials),
    ensures
        after.ranked(),
        after.genomes.len() == before.genomes.len(),
        after.scores.len() == before.scores.len(),
{
    let history = choose|history: Seq<Ranking<T>>|
        records(history, before, after, choice, threshold, trials);
    lemma_history_keeps_rank(history, before, after, choice, threshold, trials, trials);
}

/// Every population of a recorded run has the size of the first one, and is
/// ranked if the first one is.
proof fn lemma_history_keeps_rank<T: Evolvable>(
    history: Seq<Ranking<T>>,
    before: Ranking<T>,
    after: Ranking<T>,
    choice: Choice<T>,
    threshold: Option<Fitness>,
    trials: nat,
    at: nat,
)
    requires
        before.ranked(),
        records(history, before, after, choice, threshold, trials),
        at <= trials,
    ensures
        history[at as int].ranked(),
        history[at as int].genomes.len() == before.genomes.len(),
    decreases at,
{
    if at > 0 {
        lemma_history_keeps_rank(
            history,
            before,
            after,
            choice,
            threshold,
            trials,
            (at - 1) as nat,
        );
        assert(in_order(history, at - 1, choice, threshold));
    }
}

/// A run on a population that has reached the threshold runs no trial and
/// changes nothing.
pub proof fn lemma_threshold_reached_at_start<T: Evolvable>(
    before: Ranking<T>,
    after: Ranking<T>,
    choice: Choice<T>,
    threshold: Option<Fitness>,
    max_trials: nat,
    trials: nat,
)
    requires
        meets(before, threshold),
        ran_until(before, after, choice, threshold, max_trials, trials),
    ensures
        trials == 0,
        after == before,
{
    let history = choose|history: Seq<Ranking<T>>|
        records(history, before, after, choice, threshold, trials);
    if trials > 0 {
        assert(in_order(history, 0, choice, threshold));
    }
}

/// A run stops at the first population that reaches the threshold: where a
/// run of `trials` trials passes through a population after fewer trials,
/// that population has not reached it.
pub proof fn lemma_stops_at_first_to_reach<T: Evolvable>(
    before: Ranking<T>,
    between: Ranking<T>,
    after: Ranking<T>,
    choice: Choice<T>,
    threshold: Option<Fitness>,
    first: nat,
    second: nat,
)
    requires
        evolved(before, between, choice, threshold, first),
        evolved(between, after, choice, threshold, second),
        second > 0,
    ensures
        !meets(between, threshold),
{
    let tail = choose|history: Seq<Ranking<T>>|
        records(history, between, after, choice, threshold, second);
    assert(in_order(tail, 0, choice, threshold));
}

} // verus!
