use frankenstein::{Evolvable, Experiment, ExperimentError, Fitness, Selection};
use rand::{Rng, SeedableRng, StdRng};

fn score(x: f64) -> Fitness {
    Fitness::from_bits(x.to_bits())
}

fn number(fitness: Fitness) -> f64 {
    f64::from_bits(fitness.to_bits())
}

fn seeded(seed: &[usize]) -> StdRng {
    SeedableRng::from_seed(seed)
}

/// A genome whose fitness is its value and whose child is a copy of the
/// mother, so that every child shows who its mother was.
#[derive(Clone, Debug, PartialEq)]
struct Echo {
    value: f64,
}

impl Evolvable for Echo {
    fn random(rng: &mut StdRng) -> Echo {
        Echo { value: 1.0 + rng.gen::<f64>() * 99.0 }
    }

    fn fitness(&self) -> Fitness {
        score(self.value)
    }

    fn mate(mother: &Echo, _father: &Echo, _rng: &mut StdRng) -> Echo {
        mother.clone()
    }
}

/// A genome like `Echo` whose child is a copy of the father.
#[derive(Clone, Debug, PartialEq)]
struct EchoFather {
    value: f64,
}

impl Evolvable for EchoFather {
    fn random(rng: &mut StdRng) -> EchoFather {
        EchoFather { value: 1.0 + rng.gen::<f64>() * 99.0 }
    }

    fn fitness(&self) -> Fitness {
        score(self.value)
    }

    fn mate(_mother: &EchoFather, father: &EchoFather, _rng: &mut StdRng) -> EchoFather {
        father.clone()
    }
}

/// A genome that climbs: the child is a little better than the better
/// parent.
#[derive(Clone, Debug, PartialEq)]
struct Climber {
    value: f64,
}

impl Evolvable for Climber {
    fn random(rng: &mut StdRng) -> Climber {
        Climber { value: rng.gen::<f64>() }
    }

    fn fitness(&self) -> Fitness {
        score(self.value)
    }

    fn mate(mother: &Climber, father: &Climber, rng: &mut StdRng) -> Climber {
        Climber { value: mother.value.max(father.value) + rng.gen::<f64>() }
    }
}

/// A genome whose value is drawn from one of a few tables.
#[derive(Clone, Debug, PartialEq)]
struct Pick<const TABLE: usize> {
    value: f64,
}

fn table(which: usize) -> Vec<f64> {
    match which {
        0 => vec![f64::NAN],
        1 => vec![f64::INFINITY, 3.0, 2.0],
        2 => vec![5.0, -1.0, f64::NEG_INFINITY],
        3 => vec![0.0],
        4 => vec![4e9],
        5 => vec![7.0, 7.0, 7.0, 1.0],
        6 => vec![2.5, 0.0],
        7 => vec![3.0, -0.0],
        _ => vec![1.0],
    }
}

impl<const TABLE: usize> Evolvable for Pick<TABLE> {
    fn random(rng: &mut StdRng) -> Self {
        let values = table(TABLE);
        Pick { value: values[rng.gen_range(0, values.len())] }
    }

    fn fitness(&self) -> Fitness {
        score(self.value)
    }

    fn mate(mother: &Self, _father: &Self, _rng: &mut StdRng) -> Self {
        mother.clone()
    }
}

/// A genome that is sound when made and whose children are not.
#[derive(Clone, Debug, PartialEq)]
struct Spoiled {
    value: f64,
}

impl Evolvable for Spoiled {
    fn random(rng: &mut StdRng) -> Spoiled {
        Spoiled { value: rng.gen::<f64>() }
    }

    fn fitness(&self) -> Fitness {
        score(self.value)
    }

    fn mate(_mother: &Spoiled, _father: &Spoiled, _rng: &mut StdRng) -> Spoiled {
        Spoiled { value: f64::NAN }
    }
}

/// A genome that chooses the last member of the population as both
/// parents.
#[derive(Clone, Debug, PartialEq)]
struct LastFirst {
    value: f64,
}

impl Evolvable for LastFirst {
    fn random(rng: &mut StdRng) -> LastFirst {
        LastFirst { value: rng.gen::<f64>() }
    }

    fn fitness(&self) -> Fitness {
        score(self.value)
    }

    fn mate(mother: &LastFirst, _father: &LastFirst, _rng: &mut StdRng) -> LastFirst {
        mother.clone()
    }

    fn selects_from_top_half() -> bool {
        false
    }

    fn select(population: &Vec<LastFirst>, _rng: &mut StdRng) -> (usize, usize) {
        (population.len() - 1, population.len() - 1)
    }
}

/// A genome that chooses a mother, or a father, that is not there.
#[derive(Clone, Debug, PartialEq)]
struct Astray<const MOTHER: bool> {
    value: f64,
}

impl<const MOTHER: bool> Evolvable for Astray<MOTHER> {
    fn random(rng: &mut StdRng) -> Self {
        Astray { value: rng.gen::<f64>() }
    }

    fn fitness(&self) -> Fitness {
        score(self.value)
    }

    fn mate(mother: &Self, _father: &Self, _rng: &mut StdRng) -> Self {
        mother.clone()
    }

    fn selects_from_top_half() -> bool {
        false
    }

    fn select(population: &Vec<Self>, _rng: &mut StdRng) -> (usize, usize) {
        if MOTHER {
            (population.len(), 0)
        } else {
            (0, population.len())
        }
    }
}

fn values<T: Evolvable>(experiment: &Experiment<T>) -> Vec<u64> {
    experiment.population().iter().map(|genome| genome.fitness().to_bits()).collect()
}

fn assert_ranked<T: Evolvable>(experiment: &Experiment<T>) {
    let population = experiment.population();
    let scores = experiment.scores();
    assert_eq!(population.len(), scores.len());
    assert!(population.len() > 0);
    for i in 0..population.len() {
        assert_eq!(population[i].fitness().to_bits(), scores[i].to_bits());
        assert!(!scores[i].is_nan());
    }
    for i in 1..population.len() {
        assert!(number(scores[i - 1]) >= number(scores[i]), "at {}", i);
        assert!(
            number(population[i - 1].fitness()) >= number(population[i].fitness()),
            "at {}",
            i
        );
    }
}

#[test]
fn new_experiment_has_the_size_asked_for_and_is_ranked() {
    for size in [1usize, 2, 3, 10, 33, 100] {
        let mut rng = seeded(&[size, 1]);
        let experiment: Experiment<Echo> = Experiment::new(size, &mut rng).unwrap();
        assert_eq!(experiment.population().len(), size);
        assert_eq!(experiment.size(), size);
        assert_ranked(&experiment);
    }
}

#[test]
fn new_experiment_of_size_zero_is_refused() {
    let mut rng = seeded(&[0]);
    let made: Result<Experiment<Echo>, ExperimentError> = Experiment::new(0, &mut rng);
    assert_eq!(made.err(), Some(ExperimentError::EmptyPopulation));
}

#[test]
fn new_experiment_on_scores_that_are_no_numbers_is_refused() {
    let mut rng = seeded(&[0]);
    let made: Result<Experiment<Pick<0>>, ExperimentError> = Experiment::new(4, &mut rng);
    assert_eq!(made.err(), Some(ExperimentError::NotComparable));
}

#[test]
fn trial_keeps_the_size_and_the_ranking() {
    for size in [1usize, 2, 5, 10, 31] {
        let mut rng = seeded(&[size, 2]);
        let mut experiment: Experiment<Climber> = Experiment::new(size, &mut rng).unwrap();
        for round in 0..20 {
            let select = match round % 4 {
                0 => None,
                1 => Some(Selection::TopFraction { divisor: 4 }),
                2 => Some(Selection::Weighted { death_rate: size / 2 + 1 }),
                _ => Some(Selection::TopFraction { divisor: 1 }),
            };
            assert_eq!(experiment.trial(&mut rng, select), Ok(()));
            assert_eq!(experiment.population().len(), size);
            assert_ranked(&experiment);
            assert_eq!(
                experiment.score().to_bits(),
                experiment.population()[0].fitness().to_bits()
            );
        }
    }
}

#[test]
fn children_of_the_top_half_have_mothers_in_the_top_half() {
    let mut rng = seeded(&[5, 5]);
    let mut experiment: Experiment<Echo> = Experiment::new(10, &mut rng).unwrap();
    let before = values(&experiment);
    experiment.trial(&mut rng, None).unwrap();
    for child in values(&experiment) {
        assert!(before[..5].contains(&child));
    }
    let mut distinct = values(&experiment);
    distinct.dedup();
    assert!(distinct.len() > 1);
}

#[test]
fn children_of_the_top_half_have_fathers_in_the_top_half() {
    let mut rng = seeded(&[5, 6]);
    let mut experiment: Experiment<EchoFather> = Experiment::new(10, &mut rng).unwrap();
    let before = values(&experiment);
    experiment.trial(&mut rng, None).unwrap();
    for child in values(&experiment) {
        assert!(before[..5].contains(&child));
    }
}

#[test]
fn the_genome_type_draws_from_the_top_half_unless_it_says_otherwise() {
    for size in [2usize, 3, 10, 15] {
        let mut rng = seeded(&[size, 6]);
        let mut experiment: Experiment<Echo> = Experiment::new(size, &mut rng).unwrap();
        let before = values(&experiment);
        experiment.trial(&mut rng, None).unwrap();
        for child in values(&experiment) {
            assert!(before[..size / 2].contains(&child));
        }
        let before = values(&experiment);
        experiment.trial(&mut rng, Some(Selection::ByGenome)).unwrap();
        for child in values(&experiment) {
            assert!(before[..size / 2].contains(&child));
        }
        let before = values(&experiment);
        experiment.trial(&mut rng, Some(Selection::top_half())).unwrap();
        for child in values(&experiment) {
            assert!(before[..size / 2].contains(&child));
        }
    }
}

#[test]
fn select_of_a_genome_type_without_a_policy_keeps_to_the_top_half() {
    let mut rng = seeded(&[6, 3]);
    for size in [1usize, 2, 3, 10, 15] {
        let population: Vec<Echo> = (0..size).map(|i| Echo { value: i as f64 }).collect();
        let top = if size / 2 == 0 { 1 } else { size / 2 };
        let mut mothers = vec![false; top];
        let mut fathers = vec![false; top];
        for _ in 0..300 {
            let (mother, father) = Echo::select(&population, &mut rng);
            assert!(mother < top && father < top);
            mothers[mother] = true;
            fathers[father] = true;
        }
        assert_eq!(mothers, vec![true; top]);
        assert_eq!(fathers, vec![true; top]);
    }
    assert_eq!(Echo::select(&Vec::new(), &mut rng), (0, 0));
}

#[test]
fn the_genome_type_chooses_its_parents() {
    let mut rng = seeded(&[6, 1]);
    let mut experiment: Experiment<LastFirst> = Experiment::new(8, &mut rng).unwrap();
    let before = values(&experiment);
    assert!(before[0] != before[7]);
    assert_eq!(experiment.trial(&mut rng, None), Ok(()));
    assert_eq!(values(&experiment), vec![before[7]; 8]);
    let mut other: Experiment<LastFirst> = Experiment::new(8, &mut rng).unwrap();
    let before = values(&other);
    assert_eq!(other.trial(&mut rng, Some(Selection::TopFraction { divisor: 8 })), Ok(()));
    assert_eq!(values(&other), vec![before[0]; 8]);
}

#[test]
fn a_parent_that_is_not_there_is_refused() {
    let mut rng = seeded(&[6, 2]);
    let mut experiment: Experiment<Astray<true>> = Experiment::new(4, &mut rng).unwrap();
    let before = values(&experiment);
    assert_eq!(experiment.trial(&mut rng, None), Err(ExperimentError::NoSuchParent));
    assert_eq!(values(&experiment), before);
    assert_eq!(experiment.run_trials(2, &mut rng), Err(ExperimentError::NoSuchParent));
    assert_eq!(values(&experiment), before);
    assert_eq!(experiment.trial(&mut rng, Some(Selection::top_half())), Ok(()));
    let mut other: Experiment<Astray<false>> = Experiment::new(4, &mut rng).unwrap();
    let before = values(&other);
    assert_eq!(other.trial(&mut rng, None), Err(ExperimentError::NoSuchParent));
    assert_eq!(values(&other), before);
}

#[test]
fn top_fraction_is_rounded_down_but_never_empty() {
    let mut rng = seeded(&[7, 7]);
    let mut experiment: Experiment<Echo> = Experiment::new(10, &mut rng).unwrap();
    let before = values(&experiment);
    experiment.trial(&mut rng, Some(Selection::TopFraction { divisor: 3 })).unwrap();
    for child in values(&experiment) {
        assert!(before[..3].contains(&child));
    }
    let before = values(&experiment);
    experiment.trial(&mut rng, Some(Selection::TopFraction { divisor: 11 })).unwrap();
    assert_eq!(values(&experiment), vec![before[0]; 10]);
    let mut single: Experiment<Echo> = Experiment::new(1, &mut rng).unwrap();
    let only = values(&single);
    single.trial(&mut rng, None).unwrap();
    assert_eq!(values(&single), only);
    single.trial(&mut rng, Some(Selection::top_half())).unwrap();
    assert_eq!(values(&single), only);
}

#[test]
fn top_fraction_with_divisor_one_draws_from_all() {
    let mut rng = seeded(&[8, 8]);
    let mut experiment: Experiment<Echo> = Experiment::new(4, &mut rng).unwrap();
    let before = values(&experiment);
    let mut seen = vec![false; 4];
    for _ in 0..50 {
        let mut copy: Experiment<Echo> = Experiment::new(4, &mut seeded(&[8, 8])).unwrap();
        assert_eq!(values(&copy), before);
        copy.trial(&mut rng, Some(Selection::TopFraction { divisor: 1 })).unwrap();
        for child in values(&copy) {
            let at = before.iter().position(|value| *value == child).unwrap();
            seen[at] = true;
        }
    }
    assert_eq!(seen, vec![true; 4]);
    experiment.trial(&mut rng, Some(Selection::TopFraction { divisor: 1 })).unwrap();
    assert_eq!(experiment.population().len(), 4);
}

#[test]
fn top_fraction_with_divisor_zero_is_refused() {
    let mut rng = seeded(&[9, 9]);
    let mut experiment: Experiment<Echo> = Experiment::new(6, &mut rng).unwrap();
    let before = values(&experiment);
    assert_eq!(
        experiment.trial(&mut rng, Some(Selection::TopFraction { divisor: 0 })),
        Err(ExperimentError::ZeroDivisor)
    );
    assert_eq!(values(&experiment), before);
}

#[test]
fn weighted_children_have_parents_before_the_death_rate() {
    let mut rng = seeded(&[3, 3]);
    let mut experiment: Experiment<Echo> = Experiment::new(10, &mut rng).unwrap();
    let before = values(&experiment);
    experiment.trial(&mut rng, Some(Selection::Weighted { death_rate: 3 })).unwrap();
    for child in values(&experiment) {
        assert!(before[..3].contains(&child));
    }
    let before = values(&experiment);
    experiment.trial(&mut rng, Some(Selection::Weighted { death_rate: 1 })).unwrap();
    assert_eq!(values(&experiment), vec![before[0]; 10]);
    let mut fathers: Experiment<EchoFather> = Experiment::new(10, &mut rng).unwrap();
    let before = values(&fathers);
    fathers.trial(&mut rng, Some(Selection::Weighted { death_rate: 2 })).unwrap();
    for child in values(&fathers) {
        assert!(before[..2].contains(&child));
    }
}

#[test]
fn weighted_drawing_prefers_the_heavier() {
    let mut rng = seeded(&[3, 4]);
    let mut heavy = 0;
    let mut light = 0;
    for round in 0..200 {
        let mut experiment: Experiment<Pick<5>> =
            Experiment::new(8, &mut seeded(&[round, 11])).unwrap();
        let before = values(&experiment);
        if before[0] == before[7] {
            continue;
        }
        experiment.trial(&mut rng, Some(Selection::Weighted { death_rate: 8 })).unwrap();
        for child in values(&experiment) {
            if number(Fitness::from_bits(child)) == 7.0 {
                heavy += 1;
            } else {
                light += 1;
            }
        }
    }
    assert!(heavy > 4 * light, "{} {}", heavy, light);
    assert!(light > 0);
}

#[test]
fn weighted_drawing_passes_over_weight_zero() {
    let mut rng = seeded(&[3, 5]);
    for round in 0..50 {
        let mut experiment: Experiment<Pick<6>> =
            Experiment::new(6, &mut seeded(&[round, 12])).unwrap();
        let before = values(&experiment);
        let outcome = experiment.trial(&mut rng, Some(Selection::Weighted { death_rate: 6 }));
        if number(Fitness::from_bits(before[0])) == 0.0 {
            assert_eq!(outcome, Err(ExperimentError::NoWeight));
            assert_eq!(values(&experiment), before);
        } else {
            assert_eq!(outcome, Ok(()));
            assert_eq!(values(&experiment), vec![score(2.5).to_bits(); 6]);
        }
    }
}

#[test]
fn weighted_drawing_with_death_rate_zero_is_refused() {
    let mut rng = seeded(&[4, 4]);
    let mut experiment: Experiment<Echo> = Experiment::new(5, &mut rng).unwrap();
    let before = values(&experiment);
    assert_eq!(
        experiment.trial(&mut rng, Some(Selection::Weighted { death_rate: 0 })),
        Err(ExperimentError::NoWeight)
    );
    assert_eq!(values(&experiment), before);
}

#[test]
fn weighted_drawing_on_zero_scores_is_refused() {
    let mut rng = seeded(&[4, 5]);
    let mut experiment: Experiment<Pick<3>> = Experiment::new(5, &mut rng).unwrap();
    assert_eq!(
        experiment.trial(&mut rng, Some(Selection::Weighted { death_rate: 5 })),
        Err(ExperimentError::NoWeight)
    );
    assert_eq!(experiment.trial(&mut rng, None), Ok(()));
}

#[test]
fn weighted_drawing_on_an_infinite_score_is_refused() {
    let mut rng = seeded(&[4, 6]);
    let mut experiment: Experiment<Pick<1>> = Experiment::new(40, &mut rng).unwrap();
    let before = values(&experiment);
    assert_eq!(number(experiment.score()), f64::INFINITY);
    assert_eq!(
        experiment.trial(&mut rng, Some(Selection::Weighted { death_rate: 1 })),
        Err(ExperimentError::NotFinite)
    );
    assert_eq!(values(&experiment), before);
    assert_eq!(experiment.trial(&mut rng, None), Ok(()));
}

#[test]
fn weighted_drawing_fails_as_the_first_score_without_a_weight_says() {
    let mut rng = seeded(&[4, 7]);
    let mut experiment: Experiment<Pick<2>> = Experiment::new(40, &mut rng).unwrap();
    let before = values(&experiment);
    let fives = before.iter().filter(|value| **value == score(5.0).to_bits()).count();
    let ones = before.iter().filter(|value| **value == score(-1.0).to_bits()).count();
    assert!(fives > 0 && ones > 0 && fives + ones < 40);
    assert_eq!(
        experiment.trial(&mut rng, Some(Selection::Weighted { death_rate: 40 })),
        Err(ExperimentError::Negative)
    );
    assert_eq!(
        experiment.trial(&mut rng, Some(Selection::Weighted { death_rate: fives + 1 })),
        Err(ExperimentError::Negative)
    );
    assert_eq!(values(&experiment), before);
    assert_eq!(
        experiment.trial(&mut rng, Some(Selection::Weighted { death_rate: fives })),
        Ok(())
    );
    assert_eq!(values(&experiment), vec![score(5.0).to_bits(); 40]);
}

#[test]
fn weighted_drawing_on_weights_beyond_32_bits_is_refused() {
    let mut rng = seeded(&[4, 8]);
    let mut experiment: Experiment<Pick<4>> = Experiment::new(3, &mut rng).unwrap();
    let before = values(&experiment);
    assert_eq!(
        experiment.trial(&mut rng, Some(Selection::Weighted { death_rate: 2 })),
        Err(ExperimentError::WeightOverflow)
    );
    assert_eq!(values(&experiment), before);
    assert_eq!(
        experiment.trial(&mut rng, Some(Selection::Weighted { death_rate: 1 })),
        Ok(())
    );
}

#[test]
fn trial_with_children_that_cannot_be_compared_changes_nothing() {
    let mut rng = seeded(&[6, 6]);
    let mut experiment: Experiment<Spoiled> = Experiment::new(5, &mut rng).unwrap();
    let before = values(&experiment);
    assert_eq!(experiment.trial(&mut rng, None), Err(ExperimentError::NotComparable));
    assert_eq!(values(&experiment), before);
    assert_eq!(experiment.run_trials(3, &mut rng), Err(ExperimentError::NotComparable));
    assert_eq!(
        experiment.run_until(3, &mut rng, Some(score(2.0)), None),
        Err(ExperimentError::NotComparable)
    );
    assert_eq!(values(&experiment), before);
    assert_ranked(&experiment);
}

#[test]
fn equal_seeds_give_equal_experiments() {
    let mut one_rng = seeded(&[42, 42]);
    let mut other_rng = seeded(&[42, 42]);
    let mut third_rng = seeded(&[42, 43]);
    let mut one: Experiment<Climber> = Experiment::new(12, &mut one_rng).unwrap();
    let mut other: Experiment<Climber> = Experiment::new(12, &mut other_rng).unwrap();
    let third: Experiment<Climber> = Experiment::new(12, &mut third_rng).unwrap();
    assert_eq!(one.population(), other.population());
    assert!(one.population() != third.population());
    for _ in 0..10 {
        one.trial(&mut one_rng, None).unwrap();
        other.trial(&mut other_rng, None).unwrap();
        assert_eq!(one.population(), other.population());
    }
}

#[test]
fn run_trials_is_as_many_trials_in_a_row() {
    for count in [0usize, 1, 2, 7] {
        let mut one_rng = seeded(&[count, 42]);
        let mut other_rng = seeded(&[count, 42]);
        let mut one: Experiment<Climber> = Experiment::new(9, &mut one_rng).unwrap();
        let mut other: Experiment<Climber> = Experiment::new(9, &mut other_rng).unwrap();
        assert_eq!(one.run_trials(count, &mut one_rng), Ok(()));
        for _ in 0..count {
            assert_eq!(other.trial(&mut other_rng, None), Ok(()));
        }
        assert_eq!(one.population(), other.population());
        assert_eq!(one_rng.gen::<u64>(), other_rng.gen::<u64>());
    }
}

#[test]
fn run_trials_of_none_changes_nothing() {
    let mut rng = seeded(&[1, 1]);
    let mut experiment: Experiment<Climber> = Experiment::new(9, &mut rng).unwrap();
    let before = values(&experiment);
    assert_eq!(experiment.run_trials(0, &mut rng), Ok(()));
    assert_eq!(values(&experiment), before);
}

#[test]
fn run_until_without_threshold_spends_the_budget() {
    let mut one_rng = seeded(&[2, 2]);
    let mut other_rng = seeded(&[2, 2]);
    let mut one: Experiment<Climber> = Experiment::new(9, &mut one_rng).unwrap();
    let mut other: Experiment<Climber> = Experiment::new(9, &mut other_rng).unwrap();
    assert_eq!(one.run_until(6, &mut one_rng, None, None), Ok(6));
    assert_eq!(other.run_trials(6, &mut other_rng), Ok(()));
    assert_eq!(one.population(), other.population());
    assert_eq!(one.run_until(0, &mut one_rng, None, None), Ok(0));
    assert_eq!(one.population(), other.population());
}

#[test]
fn run_until_runs_no_trial_when_the_threshold_is_reached() {
    let mut rng = seeded(&[3, 3]);
    let mut experiment: Experiment<Climber> = Experiment::new(9, &mut rng).unwrap();
    let before = values(&experiment);
    let best = experiment.score();
    assert_eq!(experiment.run_until(100, &mut rng, Some(best), None), Ok(0));
    assert_eq!(values(&experiment), before);
    assert_eq!(experiment.run_until(100, &mut rng, Some(score(-1.0)), None), Ok(0));
    assert_eq!(values(&experiment), before);
}

#[test]
fn run_until_stops_at_the_first_generation_that_reaches_the_threshold() {
    let threshold = 6.0;
    let mut one_rng = seeded(&[4, 4]);
    let mut other_rng = seeded(&[4, 4]);
    let mut one: Experiment<Climber> = Experiment::new(9, &mut one_rng).unwrap();
    let mut other: Experiment<Climber> = Experiment::new(9, &mut other_rng).unwrap();
    let trials = one.run_until(1000, &mut one_rng, Some(score(threshold)), None).unwrap();
    assert!(0 < trials && trials < 1000);
    assert!(number(one.score()) >= threshold);
    for _ in 0..trials {
        assert!(number(other.score()) < threshold);
        other.trial(&mut other_rng, None).unwrap();
    }
    assert_eq!(one.population(), other.population());
}

#[test]
fn run_until_stops_when_the_budget_is_spent() {
    let mut rng = seeded(&[5, 5]);
    let mut experiment: Experiment<Climber> = Experiment::new(9, &mut rng).unwrap();
    assert_eq!(experiment.run_until(2, &mut rng, Some(score(1e9)), None), Ok(2));
    assert!(number(experiment.score()) < 1e9);
    assert_eq!(experiment.run_until(5, &mut rng, Some(score(f64::NAN)), None), Ok(5));
}

#[test]
fn run_until_follows_the_policy_it_is_given() {
    let mut rng = seeded(&[6, 7]);
    let mut experiment: Experiment<Echo> = Experiment::new(10, &mut rng).unwrap();
    let before = values(&experiment);
    let select = Some(Selection::Weighted { death_rate: 1 });
    assert_eq!(experiment.run_until(3, &mut rng, None, select), Ok(3));
    assert_eq!(values(&experiment), vec![before[0]; 10]);
    assert_eq!(
        experiment.run_until(3, &mut rng, None, Some(Selection::Weighted { death_rate: 0 })),
        Err(ExperimentError::NoWeight)
    );
}

#[test]
fn an_experiment_follows_its_own_policy_unless_it_is_given_another() {
    let mut rng = seeded(&[10, 1]);
    let own = Selection::Weighted { death_rate: 1 };
    let mut experiment: Experiment<Echo> = Experiment::with_selection(10, own, &mut rng).unwrap();
    assert_eq!(experiment.selection(), own);
    assert_eq!(experiment.population().len(), 10);
    assert_ranked(&experiment);
    let before = values(&experiment);
    assert!(before[0] != before[1]);
    experiment.trial(&mut rng, Some(Selection::TopFraction { divisor: 5 })).unwrap();
    let after = values(&experiment);
    for child in after.iter() {
        assert!(before[..2].contains(child));
    }
    assert!(after[0] != after[9]);
    assert_eq!(experiment.selection(), own);
    experiment.trial(&mut rng, None).unwrap();
    assert_eq!(values(&experiment), vec![after[0]; 10]);
    assert_eq!(experiment.selection(), own);
}

#[test]
fn runs_follow_the_policy_of_the_experiment() {
    let mut rng = seeded(&[10, 2]);
    let own = Selection::TopFraction { divisor: 10 };
    let mut experiment: Experiment<Echo> = Experiment::with_selection(10, own, &mut rng).unwrap();
    let before = values(&experiment);
    assert_eq!(experiment.run_trials(2, &mut rng), Ok(()));
    assert_eq!(values(&experiment), vec![before[0]; 10]);
    let mut other: Experiment<Echo> = Experiment::with_selection(10, own, &mut rng).unwrap();
    let before = values(&other);
    assert_eq!(other.run_until(2, &mut rng, None, None), Ok(2));
    assert_eq!(values(&other), vec![before[0]; 10]);
    let refused = Selection::TopFraction { divisor: 0 };
    let mut third: Experiment<Echo> = Experiment::with_selection(10, refused, &mut rng).unwrap();
    assert_eq!(third.run_trials(2, &mut rng), Err(ExperimentError::ZeroDivisor));
    assert_eq!(third.run_until(2, &mut rng, None, None), Err(ExperimentError::ZeroDivisor));
    assert_eq!(third.run_until(2, &mut rng, None, Some(own)), Ok(2));
    assert_eq!(third.run_until(0, &mut rng, None, None), Ok(0));
}

#[test]
fn a_new_experiment_leaves_the_choice_to_the_genome_type() {
    let mut rng = seeded(&[10, 3]);
    let experiment: Experiment<Echo> = Experiment::new(4, &mut rng).unwrap();
    assert_eq!(experiment.selection(), Selection::ByGenome);
    let made: Result<Experiment<Echo>, ExperimentError> =
        Experiment::with_selection(0, Selection::top_half(), &mut rng);
    assert_eq!(made.err(), Some(ExperimentError::EmptyPopulation));
}

#[test]
fn reset_keeps_the_policy() {
    let mut rng = seeded(&[10, 4]);
    let own = Selection::Weighted { death_rate: 2 };
    let mut experiment: Experiment<Echo> = Experiment::with_selection(6, own, &mut rng).unwrap();
    let before = values(&experiment);
    experiment.reset(&mut rng).unwrap();
    assert!(values(&experiment) != before);
    assert_eq!(experiment.selection(), own);
    assert_eq!(experiment.population().len(), 6);
}

#[test]
fn reset_makes_a_new_population_of_the_same_size() {
    let mut rng = seeded(&[7, 7]);
    let mut experiment: Experiment<Climber> = Experiment::new(11, &mut rng).unwrap();
    experiment.run_trials(5, &mut rng).unwrap();
    assert!(number(experiment.score()) > 1.0);
    assert_eq!(experiment.reset(&mut rng), Ok(()));
    assert_eq!(experiment.population().len(), 11);
    assert!(number(experiment.score()) < 1.0);
    assert_ranked(&experiment);
    let mut again = seeded(&[7, 8]);
    let mut other: Experiment<Climber> = Experiment::new(11, &mut seeded(&[1])).unwrap();
    other.reset(&mut again).unwrap();
    let third: Experiment<Climber> = Experiment::new(11, &mut seeded(&[7, 8])).unwrap();
    assert_eq!(other.population(), third.population());
}

#[test]
fn result_is_the_first_genome() {
    let mut rng = seeded(&[8, 9]);
    let mut experiment: Experiment<Climber> = Experiment::new(5, &mut rng).unwrap();
    assert_eq!(experiment.result(), &experiment.population()[0]);
    experiment.run_trials(3, &mut rng).unwrap();
    assert_eq!(experiment.result(), &experiment.population()[0]);
    assert_eq!(number(experiment.score()), experiment.result().value);
}

fn the_best(_population: &Vec<Echo>, _rng: &mut StdRng) -> (usize, usize) {
    (0, 0)
}

fn the_last(population: &Vec<Echo>, _rng: &mut StdRng) -> (usize, usize) {
    (population.len() - 1, population.len() - 1)
}

fn behind_the_end(population: &Vec<Echo>, _rng: &mut StdRng) -> (usize, usize) {
    (0, population.len())
}

fn any_two(population: &Vec<Climber>, rng: &mut StdRng) -> (usize, usize) {
    (rng.gen_range(0, population.len()), rng.gen_range(0, population.len()))
}

#[test]
fn a_trial_takes_the_parents_that_the_function_chooses() {
    let mut rng = seeded(&[20, 1]);
    let mut experiment: Experiment<Echo> = Experiment::new(8, &mut rng).unwrap();
    let before = values(&experiment);
    assert!(before[0] != before[7]);
    assert_eq!(experiment.trial_by(&mut rng, &the_last), Ok(()));
    assert_eq!(values(&experiment), vec![before[7]; 8]);
    assert_ranked(&experiment);
    let mut other: Experiment<Echo> = Experiment::new(8, &mut rng).unwrap();
    let before = values(&other);
    assert_eq!(other.trial_by(&mut rng, &the_best), Ok(()));
    assert_eq!(values(&other), vec![before[0]; 8]);
    assert_eq!(other.selection(), Selection::ByGenome);
}

#[test]
fn a_trial_takes_a_closure_for_a_function() {
    let mut rng = seeded(&[20, 2]);
    let mut experiment: Experiment<Echo> = Experiment::new(8, &mut rng).unwrap();
    let before = values(&experiment);
    let place = 3;
    let third = |_population: &Vec<Echo>, _rng: &mut StdRng| (place, place);
    assert_eq!(experiment.trial_by(&mut rng, &third), Ok(()));
    assert_eq!(values(&experiment), vec![before[3]; 8]);
}

#[test]
fn a_function_that_chooses_a_parent_that_is_not_there_is_refused() {
    let mut rng = seeded(&[20, 3]);
    let mut experiment: Experiment<Echo> = Experiment::new(5, &mut rng).unwrap();
    let before = values(&experiment);
    assert_eq!(experiment.trial_by(&mut rng, &behind_the_end), Err(ExperimentError::NoSuchParent));
    assert_eq!(values(&experiment), before);
    assert_eq!(
        experiment.run_until_by(3, &mut rng, None, &behind_the_end),
        Err(ExperimentError::NoSuchParent)
    );
    assert_eq!(values(&experiment), before);
    assert_eq!(experiment.run_until_by(0, &mut rng, None, &behind_the_end), Ok(0));
}

#[test]
fn a_trial_by_function_with_children_that_cannot_be_compared_changes_nothing() {
    let mut rng = seeded(&[20, 4]);
    let mut experiment: Experiment<Spoiled> = Experiment::new(5, &mut rng).unwrap();
    let before = values(&experiment);
    let first = |_population: &Vec<Spoiled>, _rng: &mut StdRng| (0, 0);
    assert_eq!(experiment.trial_by(&mut rng, &first), Err(ExperimentError::NotComparable));
    assert_eq!(values(&experiment), before);
}

#[test]
fn a_run_by_function_is_as_many_trials_by_function_in_a_row() {
    let mut one_rng = seeded(&[20, 5]);
    let mut other_rng = seeded(&[20, 5]);
    let mut one: Experiment<Climber> = Experiment::new(9, &mut one_rng).unwrap();
    let mut other: Experiment<Climber> = Experiment::new(9, &mut other_rng).unwrap();
    assert_eq!(one.run_until_by(6, &mut one_rng, None, &any_two), Ok(6));
    for _ in 0..6 {
        assert_eq!(other.trial_by(&mut other_rng, &any_two), Ok(()));
        assert_ranked(&other);
    }
    assert_eq!(one.population(), other.population());
    assert_eq!(one.population().len(), 9);
}

#[test]
fn a_run_by_function_stops_at_the_threshold() {
    let threshold = 6.0;
    let mut one_rng = seeded(&[20, 6]);
    let mut other_rng = seeded(&[20, 6]);
    let mut one: Experiment<Climber> = Experiment::new(9, &mut one_rng).unwrap();
    let mut other: Experiment<Climber> = Experiment::new(9, &mut other_rng).unwrap();
    let trials = one.run_until_by(1000, &mut one_rng, Some(score(threshold)), &any_two).unwrap();
    assert!(0 < trials && trials < 1000);
    assert!(number(one.score()) >= threshold);
    for _ in 0..trials {
        assert!(number(other.score()) < threshold);
        other.trial_by(&mut other_rng, &any_two).unwrap();
    }
    assert_eq!(one.population(), other.population());
    let before = values(&one);
    assert_eq!(one.run_until_by(1000, &mut one_rng, Some(score(threshold)), &any_two), Ok(0));
    assert_eq!(values(&one), before);
}

#[test]
fn minus_zero_weighs_nothing_and_is_no_failure() {
    let mut rng = seeded(&[20, 7]);
    let mut experiment: Experiment<Pick<7>> = Experiment::new(30, &mut rng).unwrap();
    let before = values(&experiment);
    let threes = before.iter().filter(|value| **value == score(3.0).to_bits()).count();
    assert!(0 < threes && threes < 30);
    assert_eq!(before[29], score(-0.0).to_bits());
    assert_eq!(experiment.trial(&mut rng, Some(Selection::Weighted { death_rate: 30 })), Ok(()));
    assert_eq!(values(&experiment), vec![score(3.0).to_bits(); 30]);
}

#[test]
fn a_population_of_minus_zeros_has_no_weight() {
    let mut rng = seeded(&[20, 8]);
    let mut found = false;
    for round in 0..64 {
        let mut experiment: Experiment<Pick<7>> =
            Experiment::new(2, &mut seeded(&[round, 20])).unwrap();
        let before = values(&experiment);
        if before[0] == score(-0.0).to_bits() {
            found = true;
            assert_eq!(
                experiment.trial(&mut rng, Some(Selection::Weighted { death_rate: 2 })),
                Err(ExperimentError::NoWeight)
            );
            assert_eq!(values(&experiment), before);
        }
    }
    assert!(found);
}

#[test]
fn a_copy_of_an_experiment_goes_its_own_way() {
    let mut rng = seeded(&[20, 9]);
    let own = Selection::TopFraction { divisor: 3 };
    let mut experiment: Experiment<Climber> =
        Experiment::with_selection(9, own, &mut rng).unwrap();
    experiment.run_trials(2, &mut rng).unwrap();
    let mut copy = experiment.clone();
    assert_eq!(copy.population(), experiment.population());
    assert_eq!(values(&copy), values(&experiment));
    assert_eq!(copy.selection(), own);
    assert_eq!(copy.score().to_bits(), experiment.score().to_bits());
    assert_ranked(&copy);
    let before = values(&experiment);
    copy.run_trials(3, &mut rng).unwrap();
    assert_eq!(values(&experiment), before);
    assert!(values(&copy) != before);
    assert_ranked(&copy);
    assert_eq!(copy.population().len(), 9);
}
