//! An engine for evolutionary optimisation.
//!
//! The caller supplies a genome type that can be made at random, measured and
//! mated. The engine keeps a population of such genomes ranked by fitness,
//! draws parents, breeds the next generation and repeats until a budget of
//! trials is spent or a fitness threshold is reached.
//!
//! * [`genome`] holds what the engine asks of a genome type.
//! * [`fitness`] holds the scores by which genomes are ranked.
//! * [`ranking`] holds the order that the engine keeps its population in,
//!   and [`sorting`] finds it.
//! * [`selection`] holds the policies by which parents are chosen.
//! * [`experiment`] holds the engine itself, and [`evolution`] says what its
//!   trials and runs do to a population.
//! * [`entropy`] holds the draws from the random number generator.
//!
//! Randomness is never taken from the surroundings: every operation that
//! draws at random is handed the generator to draw from, so that a run can
//! be repeated from a seed.

pub mod entropy;
pub mod error;
pub mod evolution;
pub mod experiment;
pub mod fitness;
pub mod genome;
pub mod order;
pub mod ranking;
pub mod selection;
pub mod sorting;

pub use crate::error::ExperimentError;
pub use crate::experiment::Experiment;
pub use crate::fitness::Fitness;
pub use crate::genome::Evolvable;
pub use crate::order::rank;
pub use crate::selection::Selection;
