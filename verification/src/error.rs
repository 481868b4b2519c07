//! The ways in which an operation of the engine can fail.

use vstd::prelude::*;

verus! {

/// Why an operation of the engine gave up.
///
/// Every failure is reported by the call that met it, and a call that fails
/// leaves the experiment as it found it.
#[derive(Clone, Copy, Debug, PartialEq, Eq, Structural)]
pub enum ExperimentError {
    /// A population of size zero was asked for.
    EmptyPopulation,
    /// A genome reported a fitness that cannot be compared with others.
    NotComparable,
    /// A fitness that was to serve as a sampling weight is infinite.
    NotFinite,
    /// A fitness that was to serve as a sampling weight is below zero.
    Negative,
    /// No candidate has a positive sampling weight, so nobody can be drawn.
    NoWeight,
    /// The sampling weights add up to more than 32 bits can hold.
    WeightOverflow,
    /// A top fraction of the population was asked for with divisor zero.
    ZeroDivisor,
    /// A genome type chose a parent at a place behind the end of the
    /// population.
    NoSuchParent,
}

impl ExperimentError {
    /// The diagnostic of each failure.
    pub open spec fn diagnostic(self) -> Seq<char> {
        match self {
            ExperimentError::EmptyPopulation => "size must be positive"@,
            ExperimentError::NotComparable => "fitness must be a comparable number"@,
            ExperimentError::NotFinite => "fitness used as a weight is not finite"@,
            ExperimentError::Negative => "fitness used as a weight must be non-negative"@,
            ExperimentError::NoWeight => "the total weight of the candidates is zero"@,
            ExperimentError::WeightOverflow =>
                "the total weight of the candidates exceeds 32 bits"@,
            ExperimentError::ZeroDivisor => "the divisor of a top fraction must be positive"@,
            ExperimentError::NoSuchParent => "a parent was chosen that is not in the population"@,
        }
    }

    /// The diagnostic as text, for a caller to print.
    pub fn message(&self) -> (text: &'static str)
        ensures
            text@ == self.diagnostic(),
    {
        match self {
            ExperimentError::EmptyPopulation => "size must be positive",
            ExperimentError::NotComparable => "fitness must be a comparable number",
            ExperimentError::NotFinite => "fitness used as a weight is not finite",
            ExperimentError::Negative => "fitness used as a weight must be non-negative",
            ExperimentError::NoWeight => "the total weight of the candidates is zero",
            ExperimentError::WeightOverflow => "the total weight of the candidates exceeds 32 bits",
            ExperimentError::ZeroDivisor => "the divisor of a top fraction must be positive",
            ExperimentError::NoSuchParent => "a parent was chosen that is not in the population",
        }
    }
}

} // verus!
