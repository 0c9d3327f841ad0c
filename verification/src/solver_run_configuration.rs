use vstd::prelude::*;
use crate::dimensions::Dimensions;

verus! {

/// A number of attempts that is at least one.
#[derive(Clone, Copy, Debug, PartialEq, Eq)]
pub struct AttemptCount(u32);

impl View for AttemptCount {
    type V = u32;

    closed spec fn view(&self) -> u32 {
        self.0
    }
}

impl AttemptCount {
    #[verifier::type_invariant]
    spec fn is_positive(self) -> bool {
        self.0 > 0
    }

    /// The count `n`; `None` when `n` is zero.
    pub fn new(n: u32) -> (r: Option<AttemptCount>)
        ensures
            r is Some <==> n > 0,
            r matches Some(c) ==> c@ == n,
    {
        if n == 0 {
            None
        } else {
            Some(AttemptCount(n))
        }
    }

    /// The count, which is never zero.
    pub fn get(&self) -> (r: u32)
        ensures
            r == self@,
            r > 0,
    {
        proof {
            use_type_invariant(self);
        }
        self.0
    }
}

/// What the solver does when a run ends in a contradiction.
#[derive(Clone, Copy, Debug, PartialEq, Eq)]
pub enum ContradictionStrategy {
    /// Give up after the first run.
    Fail,
    /// Run again with the next seed, up to `max_attempts` runs in all.
    Retry { max_attempts: AttemptCount },
}

/// How many runs a strategy allows.
pub open spec fn attempt_limit(strategy: ContradictionStrategy) -> nat {
    match strategy {
        ContradictionStrategy::Fail => 1,
        ContradictionStrategy::Retry { max_attempts } => max_attempts@ as nat,
    }
}

/// Why solving failed.
#[derive(Debug, Clone, PartialEq, Eq, Structural)]
pub enum SolverError {
    /// Every run the strategy allowed ended in a contradiction.
    AttemptsExhausted,
}

impl SolverError {
    /// A sentence that says what went wrong.
    pub fn message(&self) -> (r: &'static str)
        ensures
            r@ == "Maximum number of retries was reached."@,
    {
        match self {
            SolverError::AttemptsExhausted => "Maximum number of retries was reached.",
        }
    }
}

/// Why a single solver run failed.
#[derive(Debug, Clone, PartialEq, Eq, Structural)]
pub enum SolverRunError {
    /// Some cell was left with no possible pattern.
    Contradiction,
}

impl SolverRunError {
    /// A sentence that says what went wrong.
    pub fn message(&self) -> (r: &'static str)
        ensures
            r@ == "Solver run ran into a contradiction!"@,
    {
        match self {
            SolverRunError::Contradiction => "Solver run ran into a contradiction!",
        }
    }
}

/// What a solver run produces and how: the output extent, the seed of the random
/// choices, and what to do on a contradiction.
pub struct SolverRunConfiguration {
    pub output_dimensions: Dimensions<2>,
    pub seed: u64,
    pub contradiction_strategy: ContradictionStrategy,
}

} // verus!
