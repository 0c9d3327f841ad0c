//! Wave function collapse: the grid geometry, the pattern model that is learned from a
//! sampled input, the rule model that is checked before solving, and the steps of a
//! solver run (collapsing a cell, propagating what that rules out, retrying on a
//! contradiction), all with their contracts.

pub mod cell;
pub mod compiled_model;
pub mod dimensions;
pub mod direction;
pub mod pattern;
pub mod preprocessing;
pub mod random;
pub mod rule_model;
pub mod sampled;
pub mod simple_bit_set;
pub mod solution;
pub mod solver;
pub mod solver_run_configuration;
pub mod text;
pub mod wfc_state;

pub use crate::compiled_model::CompiledModel;
pub use crate::dimensions::Dimensions;
pub use crate::direction::{Direction, ALL_DIRECTIONS};
pub use crate::pattern::Pattern;
pub use crate::rule_model::{
    AdjadencyRules, FrequencyHints, RuleModel, RuleModelValidationError, RuleModelValidationErrors,
};
pub use crate::sampled::Sampled;
pub use crate::simple_bit_set::{SimpleBitSet, SimpleBitSetIterator};
pub use crate::preprocessing::{create_pattern_model, PatternError};
pub use crate::solution::Solution;
pub use crate::solver_run_configuration::{
    AttemptCount, ContradictionStrategy, SolverError, SolverRunConfiguration, SolverRunError,
};
