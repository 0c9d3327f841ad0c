use vstd::prelude::*;
use crate::rule_model::{AdjadencyRules, FrequencyHints};
use crate::simple_bit_set::SimpleBitSet;

verus! {

/// A rule model that passed validation, in the form the solver runs on.
#[derive(Debug)]
pub struct CompiledModel {
    adj_rules: AdjadencyRules,
    frequency_hints: FrequencyHints,
    num_patterns: usize,
    num_directions: usize,
}

impl CompiledModel {
    /// The rule table: the rule for pattern `p` and direction slot `d` at `p * 4 + d`.
    pub closed spec fn spec_adj_rules(&self) -> Seq<SimpleBitSet> {
        self.adj_rules@
    }

    /// The weight of each pattern.
    pub closed spec fn spec_weights(&self) -> Seq<u32> {
        self.frequency_hints.weights@
    }

    /// The number of patterns.
    pub closed spec fn spec_num_patterns(&self) -> nat {
        self.num_patterns as nat
    }

    /// The number of directions.
    pub closed spec fn spec_num_directions(&self) -> nat {
        self.num_directions as nat
    }

    /// A compiled model with these rules and weights; it has as many patterns as weights.
    pub fn new(adj_rules: AdjadencyRules, frequency_hints: FrequencyHints, num_directions: usize) -> (r: Self)
        ensures
            r.spec_adj_rules() == adj_rules@,
            r.spec_weights() == frequency_hints.weights@,
            r.spec_num_patterns() == frequency_hints.weights@.len(),
            r.spec_num_directions() == num_directions,
    {
        let num_patterns = frequency_hints.weights.len();
        CompiledModel { adj_rules, frequency_hints, num_patterns, num_directions }
    }

    /// The rule table.
    pub fn adj_rules(&self) -> (r: &AdjadencyRules)
        ensures
            r@ == self.spec_adj_rules(),
    {
        &self.adj_rules
    }

    /// The weights.
    pub fn frequency_hints(&self) -> (r: &FrequencyHints)
        ensures
            r.weights@ == self.spec_weights(),
    {
        &self.frequency_hints
    }

    /// The number of patterns.
    pub fn num_patterns(&self) -> (r: usize)
        ensures
            r == self.spec_num_patterns(),
    {
        self.num_patterns
    }

    /// The number of directions.
    pub fn num_directions(&self) -> (r: usize)
        ensures
            r == self.spec_num_directions(),
    {
        self.num_directions
    }
}

} // verus!
