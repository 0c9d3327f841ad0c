use vstd::prelude::*;
use crate::compiled_model::CompiledModel;
use crate::dimensions::Dimensions;
use crate::direction::NUM_DIRECTIONS;
use crate::pattern::Pattern;
use crate::simple_bit_set::{ascending, lemma_ascending_lists, SimpleBitSet};
use crate::text::{append_decimal, decimal};
use vstd::string::StringExecFns;

verus! {

/// For each pattern index, the set of pattern indices allowed next to it in each
/// direction: the rule for pattern `p` and direction slot `d` stands at `p * 4 + d`.
pub type AdjadencyRules = Vec<SimpleBitSet>;

/// How often each pattern occurs in the sample; the solver picks values in proportion
/// to these weights.
#[derive(PartialEq, Debug)]
pub struct FrequencyHints {
    pub weights: Vec<u32>,
}

impl Clone for FrequencyHints {
    fn clone(&self) -> (r: Self)
        ensures
            r.weights@ == self.weights@,
    {
        FrequencyHints { weights: self.weights.clone() }
    }
}

impl FrequencyHints {
    /// Frequency hints with the given weight per pattern.
    pub fn new(weights: Vec<u32>) -> (r: Self)
        ensures
            r.weights@ == weights@,
    {
        FrequencyHints { weights }
    }
}

/// Everything that a sampled input teaches the solver: the patterns, which may stand
/// next to which, and how often each occurs.
pub struct RuleModel {
    pub patterns: Vec<Pattern>,
    pub adjadency_rules: AdjadencyRules,
    pub frequency_hints: FrequencyHints,
    pub num_directions: usize,
    pub pattern_dimensions: Dimensions<2>,
}

/// One reason a [`RuleModel`] cannot be compiled.
#[derive(Debug, Clone, Copy, PartialEq, Eq, Structural)]
pub enum RuleModelValidationError {
    NoPatterns,
    UnsupportedDirectionCount { found: usize, supported: usize },
    RuleTableShapeMismatch { expected: usize, found: usize },
    FrequencyCountMismatch { expected: usize, found: usize },
    ZeroWeight { pattern: usize },
    UnknownPatternReference { pattern: usize, direction: usize, referenced: usize },
}

/// The sentence that says what `e` reports.
pub open spec fn validation_message(e: RuleModelValidationError) -> Seq<char> {
    match e {
        RuleModelValidationError::NoPatterns => "the model contains no patterns"@,
        RuleModelValidationError::UnsupportedDirectionCount { found, supported } => "the model declares "@
            + decimal(found as nat) + " directions, but the solver supports only "@ + decimal(supported as nat),
        RuleModelValidationError::RuleTableShapeMismatch { expected, found } => "the rule table holds "@ + decimal(
            found as nat,
        ) + " entries, expected "@ + decimal(expected as nat) + " (patterns x directions)"@,
        RuleModelValidationError::FrequencyCountMismatch { expected, found } => "the model holds "@ + decimal(
            found as nat,
        ) + " weights, expected "@ + decimal(expected as nat),
        RuleModelValidationError::ZeroWeight { pattern } => "pattern "@ + decimal(pattern as nat)
            + " has a weight of zero"@,
        RuleModelValidationError::UnknownPatternReference { pattern, direction, referenced } => "pattern "@
            + decimal(pattern as nat) + " allows unknown pattern "@ + decimal(referenced as nat)
            + " in direction "@ + decimal(direction as nat),
    }
}

impl RuleModelValidationError {
    /// A sentence that says what the error reports.
    pub fn message(&self) -> (r: String)
        ensures
            r@ == validation_message(*self),
    {
        match self {
            RuleModelValidationError::NoPatterns => String::from_str("the model contains no patterns"),
            RuleModelValidationError::UnsupportedDirectionCount { found, supported } => {
                let mut out = String::from_str("the model declares ");
                append_decimal(&mut out, *found);
                out.append(" directions, but the solver supports only ");
                append_decimal(&mut out, *supported);
                out
            },
            RuleModelValidationError::RuleTableShapeMismatch { expected, found } => {
                let mut out = String::from_str("the rule table holds ");
                append_decimal(&mut out, *found);
                out.append(" entries, expected ");
                append_decimal(&mut out, *expected);
                out.append(" (patterns x directions)");
                out
            },
            RuleModelValidationError::FrequencyCountMismatch { expected, found } => {
                let mut out = String::from_str("the model holds ");
                append_decimal(&mut out, *found);
                out.append(" weights, expected ");
                append_decimal(&mut out, *expected);
                out
            },
            RuleModelValidationError::ZeroWeight { pattern } => {
                let mut out = String::from_str("pattern ");
                append_decimal(&mut out, *pattern);
                out.append(" has a weight of zero");
                out
            },
            RuleModelValidationError::UnknownPatternReference { pattern, direction, referenced } => {
                let mut out = String::from_str("pattern ");
                append_decimal(&mut out, *pattern);
                out.append(" allows unknown pattern ");
                append_decimal(&mut out, *referenced);
                out.append(" in direction ");
                append_decimal(&mut out, *direction);
                out
            },
        }
    }
}

/// One line per error, each an indented dash and the error's sentence.
pub open spec fn error_lines(errors: Seq<RuleModelValidationError>) -> Seq<char>
    decreases errors.len(),
{
    if errors.len() == 0 {
        Seq::empty()
    } else {
        error_lines(errors.drop_last()) + "  - "@ + validation_message(errors.last()) + "\n"@
    }
}

/// Every reason a [`RuleModel`] could not be compiled; never empty.
#[derive(Debug, PartialEq, Eq)]
pub struct RuleModelValidationErrors(Vec<RuleModelValidationError>);

impl Clone for RuleModelValidationErrors {
    fn clone(&self) -> (r: Self)
        ensures
            r@ == self@,
    {
        proof {
            use_type_invariant(self);
        }
        let errors = self.0.clone();
        proof {
            assert(errors@ =~= self.0@);
        }
        RuleModelValidationErrors(errors)
    }
}

impl View for RuleModelValidationErrors {
    type V = Seq<RuleModelValidationError>;

    closed spec fn view(&self) -> Seq<RuleModelValidationError> {
        self.0@
    }
}

impl RuleModelValidationErrors {
    /// A validation failure reports at least one error.
    #[verifier::type_invariant]
    spec fn never_empty(self) -> bool {
        self.0@.len() > 0
    }

    /// The errors, which must be at least one.
    pub fn new(errors: Vec<RuleModelValidationError>) -> (r: Self)
        requires
            errors@.len() > 0,
        ensures
            r@ == errors@,
    {
        RuleModelValidationErrors(errors)
    }

    /// Every error, in the order in which they were found.
    pub fn as_slice(&self) -> (r: &[RuleModelValidationError])
        ensures
            r@ == self@,
            r@.len() > 0,
    {
        proof {
            use_type_invariant(self);
        }
        self.0.as_slice()
    }

    /// A heading line and then one line per error.
    pub fn message(&self) -> (r: String)
        ensures
            r@ == "the rule model is invalid:\n"@ + error_lines(self@),
    {
        let mut out = String::from_str("the rule model is invalid:\n");
        let mut k: usize = 0;
        while k < self.0.len()
            invariant
                0 <= k <= self@.len(),
                self@ == self.0@,
                out@ == "the rule model is invalid:\n"@ + error_lines(self@.subrange(0, k as int)),
            decreases self@.len() - k,
        {
            let line = self.0[k].message();
            out.append("  - ");
            out.append(line.as_str());
            out.append("\n");
            proof {
                let before = self@.subrange(0, k as int);
                let after = self@.subrange(0, k + 1);
                assert(after.drop_last() =~= before);
                assert(after.last() == self@[k as int]);
                assert(out@ =~= "the rule model is invalid:\n"@ + error_lines(after));
            }
            k += 1;
        }
        proof {
            assert(self@.subrange(0, self@.len() as int) =~= self@);
        }
        out
    }

    /// The first error found.
    pub fn first(&self) -> (r: &RuleModelValidationError)
        ensures
            self@.len() > 0,
            *r == self@[0],
    {
        proof {
            use_type_invariant(self);
        }
        &self.0[0]
    }
}

/// The errors in the shape of a model: no patterns, a direction count other than four,
/// a rule table that does not hold one rule per pattern and direction, a weight list
/// that does not hold one weight per pattern; in this order.
pub open spec fn shape_errors(m: RuleModel) -> Seq<RuleModelValidationError> {
    let np = m.patterns@.len();
    let nd = m.num_directions;
    let expected_rules = np * nd;
    (if np == 0 {
        seq![RuleModelValidationError::NoPatterns]
    } else {
        Seq::empty()
    }) + (if nd != NUM_DIRECTIONS {
        seq![
            RuleModelValidationError::UnsupportedDirectionCount {
                found: nd,
                supported: NUM_DIRECTIONS,
            },
        ]
    } else {
        Seq::empty()
    }) + (if m.adjadency_rules@.len() != expected_rules {
        seq![
            RuleModelValidationError::RuleTableShapeMismatch {
                expected: expected_rules as usize,
                found: m.adjadency_rules@.len() as usize,
            },
        ]
    } else {
        Seq::empty()
    }) + (if m.frequency_hints.weights@.len() != np {
        seq![
            RuleModelValidationError::FrequencyCountMismatch {
                expected: np as usize,
                found: m.frequency_hints.weights@.len() as usize,
            },
        ]
    } else {
        Seq::empty()
    })
}

/// A `ZeroWeight` error for each of the first `n` weights that is zero, in order.
pub open spec fn zero_weight_errors(weights: Seq<u32>, n: int) -> Seq<RuleModelValidationError>
    decreases n,
{
    if n <= 0 {
        Seq::empty()
    } else {
        zero_weight_errors(weights, n - 1) + if weights[n - 1] == 0 {
            seq![RuleModelValidationError::ZeroWeight { pattern: (n - 1) as usize }]
        } else {
            Seq::empty()
        }
    }
}

/// An `UnknownPatternReference` error for each of the first `k` members of the rule for
/// `pattern` and `direction` (listed in increasing order in `members`) that is not a
/// pattern index, in order.
pub open spec fn unknown_references(
    members: Seq<usize>,
    k: int,
    num_patterns: int,
    pattern: int,
    direction: int,
) -> Seq<RuleModelValidationError>
    decreases k,
{
    if k <= 0 {
        Seq::empty()
    } else {
        unknown_references(members, k - 1, num_patterns, pattern, direction) + if members[k - 1]
            >= num_patterns {
            seq![
                RuleModelValidationError::UnknownPatternReference {
                    pattern: pattern as usize,
                    direction: direction as usize,
                    referenced: members[k - 1],
                },
            ]
        } else {
            Seq::empty()
        }
    }
}

/// The reference errors of rule `q` of the table: the one for pattern `q / 4` and
/// direction slot `q % 4`.
pub open spec fn rule_errors(m: RuleModel, q: int) -> Seq<RuleModelValidationError> {
    let members = ascending(m.adjadency_rules@[q]@);
    unknown_references(
        members,
        members.len() as int,
        m.patterns@.len() as int,
        q / (m.num_directions as int),
        q % (m.num_directions as int),
    )
}

/// The reference errors of the first `n` rules of the table, in table order.
pub open spec fn reference_errors(m: RuleModel, n: int) -> Seq<RuleModelValidationError>
    decreases n,
{
    if n <= 0 {
        Seq::empty()
    } else {
        reference_errors(m, n - 1) + rule_errors(m, n - 1)
    }
}

/// The errors in the content of a well-shaped model: zero weights, then references to
/// patterns that do not exist.
pub open spec fn content_errors(m: RuleModel) -> Seq<RuleModelValidationError> {
    zero_weight_errors(m.frequency_hints.weights@, m.frequency_hints.weights@.len() as int)
        + reference_errors(m, m.adjadency_rules@.len() as int)
}

/// Every reason the model cannot be compiled: the shape errors if there are any, else
/// the content errors.
pub open spec fn validation_errors(m: RuleModel) -> Seq<RuleModelValidationError> {
    if shape_errors(m).len() > 0 {
        shape_errors(m)
    } else {
        content_errors(m)
    }
}

proof fn lemma_no_zero_weight_errors(weights: Seq<u32>, n: int)
    requires
        0 <= n <= weights.len(),
        forall|i: int| 0 <= i < n ==> #[trigger] weights[i] > 0,
    ensures
        zero_weight_errors(weights, n).len() == 0,
    decreases n,
{
    if n > 0 {
        lemma_no_zero_weight_errors(weights, n - 1);
    }
}

proof fn lemma_no_unknown_references(members: Seq<usize>, k: int, num_patterns: int, pattern: int, direction: int)
    requires
        0 <= k <= members.len(),
        forall|i: int| 0 <= i < k ==> #[trigger] members[i] < num_patterns,
    ensures
        unknown_references(members, k, num_patterns, pattern, direction).len() == 0,
    decreases k,
{
    if k > 0 {
        lemma_no_unknown_references(members, k - 1, num_patterns, pattern, direction);
    }
}

proof fn lemma_no_reference_errors(m: RuleModel, n: int)
    requires
        0 <= n <= m.adjadency_rules@.len(),
        m.patterns@.len() <= usize::MAX,
        forall|q: int, v: int|
            0 <= q < m.adjadency_rules@.len() && #[trigger] m.adjadency_rules@[q]@.contains(v) ==> 0 <= v
                < m.patterns@.len(),
    ensures
        reference_errors(m, n).len() == 0,
    decreases n,
{
    if n > 0 {
        lemma_no_reference_errors(m, n - 1);
        let q = n - 1;
        let set = m.adjadency_rules@[q]@;
        let np = m.patterns@.len() as int;
        lemma_ascending_lists(set, np);
        let members = ascending(set);
        assert forall|i: int| 0 <= i < members.len() implies #[trigger] members[i] < np by {
            assert(set.contains(members[i] as int));
        }
        lemma_no_unknown_references(
            members,
            members.len() as int,
            np,
            q / (m.num_directions as int),
            q % (m.num_directions as int),
        );
    }
}

/// A model passes validation when it has patterns, four directions, one rule per pattern
/// and direction and one weight per pattern, every weight is positive and every rule
/// names only patterns the model has.
pub proof fn lemma_valid_model(m: RuleModel)
    requires
        m.patterns@.len() > 0,
        m.patterns@.len() <= usize::MAX,
        m.num_directions == NUM_DIRECTIONS,
        m.adjadency_rules@.len() == m.patterns@.len() * NUM_DIRECTIONS,
        m.frequency_hints.weights@.len() == m.patterns@.len(),
        forall|i: int| 0 <= i < m.frequency_hints.weights@.len() ==> #[trigger] m.frequency_hints.weights@[i] > 0,
        forall|q: int, v: int|
            0 <= q < m.adjadency_rules@.len() && #[trigger] m.adjadency_rules@[q]@.contains(v) ==> 0 <= v
                < m.patterns@.len(),
    ensures
        validation_errors(m).len() == 0,
{
    assert(shape_errors(m).len() == 0);
    lemma_no_zero_weight_errors(m.frequency_hints.weights@, m.frequency_hints.weights@.len() as int);
    lemma_no_reference_errors(m, m.adjadency_rules@.len() as int);
}

/// Validation passes only a model that has patterns, four directions, one rule per pattern
/// and direction and one weight per pattern, whose weights are all positive and whose
/// rules, for every pattern and every direction, name only patterns the model has; the
/// converse of [`lemma_valid_model`]. Every rule's members lie below its capacity, which
/// a `usize` holds (what each `SimpleBitSet` keeps).
pub proof fn lemma_validation_passes_only_valid_models(m: RuleModel)
    requires
        validation_errors(m).len() == 0,
        forall|q: int, v: int|
            0 <= q < m.adjadency_rules@.len() && #[trigger] m.adjadency_rules@[q]@.contains(v) ==> 0 <= v
                < usize::MAX,
    ensures
        m.patterns@.len() > 0,
        m.num_directions == NUM_DIRECTIONS,
        m.adjadency_rules@.len() == m.patterns@.len() * NUM_DIRECTIONS,
        m.frequency_hints.weights@.len() == m.patterns@.len(),
        forall|i: int| 0 <= i < m.frequency_hints.weights@.len() ==> #[trigger] m.frequency_hints.weights@[i] > 0,
        forall|q: int, v: int|
            0 <= q < m.adjadency_rules@.len() && #[trigger] m.adjadency_rules@[q]@.contains(v) ==> 0 <= v
                < m.patterns@.len(),
{
    let np = m.patterns@.len() as int;
    assert(shape_errors(m).len() == 0);
    let zw = zero_weight_errors(m.frequency_hints.weights@, m.frequency_hints.weights@.len() as int);
    let re = reference_errors(m, m.adjadency_rules@.len() as int);
    assert(content_errors(m) == zw + re);
    assert(zw.len() == 0 && re.len() == 0);
    assert forall|i: int| 0 <= i < m.frequency_hints.weights@.len() implies #[trigger] m.frequency_hints.weights@[i] > 0 by {
        lemma_zero_weight_errors_found(m.frequency_hints.weights@, m.frequency_hints.weights@.len() as int, i);
    }
    assert forall|q: int, v: int|
        0 <= q < m.adjadency_rules@.len() && #[trigger] m.adjadency_rules@[q]@.contains(v) implies 0 <= v < np by {
        let set = m.adjadency_rules@[q]@;
        lemma_rule_errors_found(m, m.adjadency_rules@.len() as int, q);
        lemma_ascending_lists(set, usize::MAX as int);
        let members = ascending(set);
        let k = choose|k: int| 0 <= k < members.len() && members[k] as int == v;
        lemma_unknown_references_found(members, members.len() as int, np, q / (m.num_directions as int), q % (m.num_directions as int), k);
    }
}

/// A zero weight among the first `n` gives an error.
proof fn lemma_zero_weight_errors_found(weights: Seq<u32>, n: int, i: int)
    requires
        0 <= i < n,
        zero_weight_errors(weights, n).len() == 0,
    ensures
        weights[i] > 0,
    decreases n,
{
    if i < n - 1 {
        lemma_zero_weight_errors_found(weights, n - 1, i);
    }
}

/// Every rule among the first `n` whose errors are counted has none when there are none in all.
proof fn lemma_rule_errors_found(m: RuleModel, n: int, q: int)
    requires
        0 <= q < n,
        reference_errors(m, n).len() == 0,
    ensures
        rule_errors(m, q).len() == 0,
    decreases n,
{
    if q < n - 1 {
        lemma_rule_errors_found(m, n - 1, q);
    }
}

/// A member among the first `k` that is not a pattern index gives an error.
proof fn lemma_unknown_references_found(members: Seq<usize>, k: int, num_patterns: int, pattern: int, direction: int, i: int)
    requires
        0 <= i < k,
        unknown_references(members, k, num_patterns, pattern, direction).len() == 0,
    ensures
        members[i] < num_patterns,
    decreases k,
{
    if i < k - 1 {
        lemma_unknown_references_found(members, k - 1, num_patterns, pattern, direction, i);
    }
}

impl RuleModel {
    /// The number of patterns.
    pub fn num_patterns(&self) -> (r: usize)
        ensures
            r == self.patterns@.len(),
    {
        self.patterns.len()
    }

    /// Checks the model and, when it holds no error, copies it into a form the solver
    /// runs on. The shape is checked first; the content is checked only when the shape
    /// holds no error.
    pub fn compile(&self) -> (r: Result<CompiledModel, RuleModelValidationErrors>)
        requires
            self.patterns@.len() * self.num_directions <= usize::MAX,
            shape_errors(*self).len() == 0 ==> forall|q: int|
                0 <= q < self.adjadency_rules@.len() ==> (#[trigger] self.adjadency_rules@[q])@.len()
                    <= u32::MAX,
        ensures
            match r {
                Ok(c) => {
                    &&& validation_errors(*self).len() == 0
                    &&& forall|i: int|
                        0 <= i < self.frequency_hints.weights@.len() ==> #[trigger] self.frequency_hints.weights@[i] > 0
                    &&& forall|q: int, v: int|
                        0 <= q < self.adjadency_rules@.len() && #[trigger] self.adjadency_rules@[q]@.contains(v)
                            ==> 0 <= v < self.patterns@.len()
                    &&& c.spec_adj_rules().len() == self.adjadency_rules@.len()
                    &&& forall|q: int|
                        0 <= q < self.adjadency_rules@.len() ==> (#[trigger] c.spec_adj_rules()[q])@
                            == self.adjadency_rules@[q]@ && c.spec_adj_rules()[q].capacity()
                            == self.adjadency_rules@[q].capacity()
                    &&& c.spec_weights() == self.frequency_hints.weights@
                    &&& c.spec_num_patterns() == self.patterns@.len()
                    &&& c.spec_num_directions() == self.num_directions
                },
                Err(e) => e@ == validation_errors(*self) && e@.len() > 0,
            },
    {
        let structural = self.validate_shape();
        if structural.len() != 0 {
            return Err(RuleModelValidationErrors::new(structural));
        }
        let content = self.validate_content();
        if content.len() != 0 {
            return Err(RuleModelValidationErrors::new(content));
        }
        let adj_rules = clone_rules(&self.adjadency_rules);
        Ok(CompiledModel::new(adj_rules, self.frequency_hints.clone(), self.num_directions))
    }

    /// The shape errors of the model.
    pub fn validate_shape(&self) -> (r: Vec<RuleModelValidationError>)
        requires
            self.patterns@.len() * self.num_directions <= usize::MAX,
        ensures
            r@ == shape_errors(*self),
    {
        let num_patterns = self.num_patterns();
        let mut errors: Vec<RuleModelValidationError> = Vec::new();
        if num_patterns == 0 {
            errors.push(RuleModelValidationError::NoPatterns);
        }
        if self.num_directions != NUM_DIRECTIONS {
            errors.push(
                RuleModelValidationError::UnsupportedDirectionCount {
                    found: self.num_directions,
                    supported: NUM_DIRECTIONS,
                },
            );
        }
        let expected_rules = num_patterns * self.num_directions;
        if self.adjadency_rules.len() != expected_rules {
            errors.push(
                RuleModelValidationError::RuleTableShapeMismatch {
                    expected: expected_rules,
                    found: self.adjadency_rules.len(),
                },
            );
        }
        if self.frequency_hints.weights.len() != num_patterns {
            errors.push(
                RuleModelValidationError::FrequencyCountMismatch {
                    expected: num_patterns,
                    found: self.frequency_hints.weights.len(),
                },
            );
        }
        proof {
            assert(errors@ =~= shape_errors(*self));
        }
        errors
    }

    /// The content errors of a model whose shape holds no error.
    pub fn validate_content(&self) -> (r: Vec<RuleModelValidationError>)
        requires
            shape_errors(*self).len() == 0,
            forall|q: int|
                0 <= q < self.adjadency_rules@.len() ==> (#[trigger] self.adjadency_rules@[q])@.len()
                    <= u32::MAX,
        ensures
            r@ == content_errors(*self),
            r@.len() == 0 ==> forall|i: int|
                0 <= i < self.frequency_hints.weights@.len() ==> #[trigger] self.frequency_hints.weights@[i] > 0,
            r@.len() == 0 ==> forall|q: int, v: int|
                0 <= q < self.adjadency_rules@.len() && #[trigger] self.adjadency_rules@[q]@.contains(v) ==> 0 <= v
                    < self.patterns@.len(),
    {
        let num_patterns = self.num_patterns();
        let nd = self.num_directions;
        let mut errors: Vec<RuleModelValidationError> = Vec::new();
        let weights = &self.frequency_hints.weights;
        let mut pattern: usize = 0;
        proof {
            assert(nd == NUM_DIRECTIONS);
            assert(self.adjadency_rules@.len() == num_patterns * nd);
            assert(weights@.len() == num_patterns);
        }
        while pattern < weights.len()
            invariant
                0 <= pattern <= weights@.len(),
                errors@ == zero_weight_errors(weights@, pattern as int),
            decreases weights@.len() - pattern,
        {
            if weights[pattern] == 0 {
                errors.push(RuleModelValidationError::ZeroWeight { pattern });
            }
            pattern += 1;
        }
        let ghost base = errors@;
        let table_len = self.adjadency_rules.len();
        let mut pattern: usize = 0;
        while pattern < num_patterns
            invariant
                0 <= pattern <= num_patterns,
                num_patterns == self.patterns@.len(),
                nd == self.num_directions,
                nd == NUM_DIRECTIONS,
                self.adjadency_rules@.len() == num_patterns * nd,
                table_len == self.adjadency_rules@.len(),
                forall|q: int|
                    0 <= q < self.adjadency_rules@.len() ==> (#[trigger] self.adjadency_rules@[q])@.len()
                        <= u32::MAX,
                errors@ == base + reference_errors(*self, pattern * nd),
                forall|q: int, v: int|
                    0 <= q < pattern * nd && #[trigger] self.adjadency_rules@[q]@.contains(v) ==> 0 <= v < usize::MAX,
            decreases num_patterns - pattern,
        {
            let mut direction: usize = 0;
            while direction < nd
                invariant
                    0 <= direction <= nd,
                    0 <= pattern < num_patterns,
                    num_patterns == self.patterns@.len(),
                    nd == self.num_directions,
                    nd == NUM_DIRECTIONS,
                    self.adjadency_rules@.len() == num_patterns * nd,
                    table_len == self.adjadency_rules@.len(),
                    forall|q: int|
                        0 <= q < self.adjadency_rules@.len() ==> (#[trigger] self.adjadency_rules@[q])@.len()
                            <= u32::MAX,
                    errors@ == base + reference_errors(*self, pattern * nd + direction),
                    forall|q: int, v: int|
                        0 <= q < pattern * nd + direction && #[trigger] self.adjadency_rules@[q]@.contains(v) ==> 0 <= v
                            < usize::MAX,
                decreases nd - direction,
            {
                proof {
                    assert((pattern as int) * (nd as int) + (direction as int) < (num_patterns as int) * (nd as int)) by (nonlinear_arith)
                        requires
                            pattern < num_patterns,
                            direction < nd,
                    ;
                }
                let q = pattern * nd + direction;
                let rule = &self.adjadency_rules[q];
                proof {
                    assert((q as int) / (nd as int) == pattern as int && (q as int) % (nd as int) == direction as int) by {
                        vstd::arithmetic::div_mod::lemma_fundamental_div_mod_converse(
                            q as int,
                            nd as int,
                            pattern as int,
                            direction as int,
                        );
                    }
                }
                let ghost before = errors@;
                let rule_size = rule.count();
                proof {
                    SimpleBitSet::lemma_members_bounded(rule);
                }
                if rule_size != 0 {
                    let members = rule.members();
                    let mut k: usize = 0;
                    while k < members.len()
                        invariant
                            0 <= k <= members@.len(),
                            members@ == ascending(rule@),
                            errors@ == before + unknown_references(
                                members@,
                                k as int,
                                num_patterns as int,
                                pattern as int,
                                direction as int,
                            ),
                        decreases members@.len() - k,
                    {
                        let referenced = members[k];
                        if referenced >= num_patterns {
                            errors.push(
                                RuleModelValidationError::UnknownPatternReference {
                                    pattern,
                                    direction,
                                    referenced,
                                },
                            );
                        }
                        proof {
                            assert(errors@ =~= before + unknown_references(
                                members@,
                                k + 1,
                                num_patterns as int,
                                pattern as int,
                                direction as int,
                            ));
                        }
                        k += 1;
                    }
                    proof {
                        assert(errors@ =~= base + reference_errors(*self, q + 1));
                    }
                } else {
                    proof {
                        SimpleBitSet::lemma_members_bounded(rule);
                        assert(rule@ =~= Set::<int>::empty());
                        let members = ascending(rule@);
                        let e = Seq::<usize>::empty();
                        assert(crate::simple_bit_set::lists_in_order(e, rule@));
                        crate::simple_bit_set::lemma_lists_in_order_unique(e, members, rule@);
                        assert(errors@ =~= base + reference_errors(*self, q + 1));
                    }
                }
                direction += 1;
            }
            proof {
                assert(pattern * nd + nd == (pattern + 1) * nd) by (nonlinear_arith);
            }
            pattern += 1;
        }
        proof {
            assert(errors@ =~= content_errors(*self));
            assert(shape_errors(*self).len() == 0);
            if errors@.len() == 0 {
                lemma_validation_passes_only_valid_models(*self);
            }
        }
        errors
    }
}

/// A copy of each rule, holding the same members with the same capacity.
fn clone_rules(rules: &Vec<SimpleBitSet>) -> (r: Vec<SimpleBitSet>)
    ensures
        r@.len() == rules@.len(),
        forall|q: int|
            0 <= q < rules@.len() ==> (#[trigger] r@[q])@ == rules@[q]@ && r@[q].capacity()
                == rules@[q].capacity(),
{
    let mut out: Vec<SimpleBitSet> = Vec::with_capacity(rules.len());
    let mut q: usize = 0;
    while q < rules.len()
        invariant
            0 <= q <= rules@.len(),
            out@.len() == q,
            forall|i: int|
                0 <= i < q ==> (#[trigger] out@[i])@ == rules@[i]@ && out@[i].capacity()
                    == rules@[i].capacity(),
        decreases rules@.len() - q,
    {
        out.push(rules[q].clone());
        q += 1;
    }
    out
}

} // verus!
