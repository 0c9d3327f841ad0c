use wfc::{
    Dimensions, FrequencyHints, Pattern, RuleModel, RuleModelValidationError, SimpleBitSet, ALL_DIRECTIONS,
};

fn valid_model() -> RuleModel {
    let num_directions = ALL_DIRECTIONS.len();
    let mut adjadency_rules = vec![SimpleBitSet::new(2); 2 * num_directions];
    for direction in 0..num_directions {
        adjadency_rules[direction].set(1);
        adjadency_rules[num_directions + direction].set(0);
    }
    RuleModel {
        patterns: vec![pattern(0), pattern(1)],
        adjadency_rules,
        frequency_hints: FrequencyHints::new(vec![1, 1]),
        num_directions,
        pattern_dimensions: Dimensions::new([1, 1]).expect("1x1 is non-empty"),
    }
}

fn pattern(sample: u32) -> Pattern {
    Pattern { samples: vec![sample], width: 1, height: 1 }
}

fn errors_of(model: &RuleModel) -> Vec<RuleModelValidationError> {
    model.compile().expect_err("expected validation to fail").as_slice().to_vec()
}

#[test]
fn compiles_a_valid_model() {
    let compiled = valid_model().compile().expect("the model is valid");

    assert_eq!(compiled.num_patterns(), 2);
    assert_eq!(compiled.num_directions(), ALL_DIRECTIONS.len());
}

#[test]
fn rejects_a_model_with_no_patterns() {
    let mut model = valid_model();
    model.patterns.clear();

    assert!(errors_of(&model).contains(&RuleModelValidationError::NoPatterns));
}

#[test]
fn rejects_an_unsupported_direction_count() {
    let mut model = valid_model();
    model.num_directions = 6;

    assert!(errors_of(&model)
        .contains(&RuleModelValidationError::UnsupportedDirectionCount { found: 6, supported: 4 }));
}

#[test]
fn rejects_a_rule_table_of_the_wrong_length() {
    let mut model = valid_model();
    model.adjadency_rules.pop();

    assert!(errors_of(&model)
        .contains(&RuleModelValidationError::RuleTableShapeMismatch { expected: 8, found: 7 }));
}

#[test]
fn rejects_a_weight_count_that_does_not_match_the_patterns() {
    let mut model = valid_model();
    model.frequency_hints = FrequencyHints::new(vec![1]);

    assert!(errors_of(&model)
        .contains(&RuleModelValidationError::FrequencyCountMismatch { expected: 2, found: 1 }));
}

#[test]
fn rejects_a_zero_weight() {
    let mut model = valid_model();
    model.frequency_hints = FrequencyHints::new(vec![1, 0]);

    assert!(errors_of(&model).contains(&RuleModelValidationError::ZeroWeight { pattern: 1 }));
}

#[test]
fn accepts_a_pattern_with_no_allowed_neighbours() {
    let mut model = valid_model();
    model.adjadency_rules[2].clear(1);

    assert!(model.compile().is_ok());
}

#[test]
fn rejects_a_rule_referencing_an_unknown_pattern() {
    let mut model = valid_model();
    model.adjadency_rules[0].set(37);

    assert!(errors_of(&model).contains(&RuleModelValidationError::UnknownPatternReference {
        pattern: 0,
        direction: 0,
        referenced: 37,
    }));
}

#[test]
fn reports_every_structural_error_at_once() {
    let mut model = valid_model();
    model.patterns.clear();

    let errors = errors_of(&model);

    assert_eq!(errors.len(), 3);
    assert!(errors.contains(&RuleModelValidationError::NoPatterns));
    assert!(errors.contains(&RuleModelValidationError::RuleTableShapeMismatch { expected: 0, found: 8 }));
    assert!(errors.contains(&RuleModelValidationError::FrequencyCountMismatch { expected: 0, found: 2 }));
}

#[test]
fn does_not_run_content_checks_when_the_shape_is_wrong() {
    let mut model = valid_model();
    model.adjadency_rules.pop();
    model.frequency_hints = FrequencyHints::new(vec![1, 0]);

    let errors = errors_of(&model);

    assert!(!errors.contains(&RuleModelValidationError::ZeroWeight { pattern: 1 }));
}

#[test]
fn reports_content_errors_in_order() {
    let mut model = valid_model();
    model.frequency_hints = FrequencyHints::new(vec![0, 0]);
    model.adjadency_rules[5].set(9);

    let errors = errors_of(&model);

    assert_eq!(
        errors,
        vec![
            RuleModelValidationError::ZeroWeight { pattern: 0 },
            RuleModelValidationError::ZeroWeight { pattern: 1 },
            RuleModelValidationError::UnknownPatternReference { pattern: 1, direction: 1, referenced: 9 },
        ]
    );
    let failure = model.compile().expect_err("invalid");
    assert_eq!(failure.first(), &RuleModelValidationError::ZeroWeight { pattern: 0 });
}

#[test]
fn a_compiled_model_keeps_the_rules_and_weights() {
    let model = valid_model();
    let compiled = model.compile().expect("the model is valid");

    assert_eq!(compiled.adj_rules().len(), 8);
    assert_eq!(compiled.adj_rules()[0].members(), vec![1]);
    assert_eq!(compiled.adj_rules()[4].members(), vec![0]);
    assert_eq!(compiled.frequency_hints().weights, vec![1, 1]);
    assert_eq!(model.num_patterns(), 2);
}

#[test]
fn every_error_says_what_it_reports() {
    assert_eq!(RuleModelValidationError::NoPatterns.message(), "the model contains no patterns");
    assert_eq!(
        RuleModelValidationError::UnsupportedDirectionCount { found: 6, supported: 4 }.message(),
        "the model declares 6 directions, but the solver supports only 4"
    );
    assert_eq!(
        RuleModelValidationError::RuleTableShapeMismatch { expected: 8, found: 7 }.message(),
        "the rule table holds 7 entries, expected 8 (patterns x directions)"
    );
    assert_eq!(
        RuleModelValidationError::FrequencyCountMismatch { expected: 2, found: 1 }.message(),
        "the model holds 1 weights, expected 2"
    );
    assert_eq!(RuleModelValidationError::ZeroWeight { pattern: 10 }.message(), "pattern 10 has a weight of zero");
    assert_eq!(
        RuleModelValidationError::UnknownPatternReference { pattern: 0, direction: 3, referenced: 1037 }.message(),
        "pattern 0 allows unknown pattern 1037 in direction 3"
    );
}

#[test]
fn the_errors_are_listed_one_per_line() {
    let mut model = valid_model();
    model.frequency_hints = FrequencyHints::new(vec![0, 0]);

    let errors = model.compile().expect_err("invalid");

    assert_eq!(
        errors.message(),
        "the rule model is invalid:\n  - pattern 0 has a weight of zero\n  - pattern 1 has a weight of zero\n"
    );
}
