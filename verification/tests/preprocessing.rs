use wfc::preprocessing::{find_patterns, recognize_adjadency_rules};
use wfc::{create_pattern_model, Dimensions, Direction, PatternError, Sampled};

const SAMPLE_VALUES: [u32; 9] = [0, 1, 2, 2, 0, 1, 1, 2, 0];

fn sample_3x3() -> Sampled<u32, 2> {
    let dimensions = Dimensions::new([3, 3]).expect("3x3 is non-empty");
    Sampled::from_fn(dimensions, |coord| SAMPLE_VALUES[dimensions.index_of(coord)])
}

#[test]
fn extracts_a_pattern_that_fills_the_input() {
    let pattern_dimensions = Dimensions::new([3, 3]).expect("3x3 is non-empty");
    let sampled_input = sample_3x3();

    let (patterns, _) = find_patterns(&pattern_dimensions, &sampled_input).expect("3x3 fits");

    assert!(patterns.iter().any(|p| p.samples == SAMPLE_VALUES));
}

#[test]
fn rejects_a_pattern_larger_than_the_input() {
    let pattern_dimensions = Dimensions::new([4, 4]).expect("4x4 is non-empty");
    let sampled_input = sample_3x3();

    let result = find_patterns(&pattern_dimensions, &sampled_input);

    assert_eq!(result.err(), Some(PatternError::PatternLargerThanInput));
}

#[test]
fn rejects_a_pattern_larger_than_the_input_on_one_axis() {
    let sampled_input = sample_3x3();

    for lengths in [[4, 2], [2, 4]] {
        let pattern_dimensions = Dimensions::new(lengths).expect("non-empty");

        let result = find_patterns(&pattern_dimensions, &sampled_input);

        assert_eq!(result.err(), Some(PatternError::PatternLargerThanInput));
    }
}

#[test]
fn pattern_order_is_deterministic() {
    let pattern_dimensions = Dimensions::new([2, 2]).expect("2x2 is non-empty");
    let sampled_input = sample_3x3();
    let (test_patterns, test_frequencies) = find_patterns(&pattern_dimensions, &sampled_input).expect("2x2 fits");

    assert!(test_patterns.len() > 1);

    for _ in 0..5 {
        let (patterns, frequencies) = find_patterns(&pattern_dimensions, &sampled_input).expect("2x2 fits");

        assert!(test_patterns == patterns);
        assert_eq!(test_frequencies, frequencies);
    }
}

#[test]
fn a_uniform_input_yields_one_pattern_weighted_by_every_variant() {
    let dimensions = Dimensions::new([3, 2]).unwrap();
    let sampled_input = Sampled::from_fn(dimensions, |_| 5u32);
    let pattern_dimensions = Dimensions::new([2, 2]).unwrap();

    let (patterns, frequencies) = find_patterns(&pattern_dimensions, &sampled_input).expect("fits");

    assert_eq!(patterns.len(), 1);
    assert_eq!(patterns[0].samples, vec![0, 0, 0, 0]);
    // Two windows, eight variants each.
    assert_eq!(frequencies.weights, vec![16]);
}

#[test]
fn patterns_come_out_sorted_and_distinct() {
    let pattern_dimensions = Dimensions::new([2, 2]).unwrap();
    let (patterns, frequencies) = find_patterns(&pattern_dimensions, &sample_3x3()).expect("fits");

    for pair in patterns.windows(2) {
        assert!(pair[0].samples < pair[1].samples);
    }
    let total: u32 = frequencies.weights.iter().sum();
    // Four windows, eight variants each.
    assert_eq!(total, 32);
    assert_eq!(frequencies.weights.len(), patterns.len());
}

#[test]
fn rules_hold_the_compatible_neighbours() {
    let pattern_dimensions = Dimensions::new([2, 2]).unwrap();
    let (patterns, _) = find_patterns(&pattern_dimensions, &sample_3x3()).expect("fits");

    let rules = recognize_adjadency_rules(&patterns);

    assert_eq!(rules.len(), patterns.len() * 4);
    for p in 0..patterns.len() {
        for slot in 0..4 {
            let direction = Direction::from_index(slot);
            for q in 0..patterns.len() {
                assert_eq!(rules[p * 4 + slot].contains(q), patterns[p].compatible(&patterns[q], &direction));
            }
        }
    }
}

#[test]
fn a_learned_model_compiles() {
    let pattern_dimensions = Dimensions::new([2, 2]).unwrap();
    let model = create_pattern_model(&sample_3x3(), &pattern_dimensions).expect("fits");

    assert_eq!(model.num_directions, 4);
    assert_eq!(model.pattern_dimensions, pattern_dimensions);
    let compiled = model.compile().expect("a learned model is valid");
    assert_eq!(compiled.num_patterns(), model.patterns.len());
}

#[test]
fn create_pattern_model_rejects_a_pattern_larger_than_the_input() {
    let pattern_dimensions = Dimensions::new([4, 1]).unwrap();

    let result = create_pattern_model(&sample_3x3(), &pattern_dimensions);

    assert!(matches!(result, Err(PatternError::PatternLargerThanInput)));
}

#[test]
fn extraction_needs_patterns_no_wider_than_tall() {
    let input = sample_3x3();

    assert!(wfc::preprocessing::is_extractable(&input, &Dimensions::new([2, 2]).unwrap()));
    assert!(wfc::preprocessing::is_extractable(&input, &Dimensions::new([1, 3]).unwrap()));
    assert!(!wfc::preprocessing::is_extractable(&input, &Dimensions::new([3, 1]).unwrap()));
    // A pattern larger than the input is refused by extraction itself, with an error.
    assert!(wfc::preprocessing::is_extractable(&input, &Dimensions::new([4, 4]).unwrap()));
}

#[test]
fn every_learned_weight_is_positive_and_they_count_every_variant() {
    let dimensions = Dimensions::new([4, 3]).unwrap();
    let input = Sampled::from_fn(dimensions, |[x, y]| (x * y) % 3);
    let pattern_dimensions = Dimensions::new([2, 2]).unwrap();

    let (patterns, frequencies) = find_patterns(&pattern_dimensions, &input).expect("fits");

    assert!(frequencies.weights.iter().all(|w| *w >= 1));
    // Three by two windows, eight variants each.
    assert_eq!(frequencies.weights.iter().sum::<u32>(), 48);
    assert_eq!(find_patterns(&pattern_dimensions, &input).expect("fits"), (patterns, frequencies));
}
