use wfc::{Dimensions, FrequencyHints, Pattern, RuleModel, Sampled, Solution};

const SAMPLE_VALUES: [u32; 9] = [0, 1, 2, 2, 0, 1, 1, 2, 0];

fn sample_3x3() -> Sampled<u32, 2> {
    let dimensions = Dimensions::new([3, 3]).expect("3x3 is non-empty");
    Sampled::from_fn(dimensions, |coord| SAMPLE_VALUES[dimensions.index_of(coord)])
}

#[test]
fn interns_values_in_first_seen_order() {
    let sampled = sample_3x3();

    assert_eq!(sampled.palette(), &[0, 1, 2]);
    assert_eq!(sampled.indices(), &SAMPLE_VALUES[..]);
}

#[test]
fn visits_coordinates_in_index_order() {
    let dimensions = Dimensions::new([3, 2]).expect("3x2 is non-empty");
    let mut visited = Vec::new();

    Sampled::from_fn(dimensions, |coord| {
        visited.push(coord);
        0u32
    });

    assert_eq!(visited, [[0, 0], [1, 0], [2, 0], [0, 1], [1, 1], [2, 1]]);
}

#[test]
fn is_deterministic() {
    let first = sample_3x3();

    for _ in 0..5 {
        let repeat = sample_3x3();

        assert_eq!(first.palette(), repeat.palette());
        assert_eq!(first.indices(), repeat.indices());
    }
}

#[test]
fn value_at_reads_through_the_palette() {
    let sampled = sample_3x3();

    assert_eq!(*sampled.value_at([0, 0]), 0);
    assert_eq!(*sampled.value_at([2, 0]), 2);
    assert_eq!(*sampled.value_at([1, 2]), 2);
    assert_eq!(sampled.dimensions(), &Dimensions::new([3, 3]).unwrap());
}

fn input() -> Sampled<u32, 2> {
    const VALUES: [u32; 4] = [10, 20, 30, 40];
    let dimensions = Dimensions::new([2, 2]).expect("2x2 is non-empty");
    Sampled::from_fn(dimensions, |coord| VALUES[dimensions.index_of(coord)])
}

fn model_with(samples: Vec<u32>) -> RuleModel {
    let pattern_dimensions = Dimensions::new([2, 2]).expect("2x2 is non-empty");
    RuleModel {
        patterns: vec![Pattern { samples, width: 2, height: 2 }],
        adjadency_rules: vec![],
        frequency_hints: FrequencyHints::new(vec![1]),
        num_directions: 4,
        pattern_dimensions,
    }
}

#[test]
fn a_single_placement_reproduces_the_pattern() {
    let solution = Solution {
        output: vec![0],
        output_dimensions: Dimensions::new([1, 1]).expect("1x1 is non-empty"),
    };
    let model = model_with(vec![3, 1, 0, 2]);

    let decoded = input().decode(&solution, &model);

    assert_eq!(decoded.indices(), &[3, 1, 0, 2]);
}

#[test]
fn output_extent_is_the_grid_grown_by_the_pattern_overlap() {
    let solution = Solution {
        output: vec![0; 6],
        output_dimensions: Dimensions::new([3, 2]).expect("3x2 is non-empty"),
    };
    let model = model_with(vec![0, 1, 2, 3]);

    let decoded = input().decode(&solution, &model);

    assert_eq!(decoded.dimensions(), &Dimensions::new([4, 3]).unwrap());
    assert_eq!(decoded.indices().len(), 12);
}

#[test]
fn carries_the_input_palette_forward_unchanged() {
    let solution = Solution {
        output: vec![0],
        output_dimensions: Dimensions::new([1, 1]).expect("1x1 is non-empty"),
    };
    let model = model_with(vec![0, 1, 2, 3]);
    let source = input();

    let decoded = source.decode(&solution, &model);

    assert_eq!(decoded.palette(), source.palette());
    assert_eq!(*decoded.value_at([1, 1]), 40);
}

#[test]
fn later_placements_paint_over_earlier_ones() {
    let pattern_dimensions = Dimensions::new([2, 1]).unwrap();
    let model = RuleModel {
        patterns: vec![
            Pattern { samples: vec![0, 1], width: 2, height: 1 },
            Pattern { samples: vec![2, 3], width: 2, height: 1 },
        ],
        adjadency_rules: vec![],
        frequency_hints: FrequencyHints::new(vec![1, 1]),
        num_directions: 4,
        pattern_dimensions,
    };
    let solution = Solution { output: vec![0, 1], output_dimensions: Dimensions::new([2, 1]).unwrap() };

    let decoded = input().decode(&solution, &model);

    assert_eq!(decoded.dimensions(), &Dimensions::new([3, 1]).unwrap());
    assert_eq!(decoded.indices(), &[0, 2, 3]);
}

#[test]
fn decodability_needs_known_patterns_of_the_model_extent() {
    let model = model_with(vec![0, 1, 2, 3]);
    let good = Solution { output: vec![0, 0], output_dimensions: Dimensions::new([2, 1]).unwrap() };
    let unknown = Solution { output: vec![0, 1], output_dimensions: Dimensions::new([2, 1]).unwrap() };
    let short = Solution { output: vec![0], output_dimensions: Dimensions::new([2, 1]).unwrap() };

    assert!(wfc::sampled::is_decodable(&good, &model));
    assert!(!wfc::sampled::is_decodable(&unknown, &model));
    assert!(!wfc::sampled::is_decodable(&short, &model));
}
