use wfc::cell::{choose_weighted, Cell};
use wfc::solver::{get_neighbor_indices, run_with_contradiction_strategy, start_attempt};
use wfc::{
    AttemptCount, CompiledModel, ContradictionStrategy, Dimensions, FrequencyHints, SimpleBitSet,
    Solution, SolverError, SolverRunError, ALL_DIRECTIONS,
};

fn checkerboard_rules() -> Vec<SimpleBitSet> {
    let num_patterns = 4;
    let num_directions = ALL_DIRECTIONS.len();
    let mut rules = vec![SimpleBitSet::new(num_patterns); num_patterns * num_directions];

    for dir in ALL_DIRECTIONS {
        for pattern in 0..2 {
            rules[pattern * num_directions + dir.index()].set(2);
            rules[pattern * num_directions + dir.index()].set(3);
        }
        for pattern in 2..4 {
            rules[pattern * num_directions + dir.index()].set(0);
            rules[pattern * num_directions + dir.index()].set(1);
        }
    }
    rules
}

fn checkerboard_model() -> CompiledModel {
    CompiledModel::new(checkerboard_rules(), FrequencyHints::new(vec![1, 1, 1, 1]), 4)
}

fn stub_solution() -> Solution {
    Solution { output: vec![42], output_dimensions: Dimensions::new([1, 1]).expect("1x1 is non-empty") }
}

#[test]
fn fail_contradiction_strategy_returns_error_on_first_failure() {
    let mut attempted_seeds = Vec::new();

    let result = run_with_contradiction_strategy(10, &ContradictionStrategy::Fail, |seed| {
        attempted_seeds.push(seed);
        Err(SolverRunError::Contradiction)
    });

    assert!(matches!(result, Err(SolverError::AttemptsExhausted)));
    assert_eq!(attempted_seeds, vec![10]);
}

#[test]
fn retry_contradiction_strategy_retries_attempts_the_specified_amount() {
    let strategy = ContradictionStrategy::Retry { max_attempts: AttemptCount::new(3).unwrap() };
    let mut attempted_seeds = Vec::new();

    let result = run_with_contradiction_strategy(u64::MAX - 1, &strategy, |seed| {
        attempted_seeds.push(seed);
        if attempted_seeds.len() == 3 {
            Ok(stub_solution())
        } else {
            Err(SolverRunError::Contradiction)
        }
    });

    assert_eq!(result.unwrap(), stub_solution());
    assert_eq!(attempted_seeds, vec![u64::MAX - 1, u64::MAX, 0]);
}

#[test]
fn retry_contradiction_strategy_exhausts_on_exceeding_max_attempts() {
    let strategy = ContradictionStrategy::Retry { max_attempts: AttemptCount::new(3).unwrap() };
    let mut attempted_seeds = Vec::new();

    let result = run_with_contradiction_strategy(10, &strategy, |seed| {
        attempted_seeds.push(seed);
        Err(SolverRunError::Contradiction)
    });

    assert!(matches!(result, Err(SolverError::AttemptsExhausted)));
    assert_eq!(attempted_seeds, vec![10, 11, 12]);
}

#[test]
fn a_first_success_stops_the_retries() {
    let strategy = ContradictionStrategy::Retry { max_attempts: AttemptCount::new(5).unwrap() };
    let mut attempts = 0;

    let result = run_with_contradiction_strategy(7, &strategy, |_| {
        attempts += 1;
        Ok(stub_solution())
    });

    assert_eq!(result.unwrap(), stub_solution());
    assert_eq!(attempts, 1);
}

#[test]
fn an_attempt_count_is_never_zero() {
    assert!(AttemptCount::new(0).is_none());
    assert_eq!(AttemptCount::new(4).unwrap().get(), 4);
}

#[test]
fn error_messages_say_what_went_wrong() {
    assert_eq!(SolverError::AttemptsExhausted.message(), "Maximum number of retries was reached.");
    assert_eq!(SolverRunError::Contradiction.message(), "Solver run ran into a contradiction!");
}

#[test]
fn neighbours_stop_at_the_edges() {
    // A 3 by 2 grid: cells 0 1 2 on the top row, 3 4 5 below.
    assert_eq!(get_neighbor_indices(0, 3, 2), [None, Some(3), Some(1), None]);
    assert_eq!(get_neighbor_indices(4, 3, 2), [Some(1), None, Some(5), Some(3)]);
    assert_eq!(get_neighbor_indices(2, 3, 2), [None, Some(5), None, Some(1)]);
    assert_eq!(get_neighbor_indices(0, 1, 1), [None, None, None, None]);
}

#[test]
fn a_roll_lands_on_the_value_whose_weight_covers_it() {
    let values = [0usize, 2, 3];
    let weights = [5u32, 100, 2, 4];

    assert_eq!(choose_weighted(&values, &weights, 0), 0);
    assert_eq!(choose_weighted(&values, &weights, 4), 0);
    assert_eq!(choose_weighted(&values, &weights, 5), 2);
    assert_eq!(choose_weighted(&values, &weights, 6), 2);
    assert_eq!(choose_weighted(&values, &weights, 7), 3);
    assert_eq!(choose_weighted(&values, &weights, 10), 3);
}

#[test]
fn collapsing_a_cell_keeps_one_of_its_patterns() {
    let mut possible = SimpleBitSet::new(4);
    possible.set(1);
    possible.set(3);
    let mut cell = Cell::new(possible);
    let hints = FrequencyHints::new(vec![1, 1, 1, 1]);
    let (_, mut rng) = start_attempt(&checkerboard_model(), &Dimensions::new([1, 1]).unwrap(), 3);

    cell.collapse(&hints, &mut rng);

    assert!(cell.is_collapsed);
    let value = cell.collapsed_val.unwrap();
    assert!(value == 1 || value == 3);
    assert_eq!(cell.possible_values.members(), vec![value as usize]);
}

#[test]
fn a_zero_weight_pattern_is_never_chosen() {
    let hints = FrequencyHints::new(vec![0, 1, 0, 0]);
    for seed in 0..20 {
        let (_, mut rng) = start_attempt(&checkerboard_model(), &Dimensions::new([1, 1]).unwrap(), seed);
        let mut cell = Cell::new(SimpleBitSet::full(4));
        cell.collapse(&hints, &mut rng);

        assert_eq!(cell.collapsed_val, Some(1));
    }
}

/// Runs the solver steps on the checkerboard model, always collapsing the first cell that
/// is not collapsed yet.
fn solve_in_index_order(seed: u64, width: u32, height: u32) -> Vec<u32> {
    let model = checkerboard_model();
    let dimensions = Dimensions::new([width, height]).unwrap();
    let (mut state, mut rng) = start_attempt(&model, &dimensions, seed);
    assert_eq!(state.uncollapsed_num, width * height);
    while state.uncollapsed_num > 0 {
        let next = state.cells.iter().position(|c| !c.is_collapsed).unwrap();
        let updated = state.collapse_and_propagate(&model, next, width, height, &mut rng).expect("no contradiction");
        for i in updated {
            assert!(i < state.cells.len());
        }
    }
    state.get_sampled_output()
}

#[test]
fn propagation_makes_a_checkerboard() {
    let width = 6;
    let height = 5;
    for seed in [1, 27, 99] {
        let output = solve_in_index_order(seed, width, height);

        assert_eq!(output.len(), 30);
        for y in 0..height as usize {
            for x in 0..width as usize {
                let here = output[y * width as usize + x] < 2;
                if x + 1 < width as usize {
                    assert_ne!(here, output[y * width as usize + x + 1] < 2);
                }
                if y + 1 < height as usize {
                    assert_ne!(here, output[(y + 1) * width as usize + x] < 2);
                }
            }
        }
    }
}

#[test]
fn the_same_seed_gives_the_same_steps() {
    assert_eq!(solve_in_index_order(27, 8, 8), solve_in_index_order(27, 8, 8));
}

#[test]
fn one_step_narrows_the_neighbours() {
    let model = checkerboard_model();
    let (mut state, mut rng) = start_attempt(&model, &Dimensions::new([3, 1]).unwrap(), 5);

    let updated = state.collapse_and_propagate(&model, 0, 3, 1, &mut rng).expect("no contradiction");

    let first = state.cells[0].collapsed_val.unwrap();
    let second: Vec<usize> = if first < 2 { vec![2, 3] } else { vec![0, 1] };
    let third: Vec<usize> = if first < 2 { vec![0, 1] } else { vec![2, 3] };
    assert_eq!(state.cells[1].possible_values.members(), second);
    assert_eq!(state.cells[2].possible_values.members(), third);
    assert_eq!(state.uncollapsed_num, 2);
    assert!(updated.contains(&1));
    assert!(updated.contains(&2));
}

#[test]
fn a_cell_with_no_allowed_pattern_is_a_contradiction() {
    // Pattern 0 allows nothing next to it.
    let rules = vec![SimpleBitSet::new(1); 4];
    let model = CompiledModel::new(rules, FrequencyHints::new(vec![1]), 4);
    let (mut state, mut rng) = start_attempt(&model, &Dimensions::new([2, 1]).unwrap(), 0);

    let result = state.collapse_and_propagate(&model, 0, 2, 1, &mut rng);

    assert_eq!(result, Err(SolverRunError::Contradiction));
    assert!(state.cells[1].possible_values.members().is_empty());
}

#[test]
fn neighbourhood_is_mutual() {
    let (width, height) = (4u32, 3u32);
    for a in 0..(width * height) as usize {
        let around = get_neighbor_indices(a, width, height);
        if let Some(b) = around[0] {
            assert_eq!(get_neighbor_indices(b, width, height)[1], Some(a));
        }
        if let Some(b) = around[1] {
            assert_eq!(get_neighbor_indices(b, width, height)[0], Some(a));
        }
        if let Some(b) = around[2] {
            assert_eq!(get_neighbor_indices(b, width, height)[3], Some(a));
        }
        if let Some(b) = around[3] {
            assert_eq!(get_neighbor_indices(b, width, height)[2], Some(a));
        }
    }
}

#[test]
fn a_run_where_no_pattern_allows_a_neighbour_is_a_contradiction() {
    let model = CompiledModel::new(vec![SimpleBitSet::new(2); 8], FrequencyHints::new(vec![1, 1]), 4);
    for seed in 0..10 {
        let (mut state, mut rng) = start_attempt(&model, &Dimensions::new([2, 1]).unwrap(), seed);

        let result = wfc::solver::run_steps(&mut state, &model, 2, 1, &mut rng, |_, _| 0);

        assert_eq!(result, Err(SolverRunError::Contradiction));
    }
}

#[test]
fn a_run_over_one_self_compatible_pattern_fills_every_cell_with_it() {
    let mut rule = SimpleBitSet::new(1);
    rule.set(0);
    let model = CompiledModel::new(vec![rule; 4], FrequencyHints::new(vec![3]), 4);
    let (mut state, mut rng) = start_attempt(&model, &Dimensions::new([3, 2]).unwrap(), 8);

    let result = wfc::solver::run_steps(&mut state, &model, 3, 2, &mut rng, |_, _| 5);

    assert_eq!(result, Ok(()));
    assert_eq!(state.uncollapsed_num, 0);
    assert_eq!(state.get_sampled_output(), vec![0; 6]);
}

#[test]
fn an_answer_that_is_not_an_open_cell_falls_back_to_the_first_open_cell() {
    let model = checkerboard_model();
    let (mut state, mut rng) = start_attempt(&model, &Dimensions::new([4, 4]).unwrap(), 2);
    let mut asked = 0;

    let result = wfc::solver::run_steps(&mut state, &model, 4, 4, &mut rng, |s, _| {
        asked += 1;
        s.cells.len() + 7
    });

    assert_eq!(result, Ok(()));
    assert!(asked >= 1);
    assert!(state.cells.iter().all(|c| c.is_collapsed));
}

/// Three patterns; one step right or left turns pattern `p` into `f(p)` (0 and 1 swap),
/// one step up or down into `g(p)` (1 and 2 swap).
fn turning_model() -> CompiledModel {
    let f = [1usize, 0, 2];
    let g = [0usize, 2, 1];
    let mut rules = vec![SimpleBitSet::new(3); 12];
    for p in 0..3 {
        rules[p * 4].set(g[p]);
        rules[p * 4 + 1].set(g[p]);
        rules[p * 4 + 2].set(f[p]);
        rules[p * 4 + 3].set(f[p]);
    }
    CompiledModel::new(rules, FrequencyHints::new(vec![1, 1, 1]), 4)
}

#[test]
fn cells_forced_in_one_step_are_not_checked_against_each_other() {
    let f = [1u32, 0, 2];
    let g = [0u32, 2, 1];
    let model = turning_model();
    for seed in 0..12 {
        let (mut state, mut rng) = start_attempt(&model, &Dimensions::new([2, 2]).unwrap(), seed);

        let result = wfc::solver::run_steps(&mut state, &model, 2, 2, &mut rng, |_, _| 0);

        // The first step collapses cell 0 and forces all the others: cell 2 below it and
        // cell 1 beside it, then cell 3 beside cell 2, which is the last open cell and so
        // passes nothing on.
        assert_eq!(result, Ok(()));
        let out = state.get_sampled_output();
        assert_eq!(out[1], f[out[0] as usize]);
        assert_eq!(out[2], g[out[0] as usize]);
        assert_eq!(out[3], f[out[2] as usize]);
        // Cells 1 and 3, one above the other, break the rule in both directions.
        assert_ne!(out[3], g[out[1] as usize]);
        assert_ne!(out[1], g[out[3] as usize]);
    }
}

#[test]
fn a_model_that_allows_everything_never_contradicts() {
    let model = CompiledModel::new(vec![SimpleBitSet::full(3); 12], FrequencyHints::new(vec![2, 1, 5]), 4);
    for seed in 0..10 {
        let (mut state, mut rng) = start_attempt(&model, &Dimensions::new([4, 3]).unwrap(), seed);

        let result = wfc::solver::run_steps(&mut state, &model, 4, 3, &mut rng, |s, _| {
            s.cells.iter().rposition(|c| !c.is_collapsed).unwrap_or(0)
        });

        assert_eq!(result, Ok(()));
        assert!(state.get_sampled_output().iter().all(|&v| v < 3));
    }
}
