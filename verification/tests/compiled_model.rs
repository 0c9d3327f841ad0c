use wfc::{CompiledModel, FrequencyHints, SimpleBitSet};

fn assert_send_sync<T: Send + Sync>() {}

#[test]
fn is_send_and_sync() {
    assert_send_sync::<CompiledModel>();
}

#[test]
fn new_counts_one_pattern_per_weight() {
    let model = CompiledModel::new(vec![SimpleBitSet::new(3); 12], FrequencyHints::new(vec![2, 1, 5]), 4);

    assert_eq!(model.num_patterns(), 3);
    assert_eq!(model.num_directions(), 4);
    assert_eq!(model.adj_rules().len(), 12);
    assert_eq!(model.frequency_hints().weights, vec![2, 1, 5]);
}
