use blackforest::forest::{bootstrap_sample, RandomForest};
use blackforest::record::Record;
use blackforest::tree::{DecisionTree, Node};

fn rec(features: Vec<i64>, label: usize) -> Record {
    Record { features, label }
}

fn leaf_tree(class: usize) -> DecisionTree {
    DecisionTree { root: Some(Node::Leaf { class }), max_depth: 1, min_samples_split: 2 }
}

fn training_data() -> Vec<Record> {
    let mut data = Vec::new();
    for i in 0..20i64 {
        let label = if i < 10 { 0 } else { 1 };
        data.push(rec(vec![i, 1000 - i], label));
    }
    data
}

#[test]
fn bootstrap_sample_has_input_length_and_members() {
    let data: Vec<Record> = (0..50i64).map(|i| rec(vec![i], i as usize)).collect();
    let sample = bootstrap_sample(&data);
    assert_eq!(sample.len(), data.len());
    for r in &sample {
        assert!(r.label < 50);
        assert_eq!(r.features[0], r.label as i64);
    }
}

#[test]
fn bootstrap_distinct_fraction_approaches_limit() {
    // The expected fraction of distinct records kept is 1 - 1/e, about 0.632.
    let n = 600usize;
    let data: Vec<Record> = (0..n).map(|i| rec(vec![i as i64], i)).collect();
    let draws = 30usize;
    let mut total = 0.0f64;
    for _ in 0..draws {
        let sample = bootstrap_sample(&data);
        let mut seen = vec![false; n];
        for r in &sample {
            seen[r.label] = true;
        }
        let distinct = seen.iter().filter(|&&b| b).count();
        total += distinct as f64 / n as f64;
    }
    let mean = total / draws as f64;
    assert!(mean > 0.58 && mean < 0.68, "mean distinct fraction was {}", mean);
}

#[test]
fn bootstrap_sample_of_empty_set_is_empty() {
    let data: Vec<Record> = Vec::new();
    let sample = bootstrap_sample(&data);
    assert!(sample.is_empty());
}

#[test]
fn forest_fit_on_empty_set_yields_default_members() {
    let data: Vec<Record> = Vec::new();
    let mut forest = RandomForest::new(3, 4, 2);
    forest.fit(&data);
    assert_eq!(forest.trees.len(), 3);
    assert_eq!(forest.predict(&rec(vec![5], 0)), Some(0));
}

#[test]
fn empty_forest_predicts_none() {
    let forest = RandomForest::new(5, 3, 2);
    assert_eq!(forest.predict(&rec(vec![1], 0)), None);
}

#[test]
fn stubbed_forest_votes_by_plurality() {
    let mut forest = RandomForest::new(3, 1, 2);
    forest.trees = vec![leaf_tree(1), leaf_tree(1), leaf_tree(2)];
    assert_eq!(forest.predict(&rec(vec![0], 0)), Some(1));
}

#[test]
fn stubbed_forest_vote_tie_resolves_to_lowest_label() {
    let mut forest = RandomForest::new(2, 1, 2);
    forest.trees = vec![leaf_tree(4), leaf_tree(2)];
    assert_eq!(forest.predict(&rec(vec![0], 0)), Some(2));
    forest.trees = vec![leaf_tree(2), leaf_tree(4)];
    assert_eq!(forest.predict(&rec(vec![0], 0)), Some(2));
}

#[test]
fn fitted_forest_has_requested_member_count() {
    let data = training_data();
    let mut forest = RandomForest::new(7, 4, 2);
    forest.fit(&data);
    assert_eq!(forest.trees.len(), 7);
    for tree in &forest.trees {
        assert!(tree.root.is_some());
    }
}

#[test]
fn fitted_forest_predicts_well_separated_classes() {
    let data = training_data();
    let mut forest = RandomForest::new(15, 6, 2);
    forest.fit(&data);
    assert_eq!(forest.predict(&rec(vec![1, 999], 0)), Some(0));
    assert_eq!(forest.predict(&rec(vec![18, 982], 0)), Some(1));
}

#[test]
fn forest_round_trip_preserves_predictions() {
    let data = training_data();
    let mut forest = RandomForest::new(9, 5, 2);
    forest.fit(&data);
    let bytes = forest.to_bytes();
    let loaded = RandomForest::from_bytes(&bytes).expect("decoding its own image");
    assert_eq!(loaded.n_trees, forest.n_trees);
    assert_eq!(loaded.max_depth, forest.max_depth);
    assert_eq!(loaded.min_samples_split, forest.min_samples_split);
    assert_eq!(loaded.trees.len(), forest.trees.len());
    for i in -20i64..40 {
        let probe = rec(vec![i, 1000 - i], 0);
        assert_eq!(loaded.predict(&probe), forest.predict(&probe));
    }
    assert_eq!(loaded.to_bytes(), bytes);
}

#[test]
fn decoding_rejects_corrupt_bytes() {
    assert!(RandomForest::from_bytes(&vec![1, 2, 3]).is_none());
    let mut forest = RandomForest::new(2, 2, 2);
    forest.fit(&training_data());
    let mut bytes = forest.to_bytes();
    bytes.pop();
    assert!(RandomForest::from_bytes(&bytes).is_none());
    // Offset 48 holds the first member's root tag; no image carries a 9 there.
    let mut garbled = forest.to_bytes();
    garbled[48] = 9;
    assert!(RandomForest::from_bytes(&garbled).is_none());
}
