use blackforest::record::Record;
use blackforest::tree::{is_pure, majority_class, majority_vote, DecisionTree, Node};

fn rec(features: Vec<i64>, label: usize) -> Record {
    Record { features, label }
}

#[test]
fn untrained_tree_predicts_none() {
    let tree = DecisionTree::new(3, 2);
    assert_eq!(tree.predict(&rec(vec![1], 0)), None);
}

#[test]
fn tree_fit_on_empty_set_yields_default_leaf() {
    let mut tree = DecisionTree::new(3, 2);
    let data: Vec<Record> = Vec::new();
    tree.fit(&data);
    assert!(matches!(tree.root, Some(Node::Leaf { class: 0 })));
    assert_eq!(tree.predict(&rec(vec![42], 9)), Some(0));
}

#[test]
fn tree_with_zero_depth_predicts_majority() {
    let mut tree = DecisionTree::new(0, 2);
    let data = vec![rec(vec![1], 1), rec(vec![2], 1), rec(vec![3], 2)];
    tree.fit(&data);
    assert_eq!(tree.predict(&rec(vec![7], 0)), Some(1));
}

#[test]
fn unrestricted_tree_reaches_full_training_accuracy_on_separable_data() {
    let data = vec![
        rec(vec![1, 100], 0),
        rec(vec![2, 90], 0),
        rec(vec![5, 80], 1),
        rec(vec![6, 70], 1),
        rec(vec![9, 60], 2),
        rec(vec![10, 50], 2),
        rec(vec![13, 40], 3),
        rec(vec![14, 30], 3),
    ];
    let mut tree = DecisionTree::new(64, 2);
    tree.fit(&data);
    for r in &data {
        assert_eq!(tree.predict(r), Some(r.label));
    }
}

#[test]
fn tree_stops_when_no_split_reduces_impurity() {
    // On an exclusive-or labelling every single threshold leaves the
    // weighted impurity equal to the parent's, so the build stops at a
    // majority leaf (lowest label on the 2-2 tie).
    let data = vec![
        rec(vec![0, 0], 0),
        rec(vec![0, 1], 1),
        rec(vec![1, 0], 1),
        rec(vec![1, 1], 0),
    ];
    let mut tree = DecisionTree::new(8, 2);
    tree.fit(&data);
    assert!(matches!(tree.root, Some(Node::Leaf { class: 0 })));
}

#[test]
fn majority_vote_prefers_most_frequent_label() {
    assert_eq!(majority_vote(&vec![2, 2, 5]), 2);
    assert_eq!(majority_vote(&vec![5, 2, 5]), 5);
}

#[test]
fn majority_vote_tie_resolves_to_lowest_label() {
    assert_eq!(majority_vote(&vec![5, 2]), 2);
    assert_eq!(majority_vote(&vec![3, 1, 3, 1]), 1);
}

#[test]
fn majority_vote_on_empty_ballot_is_default() {
    assert_eq!(majority_vote(&Vec::new()), 0);
}

#[test]
fn majority_class_matches_labels() {
    let data = vec![rec(vec![1], 4), rec(vec![2], 4), rec(vec![3], 1)];
    assert_eq!(majority_class(&data), 4);
    let empty: Vec<Record> = Vec::new();
    assert_eq!(majority_class(&empty), 0);
}

#[test]
fn is_pure_detects_uniform_labels() {
    assert!(is_pure(&Vec::new()));
    assert!(is_pure(&vec![rec(vec![1], 7), rec(vec![2], 7)]));
    assert!(!is_pure(&vec![rec(vec![1], 7), rec(vec![2], 8)]));
}
