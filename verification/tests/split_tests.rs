use blackforest::metrics::gini_impurity;
use blackforest::record::Record;
use blackforest::split::{find_best_split, partition};

fn rec(features: Vec<i64>, label: usize) -> Record {
    Record { features, label }
}

#[test]
fn split_on_empty_set_is_none() {
    let data: Vec<Record> = Vec::new();
    assert!(find_best_split(&data).is_none());
}

#[test]
fn split_on_single_row_is_none() {
    let data = vec![rec(vec![1, 2], 0)];
    assert!(find_best_split(&data).is_none());
}

#[test]
fn split_on_constant_feature_is_none() {
    let data = vec![rec(vec![5], 0), rec(vec![5], 1), rec(vec![5], 0)];
    assert!(find_best_split(&data).is_none());
}

#[test]
fn split_separates_two_clusters_exactly() {
    let data = vec![
        rec(vec![1], 0),
        rec(vec![2], 0),
        rec(vec![3], 1),
        rec(vec![4], 1),
    ];
    let s = find_best_split(&data).unwrap();
    assert_eq!(s.feature_index, 0);
    assert_eq!(s.threshold, 2);
}

#[test]
fn split_tie_prefers_lower_feature_index() {
    // Both features separate the labels perfectly; the earlier one must win.
    let data = vec![rec(vec![1, 1], 0), rec(vec![2, 2], 1)];
    let s = find_best_split(&data).unwrap();
    assert_eq!(s.feature_index, 0);
    assert_eq!(s.threshold, 1);
}

#[test]
fn split_tie_prefers_lower_threshold_within_a_feature() {
    // Thresholds 1 and 3 score equally well and beat threshold 2; the
    // earliest enumerated one wins.
    let data = vec![
        rec(vec![1], 0),
        rec(vec![2], 1),
        rec(vec![3], 0),
        rec(vec![4], 1),
    ];
    let s = find_best_split(&data).unwrap();
    assert_eq!(s.feature_index, 0);
    assert_eq!(s.threshold, 1);
}

#[test]
fn chosen_split_has_no_empty_side_and_does_not_increase_impurity() {
    let data = vec![
        rec(vec![3, 10], 0),
        rec(vec![1, 20], 1),
        rec(vec![4, 30], 0),
        rec(vec![1, 40], 1),
        rec(vec![5, 50], 0),
        rec(vec![9, 60], 2),
        rec(vec![2, 70], 1),
        rec(vec![6, 80], 2),
    ];
    let s = find_best_split(&data).unwrap();
    let (left, right) = partition(&data, s.feature_index, s.threshold);
    assert!(!left.is_empty());
    assert!(!right.is_empty());
    let n = data.len() as f64;
    let (pn, pd) = gini_impurity(&data);
    let parent = pn as f64 / pd as f64;
    let (ln, ld) = gini_impurity(&left);
    let (rn, rd) = gini_impurity(&right);
    let weighted = (left.len() as f64 * (ln as f64 / ld as f64)
        + right.len() as f64 * (rn as f64 / rd as f64))
        / n;
    assert!(weighted <= parent + 1e-12);
}

#[test]
fn partition_keeps_order_and_sizes() {
    let data = vec![
        rec(vec![5], 0),
        rec(vec![1], 1),
        rec(vec![7], 2),
        rec(vec![3], 3),
    ];
    let (left, right) = partition(&data, 0, 4);
    assert_eq!(left.len(), 2);
    assert_eq!(right.len(), 2);
    assert_eq!(left[0].label, 1);
    assert_eq!(left[1].label, 3);
    assert_eq!(right[0].label, 0);
    assert_eq!(right[1].label, 2);
}
