use blackforest::metrics::gini_impurity;
use blackforest::record::Record;

fn rec(features: Vec<i64>, label: usize) -> Record {
    Record { features, label }
}

#[test]
fn gini_of_empty_set_is_zero() {
    let data: Vec<Record> = Vec::new();
    let (num, den) = gini_impurity(&data);
    assert_eq!(num, 0);
    assert_eq!(den, 1);
}

#[test]
fn gini_of_pure_set_is_zero() {
    let data = vec![rec(vec![1], 3), rec(vec![2], 3), rec(vec![3], 3)];
    let (num, _den) = gini_impurity(&data);
    assert_eq!(num, 0);
}

#[test]
fn gini_of_balanced_two_class_set_is_half() {
    let data = vec![
        rec(vec![1], 0),
        rec(vec![2], 0),
        rec(vec![3], 1),
        rec(vec![4], 1),
    ];
    let (num, den) = gini_impurity(&data);
    assert_eq!(num, 8);
    assert_eq!(den, 16);
    assert!((num as f64 / den as f64 - 0.5).abs() < 1e-12);
}

#[test]
fn gini_of_three_one_split_is_three_eighths() {
    let data = vec![
        rec(vec![1], 0),
        rec(vec![2], 0),
        rec(vec![3], 0),
        rec(vec![4], 1),
    ];
    let (num, den) = gini_impurity(&data);
    assert_eq!(num, 6);
    assert_eq!(den, 16);
    assert!((num as f64 / den as f64 - 0.375).abs() < 1e-12);
}

#[test]
fn gini_of_balanced_three_class_set() {
    let data = vec![
        rec(vec![1], 0),
        rec(vec![2], 1),
        rec(vec![3], 2),
        rec(vec![4], 0),
        rec(vec![5], 1),
        rec(vec![6], 2),
    ];
    let (num, den) = gini_impurity(&data);
    // 1 - 3 * (1/3)^2 = 2/3
    assert_eq!(num as f64 / den as f64, 2.0 / 3.0);
}
