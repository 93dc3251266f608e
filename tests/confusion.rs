use light_river::confusion::{ClassifierTarget, ConfusionMatrix};

fn label(s: &str) -> ClassifierTarget {
    ClassifierTarget::from(s)
}

fn cell(cm: &ConfusionMatrix, truth: &str, pred: &str) -> i64 {
    cm.get(&label(truth))
        .iter()
        .find(|(p, _)| p == pred)
        .map(|(_, w)| *w)
        .unwrap_or(0)
}

/// The six observations (predicted, true) used by several tests.
fn scenario() -> ConfusionMatrix {
    let y_pred = vec!["ant", "ant", "cat", "cat", "ant", "cat"];
    let y_true = vec!["cat", "ant", "cat", "cat", "ant", "bird"];
    let mut cm = ConfusionMatrix::new();
    for (yt, yp) in y_true.iter().zip(y_pred.iter()) {
        cm.update(&label(yp), &label(yt), Some(1));
    }
    cm
}

fn sorted_classes(cm: &ConfusionMatrix) -> Vec<String> {
    let mut c = cm.get_classes();
    c.sort();
    c
}

#[test]
fn test_confusion_matrix() {
    let cm = scenario();
    let v = cm
        .get(&ClassifierTarget::from("bird"))
        .iter()
        .find(|(p, _)| p == "cat")
        .map(|(_, w)| *w)
        .unwrap_or(0);
    assert_eq!(v as f64, 1.0);
}

#[test]
fn scenario_metrics() {
    let cm = scenario();
    assert_eq!(cm.true_positives(&label("ant")), 2);
    assert_eq!(cm.true_positives(&label("cat")), 2);
    assert_eq!(cm.true_positives(&label("bird")), 0);
    assert_eq!(cm.false_negatives(&label("cat")), 1);
    assert_eq!(cm.false_negatives(&label("bird")), 1);
    assert_eq!(cm.false_negatives(&label("ant")), 0);
    assert_eq!(cm.false_positives(&label("ant")), 1);
    assert_eq!(cm.false_positives(&label("cat")), 1);
    assert_eq!(cm.false_positives(&label("bird")), 0);
    assert_eq!(cm.support(&label("cat")), 3);
    assert_eq!(cm.support(&label("ant")), 3);
    assert_eq!(cm.support(&label("bird")), 0);
    assert_eq!(cm.total_weight(), 6);
    assert_eq!(cm.n_samples(), 6);
}

#[test]
fn scenario_totals() {
    let cm = scenario();
    assert_eq!(cm.total_true_positives(), 4);
    assert_eq!(cm.true_negatives(&label("ant")), 2);
    assert_eq!(cm.true_negatives(&label("bird")), 4);
    assert_eq!(cm.total_true_negatives(), 8);
    assert_eq!(cm.total_false_positives(), 2);
    assert_eq!(cm.total_false_negatives(), 2);
}

#[test]
fn scenario_rows_in_first_use_order() {
    let cm = scenario();
    assert_eq!(cm.get(&label("cat")), vec![(label("ant"), 1), (label("cat"), 2)]);
    assert_eq!(cm.get(&label("ant")), vec![(label("ant"), 2)]);
    assert_eq!(cm.get(&label("dog")), vec![]);
}

#[test]
fn scenario_classes() {
    let cm = scenario();
    assert_eq!(sorted_classes(&cm), vec!["ant", "bird", "cat"]);
}

#[test]
fn empty_matrix() {
    let cm = ConfusionMatrix::new();
    assert!(cm.get_classes().is_empty());
    assert_eq!(cm.total_weight(), 0);
    assert_eq!(cm.support(&label("ant")), 0);
    assert_eq!(cm.true_positives(&label("ant")), 0);
    assert_eq!(cm.total_true_positives(), 0);
    assert_eq!(cm.total_true_negatives(), 0);
    let d = ConfusionMatrix::default();
    assert!(d.get_classes().is_empty());
    assert_eq!(d.total_weight(), 0);
}

#[test]
fn weighted_update() {
    let mut cm = ConfusionMatrix::new();
    cm.update(&label("x"), &label("x"), Some(5));
    assert_eq!(cm.true_positives(&label("x")), 5);
    assert_eq!(cm.support(&label("x")), 5);
    assert_eq!(cm.total_weight(), 5);
}

#[test]
fn default_weight_is_one() {
    let mut a = ConfusionMatrix::new();
    let mut b = ConfusionMatrix::new();
    a.update(&label("ant"), &label("cat"), None);
    b.update(&label("ant"), &label("cat"), Some(1));
    assert_eq!(a.get(&label("cat")), b.get(&label("cat")));
    assert_eq!(a.total_weight(), 1);
    assert_eq!(b.total_weight(), 1);
    assert_eq!(a.support(&label("ant")), b.support(&label("ant")));
    a.revert(&label("ant"), &label("cat"), None);
    assert_eq!(cell(&a, "cat", "ant"), 0);
    assert_eq!(a.total_weight(), 0);
}

#[test]
fn reverts_in_other_order_restore_values() {
    let obs = vec![("ant", "cat", 3), ("cat", "cat", 1), ("ant", "ant", 2), ("ant", "cat", 4)];
    let mut cm = scenario();
    for (p, t, w) in obs.iter() {
        cm.update(&label(p), &label(t), Some(*w));
    }
    assert_eq!(cm.total_weight(), 16);
    for (p, t, w) in obs.iter().rev() {
        cm.revert(&label(p), &label(t), Some(*w));
    }
    let fresh = scenario();
    for t in ["ant", "cat", "bird", "dog"] {
        for p in ["ant", "cat", "bird", "dog"] {
            assert_eq!(cell(&cm, t, p), cell(&fresh, t, p));
        }
        assert_eq!(cm.support(&label(t)), fresh.support(&label(t)));
        assert_eq!(cm.false_negatives(&label(t)), fresh.false_negatives(&label(t)));
    }
    assert_eq!(cm.total_weight(), fresh.total_weight());
    assert_eq!(cm.n_samples(), fresh.n_samples());
}

#[test]
fn row_and_column_sums_agree_with_cells() {
    let cm = scenario();
    let labels = ["ant", "cat", "bird"];
    let mut all = 0;
    for c in labels {
        let row: i64 = cm.get(&label(c)).iter().map(|(_, w)| *w).sum();
        assert_eq!(row as i128, cm.false_negatives(&label(c)) + cm.true_positives(&label(c)) as i128);
        let col: i64 = labels.iter().map(|t| cell(&cm, t, c)).sum();
        assert_eq!(col, cm.support(&label(c)));
        all += row;
    }
    assert_eq!(all, cm.total_weight());
}

#[test]
fn reverted_label_is_not_active() {
    let mut cm = scenario();
    cm.update(&label("dog"), &label("eel"), Some(2));
    assert_eq!(sorted_classes(&cm), vec!["ant", "bird", "cat", "dog", "eel"]);
    cm.revert(&label("dog"), &label("eel"), Some(2));
    assert_eq!(sorted_classes(&cm), vec!["ant", "bird", "cat"]);
    cm.revert(&label("cat"), &label("bird"), None);
    assert_eq!(sorted_classes(&cm), vec!["ant", "cat"]);
}

#[test]
fn over_revert_gives_negative_values() {
    let mut cm = ConfusionMatrix::new();
    cm.revert(&label("ant"), &label("cat"), Some(2));
    assert_eq!(cell(&cm, "cat", "ant"), -2);
    assert_eq!(cm.support(&label("ant")), -2);
    assert_eq!(cm.total_weight(), -2);
    assert_eq!(sorted_classes(&cm), vec!["ant", "cat"]);
}

#[test]
fn range_checks() {
    let mut cm = ConfusionMatrix::new();
    assert!(cm.can_update(&label("a"), &label("b"), Some(i64::MAX)));
    cm.update(&label("a"), &label("b"), Some(i64::MAX));
    assert!(!cm.can_update(&label("a"), &label("b"), None));
    assert!(!cm.can_update(&label("c"), &label("d"), Some(1)));
    assert!(cm.can_update(&label("c"), &label("d"), Some(-1)));
    assert!(cm.can_revert(&label("a"), &label("b"), None));
    assert!(!cm.can_revert(&label("a"), &label("b"), Some(i64::MIN)));
    assert!(!cm.can_revert(&label("a"), &label("b"), Some(-1)));
}

#[test]
fn sorted_classes_ascend() {
    let cm = scenario();
    assert_eq!(cm.sorted_classes(), vec!["ant", "bird", "cat"]);
    let mut other = ConfusionMatrix::new();
    for (p, t) in [("zebra", "Zebra"), ("b", "a"), ("ab", "é"), ("a", "a")] {
        other.update(&label(p), &label(t), None);
    }
    assert_eq!(other.sorted_classes(), vec!["Zebra", "a", "ab", "b", "zebra", "é"]);
    assert!(ConfusionMatrix::new().sorted_classes().is_empty());
}

#[test]
fn cells_for_sorted_classes() {
    let cm = scenario();
    let classes = cm.sorted_classes();
    assert_eq!(
        cm.cells_for(&classes),
        vec![vec![2, 0, 0], vec![0, 0, 1], vec![1, 0, 2]]
    );
    assert_eq!(cm.cells_for(&vec![label("cat"), label("dog")]), vec![vec![2, 0], vec![0, 0]]);
}
