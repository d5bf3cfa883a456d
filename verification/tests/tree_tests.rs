use cart_forest::decision_tree::DecisionTree;
use cart_forest::decision_tree::ModelError;
use cart_forest::decision_tree::Node;
use cart_forest::decision_tree::all_same;
use cart_forest::decision_tree::calculate_gini_impurity;
use cart_forest::decision_tree::find_best_split;
use cart_forest::decision_tree::most_common;
use cart_forest::decision_tree::split_data;

// Feature values are integers; fractional measurements are written in tenths
// (1.5 becomes 15), which preserves every comparison the algorithm makes.

#[test]
fn gini_pure_group_is_zero() {
    let g = calculate_gini_impurity(&vec![2, 2, 2]);
    assert_eq!(g.numerator, 0);
    assert_eq!(g.denominator, 9);
}

#[test]
fn gini_half_and_half() {
    // 1 - (1/2)^2 - (1/2)^2 = 1/2 = 8/16
    let g = calculate_gini_impurity(&vec![0, 0, 1, 1]);
    assert_eq!(g.numerator, 8);
    assert_eq!(g.denominator, 16);
}

#[test]
fn gini_three_distinct() {
    // 1 - 3 * (1/3)^2 = 2/3 = 6/9
    let g = calculate_gini_impurity(&vec![0, 1, 2]);
    assert_eq!(g.numerator, 6);
    assert_eq!(g.denominator, 9);
}

#[test]
fn gini_always_below_one() {
    let groups = vec![vec![0], vec![7, 7], vec![0, 1], vec![5, 5, 9, 9, 9]];
    for labels in groups {
        let g = calculate_gini_impurity(&labels);
        assert!(g.numerator < g.denominator);
    }
}

#[test]
fn all_same_detects_agreement() {
    assert!(all_same(&vec![4, 4, 4]));
    assert!(all_same(&vec![9]));
    assert!(!all_same(&vec![4, 4, 5]));
}

#[test]
fn most_common_majority() {
    assert_eq!(most_common(&vec![3, 1, 3, 3, 1]), 3);
    assert_eq!(most_common(&vec![5]), 5);
}

#[test]
fn most_common_tie_takes_smallest_label() {
    assert_eq!(most_common(&vec![2, 1, 1, 2]), 1);
    assert_eq!(most_common(&vec![9, 0, 9, 0]), 0);
}

#[test]
fn split_data_partitions_in_order() {
    let data = vec![vec![10, 0], vec![20, 0], vec![30, 0]];
    let labels = vec![1, 2, 3];
    // threshold is twice the midpoint 15, so rows with value <= 15 go left
    let (ld, ll, rd, rl) = split_data(&data, &labels, 0, 30);
    assert_eq!(ld, vec![vec![10, 0]]);
    assert_eq!(ll, vec![1]);
    assert_eq!(rd, vec![vec![20, 0], vec![30, 0]]);
    assert_eq!(rl, vec![2, 3]);
}

#[test]
fn find_best_split_separates_classes() {
    // classes sit at 1,2 versus 10,11 on feature 0 (values in tenths);
    // the perfect split is the midpoint of 2.0 and 10.0, i.e. 6.0, which the
    // search stores doubled as 20 + 100 = 120
    let data = vec![vec![10, 20], vec![20, 30], vec![100, 100], vec![110, 110]];
    let labels = vec![0, 0, 1, 1];
    let best = find_best_split(&data, &labels);
    assert_eq!(best, Some((0, 120)));
}

#[test]
fn find_best_split_none_on_constant_features() {
    let data = vec![vec![5], vec![5], vec![5]];
    let labels = vec![0, 1, 0];
    assert_eq!(find_best_split(&data, &labels), None);
}

#[test]
fn train_and_predict_two_clusters() {
    // dataset {[1,2]->0, [2,3]->0, [10,10]->1, [11,11]->1}, depth limit 3
    let data = vec![vec![10, 20], vec![20, 30], vec![100, 100], vec![110, 110]];
    let labels = vec![0, 0, 1, 1];
    let mut tree = DecisionTree::new();
    assert_eq!(tree.train(&data, &labels, 3), Ok(()));
    // the root separates one feature at a threshold between 3.0 and 10.0
    match tree.root() {
        Some(Node::Internal { feature, threshold, .. }) => {
            assert!(*feature == 0 || *feature == 1);
            // stored doubled: (30, 100) in halves of tenths
            assert!(60 < *threshold && *threshold < 200);
        }
        _ => panic!("expected an internal root"),
    }
    // predict [1.5,2.5] and [10.5,10.5]
    let out = tree.predict(&vec![vec![15, 25], vec![105, 105]]);
    assert_eq!(out, Ok(vec![0, 1]));
}

#[test]
fn single_class_trains_to_root_leaf() {
    // four instances all labeled 2: root must be a leaf with label 2
    let data = vec![vec![10, 20], vec![20, 30], vec![100, 100], vec![110, 110]];
    let labels = vec![2, 2, 2, 2];
    let mut tree = DecisionTree::new();
    assert_eq!(tree.train(&data, &labels, 7), Ok(()));
    assert!(matches!(tree.root(), Some(Node::Leaf { label: 2 })));
    let out = tree.predict(&vec![vec![-50, 3], vec![999, 999]]);
    assert_eq!(out, Ok(vec![2, 2]));
}

#[test]
fn depth_limit_zero_gives_majority_leaf() {
    let data = vec![vec![10], vec![20], vec![30]];
    let labels = vec![0, 1, 1];
    let mut tree = DecisionTree::new();
    assert_eq!(tree.train(&data, &labels, 0), Ok(()));
    assert!(matches!(tree.root(), Some(Node::Leaf { label: 1 })));
}

#[test]
fn training_is_deterministic() {
    let data = vec![vec![10, 20], vec![20, 30], vec![100, 100], vec![110, 110]];
    let labels = vec![0, 1, 1, 0];
    let test = vec![vec![15, 25], vec![105, 105], vec![0, 0]];
    let mut first = DecisionTree::new();
    let mut second = DecisionTree::new();
    assert_eq!(first.train(&data, &labels, 4), Ok(()));
    assert_eq!(second.train(&data, &labels, 4), Ok(()));
    assert_eq!(first.predict(&test), second.predict(&test));
}

#[test]
fn train_rejects_length_mismatch() {
    let mut tree = DecisionTree::new();
    let r = tree.train(&vec![vec![1], vec![2]], &vec![0], 3);
    assert_eq!(r, Err(ModelError::InvalidInput));
    assert!(tree.root().is_none());
}

#[test]
fn train_rejects_empty_dataset() {
    let mut tree = DecisionTree::new();
    let r = tree.train(&vec![], &vec![], 3);
    assert_eq!(r, Err(ModelError::InvalidInput));
    assert!(tree.root().is_none());
}

#[test]
fn train_rejects_zero_width_rows() {
    let mut tree = DecisionTree::new();
    let r = tree.train(&vec![vec![], vec![]], &vec![0, 1], 3);
    assert_eq!(r, Err(ModelError::InvalidInput));
}

#[test]
fn predict_untrained_fails() {
    let tree = DecisionTree::new();
    assert_eq!(tree.predict(&vec![vec![1, 2]]), Err(ModelError::Untrained));
    assert_eq!(tree.predict_instance(&vec![1, 2]), Err(ModelError::Untrained));
}

#[test]
fn predict_short_instance_fails() {
    let data = vec![vec![10, 20], vec![20, 30], vec![100, 100], vec![110, 110]];
    let labels = vec![0, 0, 1, 1];
    let mut tree = DecisionTree::new();
    assert_eq!(tree.train(&data, &labels, 3), Ok(()));
    // the root tests feature 0, which an empty instance does not have
    assert_eq!(tree.predict_instance(&vec![]), Err(ModelError::IndexOutOfRange));
    assert_eq!(tree.predict(&vec![vec![15, 25], vec![]]), Err(ModelError::IndexOutOfRange));
}
