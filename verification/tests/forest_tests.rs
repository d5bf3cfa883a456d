use cart_forest::decision_tree::DecisionTree;
use cart_forest::decision_tree::ModelError;
use cart_forest::random_forest::RandomForest;
use cart_forest::random_forest::create_random_forest;

fn two_cluster_data() -> (Vec<Vec<i32>>, Vec<usize>) {
    // values in tenths: {[1,2]->0, [2,3]->0, [10,10]->1, [11,11]->1}
    (
        vec![vec![10, 20], vec![20, 30], vec![100, 100], vec![110, 110]],
        vec![0, 0, 1, 1],
    )
}

#[test]
fn forest_predicts_two_clusters() {
    let (data, labels) = two_cluster_data();
    let mut forest = RandomForest::new(5);
    assert_eq!(forest.train(&data, &labels, 3), Ok(()));
    let out = forest.predict(&vec![vec![15, 25], vec![105, 105]]);
    assert_eq!(out, Ok(vec![0, 1]));
}

#[test]
fn forest_output_length_matches_input_length() {
    let (data, labels) = two_cluster_data();
    let mut forest = RandomForest::new(3);
    assert_eq!(forest.train(&data, &labels, 3), Ok(()));
    for n in 0..4 {
        let mut test: Vec<Vec<i32>> = Vec::new();
        for k in 0..n {
            test.push(vec![10 * k, 10 * k]);
        }
        let out = forest.predict(&test).unwrap();
        assert_eq!(out.len(), n as usize);
    }
}

#[test]
fn forest_agrees_with_member_trees() {
    // every member is trained on the identical dataset, so the vote is
    // unanimous and matches a single tree trained the same way
    let data = vec![
        vec![10, 20], vec![20, 30], vec![30, 40], vec![15, 25], vec![25, 35],
        vec![50, 60], vec![60, 70], vec![70, 80], vec![55, 65], vec![65, 75],
        vec![100, 100], vec![110, 110], vec![120, 120], vec![105, 105], vec![115, 115],
    ];
    let labels = vec![0, 0, 0, 0, 0, 1, 1, 1, 1, 1, 2, 2, 2, 2, 2];
    let test = vec![vec![40, 50], vec![10, 10], vec![200, 200]];
    let mut forest = create_random_forest(10);
    assert_eq!(forest.train(&data, &labels, 5), Ok(()));
    let mut tree = DecisionTree::new();
    assert_eq!(tree.train(&data, &labels, 5), Ok(()));
    let forest_out = forest.predict(&test).unwrap();
    let tree_out = tree.predict(&test).unwrap();
    assert_eq!(forest_out, tree_out);
    for lab in &forest_out {
        assert!(*lab <= 2);
    }
}

#[test]
fn forest_single_class() {
    let data = vec![vec![1], vec![2], vec![3], vec![4]];
    let labels = vec![2, 2, 2, 2];
    let mut forest = RandomForest::new(4);
    assert_eq!(forest.train(&data, &labels, 9), Ok(()));
    assert_eq!(forest.predict(&vec![vec![0], vec![100]]), Ok(vec![2, 2]));
}

#[test]
fn forest_untrained_fails() {
    let forest = RandomForest::new(2);
    assert_eq!(forest.predict(&vec![vec![1]]), Err(ModelError::Untrained));
}

#[test]
fn forest_rejects_invalid_input() {
    let mut forest = RandomForest::new(2);
    assert_eq!(forest.train(&vec![vec![1]], &vec![0, 1], 3), Err(ModelError::InvalidInput));
    // the forest stays untrained after a rejected call
    assert_eq!(forest.predict(&vec![vec![1]]), Err(ModelError::Untrained));
}

#[test]
fn forest_short_instance_fails() {
    let (data, labels) = two_cluster_data();
    let mut forest = RandomForest::new(2);
    assert_eq!(forest.train(&data, &labels, 3), Ok(()));
    assert_eq!(forest.predict(&vec![vec![]]), Err(ModelError::IndexOutOfRange));
}

#[test]
fn forest_training_is_deterministic() {
    let (data, labels) = two_cluster_data();
    let test = vec![vec![15, 25], vec![105, 105], vec![55, 55]];
    let mut first = create_random_forest(3);
    let mut second = create_random_forest(3);
    assert_eq!(first.train(&data, &labels, 3), Ok(()));
    assert_eq!(second.train(&data, &labels, 3), Ok(()));
    assert_eq!(first.predict(&test), second.predict(&test));
}
