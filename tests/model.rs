use silva::bits::{bits_is_nan, bits_less_than};
use silva::{Forest, MultiOutputForest, PredictError, Tree, TreeNode};

fn bits(x: &[f64]) -> Vec<u64> {
    x.iter().map(|v| v.to_bits()).collect()
}

fn add(a: u64, b: u64) -> u64 {
    (f64::from_bits(a) + f64::from_bits(b)).to_bits()
}

fn node(id: usize, split_index: usize, split: f64, left: Option<usize>, right: Option<usize>, value: f64) -> TreeNode {
    TreeNode {
        id,
        split_index,
        split_condition: split.to_bits(),
        left,
        right,
        value: value.to_bits(),
    }
}

fn first_tree() -> Tree {
    let nodes = vec![
        node(0, 0, 5.0, Some(1), Some(2), 0.0),
        node(1, 1, 3.0, Some(3), Some(4), 0.0),
        node(2, 1, 2.0, Some(5), Some(6), 0.0),
        node(3, 0, 0.0, None, None, 3.0),
        node(4, 0, 0.0, None, None, 4.0),
        node(5, 0, 0.0, None, None, 5.0),
        node(6, 0, 0.0, None, None, 6.0),
    ];
    Tree::new(nodes, 0)
}

fn second_tree() -> Tree {
    let nodes = vec![
        node(0, 0, 5.0, Some(1), Some(2), 0.0),
        node(1, 0, 2.0, None, None, 10.0),
        node(2, 0, 3.0, None, None, 20.0),
    ];
    Tree::new(nodes, 0)
}

fn tree_value(tree: &Tree, x: &[f64]) -> f64 {
    f64::from_bits(tree.predict(&bits(x)).unwrap())
}

#[test]
fn test_tree() {
    let tree = first_tree();
    assert_eq!(tree_value(&tree, &[4.0, 2.0]), 3.0);
    assert_eq!(tree_value(&tree, &[4.0, 4.0]), 4.0);
    assert_eq!(tree_value(&tree, &[6.0, 1.0]), 5.0);
    assert_eq!(tree_value(&tree, &[6.0, 3.0]), 6.0);
}

#[test]
fn test_forest_predict() {
    let forest = Forest::new(100.0f64.to_bits(), vec![first_tree(), second_tree()]);
    let predict = |x: &[f64]| f64::from_bits(forest.predict(&bits(x), &add).unwrap());
    assert_eq!(predict(&[4.0, 2.0]), 113.0);
    assert_eq!(predict(&[4.0, 4.0]), 114.0);
    assert_eq!(predict(&[6.0, 1.0]), 125.0);
    assert_eq!(predict(&[6.0, 3.0]), 126.0);
}

#[test]
fn forest_sum_follows_tree_order() {
    let forest = Forest::new(1.0f64.to_bits(), vec![first_tree(), second_tree()]);
    let x = bits(&[4.0, 2.0]);
    let total = f64::from_bits(forest.predict(&x, &add).unwrap());
    let leaves: Vec<f64> = forest
        .trees()
        .iter()
        .map(|t| f64::from_bits(t.predict(&x).unwrap()))
        .collect();
    assert_eq!(total, 1.0 + (-0.0 + leaves[0] + leaves[1]));
    assert_eq!(total, 14.0);
}

#[test]
fn empty_forest_predicts_its_base_value() {
    let forest = Forest::new(2.5f64.to_bits(), vec![]);
    assert_eq!(f64::from_bits(forest.predict(&bits(&[1.0]), &add).unwrap()), 2.5);
    let zero = Forest::new(0.0f64.to_bits(), vec![]);
    assert_eq!(zero.predict(&bits(&[1.0]), &add).unwrap(), 0.0f64.to_bits());
}

#[test]
fn multi_output_forest_predicts_each_forest_in_order() {
    let model = MultiOutputForest::new(vec![
        Forest::new(100.0f64.to_bits(), vec![first_tree(), second_tree()]),
        Forest::new(0.5f64.to_bits(), vec![second_tree()]),
    ]);
    let out: Vec<f64> = model
        .predict(&bits(&[6.0, 3.0]), &add)
        .unwrap()
        .into_iter()
        .map(f64::from_bits)
        .collect();
    assert_eq!(out, vec![126.0, 20.5]);
    assert_eq!(model.forests().len(), 2);
}

#[test]
fn ties_go_right() {
    let tree = first_tree();
    assert_eq!(tree_value(&tree, &[5.0, 2.0]), 6.0);
    assert_eq!(tree_value(&tree, &[4.0, 3.0]), 4.0);
}

#[test]
fn nan_feature_is_invalid_input() {
    let tree = first_tree();
    assert_eq!(tree.predict(&bits(&[f64::NAN, 1.0])), Err(PredictError::InvalidInput));
    assert_eq!(tree.predict(&bits(&[4.0, f64::NAN])), Err(PredictError::InvalidInput));
}

#[test]
fn short_feature_vector_is_invalid_input() {
    let tree = first_tree();
    assert_eq!(tree.predict(&bits(&[4.0])), Err(PredictError::InvalidInput));
    assert_eq!(tree.predict(&bits(&[])), Err(PredictError::InvalidInput));
}

#[test]
fn dangling_child_is_corrupt_model() {
    let tree = Tree::new(
        vec![node(0, 0, 5.0, Some(1), Some(9), 0.0), node(1, 0, 0.0, None, None, 1.0)],
        0,
    );
    assert_eq!(tree.predict(&bits(&[6.0])), Err(PredictError::CorruptModel));
    assert_eq!(f64::from_bits(tree.predict(&bits(&[4.0])).unwrap()), 1.0);
    let rootless = Tree::new(vec![node(0, 0, 0.0, None, None, 1.0)], 3);
    assert_eq!(rootless.predict(&bits(&[4.0])), Err(PredictError::CorruptModel));
}

#[test]
fn cycle_is_corrupt_model() {
    let tree = Tree::new(
        vec![node(0, 0, 5.0, Some(1), Some(1), 0.0), node(1, 0, 5.0, Some(0), Some(0), 0.0)],
        0,
    );
    assert_eq!(tree.predict(&bits(&[1.0])), Err(PredictError::CorruptModel));
}

#[test]
fn forest_reports_the_first_tree_error() {
    let broken = Tree::new(vec![node(0, 0, 5.0, Some(7), Some(8), 0.0)], 0);
    let forest = Forest::new(0.0f64.to_bits(), vec![first_tree(), broken]);
    assert_eq!(forest.predict(&bits(&[1.0, 1.0]), &add), Err(PredictError::CorruptModel));
    assert_eq!(forest.predict(&bits(&[f64::NAN, 1.0]), &add), Err(PredictError::InvalidInput));
}

#[test]
fn from_nodes_orders_by_id_and_roots_at_the_smallest() {
    let tree = Tree::from_nodes(vec![
        node(6, 0, 0.0, None, None, 6.0),
        node(2, 1, 2.0, Some(5), Some(6), 0.0),
        node(0, 0, 5.0, Some(1), Some(2), 0.0),
        node(5, 0, 0.0, None, None, 5.0),
        node(1, 1, 3.0, Some(3), Some(4), 0.0),
        node(4, 0, 0.0, None, None, 4.0),
        node(3, 0, 0.0, None, None, 3.0),
    ]);
    assert_eq!(tree.root(), 0);
    let ids: Vec<usize> = tree.nodes().iter().map(|n| n.id).collect();
    assert_eq!(ids, vec![0, 1, 2, 3, 4, 5, 6]);
    assert_eq!(tree_value(&tree, &[6.0, 3.0]), 6.0);
}

#[test]
fn node_constructor_refuses_nan_and_single_child() {
    assert!(TreeNode::new(0, 0, f64::NAN.to_bits(), Some(1), Some(2), 0).is_none());
    assert!(TreeNode::new(0, 0, 0, None, None, f64::NAN.to_bits()).is_none());
    assert!(TreeNode::new(0, 0, 0, Some(1), None, 0).is_none());
    let leaf = TreeNode::new(3, 0, 0, None, None, 7.0f64.to_bits()).unwrap();
    assert!(leaf.is_leaf());
    assert_eq!(f64::from_bits(leaf.get_value()), 7.0);
    let inner = TreeNode::new(1, 2, f64::INFINITY.to_bits(), Some(2), Some(3), 0).unwrap();
    assert!(!inner.is_leaf());
}

#[test]
fn bit_comparison_matches_float_comparison() {
    let values = [
        0.0,
        -0.0,
        1.0,
        -1.0,
        2.5,
        -2.5,
        1e-300,
        -1e-300,
        f64::MIN_POSITIVE,
        f64::MAX,
        f64::MIN,
        f64::INFINITY,
        f64::NEG_INFINITY,
        f64::NAN,
        -f64::NAN,
    ];
    for a in values {
        assert_eq!(bits_is_nan(a.to_bits()), a.is_nan());
        for b in values {
            assert_eq!(bits_less_than(a.to_bits(), b.to_bits()), a < b, "{a} < {b}");
        }
    }
}
