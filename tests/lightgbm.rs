use silva::parser::lightgbm::LightGbmError;
use silva::parser::read_lightgbm_model;
use silva::MultiOutputForest;

fn parse_float(t: &[u8]) -> Option<u64> {
    std::str::from_utf8(t)
        .ok()
        .and_then(|s| s.parse::<f64>().ok())
        .map(f64::to_bits)
}

fn add(a: u64, b: u64) -> u64 {
    (f64::from_bits(a) + f64::from_bits(b)).to_bits()
}

fn predict(model: &MultiOutputForest, x: &[f64]) -> Vec<f64> {
    let x: Vec<u64> = x.iter().map(|v| v.to_bits()).collect();
    model
        .predict(&x, &add)
        .unwrap()
        .into_iter()
        .map(f64::from_bits)
        .collect()
}

/// A section for a stump on feature 0 at 5.0 with leaves `low` and `high`.
fn stump(index: usize, low: f64, high: f64) -> String {
    format!(
        "Tree={index}\nnum_leaves=2\nsplit_feature=0\nthreshold=5\nleft_child=-1\nright_child=-2\nleaf_value={low} {high}\nshrinkage=1\n\n"
    )
}

fn header(per_iteration: Option<usize>) -> String {
    let mut h = String::from("tree\nversion=v4\nnum_class=2\n");
    if let Some(k) = per_iteration {
        h.push_str(&format!("num_tree_per_iteration={k}\n"));
    }
    h.push_str("max_feature_idx=1\n\n");
    h
}

#[test]
fn two_rounds_of_two_trees_give_two_forests_in_round_order() {
    let mut text = header(Some(2));
    text.push_str(&stump(0, 1.0, 2.0));
    text.push_str(&stump(1, 11.0, 12.0));
    text.push_str(&stump(2, 21.0, 22.0));
    text.push_str(&stump(3, 31.0, 32.0));
    text.push_str("end of trees\n");
    let model = read_lightgbm_model(&text, &parse_float).unwrap();
    assert_eq!(model.forests().len(), 2);
    for forest in model.forests() {
        assert_eq!(forest.trees().len(), 2);
        assert_eq!(forest.base_value(), 0.0f64.to_bits());
    }
    assert_eq!(predict(&model, &[4.0]), vec![22.0, 42.0]);
    assert_eq!(predict(&model, &[5.0]), vec![24.0, 44.0]);
    let first: Vec<f64> = model.forests()[0]
        .trees()
        .iter()
        .map(|t| f64::from_bits(t.predict(&[0.0f64.to_bits()]).unwrap()))
        .collect();
    assert_eq!(first, vec![1.0, 21.0]);
}

#[test]
fn missing_trees_per_iteration_is_refused() {
    let mut text = header(None);
    text.push_str(&stump(0, 1.0, 2.0));
    let result = read_lightgbm_model(&text, &parse_float);
    assert!(matches!(result, Err(LightGbmError::InvalidParameters { .. })));
}

#[test]
fn zero_or_malformed_trees_per_iteration_is_refused() {
    let mut text = header(Some(0));
    text.push_str(&stump(0, 1.0, 2.0));
    assert!(read_lightgbm_model(&text, &parse_float).is_err());
    let text = "num_tree_per_iteration=two\n".to_string() + &stump(0, 1.0, 2.0);
    assert!(read_lightgbm_model(&text, &parse_float).is_err());
}

#[test]
fn incomplete_round_is_left_out() {
    let mut text = header(Some(2));
    text.push_str(&stump(0, 1.0, 2.0));
    text.push_str(&stump(1, 11.0, 12.0));
    text.push_str(&stump(2, 21.0, 22.0));
    let model = read_lightgbm_model(&text, &parse_float).unwrap();
    assert_eq!(model.forests().len(), 2);
    assert_eq!(model.forests()[0].trees().len(), 1);
    assert_eq!(predict(&model, &[9.0]), vec![2.0, 12.0]);
}

#[test]
fn section_missing_a_directive_is_fatal() {
    let mut text = header(Some(1));
    text.push_str(&stump(0, 1.0, 2.0));
    text.push_str("Tree=1\nsplit_feature=0\nthreshold=5\nleft_child=-1\nright_child=-2\n\n");
    assert!(read_lightgbm_model(&text, &parse_float).is_err());
}

#[test]
fn unreadable_arrays_are_fatal() {
    let bad_float = header(Some(1)) + "Tree=0\nsplit_feature=0\nthreshold=five\nleft_child=-1\nright_child=-2\nleaf_value=1 2\n";
    assert!(read_lightgbm_model(&bad_float, &parse_float).is_err());
    let bad_int = header(Some(1)) + "Tree=0\nsplit_feature=x\nthreshold=5\nleft_child=-1\nright_child=-2\nleaf_value=1 2\n";
    assert!(read_lightgbm_model(&bad_int, &parse_float).is_err());
    let nan_leaf = header(Some(1)) + "Tree=0\nsplit_feature=0\nthreshold=5\nleft_child=-1\nright_child=-2\nleaf_value=nan 2\n";
    assert!(read_lightgbm_model(&nan_leaf, &parse_float).is_err());
    let short = header(Some(1)) + "Tree=0\nsplit_feature=0 1\nthreshold=5\nleft_child=-1 -2\nright_child=-2 -3\nleaf_value=1 2 3\n";
    assert!(read_lightgbm_model(&short, &parse_float).is_err());
}

#[test]
fn internal_children_and_leaf_ids_follow_the_format() {
    // Node 0 splits feature 0 at 5; its right child is internal node 1, which
    // splits feature 1 at 2. Leaves: 0 (left of node 0), 1 and 2 under node 1.
    let text = header(Some(1))
        + "Tree=0\r\nnum_leaves=3\r\nsplit_feature=0 1\r\nthreshold=5 2\r\nleft_child=-1 -2\r\nright_child=1 -3\r\nleaf_value=0.5 1.5 2.5\r\n";
    let model = read_lightgbm_model(&text, &parse_float).unwrap();
    assert_eq!(predict(&model, &[1.0, 0.0]), vec![0.5]);
    assert_eq!(predict(&model, &[6.0, 1.0]), vec![1.5]);
    assert_eq!(predict(&model, &[6.0, 2.0]), vec![2.5]);
    let tree = &model.forests()[0].trees()[0];
    let ids: Vec<usize> = tree.nodes().iter().map(|n| n.id).collect();
    assert_eq!(ids, vec![0, 1, 2, 3, 4]);
}
