use std::collections::HashMap;

use silva::parser::xgboost::{
    GbtreeModelParamRecord, GbtreeModelRecord, GblinearModelRecord, GradientBooster,
    LearnerModelParamRecord, LearnerRecord, ObjectiveRecord, TreeParamRecord, TreeRecord,
    XGBoostError, XGBoostModelRecord,
};
use silva::parser::{parse_base_score, parse_xgboost_model};

fn parse_float(t: &[u8]) -> Option<u64> {
    std::str::from_utf8(t)
        .ok()
        .and_then(|s| s.parse::<f64>().ok())
        .map(f64::to_bits)
}

fn logit(b: u64) -> u64 {
    let p = f64::from_bits(b);
    (p / (1.0 - p)).ln().to_bits()
}

fn add(a: u64, b: u64) -> u64 {
    (f64::from_bits(a) + f64::from_bits(b)).to_bits()
}

fn floats(v: &[u64]) -> Vec<f64> {
    v.iter().map(|b| f64::from_bits(*b)).collect()
}

fn model_param() -> GbtreeModelParamRecord {
    GbtreeModelParamRecord {
        num_trees: "1".to_string(),
        num_parallel_tree: "1".to_string(),
    }
}

fn learner(gradient_booster: GradientBooster, objective: &str, base_score: &str) -> XGBoostModelRecord {
    XGBoostModelRecord {
        version: [1, 0, 0],
        learner: LearnerRecord {
            feature_names: None,
            feature_types: None,
            gradient_booster,
            objective: ObjectiveRecord {
                name: objective.to_string(),
                extra_fields: HashMap::new(),
            },
            learner_model_param: LearnerModelParamRecord {
                base_score: base_score.to_string(),
                num_class: None,
                num_feature: None,
                num_target: None,
            },
        },
    }
}

/// A tree record from parallel arrays; every other array is empty.
fn tree_record(left: Vec<i32>, right: Vec<i32>, split_indices: Vec<i32>, split_conditions: Vec<f64>) -> TreeRecord {
    let conditions: Vec<u64> = split_conditions.iter().map(|v| v.to_bits()).collect();
    TreeRecord {
        tree_param: TreeParamRecord {
            num_nodes: left.len().to_string(),
            size_leaf_vector: "1".to_string(),
            num_feature: "2".to_string(),
        },
        id: 0,
        loss_changes: vec![],
        sum_hessian: vec![],
        base_weights: vec![0; left.len()],
        left_children: left,
        right_children: right,
        parents: vec![],
        split_indices,
        split_conditions: conditions,
        split_type: vec![],
        default_left: vec![],
        categories: vec![],
        categories_nodes: vec![],
        categories_segments: vec![],
        categories_sizes: vec![],
    }
}

fn leaf_record(value: f64) -> TreeRecord {
    tree_record(vec![-1], vec![-1], vec![0], vec![value])
}

fn gbtree(trees: Vec<TreeRecord>, tree_info: Vec<usize>) -> GradientBooster {
    GradientBooster::Gbtree {
        model: GbtreeModelRecord {
            gbtree_model_param: model_param(),
            trees,
            tree_info,
        },
    }
}

#[test]
fn test_parse_xgboost_model_unsupported_booster_gblinear() {
    let model = learner(
        GradientBooster::Gblinear {
            model: GblinearModelRecord {
                weights: vec![0.1f64.to_bits(), 0.2f64.to_bits()],
            },
        },
        "reg:squarederror",
        "0.5",
    );
    let result = parse_xgboost_model(model, &parse_float, &logit);
    assert!(result.is_err());
    let error_msg = result.err().unwrap().message();
    assert!(error_msg.contains("gblinear"));
    assert!(error_msg.contains("gbtree"));
}

#[test]
fn test_parse_xgboost_model_unsupported_booster_dart() {
    let model = learner(
        GradientBooster::Dart {
            gbtree: Box::new(gbtree(vec![], vec![0])),
            weight_drop: vec![0.1f64.to_bits()],
        },
        "reg:squarederror",
        "0.5",
    );
    let result = parse_xgboost_model(model, &parse_float, &logit);
    assert!(result.is_err());
    let error_msg = result.err().unwrap().message();
    assert!(error_msg.contains("dart"));
    assert!(error_msg.contains("gbtree"));
}

#[test]
fn test_parse_xgboost_model_unsupported_objective() {
    let model = learner(gbtree(vec![], vec![0]), "binary:logitraw", "0.5");
    let result = parse_xgboost_model(model, &parse_float, &logit);
    assert!(result.is_err());
    let error_msg = result.err().unwrap().message();
    assert!(error_msg.contains("binary:logitraw"));
    assert!(error_msg.contains("reg:squarederror"));
    assert!(error_msg.contains("binary:logistic"));
    assert!(error_msg.contains("multi:softmax"));
    assert!(error_msg.contains("multi:softprob"));
}

#[test]
fn test_parse_xgboost_model_invalid_base_score() {
    let model = learner(gbtree(vec![], vec![0]), "reg:squarederror", "invalid");
    let result = parse_xgboost_model(model, &parse_float, &logit);
    assert!(result.is_err());
    let error_msg = result.err().unwrap().message();
    assert!(error_msg.contains("base_score"));
    assert!(error_msg.contains("invalid"));
}

#[test]
fn test_parse_base_score_valid_formats() {
    let result = parse_base_score("0.5", &parse_float).unwrap();
    assert_eq!(floats(&result), vec![0.5]);

    let result = parse_base_score("[0.1,0.2,0.3]", &parse_float).unwrap();
    assert_eq!(floats(&result), vec![0.1, 0.2, 0.3]);

    let result = parse_base_score("[0.7]", &parse_float).unwrap();
    assert_eq!(floats(&result), vec![0.7]);
}

#[test]
fn test_parse_base_score_invalid_format() {
    let result = parse_base_score("invalid", &parse_float);
    assert!(result.is_err());

    let result = parse_base_score("[0.1,invalid,0.3]", &parse_float);
    assert!(result.is_err());
}

#[test]
fn base_score_error_carries_the_whole_text() {
    assert_eq!(parse_base_score("[0.1,,0.3]", &parse_float), Err("[0.1,,0.3]".to_string()));
    assert_eq!(parse_base_score("", &parse_float), Err("".to_string()));
    assert_eq!(parse_base_score("[]", &parse_float), Err("[]".to_string()));
}

#[test]
fn error_messages_read_as_documented() {
    let e = XGBoostError::UnsupportedBooster { booster: "dart".to_string() };
    assert_eq!(e.message(), "Unsupported booster type: dart. Only 'gbtree' is supported");
    let e = XGBoostError::UnsupportedObjective {
        objective: "x".to_string(),
        supported: vec!["a".to_string(), "b".to_string()],
    };
    assert_eq!(e.message(), "Unsupported objective function: x. Supported objectives: [\"a\", \"b\"]");
    let e = XGBoostError::InvalidParameters { parameter: "p".to_string() };
    assert_eq!(e.message(), "Model parameter error: p");
    let e = XGBoostError::FileRead { cause: "c".to_string() };
    assert_eq!(e.message(), "File read error: c");
}

#[test]
fn single_base_value_is_broadcast_to_every_class() {
    let trees = vec![leaf_record(1.0), leaf_record(2.0), leaf_record(3.0)];
    let model = learner(gbtree(trees, vec![0, 1, 2]), "multi:softprob", "0.5");
    let forest = parse_xgboost_model(model, &parse_float, &logit).unwrap();
    assert_eq!(forest.forests().len(), 3);
    for f in forest.forests() {
        assert_eq!(f64::from_bits(f.base_value()), 0.5);
        assert_eq!(f.trees().len(), 1);
    }
    let out = floats(&forest.predict(&[], &add).unwrap());
    assert_eq!(out, vec![1.5, 2.5, 3.5]);
}

#[test]
fn trees_are_grouped_by_class_tag_in_order() {
    let trees = vec![leaf_record(1.0), leaf_record(2.0), leaf_record(4.0), leaf_record(8.0)];
    let model = learner(gbtree(trees, vec![1, 0, 1, 0]), "multi:softmax", "[0.0,100.0]");
    let forest = parse_xgboost_model(model, &parse_float, &logit).unwrap();
    assert_eq!(forest.forests().len(), 2);
    let out = floats(&forest.predict(&[], &add).unwrap());
    assert_eq!(out, vec![10.0, 105.0]);
    let first: Vec<f64> = forest.forests()[0]
        .trees()
        .iter()
        .map(|t| f64::from_bits(t.predict(&[]).unwrap()))
        .collect();
    assert_eq!(first, vec![2.0, 8.0]);
}

#[test]
fn binary_logistic_base_score_goes_through_logit() {
    let model = learner(gbtree(vec![leaf_record(0.25)], vec![0]), "binary:logistic", "0.5");
    let forest = parse_xgboost_model(model, &parse_float, &logit).unwrap();
    assert_eq!(f64::from_bits(forest.forests()[0].base_value()), 0.0);
    let model = learner(gbtree(vec![leaf_record(0.25)], vec![0]), "reg:squarederror", "0.75");
    let forest = parse_xgboost_model(model, &parse_float, &logit).unwrap();
    assert_eq!(f64::from_bits(forest.forests()[0].base_value()), 0.75);
}

#[test]
fn split_tree_uses_split_conditions_and_positive_children() {
    // Node 0 splits feature 1 at 3.0; nodes 1 and 2 are leaves whose values
    // sit in split_conditions.
    let tree = tree_record(vec![1, -1, -1], vec![2, -1, -1], vec![1, 0, 0], vec![3.0, -1.5, 2.5]);
    let model = learner(gbtree(vec![tree], vec![0]), "reg:squarederror", "0.0");
    let forest = parse_xgboost_model(model, &parse_float, &logit).unwrap();
    let low = [0.0f64.to_bits(), 1.0f64.to_bits()];
    let high = [0.0f64.to_bits(), 3.0f64.to_bits()];
    assert_eq!(floats(&forest.predict(&low, &add).unwrap()), vec![-1.5]);
    assert_eq!(floats(&forest.predict(&high, &add).unwrap()), vec![2.5]);
}

#[test]
fn malformed_trees_and_tags_are_invalid_parameters() {
    let one_child = tree_record(vec![1, -1], vec![-1, -1], vec![0, 0], vec![1.0, 2.0]);
    let model = learner(gbtree(vec![one_child], vec![0]), "reg:squarederror", "0.5");
    let result = parse_xgboost_model(model, &parse_float, &logit);
    assert!(matches!(result, Err(XGBoostError::InvalidParameters { .. })));

    let empty = tree_record(vec![], vec![], vec![], vec![]);
    let model = learner(gbtree(vec![empty], vec![0]), "reg:squarederror", "0.5");
    let result = parse_xgboost_model(model, &parse_float, &logit);
    assert!(matches!(result, Err(XGBoostError::InvalidParameters { .. })));

    let model = learner(gbtree(vec![], vec![]), "reg:squarederror", "0.5");
    let result = parse_xgboost_model(model, &parse_float, &logit);
    assert!(matches!(result, Err(XGBoostError::InvalidParameters { .. })));
}
