use duckdb_ml::load::{LoadRequest, LoadXgbFn};
use duckdb_ml::model::registry::{CacheEntry, ModelRegistry};
use duckdb_ml::model::types::{Algorithm, ModelError, ModelMetadata};
use duckdb_ml::model::xgboost::{XgbModel, XgbModelWrapper};

fn bits(v: &[f64]) -> Vec<u64> {
    v.iter().map(|x| x.to_bits()).collect()
}

fn read(s: &str) -> Option<u64> {
    s.parse::<f64>().ok().map(|x| x.to_bits())
}

fn sum(base: u64, leaves: &Vec<u64>) -> u64 {
    let mut s = f64::from_bits(base);
    for v in leaves {
        s += f64::from_bits(*v);
    }
    s.to_bits()
}

fn logistic(score: u64) -> u64 {
    (1.0 / (1.0 + (-f64::from_bits(score)).exp())).to_bits()
}

fn two_trees(objective: &str) -> String {
    format!(
        r#"{{
        "version": [2, 1, 3],
        "learner": {{
            "learner_model_param": {{
                "base_score": "5.0E0",
                "num_feature": "2"
            }},
            "objective": {{"name": "{objective}"}},
            "gradient_booster": {{
                "name": "gbtree",
                "model": {{
                    "gbtree_model_param": {{"num_trees": "2"}},
                    "trees": [
                        {{
                            "left_children": [1, -1, -1],
                            "right_children": [2, -1, -1],
                            "split_indices": [0, 0, 0],
                            "split_conditions": [0.5, 0.0, 0.0],
                            "base_weights": [0.0, -1.0, 2.0],
                            "default_left": [0, 0, 0]
                        }},
                        {{
                            "left_children": [-1, -1],
                            "right_children": [-1, -1],
                            "split_indices": [0, 0],
                            "split_conditions": [0.0, 0.0],
                            "base_weights": [1.5, 1.5],
                            "default_left": [0, 0]
                        }}
                    ]
                }}
            }}
        }}
    }}"#
    )
}

fn ask(m: &XgbModel, features: &[f64]) -> f64 {
    f64::from_bits(m.predict(&bits(features), &sum, &logistic).unwrap())
}

#[test]
fn test_xgb_model_parse_and_predict() {
    let model = XgbModel::from_json(two_trees("reg:squarederror").as_bytes(), &read).unwrap();
    assert_eq!(f64::from_bits(model.base_score), 5.0);
    assert_eq!(model.num_features, 2);
    assert_eq!(model.n_trees(), 2);
    assert!((ask(&model, &[0.0, 0.0]) - 5.5).abs() < 0.01);
    assert!((ask(&model, &[1.0, 1.0]) - 8.5).abs() < 0.01);
}

#[test]
fn leaves_and_widths() {
    let model = XgbModel::from_json(two_trees("reg:squarederror").as_bytes(), &read).unwrap();
    assert_eq!(
        model.find_leaves(&bits(&[0.0, 0.0])),
        Some(bits(&[-1.0, 1.5]))
    );
    assert!(model.predict(&bits(&[0.0]), &sum, &logistic).is_err());
    assert_eq!(model.objective(), "reg:squarederror");
    assert_eq!(model.num_features(), 2);
    assert_eq!(model.to_bytes(&[1, 2]), vec![1, 2]);
}

#[test]
fn binary_objective_goes_through_the_logistic_curve() {
    let model = XgbModel::from_json(two_trees("binary:logistic").as_bytes(), &read).unwrap();
    let p = ask(&model, &[0.0, 0.0]);
    assert!((p - 1.0 / (1.0 + (-5.5f64).exp())).abs() < 1e-12);
    let raw = model.predict_raw(&bits(&[0.0, 0.0]), &sum).unwrap();
    assert_eq!(f64::from_bits(raw), 5.5);
}

#[test]
fn broken_models_are_refused() {
    assert!(XgbModel::from_json(b"{", &read).is_err());
    assert!(XgbModel::from_json(b"{}", &read).is_err());
    assert!(matches!(
        XgbModelWrapper::new(b"[]".to_vec(), &read),
        Err(ModelError::Serialization(_))
    ));
}

#[test]
fn kept_model_reads_back() {
    let json = two_trees("reg:squarederror").into_bytes();
    let w = XgbModelWrapper::new(json.clone(), &read).unwrap();
    assert_eq!(w.serialize(), json);
    let back = XgbModelWrapper::deserialize(&w.serialize(), &read).unwrap();
    assert_eq!(back.model, w.model);
    assert_eq!(back.metadata, w.metadata);
}

/// A small model with one tree over two features.
fn make_xgb_json() -> String {
    r#"{"version":[2,0,0],"learner":{"gradient_booster":{"name":"gbtree","model":{"gbtree_model_param":{"num_trees":"1","num_features":"2"},"trees":[{"base_weights":[-0.5,0.5,-1.0],"categories":[],"categories_nodes":[],"categories_segments":[],"categories_sizes":[],"default_left":[false,false,false],"id":0,"left_children":[-1,-1,-1],"loss_changes":[0.0,0.0,0.0],"parents":[2147483647,0,0],"right_children":[-1,-1,-1],"split_conditions":[-0.5,0.5,0.0],"split_indices":[0,1,0],"split_type":[0,0,0],"sum_hessian":[0.0,0.0,0.0],"tree_param":{"num_deleted":"0","num_feature":"2","num_nodes":"3","size_leaf_vector":"0"}}],"tree_info":[0,0,0]}},"learner_model_param":{"base_score":"5E-1","num_class":"0","num_feature":"2"},"objective":{"name":"reg:squarederror"}}}"#.to_string()
}

#[test]
fn test_load_xgboost_from_bytes() {
    let model = XgbModelWrapper::new(make_xgb_json().into_bytes(), &read).unwrap();
    assert_eq!(model.metadata.algorithm, Algorithm::XGBoostRegressor);

    let mut registry: ModelRegistry<XgbModelWrapper> = ModelRegistry::new(10);
    let metadata = ModelMetadata {
        algorithm: Algorithm::XGBoostRegressor,
        num_features: 2,
        num_samples: 0,
        r_squared: None,
        mse: None,
        coefficients_count: 1,
        hyperparameters_json: "{}".to_string(),
    };
    registry.insert("test_xgb_load", CacheEntry { model, metadata }, 1);
    let m = registry.get("test_xgb_load", 2).unwrap();
    let f = bits(&[1.0, 2.0]);
    assert!(m.model.model.find_leaves(&f).is_some());
    let pred = f64::from_bits(m.model.predict(&f, &sum, &logistic).unwrap());
    assert!(pred.is_finite(), "pred={pred}");
    assert_eq!(pred, 0.0);
}

#[test]
fn loading_registers_the_model() {
    let mut registry: ModelRegistry<XgbModelWrapper> = ModelRegistry::new(10);
    let make = |w: XgbModelWrapper| CacheEntry {
        metadata: ModelMetadata {
            algorithm: w.metadata.algorithm,
            num_features: w.metadata.num_features,
            num_samples: w.metadata.num_samples,
            r_squared: w.metadata.r_squared,
            mse: w.metadata.mse,
            coefficients_count: w.metadata.coefficients_count,
            hyperparameters_json: w.metadata.hyperparameters_json.clone(),
        },
        model: w,
    };
    let request = LoadXgbFn::plan(&vec!["m".to_string(), "/m.json".to_string()]).unwrap();
    assert_eq!(
        request,
        LoadRequest {
            model_name: "m".to_string(),
            file_path: "/m.json".to_string(),
            num_features: request.num_features,
        }
    );
    let row = LoadXgbFn::finish(
        &request,
        Ok(make_xgb_json().into_bytes()),
        &mut registry,
        5,
        &read,
        &make,
    )
    .unwrap();
    assert_eq!(row.model_name, "m");
    assert_eq!(row.status, "loaded");
    assert_eq!(row.num_features, 2);
    assert_eq!(registry.list(), vec!["m".to_string()]);
    assert_eq!(
        LoadXgbFn::finish(
            &request,
            Err("gone".to_string()),
            &mut registry,
            6,
            &read,
            &make
        )
        .unwrap_err(),
        "Cannot read XGBoost model file '/m.json': gone"
    );
    assert!(LoadXgbFn::finish(
        &request,
        Ok(b"{}".to_vec()),
        &mut registry,
        7,
        &read,
        &make
    )
    .unwrap_err()
    .starts_with("Serialization error: "));
    assert!(LoadXgbFn::plan(&vec!["m".to_string()]).is_err());
}
