use duckdb_ml::api;
use duckdb_ml::automl::{
    default_names, get_param, model_source, read_compare_args, CInitData, CompareFn, CompareRow,
    ModelSource, Trained,
};
use duckdb_ml::deploy::{DInitData, DeployFn};
use duckdb_ml::load::LoadOnnxFn;
use duckdb_ml::model::linear::LinearModel;
use duckdb_ml::model::registry::{CacheEntry, DataSnapshot, ModelRegistry};
use duckdb_ml::model::types::{Algorithm, ModelMetadata};
use duckdb_ml::predict::batch::PredictBatchFn;
use duckdb_ml::predict::{PInitData, PredictFn};
use duckdb_ml::snapshot::{hash_training_data, to_hex, SInitData, SnapshotFn};

fn bits(v: &[f64]) -> Vec<u64> {
    v.iter().map(|x| x.to_bits()).collect()
}

fn rows(x: &[Vec<f64>]) -> Vec<Vec<u64>> {
    x.iter().map(|r| bits(r)).collect()
}

fn strings(v: &[&str]) -> Vec<String> {
    v.iter().map(|s| s.to_string()).collect()
}

fn write(x: u64) -> String {
    format!("{:?}", f64::from_bits(x))
}

fn line(c: &Vec<u64>, f: &Vec<u64>) -> u64 {
    let mut sum = f64::from_bits(c[c.len() - 1]);
    for (a, x) in c.iter().zip(f) {
        sum += f64::from_bits(*a) * f64::from_bits(*x);
    }
    sum.to_bits()
}

fn ask(m: &LinearModel, f: &Vec<u64>) -> Result<u64, String> {
    m.predict(f, &line).map_err(|e| e.message())
}

fn same(m: &ModelMetadata) -> ModelMetadata {
    ModelMetadata {
        algorithm: m.algorithm,
        num_features: m.num_features,
        num_samples: m.num_samples,
        r_squared: m.r_squared,
        mse: m.mse,
        coefficients_count: m.coefficients_count,
        hyperparameters_json: m.hyperparameters_json.clone(),
    }
}

fn entry(coefficients: &[f64], r2: Option<f64>) -> CacheEntry<LinearModel> {
    let model = LinearModel::new(
        bits(coefficients),
        6,
        r2.map(|x| x.to_bits()),
        None,
        0.0f64.to_bits(),
        &write,
    );
    CacheEntry {
        metadata: same(&model.metadata),
        model,
    }
}

fn six_rows() -> Vec<Vec<f64>> {
    vec![
        vec![1.0, 2.0],
        vec![2.0, 1.0],
        vec![3.0, 4.0],
        vec![4.0, 3.0],
        vec![5.0, 6.0],
        vec![6.0, 5.0],
    ]
}

// -- the cache --

#[test]
fn least_recently_used_model_leaves() {
    let mut r = ModelRegistry::new(2);
    assert!(r.is_empty());
    r.insert("a", entry(&[1.0, 0.0], None), 1);
    r.insert("b", entry(&[1.0, 0.0], None), 2);
    assert!(r.get("a", 3).is_some());
    r.insert("c", entry(&[1.0, 0.0], None), 4);
    assert_eq!(r.len(), 2);
    assert!(r.peek("b").is_none());
    assert!(r.peek("a").is_some());
    let mut names = r.list();
    names.sort();
    assert_eq!(names, strings(&["a", "c"]));
    r.remove("a");
    assert_eq!(r.list(), strings(&["c"]));
}

#[test]
fn replacing_a_model_keeps_the_others() {
    let mut r = ModelRegistry::new(2);
    r.insert("a", entry(&[1.0, 0.0], None), 1);
    r.insert("b", entry(&[1.0, 0.0], None), 2);
    r.insert("a", entry(&[2.0, 0.0], None), 3);
    assert_eq!(r.len(), 2);
    let m = r.get("a", 4).unwrap();
    assert_eq!(ask(&m.model, &bits(&[3.0])), Ok(6.0f64.to_bits()));
}

// -- deployments --

#[test]
fn deploy_best_recent_and_rollback() {
    let mut r = ModelRegistry::new(10);
    r.insert("m", entry(&[1.0, 0.0], Some(0.5)), 1);
    r.insert("m_v2", entry(&[1.0, 0.0], Some(0.9)), 2);
    r.insert("other", entry(&[1.0, 0.0], Some(1.0)), 3);
    assert_eq!(r.deploy("m", "best_score", "m", 4).unwrap().model_key, "m_v2");
    assert_eq!(
        r.deploy("m", "rollback", "m", 5).unwrap_err(),
        "No deployment history for rollback"
    );
    assert_eq!(r.deploy("m", "most_recent", "m", 6).unwrap().model_key, "m");
    assert_eq!(r.get_deployed("m"), Some("m".to_string()));
    let back = r.deploy("m", "rollback", "m", 7).unwrap();
    assert_eq!(back.model_key, "m_v2");
    assert_eq!(back.strategy, "rollback");
    assert_eq!(back.deployed_at, 7);
    assert_eq!(r.get_deployed("m"), Some("m_v2".to_string()));
    assert!(r.get_deployed_model("m", 8).is_some());
    assert!(r.get_deployed_model("n", 8).is_none());
    assert_eq!(
        r.get_deployment_info(),
        vec![(
            "m".to_string(),
            "m_v2".to_string(),
            "linear_regression".to_string()
        )]
    );
}

#[test]
fn failed_deployments_change_nothing() {
    let mut r = ModelRegistry::new(10);
    r.insert("m", entry(&[1.0, 0.0], None), 1);
    assert_eq!(
        r.deploy("m", "best_score", "m", 2).unwrap_err(),
        "No model found for 'm' with best_score"
    );
    assert_eq!(
        r.deploy("m", "most_recent", "gone", 3).unwrap_err(),
        "Model 'gone' not found in registry"
    );
    assert_eq!(r.get_deployed("m"), None);
}

#[test]
fn deploy_rows() {
    let mut r = ModelRegistry::new(10);
    r.insert("m", entry(&[1.0, 0.0], Some(0.5)), 1);
    let row = DeployFn::bind(&strings(&["m", "best_score"]), &mut r, 2).unwrap();
    assert!(row.success);
    assert_eq!(row.model_key, "m");
    assert_eq!(row.algorithm, "linear_regression");
    assert!(row.error().is_none());
    let row = DeployFn::bind(&strings(&["m", "most_recent", "gone"]), &mut r, 3).unwrap();
    assert!(!row.success);
    assert_eq!(row.error().unwrap(), "Model 'gone' not found in registry");
    assert_eq!(row.model_key, "");
    assert_eq!(
        DeployFn::bind(&strings(&["m"]), &mut r, 4).unwrap_err(),
        "ml_deploy requires: model_name, strategy [, model_key]"
    );
    let mut turn = DInitData::init();
    assert!(turn.take());
    assert!(!turn.take());
}

// -- snapshots --

#[test]
fn test_hash_training_data() {
    let x = rows(&[vec![1.0, 2.0], vec![3.0, 4.0]]);
    let h1 = hash_training_data(&x, &bits(&[5.0, 6.0]));
    assert_eq!(h1.len(), 64);
    let h2 = hash_training_data(&x, &bits(&[5.0, 6.0]));
    assert_eq!(h1, h2);
    let h3 = hash_training_data(&x, &bits(&[7.0, 6.0]));
    assert_ne!(h1, h3);
}

#[test]
fn hash_of_nothing_is_the_known_digest() {
    assert_eq!(
        hash_training_data(&vec![], &vec![]),
        "e3b0c44298fc1c149afbf4c8996fb92427ae41e4649b934ca495991b7852b855"
    );
    assert_eq!(to_hex(&vec![0, 15, 160, 255]), "000fa0ff");
}

#[test]
fn test_snapshot_registry() {
    let mut r: ModelRegistry<LinearModel> = ModelRegistry::new(10);
    r.add_snapshot(DataSnapshot {
        model_name: "my_model".to_string(),
        relation_name: "my_table".to_string(),
        n_features: 4,
        n_samples: 250,
        target_column: "target".to_string(),
        feature_columns: strings(&["x1", "x2", "x3", "x4"]),
        data_hash: "abc123def".to_string(),
    });
    let snaps = r.list_snapshots("my_model");
    assert_eq!(snaps.len(), 1);
    assert_eq!(snaps[0].relation_name, "my_table");
    assert_eq!(snaps[0].n_features, 4);
    assert_eq!(snaps[0].n_samples, 250);
    let empty = r.list_snapshots("nonexistent");
    assert!(empty.is_empty());
}

#[test]
fn snapshot_function_reads_its_arguments() {
    let mut r: ModelRegistry<LinearModel> = ModelRegistry::new(10);
    let args = strings(&["m", "t", "2", "+30", "y", "[\"a\",\"b\"]", "h"]);
    let row = SnapshotFn::bind(&args, &mut r).unwrap();
    assert_eq!(row.n_samples, 30);
    assert_eq!(row.feature_columns, "[\"a\",\"b\"]");
    assert!(row.success);
    assert_eq!(r.list_snapshots("m")[0].feature_columns, strings(&["a", "b"]));
    assert!(SnapshotFn::bind(&strings(&["m"]), &mut r).is_err());
    let bad = strings(&["m", "t", "x", "30", "y", "[]", "h"]);
    assert_eq!(
        SnapshotFn::bind(&bad, &mut r).unwrap_err(),
        "invalid digit found in string"
    );
    let bad = strings(&["m", "t", "2", "30", "y", "{", "h"]);
    assert!(SnapshotFn::bind(&bad, &mut r)
        .unwrap_err()
        .starts_with("Invalid feature_columns JSON: "));
    let mut turn = SInitData::init();
    assert!(turn.take());
    assert!(!turn.take());
}

// -- predictions --

#[test]
fn test_predict_batch_registry() {
    let mut r = ModelRegistry::new(10);
    r.insert("btest_lin", entry(&[3.0, 2.0, 1.0], None), 1);
    let m = r.get("btest_lin", 2).unwrap();
    let p1 = f64::from_bits(ask(&m.model, &bits(&[3.0, 3.0])).unwrap());
    assert!(p1.is_finite(), "btest_lin: {p1}");
    assert_eq!(p1, 16.0);
}

#[test]
fn test_predict_batch_at_syntax() {
    let x = six_rows();
    let mut r = ModelRegistry::new(10);
    r.insert("btest_at", entry(&[3.0, 2.0, 1.0], None), 1);
    r.cache_dataset("btest_at", rows(&x));
    let cached = r.get_dataset("btest_at").unwrap();
    assert_eq!(cached.len(), 6);
    assert_eq!(cached[0], bits(&[1.0, 2.0]));

    let out = PredictBatchFn::bind(&strings(&["btest_at", "@btest_at"]), &mut r, 2, &ask).unwrap();
    assert_eq!(out.predictions.len(), 6);
    assert_eq!(f64::from_bits(out.predictions[0]), 8.0);
    assert_eq!(out.row_ids, vec![0, 1, 2, 3, 4, 5]);
}

#[test]
fn one_prediction() {
    let mut r = ModelRegistry::new(10);
    r.insert("m", entry(&[3.0, 1.0], None), 1);
    let out = PredictFn::bind(&strings(&["m", "[2.0]"]), &mut r, 2, &ask).unwrap();
    assert_eq!(f64::from_bits(out.prediction), 7.0);
    assert_eq!(
        PredictFn::bind(&strings(&["n", "[2.0]"]), &mut r, 3, &ask).unwrap_err(),
        "Model 'n' not loaded"
    );
    assert_eq!(
        PredictFn::bind(&strings(&["m", "[2.0,3.0]"]), &mut r, 4, &ask).unwrap_err(),
        "Feature count mismatch: expected 1, got 2"
    );
    assert!(PredictFn::bind(&strings(&["m", "[2"]), &mut r, 5, &ask)
        .unwrap_err()
        .starts_with("Invalid features JSON '[2': "));
    assert!(PredictFn::bind(&strings(&["m"]), &mut r, 6, &ask).is_err());
    let mut turn = PInitData::init();
    assert!(turn.take());
    assert!(!turn.take());
}

#[test]
fn batch_errors() {
    let mut r = ModelRegistry::new(10);
    r.insert("m", entry(&[3.0, 1.0], None), 1);
    let out = PredictBatchFn::bind(&strings(&["m", "[[1.0],[2.0]]"]), &mut r, 2, &ask).unwrap();
    assert_eq!(out.predictions, bits(&[4.0, 7.0]));
    assert_eq!(
        PredictBatchFn::bind(&strings(&["m", "[]"]), &mut r, 3, &ask).unwrap_err(),
        "features_json must contain at least one row"
    );
    assert_eq!(
        PredictBatchFn::bind(&strings(&["m", "[[1.0],[]]"]), &mut r, 4, &ask).unwrap_err(),
        "Row 1: expected 1 features, got 0"
    );
    assert!(PredictBatchFn::bind(&strings(&["m", "@nothing"]), &mut r, 5, &ask).is_err());
    assert!(PredictBatchFn::bind(&strings(&["n", "[[1.0]]"]), &mut r, 6, &ask).is_err());
}

// -- listing and loading --

#[test]
fn listing_models() {
    let mut r = ModelRegistry::new(10);
    r.insert("m", entry(&[3.0, 1.0], Some(0.5)), 1);
    let rows = api::ListModelsFn::bind(&mut r, 2);
    assert_eq!(rows.names, strings(&["m"]));
    assert_eq!(rows.algorithms, strings(&["linear_regression"]));
    assert_eq!(rows.r_squared, vec![Some(0.5f64.to_bits())]);
    assert_eq!(rows.mse, vec![None]);
    let mut turn = api::LInitData::init();
    assert_eq!(turn.take(5000), 2048);
    assert_eq!(turn.take(5000), 0);
    let mut turn = api::LInitData::init();
    assert_eq!(turn.take(1), 1);
}

#[test]
fn loading_onnx_registers_the_model() {
    let request = LoadOnnxFn::plan(&strings(&["m", "/m.onnx", "4"])).unwrap();
    assert_eq!(request.num_features, 4);
    assert!(LoadOnnxFn::plan(&strings(&["m"])).is_err());
    let mut r = ModelRegistry::new(10);
    let row = LoadOnnxFn::finish("m", Ok(entry(&[1.0, 0.0], None)), &mut r, 1).unwrap();
    assert_eq!(row.status, "loaded");
    assert_eq!(r.len(), 1);
    assert_eq!(
        LoadOnnxFn::finish("n", Err("no file".to_string()), &mut r, 2).unwrap_err(),
        "no file"
    );
    assert_eq!(r.len(), 1);
}

// -- comparison --

fn trained(r2: f64) -> Trained {
    Trained {
        coefficients: bits(&[1.0, 0.0]),
        num_samples: 2,
        r_squared: Some(r2.to_bits()),
        mse: None,
        model_blob: None,
    }
}

#[test]
fn compare_trains_each_algorithm() {
    let mut r = ModelRegistry::new(10);
    let train = |a: Algorithm, x: &Vec<Vec<u64>>, _: &Vec<u64>, p: &Vec<(String, u64)>| {
        if x.is_empty() {
            return Err("empty".to_string());
        }
        assert_eq!(p.len(), 1);
        match a {
            Algorithm::LinearRegression => Ok(trained(0.25)),
            Algorithm::RidgeRegression => Ok(trained(0.75)),
            _ => Err("no luck".to_string()),
        }
    };
    let make = |s: ModelSource| match s {
        ModelSource::Linear { r_squared, .. } => {
            Some(entry(&[1.0, 0.0], r_squared.map(f64::from_bits)))
        }
        _ => None,
    };
    let args = strings(&[
        "exp",
        "[1,2]",
        "[[1],[2]]",
        "[\"linear_regression\",\"ridge_regression\",\"pca\"]",
        "regression",
        "{\"lambda\":0.5}",
    ]);
    let out = CompareFn::bind(&args, &mut r, &train, &make, &|| 9).unwrap();
    assert_eq!(out.len(), 3);
    assert_eq!(out[0].algorithm, "linear_regression");
    assert_eq!(out[1].algorithm, "ridge_regression");
    assert_eq!(out[1].r_squared, Some(0.75f64.to_bits()));
    assert_eq!(out[2].algorithm, "pca (ERR: no luck)");
    assert_eq!(out[0].n_samples, 2);
    assert_eq!(out[0].n_features, 1);
    assert_eq!(r.len(), 2);
    assert!(r.peek("exp_ridge_regression").is_some());
    assert!(CompareFn::bind(&strings(&["exp"]), &mut r, &train, &make, &|| 9).is_err());
}

#[test]
fn compare_arguments() {
    assert_eq!(default_names("classification").len(), 4);
    assert_eq!(
        default_names("regression"),
        strings(&[
            "linear_regression",
            "lasso_regression",
            "random_forest",
            "knn_regressor",
            "mlp_regressor",
        ])
    );
    let job = read_compare_args(&strings(&["e", "[1]", "[[2]]", "[]"])).unwrap();
    assert_eq!(job.names, default_names("regression"));
    assert!(job.params.is_empty());
    assert!(read_compare_args(&strings(&["e", "[1", "[[2]]", "[]"])).is_err());
    let params = vec![("a".to_string(), 1), ("b".to_string(), 2)];
    assert_eq!(get_param(&params, "b"), Some(2));
    assert_eq!(get_param(&params, "c"), None);
}

#[test]
fn sources_by_algorithm() {
    let blob = Trained {
        model_blob: Some(vec![1, 2]),
        ..trained(0.5)
    };
    assert!(matches!(
        model_source(Algorithm::PCA, blob, &vec![]),
        Some(ModelSource::Pca(b)) if b == vec![1, 2]
    ));
    assert!(model_source(Algorithm::PCA, trained(0.5), &vec![]).is_none());
    let params = vec![("lambda".to_string(), 0.5f64.to_bits())];
    assert!(matches!(
        model_source(Algorithm::RidgeRegression, trained(0.5), &params),
        Some(ModelSource::Linear { lambda, .. }) if lambda == 0.5f64.to_bits()
    ));
}

#[test]
fn compare_rows_come_in_chunks() {
    let row = |i: i32| CompareRow {
        model_name: format!("m{i}"),
        algorithm: "pca".to_string(),
        r_squared: None,
        mse: None,
        n_samples: i,
        n_features: 1,
    };
    let mut state = CInitData::init((0..2050).map(row).collect());
    let first = state.next_chunk();
    assert_eq!(first.len(), 2048);
    assert_eq!(first[5], row(5));
    let second = state.next_chunk();
    assert_eq!(second, vec![row(2048), row(2049)]);
    assert!(state.next_chunk().is_empty());
}

#[test]
fn label_maps_are_kept_by_name() {
    let mut r: ModelRegistry<LinearModel> = ModelRegistry::new(10);
    r.set_label_map("m", strings(&["no", "yes"]));
    assert_eq!(r.label_map_for("m"), Some(&strings(&["no", "yes"])));
    assert_eq!(r.label_map_for("n"), None);
}
