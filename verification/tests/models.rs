use duckdb_ml::model::checked::{find_nearest, predict_checked};
use duckdb_ml::model::choice::{find_greatest, find_least};
use duckdb_ml::model::classes::find_distinct;
use duckdb_ml::model::clusters::{AgglomerativeModel, DbscanModel, FcmModel, KMeansModel, Linkage};
use duckdb_ml::model::km::{KmMlModel, KmResult};
use duckdb_ml::model::knn::{find_closest, majority, KnnMlModel, KnnModel, KnnTask};
use duckdb_ml::model::linear::{LassoCore, LassoModel, LinearModel, LogisticModel, PolyModel};
use duckdb_ml::model::mlp::{MlpModel, MlpWeights};
use duckdb_ml::model::naive_bayes::{NaiveBayesModel, NbMlModel, EPSILON};
use duckdb_ml::model::trained::{
    AdaBoostModel, ArimaMlModel, CoxMlModel, MultilogisticModel, OrdinalMlModel, StumpData,
    SvmModel, SvrModel, SvrSettings,
};
use duckdb_ml::model::tree::{serialize_forest, ForestModel, TreeModel};
use duckdb_ml::model::tsne::TsneModel;
use duckdb_ml::model::types::{check_features, no_embedding, Algorithm, ModelError, ModelMetadata};

fn nums(v: &[u64]) -> Vec<f64> {
    v.iter().map(|b| f64::from_bits(*b)).collect()
}

fn bits(v: &[f64]) -> Vec<u64> {
    v.iter().map(|x| x.to_bits()).collect()
}

fn rows(x: &[Vec<f64>]) -> Vec<Vec<u64>> {
    x.iter().map(|r| bits(r)).collect()
}

fn write(x: u64) -> String {
    format!("{:?}", f64::from_bits(x))
}

fn value(r: Result<u64, ModelError>) -> f64 {
    f64::from_bits(r.unwrap())
}

fn squared(a: &Vec<u64>, b: &Vec<u64>) -> u64 {
    nums(a)
        .iter()
        .zip(nums(b))
        .map(|(x, y)| (x - y) * (x - y))
        .sum::<f64>()
        .to_bits()
}

fn index(c: usize) -> u64 {
    (c as f64).to_bits()
}

fn line(coefficients: &Vec<u64>, features: &Vec<u64>) -> u64 {
    let c = nums(coefficients);
    let mut sum = c[c.len() - 1];
    for (a, x) in c.iter().zip(nums(features)) {
        sum += a * x;
    }
    sum.to_bits()
}

fn metadata(algorithm: Algorithm, num_features: usize, num_samples: usize) -> ModelMetadata {
    ModelMetadata {
        algorithm,
        num_features,
        num_samples,
        r_squared: None,
        mse: None,
        coefficients_count: num_features,
        hyperparameters_json: "{}".to_string(),
    }
}

// -- nearest neighbours --

fn distance(a: &Vec<u64>, b: &Vec<u64>) -> u64 {
    f64::from_bits(squared(a, b)).sqrt().to_bits()
}

fn average(v: &Vec<u64>) -> u64 {
    (nums(v).iter().sum::<f64>() / v.len() as f64).to_bits()
}

fn bucket(y: u64) -> i64 {
    (f64::from_bits(y) * 1000.0).round() as i64
}

fn label(b: i64) -> u64 {
    (b as f64 / 1000.0).to_bits()
}

fn ask_knn(m: &KnnModel, features: &[f64]) -> f64 {
    f64::from_bits(m.predict(&bits(features), &distance, &average, &bucket, &label))
}

#[test]
fn test_knn_regression() {
    let x = vec![
        vec![0.0, 0.0],
        vec![1.0, 1.0],
        vec![2.0, 2.0],
        vec![5.0, 5.0],
        vec![6.0, 6.0],
    ];
    let y = vec![0.0, 2.0, 4.0, 10.0, 12.0];
    let model = KnnModel::new(rows(&x), bits(&y), 3, KnnTask::Regression);

    let pred = ask_knn(&model, &[3.0, 3.0]);
    assert!((pred - 5.333).abs() < 0.1, "pred={pred}");
    let pred2 = ask_knn(&model, &[5.5, 5.5]);
    assert!((pred2 - 8.667).abs() < 0.1, "pred={pred2}");
}

#[test]
fn test_knn_classification() {
    let x = vec![
        vec![0.0, 0.0],
        vec![0.5, 0.5],
        vec![1.0, 1.0],
        vec![4.0, 4.0],
        vec![5.0, 5.0],
        vec![6.0, 6.0],
    ];
    let y = vec![0.0, 0.0, 0.0, 1.0, 1.0, 1.0];
    let model = KnnModel::new(rows(&x), bits(&y), 3, KnnTask::Classification);

    let pred = ask_knn(&model, &[2.0, 2.0]);
    assert!((pred - 0.0).abs() < 0.01, "pred={pred}");
    let pred2 = ask_knn(&model, &[4.0, 5.0]);
    assert!((pred2 - 1.0).abs() < 0.01, "pred={pred2}");
}

fn two_points() -> KnnModel {
    let x = vec![vec![0.0, 0.0], vec![3.0, 4.0]];
    KnnModel::new(rows(&x), bits(&[10.0, 20.0]), 1, KnnTask::Regression)
}

#[test]
fn test_knn_serialization() {
    let model = two_points();
    let recovered = KnnModel::from_bytes(&model.to_bytes()).unwrap();

    assert_eq!(recovered.k, 1);
    assert_eq!(recovered.x_train, model.x_train);
    assert_eq!(recovered.y_train, model.y_train);

    let pred = ask_knn(&recovered, &[2.0, 3.0]);
    assert!((pred - 20.0).abs() < 0.01);
}

#[test]
fn test_knn_mlmodel_roundtrip() {
    let model = KnnMlModel {
        metadata: metadata(Algorithm::KNNRegressor, 2, 2),
        inner: two_points(),
    };
    let blob = model.serialize();
    let recovered = KnnMlModel::deserialize(&blob).unwrap();
    assert_eq!(recovered.metadata.algorithm, Algorithm::KNNRegressor);
    assert_eq!(recovered.inner.n_features(), 2);

    let f = bits(&[2.0, 3.0]);
    let orig = value(model.predict(&f, &distance, &average, &bucket, &label));
    let recv = value(recovered.predict(&f, &distance, &average, &bucket, &label));
    assert!((orig - recv).abs() < 0.01);
}

#[test]
fn knn_bytes_that_are_cut_short() {
    let bytes = two_points().to_bytes();
    assert_eq!(bytes[..4], [1, 0, 0, 0]);
    assert_eq!(bytes[4], 0);
    assert_eq!(bytes.len(), 13 + 8 * (4 + 2));
    assert!(KnnModel::from_bytes(&bytes[..bytes.len() - 1]).is_none());
    assert!(matches!(
        KnnMlModel::deserialize(&bytes[..3]),
        Err(ModelError::Serialization(_))
    ));
    assert_eq!(two_points().k(), 1);
    assert_eq!(two_points().n_samples(), 2);
}

#[test]
fn closest_and_majority() {
    let near = find_closest(&bits(&[3.0, 1.0, 2.0]), 2);
    let mut near = near;
    near.sort();
    assert_eq!(near, vec![1, 2]);
    assert_eq!(majority(&vec![5, 7, 7]), 7);
}

// -- naive Bayes --

fn key(y: u64) -> i64 {
    (f64::from_bits(y) * 1e9).round() as i64
}

fn close(a: u64, b: u64) -> bool {
    (f64::from_bits(a) - f64::from_bits(b)).abs() < 1e-12
}

fn ratio(a: usize, b: usize) -> u64 {
    (a as f64 / b as f64).to_bits()
}

fn moments(x: &Vec<Vec<u64>>, nf: usize) -> (Vec<u64>, Vec<u64>) {
    let eps = f64::from_bits(EPSILON);
    let n = x.len() as f64;
    let mut means = vec![0.0; nf];
    let mut vars = vec![eps; nf];
    for row in x {
        for j in 0..nf {
            means[j] += f64::from_bits(row[j]) / n;
        }
    }
    for row in x {
        for j in 0..nf {
            let d = f64::from_bits(row[j]) - means[j];
            vars[j] += d * d / n;
        }
    }
    for v in vars.iter_mut() {
        *v += eps;
    }
    (bits(&means), bits(&vars))
}

fn log_probability(prior: u64, means: &Vec<u64>, vars: &Vec<u64>, features: &Vec<u64>) -> u64 {
    let mut sum = 0.0;
    for ((f, m), v) in nums(features).iter().zip(nums(means)).zip(nums(vars)) {
        let d = f - m;
        sum += -0.5 * (d * d / v + (2.0 * std::f64::consts::PI * v).ln());
    }
    (f64::from_bits(prior).ln() + sum).to_bits()
}

fn train_nb(x: &[Vec<f64>], y: &[f64]) -> NaiveBayesModel {
    NaiveBayesModel::train(&rows(x), &bits(y), &key, &close, &ratio, &moments)
}

fn ask_nb(m: &NaiveBayesModel, features: &[f64]) -> f64 {
    f64::from_bits(m.predict(&bits(features), &log_probability))
}

#[test]
fn test_naive_bayes() {
    let mut x = Vec::new();
    let mut y = Vec::new();
    for _ in 0..50 {
        x.push(vec![1.0, 1.0]);
        y.push(0.0);
        x.push(vec![5.0, 5.0]);
        y.push(1.0);
    }
    let model = train_nb(&x, &y);
    assert_eq!(model.n_classes(), 2);

    let p0 = ask_nb(&model, &[1.5, 1.5]);
    assert!((p0 - 0.0).abs() < 0.01, "p0={p0}");
    let p1 = ask_nb(&model, &[4.5, 4.5]);
    assert!((p1 - 1.0).abs() < 0.01, "p1={p1}");
    assert_eq!(nums(&model.priors), vec![0.5, 0.5]);
}

fn three_samples() -> NaiveBayesModel {
    let x = vec![vec![1.0, 2.0], vec![3.0, 4.0], vec![5.0, 6.0]];
    train_nb(&x, &[0.0, 1.0, 1.0])
}

#[test]
fn test_nb_serialization() {
    let model = three_samples();
    let recovered = NaiveBayesModel::from_bytes(&model.to_bytes()).unwrap();
    assert_eq!(recovered.n_classes(), 2);
    assert_eq!(recovered, model);
    let pred = ask_nb(&recovered, &[4.0, 5.0]);
    assert!((pred - 1.0).abs() < 0.01, "pred={pred}");
}

#[test]
fn test_nb_mlmodel_roundtrip() {
    let model = NbMlModel {
        metadata: metadata(Algorithm::NaiveBayes, 2, 3),
        inner: three_samples(),
    };
    let blob = model.serialize();
    let recovered = NbMlModel::deserialize(&blob).unwrap();
    assert_eq!(recovered.metadata.algorithm, Algorithm::NaiveBayes);
    assert_eq!(recovered.inner.n_features(), 2);

    let orig = value(model.predict(&bits(&[4.0, 5.0]), &log_probability));
    let recv = value(recovered.predict(&bits(&[4.0, 5.0]), &log_probability));
    assert!((orig - recv).abs() < 0.01);
    assert!(NaiveBayesModel::from_bytes(&blob[..blob.len() - 1]).is_none());
    assert!(matches!(
        NbMlModel::deserialize(&blob[..2]),
        Err(ModelError::Serialization(_))
    ));
}

#[test]
fn nb_classes_come_in_order() {
    let x = vec![vec![1.0], vec![2.0], vec![3.0]];
    let model = train_nb(&x, &[7.0, -1.0, 7.0]);
    assert_eq!(nums(&model.classes), vec![-1.0, 7.0]);
    assert_eq!(nums(&model.priors), vec![1.0 / 3.0, 2.0 / 3.0]);
    assert_eq!(nums(&model.means[1]), vec![2.0]);
    assert_eq!(f64::from_bits(EPSILON), 1e-9);
}

// -- lines --

#[test]
fn test_lasso_predict() {
    let model = LassoModel::new(
        bits(&[3.0, 2.0, 1.0]),
        6,
        Some(0.95f64.to_bits()),
        Some(0.5f64.to_bits()),
        0.01f64.to_bits(),
        &write,
    );
    let at = |core: &LassoCore, f: &Vec<u64>| {
        let mut sum = f64::from_bits(core.intercept);
        for (a, x) in nums(&core.coefficients).iter().zip(nums(f)) {
            sum += a * x;
        }
        sum.to_bits()
    };
    let pred = value(model.predict(&bits(&[1.0, 2.0]), &at));
    assert!((pred - 8.0).abs() < 0.01, "got {pred}");
    assert_eq!(model.metadata.hyperparameters_json, "{\"lambda\":0.01}");
    assert!(model.predict(&bits(&[1.0]), &at).is_err());
    let core = LassoCore {
        coefficients: bits(&[3.0, 2.0]),
        intercept: 1.0f64.to_bits(),
        lambda: 0.5f64.to_bits(),
    };
    let restored = LassoModel::from_core(core, &write);
    assert_eq!(value(restored.predict(&bits(&[1.0, 2.0]), &at)), 8.0);
}

#[test]
fn linear_and_logistic_lines() {
    let m = LinearModel::new(bits(&[2.0, 1.0]), 3, None, None, 0.0f64.to_bits(), &write);
    assert_eq!(value(m.predict(&bits(&[4.0]), &line)), 9.0);
    assert_eq!(m.metadata.algorithm, Algorithm::LinearRegression);
    assert_eq!(
        m.predict(&bits(&[4.0, 5.0]), &line),
        Err(ModelError::FeatureCountMismatch {
            expected: 1,
            got: 2
        })
    );
    assert_eq!(nums(m.coefficients()), vec![2.0, 1.0]);

    let sigmoid = |c: &Vec<u64>, f: &Vec<u64>| {
        let z = f64::from_bits(line(c, f));
        (1.0 / (1.0 + (-z).exp())).to_bits()
    };
    let m = LogisticModel::new(bits(&[1.0, 0.0]), 3, Some(0.75f64.to_bits()), &write);
    assert_eq!(value(m.predict_proba(&bits(&[0.0]), &sigmoid)), 0.5);
    assert_eq!(value(m.predict(&bits(&[3.0]), &sigmoid)), 1.0);
    assert_eq!(value(m.predict(&bits(&[-3.0]), &sigmoid)), 0.0);
    assert_eq!(m.metadata.hyperparameters_json, "{\"accuracy\":0.75}");
}

fn times(a: u64, b: u64) -> u64 {
    (f64::from_bits(a) * f64::from_bits(b)).to_bits()
}

fn quad_model() -> PolyModel {
    PolyModel::new(
        bits(&[2.0, -3.0, 1.0]),
        2,
        20,
        None,
        None,
        0.0f64.to_bits(),
        &write,
    )
}

#[test]
fn predict_quadratic() {
    let m = quad_model();
    assert!((value(m.predict(&bits(&[1.0]), &times, &line)) - 0.0).abs() < 1e-12);
    assert!((value(m.predict(&bits(&[2.0]), &times, &line)) - (-7.0)).abs() < 1e-12);
    assert_eq!(nums(&m.expand(&bits(&[3.0]), &times)), vec![3.0, 9.0]);
    assert_eq!(m.degree(), 2);
}

#[test]
fn poly_feature_count_check() {
    let m = quad_model();
    assert!(m.predict(&bits(&[1.0, 2.0]), &times, &line).is_err());
}

// -- clusters --

fn fcm_model() -> FcmModel {
    FcmModel::new(
        rows(&[vec![0.0, 0.0], vec![6.0, 0.0]]),
        2,
        100,
        2,
        2.0f64.to_bits(),
        12,
        &write,
    )
}

#[test]
fn predict_nearest() {
    let m = fcm_model();
    assert_eq!(value(m.predict(&bits(&[0.1, 0.1]), &squared, &index)), 0.0);
    assert_eq!(value(m.predict(&bits(&[5.9, -0.2]), &squared, &index)), 1.0);
    assert_eq!(m.k(), 2);
    assert_eq!(m.centroids().len(), 2);
}

#[test]
fn fcm_feature_count_check() {
    let m = fcm_model();
    assert!(m.predict(&bits(&[1.0]), &squared, &index).is_err());
}

#[test]
fn kmeans_and_dbscan_points() {
    let m = KMeansModel::new(
        rows(&[vec![0.0], vec![10.0]]),
        1,
        5,
        2,
        1.5f64.to_bits(),
        3,
        &write,
    );
    assert_eq!(value(m.predict(&bits(&[7.0]), &squared, &index)), 1.0);
    assert_eq!(
        m.metadata.hyperparameters_json,
        "{\"inertia\":1.5,\"iterations\":3,\"k\":2}"
    );
    assert_eq!(f64::from_bits(m.inertia()), 1.5);
    let kept = KMeansModel::restored(rows(&[vec![0.0], vec![10.0]]), 2, 1);
    assert_eq!(kept.metadata.hyperparameters_json, "{}");
    assert_eq!(kept.k(), 2);

    let d = DbscanModel::new(rows(&[vec![1.0]]), 1, 4, 0.5f64.to_bits(), 2, &write);
    assert_eq!(value(d.predict(&bits(&[9.0]), &squared, &index)), 0.0);
    assert_eq!(f64::from_bits(d.eps()), 0.5);
    assert!(d.predict(&bits(&[]), &squared, &index).is_err());
    let d = DbscanModel::restored(rows(&[vec![1.0]]), 1, 0.25f64.to_bits());
    assert_eq!(d.clusters().len(), 1);
}

#[test]
fn nearest_point_is_the_first_of_equals() {
    let points = rows(&[vec![2.0], vec![0.0], vec![2.0]]);
    assert_eq!(find_nearest(&points, &bits(&[1.0]), &squared), 0);
    assert_eq!(find_nearest(&points, &bits(&[0.4]), &squared), 1);
}

#[test]
fn nearest_center_contract() {
    let m = AgglomerativeModel::new(
        rows(&[vec![0.0, 0.0], vec![10.0, 10.0]]),
        2,
        3,
        Linkage::Complete,
    );
    assert_eq!(value(m.predict(&bits(&[1.0, 1.0]), &squared, &index)), 0.0);
    assert_eq!(value(m.predict(&bits(&[9.0, 9.0]), &squared, &index)), 1.0);
    assert_eq!(m.metadata.algorithm, Algorithm::Agglomerative);
    assert_eq!(
        m.metadata.hyperparameters_json,
        "{\"linkage\":\"complete\",\"n_clusters\":2}"
    );
    assert_eq!(Linkage::Single.name(), "single");
    assert_eq!(Linkage::Average.name(), "average");
}

#[test]
fn nearest_row_mapping() {
    let embedding = vec![
        (0.5f64.to_bits(), 0.0f64.to_bits()),
        (9.5f64.to_bits(), 0.0f64.to_bits()),
    ];
    let x = rows(&[vec![1.0, 1.0], vec![10.0, 10.0]]);
    let m = TsneModel::new(embedding, x, 1.0f64.to_bits(), 2, 2, &write);
    assert_eq!(value(m.predict(&bits(&[1.1, 1.1]), &squared)), 0.5);
    assert_eq!(value(m.predict(&bits(&[9.9, 9.9]), &squared)), 9.5);
    assert!(m.predict(&bits(&[1.0]), &squared).is_err());
    assert_eq!(
        m.metadata.hyperparameters_json,
        "{\"components\":2,\"kl_divergence\":1.0}"
    );
    let empty = TsneModel::new(vec![], vec![], 1.0f64.to_bits(), 2, 0, &write);
    assert!(empty.predict(&bits(&[1.0]), &squared).is_err());
}

// -- survival --

fn three_events() -> KmMlModel {
    KmMlModel::new(KmResult {
        times: bits(&[1.0, 2.0, 3.0]),
        survival: bits(&[2.0 / 3.0, 1.0 / 3.0, 0.0]),
        n: 3,
        events: 3,
    })
}

#[test]
fn median_prediction() {
    let m = three_events();
    assert_eq!(value(m.predict(&vec![])), 2.0);
    let at = |t: f64| f64::from_bits(m.survival_at(t.to_bits()));
    assert!((at(0.5) - 1.0).abs() < 1e-12);
    assert!((at(1.0) - 2.0 / 3.0).abs() < 1e-12);
    assert!((at(2.5) - 1.0 / 3.0).abs() < 1e-12);
}

#[test]
fn dummy_features_ignored() {
    let m = three_events();
    assert_eq!(value(m.predict(&bits(&[42.0, -7.0]))), 2.0);
    assert_eq!(value(m.predict(&vec![])), 2.0);
    assert_eq!(m.events, 3);
    assert_eq!(m.curve().0.len(), 3);
}

#[test]
fn median_that_is_never_reached() {
    let m = KmMlModel::new(KmResult {
        times: bits(&[1.0]),
        survival: bits(&[0.75]),
        n: 4,
        events: 1,
    });
    assert_eq!(value(m.predict(&vec![])), 1.0);
}

// -- networks --

#[test]
fn mlp_layers() {
    let w = MlpWeights {
        w1: rows(&[vec![1.0, 2.0], vec![3.0, 4.0]]),
        b1: bits(&[0.5, -0.5]),
        w2: bits(&[1.0, 2.0]),
        b2: 0.1f64.to_bits(),
        input_size: 2,
        hidden_size: 2,
    };
    let model = MlpModel::new(w, None, None);
    let sum = |b: u64, w: &Vec<u64>, x: &Vec<u64>| {
        let mut s = f64::from_bits(b);
        for (a, v) in nums(w).iter().zip(nums(x)) {
            s += a * v;
        }
        s
    };
    let neuron = |b: u64, w: &Vec<u64>, x: &Vec<u64>| sum(b, w, x).to_bits();
    let output = |b: u64, w: &Vec<u64>, x: &Vec<u64>| sum(b, w, x).to_bits();
    let pred = value(model.predict(&bits(&[1.0, 1.0]), &neuron, &output));
    assert!(pred.is_finite());
    assert_eq!(pred, 0.1 + 3.5 + 13.0);
    // Both hidden sums are negative here and count as 0.
    assert_eq!(value(model.predict(&bits(&[-1.0, -1.0]), &neuron, &output)), 0.1);
    assert!(model.predict(&bits(&[1.0]), &neuron, &output).is_err());
    assert_eq!(model.metadata.algorithm, Algorithm::MlpRegressor);
}

// -- models around trained data --

#[test]
fn adaboost_feature_count_check() {
    let stump = StumpData {
        feature: 0,
        threshold: 0.0f64.to_bits(),
        left: 0.0f64.to_bits(),
        right: 1.0f64.to_bits(),
    };
    let m = AdaBoostModel::new(
        vec![stump],
        bits(&[1.0]),
        bits(&[0.0, 1.0]),
        2,
        900,
    );
    let vote = |f: &Vec<u64>| if f64::from_bits(f[0]) > 0.0 { 1.0f64 } else { 0.0 }.to_bits();
    assert!(m.predict(&bits(&[1.0]), &vote).is_err());
    assert_eq!(value(m.predict(&bits(&[1.0, 0.5]), &vote)), 1.0);
    assert_eq!(
        m.metadata.hyperparameters_json,
        "{\"base\":\"decision_stump\",\"n_estimators\":1}"
    );
}

#[test]
fn arima_horizons() {
    let m = ArimaMlModel::new((), 1, 0, 2, 3, "0.5");
    assert_eq!(m.metadata.hyperparameters_json, "p=1,d=0,q=2,intercept=0.5");
    let double = |_: &(), h: u64| (f64::from_bits(h) * 2.0).to_bits();
    let show = |x: u64| format!("{}", f64::from_bits(x));
    assert_eq!(value(m.predict(&bits(&[3.0]), &double, &show)), 6.0);
    assert_eq!(
        m.predict(&bits(&[0.0]), &double, &show).unwrap_err().message(),
        "Training error: arima: forecast horizon must be in [1, 100000], got 0"
    );
    assert!(m.predict(&bits(&[100001.0]), &double, &show).is_err());
    assert!(m.predict(&bits(&[f64::NAN]), &double, &show).is_err());
    assert!(m.predict(&vec![], &double, &show).is_err());
}

#[test]
fn trained_data_is_asked_only_with_the_right_width() {
    let ask = |f: &Vec<u64>| f[0];
    let show = |x: u64| format!("{}", f64::from_bits(x));
    let cox = CoxMlModel::new((), 1, 1);
    assert_eq!(value(cox.predict(&bits(&[3.0]), &ask)), 3.0);
    assert!(cox.predict(&bits(&[3.0, 4.0]), &ask).is_err());
    let classes = bits(&[0.0, 1.0, 2.0]);
    let ordinal = OrdinalMlModel::new((), 1, 1, 2, &classes, &show);
    assert_eq!(ordinal.metadata.coefficients_count, 3);
    assert!(ordinal.predict(&vec![], &ask).is_err());
    let multi = MultilogisticModel::new((), 1, 2, &classes, &show);
    assert_eq!(multi.metadata.coefficients_count, 4);
    assert_eq!(
        multi.metadata.hyperparameters_json,
        ordinal.metadata.hyperparameters_json
    );
    let svm = SvmModel::from_blob((), true, 1, 4, 0.5f64.to_bits());
    assert_eq!(
        svm.metadata.hyperparameters_json,
        "kernel=linear, support_vectors=4"
    );
    assert!(svm.predict(&bits(&[1.0, 2.0]), &ask).is_err());
}

#[test]
fn feature_count_mismatch() {
    let settings = SvrSettings {
        kernel: "Linear".to_string(),
        c: 1.0f64.to_bits(),
        epsilon: 1e-6f64.to_bits(),
        gamma: 0.0f64.to_bits(),
        degree: 2,
        coef0: 0.0f64.to_bits(),
    };
    let m = SvrModel::new((), 1, 2, None, None, &settings, 10, &write);
    let ask = |f: &Vec<u64>| (3.0 + 2.0 * f64::from_bits(f[0])).to_bits();
    assert!(m.predict(&bits(&[1.0, 2.0]), &ask).is_err());
    assert_eq!(value(m.predict(&bits(&[7.0]), &ask)), 17.0);
    assert_eq!(m.metadata.algorithm, Algorithm::SVR);
    assert!(m.metadata.hyperparameters_json.contains("\"kernel\":\"Linear\""));
}

// -- trees --

#[test]
fn tree_frames_read_back() {
    let decode = |b: &[u8]| if b.is_empty() { None } else { Some(b.to_vec()) };
    let m = TreeModel::new(vec![7u8, 8], 3, 20, 4);
    let blob = m.serialize(&vec![7, 8]);
    let back = TreeModel::deserialize(&blob, &decode).unwrap();
    assert_eq!(back.tree, vec![7, 8]);
    assert_eq!(back.metadata.num_features, 3);
    assert!(matches!(
        TreeModel::<Vec<u8>>::deserialize(&[1, 2], &decode),
        Err(ModelError::Serialization(_))
    ));
    assert!(m.predict(&bits(&[1.0]), &|f: &Vec<u64>| f[0]).is_err());
}

#[test]
fn forest_frames_read_back() {
    let decode = |b: &[u8]| if b.is_empty() { None } else { Some(b.to_vec()) };
    let blob = serialize_forest(2, &vec![vec![1], vec![2, 3]]);
    assert_eq!(
        blob,
        vec![2, 0, 0, 0, 2, 0, 0, 0, 1, 0, 0, 0, 1, 2, 0, 0, 0, 2, 3]
    );
    let back = ForestModel::deserialize(&blob, &decode).unwrap();
    assert_eq!(back.trees, vec![vec![1u8], vec![2, 3]]);
    assert_eq!(back.metadata.num_features, 2);
    let m = ForestModel::new(back.trees, 2, 10, 2, 5);
    assert_eq!(value(m.predict(&bits(&[4.0, 5.0]), &|f: &Vec<u64>| f[1])), 5.0);
}

// -- shared pieces --

#[test]
fn checked_prediction() {
    let first = |f: &Vec<u64>| f[0];
    assert_eq!(predict_checked(1, &vec![9], &first), Ok(9));
    assert_eq!(
        predict_checked(1, &vec![], &first).unwrap_err().message(),
        "Feature count mismatch: expected 1, got 0"
    );
    assert!(check_features(2, 2).is_ok());
    assert!(check_features(2, 3).is_err());
}

#[test]
fn extremes_take_the_first_of_equals() {
    let v = bits(&[2.0, 1.0, f64::NAN, 1.0, 3.0, 3.0]);
    assert_eq!(find_least(&v), Some(1));
    assert_eq!(find_greatest(&v), Some(4));
    assert_eq!(find_least(&vec![]), None);
    assert_eq!(find_greatest(&vec![]), None);
}

#[test]
fn distinct_keys_in_order() {
    assert_eq!(find_distinct(&vec![5, 3, 5, 4, 3]), vec![1, 3, 0]);
    assert!(find_distinct(&vec![]).is_empty());
}

#[test]
fn error_messages() {
    assert_eq!(
        ModelError::Serialization("x".to_string()).message(),
        "Serialization error: x"
    );
    assert_eq!(
        ModelError::NotFound("x".to_string()).message(),
        "Model not found: x"
    );
    assert_eq!(
        ModelError::Training("x".to_string()).message(),
        "Training error: x"
    );
    assert!(matches!(
        no_embedding(Algorithm::KMeans),
        ModelError::Training(_)
    ));
}

#[test]
fn algorithm_names_read_back() {
    let all = [
        Algorithm::LinearRegression,
        Algorithm::RidgeRegression,
        Algorithm::ElasticNetRegression,
        Algorithm::LogisticRegression,
        Algorithm::MultinomialLogisticRegression,
        Algorithm::OrdinalLogisticRegression,
        Algorithm::RobustRegression,
        Algorithm::CoxProportionalHazards,
        Algorithm::Arima,
        Algorithm::Onnx,
        Algorithm::DecisionTreeRegressor,
        Algorithm::RandomForestRegressor,
        Algorithm::RandomForestClassifier,
        Algorithm::KMeans,
        Algorithm::XGBoostRegressor,
        Algorithm::XGBoostClassifier,
        Algorithm::XGBoostRegression,
        Algorithm::XGBoostBinary,
        Algorithm::KNNRegressor,
        Algorithm::KNNClassifier,
        Algorithm::NaiveBayes,
        Algorithm::PCA,
        Algorithm::LassoRegression,
        Algorithm::MlpRegressor,
        Algorithm::DBSCAN,
        Algorithm::SVM,
        Algorithm::SVR,
        Algorithm::LDA,
        Algorithm::PolynomialRegression,
        Algorithm::FuzzyCMeans,
        Algorithm::AdaBoost,
        Algorithm::KaplanMeier,
        Algorithm::Agglomerative,
        Algorithm::TSNE,
    ];
    for a in all {
        assert_eq!(Algorithm::parse_algorithm(&a.name()), Some(a));
    }
    assert_eq!(Algorithm::parse_algorithm("linear"), None);
}
