use duckdb_ml::json::parse_json;
use duckdb_ml::metrics::{
    binary_counts, explained, metrics_from_json, rate_counts, roc_auc, to_f64_array, Auc,
    MetricsFn, MetricsResult, RegressionSums,
};
use duckdb_ml::report::{write_binary, write_regression};
use serde_json::Value;

fn bits(v: &[f64]) -> Vec<u64> {
    v.iter().map(|x| x.to_bits()).collect()
}

fn ratio(a: usize, b: usize) -> u64 {
    (a as f64 / b as f64).to_bits()
}

fn harmonic(a: u64, b: u64) -> u64 {
    let (p, r) = (f64::from_bits(a), f64::from_bits(b));
    (2.0 * p * r / (p + r)).to_bits()
}

fn area(auc: Auc) -> u64 {
    let lost = auc.losses_doubled as f64 / 2.0;
    (1.0 - lost / (auc.positives as f64 * auc.negatives as f64)).to_bits()
}

fn sum(actual: &Vec<u64>, predicted: &Vec<u64>) -> RegressionSums {
    let a: Vec<f64> = actual.iter().map(|b| f64::from_bits(*b)).collect();
    let p: Vec<f64> = predicted.iter().map(|b| f64::from_bits(*b)).collect();
    let n = a.len() as f64;
    let mean = a.iter().sum::<f64>() / n;
    let residual: f64 = a.iter().zip(&p).map(|(x, y)| (x - y) * (x - y)).sum();
    let off: f64 = a.iter().zip(&p).map(|(x, y)| (x - y).abs()).sum();
    let total: f64 = a.iter().map(|x| (x - mean) * (x - mean)).sum();
    RegressionSums {
        mse: (residual / n).to_bits(),
        rmse: (residual / n).sqrt().to_bits(),
        mae: (off / n).to_bits(),
        residual: residual.to_bits(),
        total: total.to_bits(),
    }
}

fn explain(residual: u64, total: u64) -> u64 {
    (1.0 - f64::from_bits(residual) / f64::from_bits(total)).to_bits()
}

fn write(x: u64) -> String {
    match serde_json::Number::from_f64(f64::from_bits(x)) {
        Some(n) => n.to_string(),
        None => "null".to_string(),
    }
}

fn report(actual: &str, predicted: &str, task: &str) -> Value {
    let text = match metrics_from_json(actual, predicted, task).unwrap() {
        MetricsResult::Binary(c) => write_binary(&c, &ratio, &harmonic, &area, &write),
        MetricsResult::Regression { actual, predicted } => {
            write_regression(&actual, &predicted, &sum, &explain, &write)
        }
    };
    serde_json::from_str(&text).unwrap()
}

#[test]
fn binary_perfect() {
    let out = report("[1,0,1,0]", "[1,0,1,0]", "binary");
    assert_eq!(out["task"], "binary");
    assert_eq!(out["confusion_matrix"]["tp"], 2);
    assert_eq!(out["confusion_matrix"]["tn"], 2);
    assert_eq!(out["confusion_matrix"]["fp"], 0);
    assert_eq!(out["confusion_matrix"]["fn"], 0);
    assert_eq!(out["accuracy"], 1.0);
    assert_eq!(out["precision"], 1.0);
    assert_eq!(out["recall"], 1.0);
    assert_eq!(out["f1"], 1.0);
    assert_eq!(out["roc_auc"], 1.0);
}

#[test]
fn binary_imperfect_probs() {
    let out = report("[1,1,0]", "[0.9,0.4,0.1]", "binary");
    assert_eq!(out["confusion_matrix"]["tp"], 1);
    assert_eq!(out["confusion_matrix"]["fp"], 0);
    assert_eq!(out["confusion_matrix"]["tn"], 1);
    assert_eq!(out["confusion_matrix"]["fn"], 1);
    assert_eq!(out["recall"], 0.5);
    assert_eq!(out["roc_auc"], 1.0);
}

#[test]
fn regression_metrics() {
    let out = report("[1,2,3]", "[1,2,5]", "regression");
    assert!((out["mse"].as_f64().unwrap() - 4.0 / 3.0).abs() < 1e-9);
    assert!((out["rmse"].as_f64().unwrap() - (4.0f64 / 3.0).sqrt()).abs() < 1e-9);
    assert!((out["mae"].as_f64().unwrap() - 2.0 / 3.0).abs() < 1e-9);
    assert!((out["r2"].as_f64().unwrap() + 1.0).abs() < 1e-9);
}

#[test]
fn auto_detects_binary() {
    let out = report("[1,0,1]", "[1,1,0]", "auto");
    assert_eq!(out["task"], "binary");
}

#[test]
fn errors() {
    assert!(metrics_from_json("[1,0]", "[1]", "binary").is_err());
    assert!(metrics_from_json("[]", "[]", "binary").is_err());
    assert!(metrics_from_json("not json", "[1]", "binary").is_err());
    assert!(metrics_from_json("[1,0]", "[1,0]", "bogus").is_err());
}

#[test]
fn auc_ties() {
    let out = report("[1,0,1]", "[0.5,0.5,0.5]", "binary");
    assert_eq!(out["roc_auc"], 0.5);
}

#[test]
fn rates_without_positives() {
    let out = report("[0,0]", "[0,0]", "binary");
    assert_eq!(out["precision"], 0.0);
    assert_eq!(out["recall"], 0.0);
    assert_eq!(out["f1"], 0.0);
    assert_eq!(out["accuracy"], 1.0);
    assert!(out["roc_auc"].is_null());
    let c = binary_counts(&bits(&[0.0]), &bits(&[1.0]));
    let rates = rate_counts(&c, &ratio, &harmonic, &area);
    assert_eq!(f64::from_bits(rates.accuracy), 0.0);
    assert_eq!(rates.roc_auc, None);
}

#[test]
fn explained_share_without_variance() {
    let flat = |residual: f64| RegressionSums {
        mse: 0,
        rmse: 0,
        mae: 0,
        residual: residual.to_bits(),
        total: 0.0f64.to_bits(),
    };
    assert_eq!(f64::from_bits(explained(&flat(0.0), &explain)), 1.0);
    assert_eq!(
        f64::from_bits(explained(&flat(2.0), &explain)),
        f64::NEG_INFINITY
    );
}

#[test]
fn auto_falls_back_to_regression() {
    assert_eq!(
        metrics_from_json("[2,0]", "[1,0]", "auto").unwrap(),
        MetricsResult::Regression {
            actual: bits(&[2.0, 0.0]),
            predicted: bits(&[1.0, 0.0]),
        }
    );
}

#[test]
fn error_texts() {
    assert_eq!(
        metrics_from_json("[1,0]", "[1]", "auto").unwrap_err(),
        "ml_metrics: length mismatch: actual 2, predicted 1"
    );
    assert_eq!(
        metrics_from_json("[]", "[]", "auto").unwrap_err(),
        "ml_metrics: empty arrays"
    );
    assert_eq!(
        metrics_from_json("[1]", "[1]", "bogus").unwrap_err(),
        "ml_metrics: unknown task 'bogus' (auto|binary|regression)"
    );
    assert_eq!(
        metrics_from_json("3", "[1]", "auto").unwrap_err(),
        "ml_metrics: actual must be a JSON array"
    );
    assert_eq!(
        to_f64_array(&parse_json("[1,\"x\"]").unwrap(), "predicted").unwrap_err(),
        "ml_metrics: predicted[1] is not a number"
    );
    assert!(metrics_from_json("{", "[1]", "auto")
        .unwrap_err()
        .starts_with("ml_metrics: bad actual array: "));
}

#[test]
fn auc_counts_lost_pairs() {
    let actual = bits(&[1.0, 0.0, 1.0, 0.0]);
    let scores = bits(&[0.9, 0.8, 0.3, 0.3]);
    assert_eq!(
        roc_auc(&actual, &scores),
        Some(Auc {
            losses_doubled: 3,
            positives: 2,
            negatives: 2
        })
    );
    assert_eq!(roc_auc(&bits(&[1.0, 1.0]), &bits(&[0.1, 0.2])), None);
}

#[test]
fn counts_split_at_one_half() {
    let c = binary_counts(&bits(&[1.0, 0.0]), &bits(&[0.5, 0.51]));
    assert_eq!((c.tp, c.fp, c.tn, c.fn_), (0, 1, 0, 1));
}

#[test]
fn scalar_function_reads_the_task_in_any_case() {
    let rows = vec![
        (Some("[1,0]".to_string()), Some("[1,0]".to_string())),
        (None, Some("[1]".to_string())),
    ];
    let out = MetricsFn::invoke(3, &rows, &Some("REGRESSION".to_string())).unwrap();
    assert!(matches!(out[0], Some(MetricsResult::Regression { .. })));
    assert!(out[1].is_none());
    let out = MetricsFn::invoke(2, &rows, &None).unwrap();
    assert!(matches!(out[0], Some(MetricsResult::Binary(_))));
    assert!(MetricsFn::invoke(1, &rows, &None).is_err());
}
