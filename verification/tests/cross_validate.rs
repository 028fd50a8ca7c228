use duckdb_ml::cross_validate::{
    cross_validate_from_json, CrossValidateFn, CrossValidation, CvRow, Fitted, Fold, FoldScore, Judge,
};
use duckdb_ml::metrics::RegressionSums;
use duckdb_ml::model::types::Algorithm;
use duckdb_ml::report::write_validation;
use serde_json::Value;

fn num(b: u64) -> f64 {
    f64::from_bits(b)
}

/// A line through one feature: its slope and its value at 0.
#[derive(Debug, PartialEq)]
struct Line(f64, f64);

/// The least squares line through one feature.
fn line(
    _: Algorithm,
    x: &Vec<Vec<u64>>,
    y: &Vec<u64>,
    _: &Vec<(String, u64)>,
) -> Result<Fitted<Line>, String> {
    if x.is_empty() {
        return Err("empty".to_string());
    }
    let n = x.len() as f64;
    let xs: Vec<f64> = x.iter().map(|r| num(r[0])).collect();
    let ys: Vec<f64> = y.iter().map(|v| num(*v)).collect();
    let mx = xs.iter().sum::<f64>() / n;
    let my = ys.iter().sum::<f64>() / n;
    let cov: f64 = xs.iter().zip(&ys).map(|(a, b)| (a - mx) * (b - my)).sum();
    let var: f64 = xs.iter().map(|a| (a - mx) * (a - mx)).sum();
    let slope = if var > 0.0 { cov / var } else { 0.0 };
    Ok(Fitted {
        model: Line(slope, my - slope * mx),
        has_mse: true,
        has_r2: true,
    })
}

fn predict(m: &Line, x: &Vec<u64>) -> Result<u64, String> {
    if x.len() != 1 {
        return Err("one feature is wanted".to_string());
    }
    Ok((m.0 * num(x[0]) + m.1).to_bits())
}

fn sum(actual: &Vec<u64>, predicted: &Vec<u64>) -> RegressionSums {
    let n = actual.len() as f64;
    let mean = actual.iter().map(|v| num(*v)).sum::<f64>() / n;
    let errors: Vec<f64> = actual.iter().zip(predicted).map(|(a, p)| num(*a) - num(*p)).collect();
    let residual: f64 = errors.iter().map(|e| e * e).sum();
    let total: f64 = actual.iter().map(|v| (num(*v) - mean).powi(2)).sum();
    RegressionSums {
        mse: (residual / n).to_bits(),
        rmse: (residual / n).sqrt().to_bits(),
        mae: (errors.iter().map(|e| e.abs()).sum::<f64>() / n).to_bits(),
        residual: residual.to_bits(),
        total: total.to_bits(),
    }
}

fn explain(residual: u64, total: u64) -> u64 {
    (1.0 - num(residual) / num(total)).to_bits()
}

fn run(algorithm: &str, x: &str, y: &str, params: &str, k: usize) -> Result<CrossValidation, String> {
    cross_validate_from_json(algorithm, x, y, params, k, &line, &Judge { predict, sum, explain })
}

fn features(n: usize) -> String {
    let rows: Vec<String> = (0..n).map(|i| format!("[{i}.0]")).collect();
    format!("[{}]", rows.join(","))
}

fn targets(values: &[f64]) -> String {
    let texts: Vec<String> = values.iter().map(|v| format!("{v:?}")).collect();
    format!("[{}]", texts.join(","))
}

fn mean(values: &Vec<u64>, count: usize) -> u64 {
    (values.iter().map(|v| num(*v)).sum::<f64>() / count as f64).to_bits()
}

fn write(x: u64) -> String {
    match serde_json::Number::from_f64(num(x)) {
        Some(n) => n.to_string(),
        None => "null".to_string(),
    }
}

fn report(cv: &CrossValidation) -> Value {
    serde_json::from_str(&write_validation(cv, &mean, &write)).unwrap()
}

#[test]
fn cv_regression_folds() {
    let y: Vec<f64> = (0..10).map(|i| 2.0 * i as f64 + 1.0).collect();
    let out = report(&run("linear_regression", &features(10), &targets(&y), "null", 5).unwrap());
    assert_eq!(out["algorithm"], "linear_regression");
    assert_eq!(out["k"], 5);
    assert_eq!(out["folds"].as_array().unwrap().len(), 5);
    assert!(out["mean_mse"].as_f64().unwrap() < 1e-9);
    assert!((out["mean_r2"].as_f64().unwrap() - 1.0).abs() < 1e-9);
}

#[test]
fn cv_k_fold_partition_exhausts() {
    let y: Vec<f64> = (0..8).map(|i| i as f64).collect();
    let out = report(&run("linear_regression", &features(8), &targets(&y), "{}", 4).unwrap());
    let samples: Vec<usize> = out["folds"]
        .as_array()
        .unwrap()
        .iter()
        .map(|f| f["samples"].as_u64().unwrap() as usize)
        .collect();
    assert_eq!(samples.iter().sum::<usize>(), 8);
    assert_eq!(samples, vec![2, 2, 2, 2]);
}

#[test]
fn cv_errors() {
    assert!(run("bogus", "[[1.0]]", "[1.0]", "null", 2).is_err());
    assert!(run("linear_regression", "[[1.0]]", "[1.0,2.0]", "null", 2).is_err());
    assert!(run("linear_regression", "[[1.0]]", "[1.0]", "null", 1).is_err());
    assert!(run("linear_regression", "[]", "[]", "null", 2).is_err());
    assert!(run("linear_regression", "[[1.0]]", "[1.0]", "{bad", 2).is_err());
}

#[test]
fn cv_deterministic() {
    let y: Vec<f64> = (0..10).map(|i| (i as f64).sin()).collect();
    let a = run("linear_regression", &features(10), &targets(&y), "null", 3).unwrap();
    let b = run("linear_regression", &features(10), &targets(&y), "null", 3).unwrap();
    assert_eq!(a, b);
}

#[test]
fn each_fold_trains_on_the_other_samples() {
    let seen = std::sync::Mutex::new(Vec::new());
    let note = |_: Algorithm, x: &Vec<Vec<u64>>, y: &Vec<u64>, p: &Vec<(String, u64)>| {
        let rows: Vec<f64> = x.iter().map(|r| num(r[0])).collect();
        let ys: Vec<f64> = y.iter().map(|v| num(*v)).collect();
        seen.lock().unwrap().push((rows, ys, p.clone()));
        Ok(Fitted { model: Line(0.0, 0.0), has_mse: false, has_r2: false })
    };
    let out = cross_validate_from_json(
        "lasso_regression",
        &features(5),
        "[10,11,12,13,14]",
        r#"{"lambda":0.5}"#,
        2,
        &note,
        &Judge { predict, sum, explain },
    )
    .unwrap();
    assert_eq!(out.folds.iter().map(|f| f.samples).sum::<usize>(), 5);
    assert_eq!(out.scored, 0);
    assert!(report(&out)["mean_mse"].is_null());
    let seen = seen.into_inner().unwrap();
    assert_eq!(seen.len(), 2);
    let mut left: Vec<f64> = Vec::new();
    for (rows, ys, params) in &seen {
        assert_eq!(params, &vec![("lambda".to_string(), 0.5f64.to_bits())]);
        for (x, y) in rows.iter().zip(ys) {
            assert_eq!(*y, *x + 10.0);
        }
        left.extend((0..5).map(|i| i as f64).filter(|i| !rows.contains(i)));
    }
    left.sort_by(|a, b| a.partial_cmp(b).unwrap());
    assert_eq!(left, vec![0.0, 1.0, 2.0, 3.0, 4.0]);
}

#[test]
fn each_fold_is_scored_on_its_own_samples() {
    // A model that always says 0 has the squares of the targets for errors.
    let zero = |_: Algorithm, _: &Vec<Vec<u64>>, _: &Vec<u64>, _: &Vec<(String, u64)>| {
        Ok(Fitted { model: Line(0.0, 0.0), has_mse: true, has_r2: true })
    };
    let judge = Judge { predict, sum, explain };
    let out =
        cross_validate_from_json("linear_regression", &features(4), "[1,2,3,4]", "{}", 2, &zero, &judge).unwrap();
    // Fold 0 leaves out the targets 1 and 3, fold 1 the targets 2 and 4.
    assert_eq!(out.folds[0].score.mse, Some(5.0f64.to_bits()));
    assert_eq!(out.folds[0].score.r2, Some((-4.0f64).to_bits()));
    assert_eq!(out.folds[1].score.mse, Some(10.0f64.to_bits()));
    assert_eq!(out.folds[1].score.r2, Some((-9.0f64).to_bits()));
    assert_eq!(out.scored, 2);
    let only_mse = |_: Algorithm, _: &Vec<Vec<u64>>, _: &Vec<u64>, _: &Vec<(String, u64)>| {
        Ok(Fitted { model: Line(0.0, 0.0), has_mse: true, has_r2: false })
    };
    let out =
        cross_validate_from_json("linear_regression", &features(4), "[1,2,3,4]", "", 2, &only_mse, &judge).unwrap();
    assert_eq!(out.folds[1].score, FoldScore { mse: Some(10.0f64.to_bits()), r2: None });
}

#[test]
fn the_first_fold_that_fails_is_named() {
    let fussy = |_: Algorithm, x: &Vec<Vec<u64>>, _: &Vec<u64>, _: &Vec<(String, u64)>| {
        if num(x[0][0]) == 0.0 {
            Err("no luck".to_string())
        } else {
            Ok(Fitted { model: Line(0.0, 0.0), has_mse: true, has_r2: true })
        }
    };
    let judge = Judge { predict, sum, explain };
    assert_eq!(
        cross_validate_from_json("pca", &features(4), "[1,2,3,4]", "", 2, &fussy, &judge),
        Err("ml_cross_validate: fold 1 training failed: no luck".to_string())
    );
    assert_eq!(
        run("pca", "[[0],[1,1],[2],[3]]", "[1,2,3,4]", "", 2),
        Err("ml_cross_validate: fold 1 prediction failed: one feature is wanted".to_string())
    );
}

#[test]
fn means_skip_missing_measures() {
    let cv = CrossValidation {
        algorithm: Algorithm::PCA,
        k: 2,
        folds: vec![
            Fold {
                fold: 0,
                samples: 1,
                score: FoldScore {
                    mse: Some(3.0f64.to_bits()),
                    r2: None,
                },
            },
            Fold {
                fold: 1,
                samples: 1,
                score: FoldScore {
                    mse: None,
                    r2: Some(0.5f64.to_bits()),
                },
            },
        ],
        scored: 2,
    };
    assert_eq!(
        write_validation(&cv, &mean, &write),
        "{\"algorithm\":\"pca\",\"folds\":[{\"fold\":0,\"mse\":3.0,\"r2\":null,\"samples\":1},\
         {\"fold\":1,\"mse\":null,\"r2\":0.5,\"samples\":1}],\"k\":2,\"mean_mse\":1.5,\"mean_r2\":0.25}"
    );
}

#[test]
fn scalar_function_folds_and_nulls() {
    assert_eq!(CrossValidateFn::default_folds(), 5);
    let row = |algorithm: Option<&str>| CvRow {
        algorithm: algorithm.map(|s| s.to_string()),
        features: Some(features(4)),
        targets: Some("[0,1,2,3]".to_string()),
        params: None,
    };
    let rows = vec![row(Some("linear_regression")), row(None)];
    let out = CrossValidateFn::invoke(5, &rows, 2, &line, &Judge { predict, sum, explain }).unwrap();
    assert_eq!(out[0].as_ref().unwrap().folds.len(), 2);
    assert!(out[1].is_none());
    assert!(CrossValidateFn::invoke(3, &rows, 2, &line, &Judge { predict, sum, explain }).is_err());
}
