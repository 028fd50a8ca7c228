use duckdb_ml::model::registry::{CacheEntry, ModelRegistry};
use duckdb_ml::model::types::{Algorithm, ModelMetadata};
use duckdb_ml::scalar::{
    col_strs, ols_from_json, repeat_text, write_array, write_number_array, write_predictions,
    CoxTrainFn, KmTrainFn, OlsFit, OlsFn, OlsReport, PredictBatchValueFn, Smote, SmoteFn,
    TrainModelFn, VotingFn, VotingMode,
};

fn nums(v: &[u64]) -> Vec<f64> {
    v.iter().map(|b| f64::from_bits(*b)).collect()
}

fn bits(v: &[f64]) -> Vec<u64> {
    v.iter().map(|x| x.to_bits()).collect()
}

fn strings(v: &[&str]) -> Vec<String> {
    v.iter().map(|s| s.to_string()).collect()
}

fn given(v: &[&str]) -> Vec<Option<String>> {
    v.iter().map(|s| Some(s.to_string())).collect()
}

fn write(x: u64) -> String {
    format!("{:?}", f64::from_bits(x))
}

fn show(x: u64) -> String {
    format!("{}", f64::from_bits(x))
}

fn nearest(x: u64) -> usize {
    f64::from_bits(x).round() as usize
}

/// Ordinary least squares by the normal equations; the intercept comes last among
/// the coefficients.
fn fit(x: &Vec<Vec<u64>>, y: &Vec<u64>) -> Result<OlsFit, String> {
    let rows: Vec<Vec<f64>> = x
        .iter()
        .map(|r| {
            let mut r = nums(r);
            r.push(1.0);
            r
        })
        .collect();
    let y = nums(y);
    let m = rows[0].len();
    let mut a = vec![vec![0.0; m + 1]; m];
    for (r, t) in rows.iter().zip(&y) {
        for i in 0..m {
            for j in 0..m {
                a[i][j] += r[i] * r[j];
            }
            a[i][m] += r[i] * t;
        }
    }
    for i in 0..m {
        let p = (i..m)
            .max_by(|p, q| a[*p][i].abs().partial_cmp(&a[*q][i].abs()).unwrap())
            .unwrap();
        a.swap(i, p);
        let pivot = a[i].clone();
        for k in 0..m {
            if k != i {
                let f = a[k][i] / pivot[i];
                for j in 0..=m {
                    a[k][j] -= f * pivot[j];
                }
            }
        }
    }
    let c: Vec<f64> = (0..m).map(|i| a[i][m] / a[i][i]).collect();
    let mean = y.iter().sum::<f64>() / y.len() as f64;
    let rest: f64 = rows
        .iter()
        .zip(&y)
        .map(|(r, t)| (t - r.iter().zip(&c).map(|(p, q)| p * q).sum::<f64>()).powi(2))
        .sum();
    let total: f64 = y.iter().map(|t| (t - mean).powi(2)).sum();
    Ok(OlsFit {
        intercept: c[m - 1].to_bits(),
        coefficients: bits(&c),
        r_squared: Some((1.0 - rest / total).to_bits()),
        mse: Some((rest / y.len() as f64).to_bits()),
        num_samples: y.len(),
    })
}

fn ols(args: &[&str]) -> Result<OlsReport, String> {
    ols_from_json(&strings(args), &fit)
}

#[test]
fn test_ols_perfect_fit() {
    let v = ols(&["[5.0,8.0,11.0,14.0]", "[1.0,2.0,3.0,4.0]"]).unwrap();
    assert!((f64::from_bits(v.coefficients[0]) - 3.0).abs() < 1e-9);
    assert!((f64::from_bits(v.intercept) - 2.0).abs() < 1e-9);
    assert!((f64::from_bits(v.r_squared.unwrap()) - 1.0).abs() < 1e-9);
    assert_eq!(v.n_features, 1);
    assert_eq!(v.n_samples, 4);
}

#[test]
fn test_ols_multivariate() {
    let y = "[6.0, 17.0, 12.0, 25.0, 29.0]";
    let x1 = "[1.0, 2.0, 1.0, 3.0, 2.0]";
    let x2 = "[1.0, 4.0, 3.0, 6.0, 8.0]";
    let v = ols(&[y, x1, x2]).unwrap();
    let c = nums(&v.coefficients);
    assert!((c[0] - 2.0).abs() < 1e-6, "b1={}", c[0]);
    assert!((c[1] - 3.0).abs() < 1e-6, "b2={}", c[1]);
    assert!((f64::from_bits(v.intercept) - 1.0).abs() < 1e-6);
    assert!((f64::from_bits(v.r_squared.unwrap()) - 1.0).abs() < 1e-6);
    assert_eq!(v.n_features, 2);
}

#[test]
fn test_ols_noisy_r2_between_0_and_1() {
    let y = "[2.0, 3.5, 3.0, 5.0, 4.5]";
    let x = "[1.0, 2.0, 2.5, 4.0, 3.5]";
    let v = ols(&[y, x]).unwrap();
    let r2 = f64::from_bits(v.r_squared.unwrap());
    assert!((0.0..=1.0).contains(&r2), "r2={r2}");
}

#[test]
fn test_ols_length_mismatch_errors() {
    let err = ols(&["[1.0,2.0]", "[1.0,2.0,3.0]"]).unwrap_err();
    assert!(err.contains("length mismatch"));
    assert_eq!(
        err,
        "ml_ols length mismatch: y has 2 samples, x1 has 3"
    );
}

#[test]
fn test_ols_requires_two_args() {
    let err = ols(&["[1.0,2.0]"]).unwrap_err();
    assert!(err.contains("at least 2"));
}

#[test]
fn ols_other_errors() {
    assert_eq!(ols(&["[]", "[]"]).unwrap_err(), "ml_ols: empty target array");
    assert!(ols(&["[1", "[1]"])
        .unwrap_err()
        .starts_with("Invalid JSON array '[1': "));
}

#[test]
fn ols_function_writes_json() {
    let one = |_: &Vec<Vec<u64>>, y: &Vec<u64>| {
        Ok(OlsFit {
            coefficients: bits(&[3.0, 2.0]),
            intercept: 2.0f64.to_bits(),
            r_squared: Some(1.0f64.to_bits()),
            mse: None,
            num_samples: y.len(),
        })
    };
    let out = OlsFn::invoke(2, &given(&["[5.0,8.0]", "[1.0,2.0]"]), &one, &write).unwrap();
    assert_eq!(out.len(), 2);
    assert_eq!(out[0], out[1]);
    assert!(out[0].starts_with("{\"coefficients\":["));
    assert!(out[0].contains("\"intercept\":2.0,\"mse\":null,\"n_features\":1,\"n_samples\":2,\"r_squared\":1.0"));
    let with_null = vec![Some("[1.0]".to_string()), None];
    assert_eq!(
        OlsFn::invoke(1, &with_null, &one, &write).unwrap_err(),
        "NULL parameter"
    );
}

// -- small pieces --

#[test]
fn arguments_and_arrays() {
    assert_eq!(
        col_strs(&given(&["a", "b", "c"]), 2),
        Ok(strings(&["a", "b"]))
    );
    assert!(col_strs(&vec![None], 1).is_err());
    assert_eq!(repeat_text("x", 3), strings(&["x", "x", "x"]));
    assert_eq!(write_array(&strings(&["1", "2"])), "[1,2]");
    assert_eq!(write_array(&vec![]), "[]");
    assert_eq!(write_number_array(&bits(&[0.5, 2.0]), &write), "[0.5,2.0]");
}

#[test]
fn predictions_with_labels() {
    let labels = strings(&["no", "y\"es"]);
    assert_eq!(
        write_predictions(&bits(&[1.0, 0.2, 7.0]), Some(&labels), &nearest, &show, &write),
        "[\"y\\\"es\",\"no\",\"7\"]"
    );
    assert_eq!(
        write_predictions(&bits(&[1.0]), None, &nearest, &show, &write),
        "[1.0]"
    );
}

#[test]
fn training_functions_repeat_the_name() {
    let seen = std::sync::Mutex::new(Vec::new());
    let register = |v: &Vec<String>| {
        seen.lock().unwrap().push(v.clone());
        Ok(())
    };
    let out = TrainModelFn::invoke(2, &given(&["m", "a", "x", "y", "{}"]), &register).unwrap();
    assert_eq!(out.len(), 2);
    KmTrainFn::invoke(1, &given(&["m", "t", "e"]), &register).unwrap();
    CoxTrainFn::invoke(1, &given(&["m", "t", "e", "x", "{}"]), &register).unwrap();
    assert_eq!(seen.into_inner().unwrap().len(), 3);
    let refuse = |_: &Vec<String>| Err("bad".to_string());
    assert_eq!(
        TrainModelFn::invoke(1, &given(&["m", "a", "x", "y", "{}"]), &refuse).unwrap_err(),
        "bad"
    );
    let mut args = given(&["m", "t", "e"]);
    args[1] = None;
    assert_eq!(
        KmTrainFn::invoke(1, &args, &register_nothing).unwrap_err(),
        "NULL parameter"
    );
}

fn register_nothing(_: &Vec<String>) -> Result<(), String> {
    Ok(())
}

#[test]
fn batch_values_use_the_label_map() {
    let mut r: ModelRegistry<f64> = ModelRegistry::new(4);
    let metadata = ModelMetadata {
        algorithm: Algorithm::NaiveBayes,
        num_features: 1,
        num_samples: 2,
        r_squared: None,
        mse: None,
        coefficients_count: 0,
        hyperparameters_json: "{}".to_string(),
    };
    r.insert(
        "m",
        CacheEntry {
            model: 1.0,
            metadata,
        },
        1,
    );
    let ask = |m: &f64, f: &Vec<u64>| -> Result<u64, String> {
        Ok((f64::from_bits(f[0]) * m).to_bits())
    };
    let args = given(&["m", "[[1.0],[0.0]]"]);
    let out =
        PredictBatchValueFn::invoke(1, &args, &mut r, 2, &ask, &nearest, &show, &write).unwrap();
    assert_eq!(out, strings(&["[1.0,0.0]"]));
    r.set_label_map("m", strings(&["no", "yes"]));
    let out =
        PredictBatchValueFn::invoke(1, &args, &mut r, 3, &ask, &nearest, &show, &write).unwrap();
    assert_eq!(out, strings(&["[\"yes\",\"no\"]"]));
    let args = given(&["gone", "[[1.0]]"]);
    assert!(
        PredictBatchValueFn::invoke(1, &args, &mut r, 4, &ask, &nearest, &show, &write).is_err()
    );
}

#[test]
fn smote_report() {
    let sample = |x: &Vec<Vec<u64>>, y: &Vec<u64>| Smote {
        synthetic_x: x.clone(),
        synthetic_y: y.clone(),
        minority_label: 1.0f64.to_bits(),
        total_before: 2,
        total_after: 3,
    };
    let out = SmoteFn::invoke(1, &given(&["[[0.5]]", "[1.0]"]), &sample, &write).unwrap();
    assert_eq!(
        out[0],
        "{\"after\":3,\"before\":2,\"minority\":1.0,\"x\":[[0.5]],\"y\":[1.0]}"
    );
    assert!(SmoteFn::invoke(1, &given(&["[", "[1.0]"]), &sample, &write)
        .unwrap_err()
        .starts_with("Invalid features JSON: "));
    assert!(SmoteFn::invoke(1, &given(&["[[1]]", "["]), &sample, &write)
        .unwrap_err()
        .starts_with("Invalid labels JSON: "));
}

#[test]
fn voting() {
    assert_eq!(VotingMode::parse("hard"), Some(VotingMode::Hard));
    assert_eq!(VotingMode::parse("mean"), Some(VotingMode::Mean));
    assert_eq!(VotingMode::parse("soft"), None);
    let poll = |names: &Vec<String>, x: &Vec<u64>| -> Result<Vec<u64>, String> {
        Ok(names.iter().map(|_| x[0]).collect())
    };
    let vote = |_: &Vec<String>, x: &Vec<u64>, _: VotingMode| -> Result<u64, String> { Ok(x[0]) };
    let args = given(&["[\"a\",\"b\"]", "[2.0]", "mean"]);
    let out = VotingFn::invoke(1, &args, &poll, &vote, &write).unwrap();
    assert_eq!(out[0], "{\"mode\":\"mean\",\"result\":2.0,\"votes\":[2.0,2.0]}");
    let args = given(&["[\"a\"]", "[2.0]", "soft"]);
    assert_eq!(
        VotingFn::invoke(1, &args, &poll, &vote, &write).unwrap_err(),
        "Invalid voting mode: 'soft' (hard|mean)"
    );
    let args = given(&["3", "[2.0]", "mean"]);
    assert!(VotingFn::invoke(1, &args, &poll, &vote, &write)
        .unwrap_err()
        .starts_with("Invalid model names JSON: "));
}
