use duckdb_ml::model::lda::{plan_lda, LdaMlModel, LdaModel, LdaPlan};
use duckdb_ml::model::pca::{PcaMlModel, PcaModel};
use duckdb_ml::model::projection::{read_projection, score_of, write_projection};
use duckdb_ml::model::types::{Algorithm, ModelError, ModelMetadata};

type Matrix = Vec<Vec<f64>>;

fn nums(v: &[u64]) -> Vec<f64> {
    v.iter().map(|b| f64::from_bits(*b)).collect()
}

fn bits(v: &[f64]) -> Vec<u64> {
    v.iter().map(|x| x.to_bits()).collect()
}

fn rows(x: &[Vec<f64>]) -> Vec<Vec<u64>> {
    x.iter().map(|r| bits(r)).collect()
}

fn dot(a: &[f64], b: &[f64]) -> f64 {
    a.iter().zip(b).map(|(x, y)| x * y).sum()
}

fn times(a: &Matrix, v: &[f64]) -> Vec<f64> {
    a.iter().map(|row| dot(row, v)).collect()
}

fn dominant(a: &Matrix, existing: &[Vec<f64>]) -> Vec<f64> {
    let n = a.len();
    let mut v = vec![1.0 / (n as f64).sqrt(); n];
    for _ in 0..50 {
        for e in existing {
            let d = dot(&v, e);
            for (vi, ei) in v.iter_mut().zip(e) {
                *vi -= d * ei;
            }
        }
        let w = times(a, &v);
        let norm = dot(&w, &w).sqrt();
        if norm < 1e-14 {
            break;
        }
        v = w.iter().map(|x| x / norm).collect();
    }
    v
}

fn quotient(a: &Matrix, v: &[f64]) -> f64 {
    let den = dot(v, v);
    if den > 0.0 {
        dot(&times(a, v), v) / den
    } else {
        0.0
    }
}

fn deflated(a: &Matrix, vectors: &[Vec<f64>], values: &[f64]) -> Matrix {
    let mut m = a.clone();
    for (v, ev) in vectors.iter().zip(values) {
        for j in 0..m.len() {
            for l in 0..m.len() {
                m[j][l] -= ev * v[j] * v[l];
            }
        }
    }
    m
}

fn mean_of(x: &[Vec<f64>]) -> Vec<f64> {
    let nf = x[0].len();
    (0..nf)
        .map(|j| x.iter().map(|r| r[j]).sum::<f64>() / x.len() as f64)
        .collect()
}

fn covariance(x: &Vec<Vec<u64>>) -> (Vec<u64>, Matrix) {
    let x: Matrix = x.iter().map(|r| nums(r)).collect();
    let mean = mean_of(&x);
    let nf = mean.len();
    let mut cov = vec![vec![0.0; nf]; nf];
    for row in &x {
        for j in 0..nf {
            for l in 0..nf {
                cov[j][l] += (row[j] - mean[j]) * (row[l] - mean[l]) / x.len() as f64;
            }
        }
    }
    (bits(&mean), cov)
}

fn next_axis(cov: &Matrix, found: &Vec<Vec<u64>>, values: &Vec<u64>) -> (Vec<u64>, u64, u64) {
    let found: Matrix = found.iter().map(|r| nums(r)).collect();
    let m = deflated(cov, &found, &nums(values));
    let v = dominant(&m, &found);
    let ev = quotient(&m, &v);
    let total: f64 = (0..cov.len()).map(|i| cov[i][i]).sum();
    let ratio = if total > 0.0 { ev / total } else { 0.0 };
    (bits(&v), ev.to_bits(), ratio.to_bits())
}

fn negligible(ratio: u64, first: u64) -> bool {
    f64::from_bits(ratio) < 0.001 * f64::from_bits(first)
}

fn project(axis: &Vec<u64>, features: &Vec<u64>, mean: &Vec<u64>) -> u64 {
    let x: Vec<f64> = nums(features)
        .iter()
        .zip(nums(mean))
        .map(|(a, b)| a - b)
        .collect();
    dot(&nums(axis), &x).to_bits()
}

fn write(x: u64) -> String {
    format!("{:?}", f64::from_bits(x))
}

fn fit_pca(x: &[Vec<f64>], k: usize) -> PcaModel {
    PcaModel::fit(&rows(x), k, &covariance, &next_axis, &negligible)
}

struct Scatter {
    lower: Matrix,
    inner: Matrix,
}

fn back_substitute(l: &Matrix, u: &[f64]) -> Vec<f64> {
    let n = l.len();
    let mut v = vec![0.0; n];
    for k in (0..n).rev() {
        let mut acc = u[k];
        for m in (k + 1)..n {
            acc -= l[m][k] * v[m];
        }
        v[k] = acc / l[k][k];
    }
    v
}

fn scatter(x: &Vec<Vec<u64>>, plan: &LdaPlan) -> Option<(Vec<u64>, Scatter)> {
    let x: Matrix = x.iter().map(|r| nums(r)).collect();
    let mean = mean_of(&x);
    let nf = mean.len();
    let nc = plan.classes.len();
    let mut means = vec![vec![0.0; nf]; nc];
    for (i, c) in plan.class_id.iter().enumerate() {
        for j in 0..nf {
            means[*c][j] += x[i][j] / plan.class_sizes[*c] as f64;
        }
    }
    let mut sw = vec![vec![0.0; nf]; nf];
    for (i, c) in plan.class_id.iter().enumerate() {
        for j in 0..nf {
            for l in 0..nf {
                sw[j][l] += (x[i][j] - means[*c][j]) * (x[i][l] - means[*c][l]);
            }
        }
    }
    let mut sb = vec![vec![0.0; nf]; nf];
    for c in 0..nc {
        for j in 0..nf {
            for l in 0..nf {
                sb[j][l] += plan.class_sizes[c] as f64
                    * (means[c][j] - mean[j])
                    * (means[c][l] - mean[l]);
            }
        }
    }
    let trace: f64 = (0..nf).map(|i| sw[i][i]).sum();
    let ridge = 1e-9 * (trace / nf as f64).max(1e-12);
    let mut lower = vec![vec![0.0; nf]; nf];
    for i in 0..nf {
        for j in 0..=i {
            let mut sum = sw[i][j] + if i == j { ridge } else { 0.0 };
            for m in 0..j {
                sum -= lower[i][m] * lower[j][m];
            }
            if i == j {
                if sum <= 0.0 {
                    return None;
                }
                lower[i][i] = sum.sqrt();
            } else {
                lower[i][j] = sum / lower[j][j];
            }
        }
    }
    let mut inner = vec![vec![0.0; nf]; nf];
    for j in 0..nf {
        let mut e = vec![0.0; nf];
        e[j] = 1.0;
        let y = times(&sb, &back_substitute(&lower, &e));
        let mut w = vec![0.0; nf];
        for k in 0..nf {
            let mut acc = y[k];
            for m in 0..k {
                acc -= lower[k][m] * w[m];
            }
            w[k] = acc / lower[k][k];
            inner[k][j] = w[k];
        }
    }
    Some((bits(&mean), Scatter { lower, inner }))
}

fn next_discriminant(
    s: &Scatter,
    found: &Vec<Vec<u64>>,
    sources: &Vec<Vec<u64>>,
    values: &Vec<u64>,
) -> Option<(Vec<u64>, Vec<u64>, u64)> {
    let found: Matrix = found.iter().map(|r| nums(r)).collect();
    let sources: Matrix = sources.iter().map(|r| nums(r)).collect();
    let m = deflated(&s.inner, &sources, &nums(values));
    let u = dominant(&m, &found);
    let ev = quotient(&m, &u);
    let mut v = back_substitute(&s.lower, &u);
    let norm = dot(&v, &v).sqrt();
    if norm < 1e-12 {
        return None;
    }
    for a in v.iter_mut() {
        *a /= norm;
    }
    Some((bits(&v), bits(&u), ev.to_bits()))
}

fn fit_lda(x: &[Vec<f64>], y: &[f64], n: usize) -> Option<LdaModel> {
    LdaModel::fit(&rows(x), &bits(y), n, &scatter, &next_discriminant)
}

fn two_gaussians() -> (Vec<Vec<f64>>, Vec<f64>) {
    let mut x = Vec::new();
    let mut y = Vec::new();
    for i in 0..20 {
        for j in 0..20 {
            x.push(vec![i as f64 / 5.0 - 2.0, j as f64 / 5.0 - 2.0]);
            y.push(0.0);
        }
    }
    for i in 0..20 {
        for j in 0..20 {
            x.push(vec![i as f64 / 5.0 + 1.0, j as f64 / 5.0 - 2.0]);
            y.push(1.0);
        }
    }
    (x, y)
}

// -- principal components --

#[test]
fn test_pca_simple() {
    let x: Vec<Vec<f64>> = vec![
        vec![1.0, 2.0],
        vec![2.0, 4.0],
        vec![3.0, 6.0],
        vec![4.0, 8.0],
        vec![5.0, 10.0],
    ];
    let pca = fit_pca(&x, 2);
    assert_eq!(pca.n_components(), 2);
    assert!(f64::from_bits(pca.explained_variance_ratio()[0]) > 0.9);

    let t = nums(&pca.transform(&bits(&[3.0, 6.0]), &project));
    assert!(t.len() >= 1);
    assert!(
        t[1].abs() < 0.01,
        "second component should be near zero: {}",
        t[1]
    );
}

fn four_rows() -> Vec<Vec<f64>> {
    vec![
        vec![1.0, 2.0],
        vec![3.0, 4.0],
        vec![5.0, 6.0],
        vec![7.0, 8.0],
    ]
}

#[test]
fn test_pca_serialization() {
    let pca = fit_pca(&four_rows(), 1);
    let recovered = PcaModel::from_bytes(&pca.to_bytes()).unwrap();
    assert_eq!(recovered.n_components(), 1);
    assert_eq!(recovered.n_features(), 2);
    assert_eq!(recovered, pca);

    let t1 = f64::from_bits(pca.score(&bits(&[4.0, 5.0]), &project));
    let t2 = f64::from_bits(recovered.score(&bits(&[4.0, 5.0]), &project));
    assert!((t1 - t2).abs() < 0.01);
}

#[test]
fn test_pca_mlmodel_roundtrip() {
    let model = PcaMlModel {
        metadata: ModelMetadata {
            algorithm: Algorithm::PCA,
            num_features: 2,
            num_samples: 4,
            r_squared: None,
            mse: None,
            coefficients_count: 2,
            hyperparameters_json: "{}".to_string(),
        },
        inner: fit_pca(&four_rows(), 1),
    };
    let blob = model.serialize();
    let recovered = PcaMlModel::deserialize(&blob, &write).unwrap();
    assert_eq!(recovered.metadata.algorithm, Algorithm::PCA);
    assert_eq!(recovered.inner.n_features(), 2);

    let orig = f64::from_bits(model.predict(&bits(&[4.0, 5.0]), &project).unwrap());
    let recv = f64::from_bits(recovered.predict(&bits(&[4.0, 5.0]), &project).unwrap());
    assert!((orig - recv).abs() < 0.01);
    assert!(matches!(
        PcaMlModel::deserialize(&blob[..7], &write),
        Err(ModelError::Serialization(_))
    ));
}

#[test]
fn pca_search_ends_behind_a_negligible_axis() {
    let x: Vec<Vec<f64>> = (0..6).map(|i| vec![i as f64, 0.0, 0.0]).collect();
    let pca = fit_pca(&x, 3);
    assert_eq!(pca.n_components(), 2);
}

// -- discriminants --

#[test]
fn separates_two_classes() {
    let (x, y) = two_gaussians();
    let model = fit_lda(&x, &y, 1).unwrap();
    assert_eq!(model.n_components(), 1);
    let along = |i: usize| f64::from_bits(model.score(&bits(&x[i]), &project));
    let m0: Vec<f64> = (0..400).filter(|&i| y[i] == 0.0).map(along).collect();
    let m1: Vec<f64> = (400..800).filter(|&i| y[i] == 1.0).map(along).collect();
    let mean0: f64 = m0.iter().sum::<f64>() / m0.len() as f64;
    let mean1: f64 = m1.iter().sum::<f64>() / m1.len() as f64;
    assert!(
        (mean1 - mean0).abs() > 1.0,
        "means should separate: {mean0} vs {mean1}"
    );
}

#[test]
fn caps_at_classes_minus_one() {
    let (x, y) = two_gaussians();
    let model = fit_lda(&x, &y, 8).unwrap();
    assert_eq!(model.n_components(), 1);
}

#[test]
fn serialization_roundtrip() {
    let (x, y) = two_gaussians();
    let model = fit_lda(&x, &y, 1).unwrap();
    let back = LdaModel::from_bytes(&model.to_bytes()).unwrap();
    let f = bits(&[0.5, 0.5]);
    let p1 = nums(&model.transform(&f, &project));
    let p2 = nums(&back.transform(&f, &project));
    assert!((p1[0] - p2[0]).abs() < 1e-12);
    assert_eq!(back.eigenvalues(), model.eigenvalues());
}

#[test]
fn rejects_single_class() {
    let (x, _) = two_gaussians();
    let y = vec![0.0; x.len()];
    assert!(fit_lda(&x, &y, 1).is_none());
}

#[test]
fn lda_plan_groups_the_samples() {
    let plan = plan_lda(5, 2, &bits(&[2.0, 1.0, 2.0, 3.0, -0.0]), 9).unwrap();
    assert_eq!(nums(&plan.classes), vec![0.0, 1.0, 2.0, 3.0]);
    assert_eq!(plan.class_id, vec![2, 1, 2, 3, 0]);
    assert_eq!(plan.class_sizes, vec![1, 1, 2, 1]);
    assert_eq!(plan.class_sizes.iter().sum::<usize>(), 5);
    assert_eq!(plan.k, 2);
    assert!(plan_lda(1, 2, &bits(&[1.0]), 1).is_none());
    assert!(plan_lda(2, 0, &bits(&[1.0, 2.0]), 1).is_none());
    assert!(plan_lda(2, 1, &bits(&[1.0, 2.0]), 0).is_none());
}

#[test]
fn lda_reports_a_degenerate_scatter() {
    let none = |_: &Vec<Vec<u64>>, _: &LdaPlan| -> Option<(Vec<u64>, Scatter)> { None };
    let (x, y) = two_gaussians();
    assert!(LdaModel::fit(&rows(&x), &bits(&y), 1, &none, &next_discriminant).is_none());
}

#[test]
fn lda_with_metadata_reads_back() {
    let (x, y) = two_gaussians();
    let inner = fit_lda(&x, &y, 1).unwrap();
    let model = LdaMlModel {
        metadata: ModelMetadata {
            algorithm: Algorithm::LDA,
            num_features: 2,
            num_samples: 800,
            r_squared: None,
            mse: None,
            coefficients_count: 2,
            hyperparameters_json: "{}".to_string(),
        },
        inner,
    };
    let back = LdaMlModel::deserialize(&model.serialize(), &write).unwrap();
    assert_eq!(back.inner, model.inner);
    assert_eq!(back.metadata.algorithm, Algorithm::LDA);
    assert_eq!(
        back.predict(&bits(&[1.0, 2.0]), &project),
        model.predict(&bits(&[1.0, 2.0]), &project)
    );
}

// -- the shared format --

#[test]
fn projection_bytes_are_little_endian() {
    let bytes = write_projection(&bits(&[1.0]), &rows(&[vec![2.0]]), &bits(&[3.0]));
    let mut expected = vec![1, 0, 0, 0, 1, 0, 0, 0];
    expected.extend_from_slice(&1.0f64.to_le_bytes());
    expected.extend_from_slice(&2.0f64.to_le_bytes());
    expected.extend_from_slice(&3.0f64.to_le_bytes());
    assert_eq!(bytes, expected);
    let back = read_projection(&bytes).unwrap();
    assert_eq!(nums(&back.mean), vec![1.0]);
    assert_eq!(nums(&back.components[0]), vec![2.0]);
    assert_eq!(nums(&back.weights), vec![3.0]);
    assert!(read_projection(&bytes[..bytes.len() - 1]).is_none());
}

#[test]
fn score_is_the_first_coordinate() {
    assert_eq!(score_of(&bits(&[4.0, 5.0])), 4.0f64.to_bits());
    assert_eq!(score_of(&vec![]), 0.0f64.to_bits());
}
