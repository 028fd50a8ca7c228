//! What models have in common: predicting after the number of features was
//! checked, and finding the nearest of some points.

use vstd::prelude::*;
use crate::json;
use crate::model::choice;
use crate::model::choice::find_least;
use crate::model::knn;
use crate::model::types::{Algorithm, ModelError, ModelMetadata};

verus! {

/// `p` is what the caller predicts from some features.
pub open spec fn answers<P: Fn(&Vec<u64>) -> u64>(predict: P, features: Seq<u64>, p: u64) -> bool {
    exists|f: &Vec<u64>| f@ == features && #[trigger] call_ensures(predict, (f,), p)
}

/// What a prediction with a check gives: an error where there are not as many
/// features as expected, else what the caller predicts.
pub open spec fn checked_outcome<P: Fn(&Vec<u64>) -> u64>(
    expected: usize,
    predict: P,
    features: Seq<u64>,
    r: Result<u64, ModelError>,
) -> bool {
    if features.len() != expected {
        r matches Err(ModelError::FeatureCountMismatch { expected: e, got }) && e == expected && got == features.len()
    } else {
        r matches Ok(p) && answers(predict, features, p)
    }
}

/// Predicts after the number of features was checked.
pub fn predict_checked<P: Fn(&Vec<u64>) -> u64>(expected: usize, features: &Vec<u64>, predict: &P) -> (r: Result<
    u64,
    ModelError,
>)
    requires
        forall|f: &Vec<u64>| f@.len() == expected ==> call_requires(*predict, (f,)),
    ensures
        checked_outcome(expected, *predict, features@, r),
{
    if features.len() != expected {
        return Err(ModelError::FeatureCountMismatch { expected, got: features.len() });
    }
    let p: u64 = predict(features);
    assert(call_ensures(*predict, (features,), p));
    Ok(p)
}

/// The nearest of some points, by its position: the first one with the least
/// distance, and the first of all where no distance is finite.
pub open spec fn is_nearest<D: Fn(&Vec<u64>, &Vec<u64>) -> u64>(
    distance: D,
    points: Seq<Seq<u64>>,
    features: Seq<u64>,
    r: usize,
) -> bool {
    exists|ds: Seq<u64>, best: Option<usize>| #[trigger]
        knn::measures_all(distance, points, features, ds) && #[trigger] choice::first_least(ds, best) && r == (
        match best {
            Some(p) => p,
            None => 0,
        })
}

/// Finds the nearest of some points.
pub fn find_nearest<D: Fn(&Vec<u64>, &Vec<u64>) -> u64>(points: &Vec<Vec<u64>>, features: &Vec<u64>, distance: &D) -> (r: usize)
    requires
        forall|a: &Vec<u64>, b: &Vec<u64>| call_requires(*distance, (a, b)),
    ensures
        is_nearest(*distance, json::rows_of(points@), features@, r),
        points@.len() > 0 ==> r < points@.len(),
        points@.len() == 0 ==> r == 0,
{
    let ghost shown = json::rows_of(points@);
    let mut ds: Vec<u64> = Vec::new();
    let mut i: usize = 0;
    while i < points.len()
        invariant
            forall|a: &Vec<u64>, b: &Vec<u64>| call_requires(*distance, (a, b)),
            shown == json::rows_of(points@),
            i <= points@.len(),
            ds@.len() == i,
            forall|j: int| 0 <= j < i ==> knn::measures(*distance, shown[j], features@, #[trigger] ds@[j]),
        decreases points.len() - i,
    {
        let a = &points[i];
        let d: u64 = distance(a, features);
        proof {
            assert(shown[i as int] == a@);
            assert(call_ensures(*distance, (a, features), d));
        }
        ds.push(d);
        i = i + 1;
    }
    let best: Option<usize> = find_least(&ds);
    assert(knn::measures_all(*distance, shown, features@, ds@));
    match best {
        Some(p) => p,
        None => 0,
    }
}

/// What clustering models predict: the caller's number for the nearest point.
pub open spec fn nearest_outcome<D: Fn(&Vec<u64>, &Vec<u64>) -> u64, L: Fn(usize) -> u64>(
    expected: usize,
    distance: D,
    label: L,
    points: Seq<Seq<u64>>,
    features: Seq<u64>,
    r: Result<u64, ModelError>,
) -> bool {
    if features.len() != expected {
        r matches Err(ModelError::FeatureCountMismatch { expected: e, got }) && e == expected && got == features.len()
    } else {
        r matches Ok(p) && labels_nearest(distance, label, points, features, p)
    }
}

/// The number is the caller's for the nearest point.
pub open spec fn labels_nearest<D: Fn(&Vec<u64>, &Vec<u64>) -> u64, L: Fn(usize) -> u64>(
    distance: D,
    label: L,
    points: Seq<Seq<u64>>,
    features: Seq<u64>,
    p: u64,
) -> bool {
    exists|c: usize| #[trigger] is_nearest(distance, points, features, c) && call_ensures(label, (c,), p)
}

/// Predicts the nearest point. `label` turns a position into a number.
pub fn predict_nearest<D: Fn(&Vec<u64>, &Vec<u64>) -> u64, L: Fn(usize) -> u64>(
    expected: usize,
    points: &Vec<Vec<u64>>,
    features: &Vec<u64>,
    distance: &D,
    label: &L,
) -> (r: Result<u64, ModelError>)
    requires
        forall|a: &Vec<u64>, b: &Vec<u64>| call_requires(*distance, (a, b)),
        forall|c: usize| call_requires(*label, (c,)),
    ensures
        nearest_outcome(expected, *distance, *label, json::rows_of(points@), features@, r),
{
    if features.len() != expected {
        return Err(ModelError::FeatureCountMismatch { expected, got: features.len() });
    }
    let c: usize = find_nearest(points, features, distance);
    let p: u64 = label(c);
    proof {
        assert(is_nearest(*distance, json::rows_of(points@), features@, c));
        assert(labels_nearest(*distance, *label, json::rows_of(points@), features@, p));
    }
    Ok(p)
}

/// The metadata apart from the hyperparameters.
pub open spec fn describes(
    meta: ModelMetadata,
    algorithm: Algorithm,
    num_features: nat,
    num_samples: nat,
    r_squared: Option<u64>,
    mse: Option<u64>,
    coefficients_count: nat,
) -> bool {
    &&& meta.algorithm == algorithm
    &&& meta.num_features == num_features
    &&& meta.num_samples == num_samples
    &&& meta.r_squared == r_squared
    &&& meta.mse == mse
    &&& meta.coefficients_count == coefficients_count
}

} // verus!
