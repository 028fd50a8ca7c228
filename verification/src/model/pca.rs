//! Principal component analysis: the directions along which data varies most.

use vstd::prelude::*;
use crate::json;
use crate::model::projection;
use crate::model::projection::{read_projection, score_of, transform_by, write_projection, ProjectionView};
use crate::model::types::{Algorithm, ModelError, ModelMetadata};
use crate::scalar;
use crate::scalar::write_number_array;
use crate::text;
use crate::text::push_decimal;

verus! {

/// The model. The numbers are the bits of doubles.
#[derive(Debug, PartialEq, Eq)]
pub struct PcaModel {
    /// The mean of the training data.
    pub mean: Vec<u64>,
    /// The directions, the one with the most variance first.
    pub components: Vec<Vec<u64>>,
    /// The share of the variance along each direction.
    pub explained_variance_ratio: Vec<u64>,
}

impl View for PcaModel {
    type V = ProjectionView;

    open spec fn view(&self) -> ProjectionView {
        ProjectionView {
            mean: self.mean@,
            components: json::rows_of(self.components@),
            weights: self.explained_variance_ratio@,
        }
    }
}

/// The next direction, as the caller finds it from those before it.
pub open spec fn finds_next<S, E: Fn(&S, &Vec<Vec<u64>>, &Vec<u64>) -> (Vec<u64>, u64, u64)>(
    next: E,
    state: S,
    components: Seq<Seq<u64>>,
    eigenvalues: Seq<u64>,
    ratios: Seq<u64>,
    i: int,
) -> bool {
    exists|s: &S, a: &Vec<Vec<u64>>, b: &Vec<u64>, r: (Vec<u64>, u64, u64)|
        *s == state && json::rows_of(a@) == components.take(i) && b@ == eigenvalues.take(i) && r.0@ == components[i]
            && r.1 == eigenvalues[i] && r.2 == ratios[i] && #[trigger] call_ensures(next, (s, a, b), r)
}

/// The directions are found one after the other, up to `k` of them; the search
/// ends behind the first direction but one that is negligible.
pub open spec fn finds_all<
    S,
    E: Fn(&S, &Vec<Vec<u64>>, &Vec<u64>) -> (Vec<u64>, u64, u64),
    G: Fn(u64, u64) -> bool,
>(next: E, negligible: G, state: S, eigenvalues: Seq<u64>, k: nat, p: ProjectionView) -> bool {
    let n = p.components.len();
    &&& n <= k
    &&& p.weights.len() == n
    &&& eigenvalues.len() == n
    &&& forall|i: int|
        0 <= i < n ==> #[trigger] finds_next(next, state, p.components, eigenvalues, p.weights, i)
    &&& forall|i: int|
        #![trigger p.weights[i]]
        1 <= i < n - 1 ==> call_ensures(negligible, (p.weights[i], p.weights[0]), false)
    &&& n < k ==> n >= 2 && call_ensures(negligible, (p.weights[n - 1], p.weights[0]), true)
}

/// The model is what the caller's steps make of the data.
pub open spec fn is_fitted<
    S,
    A: Fn(&Vec<Vec<u64>>) -> (Vec<u64>, S),
    E: Fn(&S, &Vec<Vec<u64>>, &Vec<u64>) -> (Vec<u64>, u64, u64),
    G: Fn(u64, u64) -> bool,
>(prepare: A, next: E, negligible: G, x: Seq<Seq<u64>>, k: nat, p: ProjectionView) -> bool {
    exists|a: &Vec<Vec<u64>>, prepared: (Vec<u64>, S), eigenvalues: Seq<u64>|
        json::rows_of(a@) == x && #[trigger] call_ensures(prepare, (a,), prepared) && prepared.0@ == p.mean
            && #[trigger] finds_all(next, negligible, prepared.1, eigenvalues, k, p)
}

impl PcaModel {
    /// Fits a model with up to `k` directions. `prepare` gives the mean and what
    /// the search works on; `next` gives the next direction, its eigenvalue and
    /// its share of the variance; `negligible` compares a share with the first.
    pub fn fit<
        S,
        A: Fn(&Vec<Vec<u64>>) -> (Vec<u64>, S),
        E: Fn(&S, &Vec<Vec<u64>>, &Vec<u64>) -> (Vec<u64>, u64, u64),
        G: Fn(u64, u64) -> bool,
    >(x: &Vec<Vec<u64>>, k: usize, prepare: &A, next: &E, negligible: &G) -> (m: Self)
        requires
            x@.len() > 0,
            forall|i: int| 0 <= i < x@.len() ==> (#[trigger] x@[i])@.len() >= x@[0]@.len(),
            call_requires(*prepare, (x,)),
            forall|s: &S, a: &Vec<Vec<u64>>, b: &Vec<u64>| call_requires(*next, (s, a, b)),
            forall|a: u64, b: u64| call_requires(*negligible, (a, b)),
        ensures
            is_fitted(*prepare, *next, *negligible, json::rows_of(x@), k as nat, m@),
    {
        let (mean, state) = prepare(x);
        let ghost prepared = (mean, state);
        assert(call_ensures(*prepare, (x,), prepared));
        let mut components: Vec<Vec<u64>> = Vec::new();
        let mut eigenvalues: Vec<u64> = Vec::new();
        let mut ratios: Vec<u64> = Vec::new();
        let mut done: bool = k == 0;
        while !done
            invariant
                forall|s: &S, a: &Vec<Vec<u64>>, b: &Vec<u64>| call_requires(*next, (s, a, b)),
                forall|a: u64, b: u64| call_requires(*negligible, (a, b)),
                components@.len() <= k,
                !done ==> components@.len() < k,
                components@.len() == ratios@.len(),
                components@.len() == eigenvalues@.len(),
                forall|i: int|
                    #![trigger components@[i]]
                    0 <= i < components@.len() ==> finds_next(
                        *next,
                        state,
                        json::rows_of(components@),
                        eigenvalues@,
                        ratios@,
                        i,
                    ),
                forall|i: int|
                    #![trigger ratios@[i]]
                    1 <= i < ratios@.len() - 1 ==> call_ensures(*negligible, (ratios@[i], ratios@[0]), false),
                !done && ratios@.len() > 1 ==> call_ensures(*negligible, (ratios@.last(), ratios@[0]), false),
                done && components@.len() < k ==> components@.len() >= 2 && call_ensures(
                    *negligible,
                    (ratios@.last(), ratios@[0]),
                    true,
                ),
            decreases k - components@.len(), (if done {
                0int
            } else {
                1int
            }),
        {
            let ghost shown = json::rows_of(components@);
            let ghost values = eigenvalues@;
            let ghost shares = ratios@;
            let ghost n = components@.len() as int;
            let s = &state;
            let a = &components;
            let b = &eigenvalues;
            let (v, ev, ratio) = next(s, a, b);
            proof {
                let r = (v, ev, ratio);
                assert(call_ensures(*next, (s, a, b), r));
                let more = shown.push(v@);
                let longer = values.push(ev);
                let wider = shares.push(ratio);
                assert(more.take(n) =~= shown);
                assert(longer.take(n) =~= values);
                assert(finds_next(*next, state, more, longer, wider, n));
                assert forall|i: int| 0 <= i < n implies finds_next(*next, state, more, longer, wider, i) by {
                    assert(components@[i]@ == shown[i]);
                    assert(finds_next(*next, state, shown, values, shares, i));
                    assert(more.take(i) =~= shown.take(i));
                    assert(longer.take(i) =~= values.take(i));
                    assert(more[i] == shown[i] && longer[i] == values[i] && wider[i] == shares[i]);
                }
            }
            components.push(v);
            eigenvalues.push(ev);
            ratios.push(ratio);
            proof {
                assert(json::rows_of(components@) =~= shown.push(v@));
                assert(eigenvalues@ =~= values.push(ev));
                assert(ratios@ =~= shares.push(ratio));
            }
            let count: usize = components.len();
            if count > 1 {
                let small: bool = negligible(ratio, ratios[0]);
                done = small || count == k;
            } else {
                done = count == k;
            }
        }
        let m = PcaModel { mean, components, explained_variance_ratio: ratios };
        proof {
            assert(prepared.1 == state);
            assert forall|i: int| 0 <= i < m@.components.len() implies #[trigger] finds_next(
                *next,
                prepared.1,
                m@.components,
                eigenvalues@,
                m@.weights,
                i,
            ) by {
                assert(m@.components[i] == components@[i]@);
            }
            assert(finds_all(*next, *negligible, prepared.1, eigenvalues@, k as nat, m@));
        }
        m
    }

    /// The coordinates of some features along all directions.
    pub fn transform<P: Fn(&Vec<u64>, &Vec<u64>, &Vec<u64>) -> u64>(&self, features: &Vec<u64>, project: &P) -> (values: Vec<
        u64,
    >)
        requires
            forall|a: &Vec<u64>, f: &Vec<u64>, m: &Vec<u64>| call_requires(*project, (a, f, m)),
        ensures
            projection::projects_all(*project, self@.mean, self@.components, features@, values@),
    {
        transform_by(&self.mean, &self.components, features, project)
    }

    /// The coordinate along the first direction.
    pub fn score<P: Fn(&Vec<u64>, &Vec<u64>, &Vec<u64>) -> u64>(&self, features: &Vec<u64>, project: &P) -> (r: u64)
        requires
            forall|a: &Vec<u64>, f: &Vec<u64>, m: &Vec<u64>| call_requires(*project, (a, f, m)),
        ensures
            projection::scores(*project, self@, features@, r),
    {
        score_of(&self.transform(features, project))
    }

    pub fn n_components(&self) -> (n: usize)
        ensures
            n == self@.components.len(),
    {
        self.components.len()
    }

    pub fn n_features(&self) -> (n: usize)
        ensures
            n == self@.mean.len(),
    {
        self.mean.len()
    }

    pub fn explained_variance_ratio(&self) -> (r: &Vec<u64>)
        ensures
            r@ == self@.weights,
    {
        &self.explained_variance_ratio
    }

    /// The bytes that keep the model.
    pub fn to_bytes(&self) -> (r: Vec<u8>)
        ensures
            r@ == projection::projection_bytes(self@),
    {
        write_projection(&self.mean, &self.components, &self.explained_variance_ratio)
    }

    /// Reads a model back from the bytes that keep it.
    pub fn from_bytes(data: &[u8]) -> (r: Option<Self>)
        ensures
            match r {
                Some(m) => projection::projection_read(data@) == Some(m@),
                None => projection::projection_read(data@) is None,
            },
    {
        match read_projection(data) {
            Some(p) => Some(
                PcaModel { mean: p.mean, components: p.components, explained_variance_ratio: p.weights },
            ),
            None => None,
        }
    }
}

/// A model with its metadata.
#[derive(Debug, PartialEq, Eq)]
pub struct PcaMlModel {
    pub metadata: ModelMetadata,
    pub inner: PcaModel,
}

/// The text is the JSON of the hyperparameters of a model that was read back.
pub open spec fn pca_hyperparameters<W: Fn(u64) -> String>(write: W, p: ProjectionView, out: Seq<char>) -> bool {
    exists|shares: Seq<char>| #[trigger]
        scalar::numbers_json(write, p.weights, shares) && out == "{\"explained_variance_ratio\":"@ + shares
            + ",\"n_components\":"@ + text::decimal(p.components.len()) + "}"@
}

/// The metadata of a model that was read back. The number of samples is not kept.
pub open spec fn is_pca_metadata<W: Fn(u64) -> String>(write: W, meta: ModelMetadata, p: ProjectionView) -> bool {
    &&& meta.algorithm == Algorithm::PCA
    &&& meta.num_features == p.mean.len()
    &&& meta.num_samples == 0
    &&& meta.r_squared is None
    &&& meta.mse is None
    &&& meta.coefficients_count == p.components.len() * p.mean.len()
    &&& pca_hyperparameters(write, p, meta.hyperparameters_json@)
}

impl PcaMlModel {
    /// The coordinate along the first direction.
    pub fn predict<P: Fn(&Vec<u64>, &Vec<u64>, &Vec<u64>) -> u64>(&self, features: &Vec<u64>, project: &P) -> (r: Result<
        u64,
        ModelError,
    >)
        requires
            forall|a: &Vec<u64>, f: &Vec<u64>, m: &Vec<u64>| call_requires(*project, (a, f, m)),
        ensures
            r matches Ok(v) && projection::scores(*project, self.inner@, features@, v),
    {
        Ok(self.inner.score(features, project))
    }

    /// The bytes that keep the model.
    pub fn serialize(&self) -> (r: Vec<u8>)
        ensures
            r@ == projection::projection_bytes(self.inner@),
    {
        self.inner.to_bytes()
    }

    /// Reads a model back from the bytes that keep it. `write` writes a number as
    /// JSON.
    pub fn deserialize<W: Fn(u64) -> String>(blob: &[u8], write: &W) -> (r: Result<Self, ModelError>)
        requires
            forall|x: u64| call_requires(*write, (x,)),
        ensures
            match projection::projection_read(blob@) {
                Some(p) => r matches Ok(model) && model.inner@ == p && is_pca_metadata(*write, model.metadata, p),
                None => r matches Err(ModelError::Serialization(e)) && e@ == "Failed to decode PCA model"@,
            },
    {
        let inner: PcaModel = match PcaModel::from_bytes(blob) {
            Some(inner) => inner,
            None => {
                return Err(ModelError::Serialization("Failed to decode PCA model".to_owned()));
            },
        };
        let shares: String = write_number_array(&inner.explained_variance_ratio, write);
        let mut hyperparameters_json: String = "{\"explained_variance_ratio\":".to_owned();
        hyperparameters_json.append(shares.as_str());
        hyperparameters_json.append(",\"n_components\":");
        push_decimal(&mut hyperparameters_json, inner.n_components() as u64);
        hyperparameters_json.append("}");
        let total: usize = blob.len();
        proof {
            projection::lemma_projection_count(blob@);
            assert(scalar::numbers_json(*write, inner@.weights, shares@));
            assert(pca_hyperparameters(*write, inner@, hyperparameters_json@));
            assert(inner@.components.len() * inner@.mean.len() <= total);
        }
        let metadata = ModelMetadata {
            algorithm: Algorithm::PCA,
            num_features: inner.n_features(),
            num_samples: 0,
            r_squared: None,
            mse: None,
            coefficients_count: inner.n_components() * inner.n_features(),
            hyperparameters_json,
        };
        Ok(PcaMlModel { metadata, inner })
    }
}

} // verus!
