//! Models around data that a trainer gives: boosting, forecasting, hazards,
//! ordered and many classes, and support vectors. The library knows what is to be
//! told of such a model and checks what it is asked; the data is the caller's.
//!
//! The numbers are the bits of doubles.

use vstd::prelude::*;
use crate::bits;
use crate::bits::is_less_eq;
use crate::json::quote_text;
use crate::json;
use crate::model::checked;
use crate::model::checked::predict_checked;
use crate::model::types::{Algorithm, ModelError, ModelMetadata};
use crate::scalar;
use crate::scalar::write_numbers;
use crate::text;
use crate::text::push_decimal;

verus! {

/// A decision by one feature: one number up to a threshold, another above it.
#[derive(Debug, Clone, Copy, PartialEq, Eq)]
pub struct StumpData {
    pub feature: usize,
    pub threshold: u64,
    pub left: u64,
    pub right: u64,
}

/// Boosted decisions.
#[derive(Debug, PartialEq, Eq)]
pub struct AdaBoostModel {
    pub metadata: ModelMetadata,
    pub stumps: Vec<StumpData>,
    pub alphas: Vec<u64>,
    pub classes: Vec<u64>,
}

impl AdaBoostModel {
    /// The model of the decisions, their weights and the two classes.
    pub fn new(
        stumps: Vec<StumpData>,
        alphas: Vec<u64>,
        classes: Vec<u64>,
        num_features: usize,
        num_samples: usize,
    ) -> (r: Self)
        ensures
            r.stumps == stumps,
            r.alphas == alphas,
            r.classes == classes,
            checked::describes(
                r.metadata,
                Algorithm::AdaBoost,
                num_features as nat,
                num_samples as nat,
                None,
                None,
                stumps@.len(),
            ),
            r.metadata.hyperparameters_json@ == "{\"base\":\"decision_stump\",\"n_estimators\":"@ + text::decimal(
                stumps@.len(),
            ) + "}"@,
    {
        let n: usize = stumps.len();
        let mut hyperparameters_json: String = "{\"base\":\"decision_stump\",\"n_estimators\":".to_owned();
        push_decimal(&mut hyperparameters_json, n as u64);
        hyperparameters_json.append("}");
        let metadata = ModelMetadata {
            algorithm: Algorithm::AdaBoost,
            num_features,
            num_samples,
            r_squared: None,
            mse: None,
            coefficients_count: n,
            hyperparameters_json,
        };
        AdaBoostModel { metadata, stumps, alphas, classes }
    }

    /// Predicts. `vote` lets the decisions vote.
    pub fn predict<P: Fn(&Vec<u64>) -> u64>(&self, features: &Vec<u64>, vote: &P) -> (r: Result<u64, ModelError>)
        requires
            forall|f: &Vec<u64>| f@.len() == self.metadata.num_features ==> call_requires(*vote, (f,)),
        ensures
            checked::checked_outcome(self.metadata.num_features, *vote, features@, r),
    {
        predict_checked(self.metadata.num_features, features, vote)
    }
}

/// The last step ahead that can be forecast, 100000.
pub const MAX_HORIZON: u64 = 0x40f8_6a00_0000_0000;

/// A time series model: `p` autoregressive and `q` moving-average terms over the
/// `d`-th differences.
#[derive(Debug, PartialEq, Eq)]
pub struct ArimaMlModel<D> {
    pub metadata: ModelMetadata,
    pub model: D,
}

impl<D> ArimaMlModel<D> {
    /// The model of the trainer's data. `terms` is the number of coefficients, and
    /// `intercept` is the intercept as text.
    pub fn new(model: D, p: usize, d: usize, q: usize, terms: usize, intercept: &str) -> (r: Self)
        ensures
            r.model == model,
            checked::describes(r.metadata, Algorithm::Arima, 1, 0, None, None, terms as nat),
            r.metadata.hyperparameters_json@ == "p="@ + text::decimal(p as nat) + ",d="@ + text::decimal(d as nat)
                + ",q="@ + text::decimal(q as nat) + ",intercept="@ + intercept@,
    {
        let mut hyperparameters_json: String = "p=".to_owned();
        push_decimal(&mut hyperparameters_json, p as u64);
        hyperparameters_json.append(",d=");
        push_decimal(&mut hyperparameters_json, d as u64);
        hyperparameters_json.append(",q=");
        push_decimal(&mut hyperparameters_json, q as u64);
        hyperparameters_json.append(",intercept=");
        hyperparameters_json.append(intercept);
        let metadata = ModelMetadata {
            algorithm: Algorithm::Arima,
            num_features: 1,
            num_samples: 0,
            r_squared: None,
            mse: None,
            coefficients_count: terms,
            hyperparameters_json,
        };
        ArimaMlModel { metadata, model }
    }

    /// Forecasts as many steps ahead as the one feature says, from one to a hundred
    /// thousand. `forecast` asks the data, `show` writes a number as text.
    pub fn predict<F: Fn(&D, u64) -> u64, S: Fn(u64) -> String>(
        &self,
        features: &Vec<u64>,
        forecast: &F,
        show: &S,
    ) -> (r: Result<u64, ModelError>)
        requires
            forall|m: &D, h: u64|
                bits::less_eq(bits::ONE, h) && bits::less_eq(h, MAX_HORIZON) ==> call_requires(*forecast, (m, h)),
            forall|x: u64| call_requires(*show, (x,)),
        ensures
            if features@.len() != 1 {
                r matches Err(ModelError::FeatureCountMismatch { expected, got }) && expected == 1 && got
                    == features@.len()
            } else if bits::less_eq(bits::ONE, features@[0]) && bits::less_eq(features@[0], MAX_HORIZON) {
                r matches Ok(p) && forecasts(*forecast, self.model, features@[0], p)
            } else {
                r matches Err(ModelError::Training(e)) && out_of_range(*show, features@[0], e@)
            },
    {
        if features.len() != 1 {
            return Err(ModelError::FeatureCountMismatch { expected: 1, got: features.len() });
        }
        let h: u64 = features[0];
        if is_less_eq(bits::ONE, h) && is_less_eq(h, MAX_HORIZON) {
            let m = &self.model;
            let p: u64 = forecast(m, h);
            proof {
                assert(call_ensures(*forecast, (m, h), p));
                assert(forecasts(*forecast, self.model, h, p));
            }
            Ok(p)
        } else {
            let shown: String = show(h);
            let mut e: String = "arima: forecast horizon must be in [1, 100000], got ".to_owned();
            e.append(shown.as_str());
            proof {
                assert(call_ensures(*show, (h,), shown));
                assert(scalar::writes(*show, h, shown@));
                assert(out_of_range(*show, h, e@));
            }
            Err(ModelError::Training(e))
        }
    }
}

/// The caller's forecast.
pub open spec fn forecasts<D, F: Fn(&D, u64) -> u64>(forecast: F, model: D, h: u64, p: u64) -> bool {
    exists|m: &D| *m == model && #[trigger] call_ensures(forecast, (m, h), p)
}

/// The message for a number of steps that cannot be forecast.
pub open spec fn out_of_range<S: Fn(u64) -> String>(show: S, h: u64, e: Seq<char>) -> bool {
    exists|shown: Seq<char>| #[trigger]
        scalar::writes(show, h, shown) && e == "arima: forecast horizon must be in [1, 100000], got "@ + shown
}

/// Proportional hazards: predicts a relative risk.
#[derive(Debug, PartialEq, Eq)]
pub struct CoxMlModel<D> {
    pub metadata: ModelMetadata,
    pub model: D,
}

impl<D> CoxMlModel<D> {
    /// The model of the trainer's data.
    pub fn new(model: D, n_features: usize, n_weights: usize) -> (r: Self)
        ensures
            r.model == model,
            checked::describes(
                r.metadata,
                Algorithm::CoxProportionalHazards,
                n_features as nat,
                0,
                None,
                None,
                n_weights as nat,
            ),
            r.metadata.hyperparameters_json@ == "partial_likelihood, breslow_ties"@,
    {
        let metadata = ModelMetadata {
            algorithm: Algorithm::CoxProportionalHazards,
            num_features: n_features,
            num_samples: 0,
            r_squared: None,
            mse: None,
            coefficients_count: n_weights,
            hyperparameters_json: "partial_likelihood, breslow_ties".to_owned(),
        };
        CoxMlModel { metadata, model }
    }

    /// Predicts. `ask` asks the data.
    pub fn predict<P: Fn(&Vec<u64>) -> u64>(&self, features: &Vec<u64>, ask: &P) -> (r: Result<u64, ModelError>)
        requires
            forall|f: &Vec<u64>| f@.len() == self.metadata.num_features ==> call_requires(*ask, (f,)),
        ensures
            checked::checked_outcome(self.metadata.num_features, *ask, features@, r),
    {
        predict_checked(self.metadata.num_features, features, ask)
    }
}

/// Texts one after the other, with a comma and a space between them.
pub open spec fn listed(parts: Seq<Seq<char>>, n: nat) -> Seq<char>
    decreases n,
{
    if n == 0 {
        Seq::empty()
    } else if n == 1 {
        parts[0]
    } else {
        listed(parts, (n - 1) as nat) + ", "@ + parts[n - 1]
    }
}

/// The classes as text.
pub open spec fn classes_text<S: Fn(u64) -> String>(show: S, classes: Seq<u64>, out: Seq<char>) -> bool {
    exists|parts: Seq<Seq<char>>| #[trigger]
        scalar::writes_all(show, classes, parts) && out == "classes=["@ + listed(parts, parts.len()) + "]"@
}

fn write_classes<S: Fn(u64) -> String>(classes: &Vec<u64>, show: &S) -> (r: String)
    requires
        forall|x: u64| call_requires(*show, (x,)),
    ensures
        classes_text(*show, classes@, r@),
{
    let parts: Vec<String> = write_numbers(classes, show);
    let ghost all = text::texts(parts@);
    let mut r: String = "classes=[".to_owned();
    let mut i: usize = 0;
    assert(r@ =~= "classes=["@ + listed(all, 0));
    while i < parts.len()
        invariant
            all == text::texts(parts@),
            i <= parts@.len(),
            r@ == "classes=["@ + listed(all, i as nat),
        decreases parts.len() - i,
    {
        assert(all[i as int] == parts@[i as int]@);
        if i > 0 {
            r.append(", ");
        }
        r.append(parts[i].as_str());
        i = i + 1;
        assert(r@ =~= "classes=["@ + listed(all, i as nat));
    }
    r.append("]");
    assert(scalar::writes_all(*show, classes@, all));
    r
}

/// Logistic regression for ordered classes.
#[derive(Debug, PartialEq, Eq)]
pub struct OrdinalMlModel<D> {
    pub metadata: ModelMetadata,
    pub model: D,
}

impl<D> OrdinalMlModel<D> {
    /// The model of the trainer's data. `show` writes a number as text.
    pub fn new<S: Fn(u64) -> String>(
        model: D,
        n_features: usize,
        n_weights: usize,
        n_thresholds: usize,
        classes: &Vec<u64>,
        show: &S,
    ) -> (r: Self)
        requires
            n_weights + n_thresholds <= usize::MAX,
            forall|x: u64| call_requires(*show, (x,)),
        ensures
            r.model == model,
            checked::describes(
                r.metadata,
                Algorithm::OrdinalLogisticRegression,
                n_features as nat,
                0,
                None,
                None,
                (n_weights + n_thresholds) as nat,
            ),
            classes_text(*show, classes@, r.metadata.hyperparameters_json@),
    {
        let metadata = ModelMetadata {
            algorithm: Algorithm::OrdinalLogisticRegression,
            num_features: n_features,
            num_samples: 0,
            r_squared: None,
            mse: None,
            coefficients_count: n_weights + n_thresholds,
            hyperparameters_json: write_classes(classes, show),
        };
        OrdinalMlModel { metadata, model }
    }

    /// Predicts. `ask` asks the data.
    pub fn predict<P: Fn(&Vec<u64>) -> u64>(&self, features: &Vec<u64>, ask: &P) -> (r: Result<u64, ModelError>)
        requires
            forall|f: &Vec<u64>| f@.len() == self.metadata.num_features ==> call_requires(*ask, (f,)),
        ensures
            checked::checked_outcome(self.metadata.num_features, *ask, features@, r),
    {
        predict_checked(self.metadata.num_features, features, ask)
    }
}

/// Logistic regression for many classes.
#[derive(Debug, PartialEq, Eq)]
pub struct MultilogisticModel<D> {
    pub metadata: ModelMetadata,
    pub model: D,
}

impl<D> MultilogisticModel<D> {
    /// The model of the trainer's data: for each of `n_weights` classes, a weight
    /// for each feature and one more. `show` writes a number as text.
    pub fn new<S: Fn(u64) -> String>(
        model: D,
        n_features: usize,
        n_weights: usize,
        classes: &Vec<u64>,
        show: &S,
    ) -> (r: Self)
        requires
            n_weights * (n_features + 1) <= usize::MAX,
            n_features < usize::MAX,
            forall|x: u64| call_requires(*show, (x,)),
        ensures
            r.model == model,
            checked::describes(
                r.metadata,
                Algorithm::MultinomialLogisticRegression,
                n_features as nat,
                0,
                None,
                None,
                (n_weights * (n_features + 1)) as nat,
            ),
            classes_text(*show, classes@, r.metadata.hyperparameters_json@),
    {
        assert(0 <= n_weights * (n_features + 1)) by (nonlinear_arith)
            requires
                0 <= n_weights,
                0 <= n_features,
        ;
        let metadata = ModelMetadata {
            algorithm: Algorithm::MultinomialLogisticRegression,
            num_features: n_features,
            num_samples: 0,
            r_squared: None,
            mse: None,
            coefficients_count: n_weights * (n_features + 1),
            hyperparameters_json: write_classes(classes, show),
        };
        MultilogisticModel { metadata, model }
    }

    /// Predicts. `ask` asks the data.
    pub fn predict<P: Fn(&Vec<u64>) -> u64>(&self, features: &Vec<u64>, ask: &P) -> (r: Result<u64, ModelError>)
        requires
            forall|f: &Vec<u64>| f@.len() == self.metadata.num_features ==> call_requires(*ask, (f,)),
        ensures
            checked::checked_outcome(self.metadata.num_features, *ask, features@, r),
    {
        predict_checked(self.metadata.num_features, features, ask)
    }
}

/// A classifier by support vectors.
#[derive(Debug, PartialEq, Eq)]
pub struct SvmModel<D> {
    pub metadata: ModelMetadata,
    pub blob: D,
}

impl<D> SvmModel<D> {
    /// The model of the trainer's data, whose kernel is linear or Gaussian.
    pub fn from_blob(blob: D, linear: bool, n_features: usize, n_support: usize, rho: u64) -> (r: Self)
        ensures
            r.blob == blob,
            checked::describes(
                r.metadata,
                Algorithm::SVM,
                n_features as nat,
                0,
                None,
                Some(rho),
                n_support as nat,
            ),
            r.metadata.hyperparameters_json@ == "kernel="@ + (if linear {
                "linear"@
            } else {
                "gaussian"@
            }) + ", support_vectors="@ + text::decimal(n_support as nat),
    {
        let mut hyperparameters_json: String = "kernel=".to_owned();
        if linear {
            hyperparameters_json.append("linear");
        } else {
            hyperparameters_json.append("gaussian");
        }
        hyperparameters_json.append(", support_vectors=");
        push_decimal(&mut hyperparameters_json, n_support as u64);
        let metadata = ModelMetadata {
            algorithm: Algorithm::SVM,
            num_features: n_features,
            num_samples: 0,
            r_squared: None,
            mse: Some(rho),
            coefficients_count: n_support,
            hyperparameters_json,
        };
        SvmModel { metadata, blob }
    }

    /// Predicts. `ask` asks the data.
    pub fn predict<P: Fn(&Vec<u64>) -> u64>(&self, features: &Vec<u64>, ask: &P) -> (r: Result<u64, ModelError>)
        requires
            forall|f: &Vec<u64>| f@.len() == self.metadata.num_features ==> call_requires(*ask, (f,)),
        ensures
            checked::checked_outcome(self.metadata.num_features, *ask, features@, r),
    {
        predict_checked(self.metadata.num_features, features, ask)
    }
}

/// What a regression by support vectors was trained with.
#[derive(Debug, PartialEq, Eq)]
pub struct SvrSettings {
    pub kernel: String,
    pub c: u64,
    pub epsilon: u64,
    pub gamma: u64,
    pub degree: usize,
    pub coef0: u64,
}

/// A regression by support vectors.
#[derive(Debug, PartialEq, Eq)]
pub struct SvrModel<D> {
    pub metadata: ModelMetadata,
    pub data: D,
}

/// The JSON text of the settings.
pub open spec fn settings_text(
    c: Seq<char>,
    coef0: Seq<char>,
    degree: nat,
    epsilon: Seq<char>,
    gamma: Seq<char>,
    kernel: Seq<char>,
) -> Seq<char> {
    "{\"c\":"@ + c + ",\"coef0\":"@ + coef0 + ",\"degree\":"@ + text::decimal(degree) + ",\"epsilon\":"@ + epsilon
        + ",\"gamma\":"@ + gamma + ",\"kernel\":"@ + json::json_quoted(kernel) + "}"@
}

/// The text is the JSON of the settings, with the numbers as the caller writes
/// them.
pub open spec fn settings_json<W: Fn(u64) -> String>(write: W, s: SvrSettings, out: Seq<char>) -> bool {
    exists|c: Seq<char>, coef0: Seq<char>, epsilon: Seq<char>, gamma: Seq<char>| #[trigger]
        scalar::writes(write, s.c, c) && #[trigger] scalar::writes(write, s.coef0, coef0) && #[trigger] scalar::writes(
            write,
            s.epsilon,
            epsilon,
        ) && #[trigger] scalar::writes(write, s.gamma, gamma) && out == settings_text(
            c,
            coef0,
            s.degree as nat,
            epsilon,
            gamma,
            s.kernel@,
        )
}

fn write_settings<W: Fn(u64) -> String>(s: &SvrSettings, write: &W) -> (r: String)
    requires
        forall|x: u64| call_requires(*write, (x,)),
    ensures
        settings_json(*write, *s, r@),
{
    let c: String = write(s.c);
    let coef0: String = write(s.coef0);
    let epsilon: String = write(s.epsilon);
    let gamma: String = write(s.gamma);
    let kernel: String = quote_text(s.kernel.as_str());
    let mut r: String = "{\"c\":".to_owned();
    r.append(c.as_str());
    r.append(",\"coef0\":");
    r.append(coef0.as_str());
    r.append(",\"degree\":");
    push_decimal(&mut r, s.degree as u64);
    r.append(",\"epsilon\":");
    r.append(epsilon.as_str());
    r.append(",\"gamma\":");
    r.append(gamma.as_str());
    r.append(",\"kernel\":");
    r.append(kernel.as_str());
    r.append("}");
    proof {
        assert(call_ensures(*write, (s.c,), c));
        assert(call_ensures(*write, (s.coef0,), coef0));
        assert(call_ensures(*write, (s.epsilon,), epsilon));
        assert(call_ensures(*write, (s.gamma,), gamma));
        assert(scalar::writes(*write, s.c, c@));
        assert(scalar::writes(*write, s.coef0, coef0@));
        assert(scalar::writes(*write, s.epsilon, epsilon@));
        assert(scalar::writes(*write, s.gamma, gamma@));
        assert(r@ == settings_text(c@, coef0@, s.degree as nat, epsilon@, gamma@, s.kernel@));
    }
    r
}

impl<D> SvrModel<D> {
    /// The model of the trainer's data. `write` writes a number as JSON.
    pub fn new<W: Fn(u64) -> String>(
        data: D,
        n_features: usize,
        n_support: usize,
        r_squared: Option<u64>,
        mse: Option<u64>,
        settings: &SvrSettings,
        num_samples: usize,
        write: &W,
    ) -> (r: Self)
        requires
            forall|x: u64| call_requires(*write, (x,)),
        ensures
            r.data == data,
            checked::describes(
                r.metadata,
                Algorithm::SVR,
                n_features as nat,
                num_samples as nat,
                r_squared,
                mse,
                n_support as nat,
            ),
            settings_json(*write, *settings, r.metadata.hyperparameters_json@),
    {
        let metadata = ModelMetadata {
            algorithm: Algorithm::SVR,
            num_features: n_features,
            num_samples,
            r_squared,
            mse,
            coefficients_count: n_support,
            hyperparameters_json: write_settings(settings, write),
        };
        SvrModel { metadata, data }
    }

    /// Predicts. `ask` asks the data.
    pub fn predict<P: Fn(&Vec<u64>) -> u64>(&self, features: &Vec<u64>, ask: &P) -> (r: Result<u64, ModelError>)
        requires
            forall|f: &Vec<u64>| f@.len() == self.metadata.num_features ==> call_requires(*ask, (f,)),
        ensures
            checked::checked_outcome(self.metadata.num_features, *ask, features@, r),
    {
        predict_checked(self.metadata.num_features, features, ask)
    }
}

} // verus!
