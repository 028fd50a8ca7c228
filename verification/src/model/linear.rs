//! Linear models: plain, ridge, logistic, lasso and polynomial regression.
//!
//! The numbers are the bits of doubles. The coefficients have the intercept as
//! their last element.

use vstd::prelude::*;
use crate::bits;
use crate::bits::{is_less, is_less_eq};
use crate::model::checked;
use crate::model::types::{Algorithm, ModelError, ModelMetadata};
use crate::scalar;
use crate::text;
use crate::text::push_decimal;

verus! {

/// A JSON object with one number.
pub open spec fn one_number<W: Fn(u64) -> String>(write: W, key: Seq<char>, value: u64, out: Seq<char>) -> bool {
    exists|shown: Seq<char>| #[trigger] scalar::writes(write, value, shown) && out == "{\""@ + key + "\":"@ + shown + "}"@
}

fn write_one_number<W: Fn(u64) -> String>(key: &str, value: u64, write: &W) -> (r: String)
    requires
        forall|x: u64| call_requires(*write, (x,)),
    ensures
        one_number(*write, key@, value, r@),
{
    let shown: String = write(value);
    let mut r: String = "{\"".to_owned();
    r.append(key);
    r.append("\":");
    r.append(shown.as_str());
    r.append("}");
    proof {
        assert(call_ensures(*write, (value,), shown));
        assert(scalar::writes(*write, value, shown@));
    }
    r
}

/// A line that the caller evaluates: `p` is its value at some features.
pub open spec fn evaluates<E: Fn(&Vec<u64>, &Vec<u64>) -> u64>(
    line: E,
    coefficients: Seq<u64>,
    features: Seq<u64>,
    p: u64,
) -> bool {
    exists|a: &Vec<u64>, f: &Vec<u64>| a@ == coefficients && f@ == features && #[trigger] call_ensures(line, (a, f), p)
}

/// What a line gives at some features: an error where there is not one feature
/// for each coefficient but the intercept, else what the caller evaluates.
pub open spec fn line_outcome<E: Fn(&Vec<u64>, &Vec<u64>) -> u64>(
    line: E,
    coefficients: Seq<u64>,
    features: Seq<u64>,
    r: Result<u64, ModelError>,
) -> bool {
    if features.len() + 1 != coefficients.len() {
        r matches Err(ModelError::FeatureCountMismatch { expected, got }) && expected == coefficients.len() - 1 && got
            == features.len()
    } else {
        r matches Ok(p) && evaluates(line, coefficients, features, p)
    }
}

fn evaluate<E: Fn(&Vec<u64>, &Vec<u64>) -> u64>(coefficients: &Vec<u64>, features: &Vec<u64>, line: &E) -> (r: Result<
    u64,
    ModelError,
>)
    requires
        coefficients@.len() > 0,
        forall|a: &Vec<u64>, f: &Vec<u64>| f@.len() + 1 == a@.len() ==> call_requires(*line, (a, f)),
    ensures
        line_outcome(*line, coefficients@, features@, r),
{
    let n: usize = coefficients.len();
    if features.len() != n - 1 {
        return Err(ModelError::FeatureCountMismatch { expected: n - 1, got: features.len() });
    }
    let p: u64 = line(coefficients, features);
    assert(call_ensures(*line, (coefficients, features), p));
    Ok(p)
}

/// Linear regression, plain or ridge.
#[derive(Debug, PartialEq, Eq)]
pub struct LinearModel {
    pub metadata: ModelMetadata,
    pub coefficients: Vec<u64>,
    pub lambda: u64,
}

impl LinearModel {
    /// A model with the given coefficients; with a penalty above zero it is a ridge
    /// regression. `write` writes a number as JSON.
    pub fn new<W: Fn(u64) -> String>(
        coefficients: Vec<u64>,
        num_samples: usize,
        r_squared: Option<u64>,
        mse: Option<u64>,
        lambda: u64,
        write: &W,
    ) -> (r: Self)
        requires
            coefficients@.len() > 0,
            forall|x: u64| call_requires(*write, (x,)),
        ensures
            r.coefficients == coefficients,
            r.lambda == lambda,
            checked::describes(
                r.metadata,
                if bits::less(bits::ZERO, lambda) {
                    Algorithm::RidgeRegression
                } else {
                    Algorithm::LinearRegression
                },
                (coefficients@.len() - 1) as nat,
                num_samples as nat,
                r_squared,
                mse,
                coefficients@.len(),
            ),
            one_number(*write, "lambda"@, lambda, r.metadata.hyperparameters_json@),
    {
        let algorithm: Algorithm = if is_less(bits::ZERO, lambda) {
            Algorithm::RidgeRegression
        } else {
            Algorithm::LinearRegression
        };
        let n: usize = coefficients.len();
        let metadata = ModelMetadata {
            algorithm,
            num_features: n - 1,
            num_samples,
            r_squared,
            mse,
            coefficients_count: n,
            hyperparameters_json: write_one_number("lambda", lambda, write),
        };
        LinearModel { metadata, coefficients, lambda }
    }

    pub fn coefficients(&self) -> (r: &Vec<u64>)
        ensures
            *r == self.coefficients,
    {
        &self.coefficients
    }

    /// Predicts. `line` evaluates the coefficients at some features.
    pub fn predict<E: Fn(&Vec<u64>, &Vec<u64>) -> u64>(&self, features: &Vec<u64>, line: &E) -> (r: Result<
        u64,
        ModelError,
    >)
        requires
            self.coefficients@.len() > 0,
            forall|a: &Vec<u64>, f: &Vec<u64>| f@.len() + 1 == a@.len() ==> call_requires(*line, (a, f)),
        ensures
            line_outcome(*line, self.coefficients@, features@, r),
    {
        evaluate(&self.coefficients, features, line)
    }
}

/// Logistic regression for two classes.
#[derive(Debug, PartialEq, Eq)]
pub struct LogisticModel {
    pub metadata: ModelMetadata,
    pub coefficients: Vec<u64>,
}

/// A JSON object with one number or `null`.
pub open spec fn one_option<W: Fn(u64) -> String>(
    write: W,
    key: Seq<char>,
    value: Option<u64>,
    out: Seq<char>,
) -> bool {
    match value {
        Some(x) => one_number(write, key, x, out),
        None => out == "{\""@ + key + "\":null}"@,
    }
}

impl LogisticModel {
    /// A model with the given coefficients. `write` writes a number as JSON.
    pub fn new<W: Fn(u64) -> String>(
        coefficients: Vec<u64>,
        num_samples: usize,
        accuracy: Option<u64>,
        write: &W,
    ) -> (r: Self)
        requires
            coefficients@.len() > 0,
            forall|x: u64| call_requires(*write, (x,)),
        ensures
            r.coefficients == coefficients,
            checked::describes(
                r.metadata,
                Algorithm::LogisticRegression,
                (coefficients@.len() - 1) as nat,
                num_samples as nat,
                None,
                None,
                coefficients@.len(),
            ),
            one_option(*write, "accuracy"@, accuracy, r.metadata.hyperparameters_json@),
    {
        let hyperparameters_json: String = match accuracy {
            Some(x) => write_one_number("accuracy", x, write),
            None => {
                let mut s: String = "{\"".to_owned();
                s.append("accuracy");
                s.append("\":null}");
                s
            },
        };
        let n: usize = coefficients.len();
        let metadata = ModelMetadata {
            algorithm: Algorithm::LogisticRegression,
            num_features: n - 1,
            num_samples,
            r_squared: None,
            mse: None,
            coefficients_count: n,
            hyperparameters_json,
        };
        LogisticModel { metadata, coefficients }
    }

    pub fn coefficients(&self) -> (r: &Vec<u64>)
        ensures
            *r == self.coefficients,
    {
        &self.coefficients
    }

    /// The probability of the first class. `line` evaluates the coefficients at
    /// some features and puts the value through the logistic function.
    pub fn predict_proba<E: Fn(&Vec<u64>, &Vec<u64>) -> u64>(&self, features: &Vec<u64>, line: &E) -> (r: Result<
        u64,
        ModelError,
    >)
        requires
            self.coefficients@.len() > 0,
            forall|a: &Vec<u64>, f: &Vec<u64>| f@.len() + 1 == a@.len() ==> call_requires(*line, (a, f)),
        ensures
            line_outcome(*line, self.coefficients@, features@, r),
    {
        evaluate(&self.coefficients, features, line)
    }

    /// Predicts the class: one where its probability is at least a half.
    pub fn predict<E: Fn(&Vec<u64>, &Vec<u64>) -> u64>(&self, features: &Vec<u64>, line: &E) -> (r: Result<
        u64,
        ModelError,
    >)
        requires
            self.coefficients@.len() > 0,
            forall|a: &Vec<u64>, f: &Vec<u64>| f@.len() + 1 == a@.len() ==> call_requires(*line, (a, f)),
        ensures
            exists|proba: Result<u64, ModelError>| #[trigger]
                line_outcome(*line, self.coefficients@, features@, proba) && r == (match proba {
                    Ok(p) => Ok::<u64, ModelError>(
                        if bits::less_eq(bits::HALF, p) {
                            bits::ONE
                        } else {
                            bits::ZERO
                        },
                    ),
                    Err(e) => Err(e),
                }),
    {
        let proba: Result<u64, ModelError> = self.predict_proba(features, line);
        let ghost shown = proba;
        assert(line_outcome(*line, self.coefficients@, features@, shown));
        match proba {
            Ok(p) => if is_less_eq(bits::HALF, p) {
                Ok(bits::ONE)
            } else {
                Ok(bits::ZERO)
            },
            Err(e) => Err(e),
        }
    }
}

/// The parts of a lasso regression that are kept.
#[derive(Debug, PartialEq, Eq)]
pub struct LassoCore {
    /// The coefficients without the intercept.
    pub coefficients: Vec<u64>,
    pub intercept: u64,
    pub lambda: u64,
}

/// Lasso regression.
#[derive(Debug, PartialEq, Eq)]
pub struct LassoModel {
    pub metadata: ModelMetadata,
    pub inner: LassoCore,
}

impl LassoModel {
    /// A model with the given coefficients; without any, the intercept is zero.
    /// `show` writes a number as text.
    pub fn new<W: Fn(u64) -> String>(
        coefficients: Vec<u64>,
        num_samples: usize,
        r_squared: Option<u64>,
        mse: Option<u64>,
        lambda: u64,
        show: &W,
    ) -> (r: Self)
        requires
            forall|x: u64| call_requires(*show, (x,)),
        ensures
            r.inner.lambda == lambda,
            r.inner.intercept == if coefficients@.len() == 0 {
                bits::ZERO
            } else {
                coefficients@.last()
            },
            r.inner.coefficients@ == if coefficients@.len() == 0 {
                Seq::empty()
            } else {
                coefficients@.drop_last()
            },
            checked::describes(
                r.metadata,
                Algorithm::LassoRegression,
                r.inner.coefficients@.len(),
                num_samples as nat,
                r_squared,
                mse,
                coefficients@.len(),
            ),
            one_number(*show, "lambda"@, lambda, r.metadata.hyperparameters_json@),
    {
        let n: usize = coefficients.len();
        let mut plain: Vec<u64> = coefficients;
        let intercept: u64 = match plain.pop() {
            Some(x) => x,
            None => bits::ZERO,
        };
        proof {
            if n > 0 {
                assert(plain@ =~= coefficients@.drop_last());
            } else {
                assert(plain@ =~= Seq::empty());
            }
        }
        let metadata = ModelMetadata {
            algorithm: Algorithm::LassoRegression,
            num_features: plain.len(),
            num_samples,
            r_squared,
            mse,
            coefficients_count: n,
            hyperparameters_json: write_one_number("lambda", lambda, show),
        };
        LassoModel { metadata, inner: LassoCore { coefficients: plain, intercept, lambda } }
    }

    /// The model of parts that were kept; the quality measures are not.
    pub fn from_core<W: Fn(u64) -> String>(core: LassoCore, show: &W) -> (r: Self)
        requires
            core.coefficients@.len() < usize::MAX,
            forall|x: u64| call_requires(*show, (x,)),
        ensures
            r.inner == core,
            checked::describes(
                r.metadata,
                Algorithm::LassoRegression,
                core.coefficients@.len(),
                0,
                None,
                None,
                core.coefficients@.len() + 1,
            ),
            one_number(*show, "lambda"@, core.lambda, r.metadata.hyperparameters_json@),
    {
        let n: usize = core.coefficients.len();
        let metadata = ModelMetadata {
            algorithm: Algorithm::LassoRegression,
            num_features: n,
            num_samples: 0,
            r_squared: None,
            mse: None,
            coefficients_count: n + 1,
            hyperparameters_json: write_one_number("lambda", core.lambda, show),
        };
        LassoModel { metadata, inner: core }
    }

    /// Predicts. `line` evaluates the coefficients and the intercept at some
    /// features.
    pub fn predict<E: Fn(&LassoCore, &Vec<u64>) -> u64>(&self, features: &Vec<u64>, line: &E) -> (r: Result<
        u64,
        ModelError,
    >)
        requires
            features@.len() == self.metadata.num_features ==> features@.len() <= self.inner.coefficients@.len(),
            forall|a: &LassoCore, f: &Vec<u64>| f@.len() <= a.coefficients@.len() ==> call_requires(*line, (a, f)),
        ensures
            if features@.len() != self.metadata.num_features {
                r matches Err(ModelError::FeatureCountMismatch { expected, got }) && expected
                    == self.metadata.num_features && got == features@.len()
            } else {
                r matches Ok(p) && lasso_evaluates(*line, self.inner, features@, p)
            },
    {
        if features.len() != self.metadata.num_features {
            return Err(
                ModelError::FeatureCountMismatch { expected: self.metadata.num_features, got: features.len() },
            );
        }
        let a = &self.inner;
        let p: u64 = line(a, features);
        proof {
            assert(call_ensures(*line, (a, features), p));
            assert(lasso_evaluates(*line, self.inner, features@, p));
        }
        Ok(p)
    }
}

/// The caller's value of a lasso regression at some features.
pub open spec fn lasso_evaluates<E: Fn(&LassoCore, &Vec<u64>) -> u64>(
    line: E,
    core: LassoCore,
    features: Seq<u64>,
    p: u64,
) -> bool {
    exists|a: &LassoCore, f: &Vec<u64>| *a == core && f@ == features && #[trigger] call_ensures(line, (a, f), p)
}

/// Polynomial regression: a linear model over the powers of the features.
#[derive(Debug, PartialEq, Eq)]
pub struct PolyModel {
    pub metadata: ModelMetadata,
    pub inner: LinearModel,
    pub degree: usize,
    pub n_features: usize,
}

/// The powers of one feature, from the first on, as the caller multiplies.
pub open spec fn are_powers<T: Fn(u64, u64) -> u64>(times: T, v: u64, powers: Seq<u64>) -> bool {
    forall|d: int| 0 <= d < powers.len() ==> #[trigger] is_power(times, v, powers, d)
}

/// The first power is the feature, and each other one is the one before it times
/// the feature.
pub open spec fn is_power<T: Fn(u64, u64) -> u64>(times: T, v: u64, powers: Seq<u64>, d: int) -> bool {
    if d == 0 {
        powers[0] == v
    } else {
        call_ensures(times, (powers[d - 1], v), powers[d])
    }
}

/// The powers of all features, feature by feature.
pub open spec fn expands<T: Fn(u64, u64) -> u64>(times: T, features: Seq<u64>, degree: nat, out: Seq<u64>) -> bool {
    &&& out.len() == features.len() * degree
    &&& forall|i: int|
        #![trigger features[i]]
        0 <= i < features.len() ==> are_powers(times, features[i], out.subrange(i * degree, i * degree + degree))
}

/// The JSON of the hyperparameters.
pub open spec fn poly_hyperparameters<W: Fn(u64) -> String>(
    write: W,
    degree: nat,
    lambda: u64,
    out: Seq<char>,
) -> bool {
    exists|shown: Seq<char>| #[trigger]
        scalar::writes(write, lambda, shown) && out == "{\"degree\":"@ + text::decimal(degree)
            + ",\"feature_order\":\"per-feature powers x^1..x^degree\",\"lambda\":"@ + shown + "}"@
}

/// The powers of one feature.
fn powers_of<T: Fn(u64, u64) -> u64>(v: u64, degree: usize, times: &T) -> (r: Vec<u64>)
    requires
        forall|a: u64, b: u64| call_requires(*times, (a, b)),
    ensures
        r@.len() == degree,
        are_powers(*times, v, r@),
{
    let mut r: Vec<u64> = Vec::new();
    let mut p: u64 = v;
    let mut d: usize = 0;
    while d < degree
        invariant
            forall|a: u64, b: u64| call_requires(*times, (a, b)),
            d <= degree,
            r@.len() == d,
            are_powers(*times, v, r@),
            d == 0 ==> p == v,
            d > 0 ==> call_ensures(*times, (r@[d - 1], v), p),
        decreases degree - d,
    {
        let ghost before = r@;
        r.push(p);
        proof {
            assert forall|x: int| 0 <= x < r@.len() implies #[trigger] is_power(*times, v, r@, x) by {
                if x < d {
                    assert(is_power(*times, v, before, x));
                }
            }
        }
        p = times(p, v);
        d = d + 1;
    }
    r
}

impl PolyModel {
    /// A model with the given coefficients: `degree` of them for each feature, and
    /// the intercept. `write` writes a number as JSON.
    pub fn new<W: Fn(u64) -> String>(
        coefficients: Vec<u64>,
        degree: usize,
        num_samples: usize,
        r_squared: Option<u64>,
        mse: Option<u64>,
        lambda: u64,
        write: &W,
    ) -> (r: Self)
        requires
            coefficients@.len() > 0,
            degree > 0,
            forall|x: u64| call_requires(*write, (x,)),
        ensures
            r.inner.coefficients == coefficients,
            r.inner.lambda == lambda,
            r.degree == degree,
            r.n_features == (coefficients@.len() - 1) / (degree as int),
            checked::describes(
                r.metadata,
                Algorithm::PolynomialRegression,
                r.n_features as nat,
                num_samples as nat,
                r_squared,
                mse,
                coefficients@.len(),
            ),
            poly_hyperparameters(*write, degree as nat, lambda, r.metadata.hyperparameters_json@),
    {
        let n: usize = coefficients.len();
        let n_features: usize = (n - 1) / degree;
        let inner: LinearModel = LinearModel::new(coefficients, num_samples, r_squared, mse, lambda, write);
        let shown: String = write(lambda);
        let mut hyperparameters_json: String = "{\"degree\":".to_owned();
        push_decimal(&mut hyperparameters_json, degree as u64);
        hyperparameters_json.append(",\"feature_order\":\"per-feature powers x^1..x^degree\",\"lambda\":");
        hyperparameters_json.append(shown.as_str());
        hyperparameters_json.append("}");
        proof {
            assert(call_ensures(*write, (lambda,), shown));
            assert(scalar::writes(*write, lambda, shown@));
        }
        let metadata = ModelMetadata {
            algorithm: Algorithm::PolynomialRegression,
            num_features: n_features,
            num_samples,
            r_squared,
            mse,
            coefficients_count: n,
            hyperparameters_json,
        };
        PolyModel { metadata, inner, degree, n_features }
    }

    /// The powers of the features, feature by feature. `times` multiplies.
    pub fn expand<T: Fn(u64, u64) -> u64>(&self, features: &Vec<u64>, times: &T) -> (out: Vec<u64>)
        requires
            forall|a: u64, b: u64| call_requires(*times, (a, b)),
        ensures
            expands(*times, features@, self.degree as nat, out@),
    {
        let degree: usize = self.degree;
        let mut out: Vec<u64> = Vec::new();
        let mut i: usize = 0;
        assert(0 * degree == 0) by (nonlinear_arith);
        while i < features.len()
            invariant
                forall|a: u64, b: u64| call_requires(*times, (a, b)),
                degree == self.degree,
                i <= features@.len(),
                out@.len() == i * degree,
                forall|x: int|
                    #![trigger features@[x]]
                    0 <= x < i ==> are_powers(
                        *times,
                        features@[x],
                        out@.subrange(x * degree, x * degree + degree),
                    ),
            decreases features.len() - i,
        {
            let ghost before = out@;
            let mut powers: Vec<u64> = powers_of(features[i], degree, times);
            let ghost mine = powers@;
            out.append(&mut powers);
            proof {
                assert((i + 1) * degree == i * degree + degree) by (nonlinear_arith);
                assert(out@ =~= before + mine);
                assert forall|x: int| #![trigger features@[x]] 0 <= x < i + 1 implies are_powers(
                    *times,
                    features@[x],
                    out@.subrange(x * degree, x * degree + degree),
                ) by {
                    if x < i {
                        assert(x * degree + degree <= i * degree && 0 <= x * degree) by (nonlinear_arith)
                            requires
                                0 <= x < i,
                                0 <= degree,
                        ;
                        assert(out@.subrange(x * degree, x * degree + degree) =~= before.subrange(
                            x * degree,
                            x * degree + degree,
                        ));
                    } else {
                        assert(out@.subrange(x * degree, x * degree + degree) =~= mine);
                    }
                }
            }
            i = i + 1;
        }
        out
    }

    pub fn coefficients(&self) -> (r: &Vec<u64>)
        ensures
            *r == self.inner.coefficients,
    {
        self.inner.coefficients()
    }

    pub fn degree(&self) -> (d: usize)
        ensures
            d == self.degree,
    {
        self.degree
    }

    /// Predicts: the linear model at the powers of the features.
    pub fn predict<T: Fn(u64, u64) -> u64, E: Fn(&Vec<u64>, &Vec<u64>) -> u64>(
        &self,
        features: &Vec<u64>,
        times: &T,
        line: &E,
    ) -> (r: Result<u64, ModelError>)
        requires
            self.inner.coefficients@.len() > 0,
            forall|a: u64, b: u64| call_requires(*times, (a, b)),
            forall|a: &Vec<u64>, f: &Vec<u64>| f@.len() + 1 == a@.len() ==> call_requires(*line, (a, f)),
        ensures
            if features@.len() != self.n_features {
                r matches Err(ModelError::FeatureCountMismatch { expected, got }) && expected == self.n_features && got
                    == features@.len()
            } else {
                exists|out: Seq<u64>| #[trigger]
                    expands(*times, features@, self.degree as nat, out) && line_outcome(
                        *line,
                        self.inner.coefficients@,
                        out,
                        r,
                    )
            },
    {
        if features.len() != self.n_features {
            return Err(ModelError::FeatureCountMismatch { expected: self.n_features, got: features.len() });
        }
        let out: Vec<u64> = self.expand(features, times);
        assert(expands(*times, features@, self.degree as nat, out@));
        self.inner.predict(&out, line)
    }
}

/// The powers of the features fit the coefficients wherever these are complete:
/// `degree` for each feature, and the intercept.
pub proof fn law_powers_fit_coefficients<T: Fn(u64, u64) -> u64>(
    times: T,
    m: PolyModel,
    features: Seq<u64>,
    out: Seq<u64>,
)
    requires
        m.inner.coefficients@.len() == m.n_features * m.degree + 1,
        features.len() == m.n_features,
        expands(times, features, m.degree as nat, out),
    ensures
        out.len() + 1 == m.inner.coefficients@.len(),
{
}

} // verus!
