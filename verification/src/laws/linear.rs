//! What linear models predict.

use vstd::arithmetic::power::*;
use vstd::prelude::*;
use crate::bits;
use crate::laws::reals;
use crate::model::linear;
use crate::model::linear::{LassoCore, LassoModel, LinearModel, LogisticModel, PolyModel};
use crate::model::types::ModelError;

verus! {

/// `times` multiplies what the patterns stand for, wherever the numbers are among
/// those that it is exact on.
pub open spec fn multiplies<T: Fn(u64, u64) -> u64>(
    times: T,
    meaning: spec_fn(u64) -> int,
    exact: spec_fn(int) -> bool,
) -> bool {
    forall|a: u64, b: u64, c: u64| #[trigger]
        call_ensures(times, (a, b), c) && exact(meaning(a)) && exact(meaning(b)) && exact(meaning(a) * meaning(b))
            ==> meaning(c) == meaning(a) * meaning(b)
}

/// Place `i * degree + d` holds the power `d + 1` of feature `i`.
pub open spec fn holds_powers(meaning: spec_fn(u64) -> int, features: Seq<u64>, degree: nat, out: Seq<u64>) -> bool {
    &&& out.len() == features.len() * degree
    &&& forall|i: int, d: int|
        0 <= i < features.len() && 0 <= d < degree ==> meaning(#[trigger] out[i * degree + d]) == pow(
            meaning(features[i]),
            (d + 1) as nat,
        )
}

/// All powers up to the degree are among the numbers that are multiplied exactly.
pub open spec fn powers_are_exact(
    meaning: spec_fn(u64) -> int,
    exact: spec_fn(int) -> bool,
    features: Seq<u64>,
    degree: nat,
) -> bool {
    forall|i: int, e: nat|
        0 <= i < features.len() && 1 <= e <= degree ==> exact(#[trigger] pow(meaning(features[i]), e))
}

proof fn lemma_power<T: Fn(u64, u64) -> u64>(
    times: T,
    meaning: spec_fn(u64) -> int,
    exact: spec_fn(int) -> bool,
    v: u64,
    powers: Seq<u64>,
    d: int,
)
    requires
        multiplies(times, meaning, exact),
        forall|e: nat| 1 <= e <= powers.len() ==> exact(#[trigger] pow(meaning(v), e)),
        linear::are_powers(times, v, powers),
        0 <= d < powers.len(),
    ensures
        meaning(powers[d]) == pow(meaning(v), (d + 1) as nat),
    decreases d,
{
    let x = meaning(v);
    lemma_pow1(x);
    assert(linear::is_power(times, v, powers, d));
    if d > 0 {
        lemma_power(times, meaning, exact, v, powers, d - 1);
        assert(exact(pow(x, 1)) && exact(pow(x, d as nat)) && exact(pow(x, (d + 1) as nat)));
        assert(pow(x, (d + 1) as nat) == x * pow(x, d as nat)) by {
            reveal(pow);
        }
        assert(x * pow(x, d as nat) == pow(x, d as nat) * x) by (nonlinear_arith);
        assert(call_ensures(times, (powers[d - 1], v), powers[d]));
    }
}

proof fn lemma_expansion<T: Fn(u64, u64) -> u64>(
    times: T,
    meaning: spec_fn(u64) -> int,
    exact: spec_fn(int) -> bool,
    features: Seq<u64>,
    degree: nat,
    out: Seq<u64>,
)
    requires
        multiplies(times, meaning, exact),
        powers_are_exact(meaning, exact, features, degree),
        linear::expands(times, features, degree, out),
    ensures
        holds_powers(meaning, features, degree, out),
{
    assert forall|i: int, d: int| 0 <= i < features.len() && 0 <= d < degree implies meaning(
        #[trigger] out[i * degree + d],
    ) == pow(meaning(features[i]), (d + 1) as nat) by {
        let mine = out.subrange(i * degree, i * degree + degree);
        assert(0 <= i * degree && i * degree + degree <= features.len() * degree) by (nonlinear_arith)
            requires
                0 <= i < features.len(),
                0 <= degree,
        ;
        assert(linear::are_powers(times, features[i], mine));
        assert(mine.len() == degree);
        lemma_power(times, meaning, exact, features[i], mine, d);
        assert(mine[d] == out[i * degree + d]);
    }
}

/// The expansion of the features holds their powers from the first up to the degree,
/// feature by feature.
pub proof fn law_expansion_holds_powers<T: Fn(u64, u64) -> u64>(
    m: PolyModel,
    features: Vec<u64>,
    times: T,
    meaning: spec_fn(u64) -> int,
    exact: spec_fn(int) -> bool,
    out: Vec<u64>,
)
    requires
        call_ensures(PolyModel::expand::<T>, (&m, &features, &times), out),
        multiplies(times, meaning, exact),
        powers_are_exact(meaning, exact, features@, m.degree as nat),
    ensures
        holds_powers(meaning, features@, m.degree as nat, out@),
{
    lemma_expansion(times, meaning, exact, features@, m.degree as nat, out@);
}

/// The prediction `p` is the value of a line with these coefficients at these
/// features.
pub open spec fn line_at<E: Fn(&Vec<u64>, &Vec<u64>) -> u64>(line: E, a: &Vec<u64>, f: &Vec<u64>, p: u64) -> bool {
    call_ensures(line, (a, f), p)
}

/// A polynomial model predicts the value of its line at the powers of the features,
/// where the coefficients are one for each power and the intercept.
pub proof fn law_polynomial_is_a_line_over_powers<T: Fn(u64, u64) -> u64, E: Fn(&Vec<u64>, &Vec<u64>) -> u64>(
    m: PolyModel,
    features: Vec<u64>,
    times: T,
    line: E,
    meaning: spec_fn(u64) -> int,
    exact: spec_fn(int) -> bool,
    r: Result<u64, ModelError>,
)
    requires
        call_ensures(PolyModel::predict::<T, E>, (&m, &features, &times, &line), r),
        multiplies(times, meaning, exact),
        powers_are_exact(meaning, exact, features@, m.degree as nat),
        m.inner.coefficients@.len() == m.n_features * m.degree + 1,
    ensures
        r is Ok <==> features@.len() == m.n_features,
        r matches Ok(p) ==> exists|a: &Vec<u64>, f: &Vec<u64>| #[trigger]
            line_at(line, a, f, p) && a@ == m.inner.coefficients@ && holds_powers(
                meaning,
                features@,
                m.degree as nat,
                f@,
            ),
{
    if features@.len() == m.n_features {
        let out = choose|out: Seq<u64>| #[trigger]
            linear::expands(times, features@, m.degree as nat, out) && linear::line_outcome(
                line,
                m.inner.coefficients@,
                out,
                r,
            );
        lemma_expansion(times, meaning, exact, features@, m.degree as nat, out);
        let p = r->Ok_0;
        let (a, f) = choose|a: &Vec<u64>, f: &Vec<u64>|
            a@ == m.inner.coefficients@ && f@ == out && #[trigger] call_ensures(line, (a, f), p);
        assert(line_at(line, a, f, p));
    }
}

/// A linear model predicts the value of its line at the features as they stand, and
/// refuses any other number of them than the coefficients without the intercept.
pub proof fn law_linear_model_is_a_line<E: Fn(&Vec<u64>, &Vec<u64>) -> u64>(
    m: LinearModel,
    features: Vec<u64>,
    line: E,
    r: Result<u64, ModelError>,
)
    requires
        call_ensures(LinearModel::predict::<E>, (&m, &features, &line), r),
    ensures
        r is Ok <==> features@.len() + 1 == m.coefficients@.len(),
        r matches Ok(p) ==> exists|a: &Vec<u64>, f: &Vec<u64>| #[trigger]
            line_at(line, a, f, p) && a@ == m.coefficients@ && f@ == features@,
{
    if let Ok(p) = r {
        let (a, f) = choose|a: &Vec<u64>, f: &Vec<u64>|
            a@ == m.coefficients@ && f@ == features@ && #[trigger] call_ensures(line, (a, f), p);
        assert(line_at(line, a, f, p));
    }
}

/// A logistic model predicts the class 1 where the probability that its line gives is
/// at least one half, else the class 0.
pub proof fn law_logistic_class_follows_probability<E: Fn(&Vec<u64>, &Vec<u64>) -> u64>(
    m: LogisticModel,
    features: Vec<u64>,
    line: E,
    r: Result<u64, ModelError>,
)
    requires
        call_ensures(LogisticModel::predict::<E>, (&m, &features, &line), r),
    ensures
        r is Ok <==> features@.len() + 1 == m.coefficients@.len(),
        r matches Ok(p) ==> exists|a: &Vec<u64>, f: &Vec<u64>, q: u64| #[trigger]
            line_at(line, a, f, q) && a@ == m.coefficients@ && f@ == features@ && if reals::is_number(q) && 2
                * reals::value(q) >= reals::value(bits::ONE) {
                p == bits::ONE
            } else {
                p == bits::ZERO
            },
{
    let proba = choose|proba: Result<u64, ModelError>| #[trigger]
        linear::line_outcome(line, m.coefficients@, features@, proba) && r == (match proba {
            Ok(p) => Ok::<u64, ModelError>(
                if bits::less_eq(bits::HALF, p) {
                    bits::ONE
                } else {
                    bits::ZERO
                },
            ),
            Err(e) => Err(e),
        });
    if let Ok(q) = proba {
        reals::law_constants_have_their_values();
        reals::law_order_is_of_values(bits::HALF, q);
        let (a, f) = choose|a: &Vec<u64>, f: &Vec<u64>|
            a@ == m.coefficients@ && f@ == features@ && #[trigger] call_ensures(line, (a, f), q);
        assert(line_at(line, a, f, q));
    }
}

/// A lasso model predicts the value of its line at the features as they stand.
pub proof fn law_lasso_model_is_a_line<E: Fn(&LassoCore, &Vec<u64>) -> u64>(
    m: LassoModel,
    features: Vec<u64>,
    line: E,
    r: Result<u64, ModelError>,
)
    requires
        call_ensures(LassoModel::predict::<E>, (&m, &features, &line), r),
    ensures
        r is Ok <==> features@.len() == m.metadata.num_features,
        r matches Ok(p) ==> exists|a: &LassoCore, f: &Vec<u64>| #[trigger]
            call_ensures(line, (a, f), p) && *a == m.inner && f@ == features@,
{
}

/// A lasso model keeps the coefficients in their order: the last one is the
/// intercept, the others belong to the features.
pub proof fn law_lasso_keeps_coefficients<W: Fn(u64) -> String>(
    coefficients: Vec<u64>,
    num_samples: usize,
    r_squared: Option<u64>,
    mse: Option<u64>,
    lambda: u64,
    show: W,
    m: LassoModel,
)
    requires
        call_ensures(LassoModel::new::<W>, (coefficients, num_samples, r_squared, mse, lambda, &show), m),
        coefficients@.len() > 0,
    ensures
        m.inner.coefficients@.push(m.inner.intercept) == coefficients@,
        m.inner.lambda == lambda,
        m.metadata.num_features + 1 == coefficients@.len(),
        m.metadata.r_squared == r_squared,
        m.metadata.mse == mse,
        m.metadata.num_samples == num_samples,
{
    assert(m.inner.coefficients@.push(m.inner.intercept) =~= coefficients@);
}

} // verus!
