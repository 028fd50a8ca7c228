//! What cross validation does.

use vstd::prelude::*;
use crate::bits;
use crate::cross_validate;
use crate::cross_validate::{
    cross_validate_from_json, judge_model, run_folds, CrossValidateFn, CrossValidation, CvRow, Fitted, Fold, FoldScore,
    Judge,
};
use crate::json;
use crate::json::{parse_numbers, parse_params, parse_table};
use crate::laws::counting;
use crate::laws::reals;
use crate::metrics;
use crate::metrics::RegressionSums;
use crate::model::types::Algorithm;
use crate::predict;
use crate::scalar;
use crate::text;

verus! {

/// The positions are, in order, those below `n` that are in the fold, or those that
/// are not.
pub open spec fn are_places(at: Seq<int>, n: nat, k: int, f: int, inside: bool) -> bool {
    &&& forall|j: int| 0 <= j < at.len() ==> 0 <= #[trigger] at[j] < n && (at[j] % k == f) == inside
    &&& forall|i: int, j: int| #![trigger at[i], at[j]] 0 <= i < j < at.len() ==> at[i] < at[j]
    &&& forall|p: int| 0 <= p < n && (p % k == f) == inside ==> #[trigger] at.contains(p)
}

proof fn lemma_places_pushed(at: Seq<int>, n: nat, k: int, f: int, inside: bool)
    requires
        are_places(at, n, k, f, inside),
    ensures
        (n as int % k == f) == inside ==> are_places(at.push(n as int), n + 1, k, f, inside),
        (n as int % k == f) != inside ==> are_places(at, n + 1, k, f, inside),
{
    if (n as int % k == f) == inside {
        let more = at.push(n as int);
        assert forall|p: int| 0 <= p < n + 1 && (p % k == f) == inside implies #[trigger] more.contains(p) by {
            if p < n {
                assert(at.contains(p));
                let j = choose|j: int| 0 <= j < at.len() && at[j] == p;
                assert(more[j] == p);
            } else {
                assert(more[at.len() as int] == p);
            }
        }
    }
}

/// The part of a list at some positions.
pub open spec fn part<T>(v: Seq<T>, at: Seq<int>) -> Seq<T> {
    Seq::new(at.len(), |j: int| v[at[j]])
}

proof fn lemma_kept<T, U>(v: Seq<T>, w: Seq<U>, k: int, f: int, n: nat) -> (at: Seq<int>)
    ensures
        are_places(at, n, k, f, false),
        cross_validate::kept(v, k, f, n) == part(v, at),
        cross_validate::kept(w, k, f, n) == part(w, at),
    decreases n,
{
    if n == 0 {
        let at = Seq::<int>::empty();
        assert(part(v, at) =~= Seq::empty());
        assert(part(w, at) =~= Seq::empty());
        at
    } else {
        let m = (n - 1) as nat;
        let before = lemma_kept(v, w, k, f, m);
        lemma_places_pushed(before, m, k, f, false);
        if m as int % k == f {
            before
        } else {
            let at = before.push(m as int);
            assert(part(v, at) =~= part(v, before).push(v[m as int]));
            assert(part(w, at) =~= part(w, before).push(w[m as int]));
            at
        }
    }
}

proof fn lemma_held<T, U>(v: Seq<T>, w: Seq<U>, k: int, f: int, n: nat) -> (at: Seq<int>)
    ensures
        are_places(at, n, k, f, true),
        cross_validate::held(v, k, f, n) == part(v, at),
        cross_validate::held(w, k, f, n) == part(w, at),
        cross_validate::left_out(k, f, n) == at.len(),
    decreases n,
{
    if n == 0 {
        let at = Seq::<int>::empty();
        assert(part(v, at) =~= Seq::empty());
        assert(part(w, at) =~= Seq::empty());
        at
    } else {
        let m = (n - 1) as nat;
        let before = lemma_held(v, w, k, f, m);
        lemma_places_pushed(before, m, k, f, true);
        if m as int % k != f {
            before
        } else {
            let at = before.push(m as int);
            assert(part(v, at) =~= part(v, before).push(v[m as int]));
            assert(part(w, at) =~= part(w, before).push(w[m as int]));
            at
        }
    }
}

/// The model was trained with the rows and the targets at the positions and with
/// the parameters.
pub open spec fn trained_on<
    M,
    T: Fn(Algorithm, &Vec<Vec<u64>>, &Vec<u64>, &Vec<(String, u64)>) -> Result<Fitted<M>, String>,
>(
    train: T,
    algorithm: Algorithm,
    x: Seq<Vec<u64>>,
    y: Seq<u64>,
    params: Seq<(String, u64)>,
    at: Seq<int>,
    fitted: Fitted<M>,
) -> bool {
    exists|a: &Vec<Vec<u64>>, b: &Vec<u64>, p: &Vec<(String, u64)>| #[trigger]
        call_ensures(train, (algorithm, a, b, p), Ok(fitted)) && are_rows(a@, x, at) && b@ == part(y, at)
            && are_settings(p@, params)
}

/// The rows are those at the positions.
pub open spec fn are_rows(a: Seq<Vec<u64>>, x: Seq<Vec<u64>>, at: Seq<int>) -> bool {
    a.len() == at.len() && forall|j: int| 0 <= j < at.len() ==> (#[trigger] a[j])@ == x[at[j]]@
}

/// The parameters are the same ones, in the same order.
pub open spec fn are_settings(p: Seq<(String, u64)>, params: Seq<(String, u64)>) -> bool {
    p.len() == params.len() && forall|j: int|
        0 <= j < p.len() ==> (#[trigger] p[j]).0@ == params[j].0@ && p[j].1 == params[j].1
}

/// The model answers the features with the number.
pub open spec fn says<M, P: Fn(&M, &Vec<u64>) -> Result<u64, String>>(
    ask: P,
    model: M,
    features: Seq<u64>,
    answer: u64,
) -> bool {
    exists|m: &M, f: &Vec<u64>| *m == model && f@ == features && #[trigger] call_ensures(ask, (m, f), Ok(answer))
}

/// The score compares the targets with the answers of the model, one by one: the
/// error where the model has one, and what is explained where the model has that.
pub open spec fn is_score<
    M,
    P: Fn(&M, &Vec<u64>) -> Result<u64, String>,
    S: Fn(&Vec<u64>, &Vec<u64>) -> RegressionSums,
    X: Fn(u64, u64) -> u64,
>(
    judge: Judge<P, S, X>,
    fitted: Fitted<M>,
    rows: Seq<Seq<u64>>,
    targets: Seq<u64>,
    score: FoldScore,
    predicted: &Vec<u64>,
    actual: &Vec<u64>,
    sums: RegressionSums,
) -> bool {
    &&& predicted@.len() == rows.len()
    &&& forall|j: int| 0 <= j < rows.len() ==> says(judge.predict, fitted.model, rows[j], #[trigger] predicted@[j])
    &&& actual@ == targets
    &&& call_ensures(judge.sum, (actual, predicted), sums)
    &&& fitted.has_mse ==> score.mse == Some(sums.mse)
    &&& fitted.has_r2 && reals::is_number(sums.total) && reals::value(sums.total) > 0 ==> score.r2 is Some
        && call_ensures(judge.explain, (sums.residual, sums.total), score.r2->0)
    &&& fitted.has_r2 && reals::is_number(sums.total) && reals::is_number(sums.residual) && reals::value(sums.total)
        <= 0 ==> score.r2 == Some(
        if reals::value(sums.residual) == 0 {
            bits::ONE
        } else {
            bits::NEG_INFINITY
        },
    )
}

/// A model is scored by its answers.
pub open spec fn is_scored<
    M,
    P: Fn(&M, &Vec<u64>) -> Result<u64, String>,
    S: Fn(&Vec<u64>, &Vec<u64>) -> RegressionSums,
    X: Fn(u64, u64) -> u64,
>(judge: Judge<P, S, X>, fitted: Fitted<M>, rows: Seq<Seq<u64>>, targets: Seq<u64>, score: FoldScore) -> bool {
    &&& !fitted.has_mse ==> score.mse is None
    &&& !fitted.has_r2 ==> score.r2 is None
    &&& fitted.has_mse || fitted.has_r2 ==> exists|predicted: &Vec<u64>, actual: &Vec<u64>, sums: RegressionSums| #[trigger]
        is_score(judge, fitted, rows, targets, score, predicted, actual, sums)
}

proof fn lemma_scored<
    M,
    P: Fn(&M, &Vec<u64>) -> Result<u64, String>,
    S: Fn(&Vec<u64>, &Vec<u64>) -> RegressionSums,
    X: Fn(u64, u64) -> u64,
>(judge: Judge<P, S, X>, fitted: Fitted<M>, rows: Seq<Seq<u64>>, targets: Seq<u64>, score: FoldScore)
    requires
        cross_validate::judged(judge, fitted, rows, targets, Ok(score)),
    ensures
        is_scored(judge, fitted, rows, targets, score),
{
    if fitted.has_mse || fitted.has_r2 {
        let (values, sums) = choose|values: Seq<u64>, sums: RegressionSums| #[trigger]
            scalar::rows_predicted(judge.predict, fitted.model, rows, Ok(values)) && #[trigger] metrics::are_sums(
                judge.sum,
                targets,
                values,
                sums,
            ) && cross_validate::measures(judge.explain, sums, fitted.has_mse, fitted.has_r2, score);
        let (a, p) = choose|a: &Vec<u64>, p: &Vec<u64>|
            a@ == targets && p@ == values && #[trigger] call_ensures(judge.sum, (a, p), sums);
        reals::law_constants_have_their_values();
        reals::law_order_is_of_values(bits::ZERO, sums.total);
        reals::law_order_is_of_values(sums.residual, bits::ZERO);
        assert forall|j: int| 0 <= j < rows.len() implies says(judge.predict, fitted.model, rows[j], #[trigger] p@[j]) by {
            assert(predict::predicts(judge.predict, fitted.model, rows[j], Ok(values[j])));
        }
        assert(is_score(judge, fitted, rows, targets, score, p, a, sums));
    }
}

/// A model is scored by its answers to the rows, against the targets.
pub proof fn law_answers_make_the_score<
    M,
    P: Fn(&M, &Vec<u64>) -> Result<u64, String>,
    S: Fn(&Vec<u64>, &Vec<u64>) -> RegressionSums,
    X: Fn(u64, u64) -> u64,
>(judge: &Judge<P, S, X>, fitted: &Fitted<M>, x: &Vec<Vec<u64>>, y: &Vec<u64>, score: FoldScore)
    requires
        call_ensures(judge_model::<M, P, S, X>, (judge, fitted, x, y), Ok(score)),
    ensures
        is_scored(*judge, *fitted, Seq::new(x@.len(), |i: int| x@[i]@), y@, score),
{
    assert(json::rows_of(x@) =~= Seq::new(x@.len(), |i: int| x@[i]@));
    lemma_scored(*judge, *fitted, json::rows_of(x@), y@, score);
}

/// The fold is that of every `k`th sample: the model was trained without them and is
/// scored by them.
pub open spec fn is_fold<
    M,
    T: Fn(Algorithm, &Vec<Vec<u64>>, &Vec<u64>, &Vec<(String, u64)>) -> Result<Fitted<M>, String>,
    P: Fn(&M, &Vec<u64>) -> Result<u64, String>,
    S: Fn(&Vec<u64>, &Vec<u64>) -> RegressionSums,
    X: Fn(u64, u64) -> u64,
>(
    train: T,
    judge: Judge<P, S, X>,
    algorithm: Algorithm,
    x: Seq<Vec<u64>>,
    y: Seq<u64>,
    params: Seq<(String, u64)>,
    k: int,
    f: int,
    fold: Fold,
    inside: Seq<int>,
    outside: Seq<int>,
    fitted: Fitted<M>,
) -> bool {
    &&& are_places(inside, x.len(), k, f, true)
    &&& are_places(outside, x.len(), k, f, false)
    &&& fold.fold == f
    &&& fold.samples == inside.len()
    &&& trained_on(train, algorithm, x, y, params, outside, fitted)
    &&& is_scored(judge, fitted, Seq::new(inside.len(), |j: int| x[inside[j]]@), part(y, inside), fold.score)
}

/// See [`is_fold`].
pub open spec fn fold_is_right<
    M,
    T: Fn(Algorithm, &Vec<Vec<u64>>, &Vec<u64>, &Vec<(String, u64)>) -> Result<Fitted<M>, String>,
    P: Fn(&M, &Vec<u64>) -> Result<u64, String>,
    S: Fn(&Vec<u64>, &Vec<u64>) -> RegressionSums,
    X: Fn(u64, u64) -> u64,
>(
    train: T,
    judge: Judge<P, S, X>,
    algorithm: Algorithm,
    x: Seq<Vec<u64>>,
    y: Seq<u64>,
    params: Seq<(String, u64)>,
    k: int,
    f: int,
    fold: Fold,
) -> bool {
    exists|inside: Seq<int>, outside: Seq<int>, fitted: Fitted<M>| #[trigger]
        is_fold(train, judge, algorithm, x, y, params, k, f, fold, inside, outside, fitted)
}

/// The fold has a score.
pub open spec fn scored(folds: Seq<Fold>) -> spec_fn(int) -> bool {
    |f: int| folds[f].score.mse is Some || folds[f].score.r2 is Some
}

/// There are `k` folds, all of them right, and as many have a score as it is said.
pub open spec fn is_validation<
    M,
    T: Fn(Algorithm, &Vec<Vec<u64>>, &Vec<u64>, &Vec<(String, u64)>) -> Result<Fitted<M>, String>,
    P: Fn(&M, &Vec<u64>) -> Result<u64, String>,
    S: Fn(&Vec<u64>, &Vec<u64>) -> RegressionSums,
    X: Fn(u64, u64) -> u64,
>(
    train: T,
    judge: Judge<P, S, X>,
    algorithm: Algorithm,
    x: Seq<Vec<u64>>,
    y: Seq<u64>,
    params: Seq<(String, u64)>,
    k: nat,
    cv: CrossValidation,
) -> bool {
    &&& cv.algorithm == algorithm
    &&& cv.k == k
    &&& cv.folds@.len() == k
    &&& cv.scored == counting::places(k, scored(cv.folds@)).len()
    &&& forall|f: int|
        0 <= f < k ==> fold_is_right(train, judge, algorithm, x, y, params, k as int, f, #[trigger] cv.folds@[f])
}

proof fn lemma_scored_count(folds: Seq<Fold>, n: nat)
    ensures
        cross_validate::scored_folds(folds, n) == counting::places(n, scored(folds)).len(),
    decreases n,
{
    if n == 0 {
        counting::lemma_no_place(scored(folds));
    } else {
        lemma_scored_count(folds, (n - 1) as nat);
        counting::lemma_one_more((n - 1) as nat, scored(folds));
    }
}

proof fn lemma_fold<
    M,
    T: Fn(Algorithm, &Vec<Vec<u64>>, &Vec<u64>, &Vec<(String, u64)>) -> Result<Fitted<M>, String>,
    P: Fn(&M, &Vec<u64>) -> Result<u64, String>,
    S: Fn(&Vec<u64>, &Vec<u64>) -> RegressionSums,
    X: Fn(u64, u64) -> u64,
>(
    train: T,
    judge: Judge<P, S, X>,
    algorithm: Algorithm,
    x: Seq<Vec<u64>>,
    y: Seq<u64>,
    params: Seq<(String, u64)>,
    k: int,
    f: int,
    fold: Fold,
)
    requires
        cross_validate::fold_done(
            train,
            judge,
            algorithm,
            json::rows_of(x),
            y,
            json::named_numbers(params),
            k,
            f,
            fold,
        ),
    ensures
        fold_is_right(train, judge, algorithm, x, y, params, k, f, fold),
{
    let rows = json::rows_of(x);
    let n = x.len();
    let named = json::named_numbers(params);
    let inside = lemma_held(rows, y, k, f, n);
    let outside = lemma_kept(rows, y, k, f, n);
    let fitted = choose|fitted: Fitted<M>| #[trigger]
        cross_validate::fold_model(train, algorithm, rows, y, named, k, f, Ok(fitted)) && cross_validate::judged(
            judge,
            fitted,
            cross_validate::held(rows, k, f, n),
            cross_validate::held(y, k, f, n),
            Ok(fold.score),
        );
    let (a, b, p) = choose|a: &Vec<Vec<u64>>, b: &Vec<u64>, p: &Vec<(String, u64)>|
        json::rows_of(a@) == cross_validate::kept(rows, k, f, n) && b@ == cross_validate::kept(y, k, f, n)
            && json::named_numbers(p@) == named && #[trigger] call_ensures(train, (algorithm, a, b, p), Ok(fitted));
    assert(are_rows(a@, x, outside)) by {
        assert(json::rows_of(a@).len() == part(rows, outside).len());
        assert forall|j: int| 0 <= j < outside.len() implies (#[trigger] a@[j])@ == x[outside[j]]@ by {
            assert(json::rows_of(a@)[j] == part(rows, outside)[j]);
        }
    }
    assert(are_settings(p@, params)) by {
        assert(json::named_numbers(p@).len() == named.len());
        assert forall|j: int| 0 <= j < p@.len() implies (#[trigger] p@[j]).0@ == params[j].0@ && p@[j].1
            == params[j].1 by {
            assert(json::named_numbers(p@)[j] == named[j]);
        }
    }
    assert(trained_on(train, algorithm, x, y, params, outside, fitted));
    lemma_scored(judge, fitted, part(rows, inside), part(y, inside), fold.score);
    assert(part(rows, inside) =~= Seq::new(inside.len(), |j: int| x[inside[j]]@));
    assert(is_fold(train, judge, algorithm, x, y, params, k, f, fold, inside, outside, fitted));
}

proof fn lemma_validation<
    M,
    T: Fn(Algorithm, &Vec<Vec<u64>>, &Vec<u64>, &Vec<(String, u64)>) -> Result<Fitted<M>, String>,
    P: Fn(&M, &Vec<u64>) -> Result<u64, String>,
    S: Fn(&Vec<u64>, &Vec<u64>) -> RegressionSums,
    X: Fn(u64, u64) -> u64,
>(
    train: T,
    judge: Judge<P, S, X>,
    algorithm: Algorithm,
    x: Seq<Vec<u64>>,
    y: Seq<u64>,
    params: Seq<(String, u64)>,
    k: nat,
    cv: CrossValidation,
)
    requires
        cross_validate::folds_run(
            train,
            judge,
            algorithm,
            json::rows_of(x),
            y,
            json::named_numbers(params),
            k,
            Ok(cv),
        ),
    ensures
        is_validation(train, judge, algorithm, x, y, params, k, cv),
{
    lemma_scored_count(cv.folds@, k);
    assert forall|f: int| 0 <= f < k implies fold_is_right(
        train,
        judge,
        algorithm,
        x,
        y,
        params,
        k as int,
        f,
        #[trigger] cv.folds@[f],
    ) by {
        lemma_fold(train, judge, algorithm, x, y, params, k as int, f, cv.folds@[f]);
    }
}

/// A validation leaves out every `k`th sample in turn: the first fold those from the
/// first one on, the next one those from the second one on, and so forth. It trains
/// with the others and scores by those left out.
pub proof fn law_folds_take_turns<
    M,
    T: Fn(Algorithm, &Vec<Vec<u64>>, &Vec<u64>, &Vec<(String, u64)>) -> Result<Fitted<M>, String>,
    P: Fn(&M, &Vec<u64>) -> Result<u64, String>,
    S: Fn(&Vec<u64>, &Vec<u64>) -> RegressionSums,
    X: Fn(u64, u64) -> u64,
>(
    algorithm: Algorithm,
    x: &Vec<Vec<u64>>,
    y: &Vec<u64>,
    params: &Vec<(String, u64)>,
    k: usize,
    train: &T,
    judge: &Judge<P, S, X>,
    cv: CrossValidation,
)
    requires
        call_ensures(run_folds::<M, T, P, S, X>, (algorithm, x, y, params, k, train, judge), Ok(cv)),
    ensures
        is_validation(*train, *judge, algorithm, x@, y@, params@, k as nat, cv),
{
    lemma_validation(*train, *judge, algorithm, x@, y@, params@, k as nat, cv);
}

/// The texts of a validation: the algorithm is the named one, and the folds are
/// those of the samples, the targets and the parameters in the documents. Fewer
/// folds than 2, more than samples, and as many targets as there are no samples for
/// are refused.
pub proof fn law_documents_are_validated<
    M,
    T: Fn(Algorithm, &Vec<Vec<u64>>, &Vec<u64>, &Vec<(String, u64)>) -> Result<Fitted<M>, String>,
    P: Fn(&M, &Vec<u64>) -> Result<u64, String>,
    S: Fn(&Vec<u64>, &Vec<u64>) -> RegressionSums,
    X: Fn(u64, u64) -> u64,
>(
    algorithm_str: &str,
    features_json: &str,
    targets_json: &str,
    params_json: &str,
    k: usize,
    train: &T,
    judge: &Judge<P, S, X>,
    algorithm: Option<Algorithm>,
    x: Result<Vec<Vec<u64>>, String>,
    y: Result<Vec<u64>, String>,
    params: Result<Vec<(String, u64)>, String>,
    r: Result<CrossValidation, String>,
)
    requires
        call_ensures(
            cross_validate_from_json::<M, T, P, S, X>,
            (algorithm_str, features_json, targets_json, params_json, k, train, judge),
            r,
        ),
        call_ensures(Algorithm::parse_algorithm, (algorithm_str,), algorithm),
        call_ensures(parse_table, (features_json,), x),
        call_ensures(parse_numbers, (targets_json,), y),
        call_ensures(parse_params, (params_json,), params),
        params_json@.len() > 0,
        text::trimmed(params_json@) != "null"@,
    ensures
        r is Ok ==> algorithm is Some && x is Ok && y is Ok && params is Ok,
        r is Ok ==> x->Ok_0@.len() == y->Ok_0@.len() && 2 <= k <= x->Ok_0@.len(),
        r matches Ok(cv) ==> is_validation(
            *train,
            *judge,
            algorithm->0,
            x->Ok_0@,
            y->Ok_0@,
            params->Ok_0@,
            k as nat,
            cv,
        ),
{
    if r is Ok {
        lemma_validation(*train, *judge, algorithm->0, x->Ok_0@, y->Ok_0@, params->Ok_0@, k as nat, r->Ok_0);
    }
}

/// A validation without parameters trains without any.
pub proof fn law_no_parameters_are_no_parameters<
    M,
    T: Fn(Algorithm, &Vec<Vec<u64>>, &Vec<u64>, &Vec<(String, u64)>) -> Result<Fitted<M>, String>,
    P: Fn(&M, &Vec<u64>) -> Result<u64, String>,
    S: Fn(&Vec<u64>, &Vec<u64>) -> RegressionSums,
    X: Fn(u64, u64) -> u64,
>(
    algorithm_str: &str,
    features_json: &str,
    targets_json: &str,
    params_json: &str,
    k: usize,
    train: &T,
    judge: &Judge<P, S, X>,
    algorithm: Option<Algorithm>,
    x: Result<Vec<Vec<u64>>, String>,
    y: Result<Vec<u64>, String>,
    cv: CrossValidation,
    none: Seq<(String, u64)>,
)
    requires
        call_ensures(
            cross_validate_from_json::<M, T, P, S, X>,
            (algorithm_str, features_json, targets_json, params_json, k, train, judge),
            Ok(cv),
        ),
        call_ensures(Algorithm::parse_algorithm, (algorithm_str,), algorithm),
        call_ensures(parse_table, (features_json,), x),
        call_ensures(parse_numbers, (targets_json,), y),
        params_json@.len() == 0 || params_json@ == "null"@,
        none.len() == 0,
    ensures
        algorithm is Some && x is Ok && y is Ok,
        is_validation(*train, *judge, algorithm->0, x->Ok_0@, y->Ok_0@, none, k as nat, cv),
{
    if params_json@.len() > 0 {
        reveal_strlit("null");
        let s = "null"@;
        assert(text::trimmed(s) == s) by {
            lemma_null_is_trimmed();
        }
    }
    assert(json::named_numbers(none) =~= Seq::empty());
    lemma_validation(*train, *judge, algorithm->0, x->Ok_0@, y->Ok_0@, none, k as nat, cv);
}

proof fn lemma_null_is_trimmed()
    ensures
        text::trimmed("null"@) == "null"@,
{
    reveal_strlit("null");
}

/// Each row of arguments is validated by itself, and one with a null gives a null.
pub proof fn law_rows_are_validated<
    M,
    T: Fn(Algorithm, &Vec<Vec<u64>>, &Vec<u64>, &Vec<(String, u64)>) -> Result<Fitted<M>, String>,
    P: Fn(&M, &Vec<u64>) -> Result<u64, String>,
    S: Fn(&Vec<u64>, &Vec<u64>) -> RegressionSums,
    X: Fn(u64, u64) -> u64,
>(
    columns: usize,
    rows: &Vec<CvRow>,
    k: usize,
    train: &T,
    judge: &Judge<P, S, X>,
    r: Result<Vec<Option<CrossValidation>>, String>,
    i: int,
    algorithm_str: &str,
    features_json: &str,
    targets_json: &str,
    params_json: &str,
    algorithm: Option<Algorithm>,
    x: Result<Vec<Vec<u64>>, String>,
    y: Result<Vec<u64>, String>,
    params: Result<Vec<(String, u64)>, String>,
)
    requires
        call_ensures(CrossValidateFn::invoke::<M, T, P, S, X>, (columns, rows, k, train, judge), r),
        call_ensures(Algorithm::parse_algorithm, (algorithm_str,), algorithm),
        call_ensures(parse_table, (features_json,), x),
        call_ensures(parse_numbers, (targets_json,), y),
        call_ensures(parse_params, (params_json,), params),
        params_json@.len() > 0,
        text::trimmed(params_json@) != "null"@,
        0 <= i < rows@.len(),
        rows@[i].algorithm matches Some(s) ==> s@ == algorithm_str@,
        rows@[i].features matches Some(s) ==> s@ == features_json@,
        rows@[i].targets matches Some(s) ==> s@ == targets_json@,
        rows@[i].params matches Some(s) && s@ == params_json@,
    ensures
        !(4 <= columns <= 5) ==> r is Err,
        r matches Ok(out) ==> {
            &&& out@.len() == rows@.len()
            &&& out@[i] is None <==> rows@[i].algorithm is None || rows@[i].features is None || rows@[i].targets is None
            &&& out@[i] matches Some(cv) ==> algorithm is Some && x is Ok && y is Ok && params is Ok && 2 <= k
                && is_validation(
                *train,
                *judge,
                algorithm->0,
                x->Ok_0@,
                y->Ok_0@,
                params->Ok_0@,
                k as nat,
                cv,
            )
        },
{
    if r is Ok {
        let out = r->Ok_0@;
        assert(out[i] is None || out[i] is Some);
        if out[i] is Some {
            let cv = out[i]->0;
            assert(cross_validate::cv_row_outcome(rows@[i], k, *train, *judge, Ok(cv)));
            lemma_validation(*train, *judge, algorithm->0, x->Ok_0@, y->Ok_0@, params->Ok_0@, k as nat, cv);
        }
    }
}

} // verus!
