//! K-fold cross validation over any training function.

use vstd::prelude::*;
use crate::json;
use crate::json::{parse_numbers, parse_params, parse_table};
use crate::metrics;
use crate::metrics::{explained, RegressionSums};
use crate::model::types;
use crate::model::types::Algorithm;
use crate::scalar;
use crate::scalar::ask_rows;
use crate::text;
use crate::text::{is_empty_text, push_decimal, text_eq, trim};

verus! {

/// How well a model fits the fold that was left out; the bits of doubles.
#[derive(Debug, Clone, Copy, PartialEq, Eq, Structural)]
pub struct FoldScore {
    pub mse: Option<u64>,
    pub r2: Option<u64>,
}

/// A model that was trained, and which measures its kind has.
#[derive(Debug, PartialEq, Eq)]
pub struct Fitted<M> {
    pub model: M,
    pub has_mse: bool,
    pub has_r2: bool,
}

/// What the caller computes to judge a model: `predict` asks it, `sum` sums the
/// errors of some predictions up, and `explain` subtracts the quotient of two sums
/// from 1.
pub struct Judge<P, S, X> {
    pub predict: P,
    pub sum: S,
    pub explain: X,
}

/// One fold of a cross validation.
#[derive(Debug, Clone, Copy, PartialEq, Eq)]
pub struct Fold {
    pub fold: usize,
    /// How many samples were left out of training.
    pub samples: usize,
    pub score: FoldScore,
}

/// What a cross validation hands back.
#[derive(Debug, PartialEq, Eq)]
pub struct CrossValidation {
    pub algorithm: Algorithm,
    pub k: usize,
    pub folds: Vec<Fold>,
    /// How many folds have a score.
    pub scored: usize,
}

/// Sample `i` is left out of the training of fold `f`.
pub open spec fn in_fold(i: int, k: int, f: int) -> bool {
    i % k == f
}

/// The samples among the first `n` that fold `f` trains on, in order.
pub open spec fn kept<T>(v: Seq<T>, k: int, f: int, n: nat) -> Seq<T>
    decreases n,
{
    if n == 0 {
        Seq::empty()
    } else if in_fold(n - 1, k, f) {
        kept(v, k, f, (n - 1) as nat)
    } else {
        kept(v, k, f, (n - 1) as nat).push(v[n - 1])
    }
}

/// The samples among the first `n` that fold `f` is scored on, in order: those that
/// it does not train on.
pub open spec fn held<T>(v: Seq<T>, k: int, f: int, n: nat) -> Seq<T>
    decreases n,
{
    if n == 0 {
        Seq::empty()
    } else if in_fold(n - 1, k, f) {
        held(v, k, f, (n - 1) as nat).push(v[n - 1])
    } else {
        held(v, k, f, (n - 1) as nat)
    }
}

/// How many of the first `n` samples fold `f` leaves out.
pub open spec fn left_out(k: int, f: int, n: nat) -> nat
    decreases n,
{
    if n == 0 {
        0
    } else if in_fold(n - 1, k, f) {
        left_out(k, f, (n - 1) as nat) + 1
    } else {
        left_out(k, f, (n - 1) as nat)
    }
}

/// How many of the first `n` samples the first `m` folds leave out.
pub open spec fn left_out_by(k: int, m: nat, n: nat) -> nat
    decreases m,
{
    if m == 0 {
        0
    } else {
        left_out_by(k, (m - 1) as nat, n) + left_out(k, m - 1, n)
    }
}

proof fn lemma_one_more(k: int, m: nat, n: nat)
    requires
        0 < k,
        0 < n,
    ensures
        left_out_by(k, m, n) == left_out_by(k, m, (n - 1) as nat) + if (n - 1) % k < m {
            1nat
        } else {
            0nat
        },
    decreases m,
{
    if m > 0 {
        lemma_one_more(k, (m - 1) as nat, n);
    }
}

/// The folds share the samples out: each sample is left out exactly once.
pub proof fn law_folds_exhaust_samples(k: int, n: nat)
    requires
        0 < k,
    ensures
        left_out_by(k, k as nat, n) == n,
    decreases n,
{
    if n > 0 {
        law_folds_exhaust_samples(k, (n - 1) as nat);
        lemma_one_more(k, k as nat, n);
    } else {
        lemma_nothing_left_out(k, k as nat);
    }
}

proof fn lemma_nothing_left_out(k: int, m: nat)
    ensures
        left_out_by(k, m, 0) == 0,
    decreases m,
{
    if m > 0 {
        lemma_nothing_left_out(k, (m - 1) as nat);
    }
}

/// Each sample belongs to exactly one fold.
pub proof fn law_each_sample_in_one_fold(i: int, k: int)
    requires
        0 <= i,
        0 < k,
    ensures
        0 <= i % k < k,
        in_fold(i, k, i % k),
        forall|f: int| #[trigger] in_fold(i, k, f) ==> f == i % k,
{
}

/// What a fold trains on and what it is scored on make up all samples.
pub proof fn law_fold_keeps_the_rest<T>(v: Seq<T>, k: int, f: int, n: nat)
    ensures
        kept(v, k, f, n).len() + left_out(k, f, n) == n,
        held(v, k, f, n).len() == left_out(k, f, n),
    decreases n,
{
    if n > 0 {
        law_fold_keeps_the_rest(v, k, f, (n - 1) as nat);
    }
}

/// `answer` is an answer of the training function.
pub open spec fn train_answer<
    M,
    T: Fn(Algorithm, &Vec<Vec<u64>>, &Vec<u64>, &Vec<(String, u64)>) -> Result<Fitted<M>, String>,
>(
    train: T,
    algorithm: Algorithm,
    x: Seq<Seq<u64>>,
    y: Seq<u64>,
    params: Seq<(Seq<char>, u64)>,
    answer: Result<Fitted<M>, String>,
) -> bool {
    exists|a: &Vec<Vec<u64>>, b: &Vec<u64>, p: &Vec<(String, u64)>|
        json::rows_of(a@) == x && b@ == y && json::named_numbers(p@) == params && #[trigger] call_ensures(
            train,
            (algorithm, a, b, p),
            answer,
        )
}

/// The score of some predictions, measure by measure.
pub open spec fn measures<X: Fn(u64, u64) -> u64>(
    explain: X,
    sums: RegressionSums,
    has_mse: bool,
    has_r2: bool,
    score: FoldScore,
) -> bool {
    &&& score.mse == if has_mse {
        Some(sums.mse)
    } else {
        None
    }
    &&& match score.r2 {
        Some(r2) => has_r2 && metrics::is_explained(explain, sums, r2),
        None => !has_r2,
    }
}

/// The score of a model on some samples: the errors of what it predicts for them.
pub open spec fn scores_on<
    M,
    P: Fn(&M, &Vec<u64>) -> Result<u64, String>,
    S: Fn(&Vec<u64>, &Vec<u64>) -> RegressionSums,
    X: Fn(u64, u64) -> u64,
>(judge: Judge<P, S, X>, fitted: Fitted<M>, x: Seq<Seq<u64>>, y: Seq<u64>, score: FoldScore) -> bool {
    exists|predicted: Seq<u64>, sums: RegressionSums| #[trigger]
        scalar::rows_predicted(judge.predict, fitted.model, x, Ok(predicted)) && #[trigger] metrics::are_sums(
            judge.sum,
            y,
            predicted,
            sums,
        ) && measures(judge.explain, sums, fitted.has_mse, fitted.has_r2, score)
}

/// What judging a model on some samples gives: its score there, an empty one where
/// its kind has no measure, or why it predicts nothing.
pub open spec fn judged<
    M,
    P: Fn(&M, &Vec<u64>) -> Result<u64, String>,
    S: Fn(&Vec<u64>, &Vec<u64>) -> RegressionSums,
    X: Fn(u64, u64) -> u64,
>(judge: Judge<P, S, X>, fitted: Fitted<M>, x: Seq<Seq<u64>>, y: Seq<u64>, answer: Result<FoldScore, String>) -> bool {
    if !fitted.has_mse && !fitted.has_r2 {
        answer == Ok::<FoldScore, String>(FoldScore { mse: None, r2: None })
    } else {
        match answer {
            Ok(score) => scores_on(judge, fitted, x, y, score),
            Err(e) => scalar::rows_predicted(judge.predict, fitted.model, x, Err(e)),
        }
    }
}

/// The functions that judge a model can be called.
pub open spec fn can_judge<
    M,
    P: Fn(&M, &Vec<u64>) -> Result<u64, String>,
    S: Fn(&Vec<u64>, &Vec<u64>) -> RegressionSums,
    X: Fn(u64, u64) -> u64,
>(judge: Judge<P, S, X>) -> bool {
    &&& forall|m: &M, f: &Vec<u64>| call_requires(judge.predict, (m, f))
    &&& forall|a: &Vec<u64>, p: &Vec<u64>| a@.len() == p@.len() ==> call_requires(judge.sum, (a, p))
    &&& forall|a: u64, b: u64| call_requires(judge.explain, (a, b))
}

/// The model of fold `f`: trained on the samples that the fold does not leave out.
pub open spec fn fold_model<
    M,
    T: Fn(Algorithm, &Vec<Vec<u64>>, &Vec<u64>, &Vec<(String, u64)>) -> Result<Fitted<M>, String>,
>(
    train: T,
    algorithm: Algorithm,
    x: Seq<Seq<u64>>,
    y: Seq<u64>,
    params: Seq<(Seq<char>, u64)>,
    k: int,
    f: int,
    answer: Result<Fitted<M>, String>,
) -> bool {
    train_answer(train, algorithm, kept(x, k, f, x.len()), kept(y, k, f, x.len()), params, answer)
}

/// How fold `f` does: its model, judged on the samples that the fold leaves
/// out.
pub open spec fn fold_judged<
    M,
    T: Fn(Algorithm, &Vec<Vec<u64>>, &Vec<u64>, &Vec<(String, u64)>) -> Result<Fitted<M>, String>,
    P: Fn(&M, &Vec<u64>) -> Result<u64, String>,
    S: Fn(&Vec<u64>, &Vec<u64>) -> RegressionSums,
    X: Fn(u64, u64) -> u64,
>(
    train: T,
    judge: Judge<P, S, X>,
    algorithm: Algorithm,
    x: Seq<Seq<u64>>,
    y: Seq<u64>,
    params: Seq<(Seq<char>, u64)>,
    k: int,
    f: int,
    answer: Result<FoldScore, String>,
) -> bool {
    exists|fitted: Fitted<M>| #[trigger]
        fold_model(train, algorithm, x, y, params, k, f, Ok(fitted)) && judged(
            judge,
            fitted,
            held(x, k, f, x.len()),
            held(y, k, f, x.len()),
            answer,
        )
}

/// The message about fold `f`, of which the given step failed.
pub open spec fn fold_message(f: nat, step: Seq<char>, problem: Seq<char>) -> Seq<char> {
    "ml_cross_validate: fold "@ + text::decimal(f) + step + problem
}

/// Why fold `f` fails: its training does, or its model does not predict.
pub open spec fn fold_fails<
    M,
    T: Fn(Algorithm, &Vec<Vec<u64>>, &Vec<u64>, &Vec<(String, u64)>) -> Result<Fitted<M>, String>,
    P: Fn(&M, &Vec<u64>) -> Result<u64, String>,
    S: Fn(&Vec<u64>, &Vec<u64>) -> RegressionSums,
    X: Fn(u64, u64) -> u64,
>(
    train: T,
    judge: Judge<P, S, X>,
    algorithm: Algorithm,
    x: Seq<Seq<u64>>,
    y: Seq<u64>,
    params: Seq<(Seq<char>, u64)>,
    k: int,
    f: nat,
    message: Seq<char>,
) -> bool {
    ||| exists|e: String| #[trigger]
        fold_model(train, algorithm, x, y, params, k, f as int, Err(e)) && message == fold_message(
            f,
            " training failed: "@,
            e@,
        )
    ||| exists|e: String| #[trigger]
        fold_judged(train, judge, algorithm, x, y, params, k, f as int, Err(e)) && message == fold_message(
            f,
            " prediction failed: "@,
            e@,
        )
}

/// Fold `f` was trained on the other samples and scored on its own.
pub open spec fn fold_done<
    M,
    T: Fn(Algorithm, &Vec<Vec<u64>>, &Vec<u64>, &Vec<(String, u64)>) -> Result<Fitted<M>, String>,
    P: Fn(&M, &Vec<u64>) -> Result<u64, String>,
    S: Fn(&Vec<u64>, &Vec<u64>) -> RegressionSums,
    X: Fn(u64, u64) -> u64,
>(
    train: T,
    judge: Judge<P, S, X>,
    algorithm: Algorithm,
    x: Seq<Seq<u64>>,
    y: Seq<u64>,
    params: Seq<(Seq<char>, u64)>,
    k: int,
    f: int,
    fold: Fold,
) -> bool {
    &&& fold.fold == f
    &&& fold.samples == left_out(k, f, x.len())
    &&& fold_judged(train, judge, algorithm, x, y, params, k, f, Ok(fold.score))
}

/// Fold `f` has a score.
pub open spec fn fold_passes<
    M,
    T: Fn(Algorithm, &Vec<Vec<u64>>, &Vec<u64>, &Vec<(String, u64)>) -> Result<Fitted<M>, String>,
    P: Fn(&M, &Vec<u64>) -> Result<u64, String>,
    S: Fn(&Vec<u64>, &Vec<u64>) -> RegressionSums,
    X: Fn(u64, u64) -> u64,
>(
    train: T,
    judge: Judge<P, S, X>,
    algorithm: Algorithm,
    x: Seq<Seq<u64>>,
    y: Seq<u64>,
    params: Seq<(Seq<char>, u64)>,
    k: int,
    f: int,
) -> bool {
    exists|score: FoldScore| #[trigger] fold_judged(train, judge, algorithm, x, y, params, k, f, Ok(score))
}

/// A fold with a measure.
pub open spec fn has_measure(fold: Fold) -> bool {
    fold.score.mse is Some || fold.score.r2 is Some
}

/// How many of the first `n` folds have a measure.
pub open spec fn scored_folds(folds: Seq<Fold>, n: nat) -> nat
    decreases n,
{
    if n == 0 {
        0
    } else {
        scored_folds(folds, (n - 1) as nat) + if has_measure(folds[n - 1]) {
            1nat
        } else {
            0nat
        }
    }
}

/// The hyperparameters of a text: none where it is empty or `null`, else the
/// numbers of a JSON object.
pub open spec fn cv_params(text: Seq<char>) -> Result<Seq<(Seq<char>, u64)>, Seq<char>> {
    if text.len() == 0 || text::trimmed(text) == "null"@ {
        Ok(Seq::empty())
    } else {
        json::params_read(text)
    }
}

/// What is wrong with the arguments of a cross validation, if anything.
pub open spec fn cv_problem(
    algorithm: Option<Algorithm>,
    name: Seq<char>,
    x: Result<Seq<Seq<u64>>, Seq<char>>,
    y: Result<Seq<u64>, Seq<char>>,
    params: Result<Seq<(Seq<char>, u64)>, Seq<char>>,
    k: nat,
) -> Option<Seq<char>> {
    if algorithm is None {
        Some("ml_cross_validate: unknown algorithm '"@ + name + "'"@)
    } else {
        match (x, y) {
            (Err(e), _) => Some("ml_cross_validate: bad features JSON: "@ + e),
            (Ok(_), Err(e)) => Some("ml_cross_validate: bad targets JSON: "@ + e),
            (Ok(rows), Ok(targets)) => if rows.len() == 0 {
                Some("ml_cross_validate: empty dataset"@)
            } else if rows.len() != targets.len() {
                Some(
                    "ml_cross_validate: length mismatch: "@ + text::decimal(rows.len()) + " features vs "@
                        + text::decimal(targets.len()) + " targets"@,
                )
            } else if k < 2 || k > rows.len() {
                Some(
                    "ml_cross_validate: k must be in [2, "@ + text::decimal(rows.len()) + "], got "@
                        + text::decimal(k),
                )
            } else {
                match params {
                    Err(e) => Some("ml_cross_validate: bad params JSON: "@ + e),
                    Ok(_) => None,
                }
            },
        }
    }
}

/// Fold `f` fails, and no fold before it does.
pub open spec fn first_failure<
    M,
    T: Fn(Algorithm, &Vec<Vec<u64>>, &Vec<u64>, &Vec<(String, u64)>) -> Result<Fitted<M>, String>,
    P: Fn(&M, &Vec<u64>) -> Result<u64, String>,
    S: Fn(&Vec<u64>, &Vec<u64>) -> RegressionSums,
    X: Fn(u64, u64) -> u64,
>(
    train: T,
    judge: Judge<P, S, X>,
    algorithm: Algorithm,
    x: Seq<Seq<u64>>,
    y: Seq<u64>,
    params: Seq<(Seq<char>, u64)>,
    k: int,
    f: nat,
    message: Seq<char>,
) -> bool {
    &&& fold_fails(train, judge, algorithm, x, y, params, k, f, message)
    &&& forall|g: int| 0 <= g < f ==> #[trigger] fold_passes(train, judge, algorithm, x, y, params, k, g)
}

/// Some fold fails, and the message is that of the first one.
pub open spec fn run_fails<
    M,
    T: Fn(Algorithm, &Vec<Vec<u64>>, &Vec<u64>, &Vec<(String, u64)>) -> Result<Fitted<M>, String>,
    P: Fn(&M, &Vec<u64>) -> Result<u64, String>,
    S: Fn(&Vec<u64>, &Vec<u64>) -> RegressionSums,
    X: Fn(u64, u64) -> u64,
>(
    train: T,
    judge: Judge<P, S, X>,
    algorithm: Algorithm,
    x: Seq<Seq<u64>>,
    y: Seq<u64>,
    params: Seq<(Seq<char>, u64)>,
    k: nat,
    message: Seq<char>,
) -> bool {
    exists|f: nat|
        f < k && #[trigger] first_failure(train, judge, algorithm, x, y, params, k as int, f, message)
}

/// What running the folds gives: all of them in order, or the message of the
/// first one that fails.
pub open spec fn folds_run<
    M,
    T: Fn(Algorithm, &Vec<Vec<u64>>, &Vec<u64>, &Vec<(String, u64)>) -> Result<Fitted<M>, String>,
    P: Fn(&M, &Vec<u64>) -> Result<u64, String>,
    S: Fn(&Vec<u64>, &Vec<u64>) -> RegressionSums,
    X: Fn(u64, u64) -> u64,
>(
    train: T,
    judge: Judge<P, S, X>,
    algorithm: Algorithm,
    x: Seq<Seq<u64>>,
    y: Seq<u64>,
    params: Seq<(Seq<char>, u64)>,
    k: nat,
    r: Result<CrossValidation, String>,
) -> bool {
    match r {
        Ok(cv) => cv.algorithm == algorithm && cv.k == k && cv.folds@.len() == k && cv.scored == scored_folds(
            cv.folds@,
            k,
        ) && forall|f: int|
            0 <= f < k ==> fold_done(train, judge, algorithm, x, y, params, k as int, f, #[trigger] cv.folds@[f]),
        Err(e) => run_fails(train, judge, algorithm, x, y, params, k, e@),
    }
}

/// What [`cross_validate_from_json`] gives.
pub open spec fn cv_outcome<
    M,
    T: Fn(Algorithm, &Vec<Vec<u64>>, &Vec<u64>, &Vec<(String, u64)>) -> Result<Fitted<M>, String>,
    P: Fn(&M, &Vec<u64>) -> Result<u64, String>,
    S: Fn(&Vec<u64>, &Vec<u64>) -> RegressionSums,
    X: Fn(u64, u64) -> u64,
>(
    train: T,
    judge: Judge<P, S, X>,
    name: Seq<char>,
    x: Result<Seq<Seq<u64>>, Seq<char>>,
    y: Result<Seq<u64>, Seq<char>>,
    params: Result<Seq<(Seq<char>, u64)>, Seq<char>>,
    k: nat,
    r: Result<CrossValidation, String>,
) -> bool {
    match cv_problem(types::algorithm_of(name), name, x, y, params, k) {
        Some(message) => r matches Err(e) && e@ == message,
        None => folds_run(train, judge, types::algorithm_of(name)->0, x->Ok_0, y->Ok_0, params->Ok_0, k, r),
    }
}

/// The training function always says the same to the same samples.
pub open spec fn trains_alike<
    M,
    T: Fn(Algorithm, &Vec<Vec<u64>>, &Vec<u64>, &Vec<(String, u64)>) -> Result<Fitted<M>, String>,
>(train: T) -> bool {
    forall|
        algorithm: Algorithm,
        x: Seq<Seq<u64>>,
        y: Seq<u64>,
        params: Seq<(Seq<char>, u64)>,
        a: Result<Fitted<M>, String>,
        b: Result<Fitted<M>, String>,
    |
        #![trigger train_answer(train, algorithm, x, y, params, a), train_answer(train, algorithm, x, y, params, b)]
        train_answer(train, algorithm, x, y, params, a) && train_answer(train, algorithm, x, y, params, b) ==> match (
            a,
            b,
        ) {
            (Ok(u), Ok(v)) => u == v,
            (Err(u), Err(v)) => u@ == v@,
            _ => false,
        }
}

/// Judging a model on the same samples always gives the same.
pub open spec fn judges_alike<
    M,
    P: Fn(&M, &Vec<u64>) -> Result<u64, String>,
    S: Fn(&Vec<u64>, &Vec<u64>) -> RegressionSums,
    X: Fn(u64, u64) -> u64,
>(judge: Judge<P, S, X>) -> bool {
    forall|
        fitted: Fitted<M>,
        x: Seq<Seq<u64>>,
        y: Seq<u64>,
        a: Result<FoldScore, String>,
        b: Result<FoldScore, String>,
    |
        #![trigger judged(judge, fitted, x, y, a), judged(judge, fitted, x, y, b)]
        judged(judge, fitted, x, y, a) && judged(judge, fitted, x, y, b) ==> match (a, b) {
            (Ok(u), Ok(v)) => u == v,
            (Err(u), Err(v)) => u@ == v@,
            _ => false,
        }
}

/// Two cross validations say the same.
pub open spec fn validations_agree(a: Result<CrossValidation, String>, b: Result<CrossValidation, String>) -> bool {
    match (a, b) {
        (Ok(x), Ok(y)) => x.algorithm == y.algorithm && x.k == y.k && x.folds@ == y.folds@ && x.scored == y.scored,
        (Err(x), Err(y)) => x@ == y@,
        _ => false,
    }
}

/// Fold `f` ends in one way: one score, or one message.
spec fn one_ending<
    M,
    T: Fn(Algorithm, &Vec<Vec<u64>>, &Vec<u64>, &Vec<(String, u64)>) -> Result<Fitted<M>, String>,
    P: Fn(&M, &Vec<u64>) -> Result<u64, String>,
    S: Fn(&Vec<u64>, &Vec<u64>) -> RegressionSums,
    X: Fn(u64, u64) -> u64,
>(
    train: T,
    judge: Judge<P, S, X>,
    algorithm: Algorithm,
    x: Seq<Seq<u64>>,
    y: Seq<u64>,
    params: Seq<(Seq<char>, u64)>,
    k: int,
    f: nat,
) -> bool {
    &&& forall|u: FoldScore, v: FoldScore|
        #![trigger fold_judged(train, judge, algorithm, x, y, params, k, f as int, Ok(u)), fold_judged(train, judge, algorithm, x, y, params, k, f as int, Ok(v))]
        fold_judged(train, judge, algorithm, x, y, params, k, f as int, Ok(u)) && fold_judged(
            train,
            judge,
            algorithm,
            x,
            y,
            params,
            k,
            f as int,
            Ok(v),
        ) ==> u == v
    &&& forall|m: Seq<char>, n: Seq<char>|
        #![trigger fold_fails(train, judge, algorithm, x, y, params, k, f, m), fold_fails(train, judge, algorithm, x, y, params, k, f, n)]
        fold_fails(train, judge, algorithm, x, y, params, k, f, m) && fold_fails(
            train,
            judge,
            algorithm,
            x,
            y,
            params,
            k,
            f,
            n,
        ) ==> m == n
    &&& forall|m: Seq<char>|
        fold_passes(train, judge, algorithm, x, y, params, k, f as int) ==> !#[trigger] fold_fails(
            train,
            judge,
            algorithm,
            x,
            y,
            params,
            k,
            f,
            m,
        )
}

/// Where neither training nor judging varies, a fold ends in one way.
proof fn lemma_one_ending<
    M,
    T: Fn(Algorithm, &Vec<Vec<u64>>, &Vec<u64>, &Vec<(String, u64)>) -> Result<Fitted<M>, String>,
    P: Fn(&M, &Vec<u64>) -> Result<u64, String>,
    S: Fn(&Vec<u64>, &Vec<u64>) -> RegressionSums,
    X: Fn(u64, u64) -> u64,
>(
    train: T,
    judge: Judge<P, S, X>,
    algorithm: Algorithm,
    x: Seq<Seq<u64>>,
    y: Seq<u64>,
    params: Seq<(Seq<char>, u64)>,
    k: int,
    f: nat,
)
    requires
        trains_alike(train),
        judges_alike(judge),
    ensures
        one_ending(train, judge, algorithm, x, y, params, k, f),
{
}

/// The same input always gives the same result, as long as training and judging do.
pub proof fn law_validation_is_deterministic<
    M,
    T: Fn(Algorithm, &Vec<Vec<u64>>, &Vec<u64>, &Vec<(String, u64)>) -> Result<Fitted<M>, String>,
    P: Fn(&M, &Vec<u64>) -> Result<u64, String>,
    S: Fn(&Vec<u64>, &Vec<u64>) -> RegressionSums,
    X: Fn(u64, u64) -> u64,
>(
    train: T,
    judge: Judge<P, S, X>,
    name: Seq<char>,
    x: Result<Seq<Seq<u64>>, Seq<char>>,
    y: Result<Seq<u64>, Seq<char>>,
    params: Result<Seq<(Seq<char>, u64)>, Seq<char>>,
    k: nat,
    a: Result<CrossValidation, String>,
    b: Result<CrossValidation, String>,
)
    requires
        trains_alike(train),
        judges_alike(judge),
        cv_outcome(train, judge, name, x, y, params, k, a),
        cv_outcome(train, judge, name, x, y, params, k, b),
    ensures
        validations_agree(a, b),
{
    if cv_problem(types::algorithm_of(name), name, x, y, params, k) is None {
        let algorithm = types::algorithm_of(name)->0;
        let rows = x->Ok_0;
        let targets = y->Ok_0;
        let given = params->Ok_0;
        let n = k as int;
        assert forall|f: nat| true implies #[trigger] one_ending(train, judge, algorithm, rows, targets, given, n, f) by {
            lemma_one_ending(train, judge, algorithm, rows, targets, given, n, f);
        }
        match (a, b) {
            (Ok(u), Ok(v)) => {
                assert forall|f: int| 0 <= f < k implies u.folds@[f] == v.folds@[f] by {
                    assert(one_ending(train, judge, algorithm, rows, targets, given, n, f as nat));
                    assert(fold_done(train, judge, algorithm, rows, targets, given, n, f, u.folds@[f]));
                    assert(fold_done(train, judge, algorithm, rows, targets, given, n, f, v.folds@[f]));
                }
                assert(u.folds@ =~= v.folds@);
            },
            (Ok(u), Err(e)) => {
                let f = choose|f: nat|
                    f < k && #[trigger] first_failure(train, judge, algorithm, rows, targets, given, n, f, e@);
                assert(one_ending(train, judge, algorithm, rows, targets, given, n, f));
                assert(fold_done(train, judge, algorithm, rows, targets, given, n, f as int, u.folds@[f as int]));
                assert(fold_passes(train, judge, algorithm, rows, targets, given, n, f as int));
            },
            (Err(e), Ok(v)) => {
                let f = choose|f: nat|
                    f < k && #[trigger] first_failure(train, judge, algorithm, rows, targets, given, n, f, e@);
                assert(one_ending(train, judge, algorithm, rows, targets, given, n, f));
                assert(fold_done(train, judge, algorithm, rows, targets, given, n, f as int, v.folds@[f as int]));
                assert(fold_passes(train, judge, algorithm, rows, targets, given, n, f as int));
            },
            (Err(d), Err(e)) => {
                let f = choose|f: nat|
                    f < k && #[trigger] first_failure(train, judge, algorithm, rows, targets, given, n, f, d@);
                let h = choose|f: nat|
                    f < k && #[trigger] first_failure(train, judge, algorithm, rows, targets, given, n, f, e@);
                assert(one_ending(train, judge, algorithm, rows, targets, given, n, f));
                assert(one_ending(train, judge, algorithm, rows, targets, given, n, h));
                if f < h {
                    assert(fold_passes(train, judge, algorithm, rows, targets, given, n, f as int));
                } else if h < f {
                    assert(fold_passes(train, judge, algorithm, rows, targets, given, n, h as int));
                }
            },
        }
    }
}

/// The samples of one fold: those that it trains on, and those that it leaves out.
struct Split {
    train_x: Vec<Vec<u64>>,
    train_y: Vec<u64>,
    held_x: Vec<Vec<u64>>,
    held_y: Vec<u64>,
}

fn split_fold(x: &Vec<Vec<u64>>, y: &Vec<u64>, k: usize, f: usize) -> (r: Split)
    requires
        k >= 1,
        x@.len() == y@.len(),
    ensures
        json::rows_of(r.train_x@) == kept(json::rows_of(x@), k as int, f as int, x@.len()),
        r.train_y@ == kept(y@, k as int, f as int, x@.len()),
        json::rows_of(r.held_x@) == held(json::rows_of(x@), k as int, f as int, x@.len()),
        r.held_y@ == held(y@, k as int, f as int, x@.len()),
        r.held_x@.len() == left_out(k as int, f as int, x@.len()),
        r.held_y@.len() == r.held_x@.len(),
{
    let ghost rows = json::rows_of(x@);
    let mut train_x: Vec<Vec<u64>> = Vec::new();
    let mut train_y: Vec<u64> = Vec::new();
    let mut held_x: Vec<Vec<u64>> = Vec::new();
    let mut held_y: Vec<u64> = Vec::new();
    let mut i: usize = 0;
    assert(json::rows_of(train_x@) =~= Seq::empty());
    assert(json::rows_of(held_x@) =~= Seq::empty());
    while i < x.len()
        invariant
            k >= 1,
            x@.len() == y@.len(),
            rows == json::rows_of(x@),
            i <= x@.len(),
            json::rows_of(train_x@) == kept(rows, k as int, f as int, i as nat),
            train_y@ == kept(y@, k as int, f as int, i as nat),
            json::rows_of(held_x@) == held(rows, k as int, f as int, i as nat),
            held_y@ == held(y@, k as int, f as int, i as nat),
        decreases x.len() - i,
    {
        let row: Vec<u64> = x[i].clone();
        assert(row@ =~= rows[i as int]);
        if i % k == f {
            let ghost before = json::rows_of(held_x@);
            held_x.push(row);
            held_y.push(y[i]);
            assert(json::rows_of(held_x@) =~= before.push(rows[i as int]));
        } else {
            let ghost before = json::rows_of(train_x@);
            train_x.push(row);
            train_y.push(y[i]);
            assert(json::rows_of(train_x@) =~= before.push(rows[i as int]));
        }
        i = i + 1;
    }
    proof {
        law_fold_keeps_the_rest(rows, k as int, f as int, rows.len());
        law_fold_keeps_the_rest(y@, k as int, f as int, rows.len());
        assert(held_x@.len() == json::rows_of(held_x@).len());
    }
    Split { train_x, train_y, held_x, held_y }
}

/// Judges a model on some samples.
pub fn judge_model<
    M,
    P: Fn(&M, &Vec<u64>) -> Result<u64, String>,
    S: Fn(&Vec<u64>, &Vec<u64>) -> RegressionSums,
    X: Fn(u64, u64) -> u64,
>(judge: &Judge<P, S, X>, fitted: &Fitted<M>, x: &Vec<Vec<u64>>, y: &Vec<u64>) -> (answer: Result<FoldScore, String>)
    requires
        x@.len() == y@.len(),
        can_judge::<M, P, S, X>(*judge),
    ensures
        judged(*judge, *fitted, json::rows_of(x@), y@, answer),
{
    if !fitted.has_mse && !fitted.has_r2 {
        return Ok(FoldScore { mse: None, r2: None });
    }
    let predicted: Vec<u64> = match ask_rows(&fitted.model, x, &judge.predict) {
        Ok(predicted) => predicted,
        Err(e) => {
            return Err(e);
        },
    };
    let p = &predicted;
    let sums: RegressionSums = (judge.sum)(y, p);
    let mse: Option<u64> = if fitted.has_mse {
        Some(sums.mse)
    } else {
        None
    };
    let r2: Option<u64> = if fitted.has_r2 {
        Some(explained(&sums, &judge.explain))
    } else {
        None
    };
    let score = FoldScore { mse, r2 };
    proof {
        assert(scalar::rows_predicted(judge.predict, fitted.model, json::rows_of(x@), Ok(predicted@)));
        assert(call_ensures(judge.sum, (y, p), sums));
        assert(metrics::are_sums(judge.sum, y@, predicted@, sums));
        assert(scores_on(*judge, *fitted, json::rows_of(x@), y@, score));
    }
    Ok(score)
}

fn write_fold_message(f: usize, step: &str, problem: &str) -> (e: String)
    ensures
        e@ == fold_message(f as nat, step@, problem@),
{
    let mut e: String = "ml_cross_validate: fold ".to_owned();
    push_decimal(&mut e, f as u64);
    e.append(step);
    e.append(problem);
    e
}

/// Trains each fold on the samples that it does not leave out, and scores it on the
/// others.
pub fn run_folds<
    M,
    T: Fn(Algorithm, &Vec<Vec<u64>>, &Vec<u64>, &Vec<(String, u64)>) -> Result<Fitted<M>, String>,
    P: Fn(&M, &Vec<u64>) -> Result<u64, String>,
    S: Fn(&Vec<u64>, &Vec<u64>) -> RegressionSums,
    X: Fn(u64, u64) -> u64,
>(
    algorithm: Algorithm,
    x: &Vec<Vec<u64>>,
    y: &Vec<u64>,
    params: &Vec<(String, u64)>,
    k: usize,
    train: &T,
    judge: &Judge<P, S, X>,
) -> (r: Result<CrossValidation, String>)
    requires
        k >= 1,
        x@.len() == y@.len(),
        forall|a: &Vec<Vec<u64>>, b: &Vec<u64>, p: &Vec<(String, u64)>|
            call_requires(*train, (algorithm, a, b, p)),
        can_judge::<M, P, S, X>(*judge),
    ensures
        folds_run(
            *train,
            *judge,
            algorithm,
            json::rows_of(x@),
            y@,
            json::named_numbers(params@),
            k as nat,
            r,
        ),
{
    let ghost rows = json::rows_of(x@);
    let ghost given = json::named_numbers(params@);
    let mut folds: Vec<Fold> = Vec::new();
    let mut scored: usize = 0;
    let mut f: usize = 0;
    while f < k
        invariant
            k >= 1,
            x@.len() == y@.len(),
            rows == json::rows_of(x@),
            given == json::named_numbers(params@),
            forall|a: &Vec<Vec<u64>>, b: &Vec<u64>, p: &Vec<(String, u64)>|
                call_requires(*train, (algorithm, a, b, p)),
            can_judge::<M, P, S, X>(*judge),
            f <= k,
            folds@.len() == f,
            scored <= f,
            scored == scored_folds(folds@, f as nat),
            forall|g: int|
                0 <= g < f ==> fold_done(*train, *judge, algorithm, rows, y@, given, k as int, g, #[trigger] folds@[g]),
        decreases k - f,
    {
        let parts: Split = split_fold(x, y, k, f);
        let answer: Result<Fitted<M>, String> = train(algorithm, &parts.train_x, &parts.train_y, params);
        proof {
            let a = &parts.train_x;
            let b = &parts.train_y;
            let p = params;
            assert(call_ensures(*train, (algorithm, a, b, p), answer));
            assert(fold_model(*train, algorithm, rows, y@, given, k as int, f as int, answer));
            assert forall|h: int| 0 <= h < f implies #[trigger] fold_passes(
                *train,
                *judge,
                algorithm,
                rows,
                y@,
                given,
                k as int,
                h,
            ) by {
                assert(fold_done(*train, *judge, algorithm, rows, y@, given, k as int, h, folds@[h]));
            }
        }
        let fitted: Fitted<M> = match answer {
            Ok(fitted) => fitted,
            Err(message) => {
                let e: String = write_fold_message(f, " training failed: ", message.as_str());
                assert(fold_model(*train, algorithm, rows, y@, given, k as int, f as int, Err(message)));
                assert(first_failure(*train, *judge, algorithm, rows, y@, given, k as int, f as nat, e@));
                assert(run_fails(*train, *judge, algorithm, rows, y@, given, k as nat, e@));
                return Err(e);
            },
        };
        let ending: Result<FoldScore, String> = judge_model(judge, &fitted, &parts.held_x, &parts.held_y);
        assert(fold_judged(*train, *judge, algorithm, rows, y@, given, k as int, f as int, ending)) by {
            assert(fold_model(*train, algorithm, rows, y@, given, k as int, f as int, Ok(fitted)));
        }
        match ending {
            Ok(score) => {
                let fold = Fold { fold: f, samples: parts.held_x.len(), score };
                let ghost before = folds@;
                folds.push(fold);
                if score.mse.is_some() || score.r2.is_some() {
                    scored = scored + 1;
                }
                proof {
                    lemma_scored_prefix(before, folds@, f as nat);
                }
            },
            Err(message) => {
                let e: String = write_fold_message(f, " prediction failed: ", message.as_str());
                assert(fold_judged(*train, *judge, algorithm, rows, y@, given, k as int, f as int, Err(message)));
                assert(first_failure(*train, *judge, algorithm, rows, y@, given, k as int, f as nat, e@));
                assert(run_fails(*train, *judge, algorithm, rows, y@, given, k as nat, e@));
                return Err(e);
            },
        }
        f = f + 1;
    }
    Ok(CrossValidation { algorithm, k, folds, scored })
}

proof fn lemma_scored_prefix(before: Seq<Fold>, after: Seq<Fold>, n: nat)
    requires
        n <= before.len(),
        n <= after.len(),
        forall|i: int| 0 <= i < n ==> before[i] == after[i],
    ensures
        scored_folds(before, n) == scored_folds(after, n),
    decreases n,
{
    if n > 0 {
        lemma_scored_prefix(before, after, (n - 1) as nat);
    }
}

/// Runs k-fold cross validation: fold `f` leaves out the samples whose number
/// leaves the remainder `f` when divided by `k`, so that the same input always
/// gives the same folds. `train` trains a model on the rest, and `judge` scores it on
/// the samples that were left out.
pub fn cross_validate_from_json<
    M,
    T: Fn(Algorithm, &Vec<Vec<u64>>, &Vec<u64>, &Vec<(String, u64)>) -> Result<Fitted<M>, String>,
    P: Fn(&M, &Vec<u64>) -> Result<u64, String>,
    S: Fn(&Vec<u64>, &Vec<u64>) -> RegressionSums,
    X: Fn(u64, u64) -> u64,
>(
    algorithm_str: &str,
    features_json: &str,
    targets_json: &str,
    params_json: &str,
    k: usize,
    train: &T,
    judge: &Judge<P, S, X>,
) -> (r: Result<CrossValidation, String>)
    requires
        forall|g: Algorithm, a: &Vec<Vec<u64>>, b: &Vec<u64>, p: &Vec<(String, u64)>|
            call_requires(*train, (g, a, b, p)),
        can_judge::<M, P, S, X>(*judge),
    ensures
        cv_outcome(
            *train,
            *judge,
            algorithm_str@,
            json::table_read(features_json@),
            json::numbers_read(targets_json@),
            cv_params(params_json@),
            k as nat,
            r,
        ),
{
    let algorithm: Algorithm = match Algorithm::parse_algorithm(algorithm_str) {
        Some(algorithm) => algorithm,
        None => {
            let mut e: String = "ml_cross_validate: unknown algorithm '".to_owned();
            e.append(algorithm_str);
            e.append("'");
            return Err(e);
        },
    };
    let x: Vec<Vec<u64>> = match parse_table(features_json) {
        Ok(x) => x,
        Err(message) => {
            let mut e: String = "ml_cross_validate: bad features JSON: ".to_owned();
            e.append(message.as_str());
            return Err(e);
        },
    };
    let y: Vec<u64> = match parse_numbers(targets_json) {
        Ok(y) => y,
        Err(message) => {
            let mut e: String = "ml_cross_validate: bad targets JSON: ".to_owned();
            e.append(message.as_str());
            return Err(e);
        },
    };
    if x.len() == 0 {
        return Err("ml_cross_validate: empty dataset".to_owned());
    }
    if x.len() != y.len() {
        let mut e: String = "ml_cross_validate: length mismatch: ".to_owned();
        push_decimal(&mut e, x.len() as u64);
        e.append(" features vs ");
        push_decimal(&mut e, y.len() as u64);
        e.append(" targets");
        return Err(e);
    }
    if k < 2 || k > x.len() {
        let mut e: String = "ml_cross_validate: k must be in [2, ".to_owned();
        push_decimal(&mut e, x.len() as u64);
        e.append("], got ");
        push_decimal(&mut e, k as u64);
        return Err(e);
    }
    let given: String = trim(params_json);
    let params: Vec<(String, u64)> = if is_empty_text(params_json) || text_eq(given.as_str(), "null") {
        let none: Vec<(String, u64)> = Vec::new();
        assert(json::named_numbers(none@) =~= Seq::empty());
        none
    } else {
        match parse_params(params_json) {
            Ok(params) => params,
            Err(message) => {
                let mut e: String = "ml_cross_validate: bad params JSON: ".to_owned();
                e.append(message.as_str());
                return Err(e);
            },
        }
    };
    run_folds(algorithm, &x, &y, &params, k, train, judge)
}

/// The `ml_cross_validate` function.
pub struct CrossValidateFn;

/// One row of arguments of [`CrossValidateFn`]; a missing value is a null.
#[derive(Debug, PartialEq, Eq)]
pub struct CvRow {
    pub algorithm: Option<String>,
    pub features: Option<String>,
    pub targets: Option<String>,
    pub params: Option<String>,
}

impl CvRow {
    /// A required argument is null.
    pub open spec fn has_null(self) -> bool {
        self.algorithm is None || self.features is None || self.targets is None
    }

    /// The text of the hyperparameters; `null` where there is none.
    pub open spec fn params_text(self) -> Seq<char> {
        match self.params {
            Some(p) => p@,
            None => "null"@,
        }
    }
}

/// What one row without nulls gives.
pub open spec fn cv_row_outcome<
    M,
    T: Fn(Algorithm, &Vec<Vec<u64>>, &Vec<u64>, &Vec<(String, u64)>) -> Result<Fitted<M>, String>,
    P: Fn(&M, &Vec<u64>) -> Result<u64, String>,
    S: Fn(&Vec<u64>, &Vec<u64>) -> RegressionSums,
    X: Fn(u64, u64) -> u64,
>(row: CvRow, k: usize, train: T, judge: Judge<P, S, X>, r: Result<CrossValidation, String>) -> bool {
    cv_outcome(
        train,
        judge,
        row.algorithm->0@,
        json::table_read(row.features->0@),
        json::numbers_read(row.targets->0@),
        cv_params(row.params_text()),
        k as nat,
        r,
    )
}

/// A row does not fail: it has a null, or it gives a result.
pub open spec fn cv_row_passes<
    M,
    T: Fn(Algorithm, &Vec<Vec<u64>>, &Vec<u64>, &Vec<(String, u64)>) -> Result<Fitted<M>, String>,
    P: Fn(&M, &Vec<u64>) -> Result<u64, String>,
    S: Fn(&Vec<u64>, &Vec<u64>) -> RegressionSums,
    X: Fn(u64, u64) -> u64,
>(row: CvRow, k: usize, train: T, judge: Judge<P, S, X>) -> bool {
    row.has_null() || exists|result: CrossValidation| #[trigger] cv_row_outcome(row, k, train, judge, Ok(result))
}

impl CrossValidateFn {
    /// The number of folds where the caller does not say.
    pub fn default_folds() -> (k: usize)
        ensures
            k == 5,
    {
        5
    }

    /// Validates each row with `k` folds. A row with a null gives a null; the
    /// first row that fails fails the call; four or five arguments are wanted.
    pub fn invoke<
        M,
        T: Fn(Algorithm, &Vec<Vec<u64>>, &Vec<u64>, &Vec<(String, u64)>) -> Result<Fitted<M>, String>,
        P: Fn(&M, &Vec<u64>) -> Result<u64, String>,
        S: Fn(&Vec<u64>, &Vec<u64>) -> RegressionSums,
        X: Fn(u64, u64) -> u64,
    >(columns: usize, rows: &Vec<CvRow>, k: usize, train: &T, judge: &Judge<P, S, X>) -> (r: Result<
        Vec<Option<CrossValidation>>,
        String,
    >)
        requires
            forall|g: Algorithm, a: &Vec<Vec<u64>>, b: &Vec<u64>, p: &Vec<(String, u64)>|
                call_requires(*train, (g, a, b, p)),
            can_judge::<M, P, S, X>(*judge),
        ensures
            !(4 <= columns <= 5) ==> (r matches Err(e) && e@
                == "ml_cross_validate requires 4..5 args: algorithm, features, targets, params[, k]"@),
            4 <= columns <= 5 ==> match r {
                Ok(out) => out@.len() == rows@.len() && forall|i: int|
                    #![trigger out@[i]]
                    0 <= i < out@.len() ==> match out@[i] {
                        None => rows@[i].has_null(),
                        Some(result) => !rows@[i].has_null() && cv_row_outcome(rows@[i], k, *train, *judge, Ok(result)),
                    },
                Err(e) => exists|i: int|
                    0 <= i < rows@.len() && !(#[trigger] rows@[i]).has_null() && cv_row_outcome(
                        rows@[i],
                        k,
                        *train,
                        *judge,
                        Err(e),
                    ) && forall|j: int| 0 <= j < i ==> #[trigger] cv_row_passes(rows@[j], k, *train, *judge),
            },
    {
        if columns < 4 || columns > 5 {
            return Err("ml_cross_validate requires 4..5 args: algorithm, features, targets, params[, k]".to_owned());
        }
        let mut out: Vec<Option<CrossValidation>> = Vec::new();
        let mut i: usize = 0;
        while i < rows.len()
            invariant
                forall|g: Algorithm, a: &Vec<Vec<u64>>, b: &Vec<u64>, p: &Vec<(String, u64)>|
                    call_requires(*train, (g, a, b, p)),
                can_judge::<M, P, S, X>(*judge),
                4 <= columns <= 5,
                i <= rows@.len(),
                out@.len() == i,
                forall|x: int|
                    #![trigger out@[x]]
                    0 <= x < i ==> match out@[x] {
                        None => rows@[x].has_null(),
                        Some(result) => !rows@[x].has_null() && cv_row_outcome(rows@[x], k, *train, *judge, Ok(result)),
                    },
            decreases rows.len() - i,
        {
            let row: &CvRow = &rows[i];
            match (&row.algorithm, &row.features, &row.targets) {
                (Some(algorithm), Some(features), Some(targets)) => {
                    let params: String = match &row.params {
                        Some(p) => p.clone(),
                        None => "null".to_owned(),
                    };
                    assert(params@ == rows@[i as int].params_text());
                    match cross_validate_from_json(
                        algorithm.as_str(),
                        features.as_str(),
                        targets.as_str(),
                        params.as_str(),
                        k,
                        train,
                        judge,
                    ) {
                        Ok(result) => {
                            out.push(Some(result));
                        },
                        Err(e) => {
                            proof {
                                assert forall|j: int| 0 <= j < i implies #[trigger] cv_row_passes(
                                    rows@[j],
                                    k,
                                    *train,
                                    *judge,
                                ) by {
                                    assert(out@[j] is None || out@[j] is Some);
                                }
                                assert(!rows@[i as int].has_null());
                            }
                            return Err(e);
                        },
                    }
                },
                _ => {
                    out.push(None);
                },
            }
            i = i + 1;
        }
        Ok(out)
    }
}

} // verus!
