//! What results look like when they are written.

use vstd::prelude::*;
use crate::assoc_rules;
use crate::assoc_rules::{AssocResult, Rule};
use crate::cross_validate::{CrossValidation, Fold};
use crate::embed::SimilarityResult;
use crate::json;
use crate::laws::prediction;
use crate::metrics;
use crate::metrics::{Auc, BinaryCounts, BinaryRates, RegressionSums};
use crate::mining::names;
use crate::model::types;
use crate::report;
use crate::report::{write_assoc, write_binary, write_regression, write_similarity, write_validation};
use crate::scalar;
use crate::scalar::{write_report, write_smote, OlsReport, Smote};
use crate::text;

verus! {

/// A number is written as the given function has it.
pub open spec fn is_writing<W: Fn(u64) -> String>(write: W, w: spec_fn(u64) -> Seq<char>) -> bool {
    forall|x: u64, s: String| #[trigger] call_ensures(write, (x,), s) ==> s@ == w(x)
}

/// A number, or the word for none.
pub open spec fn number_or_null(w: spec_fn(u64) -> Seq<char>, x: Option<u64>) -> Seq<char> {
    match x {
        Some(x) => w(x),
        None => "null"@,
    }
}

/// The array of some texts.
pub open spec fn array(parts: Seq<Seq<char>>) -> Seq<char> {
    seq!['['] + prediction::parts_text(parts) + seq![']']
}

/// The array of some numbers.
pub open spec fn numbers(w: spec_fn(u64) -> Seq<char>, v: Seq<u64>) -> Seq<char> {
    array(Seq::new(v.len(), |i: int| w(v[i])))
}

/// The array of some names in quotes.
pub open spec fn quoted_names(v: Seq<String>) -> Seq<char> {
    array(Seq::new(v.len(), |i: int| json::json_quoted(v[i]@)))
}

/// The word for a truth value.
pub open spec fn truth(b: bool) -> Seq<char> {
    if b {
        "true"@
    } else {
        "false"@
    }
}

proof fn lemma_array(parts: Seq<Seq<char>>)
    ensures
        scalar::array_text(parts) == array(parts),
{
    prediction::lemma_array(parts);
}

proof fn lemma_numbers<W: Fn(u64) -> String>(write: W, w: spec_fn(u64) -> Seq<char>, v: Seq<u64>, out: Seq<char>)
    requires
        is_writing(write, w),
        scalar::numbers_json(write, v, out),
    ensures
        out == numbers(w, v),
{
    let parts = choose|parts: Seq<Seq<char>>| #[trigger]
        scalar::writes_all(write, v, parts) && out == scalar::array_text(parts);
    assert forall|i: int| 0 <= i < v.len() implies parts[i] == w(v[i]) by {
        assert(scalar::writes(write, v[i], parts[i]));
    }
    assert(parts =~= Seq::new(v.len(), |i: int| w(v[i])));
    lemma_array(parts);
}

proof fn lemma_names(v: Seq<String>)
    ensures
        report::names_text(text::texts(v)) == quoted_names(v),
{
    let parts = scalar::quoted_all(text::texts(v));
    assert(parts =~= Seq::new(v.len(), |i: int| json::json_quoted(v[i]@)));
    lemma_array(parts);
}

/// A report of a fit names the coefficients, the intercept, the error, the numbers of
/// features and samples, and what is explained.
pub proof fn law_fit_is_written<W: Fn(u64) -> String>(
    r: &OlsReport,
    write: &W,
    out: String,
    w: spec_fn(u64) -> Seq<char>,
)
    requires
        call_ensures(write_report::<W>, (r, write), out),
        is_writing(*write, w),
    ensures
        out@ == "{\"coefficients\":"@ + numbers(w, r.coefficients@) + ",\"intercept\":"@ + w(r.intercept)
            + ",\"mse\":"@ + number_or_null(w, r.mse) + ",\"n_features\":"@ + text::decimal(r.n_features as nat)
            + ",\"n_samples\":"@ + text::decimal(r.n_samples as nat) + ",\"r_squared\":"@ + number_or_null(
            w,
            r.r_squared,
        ) + "}"@,
{
    let (coefficients, intercept, mse, r_squared) = choose|
        coefficients: Seq<char>,
        intercept: Seq<char>,
        mse: Seq<char>,
        r_squared: Seq<char>,
    | #[trigger]
        scalar::numbers_json(*write, r.coefficients@, coefficients) && #[trigger] scalar::writes(
            *write,
            r.intercept,
            intercept,
        ) && #[trigger] scalar::writes_option(*write, r.mse, mse) && #[trigger] scalar::writes_option(
            *write,
            r.r_squared,
            r_squared,
        ) && out@ == scalar::report_text(
            coefficients,
            intercept,
            mse,
            r.n_features as nat,
            r.n_samples as nat,
            r_squared,
        );
    lemma_numbers(*write, w, r.coefficients@, coefficients);
}

/// New samples are written with the numbers before and after, the label, the rows and
/// their labels.
pub proof fn law_samples_are_written<W: Fn(u64) -> String>(
    s: &Smote,
    write: &W,
    out: String,
    w: spec_fn(u64) -> Seq<char>,
)
    requires
        call_ensures(write_smote::<W>, (s, write), out),
        is_writing(*write, w),
    ensures
        out@ == "{\"after\":"@ + text::decimal(s.total_after as nat) + ",\"before\":"@ + text::decimal(
            s.total_before as nat,
        ) + ",\"minority\":"@ + w(s.minority_label) + ",\"x\":"@ + array(
            Seq::new(s.synthetic_x@.len(), |i: int| numbers(w, s.synthetic_x@[i]@)),
        ) + ",\"y\":"@ + numbers(w, s.synthetic_y@) + "}"@,
{
    let rows = json::rows_of(s.synthetic_x@);
    let (minority, x, y) = choose|minority: Seq<char>, x: Seq<char>, y: Seq<char>| #[trigger]
        scalar::writes(*write, s.minority_label, minority) && #[trigger] scalar::table_json(*write, rows, x)
            && #[trigger] scalar::numbers_json(*write, s.synthetic_y@, y) && out@ == scalar::smote_text(
            s.total_after as nat,
            s.total_before as nat,
            minority,
            x,
            y,
        );
    lemma_numbers(*write, w, s.synthetic_y@, y);
    let parts = choose|parts: Seq<Seq<char>>| #[trigger]
        scalar::writes_rows(*write, rows, parts) && x == scalar::array_text(parts);
    assert forall|i: int| 0 <= i < rows.len() implies parts[i] == numbers(w, s.synthetic_x@[i]@) by {
        assert(scalar::numbers_json(*write, rows[i], parts[i]));
        lemma_numbers(*write, w, rows[i], parts[i]);
    }
    assert(parts =~= Seq::new(s.synthetic_x@.len(), |i: int| numbers(w, s.synthetic_x@[i]@)));
    lemma_array(parts);
}

/// A rule is written with its sides and its measures.
pub open spec fn rule_text(w: spec_fn(u64) -> Seq<char>, rule: Rule) -> Seq<char> {
    "{\"antecedent\":"@ + quoted_names(rule.antecedent@) + ",\"confidence\":"@ + w(rule.confidence)
        + ",\"consequent\":"@ + quoted_names(rule.consequent@) + ",\"lift\":"@ + w(rule.lift) + ",\"support\":"@ + w(
        rule.support,
    ) + "}"@
}

/// An itemset is written with its share of the transactions.
pub open spec fn itemset_text(
    w: spec_fn(u64) -> Seq<char>,
    part: spec_fn(u64, u64) -> u64,
    set: (Vec<String>, u64),
    n: u64,
) -> Seq<char> {
    "{\"items\":"@ + quoted_names(set.0@) + ",\"support\":"@ + w(part(set.1, n)) + "}"@
}

/// A run is written with its itemsets, its rules and its numbers.
pub proof fn law_run_is_written<Q: Fn(u64, u64) -> u64, W: Fn(u64) -> String>(
    result: &AssocResult,
    share: &Q,
    write: &W,
    out: String,
    part: spec_fn(u64, u64) -> u64,
    w: spec_fn(u64) -> Seq<char>,
)
    requires
        call_ensures(write_assoc::<Q, W>, (result, share, write), out),
        is_writing(*write, w),
        forall|a: u64, b: u64, x: u64| #[trigger] call_ensures(*share, (a, b), x) ==> x == part(a, b),
    ensures
        out@ == "{\"frequent_itemsets\":"@ + array(
            Seq::new(
                result.frequent_itemsets@.len(),
                |i: int| itemset_text(w, part, result.frequent_itemsets@[i], result.transactions),
            ),
        ) + ",\"rules\":"@ + array(Seq::new(result.rules@.len(), |i: int| rule_text(w, result.rules@[i])))
            + ",\"stats\":{\"cancelled\":"@ + truth(result.cancelled) + ",\"candidates\":"@ + text::decimal(
            result.candidates as nat,
        ) + ",\"rules\":"@ + text::decimal(result.rules@.len()) + ",\"transactions\":"@ + text::decimal(
            result.transactions as nat,
        ) + ",\"truncated\":"@ + truth(result.truncated) + "}}"@,
{
    let sets = names::text_listing(result.frequent_itemsets@);
    let views = assoc_rules::rule_views(result.rules@);
    let n = result.transactions;
    let (itemsets, rules) = choose|itemsets: Seq<char>, rules: Seq<char>| #[trigger]
        report::itemsets_json(*share, *write, sets, n, itemsets) && #[trigger] report::rules_json(*write, views, rules)
            && out@ == report::assoc_text(
            itemsets,
            rules,
            result.cancelled,
            result.candidates as nat,
            result.rules@.len(),
            result.transactions as nat,
            result.truncated,
        );
    let set_parts = choose|parts: Seq<Seq<char>>| #[trigger]
        report::writes_itemsets(*share, *write, sets, n, parts) && itemsets == scalar::array_text(parts);
    assert forall|i: int| 0 <= i < sets.len() implies set_parts[i] == itemset_text(
        w,
        part,
        result.frequent_itemsets@[i],
        n,
    ) by {
        assert(report::itemset_json(*share, *write, sets[i].0, sets[i].1, n, set_parts[i]));
        lemma_names(result.frequent_itemsets@[i].0@);
    }
    assert(set_parts =~= Seq::new(
        result.frequent_itemsets@.len(),
        |i: int| itemset_text(w, part, result.frequent_itemsets@[i], result.transactions),
    ));
    lemma_array(set_parts);
    let rule_parts = choose|parts: Seq<Seq<char>>| #[trigger]
        report::writes_rules(*write, views, parts) && rules == scalar::array_text(parts);
    assert forall|i: int| 0 <= i < views.len() implies rule_parts[i] == rule_text(w, result.rules@[i]) by {
        assert(report::rule_json(*write, views[i], rule_parts[i]));
        lemma_names(result.rules@[i].antecedent@);
        lemma_names(result.rules@[i].consequent@);
    }
    assert(rule_parts =~= Seq::new(result.rules@.len(), |i: int| rule_text(w, result.rules@[i])));
    lemma_array(rule_parts);
}

/// A scan is written with its best rows, each with its id and its score, and with
/// what was looked at and what was skipped.
pub proof fn law_scan_is_written<W: Fn(u32) -> String>(
    result: &SimilarityResult,
    write: &W,
    out: String,
    w: spec_fn(u32) -> Seq<char>,
)
    requires
        call_ensures(write_similarity::<W>, (result, write), out),
        forall|x: u32, s: String| #[trigger] call_ensures(*write, (x,), s) ==> s@ == w(x),
    ensures
        out@ == "{\"cancelled\":"@ + truth(result.cancelled) + ",\"results\":"@ + array(
            Seq::new(
                result.results@.len(),
                |i: int|
                    "{\"row_id\":"@ + json::json_text(result.results@[i].row_id@) + ",\"score\":"@ + w(
                        result.results@[i].score,
                    ) + "}"@,
            ),
        ) + ",\"scanned\":"@ + text::decimal(result.scanned as nat) + ",\"skipped_bad_len\":"@ + text::decimal(
            result.skipped_bad_len as nat,
        ) + ",\"skipped_dim\":"@ + text::decimal(result.skipped_dim as nat) + ",\"skipped_null\":"@ + text::decimal(
            result.skipped_null as nat,
        ) + "}"@,
{
    let views = report::row_views(result.results@);
    let rows = choose|rows: Seq<char>| #[trigger]
        report::scored_json(*write, views, rows) && out@ == "{\"cancelled\":"@ + report::bool_text(result.cancelled)
            + ",\"results\":"@ + rows + ",\"scanned\":"@ + text::decimal(result.scanned as nat)
            + ",\"skipped_bad_len\":"@ + text::decimal(result.skipped_bad_len as nat) + ",\"skipped_dim\":"@
            + text::decimal(result.skipped_dim as nat) + ",\"skipped_null\":"@ + text::decimal(
            result.skipped_null as nat,
        ) + "}"@;
    let parts = choose|parts: Seq<Seq<char>>| #[trigger]
        report::writes_scored(*write, views, parts) && rows == scalar::array_text(parts);
    let wanted = Seq::new(
        result.results@.len(),
        |i: int|
            "{\"row_id\":"@ + json::json_text(result.results@[i].row_id@) + ",\"score\":"@ + w(
                result.results@[i].score,
            ) + "}"@,
    );
    assert forall|i: int| 0 <= i < views.len() implies parts[i] == wanted[i] by {
        assert(report::row_json(*write, views[i], parts[i]));
        let s = choose|s: String| #[trigger]
            call_ensures(*write, (views[i].score,), s) && parts[i] == "{\"row_id\":"@ + json::json_text(views[i].row_id)
                + ",\"score\":"@ + s@ + "}"@;
        assert(views[i] == result.results@[i]@);
    }
    assert(parts =~= wanted);
    lemma_array(parts);
}

/// The measures of two classes are written by their names, with the counts.
pub proof fn law_rates_are_written<
    R: Fn(usize, usize) -> u64,
    H: Fn(u64, u64) -> u64,
    A: Fn(Auc) -> u64,
    W: Fn(u64) -> String,
>(
    c: &BinaryCounts,
    ratio: &R,
    harmonic: &H,
    area: &A,
    write: &W,
    out: String,
    w: spec_fn(u64) -> Seq<char>,
) -> (rates: BinaryRates)
    requires
        call_ensures(write_binary::<R, H, A, W>, (c, ratio, harmonic, area, write), out),
        is_writing(*write, w),
    ensures
        metrics::are_rates(*ratio, *harmonic, *area, *c, rates),
        out@ == "{\"accuracy\":"@ + w(rates.accuracy) + ",\"confusion_matrix\":{\"fn\":"@ + text::decimal(c.fn_ as nat)
            + ",\"fp\":"@ + text::decimal(c.fp as nat) + ",\"tn\":"@ + text::decimal(c.tn as nat) + ",\"tp\":"@
            + text::decimal(c.tp as nat) + "},\"f1\":"@ + w(rates.f1) + ",\"precision\":"@ + w(rates.precision)
            + ",\"recall\":"@ + w(rates.recall) + ",\"roc_auc\":"@ + number_or_null(w, rates.roc_auc)
            + ",\"task\":\"binary\"}"@,
{
    let rates = choose|rates: BinaryRates| #[trigger]
        metrics::are_rates(*ratio, *harmonic, *area, *c, rates) && report::rates_json(*write, *c, rates, out@);
    rates
}

/// The errors of numbers are written by their names.
pub proof fn law_errors_are_written<
    S: Fn(&Vec<u64>, &Vec<u64>) -> RegressionSums,
    X: Fn(u64, u64) -> u64,
    W: Fn(u64) -> String,
>(
    actual: &Vec<u64>,
    predicted: &Vec<u64>,
    sum: &S,
    explain: &X,
    write: &W,
    out: String,
    w: spec_fn(u64) -> Seq<char>,
    total: spec_fn(Seq<u64>, Seq<u64>) -> RegressionSums,
) -> (r2: u64)
    requires
        call_ensures(write_regression::<S, X, W>, (actual, predicted, sum, explain, write), out),
        is_writing(*write, w),
        forall|a: &Vec<u64>, p: &Vec<u64>, s: RegressionSums| #[trigger]
            call_ensures(*sum, (a, p), s) ==> s == total(a@, p@),
    ensures
        metrics::is_explained(*explain, total(actual@, predicted@), r2),
        out@ == "{\"mae\":"@ + w(total(actual@, predicted@).mae) + ",\"mse\":"@ + w(total(actual@, predicted@).mse)
            + ",\"r2\":"@ + w(r2) + ",\"rmse\":"@ + w(total(actual@, predicted@).rmse)
            + ",\"task\":\"regression\"}"@,
{
    let (sums, r2) = choose|sums: RegressionSums, r2: u64| #[trigger]
        metrics::are_sums(*sum, actual@, predicted@, sums) && #[trigger] metrics::is_explained(*explain, sums, r2)
            && report::errors_json(*write, sums, r2, out@);
    r2
}

/// A fold is written with its number, its score and its samples.
pub open spec fn fold_text(w: spec_fn(u64) -> Seq<char>, fold: Fold) -> Seq<char> {
    "{\"fold\":"@ + text::decimal(fold.fold as nat) + ",\"mse\":"@ + number_or_null(w, fold.score.mse) + ",\"r2\":"@
        + number_or_null(w, fold.score.r2) + ",\"samples\":"@ + text::decimal(fold.samples as nat) + "}"@
}

/// The numbers among some options, in order.
pub open spec fn given(v: Seq<Option<u64>>) -> Seq<u64> {
    v.filter(|x: Option<u64>| x is Some).map_values(|x: Option<u64>| x->0)
}

proof fn lemma_given(v: Seq<Option<u64>>)
    ensures
        report::present(v) == given(v),
    decreases v.len(),
{
    reveal(Seq::filter);
    let f = |x: Option<u64>| x is Some;
    if v.len() == 0 {
        assert(given(v) =~= Seq::empty());
    } else {
        lemma_given(v.drop_last());
        if v.last() is Some {
            assert(v.filter(f) == v.drop_last().filter(f).push(v.last()));
            assert(given(v) =~= given(v.drop_last()).push(v.last()->0));
        } else {
            assert(v.filter(f) == v.drop_last().filter(f));
        }
    }
}

/// The mean of the numbers among some options over the number of scored folds, or
/// none where no fold is scored.
pub open spec fn mean_text(
    w: spec_fn(u64) -> Seq<char>,
    average: spec_fn(Seq<u64>, usize) -> u64,
    v: Seq<Option<u64>>,
    scored: usize,
) -> Seq<char> {
    if scored == 0 {
        "null"@
    } else {
        w(average(given(v), scored))
    }
}

proof fn lemma_mean<E: Fn(&Vec<u64>, usize) -> u64, W: Fn(u64) -> String>(
    mean: E,
    write: W,
    average: spec_fn(Seq<u64>, usize) -> u64,
    w: spec_fn(u64) -> Seq<char>,
    v: Seq<Option<u64>>,
    scored: usize,
    out: Seq<char>,
)
    requires
        report::mean_json(mean, write, v, scored, out),
        is_writing(write, w),
        forall|a: &Vec<u64>, n: usize, x: u64| #[trigger] call_ensures(mean, (a, n), x) ==> x == average(a@, n),
    ensures
        out == mean_text(w, average, v, scored),
{
    lemma_given(v);
    let x = choose|x: Option<u64>| #[trigger]
        report::is_mean(mean, v, scored, x) && scalar::writes_option(write, x, out);
}

/// A validation is written with its algorithm, its folds in order and the means of
/// their scores.
pub proof fn law_validation_is_written<E: Fn(&Vec<u64>, usize) -> u64, W: Fn(u64) -> String>(
    cv: &CrossValidation,
    mean: &E,
    write: &W,
    out: String,
    average: spec_fn(Seq<u64>, usize) -> u64,
    w: spec_fn(u64) -> Seq<char>,
)
    requires
        call_ensures(write_validation::<E, W>, (cv, mean, write), out),
        is_writing(*write, w),
        forall|a: &Vec<u64>, n: usize, x: u64| #[trigger] call_ensures(*mean, (a, n), x) ==> x == average(a@, n),
    ensures
        out@ == "{\"algorithm\":"@ + json::json_quoted(types::name_of(cv.algorithm)) + ",\"folds\":"@ + array(
            Seq::new(cv.folds@.len(), |i: int| fold_text(w, cv.folds@[i])),
        ) + ",\"k\":"@ + text::decimal(cv.k as nat) + ",\"mean_mse\":"@ + mean_text(
            w,
            average,
            Seq::new(cv.folds@.len(), |i: int| cv.folds@[i].score.mse),
            cv.scored,
        ) + ",\"mean_r2\":"@ + mean_text(
            w,
            average,
            Seq::new(cv.folds@.len(), |i: int| cv.folds@[i].score.r2),
            cv.scored,
        ) + "}"@,
{
    let errors = report::fold_errors(cv.folds@);
    let shares = report::fold_shares(cv.folds@);
    let (folds, mean_mse, mean_r2) = choose|folds: Seq<char>, mean_mse: Seq<char>, mean_r2: Seq<char>| #[trigger]
        report::folds_json(*write, cv.folds@, folds) && #[trigger] report::mean_json(
            *mean,
            *write,
            errors,
            cv.scored,
            mean_mse,
        ) && #[trigger] report::mean_json(*mean, *write, shares, cv.scored, mean_r2) && out@ == report::validation_text(
            types::name_of(cv.algorithm),
            folds,
            cv.k as nat,
            mean_mse,
            mean_r2,
        );
    lemma_mean(*mean, *write, average, w, errors, cv.scored, mean_mse);
    lemma_mean(*mean, *write, average, w, shares, cv.scored, mean_r2);
    assert(errors =~= Seq::new(cv.folds@.len(), |i: int| cv.folds@[i].score.mse));
    assert(shares =~= Seq::new(cv.folds@.len(), |i: int| cv.folds@[i].score.r2));
    let parts = choose|parts: Seq<Seq<char>>| #[trigger]
        report::writes_folds(*write, cv.folds@, parts) && folds == scalar::array_text(parts);
    assert forall|i: int| 0 <= i < cv.folds@.len() implies parts[i] == fold_text(w, cv.folds@[i]) by {
        assert(report::fold_json(*write, cv.folds@[i], parts[i]));
    }
    assert(parts =~= Seq::new(cv.folds@.len(), |i: int| fold_text(w, cv.folds@[i])));
    lemma_array(parts);
}

} // verus!
