//! The JSON texts of results. The numbers stand as the caller writes them, and the
//! keys of an object stand in alphabetical order.

use vstd::prelude::*;
use crate::assoc_rules;
use crate::assoc_rules::{AssocResult, Rule, RuleView};
use crate::cross_validate::{CrossValidation, Fold};
use crate::embed::{RowView, ScoredRow, SimilarityResult};
use crate::json;
use crate::json::{quote_text, render_json};
use crate::metrics;
use crate::metrics::{explained, rate_counts, Auc, BinaryCounts, BinaryRates, RegressionSums};
use crate::mining::names;
use crate::model::types;
use crate::scalar;
use crate::scalar::{quote_texts, write_array, write_option, write_value};
use crate::text;
use crate::text::push_decimal;

verus! {

/// A truth value in JSON.
pub open spec fn bool_text(b: bool) -> Seq<char> {
    if b {
        "true"@
    } else {
        "false"@
    }
}

fn push_bool(out: &mut String, b: bool)
    ensures
        final(out)@ == old(out)@ + bool_text(b),
{
    if b {
        out.append("true");
    } else {
        out.append("false");
    }
}

/// A JSON array of texts.
pub open spec fn names_text(v: Seq<Seq<char>>) -> Seq<char> {
    scalar::array_text(scalar::quoted_all(v))
}

fn write_names(v: &Vec<String>) -> (r: String)
    ensures
        r@ == names_text(text::texts(v@)),
{
    write_array(&quote_texts(v))
}

// Association rules.

/// The JSON text of a rule.
pub open spec fn rule_text(
    antecedent: Seq<Seq<char>>,
    confidence: Seq<char>,
    consequent: Seq<Seq<char>>,
    lift: Seq<char>,
    support: Seq<char>,
) -> Seq<char> {
    "{\"antecedent\":"@ + names_text(antecedent) + ",\"confidence\":"@ + confidence + ",\"consequent\":"@ + names_text(
        consequent,
    ) + ",\"lift\":"@ + lift + ",\"support\":"@ + support + "}"@
}

/// The text is the JSON of a rule.
pub open spec fn rule_json<W: Fn(u64) -> String>(write: W, rule: RuleView, out: Seq<char>) -> bool {
    exists|confidence: Seq<char>, lift: Seq<char>, support: Seq<char>| #[trigger]
        scalar::writes(write, rule.measures.confidence, confidence) && #[trigger] scalar::writes(
            write,
            rule.measures.lift,
            lift,
        ) && #[trigger] scalar::writes(write, rule.measures.support, support) && out == rule_text(
            rule.antecedent,
            confidence,
            rule.consequent,
            lift,
            support,
        )
}

fn write_rule<W: Fn(u64) -> String>(rule: &Rule, write: &W) -> (r: String)
    requires
        forall|x: u64| call_requires(*write, (x,)),
    ensures
        rule_json(*write, rule@, r@),
{
    let antecedent: String = write_names(&rule.antecedent);
    let confidence: String = write_value(rule.confidence, write);
    let consequent: String = write_names(&rule.consequent);
    let lift: String = write_value(rule.lift, write);
    let support: String = write_value(rule.support, write);
    let mut r: String = "{\"antecedent\":".to_owned();
    r.append(antecedent.as_str());
    r.append(",\"confidence\":");
    r.append(confidence.as_str());
    r.append(",\"consequent\":");
    r.append(consequent.as_str());
    r.append(",\"lift\":");
    r.append(lift.as_str());
    r.append(",\"support\":");
    r.append(support.as_str());
    r.append("}");
    proof {
        assert(scalar::writes(*write, rule@.measures.confidence, confidence@));
        assert(scalar::writes(*write, rule@.measures.lift, lift@));
        assert(scalar::writes(*write, rule@.measures.support, support@));
        assert(r@ == rule_text(rule@.antecedent, confidence@, rule@.consequent, lift@, support@));
    }
    r
}

/// The texts are the JSON of the rules.
pub open spec fn writes_rules<W: Fn(u64) -> String>(write: W, rules: Seq<RuleView>, parts: Seq<Seq<char>>) -> bool {
    &&& parts.len() == rules.len()
    &&& forall|i: int| 0 <= i < rules.len() ==> rule_json(write, rules[i], #[trigger] parts[i])
}

/// The text is a JSON array of rules.
pub open spec fn rules_json<W: Fn(u64) -> String>(write: W, rules: Seq<RuleView>, out: Seq<char>) -> bool {
    exists|parts: Seq<Seq<char>>| #[trigger] writes_rules(write, rules, parts) && out == scalar::array_text(parts)
}

fn write_rules<W: Fn(u64) -> String>(rules: &Vec<Rule>, write: &W) -> (r: String)
    requires
        forall|x: u64| call_requires(*write, (x,)),
    ensures
        rules_json(*write, assoc_rules::rule_views(rules@), r@),
{
    let mut parts: Vec<String> = Vec::new();
    let mut i: usize = 0;
    while i < rules.len()
        invariant
            forall|x: u64| call_requires(*write, (x,)),
            i <= rules@.len(),
            parts@.len() == i,
            forall|x: int| 0 <= x < i ==> rule_json(*write, rules@[x]@, (#[trigger] parts@[x])@),
        decreases rules.len() - i,
    {
        parts.push(write_rule(&rules[i], write));
        i = i + 1;
    }
    proof {
        assert forall|x: int| 0 <= x < rules@.len() implies rule_json(
            *write,
            assoc_rules::rule_views(rules@)[x],
            #[trigger] text::texts(parts@)[x],
        ) by {
            assert(text::texts(parts@)[x] == parts@[x]@);
        }
        assert(writes_rules(*write, assoc_rules::rule_views(rules@), text::texts(parts@)));
    }
    write_array(&parts)
}

/// The text is the JSON of an itemset that `count` of `n` transactions hold.
pub open spec fn itemset_json<Q: Fn(u64, u64) -> u64, W: Fn(u64) -> String>(
    share: Q,
    write: W,
    items: Seq<Seq<char>>,
    count: u64,
    n: u64,
    out: Seq<char>,
) -> bool {
    exists|x: u64, support: Seq<char>| #[trigger]
        call_ensures(share, (count, n), x) && #[trigger] scalar::writes(write, x, support) && out == "{\"items\":"@
            + names_text(items) + ",\"support\":"@ + support + "}"@
}

fn write_itemset<Q: Fn(u64, u64) -> u64, W: Fn(u64) -> String>(
    items: &Vec<String>,
    count: u64,
    n: u64,
    share: &Q,
    write: &W,
) -> (r: String)
    requires
        forall|a: u64, b: u64| call_requires(*share, (a, b)),
        forall|x: u64| call_requires(*write, (x,)),
    ensures
        itemset_json(*share, *write, text::texts(items@), count, n, r@),
{
    let x: u64 = share(count, n);
    let names: String = write_names(items);
    let support: String = write_value(x, write);
    let mut r: String = "{\"items\":".to_owned();
    r.append(names.as_str());
    r.append(",\"support\":");
    r.append(support.as_str());
    r.append("}");
    proof {
        assert(call_ensures(*share, (count, n), x));
        assert(scalar::writes(*write, x, support@));
    }
    r
}

/// The texts are the JSON of the itemsets.
pub open spec fn writes_itemsets<Q: Fn(u64, u64) -> u64, W: Fn(u64) -> String>(
    share: Q,
    write: W,
    sets: Seq<(Seq<Seq<char>>, u64)>,
    n: u64,
    parts: Seq<Seq<char>>,
) -> bool {
    &&& parts.len() == sets.len()
    &&& forall|i: int|
        0 <= i < sets.len() ==> itemset_json(share, write, sets[i].0, sets[i].1, n, #[trigger] parts[i])
}

/// The text is a JSON array of itemsets.
pub open spec fn itemsets_json<Q: Fn(u64, u64) -> u64, W: Fn(u64) -> String>(
    share: Q,
    write: W,
    sets: Seq<(Seq<Seq<char>>, u64)>,
    n: u64,
    out: Seq<char>,
) -> bool {
    exists|parts: Seq<Seq<char>>| #[trigger]
        writes_itemsets(share, write, sets, n, parts) && out == scalar::array_text(parts)
}

fn write_itemsets<Q: Fn(u64, u64) -> u64, W: Fn(u64) -> String>(
    sets: &Vec<(Vec<String>, u64)>,
    n: u64,
    share: &Q,
    write: &W,
) -> (r: String)
    requires
        forall|a: u64, b: u64| call_requires(*share, (a, b)),
        forall|x: u64| call_requires(*write, (x,)),
    ensures
        itemsets_json(*share, *write, names::text_listing(sets@), n, r@),
{
    let ghost listing = names::text_listing(sets@);
    let mut parts: Vec<String> = Vec::new();
    let mut i: usize = 0;
    while i < sets.len()
        invariant
            forall|a: u64, b: u64| call_requires(*share, (a, b)),
            forall|x: u64| call_requires(*write, (x,)),
            listing == names::text_listing(sets@),
            i <= sets@.len(),
            parts@.len() == i,
            forall|x: int|
                0 <= x < i ==> itemset_json(*share, *write, listing[x].0, listing[x].1, n, (#[trigger] parts@[x])@),
        decreases sets.len() - i,
    {
        assert(listing[i as int] == (text::texts(sets@[i as int].0@), sets@[i as int].1));
        parts.push(write_itemset(&sets[i].0, sets[i].1, n, share, write));
        i = i + 1;
    }
    proof {
        assert forall|x: int| 0 <= x < listing.len() implies itemset_json(
            *share,
            *write,
            listing[x].0,
            listing[x].1,
            n,
            #[trigger] text::texts(parts@)[x],
        ) by {
            assert(text::texts(parts@)[x] == parts@[x]@);
        }
        assert(writes_itemsets(*share, *write, listing, n, text::texts(parts@)));
    }
    write_array(&parts)
}

/// The JSON text of what mining gives.
pub open spec fn assoc_text(
    itemsets: Seq<char>,
    rules: Seq<char>,
    cancelled: bool,
    candidates: nat,
    count: nat,
    transactions: nat,
    truncated: bool,
) -> Seq<char> {
    "{\"frequent_itemsets\":"@ + itemsets + ",\"rules\":"@ + rules + ",\"stats\":{\"cancelled\":"@ + bool_text(cancelled)
        + ",\"candidates\":"@ + text::decimal(candidates) + ",\"rules\":"@ + text::decimal(count)
        + ",\"transactions\":"@ + text::decimal(transactions) + ",\"truncated\":"@ + bool_text(truncated) + "}}"@
}

/// The text is the JSON of what mining gives; `share` divides two counts.
pub open spec fn assoc_json<Q: Fn(u64, u64) -> u64, W: Fn(u64) -> String>(
    share: Q,
    write: W,
    result: AssocResult,
    out: Seq<char>,
) -> bool {
    exists|itemsets: Seq<char>, rules: Seq<char>| #[trigger]
        itemsets_json(share, write, names::text_listing(result.frequent_itemsets@), result.transactions, itemsets)
            && #[trigger] rules_json(write, assoc_rules::rule_views(result.rules@), rules) && out == assoc_text(
            itemsets,
            rules,
            result.cancelled,
            result.candidates as nat,
            result.rules@.len(),
            result.transactions as nat,
            result.truncated,
        )
}

/// Writes what mining gives as JSON. `share` divides two counts.
pub fn write_assoc<Q: Fn(u64, u64) -> u64, W: Fn(u64) -> String>(result: &AssocResult, share: &Q, write: &W) -> (r: String)
    requires
        forall|a: u64, b: u64| call_requires(*share, (a, b)),
        forall|x: u64| call_requires(*write, (x,)),
    ensures
        assoc_json(*share, *write, *result, r@),
{
    let itemsets: String = write_itemsets(&result.frequent_itemsets, result.transactions, share, write);
    let rules: String = write_rules(&result.rules, write);
    let mut r: String = "{\"frequent_itemsets\":".to_owned();
    r.append(itemsets.as_str());
    r.append(",\"rules\":");
    r.append(rules.as_str());
    r.append(",\"stats\":{\"cancelled\":");
    push_bool(&mut r, result.cancelled);
    r.append(",\"candidates\":");
    push_decimal(&mut r, result.candidates);
    r.append(",\"rules\":");
    push_decimal(&mut r, result.rules.len() as u64);
    r.append(",\"transactions\":");
    push_decimal(&mut r, result.transactions);
    r.append(",\"truncated\":");
    push_bool(&mut r, result.truncated);
    r.append("}}");
    proof {
        assert(itemsets_json(
            *share,
            *write,
            names::text_listing(result.frequent_itemsets@),
            result.transactions,
            itemsets@,
        ));
        assert(rules_json(*write, assoc_rules::rule_views(result.rules@), rules@));
        assert(r@ == assoc_text(
            itemsets@,
            rules@,
            result.cancelled,
            result.candidates as nat,
            result.rules@.len(),
            result.transactions as nat,
            result.truncated,
        ));
    }
    r
}

// Similarity.

/// The text is the JSON of a scored row.
pub open spec fn row_json<W: Fn(u32) -> String>(write: W, row: RowView, out: Seq<char>) -> bool {
    exists|s: String| #[trigger]
        call_ensures(write, (row.score,), s) && out == "{\"row_id\":"@ + json::json_text(row.row_id) + ",\"score\":"@ + s@
            + "}"@
}

fn write_row<W: Fn(u32) -> String>(row: &ScoredRow, write: &W) -> (r: String)
    requires
        forall|x: u32| call_requires(*write, (x,)),
    ensures
        row_json(*write, row@, r@),
{
    let id: String = render_json(&row.row_id);
    let score: u32 = row.score;
    let shown: String = write(score);
    let mut r: String = "{\"row_id\":".to_owned();
    r.append(id.as_str());
    r.append(",\"score\":");
    r.append(shown.as_str());
    r.append("}");
    assert(call_ensures(*write, (row@.score,), shown));
    r
}

/// The scored rows of a list.
pub open spec fn row_views(v: Seq<ScoredRow>) -> Seq<RowView> {
    Seq::new(v.len(), |i: int| v[i]@)
}

/// The texts are the JSON of the rows.
pub open spec fn writes_scored<W: Fn(u32) -> String>(write: W, rows: Seq<RowView>, parts: Seq<Seq<char>>) -> bool {
    &&& parts.len() == rows.len()
    &&& forall|i: int| 0 <= i < rows.len() ==> row_json(write, rows[i], #[trigger] parts[i])
}

/// The text is a JSON array of scored rows.
pub open spec fn scored_json<W: Fn(u32) -> String>(write: W, rows: Seq<RowView>, out: Seq<char>) -> bool {
    exists|parts: Seq<Seq<char>>| #[trigger] writes_scored(write, rows, parts) && out == scalar::array_text(parts)
}

fn write_scored<W: Fn(u32) -> String>(rows: &Vec<ScoredRow>, write: &W) -> (r: String)
    requires
        forall|x: u32| call_requires(*write, (x,)),
    ensures
        scored_json(*write, row_views(rows@), r@),
{
    let mut parts: Vec<String> = Vec::new();
    let mut i: usize = 0;
    while i < rows.len()
        invariant
            forall|x: u32| call_requires(*write, (x,)),
            i <= rows@.len(),
            parts@.len() == i,
            forall|x: int| 0 <= x < i ==> row_json(*write, rows@[x]@, (#[trigger] parts@[x])@),
        decreases rows.len() - i,
    {
        parts.push(write_row(&rows[i], write));
        i = i + 1;
    }
    proof {
        assert forall|x: int| 0 <= x < rows@.len() implies row_json(
            *write,
            row_views(rows@)[x],
            #[trigger] text::texts(parts@)[x],
        ) by {
            assert(text::texts(parts@)[x] == parts@[x]@);
        }
        assert(writes_scored(*write, row_views(rows@), text::texts(parts@)));
    }
    write_array(&parts)
}

/// The text is the JSON of a similarity scan; `write` writes a score.
pub open spec fn similarity_json<W: Fn(u32) -> String>(write: W, result: SimilarityResult, out: Seq<char>) -> bool {
    exists|rows: Seq<char>| #[trigger]
        scored_json(write, row_views(result.results@), rows) && out == "{\"cancelled\":"@ + bool_text(result.cancelled)
            + ",\"results\":"@ + rows + ",\"scanned\":"@ + text::decimal(result.scanned as nat)
            + ",\"skipped_bad_len\":"@ + text::decimal(result.skipped_bad_len as nat) + ",\"skipped_dim\":"@
            + text::decimal(result.skipped_dim as nat) + ",\"skipped_null\":"@ + text::decimal(
            result.skipped_null as nat,
        ) + "}"@
}

/// Writes a similarity scan as JSON.
pub fn write_similarity<W: Fn(u32) -> String>(result: &SimilarityResult, write: &W) -> (r: String)
    requires
        forall|x: u32| call_requires(*write, (x,)),
    ensures
        similarity_json(*write, *result, r@),
{
    let rows: String = write_scored(&result.results, write);
    let mut r: String = "{\"cancelled\":".to_owned();
    push_bool(&mut r, result.cancelled);
    r.append(",\"results\":");
    r.append(rows.as_str());
    r.append(",\"scanned\":");
    push_decimal(&mut r, result.scanned as u64);
    r.append(",\"skipped_bad_len\":");
    push_decimal(&mut r, result.skipped_bad_len as u64);
    r.append(",\"skipped_dim\":");
    push_decimal(&mut r, result.skipped_dim as u64);
    r.append(",\"skipped_null\":");
    push_decimal(&mut r, result.skipped_null as u64);
    r.append("}");
    assert(scored_json(*write, row_views(result.results@), rows@));
    r
}

// Metrics.

/// The text is the JSON of the counts and rates of a binary prediction.
pub open spec fn rates_json<W: Fn(u64) -> String>(write: W, c: BinaryCounts, rates: BinaryRates, out: Seq<char>) -> bool {
    exists|accuracy: Seq<char>, f1: Seq<char>, precision: Seq<char>, recall: Seq<char>, roc_auc: Seq<char>| #[trigger]
        scalar::writes(write, rates.accuracy, accuracy) && #[trigger] scalar::writes(write, rates.f1, f1)
            && #[trigger] scalar::writes(write, rates.precision, precision) && #[trigger] scalar::writes(
            write,
            rates.recall,
            recall,
        ) && #[trigger] scalar::writes_option(write, rates.roc_auc, roc_auc) && out == binary_text(
            c,
            accuracy,
            f1,
            precision,
            recall,
            roc_auc,
        )
}

/// The JSON text of a binary prediction.
pub open spec fn binary_text(
    c: BinaryCounts,
    accuracy: Seq<char>,
    f1: Seq<char>,
    precision: Seq<char>,
    recall: Seq<char>,
    roc_auc: Seq<char>,
) -> Seq<char> {
    "{\"accuracy\":"@ + accuracy + ",\"confusion_matrix\":{\"fn\":"@ + text::decimal(c.fn_ as nat) + ",\"fp\":"@
        + text::decimal(c.fp as nat) + ",\"tn\":"@ + text::decimal(c.tn as nat) + ",\"tp\":"@ + text::decimal(
        c.tp as nat,
    ) + "},\"f1\":"@ + f1 + ",\"precision\":"@ + precision + ",\"recall\":"@ + recall + ",\"roc_auc\":"@ + roc_auc
        + ",\"task\":\"binary\"}"@
}

fn write_rates<W: Fn(u64) -> String>(c: &BinaryCounts, rates: &BinaryRates, write: &W) -> (r: String)
    requires
        forall|x: u64| call_requires(*write, (x,)),
    ensures
        rates_json(*write, *c, *rates, r@),
{
    let accuracy: String = write_value(rates.accuracy, write);
    let f1: String = write_value(rates.f1, write);
    let precision: String = write_value(rates.precision, write);
    let recall: String = write_value(rates.recall, write);
    let roc_auc: String = write_option(rates.roc_auc, write);
    let mut r: String = "{\"accuracy\":".to_owned();
    r.append(accuracy.as_str());
    r.append(",\"confusion_matrix\":{\"fn\":");
    push_decimal(&mut r, c.fn_ as u64);
    r.append(",\"fp\":");
    push_decimal(&mut r, c.fp as u64);
    r.append(",\"tn\":");
    push_decimal(&mut r, c.tn as u64);
    r.append(",\"tp\":");
    push_decimal(&mut r, c.tp as u64);
    r.append("},\"f1\":");
    r.append(f1.as_str());
    r.append(",\"precision\":");
    r.append(precision.as_str());
    r.append(",\"recall\":");
    r.append(recall.as_str());
    r.append(",\"roc_auc\":");
    r.append(roc_auc.as_str());
    r.append(",\"task\":\"binary\"}");
    proof {
        assert(scalar::writes(*write, rates.accuracy, accuracy@));
        assert(scalar::writes(*write, rates.f1, f1@));
        assert(scalar::writes(*write, rates.precision, precision@));
        assert(scalar::writes(*write, rates.recall, recall@));
        assert(scalar::writes_option(*write, rates.roc_auc, roc_auc@));
        assert(r@ == binary_text(*c, accuracy@, f1@, precision@, recall@, roc_auc@));
    }
    r
}

/// The JSON text of a regression.
pub open spec fn regression_text(mae: Seq<char>, mse: Seq<char>, r2: Seq<char>, rmse: Seq<char>) -> Seq<char> {
    "{\"mae\":"@ + mae + ",\"mse\":"@ + mse + ",\"r2\":"@ + r2 + ",\"rmse\":"@ + rmse
        + ",\"task\":\"regression\"}"@
}

/// The text is the JSON of the errors of a regression.
pub open spec fn errors_json<W: Fn(u64) -> String>(write: W, sums: RegressionSums, explained: u64, out: Seq<char>) -> bool {
    exists|mae: Seq<char>, mse: Seq<char>, r2: Seq<char>, rmse: Seq<char>| #[trigger]
        scalar::writes(write, sums.mae, mae) && #[trigger] scalar::writes(write, sums.mse, mse)
            && #[trigger] scalar::writes(write, explained, r2) && #[trigger] scalar::writes(write, sums.rmse, rmse)
            && out == regression_text(mae, mse, r2, rmse)
}

fn write_errors<W: Fn(u64) -> String>(sums: &RegressionSums, explained: u64, write: &W) -> (r: String)
    requires
        forall|x: u64| call_requires(*write, (x,)),
    ensures
        errors_json(*write, *sums, explained, r@),
{
    let mae: String = write_value(sums.mae, write);
    let mse: String = write_value(sums.mse, write);
    let r2: String = write_value(explained, write);
    let rmse: String = write_value(sums.rmse, write);
    let mut r: String = "{\"mae\":".to_owned();
    r.append(mae.as_str());
    r.append(",\"mse\":");
    r.append(mse.as_str());
    r.append(",\"r2\":");
    r.append(r2.as_str());
    r.append(",\"rmse\":");
    r.append(rmse.as_str());
    r.append(",\"task\":\"regression\"}");
    proof {
        assert(scalar::writes(*write, sums.mae, mae@));
        assert(scalar::writes(*write, sums.mse, mse@));
        assert(scalar::writes(*write, explained, r2@));
        assert(scalar::writes(*write, sums.rmse, rmse@));
        assert(r@ == regression_text(mae@, mse@, r2@, rmse@));
    }
    r
}

/// The text is the JSON of a binary prediction.
pub open spec fn binary_json<
    R: Fn(usize, usize) -> u64,
    H: Fn(u64, u64) -> u64,
    A: Fn(Auc) -> u64,
    W: Fn(u64) -> String,
>(ratio: R, harmonic: H, area: A, write: W, c: BinaryCounts, out: Seq<char>) -> bool {
    exists|rates: BinaryRates| #[trigger]
        metrics::are_rates(ratio, harmonic, area, c, rates) && rates_json(write, c, rates, out)
}

/// Writes a binary prediction as JSON; see [`rate_counts`] for the functions that
/// compute.
pub fn write_binary<R: Fn(usize, usize) -> u64, H: Fn(u64, u64) -> u64, A: Fn(Auc) -> u64, W: Fn(u64) -> String>(
    c: &BinaryCounts,
    ratio: &R,
    harmonic: &H,
    area: &A,
    write: &W,
) -> (r: String)
    requires
        c.tp + c.fp + c.tn + c.fn_ <= usize::MAX,
        forall|a: usize, b: usize| b > 0 ==> call_requires(*ratio, (a, b)),
        forall|a: u64, b: u64| call_requires(*harmonic, (a, b)),
        forall|a: Auc| call_requires(*area, (a,)),
        forall|x: u64| call_requires(*write, (x,)),
    ensures
        binary_json(*ratio, *harmonic, *area, *write, *c, r@),
{
    let rates: BinaryRates = rate_counts(c, ratio, harmonic, area);
    let r: String = write_rates(c, &rates, write);
    assert(metrics::are_rates(*ratio, *harmonic, *area, *c, rates));
    r
}

/// The text is the JSON of a regression.
pub open spec fn regression_json<
    S: Fn(&Vec<u64>, &Vec<u64>) -> RegressionSums,
    X: Fn(u64, u64) -> u64,
    W: Fn(u64) -> String,
>(sum: S, explain: X, write: W, actual: Seq<u64>, predicted: Seq<u64>, out: Seq<char>) -> bool {
    exists|sums: RegressionSums, r2: u64| #[trigger]
        metrics::are_sums(sum, actual, predicted, sums) && #[trigger] metrics::is_explained(explain, sums, r2) && errors_json(
            write,
            sums,
            r2,
            out,
        )
}

/// Writes a regression as JSON. `sum` computes the sums over the errors; see
/// [`explained`] for `explain`.
pub fn write_regression<S: Fn(&Vec<u64>, &Vec<u64>) -> RegressionSums, X: Fn(u64, u64) -> u64, W: Fn(u64) -> String>(
    actual: &Vec<u64>,
    predicted: &Vec<u64>,
    sum: &S,
    explain: &X,
    write: &W,
) -> (r: String)
    requires
        call_requires(*sum, (actual, predicted)),
        forall|a: u64, b: u64| call_requires(*explain, (a, b)),
        forall|x: u64| call_requires(*write, (x,)),
    ensures
        regression_json(*sum, *explain, *write, actual@, predicted@, r@),
{
    let sums: RegressionSums = sum(actual, predicted);
    let r2: u64 = explained(&sums, explain);
    let r: String = write_errors(&sums, r2, write);
    proof {
        assert(call_ensures(*sum, (actual, predicted), sums));
        assert(metrics::are_sums(*sum, actual@, predicted@, sums));
        assert(metrics::is_explained(*explain, sums, r2));
    }
    r
}

// Cross validation.

/// The text is the JSON of a fold.
pub open spec fn fold_json<W: Fn(u64) -> String>(write: W, fold: Fold, out: Seq<char>) -> bool {
    exists|mse: Seq<char>, r2: Seq<char>| #[trigger]
        scalar::writes_option(write, fold.score.mse, mse) && #[trigger] scalar::writes_option(write, fold.score.r2, r2)
            && out == fold_text(fold, mse, r2)
}

/// The JSON text of a fold.
pub open spec fn fold_text(fold: Fold, mse: Seq<char>, r2: Seq<char>) -> Seq<char> {
    "{\"fold\":"@ + text::decimal(fold.fold as nat) + ",\"mse\":"@ + mse + ",\"r2\":"@ + r2 + ",\"samples\":"@
        + text::decimal(fold.samples as nat) + "}"@
}

fn write_fold<W: Fn(u64) -> String>(fold: &Fold, write: &W) -> (r: String)
    requires
        forall|x: u64| call_requires(*write, (x,)),
    ensures
        fold_json(*write, *fold, r@),
{
    let mse: String = write_option(fold.score.mse, write);
    let r2: String = write_option(fold.score.r2, write);
    let mut r: String = "{\"fold\":".to_owned();
    push_decimal(&mut r, fold.fold as u64);
    r.append(",\"mse\":");
    r.append(mse.as_str());
    r.append(",\"r2\":");
    r.append(r2.as_str());
    r.append(",\"samples\":");
    push_decimal(&mut r, fold.samples as u64);
    r.append("}");
    proof {
        assert(scalar::writes_option(*write, fold.score.mse, mse@));
        assert(scalar::writes_option(*write, fold.score.r2, r2@));
        assert(r@ == fold_text(*fold, mse@, r2@));
    }
    r
}

/// The texts are the JSON of the folds.
pub open spec fn writes_folds<W: Fn(u64) -> String>(write: W, folds: Seq<Fold>, parts: Seq<Seq<char>>) -> bool {
    &&& parts.len() == folds.len()
    &&& forall|i: int| 0 <= i < folds.len() ==> fold_json(write, folds[i], #[trigger] parts[i])
}

/// The text is a JSON array of folds.
pub open spec fn folds_json<W: Fn(u64) -> String>(write: W, folds: Seq<Fold>, out: Seq<char>) -> bool {
    exists|parts: Seq<Seq<char>>| #[trigger] writes_folds(write, folds, parts) && out == scalar::array_text(parts)
}

fn write_folds<W: Fn(u64) -> String>(folds: &Vec<Fold>, write: &W) -> (r: String)
    requires
        forall|x: u64| call_requires(*write, (x,)),
    ensures
        folds_json(*write, folds@, r@),
{
    let mut parts: Vec<String> = Vec::new();
    let mut i: usize = 0;
    while i < folds.len()
        invariant
            forall|x: u64| call_requires(*write, (x,)),
            i <= folds@.len(),
            parts@.len() == i,
            forall|x: int| 0 <= x < i ==> fold_json(*write, folds@[x], (#[trigger] parts@[x])@),
        decreases folds.len() - i,
    {
        parts.push(write_fold(&folds[i], write));
        i = i + 1;
    }
    proof {
        assert forall|x: int| 0 <= x < folds@.len() implies fold_json(
            *write,
            folds@[x],
            #[trigger] text::texts(parts@)[x],
        ) by {
            assert(text::texts(parts@)[x] == parts@[x]@);
        }
        assert(writes_folds(*write, folds@, text::texts(parts@)));
    }
    write_array(&parts)
}

/// The numbers that are there, in order.
pub open spec fn present(v: Seq<Option<u64>>) -> Seq<u64>
    decreases v.len(),
{
    if v.len() == 0 {
        Seq::empty()
    } else {
        match v.last() {
            Some(x) => present(v.drop_last()).push(x),
            None => present(v.drop_last()),
        }
    }
}

fn find_present(v: &Vec<Option<u64>>) -> (r: Vec<u64>)
    ensures
        r@ == present(v@),
{
    let mut r: Vec<u64> = Vec::new();
    let mut i: usize = 0;
    assert(v@.take(0) =~= Seq::empty());
    while i < v.len()
        invariant
            i <= v@.len(),
            r@ == present(v@.take(i as int)),
        decreases v.len() - i,
    {
        assert(v@.take(i + 1).drop_last() =~= v@.take(i as int));
        if let Some(x) = v[i] {
            r.push(x);
        }
        i = i + 1;
    }
    assert(v@.take(i as int) =~= v@);
    r
}

/// The mean of some numbers, as the caller computes it.
pub open spec fn averages<E: Fn(&Vec<u64>, usize) -> u64>(mean: E, values: Seq<u64>, count: usize, x: u64) -> bool {
    exists|a: &Vec<u64>| a@ == values && #[trigger] call_ensures(mean, (a, count), x)
}

/// The mean over the scored folds, as the caller computes it; there is none where
/// no fold is scored.
pub open spec fn is_mean<E: Fn(&Vec<u64>, usize) -> u64>(
    mean: E,
    values: Seq<Option<u64>>,
    scored: usize,
    r: Option<u64>,
) -> bool {
    match r {
        None => scored == 0,
        Some(x) => scored > 0 && averages(mean, present(values), scored, x),
    }
}

fn average<E: Fn(&Vec<u64>, usize) -> u64>(values: &Vec<Option<u64>>, scored: usize, mean: &E) -> (r: Option<u64>)
    requires
        forall|a: &Vec<u64>, n: usize| n > 0 ==> call_requires(*mean, (a, n)),
    ensures
        is_mean(*mean, values@, scored, r),
{
    if scored == 0 {
        None
    } else {
        let there: Vec<u64> = find_present(values);
        let x: u64 = mean(&there, scored);
        proof {
            let a = &there;
            assert(a@ == present(values@) && call_ensures(*mean, (a, scored), x));
            assert(averages(*mean, present(values@), scored, x));
        }
        Some(x)
    }
}

/// The mean squared errors of the folds.
pub open spec fn fold_errors(folds: Seq<Fold>) -> Seq<Option<u64>> {
    Seq::new(folds.len(), |i: int| folds[i].score.mse)
}

/// The shares of the variance that the folds explain.
pub open spec fn fold_shares(folds: Seq<Fold>) -> Seq<Option<u64>> {
    Seq::new(folds.len(), |i: int| folds[i].score.r2)
}

/// The JSON text of a cross validation.
pub open spec fn validation_text(
    algorithm: Seq<char>,
    folds: Seq<char>,
    k: nat,
    mean_mse: Seq<char>,
    mean_r2: Seq<char>,
) -> Seq<char> {
    "{\"algorithm\":"@ + json::json_quoted(algorithm) + ",\"folds\":"@ + folds + ",\"k\":"@ + text::decimal(k)
        + ",\"mean_mse\":"@ + mean_mse + ",\"mean_r2\":"@ + mean_r2 + "}"@
}

/// The text is that of a mean over the folds.
pub open spec fn mean_json<E: Fn(&Vec<u64>, usize) -> u64, W: Fn(u64) -> String>(
    mean: E,
    write: W,
    values: Seq<Option<u64>>,
    scored: usize,
    out: Seq<char>,
) -> bool {
    exists|x: Option<u64>| #[trigger] is_mean(mean, values, scored, x) && scalar::writes_option(write, x, out)
}

/// The text is the JSON of a cross validation.
pub open spec fn validation_json<E: Fn(&Vec<u64>, usize) -> u64, W: Fn(u64) -> String>(
    mean: E,
    write: W,
    cv: CrossValidation,
    out: Seq<char>,
) -> bool {
    exists|folds: Seq<char>, mean_mse: Seq<char>, mean_r2: Seq<char>| #[trigger]
        folds_json(write, cv.folds@, folds) && #[trigger] mean_json(
            mean,
            write,
            fold_errors(cv.folds@),
            cv.scored,
            mean_mse,
        ) && #[trigger] mean_json(mean, write, fold_shares(cv.folds@), cv.scored, mean_r2) && out == validation_text(
            types::name_of(cv.algorithm),
            folds,
            cv.k as nat,
            mean_mse,
            mean_r2,
        )
}

fn write_mean<E: Fn(&Vec<u64>, usize) -> u64, W: Fn(u64) -> String>(
    values: &Vec<Option<u64>>,
    scored: usize,
    mean: &E,
    write: &W,
) -> (r: String)
    requires
        forall|a: &Vec<u64>, n: usize| n > 0 ==> call_requires(*mean, (a, n)),
        forall|x: u64| call_requires(*write, (x,)),
    ensures
        mean_json(*mean, *write, values@, scored, r@),
{
    let x: Option<u64> = average(values, scored, mean);
    let r: String = write_option(x, write);
    assert(is_mean(*mean, values@, scored, x));
    r
}

/// Writes a cross validation as JSON. `mean` divides the sum of some numbers by a
/// count.
pub fn write_validation<E: Fn(&Vec<u64>, usize) -> u64, W: Fn(u64) -> String>(
    cv: &CrossValidation,
    mean: &E,
    write: &W,
) -> (r: String)
    requires
        forall|a: &Vec<u64>, n: usize| n > 0 ==> call_requires(*mean, (a, n)),
        forall|x: u64| call_requires(*write, (x,)),
    ensures
        validation_json(*mean, *write, *cv, r@),
{
    let mut errors: Vec<Option<u64>> = Vec::new();
    let mut shares: Vec<Option<u64>> = Vec::new();
    let mut i: usize = 0;
    while i < cv.folds.len()
        invariant
            i <= cv.folds@.len(),
            errors@.len() == i,
            shares@.len() == i,
            forall|x: int| 0 <= x < i ==> #[trigger] errors@[x] == cv.folds@[x].score.mse,
            forall|x: int| 0 <= x < i ==> #[trigger] shares@[x] == cv.folds@[x].score.r2,
        decreases cv.folds.len() - i,
    {
        errors.push(cv.folds[i].score.mse);
        shares.push(cv.folds[i].score.r2);
        i = i + 1;
    }
    assert(errors@ =~= fold_errors(cv.folds@));
    assert(shares@ =~= fold_shares(cv.folds@));
    let algorithm: String = quote_text(cv.algorithm.name().as_str());
    let folds: String = write_folds(&cv.folds, write);
    let mean_mse: String = write_mean(&errors, cv.scored, mean, write);
    let mean_r2: String = write_mean(&shares, cv.scored, mean, write);
    let mut r: String = "{\"algorithm\":".to_owned();
    r.append(algorithm.as_str());
    r.append(",\"folds\":");
    r.append(folds.as_str());
    r.append(",\"k\":");
    push_decimal(&mut r, cv.k as u64);
    r.append(",\"mean_mse\":");
    r.append(mean_mse.as_str());
    r.append(",\"mean_r2\":");
    r.append(mean_r2.as_str());
    r.append("}");
    proof {
        assert(folds_json(*write, cv.folds@, folds@));
        assert(mean_json(*mean, *write, fold_errors(cv.folds@), cv.scored, mean_mse@));
        assert(mean_json(*mean, *write, fold_shares(cv.folds@), cv.scored, mean_r2@));
        assert(r@ == validation_text(types::name_of(cv.algorithm), folds@, cv.k as nat, mean_mse@, mean_r2@));
    }
    r
}

} // verus!
