//! `ml_predict_batch`: the predictions of a deployed or registered model for
//! many rows.

use vstd::prelude::*;
use crate::json;
use crate::json::parse_table;
use crate::model::registry;
use crate::model::registry::{CacheEntry, ModelRegistry, RegistryView};
use crate::predict;
use crate::predict::not_loaded_message;
use crate::table::take_turn;
use crate::text;
use crate::text::{chars_of, has_prefix, push_decimal, text_range};

verus! {

/// Whether the rows were handed out.
pub struct BInitData {
    pub done: bool,
}

impl BInitData {
    pub fn init() -> (r: Self)
        ensures
            !r.done,
    {
        BInitData { done: false }
    }

    /// Tells whether the rows are still to be handed out, and notes that they
    /// are.
    pub fn take(&mut self) -> (first: bool)
        ensures
            first == !old(self).done,
            final(self).done,
    {
        take_turn(&mut self.done)
    }
}

/// The rows of a batch, column by column; the predictions are the bits of
/// doubles.
#[derive(Debug, PartialEq, Eq)]
pub struct BBindData {
    pub predictions: Vec<u64>,
    pub row_ids: Vec<i64>,
}

/// The rows to predict for: a kept dataset where the text is `@` and its name,
/// else the table in the text.
pub open spec fn batch_rows<M>(s: RegistryView<M>, features: Seq<char>) -> Result<Seq<Seq<u64>>, Seq<char>> {
    let parsed = json::table_read(features);
    if "@"@.is_prefix_of(features) {
        let name = features.subrange(1, features.len() as int);
        if s.datasets.contains_key(name) {
            Ok(s.datasets[name])
        } else {
            match parsed {
                Ok(rows) => Ok(rows),
                Err(_) => Ok(Seq::empty()),
            }
        }
    } else {
        match parsed {
            Ok(rows) => Ok(rows),
            Err(e) => Err("Invalid features JSON: "@ + e),
        }
    }
}

/// The rows that the arguments give, or what is wrong with the arguments.
pub open spec fn batch_features<M>(s: RegistryView<M>, args: Seq<Seq<char>>) -> Result<Seq<Seq<u64>>, Seq<char>> {
    if args.len() < 2 {
        Err("ml_predict_batch requires: model_name, features_json (e.g. '[[1.0,2.0],[3.0,4.0]]')"@)
    } else {
        match batch_rows(s, args[1]) {
            Err(e) => Err(e),
            Ok(rows) => if rows.len() == 0 {
                Err("features_json must contain at least one row"@)
            } else {
                Ok(rows)
            },
        }
    }
}

/// A row of this length does not fit a model with that many features.
pub open spec fn misfit(num_features: usize, row: Seq<u64>) -> bool {
    num_features > 0 && row.len() != num_features
}

/// The message for the first row that does not fit.
pub open spec fn misfit_message(i: nat, num_features: usize, row: Seq<u64>) -> Seq<char> {
    "Row "@ + text::decimal(i) + ": expected "@ + text::decimal(num_features as nat) + " features, got "@
        + text::decimal(row.len())
}

/// The model gives a prediction for some features.
pub open spec fn answers<M, P: Fn(&M, &Vec<u64>) -> Result<u64, String>>(ask: P, model: M, features: Seq<u64>) -> bool {
    exists|answer: u64| #[trigger] predict::predicts(ask, model, features, Ok(answer))
}

/// What a batch of predictions of one model gives: an error for the first row
/// that does not fit, else the prediction of each row, or the error of the first
/// row for which the model gives one.
pub open spec fn batch_outcome<M, P: Fn(&M, &Vec<u64>) -> Result<u64, String>>(
    ask: P,
    entry: CacheEntry<M>,
    rows: Seq<Seq<u64>>,
    r: Result<BBindData, String>,
) -> bool {
    let n = entry.metadata.num_features;
    if exists|i: int| 0 <= i < rows.len() && misfit(n, #[trigger] rows[i]) {
        exists|i: int|
            0 <= i < rows.len() && misfit(n, #[trigger] rows[i]) && (forall|j: int|
                0 <= j < i ==> !misfit(n, #[trigger] rows[j])) && (r matches Err(e) && e@ == misfit_message(
                i as nat,
                n,
                rows[i],
            ))
    } else {
        match r {
            Ok(b) => {
                &&& b.predictions@.len() == rows.len()
                &&& b.row_ids@.len() == rows.len()
                &&& forall|i: int| 0 <= i < rows.len() ==> #[trigger] b.row_ids@[i] == i as i64
                &&& forall|i: int|
                    0 <= i < rows.len() ==> predict::predicts(ask, entry.model, rows[i], Ok(#[trigger] b.predictions@[i]))
            },
            Err(e) => exists|i: int|
                0 <= i < rows.len() && predict::predicts(ask, entry.model, #[trigger] rows[i], Err(e)) && forall|j: int|
                    0 <= j < i ==> answers(ask, entry.model, #[trigger] rows[j]),
        }
    }
}

/// The `ml_predict_batch` function.
pub struct PredictBatchFn;

/// Predicts for every row by one model.
fn predict_rows<M, P: Fn(&M, &Vec<u64>) -> Result<u64, String>>(
    entry: &CacheEntry<M>,
    rows: &Vec<Vec<u64>>,
    ask: &P,
) -> (r: Result<BBindData, String>)
    requires
        forall|m: &M, f: &Vec<u64>| call_requires(*ask, (m, f)),
    ensures
        batch_outcome(*ask, *entry, registry::table(rows@), r),
{
    let ghost shown = registry::table(rows@);
    let n: usize = entry.metadata.num_features;
    let mut i: usize = 0;
    while i < rows.len()
        invariant
            shown == registry::table(rows@),
            n == entry.metadata.num_features,
            i <= rows@.len(),
            forall|j: int| 0 <= j < i ==> !misfit(n, #[trigger] shown[j]),
        decreases rows.len() - i,
    {
        let row_len: usize = rows[i].len();
        assert(shown[i as int] == rows@[i as int]@);
        if row_len != n && n > 0 {
            let mut e: String = "Row ".to_owned();
            push_decimal(&mut e, i as u64);
            e.append(": expected ");
            push_decimal(&mut e, n as u64);
            e.append(" features, got ");
            push_decimal(&mut e, row_len as u64);
            proof {
                assert(misfit(n, shown[i as int]));
                assert(e@ =~= misfit_message(i as nat, n, shown[i as int]));
            }
            return Err(e);
        }
        i = i + 1;
    }
    let mut predictions: Vec<u64> = Vec::new();
    let mut row_ids: Vec<i64> = Vec::new();
    let mut k: usize = 0;
    while k < rows.len()
        invariant
            shown == registry::table(rows@),
            n == entry.metadata.num_features,
            forall|m: &M, f: &Vec<u64>| call_requires(*ask, (m, f)),
            forall|j: int| 0 <= j < shown.len() ==> !misfit(n, #[trigger] shown[j]),
            k <= rows@.len(),
            predictions@.len() == k,
            row_ids@.len() == k,
            forall|j: int| 0 <= j < k ==> #[trigger] row_ids@[j] == j as i64,
            forall|j: int|
                0 <= j < k ==> predict::predicts(*ask, entry.model, shown[j], Ok(#[trigger] predictions@[j])),
        decreases rows.len() - k,
    {
        let m = &entry.model;
        let f = &rows[k];
        let answer: Result<u64, String> = ask(m, f);
        proof {
            assert(shown[k as int] == f@);
            assert(call_ensures(*ask, (m, f), answer));
            assert(predict::predicts(*ask, entry.model, shown[k as int], answer));
        }
        match answer {
            Ok(prediction) => {
                predictions.push(prediction);
                row_ids.push(k as i64);
            },
            Err(e) => {
                proof {
                    assert forall|j: int| 0 <= j < k implies answers(*ask, entry.model, #[trigger] shown[j]) by {
                        assert(predict::predicts(*ask, entry.model, shown[j], Ok(predictions@[j])));
                    }
                }
                return Err(e);
            },
        }
        k = k + 1;
    }
    Ok(BBindData { predictions, row_ids })
}

impl PredictBatchFn {
    /// The rows to predict for.
    fn read_rows<M>(registry: &ModelRegistry<M>, features: &str) -> (r: Result<Vec<Vec<u64>>, String>)
        requires
            registry.well_formed(),
        ensures
            match r {
                Ok(rows) => batch_rows(registry@, features@) == Ok::<Seq<Seq<u64>>, Seq<char>>(json::rows_of(rows@)),
                Err(e) => batch_rows(registry@, features@) == Err::<Seq<Seq<u64>>, Seq<char>>(e@),
            },
    {
        let parsed: Result<Vec<Vec<u64>>, String> = parse_table(features);
        if has_prefix(features, "@") {
            proof {
                reveal_strlit("@");
            }
            let chars: Vec<char> = chars_of(features);
            let name: String = text_range(&chars, 1, chars.len());
            if let Some(rows) = registry.get_dataset(name.as_str()) {
                let copy: Vec<Vec<u64>> = copy_rows(rows);
                assert(registry::table(rows@) =~= json::rows_of(rows@));
                return Ok(copy);
            }
            match parsed {
                Ok(rows) => Ok(rows),
                Err(_) => {
                    let none: Vec<Vec<u64>> = Vec::new();
                    assert(json::rows_of(none@) =~= Seq::empty());
                    Ok(none)
                },
            }
        } else {
            match parsed {
                Ok(rows) => Ok(rows),
                Err(message) => {
                    let mut e: String = "Invalid features JSON: ".to_owned();
                    e.append(message.as_str());
                    Err(e)
                },
            }
        }
    }

    /// Predicts by the arguments: the name of a deployed or cached model, and
    /// the rows as a JSON array of arrays or as `@` and the name of a kept
    /// dataset.
    pub fn bind<M, P: Fn(&M, &Vec<u64>) -> Result<u64, String>>(
        args: &Vec<String>,
        registry: &mut ModelRegistry<M>,
        now: u64,
        ask: &P,
    ) -> (r: Result<BBindData, String>)
        requires
            old(registry).well_formed(),
            forall|m: &M, f: &Vec<u64>| call_requires(*ask, (m, f)),
        ensures
            final(registry).well_formed(),
            match batch_features(old(registry)@, text::texts(args@)) {
                Err(message) => r matches Err(e) && e@ == message && final(registry)@ == old(registry)@,
                Ok(rows) => {
                    let key = registry::serving_key(old(registry)@, args@[0]@);
                    if old(registry)@.models.contains_key(key) {
                        &&& final(registry)@ == registry::touched(old(registry)@, key, now)
                        &&& batch_outcome(*ask, old(registry)@.models[key], rows, r)
                    } else {
                        r matches Err(e) && e@ == predict::not_loaded(args@[0]@) && final(registry)@ == old(
                            registry,
                        )@
                    }
                },
            },
    {
        let ghost given = text::texts(args@);
        if args.len() < 2 {
            return Err(
                "ml_predict_batch requires: model_name, features_json (e.g. '[[1.0,2.0],[3.0,4.0]]')".to_owned(),
            );
        }
        let rows: Vec<Vec<u64>> = match Self::read_rows(registry, args[1].as_str()) {
            Ok(rows) => rows,
            Err(e) => {
                return Err(e);
            },
        };
        if rows.len() == 0 {
            return Err("features_json must contain at least one row".to_owned());
        }
        assert(registry::table(rows@) =~= json::rows_of(rows@));
        match registry.get_deployed_model(args[0].as_str(), now) {
            Some(entry) => predict_rows(entry, &rows, ask),
            None => Err(not_loaded_message(args[0].as_str())),
        }
    }
}

/// Copies the rows of a dataset.
fn copy_rows(rows: &Vec<Vec<u64>>) -> (r: Vec<Vec<u64>>)
    ensures
        json::rows_of(r@) == json::rows_of(rows@),
{
    let mut r: Vec<Vec<u64>> = Vec::new();
    let mut i: usize = 0;
    while i < rows.len()
        invariant
            i <= rows@.len(),
            r@.len() == i,
            forall|x: int| 0 <= x < i ==> (#[trigger] r@[x])@ == rows@[x]@,
        decreases rows.len() - i,
    {
        let row: Vec<u64> = rows[i].clone();
        assert(row@ =~= rows@[i as int]@);
        r.push(row);
        i = i + 1;
    }
    assert(json::rows_of(r@) =~= json::rows_of(rows@));
    r
}

} // verus!
