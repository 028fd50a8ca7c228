//! What predictions of registered models are.

use vstd::prelude::*;
use crate::embed;
use crate::embed::EmbedFn;
use crate::json;
use crate::laws::documents;
use crate::model::registry::{CacheEntry, ModelRegistry};
use crate::predict;
use crate::predict::batch;
use crate::predict::batch::{BBindData, PredictBatchFn};
use crate::predict::{PBindData, PredictFn};
use crate::scalar;
use crate::scalar::{write_predictions, PredictBatchValueFn};
use crate::text;

verus! {

/// The model answers some features.
pub open spec fn says<M, P: Fn(&M, &Vec<u64>) -> Result<u64, String>>(
    ask: P,
    m: &M,
    f: &Vec<u64>,
    answer: Result<u64, String>,
) -> bool {
    call_ensures(ask, (m, f), answer)
}

/// The cached model of a name answers the features as they stand.
pub open spec fn is_answer<M, P: Fn(&M, &Vec<u64>) -> Result<u64, String>>(
    ask: P,
    model: M,
    features: Seq<u64>,
    answer: Result<u64, String>,
) -> bool {
    exists|m: &M, f: &Vec<u64>| #[trigger] says(ask, m, f, answer) && *m == model && f@ == features
}

proof fn lemma_answer<M, P: Fn(&M, &Vec<u64>) -> Result<u64, String>>(
    ask: P,
    model: M,
    features: Seq<u64>,
    answer: Result<u64, String>,
)
    requires
        predict::predicts(ask, model, features, answer),
    ensures
        is_answer(ask, model, features, answer),
{
    let (m, f) = choose|m: &M, f: &Vec<u64>|
        *m == model && f@ == features && #[trigger] call_ensures(ask, (m, f), answer);
    assert(says(ask, m, f, answer));
}

/// A prediction is the answer of the model that is cached under the first argument to
/// the numbers of the second; without such a model there is none.
pub proof fn law_prediction_is_the_answer<M, P: Fn(&M, &Vec<u64>) -> Result<u64, String>>(
    args: Vec<String>,
    registry: &mut ModelRegistry<M>,
    now: u64,
    ask: P,
    features: Seq<u64>,
    r: Result<PBindData, String>,
)
    requires
        call_ensures(PredictFn::bind::<M, P>, (&args, registry, now, &ask), r),
        args@.len() >= 2,
        json::json_document(args@[1]@) matches Ok(doc) && documents::is_numbers(doc, features),
    ensures
        old(registry)@.models.contains_key(args@[0]@) ==> is_answer(
            ask,
            old(registry)@.models[args@[0]@].model,
            features,
            match r {
                Ok(row) => Ok(row.prediction),
                Err(e) => Err(e),
            },
        ),
        !old(registry)@.models.contains_key(args@[0]@) ==> r is Err,
{
    let given = text::texts(args@);
    assert(given[0] == args@[0]@ && given[1] == args@[1]@);
    documents::lemma_numbers_text(args@[1]@, features);
    if old(registry)@.models.contains_key(args@[0]@) {
        lemma_answer(
            ask,
            old(registry)@.models[args@[0]@].model,
            features,
            match r {
                Ok(row) => Ok(row.prediction),
                Err(e) => Err(e),
            },
        );
    }
}

/// What serves a name: the deployed model where it is cached, else the model of that
/// name.
pub open spec fn serves<M>(registry: ModelRegistry<M>, name: Seq<char>, entry: CacheEntry<M>) -> bool {
    let s = registry@;
    if s.deployed.contains_key(name) && s.models.contains_key(s.deployed[name].model_key) {
        entry == s.models[s.deployed[name].model_key]
    } else {
        s.models.contains_key(name) && entry == s.models[name]
    }
}

/// The rows that the second argument of a batch stands for: the dataset that is kept
/// under the name behind an `@`, or else the table that the text is.
pub open spec fn gives_rows<M>(registry: ModelRegistry<M>, text: Seq<char>, rows: Seq<Seq<u64>>) -> bool {
    if text.len() > 0 && text[0] == '@' && registry@.datasets.contains_key(text.skip(1)) {
        rows == registry@.datasets[text.skip(1)]
    } else {
        json::json_document(text) matches Ok(doc) && documents::is_table(doc, rows)
    }
}

proof fn lemma_rows<M>(registry: ModelRegistry<M>, text: Seq<char>, rows: Seq<Seq<u64>>)
    requires
        gives_rows(registry, text, rows),
    ensures
        batch::batch_rows(registry@, text) == Ok::<Seq<Seq<u64>>, Seq<char>>(rows),
{
    documents::lemma_table_text(text, rows);
    reveal_strlit("@");
    let mark = "@"@;
    assert(mark.len() == 1 && mark[0] == '@');
    if text.len() > 0 {
        assert(text.skip(1) =~= text.subrange(1, text.len() as int));
        if text[0] == '@' {
            assert(mark =~= text.take(1));
        }
    }
}

/// A batch has one prediction for each row, in the order of the rows and numbered so:
/// the answer of the model that serves the first argument. A row of another length than
/// the model wants is refused.
pub proof fn law_batch_answers_row_by_row<M, P: Fn(&M, &Vec<u64>) -> Result<u64, String>>(
    args: Vec<String>,
    registry: &mut ModelRegistry<M>,
    now: u64,
    ask: P,
    entry: CacheEntry<M>,
    rows: Seq<Seq<u64>>,
    b: BBindData,
    i: int,
)
    requires
        call_ensures(PredictBatchFn::bind::<M, P>, (&args, registry, now, &ask), Ok(b)),
        args@.len() >= 2,
        serves(*old(registry), args@[0]@, entry),
        gives_rows(*old(registry), args@[1]@, rows),
        0 <= i < rows.len(),
    ensures
        b.predictions@.len() == rows.len(),
        b.row_ids@.len() == rows.len(),
        b.row_ids@[i] == i as i64,
        is_answer(ask, entry.model, rows[i], Ok(b.predictions@[i])),
        entry.metadata.num_features == 0 || rows[i].len() == entry.metadata.num_features,
{
    let given = text::texts(args@);
    assert(given[0] == args@[0]@ && given[1] == args@[1]@);
    lemma_rows(*old(registry), args@[1]@, rows);
    assert(!batch::misfit(entry.metadata.num_features, rows[i])) by {
        if batch::misfit(entry.metadata.num_features, rows[i]) {
            assert(exists|k: int| 0 <= k < rows.len() && batch::misfit(entry.metadata.num_features, #[trigger] rows[k]));
        }
    }
    assert(predict::predicts(ask, entry.model, rows[i], Ok(b.predictions@[i])));
    lemma_answer(ask, entry.model, rows[i], Ok(b.predictions@[i]));
}

/// A batch with rows that fit, for which the model has answers, succeeds.
pub proof fn law_batch_fails_for_a_reason<M, P: Fn(&M, &Vec<u64>) -> Result<u64, String>>(
    args: Vec<String>,
    registry: &mut ModelRegistry<M>,
    now: u64,
    ask: P,
    entry: CacheEntry<M>,
    rows: Seq<Seq<u64>>,
    r: Result<BBindData, String>,
)
    requires
        call_ensures(PredictBatchFn::bind::<M, P>, (&args, registry, now, &ask), r),
        args@.len() >= 2,
        serves(*old(registry), args@[0]@, entry),
        gives_rows(*old(registry), args@[1]@, rows),
        rows.len() > 0,
        entry.metadata.num_features == 0 || forall|i: int|
            0 <= i < rows.len() ==> (#[trigger] rows[i]).len() == entry.metadata.num_features,
        forall|m: &M, f: &Vec<u64>, e: String| !#[trigger] call_ensures(ask, (m, f), Err(e)),
    ensures
        r is Ok,
{
    let given = text::texts(args@);
    assert(given[0] == args@[0]@ && given[1] == args@[1]@);
    lemma_rows(*old(registry), args@[1]@, rows);
}

/// The texts of predictions, as they stand in a JSON array: the label that the rounded
/// prediction numbers, in quotes, where the model has labels; the number itself where it
/// has none.
pub open spec fn shows<N: Fn(u64) -> usize, S: Fn(u64) -> String, W: Fn(u64) -> String>(
    nearest: N,
    show: S,
    write: W,
    labels: Option<Seq<Seq<char>>>,
    value: u64,
    part: Seq<char>,
) -> bool {
    match labels {
        Some(known) => exists|at: usize| #[trigger]
            call_ensures(nearest, (value,), at) && if at < known.len() {
                part == json::json_quoted(known[at as int])
            } else {
                exists|s: String| #[trigger] call_ensures(show, (value,), s) && part == json::json_quoted(s@)
            },
        None => exists|s: String| #[trigger] call_ensures(write, (value,), s) && part == s@,
    }
}

/// A text is the JSON array of these parts.
pub open spec fn is_array_of(out: Seq<char>, parts: Seq<Seq<char>>) -> bool {
    out == seq!['['] + parts_text(parts) + seq![']']
}

/// Some parts with commas between them.
pub open spec fn parts_text(parts: Seq<Seq<char>>) -> Seq<char>
    decreases parts.len(),
{
    if parts.len() == 0 {
        Seq::empty()
    } else if parts.len() == 1 {
        parts[0]
    } else {
        parts_text(parts.drop_last()) + seq![','] + parts.last()
    }
}

proof fn lemma_joined(parts: Seq<Seq<char>>, n: nat)
    requires
        n <= parts.len(),
    ensures
        scalar::joined(parts, n) == parts_text(parts.take(n as int)),
    decreases n,
{
    reveal_strlit(",");
    assert(","@ =~= seq![',']);
    if n >= 2 {
        lemma_joined(parts, (n - 1) as nat);
        assert(parts.take(n as int).drop_last() =~= parts.take(n - 1));
        assert(parts.take(n as int).last() == parts[n - 1]);
    }
}

/// An array has its parts between brackets, with commas.
pub proof fn lemma_array(parts: Seq<Seq<char>>)
    ensures
        is_array_of(scalar::array_text(parts), parts),
{
    lemma_joined(parts, parts.len());
    assert(parts.take(parts.len() as int) =~= parts);
    reveal_strlit("[");
    reveal_strlit("]");
    assert("["@ =~= seq!['[']);
    assert("]"@ =~= seq![']']);
}

/// A text is the JSON array of predictions, one part for each in their order.
pub open spec fn written<N: Fn(u64) -> usize, S: Fn(u64) -> String, W: Fn(u64) -> String>(
    nearest: N,
    show: S,
    write: W,
    labels: Option<Seq<Seq<char>>>,
    values: Seq<u64>,
    out: Seq<char>,
) -> bool {
    exists|parts: Seq<Seq<char>>| #[trigger]
        is_array_of(out, parts) && parts.len() == values.len() && forall|i: int|
            0 <= i < parts.len() ==> shows(nearest, show, write, labels, values[i], #[trigger] parts[i])
}

proof fn lemma_written<N: Fn(u64) -> usize, S: Fn(u64) -> String, W: Fn(u64) -> String>(
    nearest: N,
    show: S,
    write: W,
    labels: Option<Seq<Seq<char>>>,
    values: Seq<u64>,
    out: Seq<char>,
)
    requires
        scalar::predictions_json(nearest, show, write, labels, values, out),
    ensures
        written(nearest, show, write, labels, values, out),
{
    match labels {
        Some(known) => {
            let decoded = choose|decoded: Seq<Seq<char>>| #[trigger]
                scalar::are_labels(nearest, show, known, values, decoded) && out == scalar::array_text(
                    scalar::quoted_all(decoded),
                );
            let parts = scalar::quoted_all(decoded);
            lemma_array(parts);
            assert forall|i: int| 0 <= i < parts.len() implies shows(
                nearest,
                show,
                write,
                Some(known),
                values[i],
                #[trigger] parts[i],
            ) by {
                assert(scalar::is_label(nearest, show, known, values[i], decoded[i]));
                let at = choose|at: usize| #[trigger]
                    call_ensures(nearest, (values[i],), at) && if at < known.len() {
                        decoded[i] == known[at as int]
                    } else {
                        scalar::writes(show, values[i], decoded[i])
                    };
                assert(call_ensures(nearest, (values[i],), at));
            }
            assert(is_array_of(out, parts));
        },
        None => {
            let parts = choose|parts: Seq<Seq<char>>| #[trigger]
                scalar::writes_all(write, values, parts) && out == scalar::array_text(parts);
            lemma_array(parts);
            assert forall|i: int| 0 <= i < parts.len() implies shows(
                nearest,
                show,
                write,
                None,
                values[i],
                #[trigger] parts[i],
            ) by {
                assert(scalar::writes(write, values[i], parts[i]));
            }
            assert(is_array_of(out, parts));
        },
    }
}

/// Predictions are written as a JSON array, one part for each in their order.
pub proof fn law_predictions_are_written_in_order<N: Fn(u64) -> usize, S: Fn(u64) -> String, W: Fn(u64) -> String>(
    values: Vec<u64>,
    labels: Option<&Vec<String>>,
    nearest: N,
    show: S,
    write: W,
    r: String,
)
    requires
        call_ensures(write_predictions::<N, S, W>, (&values, labels, &nearest, &show, &write), r),
    ensures
        written(
            nearest,
            show,
            write,
            match labels {
                Some(labels) => Some(labels@.map_values(|s: String| s@)),
                None => None,
            },
            values@,
            r@,
        ),
{
    if let Some(labels) = labels {
        assert(labels@.map_values(|s: String| s@) =~= text::texts(labels@));
    }
    lemma_written(
        nearest,
        show,
        write,
        match labels {
            Some(labels) => Some(labels@.map_values(|s: String| s@)),
            None => None,
        },
        values@,
        r@,
    );
}

/// A batch value asks the model that is cached under the first argument, row by row of
/// the second, and gives every row of the batch the same text.
pub proof fn law_batch_value_asks_each_row<
    M,
    P: Fn(&M, &Vec<u64>) -> Result<u64, String>,
    N: Fn(u64) -> usize,
    S: Fn(u64) -> String,
    W: Fn(u64) -> String,
>(
    n: usize,
    args: Vec<Option<String>>,
    registry: &mut ModelRegistry<M>,
    now: u64,
    ask: P,
    nearest: N,
    show: S,
    write: W,
    rows: Seq<Seq<u64>>,
    labels: Option<Seq<Seq<char>>>,
    v: Vec<String>,
)
    requires
        call_ensures(
            PredictBatchValueFn::invoke::<M, P, N, S, W>,
            (n, &args, registry, now, &ask, &nearest, &show, &write),
            Ok(v),
        ),
        args@.len() >= 2,
        args@[0] is Some,
        args@[1] is Some,
        json::json_document(args@[1]->0@) matches Ok(doc) && documents::is_table(doc, rows),
        old(registry)@.labels.contains_key(args@[0]->0@) ==> labels == Some(old(registry)@.labels[args@[0]->0@]),
        !old(registry)@.labels.contains_key(args@[0]->0@) ==> labels is None,
    ensures
        old(registry)@.models.contains_key(args@[0]->0@),
        v@.len() == n,
        forall|i: int, j: int| #![trigger v@[i], v@[j]] 0 <= i < n && 0 <= j < n ==> v@[i]@ == v@[j]@,
        n > 0 ==> exists|values: Seq<u64>| #[trigger]
            written(nearest, show, write, labels, values, v@[0]@) && values.len() == rows.len() && forall|i: int|
                0 <= i < rows.len() ==> is_answer(
                    ask,
                    old(registry)@.models[args@[0]->0@].model,
                    rows[i],
                    Ok(#[trigger] values[i]),
                ),
{
    assert(scalar::all_given(args@, 2));
    documents::lemma_table_text(args@[1]->0@, rows);
    let name = args@[0]->0@;
    let model = old(registry)@.models[name].model;
    let (values, out) = choose|values: Seq<u64>, out: Seq<char>| #[trigger]
        scalar::rows_predicted(ask, model, rows, Ok(values)) && #[trigger] scalar::predictions_json(
            nearest,
            show,
            write,
            labels,
            values,
            out,
        ) && text::texts(v@) == scalar::repeated(out, n as nat);
    assert(text::texts(v@).len() == n);
    assert forall|i: int| 0 <= i < n implies (#[trigger] v@[i])@ == out by {
        assert(text::texts(v@)[i] == v@[i]@);
        assert(scalar::repeated(out, n as nat)[i] == out);
    }
    assert forall|i: int| 0 <= i < rows.len() implies is_answer(ask, model, rows[i], Ok(#[trigger] values[i])) by {
        assert(predict::predicts(ask, model, rows[i], Ok(values[i])));
        lemma_answer(ask, model, rows[i], Ok(values[i]));
    }
    if n > 0 {
        lemma_written(nearest, show, write, labels, values, v@[0]@);
    }
}

/// Each row of features is embedded by the model that serves the name, and kept as the
/// bytes of the embedding; a null stays one.
pub proof fn law_embeddings_are_kept_as_bytes<M, E: Fn(&M, &Vec<u64>) -> Result<Vec<u32>, String>>(
    name: &String,
    rows: Vec<Option<String>>,
    registry: &mut ModelRegistry<M>,
    now: u64,
    ask: E,
    entry: CacheEntry<M>,
    features: Seq<u64>,
    out: Vec<Option<Vec<u8>>>,
    i: int,
)
    requires
        call_ensures(EmbedFn::invoke::<M, E>, (Some(name), &rows, registry, now, &ask), Ok(out)),
        serves(*old(registry), name@, entry),
        0 <= i < rows@.len(),
        rows@[i] matches Some(t) ==> (json::json_document(t@) matches Ok(doc) && documents::is_numbers(doc, features)),
    ensures
        out@.len() == rows@.len(),
        out@[i] is Some <==> rows@[i] is Some,
        rows@[i] is Some ==> exists|m: &M, f: &Vec<u64>, v: Vec<u32>| #[trigger]
            call_ensures(ask, (m, f), Ok(v)) && *m == entry.model && f@ == features && out@[i]->0@ == embed::packed(v@),
{
    if rows@[i] is Some {
        documents::lemma_numbers_text(rows@[i]->0@, features);
        assert(out@[i] is Some);
        let blob = out@[i]->0@;
        assert(embed::embeds_row(rows@[i]->0@, ask, entry.model, blob));
        let v = choose|v: Vec<u32>|
            embed::packed(v@) == blob && json::numbers_read(rows@[i]->0@) is Ok && #[trigger] embed::embed_answer(
                ask,
                entry.model,
                json::numbers_read(rows@[i]->0@)->Ok_0,
                Ok(v),
            );
        let (m, f) = choose|m: &M, f: &Vec<u64>|
            *m == entry.model && f@ == features && #[trigger] call_ensures(ask, (m, f), Ok(v));
        assert(call_ensures(ask, (m, f), Ok(v)));
    }
}

} // verus!
