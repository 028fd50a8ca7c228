//! The scalar SQL functions: arguments come as text, mostly JSON, and the first
//! row's arguments serve the whole batch.

use vstd::prelude::*;
use crate::json;
use crate::json::{parse_numbers, parse_strings, parse_table, quote_text};
use crate::model::registry;
use crate::model::registry::ModelRegistry;
use crate::predict;
use crate::predict::batch;
use crate::predict::{bad_features_message, not_loaded_message};
use crate::text;
use crate::text::{push_decimal, text_eq};

verus! {

/// The arguments are there, all of the first `n`.
pub open spec fn all_given(args: Seq<Option<String>>, n: nat) -> bool {
    forall|i: int| 0 <= i < n ==> (#[trigger] args[i]) is Some
}

/// The text of an argument that is there.
pub open spec fn given_text(args: Seq<Option<String>>, i: int) -> Seq<char> {
    args[i]->0@
}

/// The texts of the first `n` arguments.
pub open spec fn given_texts(args: Seq<Option<String>>, n: nat) -> Seq<Seq<char>> {
    Seq::new(n, |i: int| given_text(args, i))
}

/// The first `n` arguments as texts; an error where one is null.
pub fn col_strs(args: &Vec<Option<String>>, n: usize) -> (r: Result<Vec<String>, String>)
    requires
        n <= args@.len(),
    ensures
        match r {
            Ok(v) => all_given(args@, n as nat) && text::texts(v@) == given_texts(args@, n as nat),
            Err(e) => !all_given(args@, n as nat) && e@ == "NULL parameter"@,
        },
{
    let mut v: Vec<String> = Vec::new();
    let mut i: usize = 0;
    while i < n
        invariant
            n <= args@.len(),
            i <= n,
            v@.len() == i,
            all_given(args@, i as nat),
            forall|x: int| 0 <= x < i ==> (#[trigger] v@[x])@ == given_text(args@, x),
        decreases n - i,
    {
        match &args[i] {
            Some(s) => {
                v.push(s.clone());
            },
            None => {
                assert(!(args@[i as int] is Some));
                return Err("NULL parameter".to_owned());
            },
        }
        i = i + 1;
    }
    assert(text::texts(v@) =~= given_texts(args@, n as nat));
    Ok(v)
}

/// The same text for every row.
pub open spec fn repeated(s: Seq<char>, n: nat) -> Seq<Seq<char>> {
    Seq::new(n, |i: int| s)
}

/// Gives every row the same text.
pub fn repeat_text(s: &str, n: usize) -> (r: Vec<String>)
    ensures
        text::texts(r@) == repeated(s@, n as nat),
{
    let mut r: Vec<String> = Vec::new();
    let mut i: usize = 0;
    while i < n
        invariant
            i <= n,
            r@.len() == i,
            forall|x: int| 0 <= x < i ==> (#[trigger] r@[x])@ == s@,
        decreases n - i,
    {
        r.push(s.to_owned());
        i = i + 1;
    }
    assert(text::texts(r@) =~= repeated(s@, n as nat));
    r
}

/// `answer` is what the caller says to some texts.
pub open spec fn registers<R: Fn(&Vec<String>) -> Result<(), String>>(
    register: R,
    given: Seq<Seq<char>>,
    answer: Result<(), String>,
) -> bool {
    exists|v: &Vec<String>| text::texts(v@) == given && #[trigger] call_ensures(register, (v,), answer)
}

/// What a training function gives: the model's name for every row where the
/// caller registers the model, else the caller's error.
pub open spec fn train_outcome<R: Fn(&Vec<String>) -> Result<(), String>>(
    register: R,
    args: Seq<Option<String>>,
    wanted: nat,
    n: nat,
    r: Result<Vec<String>, String>,
) -> bool {
    if !all_given(args, wanted) {
        r matches Err(e) && e@ == "NULL parameter"@
    } else {
        match r {
            Ok(v) => registers(register, given_texts(args, wanted), Ok(())) && text::texts(v@) == repeated(
                given_text(args, 0),
                n,
            ),
            Err(e) => registers(register, given_texts(args, wanted), Err(e)),
        }
    }
}

fn train_with<R: Fn(&Vec<String>) -> Result<(), String>>(
    n: usize,
    args: &Vec<Option<String>>,
    wanted: usize,
    register: &R,
) -> (r: Result<Vec<String>, String>)
    requires
        0 < wanted <= args@.len(),
        forall|v: &Vec<String>| call_requires(*register, (v,)),
    ensures
        train_outcome(*register, args@, wanted as nat, n as nat, r),
{
    let texts: Vec<String> = match col_strs(args, wanted) {
        Ok(v) => v,
        Err(e) => {
            return Err(e);
        },
    };
    let v: &Vec<String> = &texts;
    let answer: Result<(), String> = register(v);
    proof {
        assert(call_ensures(*register, (v,), answer));
        assert(registers(*register, given_texts(args@, wanted as nat), answer));
        assert(text::texts(v@).len() == wanted);
        assert(text::texts(v@)[0] == given_text(args@, 0));
    }
    match answer {
        Ok(done) => {
            assert(done == ());
            Ok(repeat_text(texts[0].as_str(), n))
        },
        Err(e) => Err(e),
    }
}

/// `ml_train_model(model, algo, target_json, features_json, params_json)`:
/// trains and registers a model, and returns its name.
pub struct TrainModelFn;

impl TrainModelFn {
    /// `register` trains and registers by the five texts.
    pub fn invoke<R: Fn(&Vec<String>) -> Result<(), String>>(
        n: usize,
        args: &Vec<Option<String>>,
        register: &R,
    ) -> (r: Result<Vec<String>, String>)
        requires
            args@.len() >= 5,
            forall|v: &Vec<String>| call_requires(*register, (v,)),
        ensures
            train_outcome(*register, args@, 5, n as nat, r),
    {
        train_with(n, args, 5, register)
    }
}

/// `ml_km_train(model, time_json, event_json)`: trains and registers a survival
/// curve, and returns the name of the model.
pub struct KmTrainFn;

impl KmTrainFn {
    /// `register` trains and registers by the three texts.
    pub fn invoke<R: Fn(&Vec<String>) -> Result<(), String>>(
        n: usize,
        args: &Vec<Option<String>>,
        register: &R,
    ) -> (r: Result<Vec<String>, String>)
        requires
            args@.len() >= 3,
            forall|v: &Vec<String>| call_requires(*register, (v,)),
        ensures
            train_outcome(*register, args@, 3, n as nat, r),
    {
        train_with(n, args, 3, register)
    }
}

/// `ml_cox_train(model, time_json, event_json, features_json, params_json)`:
/// trains and registers proportional hazards, and returns the name of the model.
pub struct CoxTrainFn;

impl CoxTrainFn {
    /// `register` trains and registers by the five texts.
    pub fn invoke<R: Fn(&Vec<String>) -> Result<(), String>>(
        n: usize,
        args: &Vec<Option<String>>,
        register: &R,
    ) -> (r: Result<Vec<String>, String>)
        requires
            args@.len() >= 5,
            forall|v: &Vec<String>| call_requires(*register, (v,)),
        ensures
            train_outcome(*register, args@, 5, n as nat, r),
    {
        train_with(n, args, 5, register)
    }
}

/// Texts as the elements of a JSON array, up to the first `n`.
pub open spec fn joined(parts: Seq<Seq<char>>, n: nat) -> Seq<char>
    decreases n,
{
    if n == 0 {
        Seq::empty()
    } else if n == 1 {
        parts[0]
    } else {
        joined(parts, (n - 1) as nat) + ","@ + parts[n - 1]
    }
}

/// A JSON array of elements that are written already.
pub open spec fn array_text(parts: Seq<Seq<char>>) -> Seq<char> {
    "["@ + joined(parts, parts.len()) + "]"@
}

/// Writes a JSON array of elements that are written already.
pub fn write_array(parts: &Vec<String>) -> (r: String)
    ensures
        r@ == array_text(text::texts(parts@)),
{
    let ghost all = text::texts(parts@);
    let mut r: String = "[".to_owned();
    let mut i: usize = 0;
    assert(r@ =~= "["@ + joined(all, 0));
    while i < parts.len()
        invariant
            all == text::texts(parts@),
            i <= parts@.len(),
            r@ == "["@ + joined(all, i as nat),
        decreases parts.len() - i,
    {
        assert(all[i as int] == parts@[i as int]@);
        if i > 0 {
            r.append(",");
        }
        r.append(parts[i].as_str());
        i = i + 1;
        assert(r@ =~= "["@ + joined(all, i as nat));
    }
    r.append("]");
    assert(r@ =~= array_text(all));
    r
}

/// `answer` is the text of a number as the caller writes it.
pub open spec fn writes<W: Fn(u64) -> String>(write: W, value: u64, text: Seq<char>) -> bool {
    exists|s: String| s@ == text && #[trigger] call_ensures(write, (value,), s)
}

/// The texts are those of the numbers as the caller writes them.
pub open spec fn writes_all<W: Fn(u64) -> String>(write: W, values: Seq<u64>, parts: Seq<Seq<char>>) -> bool {
    &&& parts.len() == values.len()
    &&& forall|i: int| 0 <= i < values.len() ==> writes(write, values[i], #[trigger] parts[i])
}

/// Writes numbers one by one.
pub fn write_numbers<W: Fn(u64) -> String>(values: &Vec<u64>, write: &W) -> (r: Vec<String>)
    requires
        forall|value: u64| call_requires(*write, (value,)),
    ensures
        writes_all(*write, values@, text::texts(r@)),
{
    let mut r: Vec<String> = Vec::new();
    let mut i: usize = 0;
    while i < values.len()
        invariant
            forall|value: u64| call_requires(*write, (value,)),
            i <= values@.len(),
            r@.len() == i,
            forall|x: int| 0 <= x < i ==> writes(*write, values@[x], (#[trigger] r@[x])@),
        decreases values.len() - i,
    {
        let value: u64 = values[i];
        let s: String = write(value);
        assert(call_ensures(*write, (value,), s));
        r.push(s);
        i = i + 1;
    }
    proof {
        assert forall|x: int| 0 <= x < values@.len() implies writes(*write, values@[x], #[trigger] text::texts(r@)[x]) by {
            assert(text::texts(r@)[x] == r@[x]@);
        }
    }
    r
}

/// Writes numbers as a JSON array.
pub fn write_number_array<W: Fn(u64) -> String>(values: &Vec<u64>, write: &W) -> (r: String)
    requires
        forall|value: u64| call_requires(*write, (value,)),
    ensures
        numbers_json(*write, values@, r@),
{
    let parts: Vec<String> = write_numbers(values, write);
    assert(writes_all(*write, values@, text::texts(parts@)));
    write_array(&parts)
}

/// The label of a prediction: that of the rounded number where there is one,
/// else the number as text.
pub open spec fn is_label<N: Fn(u64) -> usize, S: Fn(u64) -> String>(
    nearest: N,
    show: S,
    labels: Seq<Seq<char>>,
    value: u64,
    label: Seq<char>,
) -> bool {
    exists|at: usize| #[trigger]
        call_ensures(nearest, (value,), at) && if at < labels.len() {
            label == labels[at as int]
        } else {
            writes(show, value, label)
        }
}

/// The predictions by their labels.
pub open spec fn are_labels<N: Fn(u64) -> usize, S: Fn(u64) -> String>(
    nearest: N,
    show: S,
    labels: Seq<Seq<char>>,
    values: Seq<u64>,
    decoded: Seq<Seq<char>>,
) -> bool {
    &&& decoded.len() == values.len()
    &&& forall|i: int| 0 <= i < values.len() ==> is_label(nearest, show, labels, values[i], #[trigger] decoded[i])
}

/// The JSON of predictions: an array of labels where the model was trained on
/// labels, else an array of numbers.
pub open spec fn predictions_json<N: Fn(u64) -> usize, S: Fn(u64) -> String, W: Fn(u64) -> String>(
    nearest: N,
    show: S,
    write: W,
    labels: Option<Seq<Seq<char>>>,
    values: Seq<u64>,
    out: Seq<char>,
) -> bool {
    match labels {
        Some(labels) => labels_json(nearest, show, labels, values, out),
        None => numbers_json(write, values, out),
    }
}

/// A JSON array of the labels of predictions.
pub open spec fn labels_json<N: Fn(u64) -> usize, S: Fn(u64) -> String>(
    nearest: N,
    show: S,
    labels: Seq<Seq<char>>,
    values: Seq<u64>,
    out: Seq<char>,
) -> bool {
    exists|decoded: Seq<Seq<char>>| #[trigger]
        are_labels(nearest, show, labels, values, decoded) && out == array_text(quoted_all(decoded))
}

/// A JSON array of numbers as the caller writes them.
pub open spec fn numbers_json<W: Fn(u64) -> String>(write: W, values: Seq<u64>, out: Seq<char>) -> bool {
    exists|parts: Seq<Seq<char>>| #[trigger] writes_all(write, values, parts) && out == array_text(parts)
}

/// Texts as JSON string literals.
pub open spec fn quoted_all(v: Seq<Seq<char>>) -> Seq<Seq<char>> {
    Seq::new(v.len(), |i: int| json::json_quoted(v[i]))
}

pub(crate) fn quote_texts(v: &Vec<String>) -> (r: Vec<String>)
    ensures
        text::texts(r@) == quoted_all(text::texts(v@)),
{
    let mut r: Vec<String> = Vec::new();
    let mut i: usize = 0;
    while i < v.len()
        invariant
            i <= v@.len(),
            r@.len() == i,
            forall|x: int| 0 <= x < i ==> (#[trigger] r@[x])@ == json::json_quoted(v@[x]@),
        decreases v.len() - i,
    {
        r.push(quote_text(v[i].as_str()));
        i = i + 1;
    }
    assert(text::texts(r@) =~= quoted_all(text::texts(v@)));
    r
}

/// Turns predictions into labels.
fn decode_labels<N: Fn(u64) -> usize, S: Fn(u64) -> String>(
    values: &Vec<u64>,
    labels: &Vec<String>,
    nearest: &N,
    show: &S,
) -> (r: Vec<String>)
    requires
        forall|value: u64| call_requires(*nearest, (value,)),
        forall|value: u64| call_requires(*show, (value,)),
    ensures
        are_labels(*nearest, *show, text::texts(labels@), values@, text::texts(r@)),
{
    let ghost known = text::texts(labels@);
    let mut r: Vec<String> = Vec::new();
    let mut i: usize = 0;
    while i < values.len()
        invariant
            forall|value: u64| call_requires(*nearest, (value,)),
            forall|value: u64| call_requires(*show, (value,)),
            known == text::texts(labels@),
            i <= values@.len(),
            r@.len() == i,
            forall|x: int| 0 <= x < i ==> is_label(*nearest, *show, known, values@[x], (#[trigger] r@[x])@),
        decreases values.len() - i,
    {
        let value: u64 = values[i];
        let at: usize = nearest(value);
        assert(call_ensures(*nearest, (value,), at));
        let label: String = if at < labels.len() {
            assert(known[at as int] == labels@[at as int]@);
            labels[at].clone()
        } else {
            let s: String = show(value);
            assert(call_ensures(*show, (value,), s));
            assert(writes(*show, value, s@));
            s
        };
        assert(is_label(*nearest, *show, known, value, label@));
        r.push(label);
        i = i + 1;
    }
    proof {
        assert forall|x: int| 0 <= x < values@.len() implies is_label(
            *nearest,
            *show,
            known,
            values@[x],
            #[trigger] text::texts(r@)[x],
        ) by {
            assert(text::texts(r@)[x] == r@[x]@);
        }
    }
    r
}

/// Writes predictions as JSON.
pub fn write_predictions<N: Fn(u64) -> usize, S: Fn(u64) -> String, W: Fn(u64) -> String>(
    values: &Vec<u64>,
    labels: Option<&Vec<String>>,
    nearest: &N,
    show: &S,
    write: &W,
) -> (r: String)
    requires
        forall|value: u64| call_requires(*nearest, (value,)),
        forall|value: u64| call_requires(*show, (value,)),
        forall|value: u64| call_requires(*write, (value,)),
    ensures
        predictions_json(
            *nearest,
            *show,
            *write,
            match labels {
                Some(labels) => Some(text::texts(labels@)),
                None => None,
            },
            values@,
            r@,
        ),
{
    match labels {
        Some(labels) => {
            let decoded: Vec<String> = decode_labels(values, labels, nearest, show);
            assert(are_labels(*nearest, *show, text::texts(labels@), values@, text::texts(decoded@)));
            let out: String = write_array(&quote_texts(&decoded));
            assert(labels_json(*nearest, *show, text::texts(labels@), values@, out@));
            out
        },
        None => write_number_array(values, write),
    }
}

/// What asking a model row by row gives: a prediction for each row, or the error
/// of the first row for which there is one.
pub open spec fn rows_predicted<M, P: Fn(&M, &Vec<u64>) -> Result<u64, String>>(
    ask: P,
    model: M,
    rows: Seq<Seq<u64>>,
    came: Result<Seq<u64>, String>,
) -> bool {
    match came {
        Ok(values) => values.len() == rows.len() && forall|i: int|
            0 <= i < rows.len() ==> predict::predicts(ask, model, rows[i], Ok(#[trigger] values[i])),
        Err(e) => exists|i: int|
            0 <= i < rows.len() && predict::predicts(ask, model, #[trigger] rows[i], Err(e)) && forall|j: int|
                0 <= j < i ==> batch::answers(ask, model, #[trigger] rows[j]),
    }
}

/// Asks a model row by row.
pub(crate) fn ask_rows<M, P: Fn(&M, &Vec<u64>) -> Result<u64, String>>(model: &M, rows: &Vec<Vec<u64>>, ask: &P) -> (r: Result<
    Vec<u64>,
    String,
>)
    requires
        forall|m: &M, f: &Vec<u64>| call_requires(*ask, (m, f)),
    ensures
        rows_predicted(
            *ask,
            *model,
            json::rows_of(rows@),
            match r {
                Ok(v) => Ok(v@),
                Err(e) => Err(e),
            },
        ),
{
    let ghost shown = json::rows_of(rows@);
    let mut values: Vec<u64> = Vec::new();
    let mut i: usize = 0;
    while i < rows.len()
        invariant
            forall|m: &M, f: &Vec<u64>| call_requires(*ask, (m, f)),
            shown == json::rows_of(rows@),
            i <= rows@.len(),
            values@.len() == i,
            forall|x: int| 0 <= x < i ==> predict::predicts(*ask, *model, shown[x], Ok(#[trigger] values@[x])),
        decreases rows.len() - i,
    {
        let f = &rows[i];
        let answer: Result<u64, String> = ask(model, f);
        proof {
            assert(shown[i as int] == f@);
            assert(call_ensures(*ask, (model, f), answer));
            assert(predict::predicts(*ask, *model, shown[i as int], answer));
        }
        match answer {
            Ok(value) => {
                values.push(value);
            },
            Err(e) => {
                proof {
                    assert forall|j: int| 0 <= j < i implies batch::answers(*ask, *model, #[trigger] shown[j]) by {
                        assert(predict::predicts(*ask, *model, shown[j], Ok(values@[j])));
                    }
                }
                return Err(e);
            },
        }
        i = i + 1;
    }
    Ok(values)
}

/// `ml_predict_batch_value(model, features_json)`: the predictions of a model as
/// a JSON array.
pub struct PredictBatchValueFn;

/// What asking a registered model gives: the JSON of its predictions for every
/// row of the batch, or its first error.
pub open spec fn value_outcome<
    M,
    P: Fn(&M, &Vec<u64>) -> Result<u64, String>,
    N: Fn(u64) -> usize,
    S: Fn(u64) -> String,
    W: Fn(u64) -> String,
>(
    ask: P,
    nearest: N,
    show: S,
    write: W,
    model: M,
    labels: Option<Seq<Seq<char>>>,
    x: Seq<Seq<u64>>,
    n: nat,
    r: Result<Vec<String>, String>,
) -> bool {
    match r {
        Ok(v) => exists|values: Seq<u64>, out: Seq<char>| #[trigger]
            rows_predicted(ask, model, x, Ok(values)) && #[trigger] predictions_json(
                nearest,
                show,
                write,
                labels,
                values,
                out,
            ) && text::texts(v@) == repeated(out, n),
        Err(e) => rows_predicted(ask, model, x, Err(e)),
    }
}

impl PredictBatchValueFn {
    /// `ask` asks the model; `nearest` rounds a prediction to the number of a
    /// label; `show` and `write` give a number as text and as JSON.
    pub fn invoke<
        M,
        P: Fn(&M, &Vec<u64>) -> Result<u64, String>,
        N: Fn(u64) -> usize,
        S: Fn(u64) -> String,
        W: Fn(u64) -> String,
    >(
        n: usize,
        args: &Vec<Option<String>>,
        registry: &mut ModelRegistry<M>,
        now: u64,
        ask: &P,
        nearest: &N,
        show: &S,
        write: &W,
    ) -> (r: Result<Vec<String>, String>)
        requires
            args@.len() >= 2,
            old(registry).well_formed(),
            forall|m: &M, f: &Vec<u64>| call_requires(*ask, (m, f)),
            forall|value: u64| call_requires(*nearest, (value,)),
            forall|value: u64| call_requires(*show, (value,)),
            forall|value: u64| call_requires(*write, (value,)),
        ensures
            final(registry).well_formed(),
            if !all_given(args@, 2) {
                r matches Err(e) && e@ == "NULL parameter"@ && final(registry)@ == old(registry)@
            } else {
                let name = given_text(args@, 0);
                let features = given_text(args@, 1);
                match json::table_read(features) {
                    Err(problem) => r matches Err(e) && e@ == "Invalid features JSON '"@ + features + "': "@ + problem
                        && final(registry)@ == old(registry)@,
                    Ok(x) => if old(registry)@.models.contains_key(name) {
                        &&& final(registry)@ == registry::touched(old(registry)@, name, now)
                        &&& value_outcome(
                            *ask,
                            *nearest,
                            *show,
                            *write,
                            old(registry)@.models[name].model,
                            if old(registry)@.labels.contains_key(name) {
                                Some(old(registry)@.labels[name])
                            } else {
                                None
                            },
                            x,
                            n as nat,
                            r,
                        )
                    } else {
                        r matches Err(e) && e@ == predict::not_loaded(name) && final(registry)@ == old(registry)@
                    },
                }
            },
    {
        let texts: Vec<String> = match col_strs(args, 2) {
            Ok(v) => v,
            Err(e) => {
                return Err(e);
            },
        };
        proof {
            assert(text::texts(texts@).len() == 2);
            assert(text::texts(texts@)[0] == given_text(args@, 0));
            assert(text::texts(texts@)[1] == given_text(args@, 1));
        }
        let x: Vec<Vec<u64>> = match parse_table(texts[1].as_str()) {
            Ok(x) => x,
            Err(problem) => {
                return Err(bad_features_message(texts[1].as_str(), problem.as_str()));
            },
        };
        let asked: Result<Vec<u64>, String> = match registry.get(texts[0].as_str(), now) {
            Some(entry) => ask_rows(&entry.model, &x, ask),
            None => {
                return Err(not_loaded_message(texts[0].as_str()));
            },
        };
        let values: Vec<u64> = match asked {
            Ok(values) => values,
            Err(e) => {
                return Err(e);
            },
        };
        let labels: Option<&Vec<String>> = registry.label_map_for(texts[0].as_str());
        let out: String = write_predictions(&values, labels, nearest, show, write);
        let r: Vec<String> = repeat_text(out.as_str(), n);
        proof {
            let kept: Option<Seq<Seq<char>>> = match labels {
                Some(labels) => Some(text::texts(labels@)),
                None => None,
            };
            assert(rows_predicted(
                *ask,
                old(registry)@.models[given_text(args@, 0)].model,
                json::rows_of(x@),
                Ok::<Seq<u64>, String>(values@),
            ));
            assert(predictions_json(*nearest, *show, *write, kept, values@, out@));
        }
        Ok(r)
    }
}

/// A least-squares fit; the numbers are the bits of doubles.
#[derive(Debug, PartialEq, Eq)]
pub struct OlsFit {
    /// The coefficients of the features, and the intercept behind them.
    pub coefficients: Vec<u64>,
    pub intercept: u64,
    pub r_squared: Option<u64>,
    pub mse: Option<u64>,
    pub num_samples: usize,
}

/// What `ml_ols` reports.
#[derive(Debug, PartialEq, Eq)]
pub struct OlsReport {
    pub coefficients: Vec<u64>,
    pub intercept: u64,
    pub r_squared: Option<u64>,
    pub mse: Option<u64>,
    pub n_samples: usize,
    pub n_features: usize,
}

/// The report is that of a fit.
pub open spec fn reports(fit: OlsFit, n_features: nat, report: OlsReport) -> bool {
    &&& report.coefficients@ == fit.coefficients@.drop_last()
    &&& report.intercept == fit.intercept
    &&& report.r_squared == fit.r_squared
    &&& report.mse == fit.mse
    &&& report.n_samples == fit.num_samples
    &&& report.n_features == n_features
}

/// The numbers of a JSON array, or the message that it is none.
pub open spec fn column(text: Seq<char>) -> Result<Seq<u64>, Seq<char>> {
    match json::numbers_read(text) {
        Ok(v) => Ok(v),
        Err(e) => Err("Invalid JSON array '"@ + text + "': "@ + e),
    }
}

fn parse_f64_json(s: &str) -> (r: Result<Vec<u64>, String>)
    ensures
        match r {
            Ok(v) => column(s@) == Ok::<Seq<u64>, Seq<char>>(v@),
            Err(e) => column(s@) == Err::<Seq<u64>, Seq<char>>(e@),
        },
{
    match parse_numbers(s) {
        Ok(v) => Ok(v),
        Err(problem) => {
            let mut e: String = "Invalid JSON array '".to_owned();
            e.append(s);
            e.append("': ");
            e.append(problem.as_str());
            Err(e)
        },
    }
}

/// The feature columns among the first `m` arguments behind the target, or what
/// is wrong with the first one with which anything is.
pub open spec fn columns(args: Seq<Seq<char>>, n: nat, m: nat) -> Result<Seq<Seq<u64>>, Seq<char>>
    decreases m,
{
    if m == 0 {
        Ok(Seq::empty())
    } else {
        match columns(args, n, (m - 1) as nat) {
            Err(e) => Err(e),
            Ok(before) => match column(args[m as int]) {
                Err(e) => Err(e),
                Ok(c) => if c.len() != n {
                    Err(
                        "ml_ols length mismatch: y has "@ + text::decimal(n) + " samples, x"@ + text::decimal(m)
                            + " has "@ + text::decimal(c.len()),
                    )
                } else {
                    Ok(before.push(c))
                },
            },
        }
    }
}

/// Row `r` of a table that is given column by column.
pub open spec fn table_row(cols: Seq<Seq<u64>>, r: int) -> Seq<u64> {
    Seq::new(cols.len(), |c: int| cols[c][r])
}

/// The rows of a table that is given column by column.
pub open spec fn transposed(cols: Seq<Seq<u64>>, n: nat) -> Seq<Seq<u64>> {
    Seq::new(n, |r: int| table_row(cols, r))
}

/// The target and the feature rows of a fit, or what is wrong with the
/// arguments.
pub open spec fn ols_data(args: Seq<Seq<char>>) -> Result<(Seq<u64>, Seq<Seq<u64>>), Seq<char>> {
    if args.len() < 2 {
        Err("ml_ols requires at least 2 arguments: y, x1[, x2, ...]"@)
    } else {
        match column(args[0]) {
            Err(e) => Err(e),
            Ok(y) => if y.len() == 0 {
                Err("ml_ols: empty target array"@)
            } else {
                match columns(args, y.len(), (args.len() - 1) as nat) {
                    Err(e) => Err(e),
                    Ok(cols) => Ok((y, transposed(cols, y.len()))),
                }
            },
        }
    }
}

/// `answer` is what the caller fits.
pub open spec fn fits<F: Fn(&Vec<Vec<u64>>, &Vec<u64>) -> Result<OlsFit, String>>(
    fit: F,
    x: Seq<Seq<u64>>,
    y: Seq<u64>,
    answer: Result<OlsFit, String>,
) -> bool {
    exists|a: &Vec<Vec<u64>>, b: &Vec<u64>|
        json::rows_of(a@) == x && b@ == y && #[trigger] call_ensures(fit, (a, b), answer)
}

/// The caller gives a fit of which this is the report.
pub open spec fn is_reported<F: Fn(&Vec<Vec<u64>>, &Vec<u64>) -> Result<OlsFit, String>>(
    fit: F,
    x: Seq<Seq<u64>>,
    y: Seq<u64>,
    n_features: nat,
    report: OlsReport,
) -> bool {
    exists|f: OlsFit| #[trigger] fits(fit, x, y, Ok(f)) && reports(f, n_features, report)
}

/// What a least-squares report over JSON columns comes to.
pub open spec fn ols_outcome<F: Fn(&Vec<Vec<u64>>, &Vec<u64>) -> Result<OlsFit, String>>(
    fit: F,
    args: Seq<Seq<char>>,
    r: Result<OlsReport, String>,
) -> bool {
    match ols_data(args) {
        Err(message) => r matches Err(e) && e@ == message,
        Ok(data) => match r {
            Ok(report) => is_reported(fit, data.1, data.0, (args.len() - 1) as nat, report),
            Err(e) => fits(fit, data.1, data.0, Err(e)),
        },
    }
}

proof fn lemma_columns_stay_wrong(args: Seq<Seq<char>>, n: nat, k: nat, m: nat)
    requires
        k <= m,
        columns(args, n, k) is Err,
    ensures
        columns(args, n, m) == columns(args, n, k),
    decreases m,
{
    if k < m {
        lemma_columns_stay_wrong(args, n, k, (m - 1) as nat);
    }
}

proof fn lemma_columns_are_long(args: Seq<Seq<char>>, n: nat, m: nat)
    ensures
        columns(args, n, m) matches Ok(cols) ==> cols.len() == m && forall|c: int|
            0 <= c < m ==> (#[trigger] cols[c]).len() == n,
    decreases m,
{
    if m > 0 {
        lemma_columns_are_long(args, n, (m - 1) as nat);
    }
}

fn read_columns(args: &Vec<String>, n: usize) -> (r: Result<Vec<Vec<u64>>, String>)
    requires
        args@.len() >= 1,
    ensures
        match r {
            Ok(cols) => columns(text::texts(args@), n as nat, (args@.len() - 1) as nat) == Ok::<
                Seq<Seq<u64>>,
                Seq<char>,
            >(json::rows_of(cols@)),
            Err(e) => columns(text::texts(args@), n as nat, (args@.len() - 1) as nat) == Err::<
                Seq<Seq<u64>>,
                Seq<char>,
            >(e@),
        },
{
    let ghost given = text::texts(args@);
    let mut cols: Vec<Vec<u64>> = Vec::new();
    let mut i: usize = 1;
    assert(json::rows_of(cols@) =~= Seq::empty());
    while i < args.len()
        invariant
            given == text::texts(args@),
            1 <= i <= args@.len(),
            columns(given, n as nat, (i - 1) as nat) == Ok::<Seq<Seq<u64>>, Seq<char>>(json::rows_of(cols@)),
        decreases args.len() - i,
    {
        let ghost before = json::rows_of(cols@);
        assert(given[i as int] == args@[i as int]@);
        let col: Vec<u64> = match parse_f64_json(args[i].as_str()) {
            Ok(col) => col,
            Err(e) => {
                proof {
                    assert(columns(given, n as nat, i as nat) == Err::<Seq<Seq<u64>>, Seq<char>>(e@));
                    lemma_columns_stay_wrong(given, n as nat, i as nat, (given.len() - 1) as nat);
                }
                return Err(e);
            },
        };
        if col.len() != n {
            let mut e: String = "ml_ols length mismatch: y has ".to_owned();
            push_decimal(&mut e, n as u64);
            e.append(" samples, x");
            push_decimal(&mut e, i as u64);
            e.append(" has ");
            push_decimal(&mut e, col.len() as u64);
            proof {
                assert(columns(given, n as nat, i as nat) == Err::<Seq<Seq<u64>>, Seq<char>>(e@));
                lemma_columns_stay_wrong(given, n as nat, i as nat, (given.len() - 1) as nat);
            }
            return Err(e);
        }
        cols.push(col);
        assert(json::rows_of(cols@) =~= before.push(col@));
        i = i + 1;
    }
    Ok(cols)
}

/// Turns columns into rows.
fn transpose(cols: &Vec<Vec<u64>>, n: usize) -> (r: Vec<Vec<u64>>)
    requires
        forall|c: int| 0 <= c < cols@.len() ==> (#[trigger] cols@[c])@.len() == n,
    ensures
        json::rows_of(r@) == transposed(json::rows_of(cols@), n as nat),
{
    let ghost shown = json::rows_of(cols@);
    let mut r: Vec<Vec<u64>> = Vec::new();
    let mut i: usize = 0;
    while i < n
        invariant
            shown == json::rows_of(cols@),
            forall|c: int| 0 <= c < cols@.len() ==> (#[trigger] cols@[c])@.len() == n,
            i <= n,
            r@.len() == i,
            forall|x: int| 0 <= x < i ==> (#[trigger] r@[x])@ == table_row(shown, x),
        decreases n - i,
    {
        let mut row: Vec<u64> = Vec::new();
        let mut c: usize = 0;
        while c < cols.len()
            invariant
                shown == json::rows_of(cols@),
                forall|x: int| 0 <= x < cols@.len() ==> (#[trigger] cols@[x])@.len() == n,
                i < n,
                c <= cols@.len(),
                row@.len() == c,
                forall|x: int| 0 <= x < c ==> #[trigger] row@[x] == shown[x][i as int],
            decreases cols.len() - c,
        {
            assert(shown[c as int] == cols@[c as int]@);
            row.push(cols[c][i]);
            c = c + 1;
        }
        assert(row@ =~= table_row(shown, i as int));
        r.push(row);
        i = i + 1;
    }
    assert(json::rows_of(r@) =~= transposed(shown, n as nat));
    r
}

/// Fits a line through JSON columns: the first argument is the target, the others
/// are the features. `fit` fits over rows.
pub fn ols_from_json<F: Fn(&Vec<Vec<u64>>, &Vec<u64>) -> Result<OlsFit, String>>(args: &Vec<String>, fit: &F) -> (r: Result<
    OlsReport,
    String,
>)
    requires
        forall|a: &Vec<Vec<u64>>, b: &Vec<u64>| call_requires(*fit, (a, b)),
        forall|a: &Vec<Vec<u64>>, b: &Vec<u64>, f: OlsFit| #[trigger]
            call_ensures(*fit, (a, b), Ok(f)) ==> f.coefficients@.len() > 0,
    ensures
        ols_outcome(*fit, text::texts(args@), r),
{
    let ghost given = text::texts(args@);
    if args.len() < 2 {
        return Err("ml_ols requires at least 2 arguments: y, x1[, x2, ...]".to_owned());
    }
    let y: Vec<u64> = match parse_f64_json(args[0].as_str()) {
        Ok(y) => y,
        Err(e) => {
            return Err(e);
        },
    };
    if y.len() == 0 {
        return Err("ml_ols: empty target array".to_owned());
    }
    let cols: Vec<Vec<u64>> = match read_columns(args, y.len()) {
        Ok(cols) => cols,
        Err(e) => {
            return Err(e);
        },
    };
    proof {
        lemma_columns_are_long(given, y@.len(), (given.len() - 1) as nat);
        assert forall|c: int| 0 <= c < cols@.len() implies (#[trigger] cols@[c])@.len() == y@.len() by {
            assert(json::rows_of(cols@)[c] == cols@[c]@);
        }
    }
    let rows: Vec<Vec<u64>> = transpose(&cols, y.len());
    let a: &Vec<Vec<u64>> = &rows;
    let b: &Vec<u64> = &y;
    let answer: Result<OlsFit, String> = fit(a, b);
    proof {
        assert(call_ensures(*fit, (a, b), answer));
        assert(fits(*fit, json::rows_of(rows@), y@, answer));
    }
    match answer {
        Ok(f) => {
            let ghost shown = f;
            let mut coefficients: Vec<u64> = f.coefficients;
            coefficients.pop();
            let report = OlsReport {
                coefficients,
                intercept: f.intercept,
                r_squared: f.r_squared,
                mse: f.mse,
                n_samples: f.num_samples,
                n_features: args.len() - 1,
            };
            proof {
                assert(fits(*fit, json::rows_of(rows@), y@, Ok(shown)));
                assert(report.coefficients@ =~= shown.coefficients@.drop_last());
                assert(reports(shown, (given.len() - 1) as nat, report));
                assert(is_reported(*fit, json::rows_of(rows@), y@, (given.len() - 1) as nat, report));
            }
            Ok(report)
        },
        Err(e) => Err(e),
    }
}

/// A number or `null`, as the caller writes it.
pub open spec fn writes_option<W: Fn(u64) -> String>(write: W, value: Option<u64>, text: Seq<char>) -> bool {
    match value {
        Some(x) => writes(write, x, text),
        None => text == "null"@,
    }
}

pub(crate) fn write_option<W: Fn(u64) -> String>(value: Option<u64>, write: &W) -> (r: String)
    requires
        forall|x: u64| call_requires(*write, (x,)),
    ensures
        writes_option(*write, value, r@),
{
    match value {
        Some(x) => {
            let s: String = write(x);
            assert(call_ensures(*write, (x,), s));
            s
        },
        None => "null".to_owned(),
    }
}

pub(crate) fn write_value<W: Fn(u64) -> String>(value: u64, write: &W) -> (r: String)
    requires
        forall|x: u64| call_requires(*write, (x,)),
    ensures
        writes(*write, value, r@),
{
    let s: String = write(value);
    assert(call_ensures(*write, (value,), s));
    s
}

/// The JSON text of a report: an object with its parts by name.
pub open spec fn report_text(
    coefficients: Seq<char>,
    intercept: Seq<char>,
    mse: Seq<char>,
    n_features: nat,
    n_samples: nat,
    r_squared: Seq<char>,
) -> Seq<char> {
    "{\"coefficients\":"@ + coefficients + ",\"intercept\":"@ + intercept + ",\"mse\":"@ + mse
        + ",\"n_features\":"@ + text::decimal(n_features) + ",\"n_samples\":"@ + text::decimal(n_samples)
        + ",\"r_squared\":"@ + r_squared + "}"@
}

/// The text is the JSON of a report, with the numbers as the caller writes them.
pub open spec fn report_json<W: Fn(u64) -> String>(write: W, report: OlsReport, out: Seq<char>) -> bool {
    exists|coefficients: Seq<char>, intercept: Seq<char>, mse: Seq<char>, r_squared: Seq<char>| #[trigger]
        numbers_json(write, report.coefficients@, coefficients) && #[trigger] writes(write, report.intercept, intercept)
            && #[trigger] writes_option(write, report.mse, mse) && #[trigger] writes_option(
            write,
            report.r_squared,
            r_squared,
        ) && out == report_text(
            coefficients,
            intercept,
            mse,
            report.n_features as nat,
            report.n_samples as nat,
            r_squared,
        )
}

/// Writes a report as JSON.
pub fn write_report<W: Fn(u64) -> String>(report: &OlsReport, write: &W) -> (r: String)
    requires
        forall|x: u64| call_requires(*write, (x,)),
    ensures
        report_json(*write, *report, r@),
{
    let coefficients: String = write_number_array(&report.coefficients, write);
    let intercept: String = write_value(report.intercept, write);
    let mse: String = write_option(report.mse, write);
    let r_squared: String = write_option(report.r_squared, write);
    let mut r: String = "{\"coefficients\":".to_owned();
    r.append(coefficients.as_str());
    r.append(",\"intercept\":");
    r.append(intercept.as_str());
    r.append(",\"mse\":");
    r.append(mse.as_str());
    r.append(",\"n_features\":");
    push_decimal(&mut r, report.n_features as u64);
    r.append(",\"n_samples\":");
    push_decimal(&mut r, report.n_samples as u64);
    r.append(",\"r_squared\":");
    r.append(r_squared.as_str());
    r.append("}");
    proof {
        assert(numbers_json(*write, report.coefficients@, coefficients@));
        assert(writes(*write, report.intercept, intercept@));
        assert(writes_option(*write, report.mse, mse@));
        assert(writes_option(*write, report.r_squared, r_squared@));
        assert(r@ == report_text(
            coefficients@,
            intercept@,
            mse@,
            report.n_features as nat,
            report.n_samples as nat,
            r_squared@,
        ));
    }
    r
}

/// `ml_ols(y_json, x1_json, x2_json, ...)`: a least-squares fit over JSON
/// columns, reported as a JSON object.
pub struct OlsFn;

/// The JSON of a report of the fit, for every row of the batch.
pub open spec fn ols_rows<F: Fn(&Vec<Vec<u64>>, &Vec<u64>) -> Result<OlsFit, String>, W: Fn(u64) -> String>(
    fit: F,
    write: W,
    args: Seq<Seq<char>>,
    rows: Seq<Seq<char>>,
) -> bool {
    exists|report: OlsReport, out: Seq<char>| #[trigger]
        ols_outcome(fit, args, Ok(report)) && #[trigger] report_json(write, report, out) && rows == repeated(
            out,
            rows.len(),
        )
}

impl OlsFn {
    pub fn invoke<F: Fn(&Vec<Vec<u64>>, &Vec<u64>) -> Result<OlsFit, String>, W: Fn(u64) -> String>(
        n: usize,
        args: &Vec<Option<String>>,
        fit: &F,
        write: &W,
    ) -> (r: Result<Vec<String>, String>)
        requires
            forall|a: &Vec<Vec<u64>>, b: &Vec<u64>| call_requires(*fit, (a, b)),
            forall|a: &Vec<Vec<u64>>, b: &Vec<u64>, f: OlsFit| #[trigger]
                call_ensures(*fit, (a, b), Ok(f)) ==> f.coefficients@.len() > 0,
            forall|x: u64| call_requires(*write, (x,)),
        ensures
            if !all_given(args@, args@.len()) {
                r matches Err(e) && e@ == "NULL parameter"@
            } else {
                match r {
                    Ok(v) => v@.len() == n && ols_rows(
                        *fit,
                        *write,
                        given_texts(args@, args@.len()),
                        text::texts(v@),
                    ),
                    Err(e) => ols_outcome(*fit, given_texts(args@, args@.len()), Err(e)),
                }
            },
    {
        let texts: Vec<String> = match col_strs(args, args.len()) {
            Ok(v) => v,
            Err(e) => {
                return Err(e);
            },
        };
        match ols_from_json(&texts, fit) {
            Ok(report) => {
                let out: String = write_report(&report, write);
                let v: Vec<String> = repeat_text(out.as_str(), n);
                proof {
                    assert(text::texts(v@).len() == n);
                    assert(ols_outcome(*fit, given_texts(args@, args@.len()), Ok(report)));
                    assert(report_json(*write, report, out@));
                }
                Ok(v)
            },
            Err(e) => Err(e),
        }
    }
}

/// What oversampling gives; the numbers are the bits of doubles.
#[derive(Debug, PartialEq, Eq)]
pub struct Smote {
    pub synthetic_x: Vec<Vec<u64>>,
    pub synthetic_y: Vec<u64>,
    pub minority_label: u64,
    pub total_before: usize,
    pub total_after: usize,
}

/// The texts are JSON arrays of the rows.
pub open spec fn writes_rows<W: Fn(u64) -> String>(write: W, rows: Seq<Seq<u64>>, parts: Seq<Seq<char>>) -> bool {
    &&& parts.len() == rows.len()
    &&& forall|i: int| 0 <= i < rows.len() ==> numbers_json(write, rows[i], #[trigger] parts[i])
}

/// The text is a JSON array of arrays of numbers.
pub open spec fn table_json<W: Fn(u64) -> String>(write: W, rows: Seq<Seq<u64>>, out: Seq<char>) -> bool {
    exists|parts: Seq<Seq<char>>| #[trigger] writes_rows(write, rows, parts) && out == array_text(parts)
}

fn write_table<W: Fn(u64) -> String>(rows: &Vec<Vec<u64>>, write: &W) -> (r: String)
    requires
        forall|x: u64| call_requires(*write, (x,)),
    ensures
        table_json(*write, json::rows_of(rows@), r@),
{
    let mut parts: Vec<String> = Vec::new();
    let mut i: usize = 0;
    while i < rows.len()
        invariant
            forall|x: u64| call_requires(*write, (x,)),
            i <= rows@.len(),
            parts@.len() == i,
            forall|x: int| 0 <= x < i ==> numbers_json(*write, rows@[x]@, (#[trigger] parts@[x])@),
        decreases rows.len() - i,
    {
        parts.push(write_number_array(&rows[i], write));
        i = i + 1;
    }
    proof {
        assert forall|x: int| 0 <= x < rows@.len() implies numbers_json(
            *write,
            json::rows_of(rows@)[x],
            #[trigger] text::texts(parts@)[x],
        ) by {
            assert(text::texts(parts@)[x] == parts@[x]@);
        }
        assert(writes_rows(*write, json::rows_of(rows@), text::texts(parts@)));
    }
    write_array(&parts)
}

/// The JSON text of an oversampling.
pub open spec fn smote_text(after: nat, before: nat, minority: Seq<char>, x: Seq<char>, y: Seq<char>) -> Seq<char> {
    "{\"after\":"@ + text::decimal(after) + ",\"before\":"@ + text::decimal(before) + ",\"minority\":"@ + minority
        + ",\"x\":"@ + x + ",\"y\":"@ + y + "}"@
}

/// The text is the JSON of an oversampling, with the numbers as the caller writes
/// them.
pub open spec fn smote_json<W: Fn(u64) -> String>(write: W, s: Smote, out: Seq<char>) -> bool {
    exists|minority: Seq<char>, x: Seq<char>, y: Seq<char>| #[trigger]
        writes(write, s.minority_label, minority) && #[trigger] table_json(write, json::rows_of(s.synthetic_x@), x)
            && #[trigger] numbers_json(write, s.synthetic_y@, y) && out == smote_text(
            s.total_after as nat,
            s.total_before as nat,
            minority,
            x,
            y,
        )
}

/// Writes an oversampling as JSON.
pub fn write_smote<W: Fn(u64) -> String>(s: &Smote, write: &W) -> (r: String)
    requires
        forall|x: u64| call_requires(*write, (x,)),
    ensures
        smote_json(*write, *s, r@),
{
    let minority: String = write_value(s.minority_label, write);
    let x: String = write_table(&s.synthetic_x, write);
    let y: String = write_number_array(&s.synthetic_y, write);
    let mut r: String = "{\"after\":".to_owned();
    push_decimal(&mut r, s.total_after as u64);
    r.append(",\"before\":");
    push_decimal(&mut r, s.total_before as u64);
    r.append(",\"minority\":");
    r.append(minority.as_str());
    r.append(",\"x\":");
    r.append(x.as_str());
    r.append(",\"y\":");
    r.append(y.as_str());
    r.append("}");
    proof {
        assert(writes(*write, s.minority_label, minority@));
        assert(table_json(*write, json::rows_of(s.synthetic_x@), x@));
        assert(numbers_json(*write, s.synthetic_y@, y@));
        assert(r@ == smote_text(s.total_after as nat, s.total_before as nat, minority@, x@, y@));
    }
    r
}

/// `ml_smote(x_json, y_json, k, dup_ratio)`: oversamples the minority class.
pub struct SmoteFn;

/// The features and labels of an oversampling, or what is wrong with the
/// arguments.
pub open spec fn smote_data(x: Seq<char>, y: Seq<char>) -> Result<(Seq<Seq<u64>>, Seq<u64>), Seq<char>> {
    match json::table_read(x) {
        Err(e) => Err("Invalid features JSON: "@ + e),
        Ok(rows) => match json::numbers_read(y) {
            Err(e) => Err("Invalid labels JSON: "@ + e),
            Ok(labels) => Ok((rows, labels)),
        },
    }
}

/// The JSON of what the caller makes of the data, for every row of the batch.
pub open spec fn smote_rows<F: Fn(&Vec<Vec<u64>>, &Vec<u64>) -> Smote, W: Fn(u64) -> String>(
    sample: F,
    write: W,
    x: Seq<Seq<u64>>,
    y: Seq<u64>,
    rows: Seq<Seq<char>>,
) -> bool {
    exists|a: &Vec<Vec<u64>>, b: &Vec<u64>, s: Smote, out: Seq<char>|
        json::rows_of(a@) == x && b@ == y && #[trigger] call_ensures(sample, (a, b), s) && #[trigger] smote_json(
            write,
            s,
            out,
        ) && rows == repeated(out, rows.len())
}

impl SmoteFn {
    /// `sample` oversamples the given features and labels.
    pub fn invoke<F: Fn(&Vec<Vec<u64>>, &Vec<u64>) -> Smote, W: Fn(u64) -> String>(
        n: usize,
        args: &Vec<Option<String>>,
        sample: &F,
        write: &W,
    ) -> (r: Result<Vec<String>, String>)
        requires
            args@.len() >= 2,
            forall|a: &Vec<Vec<u64>>, b: &Vec<u64>| call_requires(*sample, (a, b)),
            forall|x: u64| call_requires(*write, (x,)),
        ensures
            if !all_given(args@, 2) {
                r matches Err(e) && e@ == "NULL parameter"@
            } else {
                match smote_data(given_text(args@, 0), given_text(args@, 1)) {
                    Err(message) => r matches Err(e) && e@ == message,
                    Ok(data) => r matches Ok(v) && v@.len() == n && smote_rows(
                        *sample,
                        *write,
                        data.0,
                        data.1,
                        text::texts(v@),
                    ),
                }
            },
    {
        let texts: Vec<String> = match col_strs(args, 2) {
            Ok(v) => v,
            Err(e) => {
                return Err(e);
            },
        };
        proof {
            assert(text::texts(texts@).len() == 2);
            assert(text::texts(texts@)[0] == given_text(args@, 0));
            assert(text::texts(texts@)[1] == given_text(args@, 1));
        }
        let x: Vec<Vec<u64>> = match parse_table(texts[0].as_str()) {
            Ok(x) => x,
            Err(problem) => {
                return Err(with_heading("Invalid features JSON: ", problem.as_str()));
            },
        };
        let y: Vec<u64> = match parse_numbers(texts[1].as_str()) {
            Ok(y) => y,
            Err(problem) => {
                return Err(with_heading("Invalid labels JSON: ", problem.as_str()));
            },
        };
        let a: &Vec<Vec<u64>> = &x;
        let b: &Vec<u64> = &y;
        let s: Smote = sample(a, b);
        let out: String = write_smote(&s, write);
        let v: Vec<String> = repeat_text(out.as_str(), n);
        proof {
            assert(text::texts(v@).len() == n);
            assert(call_ensures(*sample, (a, b), s));
            assert(smote_json(*write, s, out@));
        }
        Ok(v)
    }
}

fn with_heading(heading: &str, message: &str) -> (r: String)
    ensures
        r@ == heading@ + message@,
{
    let mut e: String = heading.to_owned();
    e.append(message);
    e
}

/// How an ensemble makes one prediction out of many.
#[derive(Debug, Clone, Copy, PartialEq, Eq, Structural)]
pub enum VotingMode {
    /// The majority of the rounded labels.
    Hard,
    /// The average.
    Mean,
}

impl VotingMode {
    /// The mode of a name.
    pub open spec fn named(name: Seq<char>) -> Option<VotingMode> {
        if name == "hard"@ {
            Some(VotingMode::Hard)
        } else if name == "mean"@ {
            Some(VotingMode::Mean)
        } else {
            None
        }
    }

    /// The mode of a name.
    pub fn parse(name: &str) -> (r: Option<VotingMode>)
        ensures
            r == Self::named(name@),
    {
        if text_eq(name, "hard") {
            Some(VotingMode::Hard)
        } else if text_eq(name, "mean") {
            Some(VotingMode::Mean)
        } else {
            None
        }
    }
}

/// The members, the features and the mode of a vote.
pub struct VoteView {
    pub names: Seq<Seq<char>>,
    pub x: Seq<u64>,
    pub mode: VotingMode,
}

/// What a vote is asked for, or what is wrong with the arguments.
pub open spec fn vote_data(names: Seq<char>, x: Seq<char>, mode: Seq<char>) -> Result<VoteView, Seq<char>> {
    match json::strings_read(names) {
        Err(e) => Err("Invalid model names JSON: "@ + e),
        Ok(names) => match json::numbers_read(x) {
            Err(e) => Err("Invalid features JSON: "@ + e),
            Ok(x) => match VotingMode::named(mode) {
                None => Err("Invalid voting mode: '"@ + mode + "' (hard|mean)"@),
                Some(mode) => Ok(VoteView { names, x, mode }),
            },
        },
    }
}

/// `answer` is what the caller says of the members' predictions.
pub open spec fn polls<P: Fn(&Vec<String>, &Vec<u64>) -> Result<Vec<u64>, String>>(
    poll: P,
    asked: VoteView,
    answer: Result<Vec<u64>, String>,
) -> bool {
    exists|a: &Vec<String>, b: &Vec<u64>|
        text::texts(a@) == asked.names && b@ == asked.x && #[trigger] call_ensures(poll, (a, b), answer)
}

/// `answer` is what the caller says the members vote for.
pub open spec fn votes<V: Fn(&Vec<String>, &Vec<u64>, VotingMode) -> Result<u64, String>>(
    vote: V,
    asked: VoteView,
    answer: Result<u64, String>,
) -> bool {
    exists|a: &Vec<String>, b: &Vec<u64>|
        text::texts(a@) == asked.names && b@ == asked.x && #[trigger] call_ensures(vote, (a, b, asked.mode), answer)
}

/// The JSON text of a vote.
pub open spec fn vote_text(mode: Seq<char>, result: Seq<char>, votes: Seq<char>) -> Seq<char> {
    "{\"mode\":"@ + json::json_quoted(mode) + ",\"result\":"@ + result + ",\"votes\":"@ + votes + "}"@
}

/// The JSON of a vote over the members' predictions, for every row of the batch.
pub open spec fn vote_rows<
    P: Fn(&Vec<String>, &Vec<u64>) -> Result<Vec<u64>, String>,
    V: Fn(&Vec<String>, &Vec<u64>, VotingMode) -> Result<u64, String>,
    W: Fn(u64) -> String,
>(poll: P, vote: V, write: W, asked: VoteView, mode: Seq<char>, rows: Seq<Seq<char>>) -> bool {
    exists|members: Vec<u64>, result: u64, shown: Seq<char>, listed: Seq<char>| #[trigger]
        polls(poll, asked, Ok(members)) && #[trigger] votes(vote, asked, Ok(result)) && #[trigger] writes(
            write,
            result,
            shown,
        ) && #[trigger] numbers_json(write, members@, listed) && rows == repeated(
            vote_text(mode, shown, listed),
            rows.len(),
        )
}

/// Polling fails, or polling goes well and voting fails.
pub open spec fn vote_fails<
    P: Fn(&Vec<String>, &Vec<u64>) -> Result<Vec<u64>, String>,
    V: Fn(&Vec<String>, &Vec<u64>, VotingMode) -> Result<u64, String>,
>(poll: P, vote: V, asked: VoteView, e: String) -> bool {
    ||| polls(poll, asked, Err(e))
    ||| votes(vote, asked, Err(e)) && exists|members: Vec<u64>| #[trigger] polls(poll, asked, Ok(members))
}

/// `ml_voting(model_names_json, features_json, mode)`: an ensemble vote over
/// registered models.
pub struct VotingFn;

impl VotingFn {
    /// `poll` asks the members, `vote` makes one prediction of theirs.
    pub fn invoke<
        P: Fn(&Vec<String>, &Vec<u64>) -> Result<Vec<u64>, String>,
        V: Fn(&Vec<String>, &Vec<u64>, VotingMode) -> Result<u64, String>,
        W: Fn(u64) -> String,
    >(n: usize, args: &Vec<Option<String>>, poll: &P, vote: &V, write: &W) -> (r: Result<Vec<String>, String>)
        requires
            args@.len() >= 3,
            forall|a: &Vec<String>, b: &Vec<u64>| call_requires(*poll, (a, b)),
            forall|a: &Vec<String>, b: &Vec<u64>, mode: VotingMode| call_requires(*vote, (a, b, mode)),
            forall|x: u64| call_requires(*write, (x,)),
        ensures
            if !all_given(args@, 3) {
                r matches Err(e) && e@ == "NULL parameter"@
            } else {
                match vote_data(given_text(args@, 0), given_text(args@, 1), given_text(args@, 2)) {
                    Err(message) => r matches Err(e) && e@ == message,
                    Ok(asked) => match r {
                        Ok(v) => v@.len() == n && vote_rows(
                            *poll,
                            *vote,
                            *write,
                            asked,
                            given_text(args@, 2),
                            text::texts(v@),
                        ),
                        Err(e) => vote_fails(*poll, *vote, asked, e),
                    },
                }
            },
    {
        let texts: Vec<String> = match col_strs(args, 3) {
            Ok(v) => v,
            Err(e) => {
                return Err(e);
            },
        };
        proof {
            assert(text::texts(texts@).len() == 3);
            assert(text::texts(texts@)[0] == given_text(args@, 0));
            assert(text::texts(texts@)[1] == given_text(args@, 1));
            assert(text::texts(texts@)[2] == given_text(args@, 2));
        }
        let names: Vec<String> = match parse_strings(texts[0].as_str()) {
            Ok(names) => names,
            Err(problem) => {
                return Err(with_heading("Invalid model names JSON: ", problem.as_str()));
            },
        };
        let x: Vec<u64> = match parse_numbers(texts[1].as_str()) {
            Ok(x) => x,
            Err(problem) => {
                return Err(with_heading("Invalid features JSON: ", problem.as_str()));
            },
        };
        let mode: VotingMode = match VotingMode::parse(texts[2].as_str()) {
            Some(mode) => mode,
            None => {
                let mut e: String = "Invalid voting mode: '".to_owned();
                e.append(texts[2].as_str());
                e.append("' (hard|mean)");
                return Err(e);
            },
        };
        let ghost asked = VoteView { names: text::texts(names@), x: x@, mode };
        let a: &Vec<String> = &names;
        let b: &Vec<u64> = &x;
        let polled: Result<Vec<u64>, String> = poll(a, b);
        proof {
            assert(call_ensures(*poll, (a, b), polled));
            assert(polls(*poll, asked, polled));
        }
        let members: Vec<u64> = match polled {
            Ok(members) => members,
            Err(e) => {
                return Err(e);
            },
        };
        assert(polls(*poll, asked, Ok(members)));
        let voted: Result<u64, String> = vote(a, b, mode);
        proof {
            assert(call_ensures(*vote, (a, b, mode), voted));
            assert(votes(*vote, asked, voted));
        }
        let result: u64 = match voted {
            Ok(result) => result,
            Err(e) => {
                return Err(e);
            },
        };
        let shown: String = write_value(result, write);
        let listed: String = write_number_array(&members, write);
        let quoted: String = quote_text(texts[2].as_str());
        let mut out: String = "{\"mode\":".to_owned();
        out.append(quoted.as_str());
        out.append(",\"result\":");
        out.append(shown.as_str());
        out.append(",\"votes\":");
        out.append(listed.as_str());
        out.append("}");
        let v: Vec<String> = repeat_text(out.as_str(), n);
        proof {
            assert(text::texts(v@).len() == n);
            assert(out@ == vote_text(given_text(args@, 2), shown@, listed@));
            assert(writes(*write, result, shown@));
            assert(numbers_json(*write, members@, listed@));
            assert(vote_rows(*poll, *vote, *write, asked, given_text(args@, 2), text::texts(v@)));
        }
        Ok(v)
    }
}

} // verus!
