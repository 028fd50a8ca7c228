//! `ml_predict`: one prediction of a registered model.

pub mod batch;

use vstd::prelude::*;
use crate::json;
use crate::json::parse_numbers;
use crate::model::registry;
use crate::model::registry::ModelRegistry;
use crate::table::take_turn;
use crate::text;

verus! {

/// Whether the row was handed out.
pub struct PInitData {
    pub done: bool,
}

impl PInitData {
    pub fn init() -> (r: Self)
        ensures
            !r.done,
    {
        PInitData { done: false }
    }

    /// Tells whether the row is still to be handed out, and notes that it is.
    pub fn take(&mut self) -> (first: bool)
        ensures
            first == !old(self).done,
            final(self).done,
    {
        take_turn(&mut self.done)
    }
}

/// The row of a prediction: the bits of a double.
#[derive(Debug, Clone, Copy, PartialEq, Eq)]
pub struct PBindData {
    pub prediction: u64,
}

/// `answer` is what a model says to some features.
pub open spec fn predicts<M, P: Fn(&M, &Vec<u64>) -> Result<u64, String>>(
    predict: P,
    model: M,
    features: Seq<u64>,
    answer: Result<u64, String>,
) -> bool {
    exists|m: &M, f: &Vec<u64>| *m == model && f@ == features && #[trigger] call_ensures(predict, (m, f), answer)
}

/// The message where no model of the name is loaded.
pub open spec fn not_loaded(name: Seq<char>) -> Seq<char> {
    "Model '"@ + name + "' not loaded"@
}

/// Writes the message where no model of the name is loaded.
pub fn not_loaded_message(name: &str) -> (r: String)
    ensures
        r@ == not_loaded(name@),
{
    let mut e: String = "Model '".to_owned();
    e.append(name);
    e.append("' not loaded");
    e
}

/// The features that the arguments give, or what is wrong with the arguments.
pub open spec fn predict_features(args: Seq<Seq<char>>) -> Result<Seq<u64>, Seq<char>> {
    if args.len() < 2 {
        Err("ml_predict requires model_name and features_json (e.g. '[1.0,2.0]')"@)
    } else {
        match json::numbers_read(args[1]) {
            Ok(features) => Ok(features),
            Err(e) => Err("Invalid features JSON '"@ + args[1] + "': "@ + e),
        }
    }
}

/// Writes the message for features that are no array of numbers.
pub fn bad_features_message(features_json: &str, problem: &str) -> (r: String)
    ensures
        r@ == "Invalid features JSON '"@ + features_json@ + "': "@ + problem@,
{
    let mut e: String = "Invalid features JSON '".to_owned();
    e.append(features_json);
    e.append("': ");
    e.append(problem);
    e
}

/// The `ml_predict` function.
pub struct PredictFn;

impl PredictFn {
    /// Predicts by the arguments: the name of a cached model and the features as
    /// a JSON array. `predict` asks the model.
    pub fn bind<M, P: Fn(&M, &Vec<u64>) -> Result<u64, String>>(
        args: &Vec<String>,
        registry: &mut ModelRegistry<M>,
        now: u64,
        predict: &P,
    ) -> (r: Result<PBindData, String>)
        requires
            old(registry).well_formed(),
            forall|m: &M, f: &Vec<u64>| call_requires(*predict, (m, f)),
        ensures
            final(registry).well_formed(),
            match predict_features(text::texts(args@)) {
                Err(message) => r matches Err(e) && e@ == message && final(registry)@ == old(registry)@,
                Ok(features) => {
                    let name = args@[0]@;
                    if old(registry)@.models.contains_key(name) {
                        &&& final(registry)@ == registry::touched(old(registry)@, name, now)
                        &&& predicts(
                            *predict,
                            old(registry)@.models[name].model,
                            features,
                            match r {
                                Ok(row) => Ok(row.prediction),
                                Err(e) => Err(e),
                            },
                        )
                    } else {
                        r matches Err(e) && e@ == not_loaded(name) && final(registry)@ == old(registry)@
                    }
                },
            },
    {
        let ghost given = text::texts(args@);
        if args.len() < 2 {
            return Err("ml_predict requires model_name and features_json (e.g. '[1.0,2.0]')".to_owned());
        }
        let features: Vec<u64> = match parse_numbers(args[1].as_str()) {
            Ok(features) => features,
            Err(problem) => {
                return Err(bad_features_message(args[1].as_str(), problem.as_str()));
            },
        };
        let answer: Result<u64, String> = match registry.get(args[0].as_str(), now) {
            Some(entry) => {
                let m = &entry.model;
                let f = &features;
                let answer: Result<u64, String> = predict(m, f);
                assert(call_ensures(*predict, (m, f), answer));
                answer
            },
            None => {
                return Err(not_loaded_message(args[0].as_str()));
            },
        };
        match answer {
            Ok(prediction) => Ok(PBindData { prediction }),
            Err(e) => Err(e),
        }
    }
}

} // verus!
