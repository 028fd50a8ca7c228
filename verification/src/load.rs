//! `ml_load_onnx` and `ml_load_xgboost`: loading models that were trained
//! elsewhere.

use vstd::prelude::*;
use crate::json;
use crate::model::registry;
use crate::model::registry::{CacheEntry, ModelRegistry, RegistryView};
use crate::model::types;
use crate::model::types::Algorithm;
use crate::model::xgboost;
use crate::model::xgboost::XgbModelWrapper;
use crate::numbers;
use crate::numbers::parse_usize;
use crate::table::take_turn;
use crate::text;

verus! {

/// Whether the row was handed out.
pub struct LInitData {
    pub done: bool,
}

impl LInitData {
    pub fn init() -> (r: Self)
        ensures
            !r.done,
    {
        LInitData { done: false }
    }

    /// Tells whether the row is still to be handed out, and notes that it is.
    pub fn take(&mut self) -> (first: bool)
        ensures
            first == !old(self).done,
            final(self).done,
    {
        take_turn(&mut self.done)
    }
}

/// The row of a model that was loaded.
#[derive(Debug, PartialEq, Eq)]
pub struct LBindData {
    pub model_name: String,
    pub algorithm: String,
    pub status: String,
    pub num_features: i32,
}

/// The row tells that a model was loaded.
pub open spec fn shows_loaded(row: LBindData, name: Seq<char>, algorithm: Algorithm, num_features: usize) -> bool {
    &&& row.model_name@ == name
    &&& row.algorithm@ == types::name_of(algorithm)
    &&& row.status@ == "loaded"@
    &&& row.num_features == num_features as i32
}

fn loaded_row(name: &str, algorithm: Algorithm, num_features: usize) -> (row: LBindData)
    ensures
        shows_loaded(row, name@, algorithm, num_features),
{
    LBindData {
        model_name: name.to_owned(),
        algorithm: algorithm.name(),
        status: "loaded".to_owned(),
        num_features: num_features as i32,
    }
}

/// What is to be loaded, and under which name.
#[derive(Debug, PartialEq, Eq)]
pub struct LoadRequest {
    pub model_name: String,
    pub file_path: String,
    /// The number of features; zero where it is not known yet.
    pub num_features: usize,
}

/// The `ml_load_onnx` function.
pub struct LoadOnnxFn;

/// The number of features that the arguments give.
pub open spec fn given_features(args: Seq<Seq<char>>) -> Result<int, Seq<char>> {
    if args.len() >= 3 {
        numbers::whole_number(args[2], 0, usize::MAX as int)
    } else {
        Ok(0)
    }
}

impl LoadOnnxFn {
    /// Reads the arguments: the name, the file and, where given, the number of
    /// features.
    pub fn plan(args: &Vec<String>) -> (r: Result<LoadRequest, String>)
        ensures
            if args@.len() < 2 {
                r matches Err(e) && e@ == "ml_load_onnx requires: model_name, file_path [, num_features]"@
            } else {
                match given_features(text::texts(args@)) {
                    Ok(n) => r matches Ok(request) && request.model_name@ == args@[0]@ && request.file_path@
                        == args@[1]@ && request.num_features == n,
                    Err(message) => r matches Err(e) && e@ == message,
                }
            },
    {
        if args.len() < 2 {
            return Err("ml_load_onnx requires: model_name, file_path [, num_features]".to_owned());
        }
        let num_features: usize = if args.len() >= 3 {
            match parse_usize(args[2].as_str()) {
                Ok(n) => n,
                Err(e) => {
                    return Err(e);
                },
            }
        } else {
            0
        };
        Ok(LoadRequest { model_name: args[0].clone(), file_path: args[1].clone(), num_features })
    }

    /// Registers the model that was loaded from the file; where none was, the
    /// problem is handed on.
    pub fn finish<M>(
        name: &str,
        loaded: Result<CacheEntry<M>, String>,
        registry: &mut ModelRegistry<M>,
        now: u64,
    ) -> (r: Result<LBindData, String>)
        requires
            old(registry).well_formed(),
        ensures
            final(registry).well_formed(),
            match loaded {
                Ok(entry) => {
                    &&& r matches Ok(row) && shows_loaded(
                        row,
                        name@,
                        entry.metadata.algorithm,
                        entry.metadata.num_features,
                    )
                    &&& registry::inserts(old(registry)@, name@, entry, now, final(registry)@)
                },
                Err(problem) => r matches Err(e) && e == problem && final(registry)@ == old(registry)@,
            },
    {
        match loaded {
            Ok(entry) => {
                let row: LBindData = loaded_row(name, entry.metadata.algorithm, entry.metadata.num_features);
                registry.insert(name, entry, now);
                Ok(row)
            },
            Err(e) => Err(e),
        }
    }
}

/// The `ml_load_xgboost` function.
pub struct LoadXgbFn;

/// The model in the bytes was registered under a name.
pub open spec fn registers_xgb<
    M,
    F: Fn(&str) -> Option<u64>,
    K: Fn(XgbModelWrapper) -> CacheEntry<M>,
>(
    read: F,
    make: K,
    name: Seq<char>,
    data: Seq<u8>,
    s: RegistryView<M>,
    now: u64,
    row: LBindData,
    next: RegistryView<M>,
) -> bool {
    exists|w: XgbModelWrapper, entry: CacheEntry<M>| #[trigger]
        w.is_of(read, data) && #[trigger] call_ensures(make, (w,), entry) && registry::inserts(s, name, entry, now, next)
            && shows_loaded(row, name, w.metadata.algorithm, w.metadata.num_features)
}

impl LoadXgbFn {
    /// Reads the arguments: the name and the file.
    pub fn plan(args: &Vec<String>) -> (r: Result<LoadRequest, String>)
        ensures
            if args@.len() < 2 {
                r matches Err(e) && e@ == "ml_load_xgboost requires: model_name, file_path"@
            } else {
                r matches Ok(request) && request.model_name@ == args@[0]@ && request.file_path@ == args@[1]@
                    && request.num_features == 0
            },
    {
        if args.len() < 2 {
            return Err("ml_load_xgboost requires: model_name, file_path".to_owned());
        }
        Ok(LoadRequest { model_name: args[0].clone(), file_path: args[1].clone(), num_features: 0 })
    }

    /// Reads the model from what the file held and registers it. `read` reads a
    /// number from a text, `make` turns a model into a registry entry.
    pub fn finish<M, F: Fn(&str) -> Option<u64>, K: Fn(XgbModelWrapper) -> CacheEntry<M>>(
        request: &LoadRequest,
        contents: Result<Vec<u8>, String>,
        registry: &mut ModelRegistry<M>,
        now: u64,
        read: &F,
        make: &K,
    ) -> (r: Result<LBindData, String>)
        requires
            old(registry).well_formed(),
            forall|s: &str| call_requires(*read, (s,)),
            forall|w: XgbModelWrapper| call_requires(*make, (w,)),
        ensures
            final(registry).well_formed(),
            match contents {
                Err(problem) => r matches Err(e) && e@ == "Cannot read XGBoost model file '"@ + request.file_path@
                    + "': "@ + problem@ && final(registry)@ == old(registry)@,
                Ok(data) => match xgboost::model_parts(json::json_bytes_document(data@)) {
                    Err(problem) => r matches Err(e) && e@ == "Serialization error: "@ + problem && final(registry)@
                        == old(registry)@,
                    Ok(_) => r matches Ok(row) && registers_xgb(
                        *read,
                        *make,
                        request.model_name@,
                        data@,
                        old(registry)@,
                        now,
                        row,
                        final(registry)@,
                    ),
                },
            },
    {
        let data: Vec<u8> = match contents {
            Ok(data) => data,
            Err(problem) => {
                let mut e: String = "Cannot read XGBoost model file '".to_owned();
                e.append(request.file_path.as_str());
                e.append("': ");
                e.append(problem.as_str());
                return Err(e);
            },
        };
        let ghost before = registry@;
        let ghost bytes = data@;
        let wrapper: XgbModelWrapper = match XgbModelWrapper::new(data, read) {
            Ok(w) => w,
            Err(problem) => {
                return Err(problem.message());
            },
        };
        let ghost kept = wrapper;
        let row: LBindData = loaded_row(
            request.model_name.as_str(),
            wrapper.metadata.algorithm,
            wrapper.metadata.num_features,
        );
        let entry: CacheEntry<M> = make(wrapper);
        let ghost shown = entry;
        registry.insert(request.model_name.as_str(), entry, now);
        proof {
            assert(kept.is_of(*read, bytes));
            assert(call_ensures(*make, (kept,), shown));
            assert(registers_xgb(*read, *make, request.model_name@, bytes, before, now, row, registry@));
        }
        Ok(row)
    }
}

} // verus!
