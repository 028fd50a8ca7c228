//! `ml_compare`: trains several algorithms on one dataset, registers the models
//! and compares them.

use vstd::prelude::*;
use crate::bits;
use crate::json;
use crate::json::{parse_numbers, parse_params, parse_strings, parse_table};
use crate::model::registry;
use crate::model::registry::{CacheEntry, ModelRegistry, RegistryView};
use crate::model::types;
use crate::model::types::Algorithm;
use crate::table;
use crate::table::chunk_size;
use crate::text;
use crate::text::{is_empty_text, text_eq, trim};

verus! {

/// What training gives; the numbers are the bits of doubles.
#[derive(Debug, PartialEq, Eq)]
pub struct Trained {
    pub coefficients: Vec<u64>,
    pub num_samples: usize,
    pub r_squared: Option<u64>,
    pub mse: Option<u64>,
    /// The stored model, for the algorithms that have one.
    pub model_blob: Option<Vec<u8>>,
}

/// What training gives, as a mathematical value.
pub struct TrainedView {
    pub coefficients: Seq<u64>,
    pub num_samples: usize,
    pub r_squared: Option<u64>,
    pub mse: Option<u64>,
    pub model_blob: Option<Seq<u8>>,
}

impl View for Trained {
    type V = TrainedView;

    open spec fn view(&self) -> TrainedView {
        TrainedView {
            coefficients: self.coefficients@,
            num_samples: self.num_samples,
            r_squared: self.r_squared,
            mse: self.mse,
            model_blob: match self.model_blob {
                Some(blob) => Some(blob@),
                None => None,
            },
        }
    }
}

/// What a model is made from.
#[derive(Debug, PartialEq, Eq)]
pub enum ModelSource {
    Tree(Vec<u8>),
    Forest(Vec<u8>),
    KMeans(Vec<u8>),
    Knn(Vec<u8>),
    NaiveBayes(Vec<u8>),
    Pca(Vec<u8>),
    Xgboost(Vec<u8>),
    Linear {
        coefficients: Vec<u64>,
        num_samples: usize,
        r_squared: Option<u64>,
        mse: Option<u64>,
        lambda: u64,
    },
    Logistic { coefficients: Vec<u64>, num_samples: usize, r_squared: Option<u64> },
}

/// What a model is made from, as a mathematical value.
pub enum SourceView {
    Tree(Seq<u8>),
    Forest(Seq<u8>),
    KMeans(Seq<u8>),
    Knn(Seq<u8>),
    NaiveBayes(Seq<u8>),
    Pca(Seq<u8>),
    Xgboost(Seq<u8>),
    Linear {
        coefficients: Seq<u64>,
        num_samples: usize,
        r_squared: Option<u64>,
        mse: Option<u64>,
        lambda: u64,
    },
    Logistic { coefficients: Seq<u64>, num_samples: usize, r_squared: Option<u64> },
}

impl View for ModelSource {
    type V = SourceView;

    open spec fn view(&self) -> SourceView {
        match self {
            ModelSource::Tree(b) => SourceView::Tree(b@),
            ModelSource::Forest(b) => SourceView::Forest(b@),
            ModelSource::KMeans(b) => SourceView::KMeans(b@),
            ModelSource::Knn(b) => SourceView::Knn(b@),
            ModelSource::NaiveBayes(b) => SourceView::NaiveBayes(b@),
            ModelSource::Pca(b) => SourceView::Pca(b@),
            ModelSource::Xgboost(b) => SourceView::Xgboost(b@),
            ModelSource::Linear { coefficients, num_samples, r_squared, mse, lambda } => SourceView::Linear {
                coefficients: coefficients@,
                num_samples: *num_samples,
                r_squared: *r_squared,
                mse: *mse,
                lambda: *lambda,
            },
            ModelSource::Logistic { coefficients, num_samples, r_squared } => SourceView::Logistic {
                coefficients: coefficients@,
                num_samples: *num_samples,
                r_squared: *r_squared,
            },
        }
    }
}

/// The number of a name among the hyperparameters; the first one where the name
/// occurs more than once.
pub open spec fn param(params: Seq<(Seq<char>, u64)>, name: Seq<char>) -> Option<u64>
    decreases params.len(),
{
    if params.len() == 0 {
        None
    } else if params[0].0 == name {
        Some(params[0].1)
    } else {
        param(params.subrange(1, params.len() as int), name)
    }
}

/// Looks a hyperparameter up.
pub fn get_param(params: &Vec<(String, u64)>, name: &str) -> (r: Option<u64>)
    ensures
        r == param(json::named_numbers(params@), name@),
{
    let ghost all = json::named_numbers(params@);
    let mut i: usize = 0;
    assert(all.subrange(0, all.len() as int) =~= all);
    while i < params.len()
        invariant
            all == json::named_numbers(params@),
            i <= params@.len(),
            param(all, name@) == param(all.subrange(i as int, all.len() as int), name@),
        decreases params.len() - i,
    {
        let ghost rest = all.subrange(i as int, all.len() as int);
        assert(rest[0] == all[i as int]);
        if text_eq(params[i].0.as_str(), name) {
            return Some(params[i].1);
        }
        assert(rest.subrange(1, rest.len() as int) =~= all.subrange(i + 1, all.len() as int));
        i = i + 1;
    }
    None
}

/// What the trained model of an algorithm is made from; `None` where a trained
/// model of the algorithm is not registered.
pub open spec fn source_of(algorithm: Algorithm, t: TrainedView, params: Seq<(Seq<char>, u64)>) -> Option<SourceView> {
    match t.model_blob {
        Some(blob) => match algorithm {
            Algorithm::DecisionTreeRegressor => Some(SourceView::Tree(blob)),
            Algorithm::RandomForestRegressor => Some(SourceView::Forest(blob)),
            Algorithm::KMeans => Some(SourceView::KMeans(blob)),
            Algorithm::KNNRegressor | Algorithm::KNNClassifier => Some(SourceView::Knn(blob)),
            Algorithm::NaiveBayes => Some(SourceView::NaiveBayes(blob)),
            Algorithm::PCA => Some(SourceView::Pca(blob)),
            Algorithm::XGBoostRegression | Algorithm::XGBoostBinary => Some(SourceView::Xgboost(blob)),
            _ => None,
        },
        None => match algorithm {
            Algorithm::LinearRegression | Algorithm::RidgeRegression => Some(
                SourceView::Linear {
                    coefficients: t.coefficients,
                    num_samples: t.num_samples,
                    r_squared: t.r_squared,
                    mse: t.mse,
                    lambda: match param(params, "lambda"@) {
                        Some(lambda) => lambda,
                        None => bits::ZERO,
                    },
                },
            ),
            Algorithm::LogisticRegression => Some(
                SourceView::Logistic {
                    coefficients: t.coefficients,
                    num_samples: t.num_samples,
                    r_squared: t.r_squared,
                },
            ),
            _ => None,
        },
    }
}

/// What the trained model of an algorithm is made from.
pub fn model_source(algorithm: Algorithm, t: Trained, params: &Vec<(String, u64)>) -> (r: Option<ModelSource>)
    ensures
        match r {
            Some(source) => source_of(algorithm, t@, json::named_numbers(params@)) == Some(source@),
            None => source_of(algorithm, t@, json::named_numbers(params@)) is None,
        },
{
    match t.model_blob {
        Some(blob) => match algorithm {
            Algorithm::DecisionTreeRegressor => Some(ModelSource::Tree(blob)),
            Algorithm::RandomForestRegressor => Some(ModelSource::Forest(blob)),
            Algorithm::KMeans => Some(ModelSource::KMeans(blob)),
            Algorithm::KNNRegressor | Algorithm::KNNClassifier => Some(ModelSource::Knn(blob)),
            Algorithm::NaiveBayes => Some(ModelSource::NaiveBayes(blob)),
            Algorithm::PCA => Some(ModelSource::Pca(blob)),
            Algorithm::XGBoostRegression | Algorithm::XGBoostBinary => Some(ModelSource::Xgboost(blob)),
            _ => None,
        },
        None => match algorithm {
            Algorithm::LinearRegression | Algorithm::RidgeRegression => {
                let lambda: u64 = match get_param(params, "lambda") {
                    Some(lambda) => lambda,
                    None => bits::ZERO,
                };
                Some(
                    ModelSource::Linear {
                        coefficients: t.coefficients,
                        num_samples: t.num_samples,
                        r_squared: t.r_squared,
                        mse: t.mse,
                        lambda,
                    },
                )
            },
            Algorithm::LogisticRegression => Some(
                ModelSource::Logistic {
                    coefficients: t.coefficients,
                    num_samples: t.num_samples,
                    r_squared: t.r_squared,
                },
            ),
            _ => None,
        },
    }
}

/// One row of the comparison.
#[derive(Debug, PartialEq, Eq)]
pub struct CompareRow {
    pub model_name: String,
    pub algorithm: String,
    pub r_squared: Option<u64>,
    pub mse: Option<u64>,
    pub n_samples: i32,
    pub n_features: i32,
}

/// One row of the comparison, as a mathematical value.
pub struct CompareView {
    pub model_name: Seq<char>,
    pub algorithm: Seq<char>,
    pub r_squared: Option<u64>,
    pub mse: Option<u64>,
    pub n_samples: i32,
    pub n_features: i32,
}

impl View for CompareRow {
    type V = CompareView;

    open spec fn view(&self) -> CompareView {
        CompareView {
            model_name: self.model_name@,
            algorithm: self.algorithm@,
            r_squared: self.r_squared,
            mse: self.mse,
            n_samples: self.n_samples,
            n_features: self.n_features,
        }
    }
}

impl Clone for CompareRow {
    fn clone(&self) -> (r: Self)
        ensures
            r@ == self@,
    {
        CompareRow {
            model_name: self.model_name.clone(),
            algorithm: self.algorithm.clone(),
            r_squared: self.r_squared,
            mse: self.mse,
            n_samples: self.n_samples,
            n_features: self.n_features,
        }
    }
}

/// The rows of a comparison, as mathematical values.
pub open spec fn compare_views(v: Seq<CompareRow>) -> Seq<CompareView> {
    Seq::new(v.len(), |i: int| v[i]@)
}

/// The row of an algorithm that was trained.
pub open spec fn trained_row(key: Seq<char>, name: Seq<char>, t: TrainedView, x: Seq<Seq<u64>>) -> CompareView {
    CompareView {
        model_name: key,
        algorithm: name,
        r_squared: t.r_squared,
        mse: t.mse,
        n_samples: x.len() as i32,
        n_features: x[0].len() as i32,
    }
}

/// The row of an algorithm whose training failed.
pub open spec fn failed_row(key: Seq<char>, name: Seq<char>, e: Seq<char>) -> CompareView {
    CompareView {
        model_name: key,
        algorithm: name + " (ERR: "@ + e + ")"@,
        r_squared: None,
        mse: None,
        n_samples: 0,
        n_features: 0,
    }
}

/// `answer` is an answer of the training function.
pub open spec fn training<
    T: Fn(Algorithm, &Vec<Vec<u64>>, &Vec<u64>, &Vec<(String, u64)>) -> Result<Trained, String>,
>(
    train: T,
    algorithm: Algorithm,
    x: Seq<Seq<u64>>,
    y: Seq<u64>,
    params: Seq<(Seq<char>, u64)>,
    answer: Result<Trained, String>,
) -> bool {
    exists|a: &Vec<Vec<u64>>, b: &Vec<u64>, p: &Vec<(String, u64)>|
        json::rows_of(a@) == x && b@ == y && json::named_numbers(p@) == params && #[trigger] call_ensures(
            train,
            (algorithm, a, b, p),
            answer,
        )
}

/// `answer` is an answer of the function that makes models.
pub open spec fn making<M, R: Fn(ModelSource) -> Option<CacheEntry<M>>>(
    make: R,
    source: SourceView,
    answer: Option<CacheEntry<M>>,
) -> bool {
    exists|s: ModelSource| s@ == source && #[trigger] call_ensures(make, (s,), answer)
}

/// The model of a source was put into the registry, where one could be made.
pub open spec fn registered<M, R: Fn(ModelSource) -> Option<CacheEntry<M>>, C: Fn() -> u64>(
    make: R,
    clock: C,
    key: Seq<char>,
    source: Option<SourceView>,
    s: RegistryView<M>,
    next: RegistryView<M>,
) -> bool {
    match source {
        None => next == s,
        Some(source) => {
            ||| making(make, source, None) && next == s
            ||| exists|entry: CacheEntry<M>, now: u64| #[trigger]
                making(make, source, Some(entry)) && #[trigger] call_ensures(clock, (), now) && registry::inserts(
                    s,
                    key,
                    entry,
                    now,
                    next,
                )
        },
    }
}

/// What comparing one algorithm does: it is trained; where that succeeds, the
/// model goes into the registry; either way the comparison has a row.
pub open spec fn compares<
    M,
    T: Fn(Algorithm, &Vec<Vec<u64>>, &Vec<u64>, &Vec<(String, u64)>) -> Result<Trained, String>,
    R: Fn(ModelSource) -> Option<CacheEntry<M>>,
    C: Fn() -> u64,
>(
    train: T,
    make: R,
    clock: C,
    job: CompareJob,
    name: Seq<char>,
    s: RegistryView<M>,
    row: CompareView,
    next: RegistryView<M>,
) -> bool {
    let key = job.experiment + "_"@ + name;
    let algorithm = types::algorithm_of(name)->0;
    ||| exists|t: Trained| #[trigger]
        training(train, algorithm, job.x, job.y, job.params, Ok(t)) && row == trained_row(key, name, t@, job.x)
            && registered(make, clock, key, source_of(algorithm, t@, job.params), s, next)
    ||| exists|e: String| #[trigger]
        training(train, algorithm, job.x, job.y, job.params, Err(e)) && row == failed_row(key, name, e@) && next == s
}

/// The names among the first `n` that are names of algorithms, in order.
pub open spec fn known_names(names: Seq<Seq<char>>, n: nat) -> Seq<Seq<char>>
    decreases n,
{
    if n == 0 {
        Seq::empty()
    } else if types::algorithm_of(names[n - 1]) is Some {
        known_names(names, (n - 1) as nat).push(names[n - 1])
    } else {
        known_names(names, (n - 1) as nat)
    }
}

/// The algorithms are compared one after the other; `states` are the registries
/// before, between and after.
pub open spec fn compares_along<
    M,
    T: Fn(Algorithm, &Vec<Vec<u64>>, &Vec<u64>, &Vec<(String, u64)>) -> Result<Trained, String>,
    R: Fn(ModelSource) -> Option<CacheEntry<M>>,
    C: Fn() -> u64,
>(
    train: T,
    make: R,
    clock: C,
    job: CompareJob,
    known: Seq<Seq<char>>,
    states: Seq<RegistryView<M>>,
    rows: Seq<CompareView>,
) -> bool {
    &&& rows.len() == known.len()
    &&& states.len() == known.len() + 1
    &&& forall|i: int|
        0 <= i < rows.len() ==> compares(train, make, clock, job, known[i], states[i], #[trigger] rows[i], states[i + 1])
}

/// Comparing the algorithms one after the other gives these rows, one for each
/// known name, and takes the registry from `s` to `next`.
pub open spec fn compares_all<
    M,
    T: Fn(Algorithm, &Vec<Vec<u64>>, &Vec<u64>, &Vec<(String, u64)>) -> Result<Trained, String>,
    R: Fn(ModelSource) -> Option<CacheEntry<M>>,
    C: Fn() -> u64,
>(
    train: T,
    make: R,
    clock: C,
    job: CompareJob,
    s: RegistryView<M>,
    rows: Seq<CompareView>,
    next: RegistryView<M>,
) -> bool {
    exists|states: Seq<RegistryView<M>>| #[trigger]
        compares_along(train, make, clock, job, known_names(job.names, job.names.len()), states, rows) && states[0] == s
            && states.last() == next
}

/// What a comparison works on.
pub struct CompareJob {
    pub experiment: Seq<char>,
    pub y: Seq<u64>,
    pub x: Seq<Seq<u64>>,
    pub params: Seq<(Seq<char>, u64)>,
    /// The algorithms to compare, in order; unknown names are passed over.
    pub names: Seq<Seq<char>>,
}

/// The algorithms for a task where the caller names none.
pub open spec fn default_algorithms(task: Seq<char>) -> Seq<Seq<char>> {
    if task == "classification"@ {
        seq!["logistic_regression"@, "random_forest"@, "knn_classifier"@, "naive_bayes"@]
    } else {
        seq![
            "linear_regression"@,
            "lasso_regression"@,
            "random_forest"@,
            "knn_regressor"@,
            "mlp_regressor"@,
        ]
    }
}

/// What the arguments of a comparison ask for, or what is wrong with them.
pub open spec fn compare_job(args: Seq<Seq<char>>) -> Result<CompareJob, Seq<char>> {
    if args.len() < 4 {
        Err(
            "ml_compare requires: experiment_name, target_json, features_json, algorithms_json [, task_type, params_json]"@,
        )
    } else {
        let task = if args.len() >= 5 {
            args[4]
        } else {
            "regression"@
        };
        let no_params = args.len() < 6 || text::trimmed(args[5]).len() == 0 || args[5] == "{}"@;
        match json::numbers_read(args[1]) {
            Err(e) => Err("Invalid target JSON: "@ + e),
            Ok(y) => match json::table_read(args[2]) {
                Err(e) => Err("Invalid features JSON: "@ + e),
                Ok(x) => match json::strings_read(args[3]) {
                    Err(e) => Err("Invalid algorithms JSON: "@ + e),
                    Ok(given) => {
                        let names = if given.len() == 0 {
                            default_algorithms(task)
                        } else {
                            given
                        };
                        if no_params {
                            Ok(CompareJob { experiment: args[0], y, x, params: Seq::empty(), names })
                        } else {
                            match json::params_read(args[5]) {
                                Err(e) => Err("Invalid params JSON: "@ + e),
                                Ok(params) => Ok(CompareJob { experiment: args[0], y, x, params, names }),
                            }
                        }
                    },
                },
            },
        }
    }
}

/// The arguments of a comparison, read.
#[derive(Debug, PartialEq, Eq)]
pub struct CompareArgs {
    pub experiment: String,
    pub y: Vec<u64>,
    pub x: Vec<Vec<u64>>,
    pub params: Vec<(String, u64)>,
    pub names: Vec<String>,
}

impl View for CompareArgs {
    type V = CompareJob;

    open spec fn view(&self) -> CompareJob {
        CompareJob {
            experiment: self.experiment@,
            y: self.y@,
            x: json::rows_of(self.x@),
            params: json::named_numbers(self.params@),
            names: text::texts(self.names@),
        }
    }
}

/// The algorithms for a task where the caller names none.
pub fn default_names(task: &str) -> (r: Vec<String>)
    ensures
        text::texts(r@) == default_algorithms(task@),
{
    let mut r: Vec<String> = Vec::new();
    if text_eq(task, "classification") {
        r.push("logistic_regression".to_owned());
        r.push("random_forest".to_owned());
        r.push("knn_classifier".to_owned());
        r.push("naive_bayes".to_owned());
    } else {
        r.push("linear_regression".to_owned());
        r.push("lasso_regression".to_owned());
        r.push("random_forest".to_owned());
        r.push("knn_regressor".to_owned());
        r.push("mlp_regressor".to_owned());
    }
    assert(text::texts(r@) =~= default_algorithms(task@));
    r
}

/// Puts a heading in front of a message.
fn headed(heading: &str, message: &str) -> (r: String)
    ensures
        r@ == heading@ + message@,
{
    let mut e: String = heading.to_owned();
    e.append(message);
    e
}

/// Reads the arguments of a comparison: the experiment, the targets, the
/// features, the algorithms and, where given, the task and the hyperparameters.
pub fn read_compare_args(args: &Vec<String>) -> (r: Result<CompareArgs, String>)
    ensures
        match r {
            Ok(job) => compare_job(text::texts(args@)) == Ok::<CompareJob, Seq<char>>(job@),
            Err(e) => compare_job(text::texts(args@)) == Err::<CompareJob, Seq<char>>(e@),
        },
{
    let ghost given = text::texts(args@);
    if args.len() < 4 {
        return Err(
            "ml_compare requires: experiment_name, target_json, features_json, algorithms_json [, task_type, params_json]".to_owned(),
        );
    }
    let y: Vec<u64> = match parse_numbers(args[1].as_str()) {
        Ok(y) => y,
        Err(e) => {
            return Err(headed("Invalid target JSON: ", e.as_str()));
        },
    };
    let x: Vec<Vec<u64>> = match parse_table(args[2].as_str()) {
        Ok(x) => x,
        Err(e) => {
            return Err(headed("Invalid features JSON: ", e.as_str()));
        },
    };
    let named: Vec<String> = match parse_strings(args[3].as_str()) {
        Ok(named) => named,
        Err(e) => {
            return Err(headed("Invalid algorithms JSON: ", e.as_str()));
        },
    };
    let params: Vec<(String, u64)> = if args.len() < 6 || is_empty_text(trim(args[5].as_str()).as_str()) || text_eq(
        args[5].as_str(),
        "{}",
    ) {
        let none: Vec<(String, u64)> = Vec::new();
        assert(json::named_numbers(none@) =~= Seq::empty());
        none
    } else {
        match parse_params(args[5].as_str()) {
            Ok(params) => params,
            Err(e) => {
                return Err(headed("Invalid params JSON: ", e.as_str()));
            },
        }
    };
    let names: Vec<String> = if named.len() == 0 {
        let task: String = if args.len() >= 5 {
            args[4].clone()
        } else {
            "regression".to_owned()
        };
        default_names(task.as_str())
    } else {
        named
    };
    Ok(CompareArgs { experiment: args[0].clone(), y, x, params, names })
}

/// The `ml_compare` function.
pub struct CompareFn;

impl CompareFn {
    /// Trains one algorithm, registers the model and reports on it.
    fn compare_one<
        M,
        T: Fn(Algorithm, &Vec<Vec<u64>>, &Vec<u64>, &Vec<(String, u64)>) -> Result<Trained, String>,
        R: Fn(ModelSource) -> Option<CacheEntry<M>>,
        C: Fn() -> u64,
    >(
        job: &CompareArgs,
        algorithm: Algorithm,
        name: &String,
        registry: &mut ModelRegistry<M>,
        train: &T,
        make: &R,
        clock: &C,
    ) -> (row: CompareRow)
        requires
            old(registry).well_formed(),
            types::algorithm_of(name@) == Some(algorithm),
            forall|a: &Vec<Vec<u64>>, b: &Vec<u64>, p: &Vec<(String, u64)>|
                call_requires(*train, (algorithm, a, b, p)),
            forall|a: &Vec<Vec<u64>>, b: &Vec<u64>, p: &Vec<(String, u64)>, t: Trained| #[trigger]
                call_ensures(*train, (algorithm, a, b, p), Ok(t)) ==> a@.len() > 0,
            forall|source: ModelSource| call_requires(*make, (source,)),
            call_requires(*clock, ()),
        ensures
            final(registry).well_formed(),
            compares(*train, *make, *clock, job@, name@, old(registry)@, row@, final(registry)@),
    {
        let ghost before = registry@;
        let mut key: String = job.experiment.clone();
        key.append("_");
        key.append(name.as_str());
        let answer: Result<Trained, String> = train(algorithm, &job.x, &job.y, &job.params);
        assert(training(*train, algorithm, job@.x, job@.y, job@.params, answer)) by {
            let a = &job.x;
            let b = &job.y;
            let p = &job.params;
            assert(call_ensures(*train, (algorithm, a, b, p), answer));
        }
        match answer {
            Ok(t) => {
                let ghost seen = t@;
                let r_squared: Option<u64> = t.r_squared;
                let mse: Option<u64> = t.mse;
                let ghost shown = t;
                let source: Option<ModelSource> = model_source(algorithm, t, &job.params);
                if let Some(source) = source {
                    let ghost made_of = source@;
                    let ghost given = source;
                    let made: Option<CacheEntry<M>> = make(source);
                    assert(call_ensures(*make, (given,), made));
                    assert(making(*make, made_of, made));
                    if let Some(entry) = made {
                        let now: u64 = clock();
                        registry.insert(key.as_str(), entry, now);
                        assert(call_ensures(*clock, (), now));
                        assert(making(*make, made_of, Some(entry)));
                    }
                    assert(registered(*make, *clock, key@, Some(made_of), before, registry@));
                }
                let row = CompareRow {
                    model_name: key,
                    algorithm: name.clone(),
                    r_squared,
                    mse,
                    n_samples: job.x.len() as i32,
                    n_features: job.x[0].len() as i32,
                };
                proof {
                    assert(training(*train, algorithm, job@.x, job@.y, job@.params, Ok(shown)));
                    assert(job@.x[0] == job.x@[0]@);
                    assert(row@ == trained_row(key@, name@, seen, job@.x));
                }
                row
            },
            Err(e) => {
                let mut algorithm_text: String = name.clone();
                algorithm_text.append(" (ERR: ");
                algorithm_text.append(e.as_str());
                algorithm_text.append(")");
                let row = CompareRow {
                    model_name: key,
                    algorithm: algorithm_text,
                    r_squared: None,
                    mse: None,
                    n_samples: 0,
                    n_features: 0,
                };
                assert(row@ == failed_row(key@, name@, e@));
                row
            },
        }
    }

    /// Compares the algorithms of a job, one after the other.
    pub fn compare<
        M,
        T: Fn(Algorithm, &Vec<Vec<u64>>, &Vec<u64>, &Vec<(String, u64)>) -> Result<Trained, String>,
        R: Fn(ModelSource) -> Option<CacheEntry<M>>,
        C: Fn() -> u64,
    >(job: &CompareArgs, registry: &mut ModelRegistry<M>, train: &T, make: &R, clock: &C) -> (rows: Vec<CompareRow>)
        requires
            old(registry).well_formed(),
            forall|g: Algorithm, a: &Vec<Vec<u64>>, b: &Vec<u64>, p: &Vec<(String, u64)>|
                call_requires(*train, (g, a, b, p)),
            forall|g: Algorithm, a: &Vec<Vec<u64>>, b: &Vec<u64>, p: &Vec<(String, u64)>, t: Trained| #[trigger]
                call_ensures(*train, (g, a, b, p), Ok(t)) ==> a@.len() > 0,
            forall|source: ModelSource| call_requires(*make, (source,)),
            call_requires(*clock, ()),
        ensures
            final(registry).well_formed(),
            compares_all(
                *train,
                *make,
                *clock,
                job@,
                old(registry)@,
                compare_views(rows@),
                final(registry)@,
            ),
    {
        let ghost before = registry@;
        let ghost names = job@.names;
        let ghost mut states = seq![before];
        let mut rows: Vec<CompareRow> = Vec::new();
        let mut i: usize = 0;
        while i < job.names.len()
            invariant
                registry.well_formed(),
                names == text::texts(job.names@),
                forall|g: Algorithm, a: &Vec<Vec<u64>>, b: &Vec<u64>, p: &Vec<(String, u64)>|
                    call_requires(*train, (g, a, b, p)),
                forall|g: Algorithm, a: &Vec<Vec<u64>>, b: &Vec<u64>, p: &Vec<(String, u64)>, t: Trained| #[trigger]
                    call_ensures(*train, (g, a, b, p), Ok(t)) ==> a@.len() > 0,
                forall|source: ModelSource| call_requires(*make, (source,)),
                call_requires(*clock, ()),
                i <= names.len(),
                states.len() > 0,
                states[0] == before,
                states.last() == registry@,
                compares_along(
                    *train,
                    *make,
                    *clock,
                    job@,
                    known_names(names, i as nat),
                    states,
                    compare_views(rows@),
                ),
            decreases job.names.len() - i,
        {
            let ghost known = known_names(names, i as nat);
            let ghost so_far = compare_views(rows@);
            let ghost earlier = states;
            assert(names[i as int] == job.names@[i as int]@);
            if let Some(algorithm) = Algorithm::parse_algorithm(job.names[i].as_str()) {
                let row: CompareRow = Self::compare_one(
                    job,
                    algorithm,
                    &job.names[i],
                    registry,
                    train,
                    make,
                    clock,
                );
                rows.push(row);
                proof {
                    states = states.push(registry@);
                    assert(compare_views(rows@) =~= so_far.push(row@));
                    assert forall|x: int| 0 <= x < rows@.len() implies compares(
                        *train,
                        *make,
                        *clock,
                        job@,
                        known.push(names[i as int])[x],
                        states[x],
                        #[trigger] compare_views(rows@)[x],
                        states[x + 1],
                    ) by {
                        if x < so_far.len() {
                            assert(compare_views(rows@)[x] == so_far[x]);
                            assert(states[x] == earlier[x] && states[x + 1] == earlier[x + 1]);
                        }
                    }
                }
            }
            i = i + 1;
        }
        rows
    }

    /// Compares the algorithms of the arguments. Nothing is registered where the
    /// arguments are wrong.
    pub fn bind<
        M,
        T: Fn(Algorithm, &Vec<Vec<u64>>, &Vec<u64>, &Vec<(String, u64)>) -> Result<Trained, String>,
        R: Fn(ModelSource) -> Option<CacheEntry<M>>,
        C: Fn() -> u64,
    >(args: &Vec<String>, registry: &mut ModelRegistry<M>, train: &T, make: &R, clock: &C) -> (r: Result<
        Vec<CompareRow>,
        String,
    >)
        requires
            old(registry).well_formed(),
            forall|g: Algorithm, a: &Vec<Vec<u64>>, b: &Vec<u64>, p: &Vec<(String, u64)>|
                call_requires(*train, (g, a, b, p)),
            forall|g: Algorithm, a: &Vec<Vec<u64>>, b: &Vec<u64>, p: &Vec<(String, u64)>, t: Trained| #[trigger]
                call_ensures(*train, (g, a, b, p), Ok(t)) ==> a@.len() > 0,
            forall|source: ModelSource| call_requires(*make, (source,)),
            call_requires(*clock, ()),
        ensures
            final(registry).well_formed(),
            match compare_job(text::texts(args@)) {
                Err(message) => r matches Err(e) && e@ == message && final(registry)@ == old(registry)@,
                Ok(job) => r matches Ok(rows) && compares_all(
                    *train,
                    *make,
                    *clock,
                    job,
                    old(registry)@,
                    compare_views(rows@),
                    final(registry)@,
                ),
            },
    {
        match read_compare_args(args) {
            Ok(job) => Ok(Self::compare(&job, registry, train, make, clock)),
            Err(e) => Err(e),
        }
    }
}

/// The rows of a comparison and how many were handed out.
pub struct CInitData {
    pub rows: Vec<CompareRow>,
    pub cursor: usize,
}

impl CInitData {
    /// Starts handing the rows out.
    pub fn init(rows: Vec<CompareRow>) -> (r: Self)
        ensures
            r.rows == rows,
            r.cursor == 0,
    {
        CInitData { rows, cursor: 0 }
    }

    /// Hands the next rows out; none where all are out.
    pub fn next_chunk(&mut self) -> (r: Vec<CompareRow>)
        requires
            old(self).cursor <= old(self).rows@.len(),
        ensures
            final(self).rows == old(self).rows,
            final(self).cursor == old(self).cursor + r@.len(),
            final(self).cursor <= final(self).rows@.len(),
            compare_views(r@) == table::chunk_of(compare_views(old(self).rows@), old(self).cursor as nat),
    {
        let total: usize = self.rows.len();
        let n: usize = chunk_size(total, self.cursor);
        let mut r: Vec<CompareRow> = Vec::new();
        let mut i: usize = 0;
        while i < n
            invariant
                total == self.rows@.len(),
                self.cursor + n <= total,
                i <= n,
                r@.len() == i,
                forall|x: int| 0 <= x < i ==> (#[trigger] r@[x])@ == self.rows@[self.cursor + x]@,
            decreases n - i,
        {
            r.push(self.rows[self.cursor + i].clone());
            i = i + 1;
        }
        assert(compare_views(r@) =~= table::chunk_of(compare_views(self.rows@), self.cursor as nat));
        self.cursor = self.cursor + n;
        r
    }
}

} // verus!
