//! What a comparison of algorithms works on and says.

use vstd::prelude::*;
use crate::automl;
use crate::automl::{
    get_param, model_source, read_compare_args, CInitData, CompareArgs, CompareFn, CompareJob, CompareRow, CompareView,
    ModelSource, Trained,
};
use crate::bits;
use crate::json;
use crate::laws::documents;
use crate::model::registry::{CacheEntry, ModelRegistry, RegistryView};
use crate::model::types;
use crate::model::types::Algorithm;
use crate::table;
use crate::text;

verus! {

/// The algorithms that are compared for a classification where none are named.
pub open spec fn classifiers() -> Seq<Seq<char>> {
    seq!["logistic_regression"@, "random_forest"@, "knn_classifier"@, "naive_bayes"@]
}

/// The algorithms that are compared for anything else where none are named.
pub open spec fn regressors() -> Seq<Seq<char>> {
    seq!["linear_regression"@, "lasso_regression"@, "random_forest"@, "knn_regressor"@, "mlp_regressor"@]
}

/// The arguments are readable: four at least, of which the second is a list of
/// numbers, the third a table and the fourth a list of names.
pub open spec fn readable(args: Seq<Seq<char>>, y: Seq<u64>, x: Seq<Seq<u64>>, names: Seq<Seq<char>>) -> bool {
    &&& args.len() >= 4
    &&& json::json_document(args[1]) matches Ok(doc) && documents::is_numbers(doc, y)
    &&& json::json_document(args[2]) matches Ok(doc) && documents::is_table(doc, x)
    &&& json::json_document(args[3]) matches Ok(doc) && documents::is_texts(doc, names)
}

/// The sixth argument holds no parameters: it is not there, blank, or `{}`.
pub open spec fn without_params(args: Seq<Seq<char>>) -> bool {
    args.len() < 6 || text::trimmed(args[5]).len() == 0 || args[5] == "{}"@
}

/// A text is an object of these named numbers.
pub open spec fn gives_params(text: Seq<char>, p: Seq<(Seq<char>, u64)>) -> bool {
    json::params_document(text) matches Ok(doc) && documents::is_params(doc, p)
}

proof fn lemma_job(args: Seq<Seq<char>>, y: Seq<u64>, x: Seq<Seq<u64>>, names: Seq<Seq<char>>)
    requires
        readable(args, y, x, names),
    ensures
        automl::compare_job(args) matches Ok(job) ==> {
            &&& job.experiment == args[0]
            &&& job.y == y
            &&& job.x == x
            &&& names.len() > 0 ==> job.names == names
            &&& names.len() == 0 && args.len() >= 5 && args[4] == "classification"@ ==> job.names == classifiers()
            &&& names.len() == 0 && (args.len() < 5 || args[4] != "classification"@) ==> job.names == regressors()
            &&& without_params(args) ==> job.params.len() == 0
            &&& !without_params(args) ==> gives_params(args[5], job.params)
        },
        without_params(args) ==> automl::compare_job(args) is Ok,
        !without_params(args) ==> (automl::compare_job(args) is Ok <==> exists|p: Seq<(Seq<char>, u64)>| #[trigger]
            gives_params(args[5], p)),
{
    documents::lemma_numbers_text(args[1], y);
    documents::lemma_table_text(args[2], x);
    documents::lemma_texts_text(args[3], names);
    assert("regression"@ != "classification"@) by {
        reveal_strlit("regression");
        reveal_strlit("classification");
        assert("regression"@.len() == 10 && "classification"@.len() == 14);
    }
    if !without_params(args) {
        if let Ok(p) = json::params_read(args[5]) {
            documents::lemma_params_text(args[5], p);
            assert(gives_params(args[5], p));
        }
        assert forall|p: Seq<(Seq<char>, u64)>| #[trigger] gives_params(args[5], p) implies json::params_read(
            args[5],
        ) is Ok by {
            documents::lemma_params_text(args[5], p);
        }
    }
}

/// A comparison works on what its arguments say, each in its place: the experiment,
/// the targets, the features, and the algorithms that are named. Where none are
/// named, the fifth argument decides between the classifiers and the regressors,
/// whether or not there is a sixth; the sixth holds the parameters.
pub proof fn law_arguments_make_the_job(
    args: Vec<String>,
    y: Seq<u64>,
    x: Seq<Seq<u64>>,
    names: Seq<Seq<char>>,
    r: Result<CompareArgs, String>,
)
    requires
        call_ensures(read_compare_args, (&args,), r),
        readable(args@.map_values(|s: String| s@), y, x, names),
    ensures
        ({
            let given = args@.map_values(|s: String| s@);
            &&& without_params(given) ==> r is Ok
            &&& !without_params(given) ==> (r is Ok <==> exists|p: Seq<(Seq<char>, u64)>| #[trigger]
                gives_params(given[5], p))
            &&& r matches Ok(job) ==> {
                let named = job.names@.map_values(|s: String| s@);
                &&& job.experiment@ == args@[0]@
                &&& job.y@ == y
                &&& job.x@.map_values(|row: Vec<u64>| row@) == x
                &&& names.len() > 0 ==> named == names
                &&& names.len() == 0 && args@.len() >= 5 && args@[4]@ == "classification"@ ==> named == classifiers()
                &&& names.len() == 0 && (args@.len() < 5 || args@[4]@ != "classification"@) ==> named == regressors()
                &&& without_params(given) ==> job.params@.len() == 0
                &&& !without_params(given) ==> gives_params(
                    given[5],
                    job.params@.map_values(|p: (String, u64)| (p.0@, p.1)),
                )
            }
        }),
{
    let given = args@.map_values(|s: String| s@);
    assert(given =~= text::texts(args@));
    lemma_job(given, y, x, names);
    if let Ok(job) = r {
        assert(job.names@.map_values(|s: String| s@) =~= text::texts(job.names@));
        assert(job.x@.map_values(|row: Vec<u64>| row@) =~= json::rows_of(job.x@));
        assert(job.params@.map_values(|p: (String, u64)| (p.0@, p.1)) =~= json::named_numbers(job.params@));
        assert(json::named_numbers(job.params@).len() == job.params@.len());
    }
}

/// A document is an array of strings.
pub open spec fn is_text_array(doc: json::JsonView) -> bool {
    exists|names: Seq<Seq<char>>| #[trigger] documents::is_texts(doc, names)
}

/// Fewer than four arguments, or one that is not of its kind, make no job.
pub proof fn law_unreadable_arguments_make_no_job(args: Vec<String>, job: CompareArgs)
    requires
        call_ensures(read_compare_args, (&args,), Ok(job)),
    ensures
        args@.len() >= 4,
        json::json_document(args@[1]@) matches Ok(doc) && documents::is_numbers(doc, job.y@),
        json::json_document(args@[2]@) matches Ok(doc) && documents::is_table(
            doc,
            job.x@.map_values(|row: Vec<u64>| row@),
        ),
        json::json_document(args@[3]@) matches Ok(doc) && is_text_array(doc),
{
    let given = args@.map_values(|s: String| s@);
    assert(given =~= text::texts(args@));
    assert(job.x@.map_values(|row: Vec<u64>| row@) =~= json::rows_of(job.x@));
    documents::lemma_numbers_text(given[1], job.y@);
    documents::lemma_table_text(given[2], json::rows_of(job.x@));
    let names = json::strings_read(given[3])->Ok_0;
    documents::lemma_texts_text(given[3], names);
}

/// What the caller trains for an algorithm: on the features, the targets and the
/// parameters of the job.
pub open spec fn trains<
    T: Fn(Algorithm, &Vec<Vec<u64>>, &Vec<u64>, &Vec<(String, u64)>) -> Result<Trained, String>,
>(
    train: T,
    g: Algorithm,
    a: &Vec<Vec<u64>>,
    b: &Vec<u64>,
    p: &Vec<(String, u64)>,
    job: CompareJob,
    answer: Result<Trained, String>,
) -> bool {
    &&& a@.map_values(|row: Vec<u64>| row@) == job.x
    &&& b@ == job.y
    &&& p@.map_values(|x: (String, u64)| (x.0@, x.1)) == job.params
    &&& call_ensures(train, (g, a, b, p), answer)
}

/// The row of an algorithm says how its training went: with the quality that the
/// training reports and the size of the dataset, or with the error and nothing else.
pub open spec fn reports(job: CompareJob, name: Seq<char>, answer: Result<Trained, String>, row: CompareView) -> bool {
    &&& row.model_name == job.experiment + "_"@ + name
    &&& match answer {
        Ok(t) => row.algorithm == name && row.r_squared == t.r_squared && row.mse == t.mse && row.n_samples
            == job.x.len() as i32 && row.n_features == job.x[0].len() as i32,
        Err(e) => row.algorithm == name + " (ERR: "@ + e@ + ")"@ && row.r_squared is None && row.mse is None
            && row.n_samples == 0 && row.n_features == 0,
    }
}

/// A comparison has one row for each name of an algorithm, in the order of the names,
/// and each row reports on the training of that very algorithm.
pub proof fn law_each_algorithm_has_its_row<
    M,
    T: Fn(Algorithm, &Vec<Vec<u64>>, &Vec<u64>, &Vec<(String, u64)>) -> Result<Trained, String>,
    R: Fn(ModelSource) -> Option<CacheEntry<M>>,
    C: Fn() -> u64,
>(
    train: T,
    make: R,
    clock: C,
    job: CompareJob,
    s: RegistryView<M>,
    rows: Seq<CompareView>,
    next: RegistryView<M>,
    algorithms: Seq<Algorithm>,
    i: int,
)
    requires
        automl::compares_all(train, make, clock, job, s, rows, next),
        algorithms.len() == job.names.len(),
        forall|j: int| 0 <= j < algorithms.len() ==> types::name_of(#[trigger] algorithms[j]) == job.names[j],
        0 <= i < job.names.len(),
    ensures
        rows.len() == job.names.len(),
        exists|a: &Vec<Vec<u64>>, b: &Vec<u64>, p: &Vec<(String, u64)>, answer: Result<Trained, String>| #[trigger]
            trains(train, algorithms[i], a, b, p, job, answer) && reports(job, job.names[i], answer, rows[i]),
{
    lemma_all_known(job.names, algorithms, job.names.len());
    assert(job.names.take(job.names.len() as int) =~= job.names);
    let states = choose|states: Seq<RegistryView<M>>| #[trigger]
        automl::compares_along(
            train,
            make,
            clock,
            job,
            automl::known_names(job.names, job.names.len()),
            states,
            rows,
        ) && states[0] == s && states.last() == next;
    let name = job.names[i];
    let g = types::algorithm_of(name)->0;
    lemma_known(name, algorithms[i]);
    assert(automl::compares(train, make, clock, job, name, states[i], rows[i], states[i + 1]));
    let key = job.experiment + "_"@ + name;
    let answer: Result<Trained, String> = choose|answer: Result<Trained, String>| #[trigger]
        automl::training(train, g, job.x, job.y, job.params, answer) && rows[i] == match answer {
            Ok(t) => automl::trained_row(key, name, t@, job.x),
            Err(e) => automl::failed_row(key, name, e@),
        };
    assert(automl::training(train, g, job.x, job.y, job.params, answer));
    let (a, b, p) = choose|a: &Vec<Vec<u64>>, b: &Vec<u64>, p: &Vec<(String, u64)>|
        json::rows_of(a@) == job.x && b@ == job.y && json::named_numbers(p@) == job.params && #[trigger] call_ensures(
            train,
            (g, a, b, p),
            answer,
        );
    assert(a@.map_values(|row: Vec<u64>| row@) =~= job.x);
    assert(p@.map_values(|x: (String, u64)| (x.0@, x.1)) =~= job.params);
    assert(trains(train, g, a, b, p, job, answer));
}

proof fn lemma_known(name: Seq<char>, g: Algorithm)
    requires
        types::name_of(g) == name,
    ensures
        types::algorithm_of(name) == Some(g),
{
    let found = types::algorithm_of(name)->0;
    assert(types::name_of(g) == name);
    types::law_names_are_distinct(g, found);
}

proof fn lemma_all_known(names: Seq<Seq<char>>, algorithms: Seq<Algorithm>, n: nat)
    requires
        algorithms.len() == names.len(),
        forall|j: int| 0 <= j < algorithms.len() ==> types::name_of(#[trigger] algorithms[j]) == names[j],
        n <= names.len(),
    ensures
        automl::known_names(names, n) == names.take(n as int),
    decreases n,
{
    if n == 0 {
        assert(names.take(0) =~= Seq::empty());
    } else {
        lemma_all_known(names, algorithms, (n - 1) as nat);
        lemma_known(names[n - 1], algorithms[n - 1]);
        assert(names.take(n as int) =~= names.take(n - 1).push(names[n - 1]));
    }
}

/// A parameter is found under its name, the first where there are several, and
/// nothing is found where no parameter has the name.
pub proof fn law_parameter_is_found_by_name(params: Vec<(String, u64)>, name: &str, i: int, r: Option<u64>)
    requires
        call_ensures(get_param, (&params, name), r),
    ensures
        0 <= i < params@.len() && params@[i].0@ == name@ && (forall|j: int|
            0 <= j < i ==> (#[trigger] params@[j]).0@ != name@) ==> r == Some(params@[i].1),
        (forall|j: int| 0 <= j < params@.len() ==> (#[trigger] params@[j]).0@ != name@) ==> r is None,
{
    let all = json::named_numbers(params@);
    if 0 <= i < params@.len() && params@[i].0@ == name@ && (forall|j: int|
        0 <= j < i ==> (#[trigger] params@[j]).0@ != name@) {
        assert forall|j: int| 0 <= j < i implies (#[trigger] all[j]).0 != name@ by {
            assert(params@[j].0@ != name@);
        }
        lemma_param(all, name@, i);
    }
    if forall|j: int| 0 <= j < params@.len() ==> (#[trigger] params@[j]).0@ != name@ {
        assert forall|j: int| 0 <= j < all.len() implies (#[trigger] all[j]).0 != name@ by {
            assert(params@[j].0@ != name@);
        }
        lemma_no_param(all, name@);
    }
}

proof fn lemma_param(params: Seq<(Seq<char>, u64)>, name: Seq<char>, i: int)
    requires
        0 <= i < params.len(),
        params[i].0 == name,
        forall|j: int| 0 <= j < i ==> (#[trigger] params[j]).0 != name,
    ensures
        automl::param(params, name) == Some(params[i].1),
    decreases params.len(),
{
    if i > 0 {
        assert(params[0].0 != name);
        let rest = params.subrange(1, params.len() as int);
        assert(rest[i - 1] == params[i]);
        assert forall|j: int| 0 <= j < i - 1 implies (#[trigger] rest[j]).0 != name by {
            assert(rest[j] == params[j + 1]);
        }
        lemma_param(rest, name, i - 1);
    }
}

proof fn lemma_no_param(params: Seq<(Seq<char>, u64)>, name: Seq<char>)
    requires
        forall|j: int| 0 <= j < params.len() ==> (#[trigger] params[j]).0 != name,
    ensures
        automl::param(params, name) is None,
    decreases params.len(),
{
    if params.len() > 0 {
        assert(params[0].0 != name);
        let rest = params.subrange(1, params.len() as int);
        assert forall|j: int| 0 <= j < rest.len() implies (#[trigger] rest[j]).0 != name by {
            assert(rest[j] == params[j + 1]);
        }
        lemma_no_param(rest, name);
    }
}

/// A model is made of exactly what its training gave: the stored bytes unchanged, or
/// the coefficients with the penalty that the parameters name.
pub proof fn law_model_is_made_of_its_training(
    g: Algorithm,
    t: Trained,
    params: Vec<(String, u64)>,
    lambda: Option<u64>,
    r: Option<ModelSource>,
)
    requires
        call_ensures(model_source, (g, t, &params), r),
        call_ensures(get_param, (&params, "lambda"), lambda),
    ensures
        r matches Some(ModelSource::Tree(b)) ==> g == Algorithm::DecisionTreeRegressor && t.model_blob is Some && b@
            == t.model_blob->0@,
        r matches Some(ModelSource::Forest(b)) ==> g == Algorithm::RandomForestRegressor && t.model_blob is Some && b@
            == t.model_blob->0@,
        r matches Some(ModelSource::Knn(b)) ==> (g == Algorithm::KNNRegressor || g == Algorithm::KNNClassifier)
            && t.model_blob is Some && b@ == t.model_blob->0@,
        r matches Some(ModelSource::NaiveBayes(b)) ==> g == Algorithm::NaiveBayes && t.model_blob is Some && b@
            == t.model_blob->0@,
        r matches Some(ModelSource::Pca(b)) ==> g == Algorithm::PCA && t.model_blob is Some && b@ == t.model_blob->0@,
        r matches Some(ModelSource::KMeans(b)) ==> g == Algorithm::KMeans && t.model_blob is Some && b@
            == t.model_blob->0@,
        r matches Some(ModelSource::Xgboost(b)) ==> (g == Algorithm::XGBoostRegression || g
            == Algorithm::XGBoostBinary) && t.model_blob is Some && b@ == t.model_blob->0@,
        r matches Some(ModelSource::Linear { coefficients, num_samples, r_squared, mse, lambda: l }) ==> (g
            == Algorithm::LinearRegression || g == Algorithm::RidgeRegression) && coefficients@ == t.coefficients@
            && num_samples == t.num_samples && r_squared == t.r_squared && mse == t.mse && l == match lambda {
            Some(x) => x,
            None => bits::ZERO,
        },
        r matches Some(ModelSource::Logistic { coefficients, num_samples, r_squared }) ==> g
            == Algorithm::LogisticRegression && coefficients@ == t.coefficients@ && num_samples == t.num_samples
            && r_squared == t.r_squared,
        t.model_blob is None && (g == Algorithm::LinearRegression || g == Algorithm::RidgeRegression || g
            == Algorithm::LogisticRegression) ==> r is Some,
        t.model_blob is Some && (g == Algorithm::RandomForestRegressor || g == Algorithm::KNNRegressor || g
            == Algorithm::KNNClassifier || g == Algorithm::NaiveBayes || g == Algorithm::DecisionTreeRegressor) ==> r is Some,
{
}

/// A comparison of arguments compares the job that they make: one row for each of
/// its algorithms, which reports on the training of that very algorithm. Arguments
/// that make no job leave the registry as it is.
pub proof fn law_arguments_are_compared<
    M,
    T: Fn(Algorithm, &Vec<Vec<u64>>, &Vec<u64>, &Vec<(String, u64)>) -> Result<Trained, String>,
    R: Fn(ModelSource) -> Option<CacheEntry<M>>,
    C: Fn() -> u64,
>(
    args: &Vec<String>,
    registry: &mut ModelRegistry<M>,
    train: &T,
    make: &R,
    clock: &C,
    r: Result<Vec<CompareRow>, String>,
    job: Result<CompareArgs, String>,
    algorithms: Seq<Algorithm>,
    i: int,
)
    requires
        call_ensures(CompareFn::bind::<M, T, R, C>, (args, registry, train, make, clock), r),
        call_ensures(read_compare_args, (args,), job),
        job is Ok ==> algorithms.len() == job->Ok_0.names@.len() && 0 <= i < algorithms.len(),
        forall|j: int|
            0 <= j < algorithms.len() ==> types::name_of(#[trigger] algorithms[j]) == job->Ok_0.names@[j]@,
    ensures
        r is Ok <==> job is Ok,
        r is Err ==> final(registry)@ == old(registry)@,
        r is Ok ==> r->Ok_0@.len() == job->Ok_0.names@.len(),
        r is Ok ==> exists|a: &Vec<Vec<u64>>, b: &Vec<u64>, p: &Vec<(String, u64)>, answer: Result<Trained, String>| #[trigger]
            trains(*train, algorithms[i], a, b, p, job->Ok_0@, answer) && reports(
                job->Ok_0@,
                job->Ok_0.names@[i]@,
                answer,
                r->Ok_0@[i]@,
            ),
{
    if job is Ok {
        let j = job->Ok_0@;
        assert(j.names =~= text::texts(job->Ok_0.names@));
        let rows = automl::compare_views(r->Ok_0@);
        assert forall|k: int| 0 <= k < algorithms.len() implies types::name_of(#[trigger] algorithms[k])
            == j.names[k] by {
            assert(j.names[k] == job->Ok_0.names@[k]@);
        }
        law_each_algorithm_has_its_row(
            *train,
            *make,
            *clock,
            j,
            old(registry)@,
            rows,
            final(registry)@,
            algorithms,
            i,
        );
        assert(rows[i] == r->Ok_0@[i]@);
        assert(rows.len() == r->Ok_0@.len());
    }
}

/// The one algorithm of a comparison that was trained is cached under the name of the
/// experiment and its own, as the caller makes it of the training, unless the caller
/// makes nothing. One that was not trained leaves the registry as it is.
pub proof fn law_trained_model_is_registered<
    M,
    T: Fn(Algorithm, &Vec<Vec<u64>>, &Vec<u64>, &Vec<(String, u64)>) -> Result<Trained, String>,
    R: Fn(ModelSource) -> Option<CacheEntry<M>>,
    C: Fn() -> u64,
>(
    job: &CompareArgs,
    registry: &mut ModelRegistry<M>,
    train: &T,
    make: &R,
    clock: &C,
    rows: Vec<CompareRow>,
    g: Algorithm,
)
    requires
        call_ensures(CompareFn::compare::<M, T, R, C>, (job, registry, train, make, clock), rows),
        job.names@.len() == 1,
        types::name_of(g) == job.names@[0]@,
    ensures
        final(registry)@ == old(registry)@ || {
            let key = job.experiment@ + "_"@ + job.names@[0]@;
            &&& final(registry)@.models.contains_key(key)
            &&& final(registry)@.deployed == old(registry)@.deployed
            &&& is_made(*make, final(registry)@.models[key])
        },
        always_made(*train, *make, g, job@.params) ==> {
            let key = job.experiment@ + "_"@ + job.names@[0]@;
            &&& final(registry)@.models.contains_key(key)
            &&& is_made(*make, final(registry)@.models[key])
        },
{
    let j = job@;
    assert(j.names =~= text::texts(job.names@));
    let name = j.names[0];
    assert(name == job.names@[0]@);
    let rows_seen = automl::compare_views(rows@);
    let known = automl::known_names(j.names, 1);
    lemma_known(name, g);
    reveal_with_fuel(automl::known_names, 2);
    assert(known =~= seq![name]);
    let states = choose|states: Seq<RegistryView<M>>| #[trigger]
        automl::compares_along(*train, *make, *clock, j, known, states, rows_seen) && states[0] == old(registry)@
            && states.last() == final(registry)@;
    assert(automl::compares(*train, *make, *clock, j, known[0], states[0], rows_seen[0], states[1]));
}

/// The algorithm is always trained, and a model is always made of the training.
pub open spec fn always_made<
    M,
    T: Fn(Algorithm, &Vec<Vec<u64>>, &Vec<u64>, &Vec<(String, u64)>) -> Result<Trained, String>,
    R: Fn(ModelSource) -> Option<CacheEntry<M>>,
>(train: T, make: R, g: Algorithm, params: Seq<(Seq<char>, u64)>) -> bool {
    &&& forall|a: &Vec<Vec<u64>>, b: &Vec<u64>, p: &Vec<(String, u64)>, e: String| !#[trigger]
        call_ensures(train, (g, a, b, p), Err(e))
    &&& forall|a: &Vec<Vec<u64>>, b: &Vec<u64>, p: &Vec<(String, u64)>, t: Trained| #[trigger]
        call_ensures(train, (g, a, b, p), Ok(t)) ==> automl::source_of(g, t@, params) is Some
    &&& forall|s: ModelSource| !#[trigger] call_ensures(make, (s,), None)
}

/// The caller made the model.
pub open spec fn is_made<M, R: Fn(ModelSource) -> Option<CacheEntry<M>>>(make: R, entry: CacheEntry<M>) -> bool {
    exists|source: ModelSource| #[trigger] call_ensures(make, (source,), Some(entry))
}

/// The rows of a comparison are handed out in order, 2048 at most at a time.
pub proof fn law_rows_are_handed_out_in_order(c: &mut CInitData, r: Vec<CompareRow>)
    requires
        call_ensures(CInitData::next_chunk, (c,), r),
        old(c).cursor <= old(c).rows@.len(),
    ensures
        final(c).rows == old(c).rows,
        final(c).cursor == old(c).cursor + r@.len(),
        r@.len() <= 2048,
        r@.len() == 2048 || final(c).cursor == final(c).rows@.len(),
        forall|i: int| 0 <= i < r@.len() ==> (#[trigger] r@[i])@ == old(c).rows@[old(c).cursor + i]@,
{
    let all = automl::compare_views(old(c).rows@);
    let chunk = table::chunk_of(all, old(c).cursor as nat);
    assert(automl::compare_views(r@).len() == r@.len());
    assert(all.len() == old(c).rows@.len());
    assert forall|i: int| 0 <= i < r@.len() implies (#[trigger] r@[i])@ == old(c).rows@[old(c).cursor + i]@ by {
        assert(automl::compare_views(r@)[i] == chunk[i]);
    }
}

} // verus!
