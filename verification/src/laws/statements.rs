//! What the statements of the store say.

use vstd::prelude::*;
use crate::laws::texts;
use crate::scalar;
use crate::storage;
use crate::storage::{
    delete_model_sql, deploy_pick_sql, deploy_record_sql, deployed_model_sql, ensure_experiment_sql, finish_run_sql,
    load_weights_sql, log_metric_sql, log_param_sql, returned_id, save_model_sql, save_snapshot_sql, start_run_sql,
};
use crate::text;

verus! {

/// The text stands in quotes, with each quote in it doubled: what is read up to the
/// closing quote is the text.
pub open spec fn quotes(q: Seq<char>, s: Seq<char>) -> bool {
    &&& q.len() >= 2
    &&& q[0] == '\''
    &&& storage::read_literal(q.skip(1)) == Some((s, Seq::<char>::empty()))
}

/// The text stands in quotes, or nothing stands for a missing text.
pub open spec fn quotes_option(q: Seq<char>, s: Option<&str>) -> bool {
    match s {
        Some(s) => quotes(q, s@),
        None => q == "NULL"@,
    }
}

/// The number is written out, or nothing stands for a missing number.
pub open spec fn numbers_option(q: Seq<char>, n: Option<i64>) -> bool {
    match n {
        Some(n) => texts::is_numeral(q, n as int),
        None => q == "NULL"@,
    }
}

proof fn lemma_quotes(s: Seq<char>)
    ensures
        quotes(storage::literal(s), s),
{
    reveal_strlit("'");
    let q = storage::literal(s);
    storage::law_literal_reads_back(s, Seq::empty());
    assert(q.skip(1) =~= storage::escaped(s) + "'"@ + Seq::<char>::empty());
    assert(q[0] == '\'');
}

proof fn lemma_quotes_option(s: Option<&str>) -> (q: Seq<char>)
    ensures
        quotes_option(q, s),
        q == storage::literal_or_null(
            match s {
                Some(s) => Some(s@),
                None => None,
            },
        ),
{
    match s {
        Some(s) => {
            lemma_quotes(s@);
            storage::literal(s@)
        },
        None => "NULL"@,
    }
}

proof fn lemma_numbers_option(n: Option<i64>) -> (q: Seq<char>)
    ensures
        numbers_option(q, n),
        q == storage::number_or_null(n),
{
    match n {
        Some(n) => {
            texts::lemma_signed(n as int);
            text::signed_decimal(n as int)
        },
        None => "NULL"@,
    }
}

/// A model is saved with its name, the version after the highest of that name, the
/// algorithm, the parameters, the measures and the snapshot.
pub proof fn law_saving_a_model(
    name: &str,
    algorithm: &str,
    hyperparams: &str,
    metrics_json: &str,
    snapshot_id: Option<i64>,
    sql: String,
) -> (q: (Seq<char>, Seq<char>, Seq<char>, Seq<char>))
    requires
        call_ensures(save_model_sql, (name, algorithm, hyperparams, metrics_json, snapshot_id), sql),
    ensures
        quotes(q.0, name@),
        quotes(q.1, hyperparams@),
        quotes(q.2, metrics_json@),
        numbers_option(q.3, snapshot_id),
        sql@
            == "INSERT INTO duckdb_ml.models_v2 (name, version, algorithm, hyperparams, metrics, snapshot_id)\n         VALUES (\n             "@
            + q.0 + ",\n             COALESCE((SELECT MAX(version) + 1 FROM duckdb_ml.models_v2 WHERE name = "@ + q.0
            + "), 1),\n             '"@ + algorithm@ + "',\n             "@ + q.1 + ",\n             "@ + q.2
            + ",\n             "@ + q.3 + "\n         )\n         RETURNING id"@,
{
    lemma_quotes(name@);
    lemma_quotes(hyperparams@);
    lemma_quotes(metrics_json@);
    let n = lemma_numbers_option(snapshot_id);
    (storage::literal(name@), storage::literal(hyperparams@), storage::literal(metrics_json@), n)
}

/// A model to deploy is picked among those of the name: the one with the highest
/// score, the one created last, or the one deployed before the last one. There is no
/// other way.
pub proof fn law_picking_a_model(model_name: &str, strategy: &str, r: Result<String, String>) -> (q: Seq<char>)
    requires
        call_ensures(deploy_pick_sql, (model_name, strategy), r),
    ensures
        quotes(q, model_name@),
        r is Ok <==> strategy@ == "best_score"@ || strategy@ == "most_recent"@ || strategy@ == "rollback"@,
        strategy@ == "best_score"@ ==> r->Ok_0@ == "SELECT id FROM duckdb_ml.models_v2\n                 WHERE name = "@
            + q
            + "\n                 ORDER BY COALESCE((metrics->>'r_squared')::DOUBLE, (metrics->>'accuracy')::DOUBLE, 0) DESC\n                 LIMIT 1"@,
        strategy@ == "most_recent"@ ==> r->Ok_0@ == "SELECT id FROM duckdb_ml.models_v2 WHERE name = "@ + q
            + " ORDER BY created_at DESC LIMIT 1"@,
        strategy@ == "rollback"@ ==> r->Ok_0@
            == "SELECT m.id FROM duckdb_ml.models_v2 m\n                 JOIN duckdb_ml.deployments d2 ON d2.model_id = (\n                     SELECT d.model_id FROM duckdb_ml.deployments d\n                     WHERE d.model_name = "@
            + q
            + "\n                     ORDER BY d.created_at DESC LIMIT 1 OFFSET 1\n                 )\n                 WHERE m.name = "@
            + q + " AND m.id = d2.model_id\n                 LIMIT 1"@,
{
    reveal_strlit("best_score");
    reveal_strlit("most_recent");
    reveal_strlit("rollback");
    assert("best_score"@[0] == 'b' && "most_recent"@[0] == 'm' && "rollback"@[0] == 'r');
    lemma_quotes(model_name@);
    storage::literal(model_name@)
}

/// A deployment is recorded with the name, the model that was found and the
/// strategy. Nothing is recorded where none was found.
pub proof fn law_recording_a_deployment(
    model_name: &str,
    strategy: &str,
    found: Option<i64>,
    r: Result<String, String>,
) -> (q: (Seq<char>, Seq<char>))
    requires
        call_ensures(deploy_record_sql, (model_name, strategy, found), r),
    ensures
        r is Ok <==> found is Some,
        quotes(q.0, model_name@),
        found is Some ==> texts::is_numeral(q.1, found->0 as int),
        found is Some ==> r->Ok_0@
            == "INSERT INTO duckdb_ml.deployments (model_name, model_id, strategy) VALUES ("@ + q.0 + ", "@ + q.1
            + ", '"@ + strategy@ + "') RETURNING id"@,
{
    lemma_quotes(model_name@);
    if found is Some {
        texts::lemma_signed(found->0 as int);
    }
    (storage::literal(model_name@), text::signed_decimal(found->0 as int))
}

/// The id that a statement gave back is the answer, and its lack is the failure.
pub proof fn law_id_is_given_back(found: Option<i64>, failure: &str, r: Result<i64, String>)
    requires
        call_ensures(returned_id, (found, failure), r),
    ensures
        found matches Some(id) ==> r == Ok::<i64, String>(id),
        found is None ==> r is Err && r->Err_0@ == failure@,
{
}

/// What is deployed is the latest deployment of the name.
pub proof fn law_asking_for_the_deployed_model(model_name: &str, sql: String) -> (q: Seq<char>)
    requires
        call_ensures(deployed_model_sql, (model_name,), sql),
    ensures
        quotes(q, model_name@),
        sql@ == "SELECT model_id FROM duckdb_ml.deployments\n         WHERE model_name = "@ + q
            + "\n         ORDER BY created_at DESC LIMIT 1"@,
{
    lemma_quotes(model_name@);
    storage::literal(model_name@)
}

/// A snapshot is saved with its relation, its numbers, its target, the list of its
/// columns and its hash.
pub proof fn law_saving_a_snapshot(
    relation_name: &str,
    n_features: usize,
    n_samples: usize,
    target_column: Option<&str>,
    feature_columns: &Vec<String>,
    data_hash: Option<&str>,
    sql: String,
) -> (q: (Seq<char>, Seq<char>, Seq<char>, Seq<char>, Seq<char>, Seq<char>))
    requires
        call_ensures(
            save_snapshot_sql,
            (relation_name, n_features, n_samples, target_column, feature_columns, data_hash),
            sql,
        ),
    ensures
        quotes(q.0, relation_name@),
        texts::is_numeral(q.1, n_features as int),
        texts::is_numeral(q.2, n_samples as int),
        quotes_option(q.3, target_column),
        quotes(q.4, scalar::array_text(scalar::quoted_all(Seq::new(feature_columns@.len(), |i: int| feature_columns@[i]@)))),
        quotes_option(q.5, data_hash),
        sql@
            == "INSERT INTO duckdb_ml.snapshots (relation_name, n_features, n_samples, target_column, feature_columns, data_hash)\n         VALUES ("@
            + q.0 + ", "@ + q.1 + ", "@ + q.2 + ", "@ + q.3 + ", "@ + q.4 + ", "@ + q.5
            + ")\n         RETURNING id"@,
{
    lemma_quotes(relation_name@);
    texts::lemma_signed(n_features as int);
    texts::lemma_signed(n_samples as int);
    let target = lemma_quotes_option(target_column);
    let hash = lemma_quotes_option(data_hash);
    let columns = scalar::array_text(scalar::quoted_all(text::texts(feature_columns@)));
    assert(text::texts(feature_columns@) =~= Seq::new(feature_columns@.len(), |i: int| feature_columns@[i]@));
    lemma_quotes(columns);
    (
        storage::literal(relation_name@),
        text::decimal(n_features as nat),
        text::decimal(n_samples as nat),
        target,
        storage::literal(columns),
        hash,
    )
}

/// An experiment is made with its name and its task, or keeps the task that it has.
pub proof fn law_making_an_experiment(name: &str, task: Option<&str>, sql: String) -> (q: (Seq<char>, Seq<char>))
    requires
        call_ensures(ensure_experiment_sql, (name, task), sql),
    ensures
        quotes(q.0, name@),
        quotes_option(q.1, task),
        sql@ == "INSERT INTO duckdb_ml.experiments (name, task)\n         VALUES ("@ + q.0 + ", "@ + q.1
            + ")\n         ON CONFLICT (name) DO UPDATE SET task = COALESCE(duckdb_ml.experiments.task, "@ + q.1
            + ")\n         RETURNING id"@,
{
    lemma_quotes(name@);
    (storage::literal(name@), lemma_quotes_option(task))
}

/// A run starts in its experiment, with its name.
pub proof fn law_starting_a_run(experiment_id: i64, run_name: &str, sql: String) -> (q: (Seq<char>, Seq<char>))
    requires
        call_ensures(start_run_sql, (experiment_id, run_name), sql),
    ensures
        texts::is_numeral(q.0, experiment_id as int),
        quotes(q.1, run_name@),
        sql@ == "INSERT INTO duckdb_ml.runs (experiment_id, run_name) VALUES ("@ + q.0 + ", "@ + q.1
            + ") RETURNING id"@,
{
    lemma_quotes(run_name@);
    texts::lemma_signed(experiment_id as int);
    (text::signed_decimal(experiment_id as int), storage::literal(run_name@))
}

/// A run finishes with the model that it made.
pub proof fn law_finishing_a_run(run_id: i64, model_id: Option<i64>, sql: String) -> (q: (Seq<char>, Seq<char>))
    requires
        call_ensures(finish_run_sql, (run_id, model_id), sql),
    ensures
        numbers_option(q.0, model_id),
        texts::is_numeral(q.1, run_id as int),
        sql@ == "UPDATE duckdb_ml.runs SET status = 'finished', end_time = CURRENT_TIMESTAMP, model_id = "@ + q.0
            + "\n         WHERE id = "@ + q.1,
{
    texts::lemma_signed(run_id as int);
    (lemma_numbers_option(model_id), text::signed_decimal(run_id as int))
}

/// A measure is logged for its run, with its name, its value and its step.
pub proof fn law_logging_a_measure(run_id: i64, key: &str, value: &str, step: i64, sql: String) -> (q: (
    Seq<char>,
    Seq<char>,
    Seq<char>,
))
    requires
        call_ensures(log_metric_sql, (run_id, key, value, step), sql),
    ensures
        texts::is_numeral(q.0, run_id as int),
        quotes(q.1, key@),
        texts::is_numeral(q.2, step as int),
        sql@ == "INSERT INTO duckdb_ml.metrics (run_id, key, value, step) VALUES ("@ + q.0 + ", "@ + q.1 + ", "@
            + value@ + ", "@ + q.2 + ")"@,
{
    lemma_quotes(key@);
    texts::lemma_signed(run_id as int);
    texts::lemma_signed(step as int);
    (text::signed_decimal(run_id as int), storage::literal(key@), text::signed_decimal(step as int))
}

/// A parameter is logged for its run, with its name and its value.
pub proof fn law_logging_a_parameter(run_id: i64, key: &str, value: &str, sql: String) -> (q: (
    Seq<char>,
    Seq<char>,
    Seq<char>,
))
    requires
        call_ensures(log_param_sql, (run_id, key, value), sql),
    ensures
        texts::is_numeral(q.0, run_id as int),
        quotes(q.1, key@),
        quotes(q.2, value@),
        sql@ == "INSERT INTO duckdb_ml.params (run_id, key, value) VALUES ("@ + q.0 + ", "@ + q.1 + ", "@ + q.2
            + ")"@,
{
    lemma_quotes(key@);
    lemma_quotes(value@);
    texts::lemma_signed(run_id as int);
    (text::signed_decimal(run_id as int), storage::literal(key@), storage::literal(value@))
}

/// Weights are looked up by the name of their model, and a model goes with them.
pub proof fn law_weights_belong_to_their_model(name: &str, load: String, delete: (String, String)) -> (q: Seq<char>)
    requires
        call_ensures(load_weights_sql, (name,), load),
        call_ensures(delete_model_sql, (name,), delete),
    ensures
        quotes(q, name@),
        load@ == "SELECT weights FROM duckdb_ml.model_weights WHERE model_name = "@ + q,
        delete.0@ == "DELETE FROM duckdb_ml.model_weights WHERE model_name = "@ + q,
        delete.1@ == "DELETE FROM duckdb_ml.models WHERE name = "@ + q,
{
    lemma_quotes(name@);
    storage::literal(name@)
}

} // verus!
