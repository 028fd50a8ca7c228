//! The SQL by which models, deployments, snapshots and experiments are kept in
//! tables, and what the answers mean.

use vstd::prelude::*;
use crate::json::quote_text;
use crate::json;
use crate::scalar;
use crate::scalar::write_array;
use crate::text;
use crate::text::{chars_of, push_decimal, push_signed_decimal, text_eq};

verus! {

/// A text with every single quote doubled, as it stands between the quotes of an
/// SQL literal.
pub open spec fn escaped(s: Seq<char>) -> Seq<char>
    decreases s.len(),
{
    if s.len() == 0 {
        Seq::empty()
    } else if s.last() == '\'' {
        escaped(s.drop_last()) + seq!['\'', '\'']
    } else {
        escaped(s.drop_last()).push(s.last())
    }
}

/// A text as an SQL literal.
pub open spec fn literal(s: Seq<char>) -> Seq<char> {
    "'"@ + escaped(s) + "'"@
}

/// A text as an SQL literal, or `NULL` where there is none.
pub open spec fn literal_or_null(s: Option<Seq<char>>) -> Seq<char> {
    match s {
        Some(s) => literal(s),
        None => "NULL"@,
    }
}

/// A number, or `NULL` where there is none.
pub open spec fn number_or_null(n: Option<i64>) -> Seq<char> {
    match n {
        Some(n) => text::signed_decimal(n as int),
        None => "NULL"@,
    }
}

/// What stands in an SQL literal, read from behind its opening quote: the text
/// that it means, and what follows its closing quote. A doubled quote means one.
pub open spec fn read_literal(t: Seq<char>) -> Option<(Seq<char>, Seq<char>)>
    decreases t.len(),
{
    if t.len() == 0 {
        None
    } else if t[0] != '\'' {
        match read_literal(t.skip(1)) {
            Some((s, rest)) => Some((seq![t[0]] + s, rest)),
            None => None,
        }
    } else if t.len() > 1 && t[1] == '\'' {
        match read_literal(t.skip(2)) {
            Some((s, rest)) => Some((seq!['\''] + s, rest)),
            None => None,
        }
    } else {
        Some((Seq::empty(), t.skip(1)))
    }
}

proof fn lemma_escaped_first(s: Seq<char>)
    requires
        s.len() > 0,
    ensures
        escaped(s) == (if s[0] == '\'' {
            seq!['\'', '\'']
        } else {
            seq![s[0]]
        }) + escaped(s.skip(1)),
    decreases s.len(),
{
    let head = if s[0] == '\'' {
        seq!['\'', '\'']
    } else {
        seq![s[0]]
    };
    if s.len() == 1 {
        assert(s.drop_last() =~= Seq::empty());
        assert(s.skip(1) =~= Seq::empty());
        assert(escaped(s) =~= head + escaped(s.skip(1)));
    } else {
        lemma_escaped_first(s.drop_last());
        assert(s.drop_last().skip(1) =~= s.skip(1).drop_last());
        assert(s.skip(1).last() == s.last());
        assert(escaped(s) =~= head + escaped(s.skip(1)));
    }
}

/// A text that is written as a literal reads back as itself, and the literal
/// ends where it was meant to: nothing in the text can close it.
pub proof fn law_literal_reads_back(s: Seq<char>, rest: Seq<char>)
    requires
        rest.len() > 0 ==> rest[0] != '\'',
    ensures
        read_literal(escaped(s) + "'"@ + rest) == Some((s, rest)),
    decreases s.len(),
{
    reveal_strlit("'");
    let t = escaped(s) + "'"@ + rest;
    if s.len() == 0 {
        assert(t[0] == '\'');
        assert(t.skip(1) =~= rest);
        if t.len() > 1 {
            assert(t[1] == rest[0]);
        }
        assert(s =~= Seq::empty());
    } else {
        lemma_escaped_first(s);
        let tail = escaped(s.skip(1)) + "'"@ + rest;
        law_literal_reads_back(s.skip(1), rest);
        if s[0] == '\'' {
            assert(t[0] == '\'' && t[1] == '\'');
            assert(t.skip(2) =~= tail);
            assert(seq!['\''] + s.skip(1) =~= s);
        } else {
            assert(t[0] == s[0]);
            assert(t.skip(1) =~= tail);
            assert(seq![s[0]] + s.skip(1) =~= s);
        }
    }
}

/// No two texts are written as the same literal.
pub proof fn law_literals_are_distinct(a: Seq<char>, b: Seq<char>)
    requires
        literal(a) == literal(b),
    ensures
        a == b,
{
    reveal_strlit("'");
    let x = literal(a);
    let none = Seq::<char>::empty();
    assert(x.skip(1) =~= escaped(a) + "'"@ + none);
    assert(literal(b).skip(1) =~= escaped(b) + "'"@ + none);
    law_literal_reads_back(a, none);
    law_literal_reads_back(b, none);
}

/// Writes a text with its quotes doubled behind another.
fn push_escaped(out: &mut String, s: &str)
    ensures
        final(out)@ == old(out)@ + escaped(s@),
{
    let ghost before = out@;
    let chars: Vec<char> = chars_of(s);
    let mut i: usize = 0;
    assert(s@.take(0) =~= Seq::empty());
    assert(out@ =~= before + escaped(s@.take(0)));
    while i < chars.len()
        invariant
            chars@ == s@,
            i <= chars@.len(),
            out@ == before + escaped(s@.take(i as int)),
        decreases chars.len() - i,
    {
        let c: char = chars[i];
        assert(s@.take(i + 1).drop_last() =~= s@.take(i as int));
        assert(s@.take(i + 1).last() == c);
        if c == '\'' {
            out.push('\'');
        }
        out.push(c);
        i = i + 1;
        assert(out@ =~= before + escaped(s@.take(i as int)));
    }
    assert(s@.take(i as int) =~= s@);
}

/// Writes a literal behind a text.
fn push_literal(out: &mut String, s: &str)
    ensures
        final(out)@ == old(out)@ + literal(s@),
{
    let ghost before = out@;
    out.append("'");
    push_escaped(out, s);
    out.append("'");
    assert(out@ =~= before + literal(s@));
}

fn push_literal_or_null(out: &mut String, s: Option<&str>)
    ensures
        final(out)@ == old(out)@ + literal_or_null(
            match s {
                Some(s) => Some(s@),
                None => None,
            },
        ),
{
    match s {
        Some(s) => {
            push_literal(out, s);
        },
        None => {
            out.append("NULL");
        },
    }
}

fn push_number_or_null(out: &mut String, n: Option<i64>)
    ensures
        final(out)@ == old(out)@ + number_or_null(n),
{
    match n {
        Some(n) => {
            push_signed_decimal(out, n);
        },
        None => {
            out.append("NULL");
        },
    }
}

/// The statement that keeps a new version of a model. The version is one more
/// than the highest one that is kept under the name.
pub open spec fn save_model_statement(
    name: Seq<char>,
    algorithm: Seq<char>,
    hyperparams: Seq<char>,
    metrics: Seq<char>,
    snapshot_id: Option<i64>,
) -> Seq<char> {
    "INSERT INTO duckdb_ml.models_v2 (name, version, algorithm, hyperparams, metrics, snapshot_id)\n         VALUES (\n             "@
        + literal(name)
        + ",\n             COALESCE((SELECT MAX(version) + 1 FROM duckdb_ml.models_v2 WHERE name = "@
        + literal(name) + "), 1),\n             '"@ + algorithm + "',\n             "@ + literal(hyperparams)
        + ",\n             "@ + literal(metrics) + ",\n             "@ + number_or_null(snapshot_id)
        + "\n         )\n         RETURNING id"@
}

/// Writes the statement that keeps a new version of a model.
pub fn save_model_sql(
    name: &str,
    algorithm: &str,
    hyperparams: &str,
    metrics_json: &str,
    snapshot_id: Option<i64>,
) -> (sql: String)
    ensures
        sql@ == save_model_statement(name@, algorithm@, hyperparams@, metrics_json@, snapshot_id),
{
    let mut sql: String =
        "INSERT INTO duckdb_ml.models_v2 (name, version, algorithm, hyperparams, metrics, snapshot_id)\n         VALUES (\n             ".to_owned();
    push_literal(&mut sql, name);
    sql.append(",\n             COALESCE((SELECT MAX(version) + 1 FROM duckdb_ml.models_v2 WHERE name = ");
    push_literal(&mut sql, name);
    sql.append("), 1),\n             '");
    sql.append(algorithm);
    sql.append("',\n             ");
    push_literal(&mut sql, hyperparams);
    sql.append(",\n             ");
    push_literal(&mut sql, metrics_json);
    sql.append(",\n             ");
    push_number_or_null(&mut sql, snapshot_id);
    sql.append("\n         )\n         RETURNING id");
    sql
}

/// The query for the model that a strategy deploys: the one with the best score,
/// the newest one, or that of the deployment before the last; nothing for an
/// unknown strategy.
pub open spec fn pick_query(model_name: Seq<char>, strategy: Seq<char>) -> Option<Seq<char>> {
    let n = literal(model_name);
    if strategy == "best_score"@ {
        Some(
            "SELECT id FROM duckdb_ml.models_v2\n                 WHERE name = "@ + n
                + "\n                 ORDER BY COALESCE((metrics->>'r_squared')::DOUBLE, (metrics->>'accuracy')::DOUBLE, 0) DESC\n                 LIMIT 1"@,
        )
    } else if strategy == "most_recent"@ {
        Some(
            "SELECT id FROM duckdb_ml.models_v2 WHERE name = "@ + n + " ORDER BY created_at DESC LIMIT 1"@,
        )
    } else if strategy == "rollback"@ {
        Some(
            "SELECT m.id FROM duckdb_ml.models_v2 m\n                 JOIN duckdb_ml.deployments d2 ON d2.model_id = (\n                     SELECT d.model_id FROM duckdb_ml.deployments d\n                     WHERE d.model_name = "@
                + n
                + "\n                     ORDER BY d.created_at DESC LIMIT 1 OFFSET 1\n                 )\n                 WHERE m.name = "@
                + n + " AND m.id = d2.model_id\n                 LIMIT 1"@,
        )
    } else {
        None
    }
}

/// Writes the query for the model that a strategy deploys.
pub fn deploy_pick_sql(model_name: &str, strategy: &str) -> (r: Result<String, String>)
    ensures
        match pick_query(model_name@, strategy@) {
            Some(query) => r matches Ok(sql) && sql@ == query,
            None => r matches Err(e) && e@ == "Unknown deploy strategy: "@ + strategy@,
        },
{
    if text_eq(strategy, "best_score") {
        let mut sql: String = "SELECT id FROM duckdb_ml.models_v2\n                 WHERE name = ".to_owned();
        push_literal(&mut sql, model_name);
        sql.append(
            "\n                 ORDER BY COALESCE((metrics->>'r_squared')::DOUBLE, (metrics->>'accuracy')::DOUBLE, 0) DESC\n                 LIMIT 1",
        );
        Ok(sql)
    } else if text_eq(strategy, "most_recent") {
        let mut sql: String = "SELECT id FROM duckdb_ml.models_v2 WHERE name = ".to_owned();
        push_literal(&mut sql, model_name);
        sql.append(" ORDER BY created_at DESC LIMIT 1");
        Ok(sql)
    } else if text_eq(strategy, "rollback") {
        let mut sql: String =
            "SELECT m.id FROM duckdb_ml.models_v2 m\n                 JOIN duckdb_ml.deployments d2 ON d2.model_id = (\n                     SELECT d.model_id FROM duckdb_ml.deployments d\n                     WHERE d.model_name = ".to_owned();
        push_literal(&mut sql, model_name);
        sql.append(
            "\n                     ORDER BY d.created_at DESC LIMIT 1 OFFSET 1\n                 )\n                 WHERE m.name = ",
        );
        push_literal(&mut sql, model_name);
        sql.append(" AND m.id = d2.model_id\n                 LIMIT 1");
        Ok(sql)
    } else {
        let mut e: String = "Unknown deploy strategy: ".to_owned();
        e.append(strategy);
        Err(e)
    }
}

/// The statement that records a deployment.
pub open spec fn deploy_statement(model_name: Seq<char>, model_id: i64, strategy: Seq<char>) -> Seq<char> {
    "INSERT INTO duckdb_ml.deployments (model_name, model_id, strategy) VALUES ("@ + literal(model_name) + ", "@
        + text::signed_decimal(model_id as int) + ", '"@ + strategy + "') RETURNING id"@
}

/// Writes the statement that records the deployment of the model that was found.
pub fn deploy_record_sql(model_name: &str, strategy: &str, found: Option<i64>) -> (r: Result<String, String>)
    ensures
        match found {
            Some(model_id) => r matches Ok(sql) && sql@ == deploy_statement(model_name@, model_id, strategy@),
            None => r matches Err(e) && e@ == "No model found for '"@ + model_name@ + "' with strategy '"@ + strategy@
                + "'"@,
        },
{
    match found {
        Some(model_id) => {
            let mut sql: String =
                "INSERT INTO duckdb_ml.deployments (model_name, model_id, strategy) VALUES (".to_owned();
            push_literal(&mut sql, model_name);
            sql.append(", ");
            push_signed_decimal(&mut sql, model_id);
            sql.append(", '");
            sql.append(strategy);
            sql.append("') RETURNING id");
            Ok(sql)
        },
        None => {
            let mut e: String = "No model found for '".to_owned();
            e.append(model_name);
            e.append("' with strategy '");
            e.append(strategy);
            e.append("'");
            Err(e)
        },
    }
}

/// The id that a statement returned, or an error where it returned none.
pub fn returned_id(found: Option<i64>, failure: &str) -> (r: Result<i64, String>)
    ensures
        match found {
            Some(id) => r == Ok::<i64, String>(id),
            None => r matches Err(e) && e@ == failure@,
        },
{
    match found {
        Some(id) => Ok(id),
        None => Err(failure.to_owned()),
    }
}

/// Writes the query for the model that is deployed under a name.
pub fn deployed_model_sql(model_name: &str) -> (sql: String)
    ensures
        sql@ == "SELECT model_id FROM duckdb_ml.deployments\n         WHERE model_name = "@ + literal(model_name@)
            + "\n         ORDER BY created_at DESC LIMIT 1"@,
{
    let mut sql: String = "SELECT model_id FROM duckdb_ml.deployments\n         WHERE model_name = ".to_owned();
    push_literal(&mut sql, model_name);
    sql.append("\n         ORDER BY created_at DESC LIMIT 1");
    sql
}

/// The statement that keeps a snapshot.
pub open spec fn snapshot_statement(
    relation_name: Seq<char>,
    n_features: nat,
    n_samples: nat,
    target_column: Option<Seq<char>>,
    feature_columns: Seq<Seq<char>>,
    data_hash: Option<Seq<char>>,
) -> Seq<char> {
    "INSERT INTO duckdb_ml.snapshots (relation_name, n_features, n_samples, target_column, feature_columns, data_hash)\n         VALUES ("@
        + literal(relation_name) + ", "@ + text::decimal(n_features) + ", "@ + text::decimal(n_samples) + ", "@
        + literal_or_null(target_column) + ", "@ + literal(scalar::array_text(scalar::quoted_all(feature_columns)))
        + ", "@ + literal_or_null(data_hash) + ")\n         RETURNING id"@
}

/// Writes the statement that keeps a snapshot.
pub fn save_snapshot_sql(
    relation_name: &str,
    n_features: usize,
    n_samples: usize,
    target_column: Option<&str>,
    feature_columns: &Vec<String>,
    data_hash: Option<&str>,
) -> (sql: String)
    ensures
        sql@ == snapshot_statement(
            relation_name@,
            n_features as nat,
            n_samples as nat,
            match target_column {
                Some(s) => Some(s@),
                None => None,
            },
            text::texts(feature_columns@),
            match data_hash {
                Some(s) => Some(s@),
                None => None,
            },
        ),
{
    let mut parts: Vec<String> = Vec::new();
    let mut i: usize = 0;
    while i < feature_columns.len()
        invariant
            i <= feature_columns@.len(),
            parts@.len() == i,
            forall|x: int| 0 <= x < i ==> (#[trigger] parts@[x])@ == json::json_quoted(feature_columns@[x]@),
        decreases feature_columns.len() - i,
    {
        parts.push(quote_text(feature_columns[i].as_str()));
        i = i + 1;
    }
    assert(text::texts(parts@) =~= scalar::quoted_all(text::texts(feature_columns@)));
    let columns_json: String = write_array(&parts);
    let mut sql: String =
        "INSERT INTO duckdb_ml.snapshots (relation_name, n_features, n_samples, target_column, feature_columns, data_hash)\n         VALUES (".to_owned();
    push_literal(&mut sql, relation_name);
    sql.append(", ");
    push_decimal(&mut sql, n_features as u64);
    sql.append(", ");
    push_decimal(&mut sql, n_samples as u64);
    sql.append(", ");
    push_literal_or_null(&mut sql, target_column);
    sql.append(", ");
    push_literal(&mut sql, columns_json.as_str());
    sql.append(", ");
    push_literal_or_null(&mut sql, data_hash);
    sql.append(")\n         RETURNING id");
    sql
}

/// The statement that starts an experiment; one that is there keeps its task.
pub open spec fn experiment_statement(name: Seq<char>, task: Option<Seq<char>>) -> Seq<char> {
    "INSERT INTO duckdb_ml.experiments (name, task)\n         VALUES ("@ + literal(name) + ", "@ + literal_or_null(task)
        + ")\n         ON CONFLICT (name) DO UPDATE SET task = COALESCE(duckdb_ml.experiments.task, "@
        + literal_or_null(task) + ")\n         RETURNING id"@
}

/// Writes the statement that starts an experiment.
pub fn ensure_experiment_sql(name: &str, task: Option<&str>) -> (sql: String)
    ensures
        sql@ == experiment_statement(
            name@,
            match task {
                Some(s) => Some(s@),
                None => None,
            },
        ),
{
    let mut sql: String = "INSERT INTO duckdb_ml.experiments (name, task)\n         VALUES (".to_owned();
    push_literal(&mut sql, name);
    sql.append(", ");
    push_literal_or_null(&mut sql, task);
    sql.append(")\n         ON CONFLICT (name) DO UPDATE SET task = COALESCE(duckdb_ml.experiments.task, ");
    push_literal_or_null(&mut sql, task);
    sql.append(")\n         RETURNING id");
    sql
}

/// Writes the statement that starts a run.
pub fn start_run_sql(experiment_id: i64, run_name: &str) -> (sql: String)
    ensures
        sql@ == "INSERT INTO duckdb_ml.runs (experiment_id, run_name) VALUES ("@ + text::signed_decimal(
            experiment_id as int,
        ) + ", "@ + literal(run_name@) + ") RETURNING id"@,
{
    let mut sql: String = "INSERT INTO duckdb_ml.runs (experiment_id, run_name) VALUES (".to_owned();
    push_signed_decimal(&mut sql, experiment_id);
    sql.append(", ");
    push_literal(&mut sql, run_name);
    sql.append(") RETURNING id");
    sql
}

/// Writes the statement that finishes a run.
pub fn finish_run_sql(run_id: i64, model_id: Option<i64>) -> (sql: String)
    ensures
        sql@ == "UPDATE duckdb_ml.runs SET status = 'finished', end_time = CURRENT_TIMESTAMP, model_id = "@
            + number_or_null(model_id) + "\n         WHERE id = "@ + text::signed_decimal(run_id as int),
{
    let mut sql: String =
        "UPDATE duckdb_ml.runs SET status = 'finished', end_time = CURRENT_TIMESTAMP, model_id = ".to_owned();
    push_number_or_null(&mut sql, model_id);
    sql.append("\n         WHERE id = ");
    push_signed_decimal(&mut sql, run_id);
    sql
}

/// Writes the statement that logs a metric; `value` is the number as text.
pub fn log_metric_sql(run_id: i64, key: &str, value: &str, step: i64) -> (sql: String)
    ensures
        sql@ == "INSERT INTO duckdb_ml.metrics (run_id, key, value, step) VALUES ("@ + text::signed_decimal(
            run_id as int,
        ) + ", "@ + literal(key@) + ", "@ + value@ + ", "@ + text::signed_decimal(step as int) + ")"@,
{
    let mut sql: String = "INSERT INTO duckdb_ml.metrics (run_id, key, value, step) VALUES (".to_owned();
    push_signed_decimal(&mut sql, run_id);
    sql.append(", ");
    push_literal(&mut sql, key);
    sql.append(", ");
    sql.append(value);
    sql.append(", ");
    push_signed_decimal(&mut sql, step);
    sql.append(")");
    sql
}

/// Writes the statement that logs a parameter.
pub fn log_param_sql(run_id: i64, key: &str, value: &str) -> (sql: String)
    ensures
        sql@ == "INSERT INTO duckdb_ml.params (run_id, key, value) VALUES ("@ + text::signed_decimal(run_id as int)
            + ", "@ + literal(key@) + ", "@ + literal(value@) + ")"@,
{
    let mut sql: String = "INSERT INTO duckdb_ml.params (run_id, key, value) VALUES (".to_owned();
    push_signed_decimal(&mut sql, run_id);
    sql.append(", ");
    push_literal(&mut sql, key);
    sql.append(", ");
    push_literal(&mut sql, value);
    sql.append(")");
    sql
}

/// Writes the query for the stored weights of a model.
pub fn load_weights_sql(name: &str) -> (sql: String)
    ensures
        sql@ == "SELECT weights FROM duckdb_ml.model_weights WHERE model_name = "@ + literal(name@),
{
    let mut sql: String = "SELECT weights FROM duckdb_ml.model_weights WHERE model_name = ".to_owned();
    push_literal(&mut sql, name);
    sql
}

/// Writes the statements that delete a model: its weights first, then the model.
pub fn delete_model_sql(name: &str) -> (sql: (String, String))
    ensures
        sql.0@ == "DELETE FROM duckdb_ml.model_weights WHERE model_name = "@ + literal(name@),
        sql.1@ == "DELETE FROM duckdb_ml.models WHERE name = "@ + literal(name@),
{
    let mut weights: String = "DELETE FROM duckdb_ml.model_weights WHERE model_name = ".to_owned();
    push_literal(&mut weights, name);
    let mut model: String = "DELETE FROM duckdb_ml.models WHERE name = ".to_owned();
    push_literal(&mut model, name);
    (weights, model)
}

} // verus!
