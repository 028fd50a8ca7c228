use duckdb_ml::storage::{
    delete_model_sql, deploy_pick_sql, deploy_record_sql, deployed_model_sql,
    ensure_experiment_sql, finish_run_sql, load_weights_sql, log_metric_sql, log_param_sql,
    returned_id, save_model_sql, save_snapshot_sql, start_run_sql,
};

#[test]
fn quotes_are_doubled() {
    assert_eq!(
        delete_model_sql("o'brien"),
        (
            "DELETE FROM duckdb_ml.model_weights WHERE model_name = 'o''brien'".to_string(),
            "DELETE FROM duckdb_ml.models WHERE name = 'o''brien'".to_string(),
        )
    );
    assert!(load_weights_sql("a''b").contains("'a''''b'"));
    assert!(deployed_model_sql("x'").contains("'x'''"));
}

#[test]
fn saving_a_model_picks_the_next_version() {
    let sql = save_model_sql("m", "pca", "{}", "{\"r\":1}", None);
    assert!(sql.contains("COALESCE((SELECT MAX(version) + 1 FROM duckdb_ml.models_v2 WHERE name = 'm'), 1)"));
    assert!(sql.contains("'pca'"));
    assert!(sql.contains("NULL"));
    assert!(sql.ends_with("RETURNING id"));
    assert!(save_model_sql("m", "pca", "{}", "{}", Some(-7)).contains("-7"));
}

#[test]
fn deployment_statements() {
    assert_eq!(
        deploy_pick_sql("m", "most_recent").unwrap(),
        "SELECT id FROM duckdb_ml.models_v2 WHERE name = 'm' ORDER BY created_at DESC LIMIT 1"
    );
    assert!(deploy_pick_sql("m", "best_score").unwrap().contains("r_squared"));
    let rollback = deploy_pick_sql("m", "rollback").unwrap();
    assert!(rollback.contains("OFFSET 1"));
    assert!(rollback.contains("WHERE m.name = 'm' AND m.id = d2.model_id"));
    assert_eq!(
        deploy_pick_sql("m", "newest").unwrap_err(),
        "Unknown deploy strategy: newest"
    );
    assert_eq!(
        deploy_record_sql("m", "rollback", Some(3)).unwrap(),
        "INSERT INTO duckdb_ml.deployments (model_name, model_id, strategy) VALUES ('m', 3, 'rollback') RETURNING id"
    );
    assert_eq!(
        deploy_record_sql("m", "rollback", None).unwrap_err(),
        "No model found for 'm' with strategy 'rollback'"
    );
    assert_eq!(returned_id(Some(9), "no row"), Ok(9));
    assert_eq!(returned_id(None, "no row"), Err("no row".to_string()));
}

#[test]
fn snapshot_statement_quotes_columns() {
    let columns = vec!["a".to_string(), "b\"c".to_string(), "d'e".to_string()];
    let sql = save_snapshot_sql("t", 3, 10, Some("y"), &columns, None);
    assert!(sql.contains(r#"VALUES ('t', 3, 10, 'y', '["a","b\"c","d''e"]', NULL)"#));
}

#[test]
fn experiment_statements() {
    assert!(ensure_experiment_sql("e", Some("regression")).contains("VALUES ('e', 'regression')"));
    assert!(ensure_experiment_sql("e", None).contains("VALUES ('e', NULL)"));
    assert!(start_run_sql(4, "first").contains("'first'"));
    assert!(finish_run_sql(4, Some(2)).contains("model_id = 2\n"));
    assert!(finish_run_sql(4, None).ends_with("WHERE id = 4"));
    assert_eq!(
        log_metric_sql(1, "mse", "0.5", -1),
        "INSERT INTO duckdb_ml.metrics (run_id, key, value, step) VALUES (1, 'mse', 0.5, -1)"
    );
    assert!(log_param_sql(1, "k", "it's").contains("'it''s'"));
}
