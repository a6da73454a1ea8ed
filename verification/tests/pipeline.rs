use arnab::errors::ArnabError;
use arnab::node::NodeExecutionResult;
use arnab::session::{
    find_node, format_elapsed, prepare_run, run_summary, Config, ModelInfo, ModelSource, RunPlan,
};

fn source(id: &str, body: &str) -> ModelSource {
    ModelSource {
        path: format!("models/{}.sql", id),
        id: id.to_string(),
        extension: "sql".to_string(),
        raw_src: body.to_string(),
    }
}

fn config_with(models: Option<Vec<(String, ModelInfo)>>) -> Config {
    Config {
        db_path: None,
        macro_path: None,
        model_path: Some("models".to_string()),
        models,
        duckdb_settings: None,
    }
}

fn prepare(sources: Vec<ModelSource>, macros: Vec<String>, models: Option<Vec<(String,
    ModelInfo)>>) -> Result<RunPlan, ArnabError> {
    prepare_run(&config_with(models), &sources, &macros)
}

fn position(order: &[String], id: &str) -> usize {
    order.iter().position(|x| x == id).expect("model missing from schedule")
}

fn prevs_of(rp: &RunPlan, id: &str) -> Vec<String> {
    let k = find_node(&rp.nodes, id).expect("model missing from registry");
    let mut p = rp.nodes[k].prevs.clone();
    p.sort();
    p
}

#[test]
fn end_to_end_discovery_and_planning() {
    let sources = vec![
        source("customers", "SELECT id FROM raw_customers"),
        source("orders", "SELECT * FROM customers JOIN raw_orders USING(id)"),
    ];
    let models = vec![("orders".to_string(), ModelInfo { materialize: Some("table".to_string()) })];
    let rp = prepare(sources, vec![], Some(models)).unwrap();

    // raw_customers and raw_orders are no registered models, so they are
    // filtered out of the dependency sets
    assert_eq!(prevs_of(&rp, "customers"), Vec::<String>::new());
    assert_eq!(prevs_of(&rp, "orders"), vec!["customers".to_string()]);
    assert_eq!(rp.order, vec!["customers".to_string(), "orders".to_string()]);

    let customers_plan = rp.model_plans[0].plan.as_ref().unwrap();
    assert_eq!(customers_plan.statements.len(), 1);
    assert_eq!(
        customers_plan.statements[0].adjusted,
        "CREATE OR REPLACE VIEW customers AS (SELECT id FROM raw_customers)"
    );
    assert!(customers_plan.count_sql.is_none());

    let orders_plan = rp.model_plans[1].plan.as_ref().unwrap();
    assert_eq!(
        orders_plan.statements[0].adjusted,
        "CREATE OR REPLACE TABLE orders AS (SELECT * FROM customers JOIN raw_orders USING(id))"
    );
    assert_eq!(orders_plan.count_sql.as_deref(), Some("SELECT COUNT(*) FROM orders"));
}

#[test]
fn schedule_respects_diamond_dependencies() {
    let sources = vec![
        source("d", "SELECT * FROM b JOIN c USING(id)"),
        source("b", "SELECT * FROM a"),
        source("c", "SELECT * FROM a"),
        source("a", "SELECT 1 AS id"),
    ];
    let rp = prepare(sources, vec![], None).unwrap();
    assert_eq!(rp.order.len(), 4);
    let pa = position(&rp.order, "a");
    let pb = position(&rp.order, "b");
    let pc = position(&rp.order, "c");
    let pd = position(&rp.order, "d");
    assert!(pa < pb && pa < pc && pb < pd && pc < pd);
}

#[test]
fn cte_alias_is_not_a_dependency() {
    let sources = vec![
        source("base", "SELECT 1 AS id"),
        source("derived", "WITH tmp AS (SELECT * FROM base) SELECT * FROM tmp"),
    ];
    let rp = prepare(sources, vec![], None).unwrap();
    // the CTE body's reference to a registered model counts; the local
    // alias tmp does not, since it is no registered model
    assert_eq!(prevs_of(&rp, "derived"), vec!["base".to_string()]);
}

#[test]
fn shadowing_cte_alias_is_not_a_dependency() {
    // the alias shadows the registered model of the same name: within the
    // statement, the reference names the local common table expression
    let sources = vec![
        source("base", "SELECT 1 AS id"),
        source("tmp", "SELECT 2 AS id"),
        source("derived", "WITH tmp AS (SELECT * FROM base) SELECT * FROM tmp"),
    ];
    let rp = prepare(sources, vec![], None).unwrap();
    assert_eq!(prevs_of(&rp, "derived"), vec!["base".to_string()]);
}

#[test]
fn reference_to_registered_model_is_kept() {
    let sources = vec![
        source("base", "SELECT 1 AS id"),
        source("derived", "SELECT * FROM base JOIN external_table USING(id)"),
    ];
    let rp = prepare(sources, vec![], None).unwrap();
    assert_eq!(prevs_of(&rp, "derived"), vec!["base".to_string()]);
}

#[test]
fn two_record_producing_statements_fail_planning() {
    let sources = vec![source("twice", "SELECT 1; SELECT 2;")];
    let rp = prepare(sources, vec![], None).unwrap();
    match &rp.model_plans[0].plan {
        Err(ArnabError::Error(msg)) => {
            assert_eq!(msg, "Models must have exactly one record-producing statement.");
        },
        other => panic!("expected a model-definition error, got {:?}", other),
    }
}

#[test]
fn unknown_materialization_fails_planning() {
    let sources = vec![source("m", "SELECT 1")];
    let models = vec![("m".to_string(), ModelInfo { materialize: Some("parquet".to_string()) })];
    let rp = prepare(sources, vec![], Some(models)).unwrap();
    match &rp.model_plans[0].plan {
        Err(ArnabError::Error(msg)) => {
            assert_eq!(msg, "Unknown materialization type `parquet`");
        },
        other => panic!("expected a model-definition error, got {:?}", other),
    }
}

#[test]
fn materialization_is_matched_case_insensitively() {
    let sources = vec![source("m", "SELECT 1")];
    let models = vec![("m".to_string(), ModelInfo { materialize: Some("TABLE".to_string()) })];
    let rp = prepare(sources, vec![], Some(models)).unwrap();
    let plan = rp.model_plans[0].plan.as_ref().unwrap();
    assert_eq!(plan.statements[0].adjusted, "CREATE OR REPLACE TABLE m AS (SELECT 1)");
}

#[test]
fn non_record_statements_run_verbatim() {
    let sources = vec![source("m", "CREATE INDEX idx ON t(x); SELECT * FROM t")];
    let rp = prepare(sources, vec![], None).unwrap();
    let plan = rp.model_plans[0].plan.as_ref().unwrap();
    assert_eq!(plan.statements.len(), 2);
    assert_eq!(plan.statements[0].adjusted, "CREATE INDEX idx ON t(x)");
    assert_eq!(plan.statements[1].adjusted, "CREATE OR REPLACE VIEW m AS (SELECT * FROM t)");
}

#[test]
fn empty_fragments_are_dropped() {
    // a trailing terminator and blank fragments leave nothing to execute
    let sources = vec![source("m", "  SELECT 1 AS one ; ;\n;")];
    let rp = prepare(sources, vec![], None).unwrap();
    let plan = rp.model_plans[0].plan.as_ref().unwrap();
    assert_eq!(plan.statements.len(), 1);
    assert_eq!(plan.statements[0].original, "SELECT 1 AS one");
}

#[test]
fn planning_is_repeatable() {
    // re-running the same model plans the same create-or-replace statement,
    // so a second run replaces the first run's relation
    let sources = || vec![source("m", "SELECT 1 AS one")];
    let models = || Some(vec![("m".to_string(), ModelInfo {
        materialize: Some("table".to_string()),
    })]);
    let rp1 = prepare(sources(), vec![], models()).unwrap();
    let rp2 = prepare(sources(), vec![], models()).unwrap();
    let p1 = rp1.model_plans[0].plan.as_ref().unwrap();
    let p2 = rp2.model_plans[0].plan.as_ref().unwrap();
    assert_eq!(p1.statements[0].adjusted, p2.statements[0].adjusted);
    assert!(p1.statements[0].adjusted.starts_with("CREATE OR REPLACE TABLE"));
}

#[test]
fn unknown_model_type_aborts_the_run() {
    let mut bad = source("script", "print(1)");
    bad.extension = "py".to_string();
    let sources = vec![source("a", "SELECT 1"), bad];
    match prepare(sources, vec![], None) {
        Err(ArnabError::UnknownModelType(t)) => assert_eq!(t, "py"),
        other => panic!("expected an unknown-model-type error, got {:?}", other),
    }
}

#[test]
fn dependency_cycle_aborts_the_run() {
    let sources = vec![
        source("a", "SELECT * FROM b"),
        source("b", "SELECT * FROM a"),
    ];
    match prepare(sources, vec![], None) {
        Err(ArnabError::Error(msg)) => assert_eq!(msg, "Cyclic dependency detected"),
        other => panic!("expected a cycle error, got {:?}", other),
    }
}

#[test]
fn self_reference_is_a_cycle() {
    let sources = vec![source("s", "SELECT * FROM s")];
    match prepare(sources, vec![], None) {
        Err(ArnabError::Error(msg)) => assert_eq!(msg, "Cyclic dependency detected"),
        other => panic!("expected a cycle error, got {:?}", other),
    }
}

#[test]
fn macros_expand_and_are_no_table_references() {
    let macros = vec![
        "{% macro greet() %}SELECT 1 AS one{% endmacro %}".to_string(),
    ];
    let sources = vec![source("m", "SELECT * FROM ({{ greet() }}) AS t")];
    let rp = prepare(sources, macros, None).unwrap();
    let k = find_node(&rp.nodes, "m").unwrap();
    assert!(rp.nodes[k].rendered_src.contains("SELECT 1 AS one"));
    assert!(!rp.nodes[k].rendered_src.contains("{{"));
    // the macro invocation leaves no dependency behind
    assert_eq!(prevs_of(&rp, "m"), Vec::<String>::new());
}

#[test]
fn comments_are_stripped_before_rendering() {
    let body = "-- picks one row\nSELECT 1 AS one /* explanatory note */";
    let sources = vec![source("m", body)];
    let rp = prepare(sources, vec![], None).unwrap();
    let k = find_node(&rp.nodes, "m").unwrap();
    assert!(rp.nodes[k].rendered_src.contains("SELECT 1 AS one"));
    assert!(!rp.nodes[k].rendered_src.contains("picks one row"));
    assert!(!rp.nodes[k].rendered_src.contains("explanatory note"));
}

#[test]
fn dependents_invert_dependencies() {
    let sources = vec![
        source("a", "SELECT 1 AS id"),
        source("b", "SELECT * FROM a"),
    ];
    let rp = prepare(sources, vec![], None).unwrap();
    let ka = find_node(&rp.nodes, "a").unwrap();
    let kb = find_node(&rp.nodes, "b").unwrap();
    assert_eq!(rp.nodes[ka].nexts, vec!["b".to_string()]);
    assert!(rp.nodes[kb].nexts.is_empty());
    assert!(rp.warnings.is_empty());
    assert!(rp.invalid_ids.is_empty());
}

#[test]
fn failure_of_one_model_leaves_the_rest_attempted() {
    // three chained models; the middle one's statement will fail against
    // the engine, and the batch still reaches the last one
    let sources = vec![
        source("a", "SELECT 1 AS id"),
        source("b", "SELECT broken() FROM a"),
        source("c", "SELECT * FROM b"),
    ];
    let rp = prepare(sources, vec![], None).unwrap();
    assert_eq!(rp.order, vec!["a".to_string(), "b".to_string(), "c".to_string()]);
    assert_eq!(rp.model_plans.len(), 3);

    // drive the plans the way the host does, with the middle model failing
    let mut outcomes: Vec<(String, Result<NodeExecutionResult, ArnabError>)> = Vec::new();
    for mp in &rp.model_plans {
        let k = find_node(&rp.nodes, &mp.id).unwrap();
        let node = &rp.nodes[k];
        let plan = mp.plan.as_ref().unwrap();
        let failure = if mp.id == "b" {
            Some((0usize, "Catalog Error: broken() does not exist".to_string()))
        } else {
            None
        };
        outcomes.push((mp.id.clone(), node.outcome_from_run(plan, failure, None)));
    }
    assert_eq!(outcomes.len(), 3);
    assert_eq!(outcomes[0].0, "a");
    assert!(outcomes[0].1.is_ok());
    match &outcomes[1].1 {
        Err(ArnabError::StatementExecutionError { msg, sql, path }) => {
            assert!(msg.contains("Catalog Error"));
            assert_eq!(sql, "SELECT broken() FROM a");
            assert_eq!(path, "models/b.sql");
        },
        other => panic!("expected a statement execution error, got {:?}", other),
    }
    assert_eq!(outcomes[2].0, "c");
    assert!(outcomes[2].1.is_ok());

    let (n_ok, n_err) = run_summary(&outcomes);
    assert_eq!((n_ok, n_err), (2, 1));
}

#[test]
fn table_outcome_reports_row_count() {
    let sources = vec![source("m", "SELECT 1 AS one")];
    let models = vec![("m".to_string(), ModelInfo { materialize: Some("table".to_string()) })];
    let rp = prepare(sources, vec![], Some(models)).unwrap();
    let k = find_node(&rp.nodes, "m").unwrap();
    let plan = rp.model_plans[0].plan.as_ref().unwrap();
    match rp.nodes[k].outcome_from_run(plan, None, Some(42)) {
        Ok(NodeExecutionResult::Sql { n_rows }) => assert_eq!(n_rows, 42),
        other => panic!("expected success, got {:?}", matches!(other, Ok(_))),
    }
}

#[test]
fn elapsed_times_render_like_the_status_line() {
    assert_eq!(format_elapsed(3723, 45), "1h 2m 3s 45ms");
    assert_eq!(format_elapsed(0, 5), "5ms");
    assert_eq!(format_elapsed(60, 0), "1m 0ms");
    assert_eq!(format_elapsed(59, 999), "59s 999ms");
}

#[test]
fn error_messages_render() {
    assert_eq!(ArnabError::Error("boom".to_string()).message(), "boom");
    assert_eq!(
        ArnabError::UnknownModelType("py".to_string()).message(),
        "Unknown model type: py"
    );
    let e = ArnabError::StatementExecutionError {
        msg: "bad".to_string(),
        sql: "SELECT".to_string(),
        path: "p.sql".to_string(),
    };
    assert_eq!(
        e.message(),
        "Failed to execute SQL statement. Source path: p.sql Error: bad SQL: SELECT"
    );
}

#[test]
fn will_produce_records_classification() {
    let sources = vec![source("m", "SELECT 1")];
    let rp = prepare(sources, vec![], None).unwrap();
    let node = &rp.nodes[0];
    assert!(node.will_produce_records("select * from t"));
    assert!(node.will_produce_records("  WITH x AS (SELECT 1) SELECT * FROM x") == false);
    assert!(node.will_produce_records("WITH x AS (SELECT 1) SELECT * FROM x"));
    assert!(!node.will_produce_records("INSERT INTO t VALUES (1)"));
}
