use dolog::commands::{
    TableStatus, apply_message, collect_plans, format_table_targets, plan_file_contents, render_statements,
    resolve_operations, resolve_tables, unique_tables,
};
use dolog::names::{operation_from_trigger_name, trigger_operation_from_name, Operation};
use dolog::trigger::{
    describe_target, find_table_name, AppError, ExecutionPlan, ExistingTrigger, ManagedTrigger, TableDefinition,
    TriggerManager,
};
use rusqlite::Connection;

fn manager() -> TriggerManager {
    TriggerManager::new("_dolog_changes".to_owned(), "dolog".to_owned())
}

fn users(columns: &[&str]) -> TableDefinition {
    describe_target(
        "users".to_owned(),
        columns.iter().map(|c| c.to_string()).collect(),
    )
    .expect("table with columns")
}

fn columns_of(connection: &Connection, table: &str) -> Vec<String> {
    let mut statement = connection
        .prepare(&format!("PRAGMA table_info('{table}')"))
        .expect("prepare pragma");
    let rows = statement
        .query_map([], |row| row.get::<_, String>(1))
        .expect("query columns");
    rows.map(|r| r.expect("column")).collect()
}

fn trigger_rows(connection: &Connection, table: &str) -> Vec<(String, String)> {
    let mut statement = connection
        .prepare("SELECT name, sql FROM sqlite_master WHERE type = 'trigger' AND tbl_name = ?1 ORDER BY name")
        .expect("prepare trigger lookup");
    let rows = statement
        .query_map([table], |row| {
            Ok((row.get::<_, String>(0)?, row.get::<_, Option<String>>(1)?.unwrap_or_default()))
        })
        .expect("query triggers");
    rows.map(|r| r.expect("row")).collect()
}

fn trigger_names(connection: &Connection) -> Vec<String> {
    let mut statement = connection
        .prepare("SELECT name FROM sqlite_master WHERE type = 'trigger' ORDER BY name")
        .expect("prepare trigger lookup");
    let rows = statement
        .query_map([], |row| row.get(0))
        .expect("query triggers");
    rows.map(|row| row.expect("row")).collect()
}

fn listed_triggers(m: &TriggerManager, connection: &Connection, table: Option<&str>) -> Vec<ManagedTrigger> {
    let mut statement = connection
        .prepare(
            "SELECT name, tbl_name, sql FROM sqlite_master WHERE type = 'trigger' AND name LIKE ?1 ORDER BY name",
        )
        .expect("prepare trigger listing");
    let rows = statement
        .query_map([m.trigger_like_pattern(table)], |row| {
            Ok(ManagedTrigger {
                name: row.get(0)?,
                table: row.get(1)?,
                sql: row.get(2)?,
            })
        })
        .expect("list triggers");
    rows.map(|r| r.expect("row")).collect()
}

fn target(connection: &Connection, table: &str) -> TableDefinition {
    describe_target(table.to_owned(), columns_of(connection, table)).expect("columns")
}

fn existing(manager: &TriggerManager, connection: &Connection, table: &str) -> Vec<ExistingTrigger> {
    manager.collect_existing_triggers(table, &trigger_rows(connection, table))
}

fn apply(connection: &mut Connection, plan: &ExecutionPlan) {
    let transaction = connection.transaction().expect("transaction");
    for statement in plan.statements() {
        transaction.execute_batch(statement).expect("statement runs");
    }
    transaction.commit().expect("commit");
}

#[test]
fn create_plan_has_log_table_then_one_trigger_per_operation() {
    let m = manager();
    let plan = m.plan_create(&users(&["id", "email"]), &Operation::all());
    let statements = plan.statements();
    assert_eq!(statements.len(), 4);
    assert!(statements[0].contains("CREATE TABLE IF NOT EXISTS \"_dolog_changes\""));
    assert!(statements[1].contains("CREATE TRIGGER \"dolog_users_insert\""));
    assert!(statements[2].contains("CREATE TRIGGER \"dolog_users_update\""));
    assert!(statements[3].contains("CREATE TRIGGER \"dolog_users_delete\""));
}

#[test]
fn insert_trigger_text_is_exact() {
    let m = manager();
    let sql = m.create_trigger_sql(&users(&["id"]), Operation::Insert);
    assert_eq!(
        sql,
        "CREATE TRIGGER \"dolog_users_insert\"\n                AFTER INSERT ON \"users\"\n                BEGIN\n                    INSERT INTO \"_dolog_changes\" (table_name, operation, old_values, new_values)\n                    VALUES ('users', 'INSERT', NULL, json_object('id', NEW.\"id\"));\n                END;"
    );
    let update = m.create_trigger_sql(&users(&["id"]), Operation::Update);
    assert!(update.contains("AFTER UPDATE ON \"users\""));
    assert!(update.contains("'UPDATE', json_object('id', OLD.\"id\"), json_object('id', NEW.\"id\"));"));
    let delete = m.create_trigger_sql(&users(&["id"]), Operation::Delete);
    assert!(delete.contains("'DELETE', json_object('id', OLD.\"id\"), NULL);"));
    assert_eq!(
        m.drop_named_trigger_sql("dolog_users_insert"),
        "DROP TRIGGER IF EXISTS \"dolog_users_insert\";"
    );
    assert_eq!(m.trigger_stem("users", Operation::Delete), "dolog_users_delete");
}

#[test]
fn update_plan_on_a_table_without_triggers_drops_and_creates_each() {
    let m = manager();
    let plan = m.plan_update(&users(&["id", "email"]), &[], &Operation::all());
    let statements = plan.statements();
    assert_eq!(statements.len(), 7);
    assert!(statements[0].contains("CREATE TABLE IF NOT EXISTS \"_dolog_changes\""));
    assert_eq!(statements[1], "DROP TRIGGER IF EXISTS \"dolog_users_insert\";");
    assert!(statements[2].contains("CREATE TRIGGER \"dolog_users_insert\""));
    assert!(statements[6].contains("CREATE TRIGGER \"dolog_users_delete\""));
}

#[test]
fn update_plan_is_empty_when_triggers_match() {
    let m = manager();
    let table = users(&["id", "email"]);
    let created: Vec<ExistingTrigger> = Operation::all()
        .iter()
        .map(|op| ExistingTrigger {
            name: m.trigger_name(&table, *op),
            // The database keeps the text without the final semicolon.
            sql: m.create_trigger_sql(&table, *op).trim_end_matches(';').to_owned(),
            operation: *op,
        })
        .collect();
    let plan = m.plan_update(&table, &created, &Operation::all());
    assert!(plan.is_empty());
    assert_eq!(
        apply_message(&["users".to_owned()], &plan),
        "No trigger changes were needed for table 'users'."
    );
}

#[test]
fn update_plan_drops_stale_hashed_names_and_replaces_drifted_sql() {
    let m = manager();
    let table = users(&["id", "email"]);
    let existing = vec![
        ExistingTrigger {
            name: "dolog_users_insert_0123456789abcdef".to_owned(),
            sql: "CREATE TRIGGER old".to_owned(),
            operation: Operation::Insert,
        },
        ExistingTrigger {
            name: "dolog_users_update".to_owned(),
            sql: "CREATE TRIGGER drifted".to_owned(),
            operation: Operation::Update,
        },
    ];
    let plan = m.plan_update(&table, &existing, &[Operation::Insert, Operation::Update]);
    let statements = plan.statements();
    assert_eq!(statements.len(), 6);
    assert_eq!(
        statements[1],
        "DROP TRIGGER IF EXISTS \"dolog_users_insert_0123456789abcdef\";"
    );
    assert_eq!(statements[2], "DROP TRIGGER IF EXISTS \"dolog_users_insert\";");
    assert!(statements[3].contains("CREATE TRIGGER \"dolog_users_insert\""));
    assert_eq!(statements[4], "DROP TRIGGER IF EXISTS \"dolog_users_update\";");
    assert!(statements[5].contains("CREATE TRIGGER \"dolog_users_update\""));
}

#[test]
fn delete_plan_drops_existing_or_managed_names() {
    let m = manager();
    let table = users(&["id"]);
    let existing = vec![ExistingTrigger {
        name: "dolog_users_delete_ffffffffffffffff".to_owned(),
        sql: String::new(),
        operation: Operation::Delete,
    }];
    let plan = m.plan_delete(&table, &existing, &Operation::all());
    assert_eq!(
        plan.into_statements(),
        vec![
            "DROP TRIGGER IF EXISTS \"dolog_users_insert\";".to_owned(),
            "DROP TRIGGER IF EXISTS \"dolog_users_update\";".to_owned(),
            "DROP TRIGGER IF EXISTS \"dolog_users_delete_ffffffffffffffff\";".to_owned(),
        ]
    );
    let only_delete = m.plan_delete(&table, &[], &[Operation::Delete]);
    assert_eq!(only_delete.statements().len(), 1);
}

#[test]
fn apply_changed_is_the_update_plan() {
    let m = manager();
    let table = users(&["id"]);
    assert_eq!(
        m.plan_apply_changed(&table, &[], &[Operation::Insert]),
        m.plan_update(&table, &[], &[Operation::Insert])
    );
}

#[test]
fn existing_triggers_keep_only_managed_names_of_the_table() {
    let m = manager();
    let rows = vec![
        ("dolog_users_insert".to_owned(), "a".to_owned()),
        ("audit_users".to_owned(), "b".to_owned()),
        ("DOLOG_USERS_UPDATE_0123456789abcdef".to_owned(), "c".to_owned()),
        ("dolog_posts_delete".to_owned(), "d".to_owned()),
    ];
    let existing = m.collect_existing_triggers("users", &rows);
    assert_eq!(existing.len(), 2);
    assert_eq!(existing[0].name, "dolog_users_insert");
    assert_eq!(existing[0].operation, Operation::Insert);
    assert_eq!(existing[1].sql, "c");
    assert_eq!(existing[1].operation, Operation::Update);
}

#[test]
fn target_resolution_errors() {
    let m = manager();
    assert_eq!(
        m.resolve_target_table("_DOLOG_changes", Some("_dolog_changes".to_owned())),
        Err(AppError::ReservedLogTable("_dolog_changes".to_owned()))
    );
    assert_eq!(
        m.resolve_target_table("users", None),
        Err(AppError::MissingTable("users".to_owned()))
    );
    assert_eq!(
        m.resolve_target_table("users", Some("Users".to_owned())),
        Ok("Users".to_owned())
    );
    assert_eq!(
        m.resolve_target_table("changes", Some("_Dolog_Changes".to_owned())),
        Err(AppError::ReservedLogTable("_Dolog_Changes".to_owned()))
    );
    assert!(matches!(
        describe_target("empty".to_owned(), Vec::new()),
        Err(AppError::NoColumns(name)) if name == "empty"
    ));
    assert_eq!(
        AppError::MissingTable("users".to_owned()).message(),
        "table 'users' does not exist"
    );
    assert_eq!(
        AppError::ReservedLogTable("x".to_owned()).message(),
        "table 'x' conflicts with the configured log table"
    );
    assert_eq!(
        AppError::ApplyUnsupportedWithSchemaSource.message(),
        "--apply is only supported when the schema source path is a real SQLite database file"
    );
}

#[test]
fn like_patterns() {
    let m = manager();
    assert_eq!(m.trigger_like_pattern(Some("users")), "dolog_users_%");
    assert_eq!(m.trigger_like_pattern(None), "dolog_%");
    assert_eq!(m.log_table(), "_dolog_changes");
    assert_eq!(m.trigger_prefix(), "dolog");
}

#[test]
fn operations_and_tables_selection() {
    assert_eq!(resolve_operations(Vec::new()), Operation::all().to_vec());
    assert_eq!(
        resolve_operations(vec![Operation::Delete, Operation::Insert, Operation::Delete]),
        vec![Operation::Delete, Operation::Insert]
    );
    assert_eq!(
        unique_tables(vec!["users".into(), "posts".into(), "users".into()]),
        vec!["users".to_owned(), "posts".to_owned()]
    );
    assert_eq!(
        resolve_tables(vec!["a".into(), "a".into()], None),
        vec!["a".to_owned()]
    );
    assert_eq!(
        resolve_tables(vec!["a".into()], Some(vec!["posts".into(), "users".into()])),
        vec!["posts".to_owned(), "users".to_owned()]
    );
}

#[test]
fn messages_and_plan_text() {
    assert_eq!(format_table_targets(&["users".to_owned()]), "table 'users'");
    assert_eq!(
        format_table_targets(&["users".to_owned(), "posts".to_owned()]),
        "tables 'users', 'posts'"
    );
    assert_eq!(format_table_targets(&[]), "tables ");
    let plan = ExecutionPlan::from_statements(vec!["A;".to_owned(), "B;".to_owned()]);
    assert_eq!(
        apply_message(&["users".to_owned(), "posts".to_owned()], &plan),
        "Applied trigger SQL for tables 'users', 'posts'."
    );
    assert_eq!(plan_file_contents(&plan), "A;\n\nB;\n");
    assert_eq!(render_statements(plan.statements()), "A;\n\nB;\n");
    assert_eq!(render_statements(&[]), "");
    assert_eq!(plan_file_contents(&ExecutionPlan::from_statements(Vec::new())), "\n");
    let joined = collect_plans(&[
        plan.clone(),
        ExecutionPlan::from_statements(vec!["C;".to_owned()]),
    ]);
    assert_eq!(joined.into_statements(), vec!["A;", "B;", "C;"]);
}

#[test]
fn manages_trigger_lifecycle_for_a_table() {
    let mut connection = Connection::open_in_memory().expect("open database");
    connection
        .execute_batch(
            "CREATE TABLE users (
                id INTEGER PRIMARY KEY,
                email TEXT NOT NULL,
                active INTEGER NOT NULL DEFAULT 1
            );",
        )
        .expect("create users table");
    let m = manager();
    let ops = Operation::all();

    let create = m.plan_create(&target(&connection, "users"), &ops);
    assert_eq!(create.statements().len(), 4);
    assert!(create.statements()[0].contains("CREATE TABLE IF NOT EXISTS \"_dolog_changes\""));
    assert!(create.statements()[1].contains("CREATE TRIGGER \"dolog_users_insert\""));
    apply(&mut connection, &create);
    assert_eq!(
        trigger_names(&connection),
        vec!["dolog_users_delete", "dolog_users_insert", "dolog_users_update"]
    );
    let listed = listed_triggers(&m, &connection, Some("users"));
    assert_eq!(listed.len(), 3);
    assert_eq!(listed[0].name, "dolog_users_delete");
    assert_eq!(listed[0].table, "users");

    // Nothing to do right after creation.
    let refresh = m.plan_update(
        &target(&connection, "users"),
        &existing(&m, &connection, "users"),
        &ops,
    );
    assert!(refresh.is_empty());

    connection
        .execute("ALTER TABLE users ADD COLUMN name TEXT", [])
        .expect("alter users table");
    let update = m.plan_update(
        &target(&connection, "users"),
        &existing(&m, &connection, "users"),
        &ops,
    );
    assert_eq!(update.statements().len(), 7);
    assert!(update.statements()[1].contains("DROP TRIGGER IF EXISTS \"dolog_users_insert\";"));
    assert!(update.statements()[6].contains("CREATE TRIGGER \"dolog_users_delete\""));
    apply(&mut connection, &update);

    connection
        .execute(
            "INSERT INTO users (email, active, name) VALUES (?1, ?2, ?3)",
            ("a@example.com", 1, "Ada"),
        )
        .expect("insert user");
    let new_values: String = connection
        .query_row(
            "SELECT new_values FROM _dolog_changes WHERE operation = 'INSERT' LIMIT 1",
            [],
            |row| row.get(0),
        )
        .expect("read inserted log row");
    assert!(new_values.contains("\"name\":\"Ada\""));

    let delete = m.plan_delete(
        &target(&connection, "users"),
        &existing(&m, &connection, "users"),
        &ops,
    );
    assert_eq!(delete.statements().len(), 3);
    assert!(delete.statements()[0].contains("DROP TRIGGER IF EXISTS \"dolog_users_insert\";"));
    apply(&mut connection, &delete);
    assert!(trigger_names(&connection).is_empty());
}

#[test]
fn refresh_recreates_only_the_missing_trigger() {
    let mut connection = Connection::open_in_memory().expect("open database");
    connection
        .execute_batch("CREATE TABLE users (id INTEGER PRIMARY KEY, email TEXT NOT NULL);")
        .expect("create users table");
    let m = manager();
    let ops = Operation::all();
    let create = m.plan_create(&target(&connection, "users"), &ops);
    apply(&mut connection, &create);
    connection
        .execute_batch("DROP TRIGGER dolog_users_insert;")
        .expect("drop insert trigger");
    let plan = m.plan_update(
        &target(&connection, "users"),
        &existing(&m, &connection, "users"),
        &ops,
    );
    assert_eq!(plan.statements().len(), 3);
    assert!(plan.statements()[2].contains("CREATE TRIGGER \"dolog_users_insert\""));
    apply(&mut connection, &plan);
    assert_eq!(trigger_names(&connection).len(), 3);
}

fn table_exists(connection: &Connection, table: &str) -> bool {
    connection
        .query_row(
            "SELECT EXISTS(
                SELECT 1
                FROM sqlite_master
                WHERE type = 'table' AND name = ?1
            )",
            [table],
            |row| row.get::<_, i64>(0),
        )
        .expect("query table existence")
        == 1
}

#[test]
fn planning_and_dry_run_do_not_modify_real_sqlite_db() {
    let mut connection = Connection::open_in_memory().expect("open database");
    connection
        .execute_batch(
            "CREATE TABLE users (
                id INTEGER PRIMARY KEY,
                email TEXT NOT NULL
            );",
        )
        .expect("create users table");
    let m = manager();
    let ops = Operation::all();

    let create_plan = m.plan_create(&target(&connection, "users"), &ops);
    assert_eq!(create_plan.statements().len(), 4);
    assert!(trigger_names(&connection).is_empty());
    assert!(!table_exists(&connection, "_dolog_changes"));

    let update_plan = m.plan_update(
        &target(&connection, "users"),
        &existing(&m, &connection, "users"),
        &ops,
    );
    assert_eq!(update_plan.statements().len(), 7);
    assert!(trigger_names(&connection).is_empty());
    assert!(!table_exists(&connection, "_dolog_changes"));

    apply(&mut connection, &create_plan);
    assert_eq!(trigger_names(&connection).len(), 3);
    assert!(table_exists(&connection, "_dolog_changes"));

    let delete_plan = m.plan_delete(
        &target(&connection, "users"),
        &existing(&m, &connection, "users"),
        &ops,
    );
    assert_eq!(delete_plan.statements().len(), 3);
    apply(&mut connection, &delete_plan);
    assert!(trigger_names(&connection).is_empty());
}

#[test]
fn drop_of_selected_operation_keeps_the_others() {
    let mut connection = Connection::open_in_memory().expect("open database");
    connection
        .execute_batch("CREATE TABLE users (id INTEGER PRIMARY KEY, email TEXT NOT NULL);")
        .expect("create users table");
    let m = manager();
    let create = m.plan_create(&target(&connection, "users"), &Operation::all());
    apply(&mut connection, &create);
    let delete = m.plan_delete(
        &target(&connection, "users"),
        &existing(&m, &connection, "users"),
        &[Operation::Delete],
    );
    apply(&mut connection, &delete);
    assert_eq!(
        trigger_names(&connection),
        vec!["dolog_users_insert", "dolog_users_update"]
    );
}

#[test]
fn drifted_trigger_is_replaced() {
    let mut connection = Connection::open_in_memory().expect("open database");
    connection
        .execute_batch("CREATE TABLE users (id INTEGER PRIMARY KEY, email TEXT NOT NULL);")
        .expect("create users table");
    let m = manager();
    let create = m.plan_create(&target(&connection, "users"), &Operation::all());
    apply(&mut connection, &create);
    connection
        .execute_batch(
            "DROP TRIGGER dolog_users_insert;
             CREATE TRIGGER dolog_users_insert
             AFTER INSERT ON users
             BEGIN
                 INSERT INTO _dolog_changes (table_name, operation, old_values, new_values)
                 VALUES ('users', 'INSERT', NULL, json_object('id', NEW.\"id\"));
             END;",
        )
        .expect("replace with drifted trigger");
    let plan = m.plan_update(
        &target(&connection, "users"),
        &existing(&m, &connection, "users"),
        &[Operation::Insert],
    );
    assert_eq!(plan.statements().len(), 3);
    apply(&mut connection, &plan);
    let sql: String = connection
        .query_row(
            "SELECT sql FROM sqlite_master WHERE type = 'trigger' AND name = 'dolog_users_insert'",
            [],
            |row| row.get(0),
        )
        .expect("read trigger sql");
    assert!(sql.contains("NEW.\"email\""));
}

#[test]
fn generated_names_read_back_as_their_operation() {
    let m = TriggerManager::new("log".to_owned(), "Cap".to_owned());
    for op in Operation::all() {
        let name = m.trigger_stem("Orders", op);
        assert_eq!(trigger_operation_from_name("Cap", "Orders", &name), Some(op));
        assert_eq!(operation_from_trigger_name("Cap", "Orders", &name), Some(op));
        let hashed = format!("{name}_00ff00ff00ff00ff");
        assert_eq!(trigger_operation_from_name("Cap", "Orders", &hashed), Some(op));
    }
    let listed: Vec<ManagedTrigger> = [Operation::Insert, Operation::Delete]
        .iter()
        .map(|op| ManagedTrigger {
            name: m.trigger_stem("Orders", *op),
            table: "Orders".to_owned(),
            sql: String::new(),
        })
        .collect();
    let status = TableStatus::from_triggers("Cap", "Orders", &listed);
    assert!(status.insert && !status.update && status.delete);
}

#[test]
fn settled_triggers_in_any_row_order_need_no_refresh() {
    let m = manager();
    let table = users(&["id", "email"]);
    let mut rows: Vec<(String, String)> = Operation::all()
        .iter()
        .map(|op| {
            let one_line = m
                .create_trigger_sql(&table, *op)
                .split_whitespace()
                .collect::<Vec<_>>()
                .join(" ");
            (m.trigger_name(&table, *op), one_line)
        })
        .collect();
    rows.reverse();
    rows.insert(1, ("audit_users_insert".to_owned(), "CREATE TRIGGER x".to_owned()));
    let found = m.collect_existing_triggers("users", &rows);
    assert_eq!(found.len(), 3);
    let plan = m.plan_update(&table, &found, &Operation::all());
    assert!(plan.is_empty());
}

#[test]
fn settled_trigger_gets_no_statement_while_others_are_refreshed() {
    let m = manager();
    let table = users(&["id"]);
    let rows = vec![
        ("dolog_users_delete_0123456789abcdef".to_owned(), "old".to_owned()),
        (m.trigger_name(&table, Operation::Insert), m.create_trigger_sql(&table, Operation::Insert)),
    ];
    let found = m.collect_existing_triggers("users", &rows);
    let plan = m.plan_update(&table, &found, &Operation::all());
    let statements = plan.statements();
    assert_eq!(
        statements.to_vec(),
        vec![
            m.create_log_table_sql(),
            m.drop_named_trigger_sql("dolog_users_update"),
            m.create_trigger_sql(&table, Operation::Update),
            m.drop_named_trigger_sql("dolog_users_delete_0123456789abcdef"),
            m.drop_named_trigger_sql("dolog_users_delete"),
            m.create_trigger_sql(&table, Operation::Delete),
        ]
    );
    for statement in &statements[1..] {
        assert!(!statement.contains("dolog_users_insert"));
    }
}

#[test]
fn refresh_of_one_operation_touches_only_its_triggers() {
    let m = manager();
    let table = users(&["id"]);
    let rows = vec![
        ("dolog_users_update_00000000000000ff".to_owned(), "x".to_owned()),
        ("dolog_users_update".to_owned(), "drifted".to_owned()),
        ("dolog_users_insert".to_owned(), "drifted".to_owned()),
    ];
    let found = m.collect_existing_triggers("users", &rows);
    let plan = m.plan_update(&table, &found, &[Operation::Update]);
    assert_eq!(
        plan.statements().to_vec(),
        vec![
            m.create_log_table_sql(),
            m.drop_named_trigger_sql("dolog_users_update_00000000000000ff"),
            m.drop_named_trigger_sql("dolog_users_update"),
            m.create_trigger_sql(&table, Operation::Update),
        ]
    );
    let removal = m.plan_delete(&table, &found, &[Operation::Update]);
    assert_eq!(
        removal.statements().to_vec(),
        vec![
            m.drop_named_trigger_sql("dolog_users_update_00000000000000ff"),
            m.drop_named_trigger_sql("dolog_users_update"),
        ]
    );
}

#[test]
fn table_lookup_ignores_ascii_case_and_takes_the_first_match() {
    let names = vec!["Posts".to_owned(), "USERS".to_owned(), "users".to_owned(), "ÜSERS".to_owned()];
    assert_eq!(find_table_name("users", &names), Some("USERS".to_owned()));
    assert_eq!(find_table_name("posts", &names), Some("Posts".to_owned()));
    assert_eq!(find_table_name("üsers", &names), None);
    assert_eq!(find_table_name("user", &names), None);
    let m = manager();
    assert_eq!(
        m.resolve_target_table("uSeRs", find_table_name("uSeRs", &names)),
        Ok("USERS".to_owned())
    );
    assert_eq!(
        m.resolve_target_table("orders", find_table_name("orders", &names)),
        Err(AppError::MissingTable("orders".to_owned()))
    );
    let with_log = vec!["_DOLOG_CHANGES".to_owned()];
    assert_eq!(
        m.resolve_target_table("_dolog_changes", find_table_name("_dolog_changes", &with_log)),
        Err(AppError::ReservedLogTable("_dolog_changes".to_owned()))
    );
}
