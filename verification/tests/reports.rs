use dolog::commands::{
    named_tables, render_trigger_status, trigger_status_output, yes_no, StatusRow, TableStatus,
};
use dolog::log_export::{
    delete_entries_sql, delete_through_sql, effective_limit, entry_ids, export_mode,
    log_status_sql, render_log_status, render_log_status_output, select_entries_sql, ExportMode, ExportResult,
    parse_json_option, LogStatusRow, RawLogEntry, DEFAULT_EXPORT_LIMIT,
};
use dolog::schema_source::{
    check_apply_allowed, classify_schema_source, has_sql_extension, migration_files,
    SchemaSourceKind,
};
use dolog::trigger::{AppError, ManagedTrigger, TriggerManager};

fn trigger(name: &str, table: &str) -> ManagedTrigger {
    ManagedTrigger {
        name: name.to_owned(),
        table: table.to_owned(),
        sql: String::new(),
    }
}

#[test]
fn coverage_counts_managed_names_of_the_table() {
    let triggers = vec![
        trigger("dolog_users_insert", "users"),
        trigger("dolog_users_delete_0123456789abcdef", "users"),
        trigger("dolog_users_update", "posts"),
    ];
    let status = TableStatus::from_triggers("dolog", "users", &triggers);
    assert!(status.insert && !status.update && status.delete);
    assert_eq!(yes_no(true), "yes");
    assert_eq!(yes_no(false), "no");
}

#[test]
fn coverage_ignores_other_tables_other_case_and_unmanaged_names() {
    let triggers = vec![
        trigger("DOLOG_USERS_UPDATE", "users"),
        trigger("dolog_users_insert_0123", "users"),
        trigger("dolog_users_delete", "other"),
        trigger("audit_users_insert", "users"),
    ];
    let status = TableStatus::from_triggers("dolog", "users", &triggers);
    assert_eq!(
        status,
        TableStatus {
            insert: false,
            update: false,
            delete: false
        }
    );
    let hashed = vec![trigger("dolog_users_update_0123456789ABCDEF", "users")];
    let status = TableStatus::from_triggers("dolog", "users", &hashed);
    assert!(!status.insert && status.update && !status.delete);
}

#[test]
fn trigger_status_report_layout() {
    let rows = vec![
        StatusRow {
            table: "users".to_owned(),
            status: TableStatus {
                insert: true,
                update: false,
                delete: true,
            },
        },
        StatusRow {
            table: "accounts".to_owned(),
            status: TableStatus {
                insert: false,
                update: false,
                delete: false,
            },
        },
    ];
    let report = render_trigger_status("db.sqlite", &rows);
    assert_eq!(
        report,
        "Trigger status for db.sqlite\n\n\
TABLE     INSERT  UPDATE  DELETE\n\
users     yes     no      yes   \n\
accounts  no      no      no    \n"
    );
    assert!(report.contains("users  yes") || report.contains("users     yes"));
    let short = render_trigger_status("x", &rows[..1]);
    assert!(short.contains("users  yes"));
}

#[test]
fn log_status_report_layout() {
    let rows = vec![
        LogStatusRow {
            table_name: "users".to_owned(),
            operation: "INSERT".to_owned(),
            count: 1,
        },
        LogStatusRow {
            table_name: "users".to_owned(),
            operation: "UPDATE".to_owned(),
            count: 123456,
        },
    ];
    let report = render_log_status("db.sqlite", &rows);
    assert_eq!(
        report,
        "Pending log rows for db.sqlite\n\n\
TABLE  OPERATION   COUNT\n\
users  INSERT          1\n\
users  UPDATE     123456\n\
\n\
TOTAL             123457\n"
    );
    let empty = render_log_status("d", &[]);
    assert_eq!(
        empty,
        "Pending log rows for d\n\nTABLE  OPERATION  COUNT\n\nTOTAL                 0\n"
    );
}

#[test]
fn export_sql_texts() {
    assert_eq!(
        select_entries_sql("_dolog_changes", Some(100)),
        "SELECT id, table_name, operation, old_values, new_values, changed_at\n         FROM \"_dolog_changes\"\n         ORDER BY id LIMIT 100"
    );
    assert!(select_entries_sql("_dolog_changes", None).ends_with("LIMIT :limit"));
    assert_eq!(
        delete_through_sql("custom_changes"),
        "DELETE FROM \"custom_changes\" WHERE id <= :max_id"
    );
    assert_eq!(
        delete_entries_sql("_dolog_changes", 3),
        "DELETE FROM \"_dolog_changes\" WHERE id IN (?, ?, ?)"
    );
    assert_eq!(
        delete_entries_sql("t", 1),
        "DELETE FROM \"t\" WHERE id IN (?)"
    );
    assert_eq!(
        log_status_sql("_dolog_changes"),
        "SELECT table_name, operation, COUNT(*)\n         FROM \"_dolog_changes\"\n         GROUP BY table_name, operation\n         ORDER BY table_name, operation"
    );
}

#[test]
fn export_limits_and_modes() {
    assert_eq!(DEFAULT_EXPORT_LIMIT, 100);
    assert_eq!(effective_limit(None), 100);
    assert_eq!(effective_limit(Some(7)), 7);
    assert_eq!(export_mode(true, false, false), Ok(ExportMode::Query));
    assert_eq!(export_mode(false, true, false), Ok(ExportMode::DryRun));
    assert_eq!(export_mode(false, false, true), Ok(ExportMode::Write));
    assert_eq!(
        export_mode(false, false, false),
        Err(AppError::MissingExportOutput)
    );
    assert_eq!(
        AppError::MissingExportOutput.message(),
        "an output file is required unless --dry-run is used"
    );
    assert_eq!(ExportResult { exported: 2 }.exported, 2);
}

#[test]
fn entry_ids_in_order() {
    let entry = |id: i64| RawLogEntry {
        id,
        table_name: "users".to_owned(),
        operation: "INSERT".to_owned(),
        old_values: None,
        new_values: Some("{}".to_owned()),
        changed_at: "2024-01-01 00:00:00".to_owned(),
    };
    assert_eq!(entry_ids(&[entry(3), entry(1), entry(2)]), vec![3, 1, 2]);
}

#[test]
fn schema_sources() {
    assert!(has_sql_extension("001_create_users.sql"));
    assert!(!has_sql_extension(".sql"));
    assert!(!has_sql_extension("users.SQL"));
    assert!(!has_sql_extension("notes.txt"));
    assert!(has_sql_extension("a.sql"));
    assert_eq!(
        classify_schema_source("m", "m", true, false),
        Ok(SchemaSourceKind::Directory)
    );
    assert_eq!(
        classify_schema_source("s.sql", "s.sql", false, true),
        Ok(SchemaSourceKind::SqlScript)
    );
    assert_eq!(
        classify_schema_source("db.sqlite", "db.sqlite", false, true),
        Ok(SchemaSourceKind::Database)
    );
    let refused = classify_schema_source("/dev/x", "x", false, false);
    assert_eq!(
        refused,
        Err(AppError::UnsupportedSchemaSource {
            path: "/dev/x".to_owned()
        })
    );
    assert_eq!(check_apply_allowed(SchemaSourceKind::Database, true), Ok(()));
    assert_eq!(check_apply_allowed(SchemaSourceKind::Directory, false), Ok(()));
    assert_eq!(
        check_apply_allowed(SchemaSourceKind::SqlScript, true),
        Err(AppError::ApplyUnsupportedWithSchemaSource)
    );
}

#[test]
fn migration_files_are_sql_names_in_lexicographic_order() {
    let names = vec![
        "010_more.sql".to_owned(),
        "README.md".to_owned(),
        "002_add_email.sql".to_owned(),
        "001_create_users.sql".to_owned(),
        "001_create_users.sql.bak".to_owned(),
    ];
    assert_eq!(
        migration_files("migrations", &names),
        Ok(vec![
            "001_create_users.sql".to_owned(),
            "002_add_email.sql".to_owned(),
            "010_more.sql".to_owned(),
        ])
    );
    let refused = migration_files("migrations", &["notes.txt".to_owned()]);
    assert_eq!(
        refused,
        Err(AppError::NoMigrationFiles {
            path: "migrations".to_owned()
        })
    );
    assert_eq!(
        AppError::NoMigrationFiles {
            path: "m".to_owned()
        }
        .message(),
        "no .sql migration files found in 'm'"
    );
    assert_eq!(
        migration_files("m", &["b.sql".to_owned(), "a.sql".to_owned(), "ab.sql".to_owned()]),
        Ok(vec!["a.sql".to_owned(), "ab.sql".to_owned(), "b.sql".to_owned()])
    );
}

#[test]
fn json_columns_parse_or_fail() {
    assert!(matches!(parse_json_option(None), Ok(None)));
    let parsed = parse_json_option(Some("{\"name\":\"Ada\",\"id\":1}".to_owned()))
        .expect("valid json");
    let value = parsed.expect("a value");
    assert_eq!(value["name"], "Ada");
    assert_eq!(value["id"], 1);
    assert!(parse_json_option(Some("{\"name\":".to_owned())).is_err());
    assert!(parse_json_option(Some("1 2".to_owned())).is_err());
}

#[test]
fn status_command_output() {
    let triggers = vec![
        trigger("dolog_users_insert", "users"),
        trigger("dolog_posts_delete_0123456789abcdef", "posts"),
    ];
    assert_eq!(
        trigger_status_output("db.sqlite", "dolog", &[], &triggers),
        "No matching tables found.\n"
    );
    let tables = vec!["users".to_owned(), "posts".to_owned()];
    let rows = vec![
        StatusRow {
            table: "users".to_owned(),
            status: TableStatus { insert: true, update: false, delete: false },
        },
        StatusRow {
            table: "posts".to_owned(),
            status: TableStatus { insert: false, update: false, delete: true },
        },
    ];
    assert_eq!(
        trigger_status_output("db.sqlite", "dolog", &tables, &triggers),
        render_trigger_status("db.sqlite", &rows)
    );
    assert_eq!(named_tables(vec![]), None);
    assert_eq!(
        named_tables(vec!["b".to_owned(), "a".to_owned(), "b".to_owned()]),
        Some(vec!["b".to_owned(), "a".to_owned()])
    );
}

#[test]
fn log_status_command_output() {
    assert_eq!(render_log_status_output("db.sqlite", &[]), "No pending log rows for db.sqlite.\n");
    let rows = vec![LogStatusRow {
        table_name: "users".to_owned(),
        operation: "INSERT".to_owned(),
        count: 2,
    }];
    assert_eq!(render_log_status_output("db.sqlite", &rows), render_log_status("db.sqlite", &rows));
}

#[test]
fn log_table_is_refused_before_lookup() {
    let m = TriggerManager::new("_dolog_changes".to_owned(), "dolog".to_owned());
    assert_eq!(
        m.check_target_name("_DOLOG_changes"),
        Err(AppError::ReservedLogTable("_dolog_changes".to_owned()))
    );
    assert_eq!(m.check_target_name("users"), Ok(()));
}
