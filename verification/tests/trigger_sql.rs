use dolog::hash::{column_hash, column_hash_input, digest_prefix_hex};
use sha2::Digest;
use dolog::names::{
    is_hash_suffix, operation_from_trigger_name, trigger_operation_from_name,
    trigger_suffix_matches_operation, Operation,
};
use dolog::sql::{json_object_expr, normalize_sql, quote_ident, quote_string, sql_matches};
use dolog::trigger::{describe_target, TriggerManager};

#[test]
fn quotes_identifiers() {
    assert_eq!(quote_ident("a\"b"), "\"a\"\"b\"");
}

#[test]
fn quotes_strings() {
    assert_eq!(quote_string("a'b"), "'a''b'");
}

#[test]
fn builds_json_object() {
    let expr = json_object_expr("NEW", &["id".to_owned(), "email".to_owned()]);
    assert_eq!(
        expr,
        "json_object('id', NEW.\"id\", 'email', NEW.\"email\")"
    );
}

#[test]
fn hashes_column_names_deterministically() {
    let hash = column_hash(&["id".to_owned(), "email".to_owned()]);

    assert_eq!(hash.len(), 16);
    assert_eq!(hash, column_hash(&["id".to_owned(), "email".to_owned()]));
    assert_ne!(hash, column_hash(&["email".to_owned(), "id".to_owned()]));
    assert_ne!(hash, column_hash(&["id".to_owned(), "name".to_owned()]));
}

#[test]
fn parses_legacy_and_hashed_trigger_names() {
    assert_eq!(
        trigger_operation_from_name("dolog", "users", "dolog_users_insert"),
        Some(Operation::Insert)
    );
    assert_eq!(
        trigger_operation_from_name("dolog", "users", "dolog_users_update_0123456789abcdef"),
        Some(Operation::Update)
    );
    assert_eq!(
        trigger_operation_from_name("dolog", "users", "dolog_users_insert_archive"),
        None
    );
}

#[test]
fn normalizes_sql_whitespace() {
    assert_eq!(
        normalize_sql("CREATE TRIGGER a\n  AFTER INSERT ON users\nBEGIN\n  SELECT 1;\nEND"),
        "create trigger a after insert on users begin select 1; end"
    );
}

#[test]
fn matches_sql_after_normalization() {
    assert!(sql_matches(
        "CREATE TRIGGER a\nAFTER INSERT ON users BEGIN SELECT 1; END",
        "CREATE   TRIGGER   a AFTER INSERT ON users BEGIN SELECT 1; END"
    ));
}

#[test]
fn preserves_single_quoted_string_case() {
    assert_eq!(
        normalize_sql("VALUES ('Users', 'INSERT')"),
        "values ('Users', 'INSERT')"
    );
}

// ---------------------------------------------------------------------

#[test]
fn quoting_leaves_plain_text_alone_and_doubles_every_quote() {
    assert_eq!(quote_ident("users"), "\"users\"");
    assert_eq!(quote_ident(""), "\"\"");
    assert_eq!(quote_ident("\"\""), "\"\"\"\"\"\"");
    assert_eq!(quote_string("it's 'x'"), "'it''s ''x'''");
    assert_eq!(quote_string("say \"hi\""), "'say \"hi\"'");
    assert_eq!(quote_ident("caf\u{e9}"), "\"caf\u{e9}\"");
}

#[test]
fn json_object_of_no_columns_and_one_column() {
    assert_eq!(json_object_expr("OLD", &[]), "json_object()");
    assert_eq!(
        json_object_expr("OLD", &["we\"ird'".to_owned()]),
        "json_object('we\"ird''', OLD.\"we\"\"ird'\")"
    );
}

#[test]
fn column_hash_is_sixteen_lowercase_hex_digits() {
    let hash = column_hash(&["id".to_owned()]);
    assert_eq!(hash.len(), 16);
    assert!(hash.chars().all(|c| c.is_ascii_digit() || ('a'..='f').contains(&c)));
    let empty = column_hash(&[]);
    assert_eq!(empty.len(), 16);
    assert_ne!(empty, hash);
    // The length prefix keeps "ab" + "c" apart from "a" + "bc".
    assert_ne!(
        column_hash(&["ab".to_owned(), "c".to_owned()]),
        column_hash(&["a".to_owned(), "bc".to_owned()])
    );
}

#[test]
fn column_hash_known_value() {
    // SHA-256 over b"dolog-columns-v1", then 2u64 LE + "id", 5u64 LE + "email".
    let mut input: Vec<u8> = b"dolog-columns-v1".to_vec();
    input.extend_from_slice(&2u64.to_le_bytes());
    input.extend_from_slice(b"id");
    input.extend_from_slice(&5u64.to_le_bytes());
    input.extend_from_slice(b"email");
    assert_eq!(
        column_hash_input(&["id".to_owned(), "email".to_owned()]),
        input
    );
    let digest = sha2::Sha256::digest(&input);
    let expected: String = digest[..8].iter().map(|b| format!("{b:02x}")).collect();
    assert_eq!(column_hash(&["id".to_owned(), "email".to_owned()]), expected);
}

#[test]
fn trigger_names_ignore_ascii_case_and_need_the_whole_stem() {
    assert_eq!(
        trigger_operation_from_name("dolog", "Users", "DOLOG_users_DELETE"),
        Some(Operation::Delete)
    );
    assert_eq!(
        trigger_operation_from_name("dolog", "users", "dolog_user_insert"),
        None
    );
    assert_eq!(
        trigger_operation_from_name("dolog", "users", "other_users_insert"),
        None
    );
    assert_eq!(
        trigger_operation_from_name("dolog", "users", "dolog_users_update_0123456789ABCDEF"),
        Some(Operation::Update)
    );
    assert_eq!(
        trigger_operation_from_name("dolog", "users", "dolog_users_update_0123456789abcde"),
        None
    );
    assert_eq!(
        trigger_operation_from_name("dolog", "users", "dolog_users_update_0123456789abcdeg"),
        None
    );
    assert_eq!(trigger_operation_from_name("dolog", "users", "dolog_users_"), None);
}

#[test]
fn suffix_and_hash_checks() {
    assert!(trigger_suffix_matches_operation("insert", Operation::Insert));
    assert!(!trigger_suffix_matches_operation("insert", Operation::Update));
    assert!(trigger_suffix_matches_operation(
        "delete_ffffffffffffffff",
        Operation::Delete
    ));
    assert!(!trigger_suffix_matches_operation("delete-ffffffffffffffff", Operation::Delete));
    assert!(!trigger_suffix_matches_operation("delete_", Operation::Delete));
    assert!(is_hash_suffix("0123456789abcdef"));
    assert!(is_hash_suffix("0123456789ABCDEF"));
    assert!(!is_hash_suffix("0123456789abcdef0"));
    assert!(!is_hash_suffix(""));
    assert!(!is_hash_suffix("0123456789abcdez"));
}

#[test]
fn status_names_read_as_exact_case_managed_names() {
    assert_eq!(
        operation_from_trigger_name("dolog", "users", "dolog_users_update"),
        Some(Operation::Update)
    );
    assert_eq!(operation_from_trigger_name("dolog", "users", "DOLOG_users_update"), None);
    assert_eq!(operation_from_trigger_name("dolog", "users", "dolog_users_UPDATE"), None);
    assert_eq!(
        operation_from_trigger_name("dolog", "users", "dolog_users_update_0123456789abcdef"),
        Some(Operation::Update)
    );
    assert_eq!(operation_from_trigger_name("dolog", "users", "dolog_posts_update"), None);
}

#[test]
fn operations_and_suffixes() {
    assert_eq!(
        Operation::all(),
        [Operation::Insert, Operation::Update, Operation::Delete]
    );
    assert_eq!(Operation::Insert.as_suffix(), "insert");
    assert_eq!(Operation::Update.as_suffix(), "update");
    assert_eq!(Operation::Delete.as_suffix(), "delete");
}

#[test]
fn normalization_edge_cases() {
    assert_eq!(normalize_sql(""), "");
    assert_eq!(normalize_sql(";;;"), "");
    assert_eq!(normalize_sql("  A;  "), "a;");
    assert_eq!(normalize_sql("SELECT \"Col\"  FROM T;;"), "select \"col\" from t");
    assert_eq!(normalize_sql("'It''s  A'"), "'It''s A'");
    assert_eq!(normalize_sql("\"it's\" 'X'"), "\"it's\" 'X'");
    assert_eq!(normalize_sql("a\u{3000}\u{a0}b\tc"), "a b c");
    assert!(!sql_matches("SELECT 'A'", "SELECT 'a'"));
    assert!(sql_matches("SELECT A;", "select a"));
}

#[test]
fn digest_prefix_is_hex_of_first_eight_bytes() {
    let digest: Vec<u8> = (0u8..32).map(|b| b.wrapping_mul(37)).collect();
    assert_eq!(digest_prefix_hex(&digest), "00254a6f94b9de03");
    assert_eq!(
        digest_prefix_hex(&[0xff, 0x00, 0x10, 0x0a, 0xa0, 0x01, 0x99, 0xfe]),
        "ff00100aa00199fe"
    );
    assert_eq!(column_hash_input(&[]), b"dolog-columns-v1".to_vec());
}

#[test]
fn normal_form_is_never_longer() {
    for text in ["  SELECT  1 ;;", "Ärger\u{3000}\u{3000}'Ü'  ", "", ";;;", "a\n\n\tb"] {
        let normal = normalize_sql(text);
        assert!(normal.len() <= text.len());
        assert!(normal.chars().count() <= text.chars().count());
    }
    assert_eq!(normalize_sql("Ärger\u{3000}\u{3000}'Ü'  "), "Ärger 'Ü'");
}

#[test]
fn space_layout_and_trailing_semicolon_do_not_matter() {
    assert_eq!(normalize_sql("select\n\t  a from t"), normalize_sql("select a from t"));
    assert_eq!(normalize_sql("'x'\u{2003}y"), normalize_sql("'x'   y"));
    assert_eq!(normalize_sql("DROP TRIGGER t;"), normalize_sql("DROP TRIGGER t"));
    assert_eq!(normalize_sql("x \n;"), normalize_sql("x ;"));
}

#[test]
fn trigger_names_parse_exactly_in_their_two_forms() {
    assert_eq!(
        trigger_operation_from_name("dolog", "users", "DOLOG_USERS_INSERT_0123456789ABCDEF"),
        Some(Operation::Insert)
    );
    assert_eq!(trigger_operation_from_name("dolog", "users", "dolog_users_insert_0123456789abcde"), None);
    assert_eq!(trigger_operation_from_name("dolog", "users", "dolog_users_insertx"), None);
    assert_eq!(trigger_operation_from_name("dolog", "users", "dolog_users_delete_0123456789abcdeg"), None);
    assert_eq!(trigger_operation_from_name("dolog", "users", "dolog_users_"), None);
}

#[test]
fn trigger_statement_matches_its_one_line_form() {
    let m = TriggerManager::new("_dolog_changes".to_owned(), "dolog".to_owned());
    let table = describe_target("users".to_owned(), vec!["id".to_owned(), "email".to_owned()])
        .expect("columns");
    for op in Operation::all() {
        let keyword = op.as_suffix().to_uppercase();
        let old = if op == Operation::Insert {
            "NULL".to_owned()
        } else {
            json_object_expr("OLD", &table.columns)
        };
        let new = if op == Operation::Delete {
            "NULL".to_owned()
        } else {
            json_object_expr("NEW", &table.columns)
        };
        let one_line = format!(
            "CREATE TRIGGER {} AFTER {keyword} ON {} BEGIN INSERT INTO {} (table_name, operation, old_values, new_values) VALUES ({}, '{keyword}', {old}, {new}); END",
            quote_ident(&m.trigger_name(&table, op)),
            quote_ident("users"),
            quote_ident("_dolog_changes"),
            quote_string("users"),
        );
        assert_eq!(normalize_sql(&m.create_trigger_sql(&table, op)), normalize_sql(&one_line));
        assert!(sql_matches(&m.create_trigger_sql(&table, op), &one_line));
    }
}
