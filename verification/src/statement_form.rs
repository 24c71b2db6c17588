//! The trigger statement read as one line: its line breaks and indentation
//! do not matter under normalisation, so the stored definition matches the
//! plain one-line statement.

use vstd::prelude::*;
use crate::names::{trigger_stem_text, Operation};
use crate::sql::{
    all_space, json_object_text, law_space_layout_irrelevant, law_trailing_semicolon_irrelevant,
    normalized, quoted,
};
use crate::trigger::{after_clause, create_trigger_text, log_table_sql_text, values_clause};

verus! {

/// The SQL keyword of an operation.
pub open spec fn operation_keyword(op: Operation) -> Seq<char> {
    match op {
        Operation::Insert => "INSERT"@,
        Operation::Update => "UPDATE"@,
        Operation::Delete => "DELETE"@,
    }
}

/// The old row a trigger of `op` records: `NULL` for an insert, otherwise
/// the JSON object of the old row's columns.
pub open spec fn old_row_text(op: Operation, columns: Seq<String>) -> Seq<char> {
    if op == Operation::Insert {
        "NULL"@
    } else {
        json_object_text("OLD"@, columns)
    }
}

/// The new row a trigger of `op` records: `NULL` for a delete, otherwise
/// the JSON object of the new row's columns.
pub open spec fn new_row_text(op: Operation, columns: Seq<String>) -> Seq<char> {
    if op == Operation::Delete {
        "NULL"@
    } else {
        json_object_text("NEW"@, columns)
    }
}

/// The managed trigger statement on one line, without the closing `;`.
pub open spec fn one_line_trigger_text(
    prefix: Seq<char>,
    log: Seq<char>,
    table: Seq<char>,
    columns: Seq<String>,
    op: Operation,
) -> Seq<char> {
    "CREATE TRIGGER "@ + quoted(trigger_stem_text(prefix, table, op), '"') + " AFTER "@
        + operation_keyword(op) + " ON "@ + quoted(table, '"') + " BEGIN INSERT INTO "@ + quoted(
        log,
        '"',
    ) + " (table_name, operation, old_values, new_values) VALUES ("@ + quoted(table, '\'')
        + ", '"@ + operation_keyword(op) + "', "@ + old_row_text(op, columns) + ", "@
        + new_row_text(op, columns) + "); END"@
}

proof fn lemma_layout_literals(op: Operation, columns: Seq<String>)
    ensures
        after_clause(op) == "\n                "@ + ("AFTER "@ + operation_keyword(op) + " ON "@),
        "\n                BEGIN\n                    INSERT INTO "@ == "\n                "@ + "BEGIN"@ + "\n                    "@ + "INSERT INTO "@,
        " (table_name, operation, old_values, new_values)\n                    VALUES ("@
            == " (table_name, operation, old_values, new_values)"@ + "\n                    "@ + "VALUES ("@,
        ");\n                END;"@ == ");"@ + "\n                "@ + "END"@ + ";"@,
        " AFTER "@ == " "@ + "AFTER "@,
        " BEGIN INSERT INTO "@ == " "@ + "BEGIN"@ + " "@ + "INSERT INTO "@,
        " (table_name, operation, old_values, new_values) VALUES ("@
            == " (table_name, operation, old_values, new_values)"@ + " "@ + "VALUES ("@,
        "); END"@ == ");"@ + " "@ + "END"@,
        values_clause(op, json_object_text("OLD"@, columns), json_object_text("NEW"@, columns))
            == ", '"@ + operation_keyword(op) + "', "@ + old_row_text(op, columns) + ", "@
            + new_row_text(op, columns),
{
    reveal_strlit("\n                AFTER INSERT ON ");
    reveal_strlit("\n                AFTER UPDATE ON ");
    reveal_strlit("\n                AFTER DELETE ON ");
    reveal_strlit("AFTER ");
    reveal_strlit(" ON ");
    reveal_strlit("INSERT");
    reveal_strlit("UPDATE");
    reveal_strlit("DELETE");
    reveal_strlit("\n                ");
    reveal_strlit("\n                    ");
    reveal_strlit(" ");
    reveal_strlit("\n                BEGIN\n                    INSERT INTO ");
    reveal_strlit("BEGIN");
    reveal_strlit("INSERT INTO ");
    reveal_strlit(" (table_name, operation, old_values, new_values)\n                    VALUES (");
    reveal_strlit(" (table_name, operation, old_values, new_values)");
    reveal_strlit("VALUES (");
    reveal_strlit(");\n                END;");
    reveal_strlit(");");
    reveal_strlit("END");
    reveal_strlit(";");
    reveal_strlit(" AFTER ");
    reveal_strlit(" BEGIN INSERT INTO ");
    reveal_strlit(" (table_name, operation, old_values, new_values) VALUES (");
    reveal_strlit("); END");
    reveal_strlit(", 'INSERT', NULL, ");
    reveal_strlit(", 'UPDATE', ");
    reveal_strlit(", 'DELETE', ");
    reveal_strlit(", NULL");
    reveal_strlit(", '");
    reveal_strlit("', ");
    reveal_strlit(", ");
    reveal_strlit("NULL");
    assert(after_clause(op) =~= "\n                "@ + ("AFTER "@ + operation_keyword(op) + " ON "@));
    assert("\n                BEGIN\n                    INSERT INTO "@ =~= "\n                "@ + "BEGIN"@ + "\n                    "@ + "INSERT INTO "@);
    assert(" (table_name, operation, old_values, new_values)\n                    VALUES ("@
        =~= " (table_name, operation, old_values, new_values)"@ + "\n                    "@ + "VALUES ("@);
    assert(");\n                END;"@ =~= ");"@ + "\n                "@ + "END"@ + ";"@);
    assert(" AFTER "@ =~= " "@ + "AFTER "@);
    assert(" BEGIN INSERT INTO "@ =~= " "@ + "BEGIN"@ + " "@ + "INSERT INTO "@);
    assert(" (table_name, operation, old_values, new_values) VALUES ("@
        =~= " (table_name, operation, old_values, new_values)"@ + " "@ + "VALUES ("@);
    assert("); END"@ =~= ");"@ + " "@ + "END"@);
    let old = json_object_text("OLD"@, columns);
    let new = json_object_text("NEW"@, columns);
    match op {
        Operation::Insert => {
            assert(", 'INSERT', NULL, "@ =~= ", '"@ + "INSERT"@ + "', "@ + "NULL"@ + ", "@);
        },
        Operation::Update => {
            assert(", 'UPDATE', "@ =~= ", '"@ + "UPDATE"@ + "', "@);
        },
        Operation::Delete => {
            assert(", 'DELETE', "@ =~= ", '"@ + "DELETE"@ + "', "@);
            assert(", NULL"@ =~= ", "@ + "NULL"@);
        },
    }
    assert(values_clause(op, old, new) =~= ", '"@ + operation_keyword(op) + "', "@ + old_row_text(
        op,
        columns,
    ) + ", "@ + new_row_text(op, columns));
}

/// The pieces between the line breaks of the managed trigger statement.
pub open spec fn statement_pieces(
    prefix: Seq<char>,
    log: Seq<char>,
    table: Seq<char>,
    columns: Seq<String>,
    op: Operation,
) -> Seq<Seq<char>> {
    seq![
        "CREATE TRIGGER "@ + quoted(trigger_stem_text(prefix, table, op), '"'),
        "AFTER "@ + operation_keyword(op) + " ON "@ + quoted(table, '"'),
        "BEGIN"@,
        "INSERT INTO "@ + quoted(log, '"') + " (table_name, operation, old_values, new_values)"@,
        "VALUES ("@ + quoted(table, '\'') + ", '"@ + operation_keyword(op) + "', "@ + old_row_text(
            op,
            columns,
        ) + ", "@ + new_row_text(op, columns) + ");"@,
        "END"@,
    ]
}

#[verifier::rlimit(50)]
proof fn lemma_created_pieces(
    prefix: Seq<char>,
    log: Seq<char>,
    table: Seq<char>,
    columns: Seq<String>,
    op: Operation,
)
    ensures
        ({
            let p = statement_pieces(prefix, log, table, columns, op);
            create_trigger_text(prefix, log, table, columns, op) == p[0] + "\n                "@ + p[1] + "\n                "@
                + p[2] + "\n                    "@ + p[3] + "\n                    "@ + p[4] + "\n                "@ + p[5] + ";"@
        }),
{
    lemma_layout_literals(op, columns);
    let p = statement_pieces(prefix, log, table, columns, op);
    assert(create_trigger_text(prefix, log, table, columns, op) =~= p[0] + "\n                "@ + p[1] + "\n                "@
        + p[2] + "\n                    "@ + p[3] + "\n                    "@ + p[4] + "\n                "@ + p[5] + ";"@);
}

#[verifier::rlimit(50)]
proof fn lemma_one_line_pieces(
    prefix: Seq<char>,
    log: Seq<char>,
    table: Seq<char>,
    columns: Seq<String>,
    op: Operation,
)
    ensures
        ({
            let p = statement_pieces(prefix, log, table, columns, op);
            one_line_trigger_text(prefix, log, table, columns, op) == p[0] + " "@ + p[1] + " "@
                + p[2] + " "@ + p[3] + " "@ + p[4] + " "@ + p[5]
        }),
{
    lemma_layout_literals(op, columns);
    let p = statement_pieces(prefix, log, table, columns, op);
    assert(one_line_trigger_text(prefix, log, table, columns, op) =~= p[0] + " "@ + p[1] + " "@
        + p[2] + " "@ + p[3] + " "@ + p[4] + " "@ + p[5]);
}

proof fn lemma_regroup(x: Seq<char>, y: Seq<char>, w: Seq<char>, z: Seq<char>)
    ensures
        x + (y + (w + z)) == x + y + w + z,
        x + y + (w + z) == x + y + w + z,
{
    assert(x + (y + (w + z)) =~= x + y + w + z);
    assert(x + y + (w + z) =~= x + y + w + z);
}

proof fn lemma_nest(
    x0: Seq<char>,
    w1: Seq<char>,
    x1: Seq<char>,
    w2: Seq<char>,
    x2: Seq<char>,
    w3: Seq<char>,
    x3: Seq<char>,
    w4: Seq<char>,
    x4: Seq<char>,
    w5: Seq<char>,
    x5: Seq<char>,
    e: Seq<char>,
)
    ensures
        x0 + w1 + x1 + w2 + x2 + w3 + x3 + w4 + x4 + w5 + x5 + e == x0 + w1 + (x1 + (w2 + (x2 + (w3
            + (x3 + (w4 + (x4 + (w5 + (x5 + e))))))))),
{
    assert(x0 + w1 + x1 + w2 + x2 + w3 + x3 + w4 + x4 + w5 + x5 + e =~= x0 + w1 + (x1 + (w2 + (x2
        + (w3 + (x3 + (w4 + (x4 + (w5 + (x5 + e))))))))));
}

/// Replacing a run of white space after `a` by one space.
proof fn lemma_one_space(a: Seq<char>, w: Seq<char>, b: Seq<char>)
    requires
        w.len() > 0,
        all_space(w),
    ensures
        normalized(a + w + b) == normalized(a + " "@ + b),
{
    reveal_strlit(" ");
    assert(all_space(" "@));
    law_space_layout_irrelevant(a, w, " "@, b);
}

proof fn lemma_breaks()
    ensures
        all_space("\n                "@),
        all_space("\n                    "@),
        "\n                "@.len() > 0,
        "\n                    "@.len() > 0,
{
    reveal_strlit("\n                ");
    reveal_strlit("\n                    ");
}

/// The managed trigger statement has the normal form of its one-line
/// writing: line breaks, indentation and the closing `;` do not count, so
/// a stored definition that a database shows on one line still matches.
pub proof fn law_trigger_statement_is_one_line(
    prefix: Seq<char>,
    log: Seq<char>,
    table: Seq<char>,
    columns: Seq<String>,
    op: Operation,
)
    ensures
        normalized(create_trigger_text(prefix, log, table, columns, op)) == normalized(
            one_line_trigger_text(prefix, log, table, columns, op),
        ),
{
    lemma_breaks();
    lemma_created_pieces(prefix, log, table, columns, op);
    lemma_one_line_pieces(prefix, log, table, columns, op);
    let p = statement_pieces(prefix, log, table, columns, op);
    let (p0, p1, p2, p3, p4, p5) = (p[0], p[1], p[2], p[3], p[4], p[5]);
    let w1 = "\n                "@;
    let w2 = "\n                    "@;
    let sp = " "@;
    let semi = ";"@;
    // Each step turns the first remaining line break into one space.
    let b5 = p5 + semi;
    let b4 = p4 + (w1 + b5);
    let b3 = p3 + (w2 + b4);
    let b2 = p2 + (w2 + b3);
    let b1 = p1 + (w1 + b2);
    let a2 = p0 + sp + p1;
    let a3 = a2 + sp + p2;
    let a4 = a3 + sp + p3;
    let a5 = a4 + sp + p4;
    lemma_nest(p0, w1, p1, w1, p2, w2, p3, w2, p4, w1, p5, semi);
    lemma_one_space(p0, w1, b1);
    lemma_regroup(p0 + sp, p1, w1, b2);
    lemma_one_space(a2, w1, b2);
    lemma_regroup(a2 + sp, p2, w2, b3);
    lemma_one_space(a3, w2, b3);
    lemma_regroup(a3 + sp, p3, w2, b4);
    lemma_one_space(a4, w2, b4);
    lemma_regroup(a4 + sp, p4, w1, b5);
    lemma_one_space(a5, w1, b5);
    lemma_regroup(a5, sp, p5, semi);
    law_trailing_semicolon_irrelevant(one_line_trigger_text(prefix, log, table, columns, op));
}

/// The log table's columns after `id`, as the statement declares them.
pub open spec fn log_columns_after_id() -> Seq<char> {
    "\n                table_name TEXT NOT NULL,\n                operation TEXT NOT NULL,\n                old_values TEXT,\n                new_values TEXT,\n                changed_at TEXT NOT NULL DEFAULT CURRENT_TIMESTAMP\n            );"@
}

/// The log table statement creates the quoted log table, if missing, with
/// `id` as its first column and its `INTEGER PRIMARY KEY`, so every
/// captured row gets its own increasing id; then the table name, the
/// operation, the old and new rows and the time of the change.
pub proof fn law_log_table_id_is_primary_key(log: Seq<char>)
    ensures
        log_table_sql_text(log) == "CREATE TABLE IF NOT EXISTS "@ + quoted(log, '"')
            + " (\n                "@ + "id INTEGER PRIMARY KEY,"@ + log_columns_after_id(),
{
    reveal_strlit(
        " (\n                id INTEGER PRIMARY KEY,\n                table_name TEXT NOT NULL,\n                operation TEXT NOT NULL,\n                old_values TEXT,\n                new_values TEXT,\n                changed_at TEXT NOT NULL DEFAULT CURRENT_TIMESTAMP\n            );",
    );
    reveal_strlit(" (\n                ");
    reveal_strlit("id INTEGER PRIMARY KEY,");
    reveal_strlit(
        "\n                table_name TEXT NOT NULL,\n                operation TEXT NOT NULL,\n                old_values TEXT,\n                new_values TEXT,\n                changed_at TEXT NOT NULL DEFAULT CURRENT_TIMESTAMP\n            );",
    );
    assert(log_table_sql_text(log) =~= "CREATE TABLE IF NOT EXISTS "@ + quoted(log, '"')
        + " (\n                "@ + "id INTEGER PRIMARY KEY,"@ + log_columns_after_id());
}

} // verus!
