//! The trigger manager: the SQL that creates the log table and the managed
//! triggers, and the plans that create, refresh or remove those triggers
//! for a table, computed from what the database reports about the table and
//! its current triggers.

use vstd::prelude::*;
use crate::names::{
    parsed_operation, trigger_operation_from_name, trigger_stem_text, Operation,
};
use crate::sql::{
    json_object_expr, json_object_text, normalized, quote_ident, quote_string, quoted,
    sql_matches,
};
use crate::text::{eq_ignore_ascii_case, lower_seq, push_text};

verus! {

broadcast use vstd::string::group_string_axioms;

/// A failure that the library itself decides, with the text it prints.
#[derive(Debug, PartialEq, Eq)]
pub enum AppError {
    /// The schema source is neither a file nor a directory.
    UnsupportedSchemaSource { path: String },
    /// A migration directory holds no `.sql` file.
    NoMigrationFiles { path: String },
    /// `--apply` was given for a schema source that is not a database file.
    ApplyUnsupportedWithSchemaSource,
    /// A real export was asked for without an output file.
    MissingExportOutput,
    /// No table of that name exists.
    MissingTable(String),
    /// The table has no columns.
    NoColumns(String),
    /// The table is the log table itself.
    ReservedLogTable(String),
}

impl AppError {
    /// The message printed for this error.
    pub open spec fn message_text(&self) -> Seq<char> {
        match self {
            AppError::UnsupportedSchemaSource { path } => "unsupported schema source at '"@
                + path@
                + "'; expected a SQLite database file, a directory, or a .sql file"@,
            AppError::NoMigrationFiles { path } => "no .sql migration files found in '"@ + path@
                + "'"@,
            AppError::ApplyUnsupportedWithSchemaSource =>
                "--apply is only supported when the schema source path is a real SQLite database file"@,
            AppError::MissingExportOutput => "an output file is required unless --dry-run is used"@,
            AppError::MissingTable(t) => "table '"@ + t@ + "' does not exist"@,
            AppError::NoColumns(t) => "table '"@ + t@ + "' has no columns"@,
            AppError::ReservedLogTable(t) => "table '"@ + t@
                + "' conflicts with the configured log table"@,
        }
    }

    pub fn message(&self) -> (res: String)
        ensures
            res@ == self.message_text(),
    {
        let mut out = String::new();
        match self {
            AppError::UnsupportedSchemaSource { path } => {
                push_text(&mut out, "unsupported schema source at '");
                push_text(&mut out, path.as_str());
                push_text(
                    &mut out,
                    "'; expected a SQLite database file, a directory, or a .sql file",
                );
            },
            AppError::NoMigrationFiles { path } => {
                push_text(&mut out, "no .sql migration files found in '");
                push_text(&mut out, path.as_str());
                push_text(&mut out, "'");
            },
            AppError::ApplyUnsupportedWithSchemaSource => {
                push_text(
                    &mut out,
                    "--apply is only supported when the schema source path is a real SQLite database file",
                );
            },
            AppError::MissingExportOutput => {
                push_text(&mut out, "an output file is required unless --dry-run is used");
            },
            AppError::MissingTable(t) => {
                push_text(&mut out, "table '");
                push_text(&mut out, t.as_str());
                push_text(&mut out, "' does not exist");
            },
            AppError::NoColumns(t) => {
                push_text(&mut out, "table '");
                push_text(&mut out, t.as_str());
                push_text(&mut out, "' has no columns");
            },
            AppError::ReservedLogTable(t) => {
                push_text(&mut out, "table '");
                push_text(&mut out, t.as_str());
                push_text(&mut out, "' conflicts with the configured log table");
            },
        }
        out
    }
}

// ---------------------------------------------------------------------
// Statement texts
// ---------------------------------------------------------------------

/// The statement that creates the log table when it is missing.
pub open spec fn log_table_sql_text(log: Seq<char>) -> Seq<char> {
    "CREATE TABLE IF NOT EXISTS "@ + quoted(log, '"')
        + " (\n                id INTEGER PRIMARY KEY,\n                table_name TEXT NOT NULL,\n                operation TEXT NOT NULL,\n                old_values TEXT,\n                new_values TEXT,\n                changed_at TEXT NOT NULL DEFAULT CURRENT_TIMESTAMP\n            );"@
}

/// The timing clause that ties a trigger to its operation.
pub open spec fn after_clause(op: Operation) -> Seq<char> {
    match op {
        Operation::Insert => "\n                AFTER INSERT ON "@,
        Operation::Update => "\n                AFTER UPDATE ON "@,
        Operation::Delete => "\n                AFTER DELETE ON "@,
    }
}

/// What the trigger records after the table name: the operation keyword,
/// the old row (`NULL` for an insert) and the new row (`NULL` for a
/// delete).
pub open spec fn values_clause(op: Operation, old_row: Seq<char>, new_row: Seq<char>) -> Seq<
    char,
> {
    match op {
        Operation::Insert => ", 'INSERT', NULL, "@ + new_row,
        Operation::Update => ", 'UPDATE', "@ + old_row + ", "@ + new_row,
        Operation::Delete => ", 'DELETE', "@ + old_row + ", NULL"@,
    }
}

/// The statement that creates the managed trigger of `op` on a table: after
/// each such change it inserts one row into the log table holding the table
/// name, the operation, and the old and new rows as JSON objects.
pub open spec fn create_trigger_text(
    prefix: Seq<char>,
    log: Seq<char>,
    table: Seq<char>,
    columns: Seq<String>,
    op: Operation,
) -> Seq<char> {
    "CREATE TRIGGER "@ + quoted(trigger_stem_text(prefix, table, op), '"') + after_clause(op)
        + quoted(table, '"') + "\n                BEGIN\n                    INSERT INTO "@
        + quoted(log, '"')
        + " (table_name, operation, old_values, new_values)\n                    VALUES ("@
        + quoted(table, '\'') + values_clause(
        op,
        json_object_text("OLD"@, columns),
        json_object_text("NEW"@, columns),
    ) + ");\n                END;"@
}

/// The statement that removes a trigger by name, if it exists.
pub open spec fn drop_trigger_text(name: Seq<char>) -> Seq<char> {
    "DROP TRIGGER IF EXISTS "@ + quoted(name, '"') + ";"@
}

/// The texts of a list of strings.
pub open spec fn texts(s: Seq<String>) -> Seq<Seq<char>> {
    s.map_values(|x: String| x@)
}

// ---------------------------------------------------------------------
// Plans and the records they are computed from
// ---------------------------------------------------------------------

/// An ordered list of SQL statements, applied together or not at all.
#[derive(Debug, Clone, PartialEq, Eq)]
pub struct ExecutionPlan {
    statements: Vec<String>,
}

impl View for ExecutionPlan {
    type V = Seq<Seq<char>>;

    closed spec fn view(&self) -> Seq<Seq<char>> {
        texts(self.statements@)
    }
}

impl ExecutionPlan {
    fn new(statements: Vec<String>) -> (res: Self)
        ensures
            res@ == texts(statements@),
    {
        Self { statements }
    }

    pub fn from_statements(statements: Vec<String>) -> (res: Self)
        ensures
            res@ == texts(statements@),
    {
        Self { statements }
    }

    pub fn statements(&self) -> (res: &[String])
        ensures
            texts(res@) == self@,
    {
        self.statements.as_slice()
    }

    pub fn into_statements(self) -> (res: Vec<String>)
        ensures
            texts(res@) == self@,
    {
        self.statements
    }

    /// Whether the plan holds no statement.
    pub fn is_empty(&self) -> (res: bool)
        ensures
            res == (self@.len() == 0),
    {
        self.statements.len() == 0
    }
}

/// A managed trigger as the database lists it.
#[derive(Debug, Clone, PartialEq, Eq)]
pub struct ManagedTrigger {
    pub name: String,
    pub table: String,
    pub sql: String,
}

/// A table to manage triggers for: its name as the database spells it and
/// its columns in order.
#[derive(Debug)]
pub struct TableDefinition {
    pub name: String,
    pub columns: Vec<String>,
}

/// A trigger that already exists on a table and whose name marks it as a
/// managed trigger of one operation.
#[derive(Debug)]
pub struct ExistingTrigger {
    pub name: String,
    pub sql: String,
    pub operation: Operation,
}

/// What an existing trigger is for planning: name, SQL text, operation.
pub type TriggerView = (Seq<char>, Seq<char>, Operation);

impl View for ExistingTrigger {
    type V = TriggerView;

    open spec fn view(&self) -> TriggerView {
        (self.name@, self.sql@, self.operation)
    }
}

pub open spec fn trigger_views(s: Seq<ExistingTrigger>) -> Seq<TriggerView> {
    s.map_values(|t: ExistingTrigger| t@)
}

pub open spec fn row_views(rows: Seq<(String, String)>) -> Seq<(Seq<char>, Seq<char>)> {
    rows.map_values(|r: (String, String)| (r.0@, r.1@))
}

/// The rows `(name, sql)` of a table's triggers that carry a managed name,
/// each with the operation its name stands for, in the rows' order.
pub open spec fn recognized_triggers(
    prefix: Seq<char>,
    table: Seq<char>,
    rows: Seq<(Seq<char>, Seq<char>)>,
) -> Seq<TriggerView>
    decreases rows.len(),
{
    if rows.len() == 0 {
        Seq::empty()
    } else {
        let rest = recognized_triggers(prefix, table, rows.drop_last());
        match parsed_operation(prefix, table, rows.last().0) {
            Some(op) => rest.push((rows.last().0, rows.last().1, op)),
            None => rest,
        }
    }
}

/// The first existing trigger of `op` named `name`.
pub open spec fn current_trigger(existing: Seq<TriggerView>, op: Operation, name: Seq<char>) -> Option<
    TriggerView,
>
    decreases existing.len(),
{
    if existing.len() == 0 {
        None
    } else {
        match current_trigger(existing.drop_last(), op, name) {
            Some(t) => Some(t),
            None => {
                let t = existing.last();
                if t.2 == op && t.0 == name {
                    Some(t)
                } else {
                    None
                }
            },
        }
    }
}

/// Drops of the existing triggers of `op` not named `name`, in order.
pub open spec fn stale_drops(existing: Seq<TriggerView>, op: Operation, name: Seq<char>) -> Seq<
    Seq<char>,
>
    decreases existing.len(),
{
    if existing.len() == 0 {
        Seq::empty()
    } else {
        let rest = stale_drops(existing.drop_last(), op, name);
        let t = existing.last();
        if t.2 == op && t.0 != name {
            rest.push(drop_trigger_text(t.0))
        } else {
            rest
        }
    }
}

/// Drops of every existing trigger of `op`, in order.
pub open spec fn operation_drops(existing: Seq<TriggerView>, op: Operation) -> Seq<Seq<char>>
    decreases existing.len(),
{
    if existing.len() == 0 {
        Seq::empty()
    } else {
        let rest = operation_drops(existing.drop_last(), op);
        let t = existing.last();
        if t.2 == op {
            rest.push(drop_trigger_text(t.0))
        } else {
            rest
        }
    }
}

/// The inputs every plan of a table depends on.
pub struct PlanInputs {
    pub prefix: Seq<char>,
    pub log: Seq<char>,
    pub table: Seq<char>,
    pub columns: Seq<String>,
}

pub open spec fn managed_name(p: PlanInputs, op: Operation) -> Seq<char> {
    trigger_stem_text(p.prefix, p.table, op)
}

pub open spec fn managed_sql(p: PlanInputs, op: Operation) -> Seq<char> {
    create_trigger_text(p.prefix, p.log, p.table, p.columns, op)
}

/// Whether the trigger of `op` exists under its managed name with a
/// definition that matches the desired one.
pub open spec fn is_current(p: PlanInputs, existing: Seq<TriggerView>, op: Operation) -> bool {
    match current_trigger(existing, op, managed_name(p, op)) {
        Some(t) => normalized(t.1) == normalized(managed_sql(p, op)),
        None => false,
    }
}

/// The statements that bring the trigger of one operation up to date: drop
/// other managed triggers of the operation, and unless the trigger under
/// its managed name already matches, drop it if it exists and create it.
pub open spec fn refresh_steps(p: PlanInputs, existing: Seq<TriggerView>, op: Operation) -> Seq<
    Seq<char>,
> {
    let stale = stale_drops(existing, op, managed_name(p, op));
    if is_current(p, existing, op) {
        stale
    } else {
        stale + seq![drop_trigger_text(managed_name(p, op)), managed_sql(p, op)]
    }
}

pub open spec fn refresh_all(p: PlanInputs, existing: Seq<TriggerView>, ops: Seq<Operation>) -> Seq<
    Seq<char>,
>
    decreases ops.len(),
{
    if ops.len() == 0 {
        Seq::empty()
    } else {
        refresh_all(p, existing, ops.drop_last()) + refresh_steps(p, existing, ops.last())
    }
}

/// The refresh plan: nothing when every selected trigger is up to date,
/// otherwise the log table statement followed by the refresh steps.
pub open spec fn update_plan(p: PlanInputs, existing: Seq<TriggerView>, ops: Seq<Operation>) -> Seq<
    Seq<char>,
> {
    let steps = refresh_all(p, existing, ops);
    if steps.len() == 0 {
        Seq::empty()
    } else {
        seq![log_table_sql_text(p.log)] + steps
    }
}

/// The creation plan: the log table statement, then each trigger's
/// creation.
pub open spec fn create_plan(p: PlanInputs, ops: Seq<Operation>) -> Seq<Seq<char>> {
    seq![log_table_sql_text(p.log)] + creations(p, ops)
}

/// The creation statements of the selected operations, in order.
pub open spec fn creations(p: PlanInputs, ops: Seq<Operation>) -> Seq<Seq<char>> {
    ops.map_values(|op: Operation| managed_sql(p, op))
}

/// The statements that remove the triggers of one operation: every managed
/// trigger of the operation, or its managed name when there is none.
pub open spec fn removal_steps(p: PlanInputs, existing: Seq<TriggerView>, op: Operation) -> Seq<
    Seq<char>,
> {
    let drops = operation_drops(existing, op);
    if drops.len() == 0 {
        seq![drop_trigger_text(managed_name(p, op))]
    } else {
        drops
    }
}

pub open spec fn delete_plan(p: PlanInputs, existing: Seq<TriggerView>, ops: Seq<Operation>) -> Seq<
    Seq<char>,
>
    decreases ops.len(),
{
    if ops.len() == 0 {
        Seq::empty()
    } else {
        delete_plan(p, existing, ops.drop_last()) + removal_steps(p, existing, ops.last())
    }
}

/// The first of `names` that equals `table` once ASCII letters are
/// lower-cased on both sides, as SQLite's `lower()` compares them.
pub fn find_table_name(table: &str, names: &[String]) -> (res: Option<String>)
    ensures
        match res {
            Some(n) => exists|i: int|
                0 <= i < names@.len() && n@ == (#[trigger] names@[i])@ && lower_seq(n@) == lower_seq(
                    table@,
                ) && forall|j: int|
                    0 <= j < i ==> lower_seq((#[trigger] names@[j])@) != lower_seq(table@),
            None => forall|i: int|
                0 <= i < names@.len() ==> lower_seq((#[trigger] names@[i])@) != lower_seq(
                    table@,
                ),
        },
{
    let n = names.len();
    for i in 0..n
        invariant
            n == names@.len(),
            forall|j: int| 0 <= j < i ==> lower_seq((#[trigger] names@[j])@) != lower_seq(table@),
    {
        if eq_ignore_ascii_case(names[i].as_str(), table) {
            let mut found = String::new();
            push_text(&mut found, names[i].as_str());
            assert(found@ == names@[i as int]@);
            return Some(found);
        }
    }
    None
}

/// The table to manage from its resolved name and its columns; a table
/// with no columns cannot be managed.
pub fn describe_target(name: String, columns: Vec<String>) -> (res: Result<
    TableDefinition,
    AppError,
>)
    ensures
        columns@.len() == 0 ==> (res matches Err(AppError::NoColumns(n)) && n@ == name@),
        columns@.len() > 0 ==> (res matches Ok(t) && t.name@ == name@ && texts(t.columns@)
            == texts(columns@)),
{
    if columns.len() == 0 {
        return Err(AppError::NoColumns(name));
    }
    Ok(TableDefinition { name, columns })
}

/// Creates, refreshes and removes the triggers that copy row changes into
/// the log table.
pub struct TriggerManager {
    log_table: String,
    trigger_prefix: String,
}

impl TriggerManager {
    /// The name of the log table.
    pub closed spec fn log_table_text(&self) -> Seq<char> {
        self.log_table@
    }

    /// The prefix of managed trigger names.
    pub closed spec fn prefix_text(&self) -> Seq<char> {
        self.trigger_prefix@
    }

    pub open spec fn inputs(&self, target: TableDefinition) -> PlanInputs {
        PlanInputs {
            prefix: self.prefix_text(),
            log: self.log_table_text(),
            table: target.name@,
            columns: target.columns@,
        }
    }

    pub fn new(log_table: String, trigger_prefix: String) -> (res: Self)
        ensures
            res.log_table_text() == log_table@,
            res.prefix_text() == trigger_prefix@,
    {
        Self { log_table, trigger_prefix }
    }

    pub fn log_table(&self) -> (res: &str)
        ensures
            res@ == self.log_table_text(),
    {
        self.log_table.as_str()
    }

    pub fn trigger_prefix(&self) -> (res: &str)
        ensures
            res@ == self.prefix_text(),
    {
        self.trigger_prefix.as_str()
    }

    /// The statement that creates the log table when it is missing.
    pub fn create_log_table_sql(&self) -> (res: String)
        ensures
            res@ == log_table_sql_text(self.log_table_text()),
    {
        let mut out = String::new();
        push_text(&mut out, "CREATE TABLE IF NOT EXISTS ");
        let q = quote_ident(self.log_table.as_str());
        push_text(&mut out, q.as_str());
        push_text(
            &mut out,
            " (\n                id INTEGER PRIMARY KEY,\n                table_name TEXT NOT NULL,\n                operation TEXT NOT NULL,\n                old_values TEXT,\n                new_values TEXT,\n                changed_at TEXT NOT NULL DEFAULT CURRENT_TIMESTAMP\n            );",
        );
        out
    }

    /// `{prefix}_{table}_{operation}`.
    pub fn trigger_stem(&self, table: &str, operation: Operation) -> (res: String)
        ensures
            res@ == trigger_stem_text(self.prefix_text(), table@, operation),
    {
        let mut out = String::new();
        push_text(&mut out, self.trigger_prefix.as_str());
        push_text(&mut out, "_");
        push_text(&mut out, table);
        push_text(&mut out, "_");
        push_text(&mut out, operation.as_suffix());
        out
    }

    /// The managed name of the trigger of `operation` on `table`.
    pub fn trigger_name(&self, table: &TableDefinition, operation: Operation) -> (res: String)
        ensures
            res@ == managed_name(self.inputs(*table), operation),
    {
        self.trigger_stem(table.name.as_str(), operation)
    }

    /// The statement that removes a trigger by name, if it exists.
    pub fn drop_named_trigger_sql(&self, trigger_name: &str) -> (res: String)
        ensures
            res@ == drop_trigger_text(trigger_name@),
    {
        let mut out = String::new();
        push_text(&mut out, "DROP TRIGGER IF EXISTS ");
        let q = quote_ident(trigger_name);
        push_text(&mut out, q.as_str());
        push_text(&mut out, ";");
        out
    }

    /// The statement that creates the managed trigger of `operation` on
    /// `table` (see `create_trigger_text`).
    pub fn create_trigger_sql(&self, table: &TableDefinition, operation: Operation) -> (res: String)
        ensures
            res@ == managed_sql(self.inputs(*table), operation),
    {
        let trigger_name = self.trigger_name(table, operation);
        let trigger_name = quote_ident(trigger_name.as_str());
        let table_name = quote_ident(table.name.as_str());
        let log_table = quote_ident(self.log_table.as_str());
        let table_literal = quote_string(table.name.as_str());
        let old_values = json_object_expr("OLD", table.columns.as_slice());
        let new_values = json_object_expr("NEW", table.columns.as_slice());
        let mut out = String::new();
        push_text(&mut out, "CREATE TRIGGER ");
        push_text(&mut out, trigger_name.as_str());
        match operation {
            Operation::Insert => push_text(&mut out, "\n                AFTER INSERT ON "),
            Operation::Update => push_text(&mut out, "\n                AFTER UPDATE ON "),
            Operation::Delete => push_text(&mut out, "\n                AFTER DELETE ON "),
        }
        push_text(&mut out, table_name.as_str());
        push_text(&mut out, "\n                BEGIN\n                    INSERT INTO ");
        push_text(&mut out, log_table.as_str());
        push_text(
            &mut out,
            " (table_name, operation, old_values, new_values)\n                    VALUES (",
        );
        push_text(&mut out, table_literal.as_str());
        let ghost before_values = out@;
        match operation {
            Operation::Insert => {
                push_text(&mut out, ", 'INSERT', NULL, ");
                push_text(&mut out, new_values.as_str());
            },
            Operation::Update => {
                push_text(&mut out, ", 'UPDATE', ");
                push_text(&mut out, old_values.as_str());
                push_text(&mut out, ", ");
                push_text(&mut out, new_values.as_str());
            },
            Operation::Delete => {
                push_text(&mut out, ", 'DELETE', ");
                push_text(&mut out, old_values.as_str());
                push_text(&mut out, ", NULL");
            },
        }
        assert(out@ =~= before_values + values_clause(operation, old_values@, new_values@));
        push_text(&mut out, ");\n                END;");
        out
    }

    /// The trigger rows `(name, sql)` of `table` that carry a managed name,
    /// each with its operation.
    pub fn collect_existing_triggers(&self, table: &str, rows: &[(String, String)]) -> (res: Vec<
        ExistingTrigger,
    >)
        ensures
            trigger_views(res@) == recognized_triggers(
                self.prefix_text(),
                table@,
                row_views(rows@),
            ),
    {
        let mut res: Vec<ExistingTrigger> = Vec::new();
        let n = rows.len();
        for i in 0..n
            invariant
                n == rows@.len(),
                trigger_views(res@) == recognized_triggers(
                    self.prefix_text(),
                    table@,
                    row_views(rows@.take(i as int)),
                ),
        {
            let name = rows[i].0.clone();
            let sql = rows[i].1.clone();
            let parsed = trigger_operation_from_name(
                self.trigger_prefix.as_str(),
                table,
                name.as_str(),
            );
            proof {
                assert(row_views(rows@.take(i + 1)).drop_last() =~= row_views(
                    rows@.take(i as int),
                ));
            }
            match parsed {
                Some(operation) => {
                    res.push(ExistingTrigger { name, sql, operation });
                    assert(trigger_views(res@) =~= trigger_views(res@.drop_last()).push(
                        res@.last()@,
                    ));
                },
                None => {},
            }
        }
        assert(rows@.take(n as int) =~= rows@);
        res
    }

    /// The plan that creates the log table and the managed triggers of the
    /// selected operations.
    pub fn plan_create(&self, target: &TableDefinition, operations: &[Operation]) -> (res:
        ExecutionPlan)
        ensures
            res@ == create_plan(self.inputs(*target), operations@),
    {
        let mut statements: Vec<String> = Vec::new();
        statements.push(self.create_log_table_sql());
        let n = operations.len();
        for i in 0..n
            invariant
                n == operations@.len(),
                texts(statements@) == seq![log_table_sql_text(self.log_table_text())] + creations(
                    self.inputs(*target),
                    operations@.take(i as int),
                ),
        {
            let ghost before = statements@;
            statements.push(self.create_trigger_sql(target, operations[i]));
            proof {
                let p = self.inputs(*target);
                assert(creations(p, operations@.take(i + 1)) =~= creations(
                    p,
                    operations@.take(i as int),
                ).push(managed_sql(p, operations@[i as int])));
                assert(texts(statements@) =~= texts(before).push(statements@.last()@));
            }
        }
        assert(operations@.take(n as int) =~= operations@);
        ExecutionPlan::new(statements)
    }

    fn refresh_operation(
        &self,
        target: &TableDefinition,
        existing: &[ExistingTrigger],
        operation: Operation,
        statements: &mut Vec<String>,
    )
        ensures
            texts(final(statements)@) == texts(old(statements)@) + refresh_steps(
                self.inputs(*target),
                trigger_views(existing@),
                operation,
            ),
    {
        let ghost p = self.inputs(*target);
        let ghost ex = trigger_views(existing@);
        let desired_name = self.trigger_name(target, operation);
        let desired_sql = self.create_trigger_sql(target, operation);
        let mut current: Option<usize> = None;
        let mut stale: Vec<String> = Vec::new();
        let n = existing.len();
        for j in 0..n
            invariant
                n == existing@.len(),
                ex == trigger_views(existing@),
                desired_name@ == managed_name(p, operation),
                texts(stale@) == stale_drops(ex.take(j as int), operation, desired_name@),
                match current {
                    Some(k) => k < j && current_trigger(ex.take(j as int), operation, desired_name@)
                        == Some(ex[k as int]),
                    None => current_trigger(ex.take(j as int), operation, desired_name@) is None,
                },
        {
            proof {
                assert(ex.take(j + 1).drop_last() =~= ex.take(j as int));
                assert(ex.take(j + 1).last() == ex[j as int]);
            }
            if existing[j].operation == operation {
                if existing[j].name == desired_name {
                    if current.is_none() {
                        current = Some(j);
                    }
                } else {
                    stale.push(self.drop_named_trigger_sql(existing[j].name.as_str()));
                    assert(texts(stale@) =~= texts(stale@.drop_last()).push(stale@.last()@));
                }
            }
        }
        assert(ex.take(n as int) =~= ex);
        let current_matches = match current {
            Some(k) => sql_matches(existing[k].sql.as_str(), desired_sql.as_str()),
            None => false,
        };
        assert(current_matches == is_current(p, ex, operation));
        let ghost before = statements@;
        statements.append(&mut stale);
        assert(texts(statements@) =~= texts(before) + stale_drops(ex, operation, desired_name@));
        if current_matches {
            return ;
        }
        statements.push(self.drop_named_trigger_sql(desired_name.as_str()));
        statements.push(desired_sql);
        assert(texts(statements@) =~= texts(before) + refresh_steps(p, ex, operation));
    }

    /// The plan that brings the managed triggers of the selected operations
    /// up to date: for each operation, other managed triggers of it are
    /// dropped, and unless the trigger under its managed name already
    /// matches the desired definition, that name is dropped if present and
    /// the trigger created. When nothing needs to change the plan is empty;
    /// otherwise it starts by creating the log table if it is missing.
    pub fn plan_update(
        &self,
        target: &TableDefinition,
        existing: &[ExistingTrigger],
        operations: &[Operation],
    ) -> (res: ExecutionPlan)
        ensures
            res@ == update_plan(self.inputs(*target), trigger_views(existing@), operations@),
    {
        let ghost p = self.inputs(*target);
        let ghost ex = trigger_views(existing@);
        let mut steps: Vec<String> = Vec::new();
        let n = operations.len();
        for i in 0..n
            invariant
                n == operations@.len(),
                p == self.inputs(*target),
                ex == trigger_views(existing@),
                texts(steps@) == refresh_all(p, ex, operations@.take(i as int)),
        {
            self.refresh_operation(target, existing, operations[i], &mut steps);
            assert(operations@.take(i + 1).drop_last() =~= operations@.take(i as int));
        }
        assert(operations@.take(n as int) =~= operations@);
        if steps.len() == 0 {
            let empty: Vec<String> = Vec::new();
            assert(texts(empty@) =~= Seq::<Seq<char>>::empty());
            return ExecutionPlan::new(empty);
        }
        let mut statements: Vec<String> = Vec::new();
        statements.push(self.create_log_table_sql());
        let ghost head = statements@;
        statements.append(&mut steps);
        assert(texts(statements@) =~= seq![log_table_sql_text(self.log_table_text())]
            + refresh_all(p, ex, operations@));
        ExecutionPlan::new(statements)
    }

    /// The same plan as `plan_update`: only what changed is applied.
    pub fn plan_apply_changed(
        &self,
        target: &TableDefinition,
        existing: &[ExistingTrigger],
        operations: &[Operation],
    ) -> (res: ExecutionPlan)
        ensures
            res@ == update_plan(self.inputs(*target), trigger_views(existing@), operations@),
    {
        self.plan_update(target, existing, operations)
    }

    fn remove_operation(
        &self,
        target: &TableDefinition,
        existing: &[ExistingTrigger],
        operation: Operation,
        statements: &mut Vec<String>,
    )
        ensures
            texts(final(statements)@) == texts(old(statements)@) + removal_steps(
                self.inputs(*target),
                trigger_views(existing@),
                operation,
            ),
    {
        let ghost ex = trigger_views(existing@);
        let ghost before = statements@;
        let mut matched_existing = false;
        let n = existing.len();
        for j in 0..n
            invariant
                n == existing@.len(),
                ex == trigger_views(existing@),
                texts(statements@) == texts(before) + operation_drops(ex.take(j as int), operation),
                matched_existing == (operation_drops(ex.take(j as int), operation).len() > 0),
        {
            proof {
                assert(ex.take(j + 1).drop_last() =~= ex.take(j as int));
                assert(ex.take(j + 1).last() == ex[j as int]);
            }
            if existing[j].operation == operation {
                matched_existing = true;
                let ghost mid = statements@;
                statements.push(self.drop_named_trigger_sql(existing[j].name.as_str()));
                assert(ex[j as int] == existing@[j as int]@);
                assert(texts(statements@) =~= texts(mid).push(statements@.last()@));
                assert(texts(statements@) =~= texts(before) + operation_drops(
                    ex.take(j + 1),
                    operation,
                ));
            }
        }
        assert(ex.take(n as int) =~= ex);
        if !matched_existing {
            let desired_name = self.trigger_name(target, operation);
            statements.push(self.drop_named_trigger_sql(desired_name.as_str()));
            assert(texts(statements@) =~= texts(before) + removal_steps(
                self.inputs(*target),
                ex,
                operation,
            ));
        }
    }

    /// The plan that removes the managed triggers of the selected
    /// operations: each existing managed trigger of such an operation is
    /// dropped, or its managed name when none exists.
    pub fn plan_delete(
        &self,
        target: &TableDefinition,
        existing: &[ExistingTrigger],
        operations: &[Operation],
    ) -> (res: ExecutionPlan)
        ensures
            res@ == delete_plan(self.inputs(*target), trigger_views(existing@), operations@),
    {
        let ghost p = self.inputs(*target);
        let ghost ex = trigger_views(existing@);
        let mut statements: Vec<String> = Vec::new();
        let n = operations.len();
        for i in 0..n
            invariant
                n == operations@.len(),
                p == self.inputs(*target),
                ex == trigger_views(existing@),
                texts(statements@) == delete_plan(p, ex, operations@.take(i as int)),
        {
            self.remove_operation(target, existing, operations[i], &mut statements);
            assert(operations@.take(i + 1).drop_last() =~= operations@.take(i as int));
        }
        assert(operations@.take(n as int) =~= operations@);
        ExecutionPlan::new(statements)
    }

    /// The table the manager works on for a requested name, given the name
    /// the database found for it (matched without regard to case), or the
    /// reason it cannot: the log table itself is never a target, whether it
    /// is asked for or found.
    pub fn resolve_target_table(&self, table: &str, found: Option<String>) -> (res: Result<
        String,
        AppError,
    >)
        ensures
            lower_seq(table@) == lower_seq(self.log_table_text()) ==> (res matches Err(
                AppError::ReservedLogTable(n),
            ) && n@ == self.log_table_text()),
            lower_seq(table@) != lower_seq(self.log_table_text()) ==> match found {
                None => res matches Err(AppError::MissingTable(n)) && n@ == table@,
                Some(name) => if lower_seq(name@) == lower_seq(self.log_table_text()) {
                    res matches Err(AppError::ReservedLogTable(n)) && n@ == name@
                } else {
                    res matches Ok(r) && r@ == name@
                },
            },
    {
        if eq_ignore_ascii_case(table, self.log_table.as_str()) {
            return Err(AppError::ReservedLogTable(self.log_table.clone()));
        }
        match found {
            None => {
                let mut missing = String::new();
                push_text(&mut missing, table);
                Err(AppError::MissingTable(missing))
            },
            Some(name) => {
                if eq_ignore_ascii_case(name.as_str(), self.log_table.as_str()) {
                    return Err(AppError::ReservedLogTable(name));
                }
                Ok(name)
            },
        }
    }

    /// The first check on a requested target, made before the database is
    /// consulted: the log table itself, in any ASCII letter case, is refused.
    pub fn check_target_name(&self, table: &str) -> (res: Result<(), AppError>)
        ensures
            lower_seq(table@) == lower_seq(self.log_table_text()) ==> (res matches Err(
                AppError::ReservedLogTable(n),
            ) && n@ == self.log_table_text()),
            lower_seq(table@) != lower_seq(self.log_table_text()) ==> res is Ok,
    {
        if eq_ignore_ascii_case(table, self.log_table.as_str()) {
            return Err(AppError::ReservedLogTable(self.log_table.clone()));
        }
        Ok(())
    }

    /// The `LIKE` pattern that selects the managed triggers of one table, or
    /// of every table.
    pub fn trigger_like_pattern(&self, table: Option<&str>) -> (res: String)
        ensures
            res@ == match table {
                Some(t) => self.prefix_text() + "_"@ + t@ + "_%"@,
                None => self.prefix_text() + "_%"@,
            },
    {
        let mut out = String::new();
        push_text(&mut out, self.trigger_prefix.as_str());
        match table {
            Some(t) => {
                push_text(&mut out, "_");
                push_text(&mut out, t);
                push_text(&mut out, "_%");
            },
            None => {
                push_text(&mut out, "_%");
            },
        }
        out
    }
}

} // verus!
