//! Exporting captured rows: the SQL that reads, counts and deletes rows of
//! the log table, the portable SQL of query mode, how a run chooses its
//! mode, and the report of pending rows.

use vstd::prelude::*;
use crate::commands::{byte_len, lemma_byte_len_at_least_len};
use crate::sql::{join, quote_ident, quoted};
use crate::text::{
    i64_text, pad_end, pad_start, push_padded_end, push_padded_start, push_text, signed_decimal,
    decimal, usize_text,
};
use crate::trigger::AppError;

verus! {

broadcast use vstd::string::group_string_axioms;

/// How many rows an export or a dry run takes when no limit is given.
pub const DEFAULT_EXPORT_LIMIT: usize = 100;

/// The outcome of an export: how many rows were written and removed.
#[derive(Debug, Clone, Copy, PartialEq, Eq)]
pub struct ExportResult {
    pub exported: usize,
}

/// A row of the log table as the database returns it.
#[derive(Debug, Clone)]
pub struct RawLogEntry {
    pub id: i64,
    pub table_name: String,
    pub operation: String,
    pub old_values: Option<String>,
    pub new_values: Option<String>,
    pub changed_at: String,
}

/// Pending rows of one table and operation.
#[derive(Debug, Clone)]
pub struct LogStatusRow {
    pub table_name: String,
    pub operation: String,
    pub count: i64,
}

/// A `serde_json::Value`, carried through unread.
#[verifier::external_type_specification]
#[verifier::external_body]
pub struct ExJsonValue(serde_json::Value);

/// A `serde_json::Error`, carried through unread.
#[verifier::external_type_specification]
#[verifier::external_body]
pub struct ExJsonError(serde_json::Error);

/// Whether `serde_json` reads a text as exactly one JSON value.
pub uninterp spec fn is_json_text(text: Seq<char>) -> bool;

/// `serde_json::from_str::<serde_json::Value>`, trusted to succeed exactly
/// on the texts it accepts as one JSON value (named `is_json_text`). The
/// value it reads has no model here, so nothing is stated of it beyond its
/// presence, and nothing of the error beyond its presence.
#[verifier::external_body]
fn parse_json(text: &str) -> (res: Result<serde_json::Value, serde_json::Error>)
    ensures
        res is Ok <==> is_json_text(text@),
{
    serde_json::from_str(text)
}

/// A log column whose text is not JSON.
#[derive(Debug)]
pub struct InvalidJson(pub serde_json::Error);

/// The JSON value of a nullable log column: none for SQL `NULL`, otherwise
/// the value its text holds, or the parse failure.
pub fn parse_json_option(value: Option<String>) -> (res: Result<
    Option<serde_json::Value>,
    InvalidJson,
>)
    ensures
        value is None ==> (res matches Ok(v) && v is None),
        value matches Some(t) ==> ((res is Ok) <==> is_json_text(t@)),
        value is Some ==> (res matches Ok(v) ==> v is Some),
{
    match value {
        None => Ok(None),
        Some(text) => match parse_json(text.as_str()) {
            Ok(parsed) => Ok(Some(parsed)),
            Err(error) => Err(InvalidJson(error)),
        },
    }
}

/// What a `log export` run does.
#[derive(Debug, Clone, Copy, PartialEq, Eq, Structural)]
pub enum ExportMode {
    /// Print the portable select and delete SQL; no database is read.
    Query,
    /// Print the rows as JSON Lines and keep them.
    DryRun,
    /// Append the rows to the output file, then delete them.
    Write,
}

/// Query mode wins, then a dry run; a real export needs an output file.
pub fn export_mode(query: bool, dry_run: bool, has_output: bool) -> (res: Result<
    ExportMode,
    AppError,
>)
    ensures
        query ==> res == Ok::<ExportMode, AppError>(ExportMode::Query),
        !query && dry_run ==> res == Ok::<ExportMode, AppError>(ExportMode::DryRun),
        !query && !dry_run && has_output ==> res == Ok::<ExportMode, AppError>(ExportMode::Write),
        !query && !dry_run && !has_output ==> res == Err::<ExportMode, AppError>(
            AppError::MissingExportOutput,
        ),
{
    if query {
        Ok(ExportMode::Query)
    } else if dry_run {
        Ok(ExportMode::DryRun)
    } else if has_output {
        Ok(ExportMode::Write)
    } else {
        Err(AppError::MissingExportOutput)
    }
}

/// The number of rows an export or a dry run takes: the given limit, or
/// `DEFAULT_EXPORT_LIMIT` rows.
pub fn effective_limit(limit: Option<usize>) -> (res: usize)
    ensures
        res == match limit {
            Some(n) => n,
            None => DEFAULT_EXPORT_LIMIT,
        },
{
    match limit {
        Some(n) => n,
        None => DEFAULT_EXPORT_LIMIT,
    }
}

/// The `LIMIT` of a select: a number, or the `:limit` parameter.
pub open spec fn limit_text(limit: Option<usize>) -> Seq<char> {
    match limit {
        Some(n) => " LIMIT "@ + decimal(n as nat),
        None => " LIMIT :limit"@,
    }
}

/// The select that reads log rows oldest first.
pub open spec fn select_entries_text(log: Seq<char>, limit: Option<usize>) -> Seq<char> {
    "SELECT id, table_name, operation, old_values, new_values, changed_at\n         FROM "@
        + quoted(log, '"') + "\n         ORDER BY id"@ + limit_text(limit)
}

/// The select that reads at most `limit` log rows, oldest first; with no
/// limit, the limit is left to a `:limit` parameter.
pub fn select_entries_sql(log_table: &str, limit: Option<usize>) -> (res: String)
    ensures
        res@ == select_entries_text(log_table@, limit),
{
    let mut out = String::new();
    push_text(
        &mut out,
        "SELECT id, table_name, operation, old_values, new_values, changed_at\n         FROM ",
    );
    let q = quote_ident(log_table);
    push_text(&mut out, q.as_str());
    push_text(&mut out, "\n         ORDER BY id");
    match limit {
        Some(n) => {
            push_text(&mut out, " LIMIT ");
            let digits = usize_text(n);
            push_text(&mut out, digits.as_str());
        },
        None => {
            push_text(&mut out, " LIMIT :limit");
        },
    }
    out
}

/// The portable delete of query mode: every row up to the last one read.
pub open spec fn delete_through_text(log: Seq<char>) -> Seq<char> {
    "DELETE FROM "@ + quoted(log, '"') + " WHERE id <= :max_id"@
}

pub fn delete_through_sql(log_table: &str) -> (res: String)
    ensures
        res@ == delete_through_text(log_table@),
{
    let mut out = String::new();
    push_text(&mut out, "DELETE FROM ");
    let q = quote_ident(log_table);
    push_text(&mut out, q.as_str());
    push_text(&mut out, " WHERE id <= :max_id");
    out
}

/// `count` parameter markers separated by commas.
pub open spec fn placeholders(count: nat) -> Seq<char> {
    join(Seq::new(count, |i: int| "?"@), ", "@)
}

/// The delete of exported rows, one parameter per row id.
pub open spec fn delete_entries_text(log: Seq<char>, count: nat) -> Seq<char> {
    "DELETE FROM "@ + quoted(log, '"') + " WHERE id IN ("@ + placeholders(count) + ")"@
}

pub fn delete_entries_sql(log_table: &str, count: usize) -> (res: String)
    ensures
        res@ == delete_entries_text(log_table@, count as nat),
{
    let mut out = String::new();
    push_text(&mut out, "DELETE FROM ");
    let q = quote_ident(log_table);
    push_text(&mut out, q.as_str());
    push_text(&mut out, " WHERE id IN (");
    let ghost start = out@;
    for i in 0..count
        invariant
            out@ == start + placeholders(i as nat),
    {
        if i > 0 {
            push_text(&mut out, ", ");
        }
        push_text(&mut out, "?");
        proof {
            let s = Seq::new((i + 1) as nat, |k: int| "?"@);
            assert(s.drop_last() =~= Seq::new(i as nat, |k: int| "?"@));
            if i == 0 {
                assert(Seq::new(0nat, |k: int| "?"@) =~= Seq::<Seq<char>>::empty());
            }
        }
    }
    push_text(&mut out, ")");
    out
}

/// The ids of the rows, in order, as the delete's parameters.
pub fn entry_ids(entries: &[RawLogEntry]) -> (res: Vec<i64>)
    ensures
        res@ == entries@.map_values(|e: RawLogEntry| e.id),
{
    let mut ids: Vec<i64> = Vec::new();
    let n = entries.len();
    for i in 0..n
        invariant
            n == entries@.len(),
            ids@ == entries@.take(i as int).map_values(|e: RawLogEntry| e.id),
    {
        ids.push(entries[i].id);
        assert(entries@.take(i + 1).map_values(|e: RawLogEntry| e.id) =~= entries@.take(
            i as int,
        ).map_values(|e: RawLogEntry| e.id).push(entries@[i as int].id));
    }
    assert(entries@.take(n as int) =~= entries@);
    ids
}

/// The count of pending rows per table and operation.
pub open spec fn log_status_text(log: Seq<char>) -> Seq<char> {
    "SELECT table_name, operation, COUNT(*)\n         FROM "@ + quoted(log, '"')
        + "\n         GROUP BY table_name, operation\n         ORDER BY table_name, operation"@
}

pub fn log_status_sql(log_table: &str) -> (res: String)
    ensures
        res@ == log_status_text(log_table@),
{
    let mut out = String::new();
    push_text(&mut out, "SELECT table_name, operation, COUNT(*)\n         FROM ");
    let q = quote_ident(log_table);
    push_text(&mut out, q.as_str());
    push_text(
        &mut out,
        "\n         GROUP BY table_name, operation\n         ORDER BY table_name, operation",
    );
    out
}

// ---------------------------------------------------------------------
// Pending-rows report
// ---------------------------------------------------------------------

/// The sum of the counts.
pub open spec fn count_sum(rows: Seq<LogStatusRow>) -> int
    decreases rows.len(),
{
    if rows.len() == 0 {
        0
    } else {
        count_sum(rows.drop_last()) + rows.last().count
    }
}

/// Every running total of the counts fits in an `i64`.
pub open spec fn sums_fit(rows: Seq<LogStatusRow>) -> bool {
    forall|k: int|
        0 <= k <= rows.len() ==> i64::MIN <= #[trigger] count_sum(rows.take(k)) <= i64::MAX
}

pub open spec fn max_nat(a: nat, b: nat) -> nat {
    if a > b {
        a
    } else {
        b
    }
}

pub open spec fn table_name_width(rows: Seq<LogStatusRow>) -> nat
    decreases rows.len(),
{
    if rows.len() == 0 {
        5
    } else {
        max_nat(table_name_width(rows.drop_last()), byte_len(rows.last().table_name@))
    }
}

pub open spec fn operation_width(rows: Seq<LogStatusRow>) -> nat
    decreases rows.len(),
{
    if rows.len() == 0 {
        9
    } else {
        max_nat(operation_width(rows.drop_last()), byte_len(rows.last().operation@))
    }
}

/// The count column's width: the longest count in decimal (every digit
/// and the sign are one byte), and at least the heading `COUNT`.
pub open spec fn count_width(rows: Seq<LogStatusRow>) -> nat
    decreases rows.len(),
{
    if rows.len() == 0 {
        5
    } else {
        max_nat(count_width(rows.drop_last()), signed_decimal(rows.last().count as int).len())
    }
}

pub struct Widths {
    pub table: nat,
    pub operation: nat,
    pub count: nat,
}

pub open spec fn widths(rows: Seq<LogStatusRow>) -> Widths {
    Widths {
        table: table_name_width(rows),
        operation: operation_width(rows),
        count: count_width(rows),
    }
}

/// One line of the report: table and operation left-aligned, the count
/// right-aligned.
pub open spec fn count_line(table: Seq<char>, operation: Seq<char>, count: Seq<char>, w: Widths) -> Seq<
    char,
> {
    pad_end(table, w.table) + "  "@ + pad_end(operation, w.operation) + "  "@ + pad_start(
        count,
        w.count,
    ) + "\n"@
}

pub open spec fn count_lines(rows: Seq<LogStatusRow>, w: Widths) -> Seq<char>
    decreases rows.len(),
{
    if rows.len() == 0 {
        Seq::empty()
    } else {
        count_lines(rows.drop_last(), w) + count_line(
            rows.last().table_name@,
            rows.last().operation@,
            signed_decimal(rows.last().count as int),
            w,
        )
    }
}

/// The report of pending rows: a title naming the database, a blank line,
/// a heading, one line per table and operation, a blank line, and the
/// total of all counts.
pub open spec fn log_status_report(db: Seq<char>, rows: Seq<LogStatusRow>) -> Seq<char> {
    let w = widths(rows);
    "Pending log rows for "@ + db + "\n\n"@ + count_line("TABLE"@, "OPERATION"@, "COUNT"@, w)
        + count_lines(rows, w) + "\n"@ + count_line(
        "TOTAL"@,
        Seq::empty(),
        signed_decimal(count_sum(rows)),
        w,
    )
}

fn push_count_line(out: &mut String, table: &str, operation: &str, count: &str, w: (usize, usize, usize))
    ensures
        final(out)@ == old(out)@ + count_line(
            table@,
            operation@,
            count@,
            (Widths { table: w.0 as nat, operation: w.1 as nat, count: w.2 as nat }),
        ),
{
    let ghost s0 = old(out)@;
    push_padded_end(out, table, w.0);
    let ghost s1 = out@;
    push_text(out, "  ");
    push_padded_end(out, operation, w.1);
    let ghost s2 = out@;
    push_text(out, "  ");
    push_padded_start(out, count, w.2);
    let ghost s3 = out@;
    push_text(out, "\n");
    assert(out@ =~= s0 + count_line(
        table@,
        operation@,
        count@,
        Widths { table: w.0 as nat, operation: w.1 as nat, count: w.2 as nat },
    ));
}

/// The report of pending rows (see `log_status_report`).
pub fn render_log_status(db: &str, rows: &[LogStatusRow]) -> (res: String)
    requires
        sums_fit(rows@),
    ensures
        res@ == log_status_report(db@, rows@),
{
    let n = rows.len();
    let mut tw: usize = 5;
    let mut ow: usize = 9;
    let mut cw: usize = 5;
    let mut total: i64 = 0;
    for i in 0..n
        invariant
            n == rows@.len(),
            sums_fit(rows@),
            tw == table_name_width(rows@.take(i as int)),
            ow == operation_width(rows@.take(i as int)),
            cw == count_width(rows@.take(i as int)),
            total == count_sum(rows@.take(i as int)),
    {
        let row = &rows[i];
        let tl = row.table_name.as_str().as_bytes().len();
        let ol = row.operation.as_str().as_bytes().len();
        let digits = i64_text(row.count);
        let cl = digits.as_str().unicode_len();
        assert(rows@.take(i + 1).drop_last() =~= rows@.take(i as int));
        assert(rows@.take(i + 1).last() == rows@[i as int]);
        if tl > tw {
            tw = tl;
        }
        if ol > ow {
            ow = ol;
        }
        if cl > cw {
            cw = cl;
        }
        assert(i64::MIN <= count_sum(rows@.take(i + 1)) <= i64::MAX);
        total = total + row.count;
    }
    assert(rows@.take(n as int) =~= rows@);
    let w = (tw, ow, cw);
    let ghost ws = Widths { table: tw as nat, operation: ow as nat, count: cw as nat };
    assert(ws == widths(rows@));
    let mut out = String::new();
    push_text(&mut out, "Pending log rows for ");
    push_text(&mut out, db);
    push_text(&mut out, "\n\n");
    push_count_line(&mut out, "TABLE", "OPERATION", "COUNT", w);
    let ghost head = out@;
    for i in 0..n
        invariant
            n == rows@.len(),
            w == (tw, ow, cw),
            ws == (Widths { table: tw as nat, operation: ow as nat, count: cw as nat }),
            out@ == head + count_lines(rows@.take(i as int), ws),
    {
        let digits = i64_text(rows[i].count);
        push_count_line(
            &mut out,
            rows[i].table_name.as_str(),
            rows[i].operation.as_str(),
            digits.as_str(),
            w,
        );
        assert(rows@.take(i + 1).drop_last() =~= rows@.take(i as int));
    }
    assert(rows@.take(n as int) =~= rows@);
    push_text(&mut out, "\n");
    let total_text = i64_text(total);
    push_count_line(&mut out, "TOTAL", "", total_text.as_str(), w);
    proof {
        reveal_strlit("");
        assert(""@ =~= Seq::<char>::empty());
    }
    out
}

/// What the pending-rows command prints: a notice when no row is pending,
/// otherwise the report.
pub open spec fn log_status_output(db: Seq<char>, rows: Seq<LogStatusRow>) -> Seq<char> {
    if rows.len() == 0 {
        "No pending log rows for "@ + db + ".\n"@
    } else {
        log_status_report(db, rows)
    }
}

/// The text the pending-rows command prints.
pub fn render_log_status_output(db: &str, rows: &[LogStatusRow]) -> (res: String)
    requires
        sums_fit(rows@),
    ensures
        res@ == log_status_output(db@, rows@),
{
    if rows.len() == 0 {
        let mut out = String::new();
        push_text(&mut out, "No pending log rows for ");
        push_text(&mut out, db);
        push_text(&mut out, ".\n");
        return out;
    }
    render_log_status(db, rows)
}

/// An export reads the log oldest first, whatever the limit: the select
/// lists the log's columns, reads the quoted log table, orders by `id`
/// ascending and ends directly in its `LIMIT` clause, a number or the
/// `:limit` parameter. With and without a number it is the same text up to
/// that clause, so the paired delete through the last id read removes
/// exactly the rows read.
pub proof fn law_select_reads_oldest_first(log: Seq<char>, limit: Option<usize>)
    ensures
        select_entries_text(log, limit) == "SELECT id, table_name, operation, old_values, new_values, changed_at\n         FROM "@
            + quoted(log, '"') + "\n         ORDER BY id LIMIT "@ + match limit {
            Some(n) => decimal(n as nat),
            None => ":limit"@,
        },
{
    reveal_strlit("\n         ORDER BY id LIMIT ");
    reveal_strlit("\n         ORDER BY id");
    reveal_strlit(" LIMIT ");
    reveal_strlit(" LIMIT :limit");
    reveal_strlit(":limit");
    let head = "SELECT id, table_name, operation, old_values, new_values, changed_at\n         FROM "@
        + quoted(log, '"');
    match limit {
        Some(n) => {
            assert(select_entries_text(log, limit) =~= head + "\n         ORDER BY id LIMIT "@
                + decimal(n as nat));
        },
        None => {
            assert(select_entries_text(log, limit) =~= head + "\n         ORDER BY id LIMIT "@
                + ":limit"@);
        },
    }
}

/// The columns of the pending-rows report are as wide as their widest
/// entry, and at least as wide as their headings: the table column fits
/// every table name and `TABLE`, the operation column every operation and
/// `OPERATION`, the count column every count in decimal and `COUNT`; each
/// is the heading's width or the width of some entry.
pub proof fn law_report_columns_fit(rows: Seq<LogStatusRow>)
    ensures
        table_name_width(rows) >= 5,
        operation_width(rows) >= 9,
        count_width(rows) >= 5,
        forall|k: int|
            0 <= k < rows.len() ==> {
                &&& table_name_width(rows) >= byte_len((#[trigger] rows[k]).table_name@)
                &&& operation_width(rows) >= byte_len(rows[k].operation@)
                &&& count_width(rows) >= signed_decimal(rows[k].count as int).len()
            },
        table_name_width(rows) == 5 || exists|k: int|
            0 <= k < rows.len() && table_name_width(rows) == byte_len(
                (#[trigger] rows[k]).table_name@,
            ),
        operation_width(rows) == 9 || exists|k: int|
            0 <= k < rows.len() && operation_width(rows) == byte_len((#[trigger] rows[k]).operation@),
        count_width(rows) == 5 || exists|k: int|
            0 <= k < rows.len() && count_width(rows) == signed_decimal(
                (#[trigger] rows[k]).count as int,
            ).len(),
    decreases rows.len(),
{
    if rows.len() > 0 {
        let d = rows.drop_last();
        let n = rows.len() - 1;
        law_report_columns_fit(d);
        assert(rows[n] == rows.last());
        assert forall|k: int| 0 <= k < rows.len() implies {
            &&& table_name_width(rows) >= byte_len((#[trigger] rows[k]).table_name@)
            &&& operation_width(rows) >= byte_len(rows[k].operation@)
            &&& count_width(rows) >= signed_decimal(rows[k].count as int).len()
        } by {
            if k < n {
                assert(d[k] == rows[k]);
            }
        }
        if table_name_width(rows) != 5 && table_name_width(rows) == table_name_width(d) {
            let k = choose|k: int|
                0 <= k < d.len() && table_name_width(d) == byte_len((#[trigger] d[k]).table_name@);
            assert(d[k] == rows[k]);
        }
        if operation_width(rows) != 9 && operation_width(rows) == operation_width(d) {
            let k = choose|k: int|
                0 <= k < d.len() && operation_width(d) == byte_len((#[trigger] d[k]).operation@);
            assert(d[k] == rows[k]);
        }
        if count_width(rows) != 5 && count_width(rows) == count_width(d) {
            let k = choose|k: int|
                0 <= k < d.len() && count_width(d) == signed_decimal(
                    (#[trigger] d[k]).count as int,
                ).len();
            assert(d[k] == rows[k]);
        }
    }
}

/// The whole of the paired delete of query mode: it removes the rows of
/// the quoted log table whose id is at most the last id read.
pub proof fn law_delete_through_last_read(log: Seq<char>)
    ensures
        delete_through_text(log) == "DELETE FROM "@ + quoted(log, '"') + " WHERE id <= "@
            + ":max_id"@,
{
    reveal_strlit(" WHERE id <= :max_id");
    reveal_strlit(" WHERE id <= ");
    reveal_strlit(":max_id");
    assert(delete_through_text(log) =~= "DELETE FROM "@ + quoted(log, '"') + " WHERE id <= "@
        + ":max_id"@);
}

/// The total of the report adds up: the total of rows read in two parts
/// is the sum of the parts' totals, and one row's total is its count.
pub proof fn law_count_sum_adds_up(a: Seq<LogStatusRow>, b: Seq<LogStatusRow>)
    ensures
        count_sum(a + b) == count_sum(a) + count_sum(b),
        count_sum(Seq::<LogStatusRow>::empty()) == 0,
        b.len() == 1 ==> count_sum(b) == b[0].count,
    decreases b.len(),
{
    if b.len() > 0 {
        law_count_sum_adds_up(a, b.drop_last());
        assert((a + b).drop_last() =~= a + b.drop_last());
        assert((a + b).last() == b.last());
    } else {
        assert(a + b =~= a);
    }
    if b.len() == 1 {
        assert(b.drop_last() =~= Seq::<LogStatusRow>::empty());
    }
}

/// The width of one report line.
pub open spec fn line_width(w: Widths) -> nat {
    w.table + w.operation + w.count + 5
}

proof fn lemma_count_line_layout(t: Seq<char>, o: Seq<char>, c: Seq<char>, w: Widths)
    requires
        t.len() <= w.table,
        o.len() <= w.operation,
        c.len() <= w.count,
    ensures
        ({
            let l = count_line(t, o, c, w);
            let tw = w.table as int;
            let ow = w.operation as int;
            let cw = w.count as int;
            &&& l.len() == line_width(w)
            &&& l.subrange(0, tw) == pad_end(t, w.table)
            &&& l.subrange(tw, tw + 2) == "  "@
            &&& l.subrange(tw + 2, tw + 2 + ow) == pad_end(o, w.operation)
            &&& l.subrange(tw + 2 + ow, tw + 4 + ow) == "  "@
            &&& l.subrange(tw + 4 + ow, tw + 4 + ow + cw) == pad_start(c, w.count)
            &&& l[tw + 4 + ow + cw] == '\n'
        }),
{
    reveal_strlit("  ");
    reveal_strlit("\n");
    let tw = w.table as int;
    let ow = w.operation as int;
    let cw = w.count as int;
    let a = pad_end(t, w.table);
    let b = pad_end(o, w.operation);
    let d = pad_start(c, w.count);
    assert(a.len() == tw);
    assert(b.len() == ow);
    assert(d.len() == cw);
    let l = count_line(t, o, c, w);
    assert(l == a + "  "@ + b + "  "@ + d + "\n"@);
    assert(l.subrange(0, tw) =~= a);
    assert(l.subrange(tw, tw + 2) =~= "  "@);
    assert(l.subrange(tw + 2, tw + 2 + ow) =~= b);
    assert(l.subrange(tw + 2 + ow, tw + 4 + ow) =~= "  "@);
    assert(l.subrange(tw + 4 + ow, tw + 4 + ow + cw) =~= d);
}

/// Every row fits its columns.
pub open spec fn rows_fit(rows: Seq<LogStatusRow>, w: Widths) -> bool {
    forall|j: int|
        0 <= j < rows.len() ==> {
            &&& (#[trigger] rows[j]).table_name@.len() <= w.table
            &&& rows[j].operation@.len() <= w.operation
            &&& signed_decimal(rows[j].count as int).len() <= w.count
        }
}

proof fn lemma_count_lines_len(rows: Seq<LogStatusRow>, w: Widths)
    requires
        rows_fit(rows, w),
    ensures
        count_lines(rows, w).len() == rows.len() * line_width(w),
    decreases rows.len(),
{
    let n = rows.len();
    if n == 0 {
        assert(n * line_width(w) == 0);
    } else {
        let d = rows.drop_last();
        assert forall|j: int| 0 <= j < d.len() implies {
            &&& (#[trigger] d[j]).table_name@.len() <= w.table
            &&& d[j].operation@.len() <= w.operation
            &&& signed_decimal(d[j].count as int).len() <= w.count
        } by {
            assert(d[j] == rows[j]);
        }
        lemma_count_lines_len(d, w);
        assert(rows[n - 1] == rows.last());
        lemma_count_line_layout(
            rows.last().table_name@,
            rows.last().operation@,
            signed_decimal(rows.last().count as int),
            w,
        );
        let m: int = d.len() as int;
        let lw: int = line_width(w) as int;
        assert(m * lw + lw == (m + 1) * lw) by (nonlinear_arith);
    }
}

proof fn lemma_count_lines_at(rows: Seq<LogStatusRow>, w: Widths, k: int)
    requires
        rows_fit(rows, w),
        0 <= k < rows.len(),
    ensures
        k * line_width(w) + line_width(w) <= count_lines(rows, w).len(),
        count_lines(rows, w).subrange(k * line_width(w), k * line_width(w) + line_width(w))
            == count_line(
            rows[k].table_name@,
            rows[k].operation@,
            signed_decimal(rows[k].count as int),
            w,
        ),
    decreases rows.len(),
{
    let n = rows.len();
    let d = rows.drop_last();
    let lw: int = line_width(w) as int;
    assert forall|j: int| 0 <= j < d.len() implies {
        &&& (#[trigger] d[j]).table_name@.len() <= w.table
        &&& d[j].operation@.len() <= w.operation
        &&& signed_decimal(d[j].count as int).len() <= w.count
    } by {
        assert(d[j] == rows[j]);
    }
    lemma_count_lines_len(d, w);
    assert(rows[n - 1] == rows.last());
    lemma_count_line_layout(
        rows.last().table_name@,
        rows.last().operation@,
        signed_decimal(rows.last().count as int),
        w,
    );
    let prev = count_lines(d, w);
    let line = count_line(
        rows.last().table_name@,
        rows.last().operation@,
        signed_decimal(rows.last().count as int),
        w,
    );
    assert(count_lines(rows, w) == prev + line);
    let m: int = d.len() as int;
    if k < n - 1 {
        lemma_count_lines_at(d, w, k);
        assert(d[k] == rows[k]);
        assert(count_lines(rows, w).subrange(k * lw, k * lw + lw) =~= prev.subrange(
            k * lw,
            k * lw + lw,
        ));
    } else {
        assert(k == m);
        assert(count_lines(rows, w).subrange(k * lw, k * lw + lw) =~= line);
    }
}

/// The pending-rows report lines up its columns: after the title come the
/// heading, one line per row in order, a blank line and the total line.
/// In the heading and in row `k`'s line alike, the table column holds the
/// name padded to the table width, then two spaces, the operation padded
/// to the operation width, two spaces, and the count right-aligned in the
/// count width; the heading reads `TABLE`, `OPERATION`, `COUNT`, and the
/// total line `TOTAL`, nothing, and the sum of the counts.
pub proof fn law_log_status_report_columns(db: Seq<char>, rows: Seq<LogStatusRow>, k: int)
    requires
        0 <= k < rows.len(),
    ensures
        ({
            let w = widths(rows);
            let lw = line_width(w) as int;
            let tw = w.table as int;
            let ow = w.operation as int;
            let cw = w.count as int;
            let heading = count_line("TABLE"@, "OPERATION"@, "COUNT"@, w);
            let lines = count_lines(rows, w);
            let line = lines.subrange(k * lw, k * lw + lw);
            &&& log_status_report(db, rows) == "Pending log rows for "@ + db + "\n\n"@ + heading
                + lines + "\n"@ + count_line("TOTAL"@, Seq::empty(), signed_decimal(count_sum(rows)), w)
            &&& lines.len() == rows.len() * lw
            &&& heading.len() == lw
            &&& heading.subrange(0, tw) == pad_end("TABLE"@, w.table)
            &&& heading.subrange(tw + 2, tw + 2 + ow) == pad_end("OPERATION"@, w.operation)
            &&& heading.subrange(tw + 4 + ow, tw + 4 + ow + cw) == pad_start("COUNT"@, w.count)
            &&& line.subrange(0, tw) == pad_end(rows[k].table_name@, w.table)
            &&& line.subrange(tw, tw + 2) == "  "@
            &&& line.subrange(tw + 2, tw + 2 + ow) == pad_end(rows[k].operation@, w.operation)
            &&& line.subrange(tw + 2 + ow, tw + 4 + ow) == "  "@
            &&& line.subrange(tw + 4 + ow, tw + 4 + ow + cw) == pad_start(
                signed_decimal(rows[k].count as int),
                w.count,
            )
            &&& line[lw - 1] == '\n'
        }),
{
    let w = widths(rows);
    law_report_columns_fit(rows);
    assert forall|j: int| 0 <= j < rows.len() implies {
        &&& (#[trigger] rows[j]).table_name@.len() <= w.table
        &&& rows[j].operation@.len() <= w.operation
        &&& signed_decimal(rows[j].count as int).len() <= w.count
    } by {
        lemma_byte_len_at_least_len(rows[j].table_name@);
        lemma_byte_len_at_least_len(rows[j].operation@);
    }
    lemma_count_lines_len(rows, w);
    lemma_count_lines_at(rows, w, k);
    lemma_count_line_layout(
        rows[k].table_name@,
        rows[k].operation@,
        signed_decimal(rows[k].count as int),
        w,
    );
    reveal_strlit("TABLE");
    reveal_strlit("OPERATION");
    reveal_strlit("COUNT");
    lemma_count_line_layout("TABLE"@, "OPERATION"@, "COUNT"@, w);
}

} // verus!
