//! What the command line decides and prints, apart from reading and
//! writing: which tables and operations a run covers, the coverage report,
//! the text of a generated plan, and the messages a run ends with.

use vstd::prelude::*;
use vstd::utf8::{encode_scalar, encode_utf8};
use crate::names::{
    all_operations, law_status_name_parsing, names_operation, operation_from_trigger_name,
    status_operation, stem_text, Operation,
};
use crate::sql::join;
use crate::text::{pad_end, push_padded_end, push_text};
use crate::trigger::{texts, ExecutionPlan, ManagedTrigger};

verus! {

broadcast use vstd::string::group_string_axioms;

// ---------------------------------------------------------------------
// Selection
// ---------------------------------------------------------------------

/// `s` with every element after its first occurrence removed.
pub open spec fn dedup<T>(s: Seq<T>) -> Seq<T>
    decreases s.len(),
{
    if s.len() == 0 {
        Seq::empty()
    } else {
        let d = dedup(s.drop_last());
        if d.contains(s.last()) {
            d
        } else {
            d.push(s.last())
        }
    }
}

/// Deduplication keeps exactly the elements it is given, once each.
pub proof fn lemma_dedup<T>(s: Seq<T>)
    ensures
        dedup(s).no_duplicates(),
        forall|x: T| dedup(s).contains(x) <==> s.contains(x),
        dedup(s).len() <= s.len(),
    decreases s.len(),
{
    if s.len() > 0 {
        let d = dedup(s.drop_last());
        lemma_dedup(s.drop_last());
        assert forall|x: T| dedup(s).contains(x) <==> s.contains(x) by {
            let dl = s.drop_last();
            assert(d.contains(x) <==> dl.contains(x));
            if s.contains(x) {
                let k = choose|k: int| 0 <= k < s.len() && s[k] == x;
                if k < s.len() - 1 {
                    assert(dl[k] == x);
                }
            }
            if dl.contains(x) {
                let k = choose|k: int| 0 <= k < dl.len() && dl[k] == x;
                assert(s[k] == x);
            }
            if !d.contains(s.last()) {
                let e = d.push(s.last());
                assert(e[d.len() as int] == s.last());
                if e.contains(x) {
                    let k = choose|k: int| 0 <= k < e.len() && e[k] == x;
                    if k < d.len() {
                        assert(d[k] == x);
                    }
                }
                if d.contains(x) {
                    let k = choose|k: int| 0 <= k < d.len() && d[k] == x;
                    assert(e[k] == x);
                }
            }
        }
    }
}

/// Deduplication keeps the first occurrences in their order: each kept
/// element stands at an index of `s` before which it does not occur, and
/// these indices increase.
pub proof fn law_dedup_keeps_first_occurrences<T>(s: Seq<T>)
    ensures
        exists|idx: Seq<int>|
            {
                &&& idx.len() == dedup(s).len()
                &&& forall|i: int|
                    0 <= i < idx.len() ==> {
                        &&& 0 <= #[trigger] idx[i] < s.len()
                        &&& s[idx[i]] == dedup(s)[i]
                        &&& forall|c: int| 0 <= c < idx[i] ==> s[c] != dedup(s)[i]
                    }
                &&& forall|i: int, j: int| 0 <= i < j < idx.len() ==> #[trigger] idx[i] < #[trigger] idx[j]
            },
    decreases s.len(),
{
    if s.len() == 0 {
        let idx = Seq::<int>::empty();
        assert(idx.len() == dedup(s).len());
    } else {
        let dl = s.drop_last();
        let d = dedup(dl);
        let n = s.len() - 1;
        law_dedup_keeps_first_occurrences(dl);
        lemma_dedup(dl);
        let idx0 = choose|idx: Seq<int>|
            {
                &&& idx.len() == dedup(dl).len()
                &&& forall|i: int|
                    0 <= i < idx.len() ==> {
                        &&& 0 <= #[trigger] idx[i] < dl.len()
                        &&& dl[idx[i]] == dedup(dl)[i]
                        &&& forall|c: int| 0 <= c < idx[i] ==> dl[c] != dedup(dl)[i]
                    }
                &&& forall|i: int, j: int| 0 <= i < j < idx.len() ==> #[trigger] idx[i] < #[trigger] idx[j]
            };
        assert forall|i: int| 0 <= i < idx0.len() implies {
            &&& 0 <= #[trigger] idx0[i] < s.len()
            &&& s[idx0[i]] == d[i]
            &&& forall|c: int| 0 <= c < idx0[i] ==> s[c] != d[i]
        } by {
            assert(s[idx0[i]] == dl[idx0[i]]);
            assert forall|c: int| 0 <= c < idx0[i] implies s[c] != d[i] by {
                assert(s[c] == dl[c]);
            }
        }
        if d.contains(s.last()) {
            assert(dedup(s) == d);
        } else {
            let idx = idx0.push(n);
            assert(dedup(s) == d.push(s.last()));
            assert(!dl.contains(s.last()));
            assert forall|i: int| 0 <= i < idx.len() implies {
                &&& 0 <= #[trigger] idx[i] < s.len()
                &&& s[idx[i]] == dedup(s)[i]
                &&& forall|c: int| 0 <= c < idx[i] ==> s[c] != dedup(s)[i]
            } by {
                if i < idx0.len() {
                    assert(idx[i] == idx0[i]);
                    assert(dedup(s)[i] == d[i]);
                } else {
                    assert(idx[i] == n);
                    assert(s[n] == s.last());
                    assert forall|c: int| 0 <= c < idx[i] implies s[c] != dedup(s)[i] by {
                        assert(s[c] == dl[c]);
                    }
                }
            }
            assert forall|i: int, j: int| 0 <= i < j < idx.len() implies #[trigger] idx[i]
                < #[trigger] idx[j] by {
                if j < idx0.len() {
                    assert(idx[i] == idx0[i] && idx[j] == idx0[j]);
                } else {
                    assert(idx[i] == idx0[i]);
                }
            }
        }
    }
}

/// Choosing operations: with none named, every operation, in the order
/// insert, update, delete; otherwise exactly the named operations, each
/// once (in the order first named, see
/// `law_dedup_keeps_first_occurrences`).
pub proof fn law_operation_selection(ops: Seq<Operation>)
    ensures
        ops.len() == 0 ==> resolved_operations(ops) == seq![
            Operation::Insert,
            Operation::Update,
            Operation::Delete,
        ],
        ops.len() > 0 ==> resolved_operations(ops) == dedup(ops),
        resolved_operations(ops).no_duplicates(),
        ops.len() > 0 ==> forall|o: Operation|
            resolved_operations(ops).contains(o) <==> ops.contains(o),
{
    lemma_dedup(ops);
    if ops.len() == 0 {
        let r = resolved_operations(ops);
        assert(r.len() == 3);
        assert(r[0] != r[1] && r[0] != r[2] && r[1] != r[2]);
        assert forall|i: int, j: int| 0 <= i < r.len() && 0 <= j < r.len() && i != j implies r[i]
            != r[j] by {}
    }
}

/// The tables a run covers when they are named one by one: each name once,
/// in the order first given.
pub fn unique_tables(tables: Vec<String>) -> (res: Vec<String>)
    ensures
        texts(res@) == dedup(texts(tables@)),
        texts(res@).no_duplicates(),
        forall|t: Seq<char>| texts(res@).contains(t) <==> texts(tables@).contains(t),
{
    let mut unique: Vec<String> = Vec::new();
    let n = tables.len();
    for i in 0..n
        invariant
            n == tables@.len(),
            texts(unique@) == dedup(texts(tables@).take(i as int)),
    {
        let table = &tables[i];
        let mut seen = false;
        let m = unique.len();
        for j in 0..m
            invariant
                m == unique@.len(),
                seen == (exists|k: int| 0 <= k < j && unique@[k]@ == table@),
        {
            if unique[j] == *table {
                seen = true;
            }
        }
        proof {
            let t = texts(tables@).take(i + 1);
            assert(t.drop_last() =~= texts(tables@).take(i as int));
            assert(t.last() == table@);
            if seen {
                let k = choose|k: int| 0 <= k < m && unique@[k]@ == table@;
                assert(texts(unique@)[k] == table@);
            } else {
                assert forall|k: int| 0 <= k < texts(unique@).len() implies texts(unique@)[k]
                    != table@ by {
                    assert(texts(unique@)[k] == unique@[k]@);
                }
            }
        }
        if !seen {
            unique.push(table.clone());
            assert(texts(unique@) =~= texts(unique@.drop_last()).push(table@));
        }
    }
    assert(texts(tables@).take(n as int) =~= texts(tables@));
    proof {
        lemma_dedup(texts(tables@));
    }
    unique
}

/// The operations a run covers: every operation when none is named,
/// otherwise the named ones, each once, in the order first given.
pub open spec fn resolved_operations(ops: Seq<Operation>) -> Seq<Operation> {
    if ops.len() == 0 {
        all_operations()
    } else {
        dedup(ops)
    }
}

pub fn resolve_operations(operations: Vec<Operation>) -> (res: Vec<Operation>)
    ensures
        res@ == resolved_operations(operations@),
        res@.len() > 0,
        res@.no_duplicates(),
{
    if operations.len() == 0 {
        let all = Operation::all();
        let mut res: Vec<Operation> = Vec::new();
        res.push(all[0]);
        res.push(all[1]);
        res.push(all[2]);
        assert(res@ =~= all_operations());
        assert(res@[0] != res@[1] && res@[0] != res@[2] && res@[1] != res@[2]);
        return res;
    }
    let mut unique: Vec<Operation> = Vec::new();
    let n = operations.len();
    for i in 0..n
        invariant
            n == operations@.len(),
            unique@ == dedup(operations@.take(i as int)),
    {
        let operation = operations[i];
        let mut seen = false;
        let m = unique.len();
        for j in 0..m
            invariant
                m == unique@.len(),
                seen == (exists|k: int| 0 <= k < j && unique@[k] == operation),
        {
            if unique[j] == operation {
                seen = true;
            }
        }
        assert(operations@.take(i + 1).drop_last() =~= operations@.take(i as int));
        if !seen {
            unique.push(operation);
        }
    }
    assert(operations@.take(n as int) =~= operations@);
    proof {
        lemma_dedup(operations@);
        assert(operations@.contains(operations@[0]));
    }
    unique
}

/// The tables a run covers: with `--all-tables` the tables the database
/// lists, otherwise the named tables, each once.
pub fn resolve_tables(requested: Vec<String>, listed: Option<Vec<String>>) -> (res: Vec<String>)
    ensures
        match listed {
            Some(l) => texts(res@) == texts(l@),
            None => texts(res@) == dedup(texts(requested@)),
        },
{
    match listed {
        Some(l) => l,
        None => unique_tables(requested),
    }
}

/// The statements of several plans, one plan after another.
pub open spec fn concat_plans(plans: Seq<Seq<Seq<char>>>) -> Seq<Seq<char>>
    decreases plans.len(),
{
    if plans.len() == 0 {
        Seq::empty()
    } else {
        concat_plans(plans.drop_last()) + plans.last()
    }
}

pub open spec fn plan_views(plans: Seq<ExecutionPlan>) -> Seq<Seq<Seq<char>>> {
    plans.map_values(|p: ExecutionPlan| p@)
}

/// One plan made of the per-table plans in order.
pub fn collect_plans(plans: &[ExecutionPlan]) -> (res: ExecutionPlan)
    ensures
        res@ == concat_plans(plan_views(plans@)),
{
    let mut statements: Vec<String> = Vec::new();
    let n = plans.len();
    for i in 0..n
        invariant
            n == plans@.len(),
            texts(statements@) == concat_plans(plan_views(plans@).take(i as int)),
    {
        let part = plans[i].statements();
        let m = part.len();
        let ghost before = statements@;
        for j in 0..m
            invariant
                m == part@.len(),
                texts(statements@) == texts(before) + texts(part@).take(j as int),
        {
            let ghost mid = statements@;
            statements.push(part[j].clone());
            assert(texts(part@).take(j + 1) =~= texts(part@).take(j as int).push(part@[j as int]@));
            assert(texts(statements@) =~= texts(mid).push(part@[j as int]@));
        }
        assert(texts(part@).take(m as int) =~= texts(part@));
        assert(plan_views(plans@).take(i + 1).drop_last() =~= plan_views(plans@).take(i as int));
        assert(plan_views(plans@).take(i + 1).last() == plans@[i as int]@);
    }
    assert(plan_views(plans@).take(n as int) =~= plan_views(plans@));
    ExecutionPlan::from_statements(statements)
}

// ---------------------------------------------------------------------
// Coverage report
// ---------------------------------------------------------------------

/// Which operations of a table have a managed trigger.
#[derive(Debug, Clone, Copy, PartialEq, Eq)]
pub struct TableStatus {
    pub insert: bool,
    pub update: bool,
    pub delete: bool,
}

/// Whether a listed trigger belongs to `table` and carries a managed name
/// of `op`, with or without the hash suffix, its stem in the exact letter
/// case of `{prefix}_{table}_`.
pub open spec fn covers(prefix: Seq<char>, table: Seq<char>, t: ManagedTrigger, op: Operation) -> bool {
    t.table@ == table && status_operation(prefix, table, t.name@) == Some(op)
}

pub open spec fn covered(
    prefix: Seq<char>,
    table: Seq<char>,
    triggers: Seq<ManagedTrigger>,
    op: Operation,
) -> bool {
    exists|k: int| 0 <= k < triggers.len() && covers(prefix, table, #[trigger] triggers[k], op)
}

impl TableStatus {
    /// The coverage of `table`: an operation counts as covered when some
    /// listed trigger of the table carries a managed name of that operation
    /// (`{prefix}_{table}_{operation}` in that exact letter case, optionally
    /// with the hash suffix).
    pub fn from_triggers(prefix: &str, table: &str, triggers: &[ManagedTrigger]) -> (res: Self)
        ensures
            res.insert == covered(prefix@, table@, triggers@, Operation::Insert),
            res.update == covered(prefix@, table@, triggers@, Operation::Update),
            res.delete == covered(prefix@, table@, triggers@, Operation::Delete),
    {
        let mut status = TableStatus { insert: false, update: false, delete: false };
        let n = triggers.len();
        for i in 0..n
            invariant
                n == triggers@.len(),
                status.insert == (exists|k: int|
                    0 <= k < i && covers(prefix@, table@, #[trigger] triggers@[k], Operation::Insert)),
                status.update == (exists|k: int|
                    0 <= k < i && covers(prefix@, table@, #[trigger] triggers@[k], Operation::Update)),
                status.delete == (exists|k: int|
                    0 <= k < i && covers(prefix@, table@, #[trigger] triggers@[k], Operation::Delete)),
        {
            let trigger = &triggers[i];
            let mut same_table = String::new();
            push_text(&mut same_table, table);
            if trigger.table == same_table {
                match operation_from_trigger_name(prefix, table, trigger.name.as_str()) {
                    Some(Operation::Insert) => status.insert = true,
                    Some(Operation::Update) => status.update = true,
                    Some(Operation::Delete) => status.delete = true,
                    None => {},
                }
            }
            assert(covers(prefix@, table@, triggers@[i as int], Operation::Insert) ==> status.insert);
            assert(covers(prefix@, table@, triggers@[i as int], Operation::Update) ==> status.update);
            assert(covers(prefix@, table@, triggers@[i as int], Operation::Delete) ==> status.delete);
        }
        status
    }
}

/// The listed triggers are managed triggers of `ops` on `table`, one per
/// operation, each named with or without the hash suffix.
pub open spec fn lists_managed(
    prefix: Seq<char>,
    table: Seq<char>,
    triggers: Seq<ManagedTrigger>,
    ops: Seq<Operation>,
) -> bool {
    &&& triggers.len() == ops.len()
    &&& forall|k: int|
        0 <= k < ops.len() ==> (#[trigger] triggers[k]).table@ == table && names_operation(
            stem_text(prefix, table),
            triggers[k].name@,
            ops[k],
        )
}

proof fn lemma_managed_name_parses(prefix: Seq<char>, table: Seq<char>, name: Seq<char>, op: Operation)
    requires
        names_operation(stem_text(prefix, table), name, op),
    ensures
        status_operation(prefix, table, name) == Some(op),
{
    law_status_name_parsing(prefix, table, name, op);
}

/// The coverage report reflects what was created: when a table's listed
/// triggers are managed triggers of some operations, exactly those
/// operations are reported as covered.
pub proof fn law_coverage_reports_created(
    prefix: Seq<char>,
    table: Seq<char>,
    triggers: Seq<ManagedTrigger>,
    ops: Seq<Operation>,
    op: Operation,
)
    requires
        lists_managed(prefix, table, triggers, ops),
    ensures
        covered(prefix, table, triggers, op) <==> ops.contains(op),
{
    if ops.contains(op) {
        let k = choose|k: int| 0 <= k < ops.len() && ops[k] == op;
        assert(triggers[k].table@ == table);
        lemma_managed_name_parses(prefix, table, triggers[k].name@, op);
        assert(covers(prefix, table, triggers[k], op));
    }
    if covered(prefix, table, triggers, op) {
        let k = choose|k: int| 0 <= k < triggers.len() && covers(prefix, table, #[trigger] triggers[k], op);
        assert(triggers[k].table@ == table);
        lemma_managed_name_parses(prefix, table, triggers[k].name@, ops[k]);
        assert(ops[k] == op);
    }
}

/// A table and its coverage, as one line of the report.
#[derive(Debug, Clone)]
pub struct StatusRow {
    pub table: String,
    pub status: TableStatus,
}

pub open spec fn yes_no_text(value: bool) -> Seq<char> {
    if value {
        "yes"@
    } else {
        "no"@
    }
}

pub fn yes_no(value: bool) -> (res: &'static str)
    ensures
        res@ == yes_no_text(value),
{
    if value {
        "yes"
    } else {
        "no"
    }
}

/// The length in bytes of a text's UTF-8 form (`str::len`).
pub open spec fn byte_len(s: Seq<char>) -> nat {
    encode_utf8(s).len()
}

/// The width of the table column: the longest table name in bytes, and at
/// least the width of the heading `TABLE`.
pub open spec fn status_table_width(rows: Seq<StatusRow>) -> nat
    decreases rows.len(),
{
    if rows.len() == 0 {
        5
    } else {
        let w = status_table_width(rows.drop_last());
        let l = byte_len(rows.last().table@);
        if l > w {
            l
        } else {
            w
        }
    }
}

/// A column after the first: two spaces, then the text left-aligned in
/// six characters.
pub open spec fn cell(text: Seq<char>) -> Seq<char> {
    "  "@ + pad_end(text, 6)
}

pub open spec fn status_line(table: Seq<char>, s: TableStatus, width: nat) -> Seq<char> {
    pad_end(table, width) + cell(yes_no_text(s.insert)) + cell(yes_no_text(s.update)) + cell(
        yes_no_text(s.delete),
    ) + "\n"@
}

pub open spec fn status_heading(width: nat) -> Seq<char> {
    pad_end("TABLE"@, width) + cell("INSERT"@) + cell("UPDATE"@) + cell("DELETE"@) + "\n"@
}

fn push_cell(out: &mut String, text: &str)
    ensures
        final(out)@ == old(out)@ + cell(text@),
{
    push_text(out, "  ");
    push_padded_end(out, text, 6);
    assert(old(out)@ + "  "@ + pad_end(text@, 6) =~= old(out)@ + cell(text@));
}

pub open spec fn status_lines(rows: Seq<StatusRow>, width: nat) -> Seq<char>
    decreases rows.len(),
{
    if rows.len() == 0 {
        Seq::empty()
    } else {
        status_lines(rows.drop_last(), width) + status_line(
            rows.last().table@,
            rows.last().status,
            width,
        )
    }
}

/// The coverage report: a title naming the database, a blank line, a
/// heading, and one line per table, each column left-aligned.
pub open spec fn status_report(db: Seq<char>, rows: Seq<StatusRow>) -> Seq<char> {
    "Trigger status for "@ + db + "\n\n"@ + status_heading(status_table_width(rows))
        + status_lines(rows, status_table_width(rows))
}

fn push_status_line(out: &mut String, table: &str, status: TableStatus, width: usize)
    ensures
        final(out)@ == old(out)@ + status_line(table@, status, width as nat),
{
    let ghost s0 = old(out)@;
    push_padded_end(out, table, width);
    let ghost s1 = out@;
    push_cell(out, yes_no(status.insert));
    let ghost s2 = out@;
    push_cell(out, yes_no(status.update));
    let ghost s3 = out@;
    push_cell(out, yes_no(status.delete));
    let ghost s4 = out@;
    push_text(out, "\n");
    assert(out@ =~= s0 + status_line(table@, status, width as nat));
}

/// The coverage report for `rows` (see `status_report`).
pub fn render_trigger_status(db: &str, rows: &[StatusRow]) -> (res: String)
    ensures
        res@ == status_report(db@, rows@),
{
    let n = rows.len();
    let mut width: usize = 5;
    for i in 0..n
        invariant
            n == rows@.len(),
            width == status_table_width(rows@.take(i as int)),
    {
        let l = rows[i].table.as_str().as_bytes().len();
        assert(rows@.take(i + 1).drop_last() =~= rows@.take(i as int));
        if l > width {
            width = l;
        }
    }
    assert(rows@.take(n as int) =~= rows@);
    let mut out = String::new();
    push_text(&mut out, "Trigger status for ");
    push_text(&mut out, db);
    push_text(&mut out, "\n\n");
    let ghost title = out@;
    push_padded_end(&mut out, "TABLE", width);
    push_cell(&mut out, "INSERT");
    push_cell(&mut out, "UPDATE");
    push_cell(&mut out, "DELETE");
    push_text(&mut out, "\n");
    assert(out@ =~= title + status_heading(width as nat));
    let ghost head = out@;
    for i in 0..n
        invariant
            n == rows@.len(),
            out@ == head + status_lines(rows@.take(i as int), width as nat),
    {
        push_status_line(&mut out, rows[i].table.as_str(), rows[i].status, width);
        assert(rows@.take(i + 1).drop_last() =~= rows@.take(i as int));
    }
    out
}

/// The coverage of `table` among the listed triggers.
pub open spec fn coverage(prefix: Seq<char>, table: Seq<char>, triggers: Seq<ManagedTrigger>) -> TableStatus {
    TableStatus {
        insert: covered(prefix, table, triggers, Operation::Insert),
        update: covered(prefix, table, triggers, Operation::Update),
        delete: covered(prefix, table, triggers, Operation::Delete),
    }
}

/// One report row per table, in the given order.
pub open spec fn status_rows(prefix: Seq<char>, tables: Seq<String>, triggers: Seq<ManagedTrigger>) -> Seq<
    StatusRow,
> {
    tables.map_values(|t: String| StatusRow { table: t, status: coverage(prefix, t@, triggers) })
}

/// What the coverage command prints: a notice when there is no table to
/// report, otherwise the report of every table.
pub open spec fn status_output(
    db: Seq<char>,
    prefix: Seq<char>,
    tables: Seq<String>,
    triggers: Seq<ManagedTrigger>,
) -> Seq<char> {
    if tables.len() == 0 {
        "No matching tables found.\n"@
    } else {
        status_report(db, status_rows(prefix, tables, triggers))
    }
}

/// The tables a coverage report names: `None` when none are named, so
/// that every table of the database is reported; otherwise the named
/// tables, each once, in the order first named.
pub fn named_tables(tables: Vec<String>) -> (res: Option<Vec<String>>)
    ensures
        tables@.len() == 0 ==> res is None,
        tables@.len() > 0 ==> (res matches Some(v) && texts(v@) == dedup(texts(tables@))),
{
    if tables.len() == 0 {
        None
    } else {
        Some(unique_tables(tables))
    }
}

/// The text the coverage command prints for `tables`, reading their
/// coverage off the listed triggers.
pub fn trigger_status_output(
    db: &str,
    prefix: &str,
    tables: &[String],
    triggers: &[ManagedTrigger],
) -> (res: String)
    ensures
        res@ == status_output(db@, prefix@, tables@, triggers@),
{
    if tables.len() == 0 {
        let mut out = String::new();
        push_text(&mut out, "No matching tables found.\n");
        return out;
    }
    let mut rows: Vec<StatusRow> = Vec::new();
    let n = tables.len();
    for i in 0..n
        invariant
            n == tables@.len(),
            rows@ == status_rows(prefix@, tables@.take(i as int), triggers@),
    {
        let status = TableStatus::from_triggers(prefix, tables[i].as_str(), triggers);
        let table = tables[i].clone();
        assert(status == coverage(prefix@, tables@[i as int]@, triggers@));
        rows.push(StatusRow { table, status });
        assert(status_rows(prefix@, tables@.take(i + 1), triggers@) =~= status_rows(
            prefix@,
            tables@.take(i as int),
            triggers@,
        ).push(rows@.last()));
    }
    assert(tables@.take(n as int) =~= tables@);
    render_trigger_status(db, &rows)
}

// ---------------------------------------------------------------------
// Plan text and messages
// ---------------------------------------------------------------------

/// What printing a plan writes: the statements separated by blank lines,
/// each followed by a line break; nothing for an empty plan.
pub open spec fn statements_text(statements: Seq<Seq<char>>) -> Seq<char> {
    if statements.len() == 0 {
        Seq::empty()
    } else {
        join(statements, "\n\n"@) + "\n"@
    }
}

/// What a plan file holds: the statements separated by blank lines, and a
/// final line break.
pub open spec fn plan_file_text(statements: Seq<Seq<char>>) -> Seq<char> {
    join(statements, "\n\n"@) + "\n"@
}

fn push_joined(out: &mut String, items: &[String], sep: &str)
    ensures
        final(out)@ == old(out)@ + join(texts(items@), sep@),
{
    let ghost start = out@;
    let n = items.len();
    for i in 0..n
        invariant
            n == items@.len(),
            out@ == start + join(texts(items@).take(i as int), sep@),
    {
        if i > 0 {
            push_text(out, sep);
        }
        push_text(out, items[i].as_str());
        proof {
            let t = texts(items@).take(i + 1);
            assert(t.drop_last() =~= texts(items@).take(i as int));
            assert(t.last() == items@[i as int]@);
            if i == 0 {
                assert(texts(items@).take(0) =~= Seq::<Seq<char>>::empty());
            }
        }
    }
    assert(texts(items@).take(n as int) =~= texts(items@));
}

/// The text printed for a plan.
pub fn render_statements(statements: &[String]) -> (res: String)
    ensures
        res@ == statements_text(texts(statements@)),
{
    let mut out = String::new();
    if statements.len() == 0 {
        return out;
    }
    push_joined(&mut out, statements, "\n\n");
    push_text(&mut out, "\n");
    out
}

/// The contents written to a plan file.
pub fn plan_file_contents(plan: &ExecutionPlan) -> (res: String)
    ensures
        res@ == plan_file_text(plan@),
{
    let mut out = String::new();
    push_joined(&mut out, plan.statements(), "\n\n");
    push_text(&mut out, "\n");
    out
}

pub open spec fn quoted_tables(tables: Seq<String>) -> Seq<Seq<char>> {
    tables.map_values(|t: String| "'"@ + t@ + "'"@)
}

/// How a run names the tables it covered: `table 'a'` for one table,
/// otherwise `tables 'a', 'b'`.
pub open spec fn table_targets_text(tables: Seq<String>) -> Seq<char> {
    if tables.len() == 1 {
        "table '"@ + tables[0]@ + "'"@
    } else {
        "tables "@ + join(quoted_tables(tables), ", "@)
    }
}

pub fn format_table_targets(tables: &[String]) -> (res: String)
    ensures
        res@ == table_targets_text(tables@),
{
    let mut out = String::new();
    if tables.len() == 1 {
        push_text(&mut out, "table '");
        push_text(&mut out, tables[0].as_str());
        push_text(&mut out, "'");
        return out;
    }
    push_text(&mut out, "tables ");
    let ghost start = out@;
    let n = tables.len();
    for i in 0..n
        invariant
            n == tables@.len(),
            out@ == start + join(quoted_tables(tables@).take(i as int), ", "@),
    {
        if i > 0 {
            push_text(&mut out, ", ");
        }
        let ghost before = out@;
        push_text(&mut out, "'");
        push_text(&mut out, tables[i].as_str());
        push_text(&mut out, "'");
        proof {
            let t = quoted_tables(tables@).take(i + 1);
            assert(t.drop_last() =~= quoted_tables(tables@).take(i as int));
            assert(t.last() == "'"@ + tables@[i as int]@ + "'"@);
            assert(out@ =~= before + ("'"@ + tables@[i as int]@ + "'"@));
            if i == 0 {
                assert(quoted_tables(tables@).take(0) =~= Seq::<Seq<char>>::empty());
            }
        }
    }
    assert(quoted_tables(tables@).take(n as int) =~= quoted_tables(tables@));
    out
}

/// The message after `--apply`: which tables were changed, or that none
/// needed a change.
pub open spec fn apply_message_text(tables: Seq<String>, changed: bool) -> Seq<char> {
    if changed {
        "Applied trigger SQL for "@ + table_targets_text(tables) + "."@
    } else {
        "No trigger changes were needed for "@ + table_targets_text(tables) + "."@
    }
}

pub fn apply_message(tables: &[String], plan: &ExecutionPlan) -> (res: String)
    ensures
        res@ == apply_message_text(tables@, plan@.len() > 0),
{
    let targets = format_table_targets(tables);
    let mut out = String::new();
    if plan.is_empty() {
        push_text(&mut out, "No trigger changes were needed for ");
    } else {
        push_text(&mut out, "Applied trigger SQL for ");
    }
    push_text(&mut out, targets.as_str());
    push_text(&mut out, ".");
    out
}

// ---------------------------------------------------------------------
// The layout of the coverage report
// ---------------------------------------------------------------------

/// A text takes at least one UTF-8 byte per character.
pub proof fn lemma_byte_len_at_least_len(t: Seq<char>)
    ensures
        byte_len(t) >= t.len(),
    decreases t.len(),
{
    if t.len() > 0 {
        lemma_byte_len_at_least_len(t.drop_first());
        assert(encode_scalar(t[0] as u32).len() >= 1);
    }
}

/// The table column of the coverage report is as wide as the longest
/// table name in bytes, and at least as wide as the heading `TABLE`.
pub proof fn law_status_table_width_is_widest(rows: Seq<StatusRow>)
    ensures
        status_table_width(rows) >= 5,
        forall|k: int|
            0 <= k < rows.len() ==> status_table_width(rows) >= byte_len((#[trigger] rows[k]).table@),
        status_table_width(rows) == 5 || exists|k: int|
            0 <= k < rows.len() && status_table_width(rows) == byte_len((#[trigger] rows[k]).table@),
    decreases rows.len(),
{
    if rows.len() > 0 {
        let d = rows.drop_last();
        law_status_table_width_is_widest(d);
        assert forall|k: int| 0 <= k < rows.len() implies status_table_width(rows) >= byte_len(
            (#[trigger] rows[k]).table@,
        ) by {
            if k < d.len() {
                assert(d[k] == rows[k]);
            }
        }
        if status_table_width(rows) != 5 {
            if status_table_width(rows) == status_table_width(d) {
                let k = choose|k: int|
                    0 <= k < d.len() && status_table_width(d) == byte_len((#[trigger] d[k]).table@);
                assert(d[k] == rows[k]);
            } else {
                assert(rows[rows.len() - 1] == rows.last());
            }
        }
    }
}

/// A coverage cell as it is printed: two spaces and the word, padded to six.
proof fn lemma_cells()
    ensures
        cell(yes_no_text(true)) == "  yes   "@,
        cell(yes_no_text(false)) == "  no    "@,
        cell("INSERT"@) == "  INSERT"@,
        cell("UPDATE"@) == "  UPDATE"@,
        cell("DELETE"@) == "  DELETE"@,
        "\n"@.len() == 1,
{
    reveal_strlit("yes");
    reveal_strlit("no");
    reveal_strlit("  ");
    reveal_strlit("  yes   ");
    reveal_strlit("  no    ");
    reveal_strlit("INSERT");
    reveal_strlit("UPDATE");
    reveal_strlit("DELETE");
    reveal_strlit("  INSERT");
    reveal_strlit("  UPDATE");
    reveal_strlit("  DELETE");
    reveal_strlit("\n");
    assert(cell(yes_no_text(true)) =~= "  yes   "@);
    assert(cell(yes_no_text(false)) =~= "  no    "@);
    assert(cell("INSERT"@) =~= "  INSERT"@);
    assert(cell("UPDATE"@) =~= "  UPDATE"@);
    assert(cell("DELETE"@) =~= "  DELETE"@);
}

/// The printed cell of one coverage flag.
pub open spec fn flag_cell(covered: bool) -> Seq<char> {
    if covered {
        "  yes   "@
    } else {
        "  no    "@
    }
}

proof fn lemma_line_layout(table: Seq<char>, st: TableStatus, w: nat)
    requires
        table.len() <= w,
    ensures
        status_line(table, st, w).len() == w + 25,
        status_line(table, st, w).subrange(0, w as int) == pad_end(table, w),
        status_line(table, st, w).subrange(w as int, w as int + 8) == flag_cell(st.insert),
        status_line(table, st, w).subrange(w as int + 8, w as int + 16) == flag_cell(st.update),
        status_line(table, st, w).subrange(w as int + 16, w as int + 24) == flag_cell(st.delete),
        status_line(table, st, w)[w as int + 24] == '\n',
{
    lemma_cells();
    reveal_strlit("\n");
    reveal_strlit("  yes   ");
    reveal_strlit("  no    ");
    let l = status_line(table, st, w);
    let a = pad_end(table, w);
    assert(a.len() == w);
    let (x, y, z) = (
        cell(yes_no_text(st.insert)),
        cell(yes_no_text(st.update)),
        cell(yes_no_text(st.delete)),
    );
    assert(x == flag_cell(st.insert));
    assert(y == flag_cell(st.update));
    assert(z == flag_cell(st.delete));
    assert(l == a + x + y + z + "\n"@);
    assert(l.subrange(0, w as int) =~= a);
    assert(l.subrange(w as int, w as int + 8) =~= x);
    assert(l.subrange(w as int + 8, w as int + 16) =~= y);
    assert(l.subrange(w as int + 16, w as int + 24) =~= z);
}

proof fn lemma_heading_layout(w: nat)
    requires
        5 <= w,
    ensures
        status_heading(w).len() == w + 25,
        status_heading(w).subrange(w as int, w as int + 8) == "  INSERT"@,
        status_heading(w).subrange(w as int + 8, w as int + 16) == "  UPDATE"@,
        status_heading(w).subrange(w as int + 16, w as int + 24) == "  DELETE"@,
{
    lemma_cells();
    reveal_strlit("TABLE");
    reveal_strlit("  INSERT");
    reveal_strlit("  UPDATE");
    reveal_strlit("  DELETE");
    let h = status_heading(w);
    let a = pad_end("TABLE"@, w);
    assert(a.len() == w);
    assert(h == a + "  INSERT"@ + "  UPDATE"@ + "  DELETE"@ + "\n"@);
    assert(h.subrange(w as int, w as int + 8) =~= "  INSERT"@);
    assert(h.subrange(w as int + 8, w as int + 16) =~= "  UPDATE"@);
    assert(h.subrange(w as int + 16, w as int + 24) =~= "  DELETE"@);
}

proof fn lemma_lines_len(rows: Seq<StatusRow>, w: nat)
    requires
        forall|j: int| 0 <= j < rows.len() ==> (#[trigger] rows[j]).table@.len() <= w,
    ensures
        status_lines(rows, w).len() == rows.len() * (w + 25),
    decreases rows.len(),
{
    let n = rows.len();
    if n == 0 {
        assert(n * (w + 25) == 0);
    } else {
        let d = rows.drop_last();
        assert forall|j: int| 0 <= j < d.len() implies (#[trigger] d[j]).table@.len() <= w by {
            assert(d[j] == rows[j]);
        }
        lemma_lines_len(d, w);
        assert(rows[n - 1] == rows.last());
        lemma_line_layout(rows.last().table@, rows.last().status, w);
        let m: int = d.len() as int;
        let lw: int = w as int + 25;
        assert(m * lw + lw == (m + 1) * lw) by (nonlinear_arith);
    }
}

proof fn lemma_lines_at(rows: Seq<StatusRow>, w: nat, k: int)
    requires
        forall|j: int| 0 <= j < rows.len() ==> (#[trigger] rows[j]).table@.len() <= w,
        0 <= k < rows.len(),
    ensures
        k * (w + 25) + (w + 25) <= status_lines(rows, w).len(),
        status_lines(rows, w).subrange(k * (w + 25), k * (w + 25) + (w + 25)) == status_line(
            rows[k].table@,
            rows[k].status,
            w,
        ),
    decreases rows.len(),
{
    let n = rows.len();
    let d = rows.drop_last();
    let lw: int = w as int + 25;
    assert forall|j: int| 0 <= j < d.len() implies (#[trigger] d[j]).table@.len() <= w by {
        assert(d[j] == rows[j]);
    }
    lemma_lines_len(d, w);
    assert(rows[n - 1] == rows.last());
    lemma_line_layout(rows.last().table@, rows.last().status, w);
    let prev = status_lines(d, w);
    let line = status_line(rows.last().table@, rows.last().status, w);
    assert(status_lines(rows, w) == prev + line);
    let m: int = d.len() as int;
    if k < n - 1 {
        lemma_lines_at(d, w, k);
        assert(d[k] == rows[k]);
        assert(k * lw + lw <= prev.len());
        assert(status_lines(rows, w).subrange(k * lw, k * lw + lw) =~= prev.subrange(
            k * lw,
            k * lw + lw,
        ));
    } else {
        assert(k == m);
        assert(prev.len() == m * lw);
        assert(status_lines(rows, w).subrange(k * lw, k * lw + lw) =~= line);
    }
}

/// The coverage report lines up its columns: the report is the title, the
/// heading and one line per row, in order, all of one length. In the
/// heading the columns after the table column read `INSERT`, `UPDATE` and
/// `DELETE`; in row `k`'s line the same columns hold `yes` or `no` for that
/// table's insert, update and delete coverage, and its table column holds
/// the table name, which always fits.
pub proof fn law_status_report_columns(db: Seq<char>, rows: Seq<StatusRow>, k: int)
    requires
        0 <= k < rows.len(),
    ensures
        ({
            let w = status_table_width(rows);
            let title = "Trigger status for "@ + db + "\n\n"@;
            let h = status_heading(w);
            let lines = status_lines(rows, w);
            let line = lines.subrange(k * (w + 25), k * (w + 25) + (w + 25));
            &&& status_report(db, rows) == title + h + lines
            &&& lines.len() == rows.len() * (w + 25)
            &&& h.len() == w + 25
            &&& h.subrange(w as int, w as int + 8) == "  INSERT"@
            &&& h.subrange(w as int + 8, w as int + 16) == "  UPDATE"@
            &&& h.subrange(w as int + 16, w as int + 24) == "  DELETE"@
            &&& line.subrange(0, w as int) == pad_end(rows[k].table@, w)
            &&& line.subrange(w as int, w as int + 8) == flag_cell(rows[k].status.insert)
            &&& line.subrange(w as int + 8, w as int + 16) == flag_cell(rows[k].status.update)
            &&& line.subrange(w as int + 16, w as int + 24) == flag_cell(rows[k].status.delete)
            &&& line[w as int + 24] == '\n'
        }),
{
    let w = status_table_width(rows);
    law_status_table_width_is_widest(rows);
    assert forall|j: int| 0 <= j < rows.len() implies (#[trigger] rows[j]).table@.len() <= w by {
        lemma_byte_len_at_least_len(rows[j].table@);
    }
    lemma_lines_len(rows, w);
    lemma_lines_at(rows, w, k);
    lemma_heading_layout(w);
    lemma_line_layout(rows[k].table@, rows[k].status, w);
}

} // verus!
