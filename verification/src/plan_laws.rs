//! What the plans promise across calls, read off the trigger rows a
//! database reports: refreshing right after creating, or after any state in
//! which the selected triggers are settled, changes nothing; a settled
//! trigger is left alone; each operation's refresh steps follow from the
//! rows; removing right after creating drops exactly the created triggers;
//! and every statement acts on a trigger of a selected operation.

use vstd::prelude::*;
use crate::names::{law_trigger_name_round_trip, parsed_operation, Operation};
use crate::sql::normalized;
use crate::trigger::{
    create_plan, create_trigger_text, log_table_sql_text, current_trigger, delete_plan, drop_trigger_text, is_current, managed_name, managed_sql,
    operation_drops, recognized_triggers, refresh_all, refresh_steps, removal_steps, stale_drops,
    update_plan, PlanInputs, TriggerView,
};

verus! {

/// The trigger rows a database reports after the creation plan of `ops`
/// ran: each operation's managed name with a definition `sqls[k]` that the
/// database may have reformatted, as long as it matches the created one.
pub open spec fn created_rows(p: PlanInputs, ops: Seq<Operation>, sqls: Seq<Seq<char>>) -> Seq<
    (Seq<char>, Seq<char>),
> {
    Seq::new(ops.len(), |k: int| (managed_name(p, ops[k]), sqls[k]))
}

pub open spec fn stores_created(p: PlanInputs, ops: Seq<Operation>, sqls: Seq<Seq<char>>) -> bool {
    &&& sqls.len() == ops.len()
    &&& forall|k: int|
        0 <= k < ops.len() ==> normalized(#[trigger] sqls[k]) == normalized(managed_sql(p, ops[k]))
}

pub open spec fn created_views(p: PlanInputs, ops: Seq<Operation>, sqls: Seq<Seq<char>>) -> Seq<
    TriggerView,
> {
    Seq::new(ops.len(), |k: int| (managed_name(p, ops[k]), sqls[k], ops[k]))
}

proof fn lemma_recognize_created(p: PlanInputs, ops: Seq<Operation>, sqls: Seq<Seq<char>>)
    requires
        sqls.len() == ops.len(),
    ensures
        recognized_triggers(p.prefix, p.table, created_rows(p, ops, sqls)) == created_views(
            p,
            ops,
            sqls,
        ),
    decreases ops.len(),
{
    let rows = created_rows(p, ops, sqls);
    if ops.len() == 0 {
        assert(created_views(p, ops, sqls) =~= Seq::<TriggerView>::empty());
    } else {
        let n = ops.len() - 1;
        lemma_recognize_created(p, ops.drop_last(), sqls.drop_last());
        assert(rows.drop_last() =~= created_rows(p, ops.drop_last(), sqls.drop_last()));
        law_trigger_name_round_trip(p.prefix, p.table, ops[n], Seq::empty());
        assert(created_views(p, ops, sqls) =~= created_views(
            p,
            ops.drop_last(),
            sqls.drop_last(),
        ).push((managed_name(p, ops[n]), sqls[n], ops[n])));
    }
}

proof fn lemma_no_stale(ex: Seq<TriggerView>, op: Operation, name: Seq<char>)
    requires
        forall|k: int| 0 <= k < ex.len() && (#[trigger] ex[k]).2 == op ==> ex[k].0 == name,
    ensures
        stale_drops(ex, op, name) == Seq::<Seq<char>>::empty(),
    decreases ex.len(),
{
    if ex.len() > 0 {
        let d = ex.drop_last();
        assert forall|k: int| 0 <= k < d.len() && (#[trigger] d[k]).2 == op implies d[k].0
            == name by {
            assert(d[k] == ex[k]);
        }
        lemma_no_stale(d, op, name);
        assert(ex.last() == ex[ex.len() - 1]);
    }
}

proof fn lemma_current_found(ex: Seq<TriggerView>, op: Operation, name: Seq<char>, k: int)
    requires
        0 <= k < ex.len(),
        ex[k].2 == op,
        ex[k].0 == name,
    ensures
        current_trigger(ex, op, name) matches Some(t) && exists|m: int|
            0 <= m < ex.len() && ex[m] == t,
    decreases ex.len(),
{
    let d = ex.drop_last();
    if k < ex.len() - 1 {
        assert(d[k] == ex[k]);
        lemma_current_found(d, op, name, k);
        let t = current_trigger(d, op, name)->0;
        let m = choose|m: int| 0 <= m < d.len() && d[m] == t;
        assert(ex[m] == t);
    } else {
        match current_trigger(d, op, name) {
            Some(t) => {
                lemma_current_in(d, op, name);
                let m = choose|m: int| 0 <= m < d.len() && d[m] == t;
                assert(ex[m] == t);
            },
            None => {
                assert(ex[ex.len() - 1] == ex.last());
            },
        }
    }
}

proof fn lemma_current_in(ex: Seq<TriggerView>, op: Operation, name: Seq<char>)
    ensures
        current_trigger(ex, op, name) matches Some(t) ==> (t.2 == op && t.0 == name && exists|m: int|
            0 <= m < ex.len() && ex[m] == t),
    decreases ex.len(),
{
    if ex.len() > 0 {
        let d = ex.drop_last();
        lemma_current_in(d, op, name);
        match current_trigger(d, op, name) {
            Some(t) => {
                let m = choose|m: int| 0 <= m < d.len() && d[m] == t;
                assert(ex[m] == t);
            },
            None => {
                assert(ex[ex.len() - 1] == ex.last());
            },
        }
    }
}

proof fn lemma_created_current(
    p: PlanInputs,
    ops: Seq<Operation>,
    sqls: Seq<Seq<char>>,
    k: int,
)
    requires
        stores_created(p, ops, sqls),
        0 <= k < ops.len(),
    ensures
        is_current(p, created_views(p, ops, sqls), ops[k]),
        refresh_steps(p, created_views(p, ops, sqls), ops[k]) == Seq::<Seq<char>>::empty(),
{
    let ex = created_views(p, ops, sqls);
    let o = ops[k];
    lemma_current_found(ex, o, managed_name(p, o), k);
    lemma_current_in(ex, o, managed_name(p, o));
    let t = current_trigger(ex, o, managed_name(p, o))->0;
    let m = choose|m: int| 0 <= m < ex.len() && ex[m] == t;
    assert(ex[m] == (managed_name(p, ops[m]), sqls[m], ops[m]));
    assert(normalized(sqls[m]) == normalized(managed_sql(p, ops[m])));
    assert forall|j: int| 0 <= j < ex.len() && (#[trigger] ex[j]).2 == o implies ex[j].0
        == managed_name(p, o) by {
        assert(ex[j] == (managed_name(p, ops[j]), sqls[j], ops[j]));
    }
    lemma_no_stale(ex, o, managed_name(p, o));
}

proof fn lemma_refresh_nothing(
    p: PlanInputs,
    ops: Seq<Operation>,
    sqls: Seq<Seq<char>>,
    sel: Seq<Operation>,
)
    requires
        stores_created(p, ops, sqls),
        forall|i: int| 0 <= i < sel.len() ==> ops.contains(#[trigger] sel[i]),
    ensures
        refresh_all(p, created_views(p, ops, sqls), sel) == Seq::<Seq<char>>::empty(),
    decreases sel.len(),
{
    if sel.len() > 0 {
        let d = sel.drop_last();
        assert forall|i: int| 0 <= i < d.len() implies ops.contains(#[trigger] d[i]) by {
            assert(d[i] == sel[i]);
        }
        lemma_refresh_nothing(p, ops, sqls, d);
        assert(ops.contains(sel[sel.len() - 1]));
        let k = choose|k: int| 0 <= k < ops.len() && ops[k] == sel.last();
        lemma_created_current(p, ops, sqls, k);
        assert(Seq::<Seq<char>>::empty() + Seq::<Seq<char>>::empty() =~= Seq::<
            Seq<char>,
        >::empty());
    }
}

/// Refreshing right after creating changes nothing: once the triggers of
/// `ops` exist under their managed names with the created definitions
/// (up to normalisation), the refresh plan for those operations, computed
/// from the rows the database reports, is empty.
pub proof fn law_refresh_after_create_changes_nothing(
    p: PlanInputs,
    ops: Seq<Operation>,
    sqls: Seq<Seq<char>>,
)
    requires
        stores_created(p, ops, sqls),
    ensures
        update_plan(p, recognized_triggers(p.prefix, p.table, created_rows(p, ops, sqls)), ops)
            == Seq::<Seq<char>>::empty(),
{
    lemma_recognize_created(p, ops, sqls);
    assert forall|i: int| 0 <= i < ops.len() implies ops.contains(#[trigger] ops[i]) by {}
    lemma_refresh_nothing(p, ops, sqls, ops);
}

proof fn lemma_single_drop(p: PlanInputs, ops: Seq<Operation>, sqls: Seq<Seq<char>>, k: int)
    requires
        sqls.len() == ops.len(),
        ops.no_duplicates(),
        0 <= k < ops.len(),
    ensures
        removal_steps(p, created_views(p, ops, sqls), ops[k]) == seq![
            drop_trigger_text(managed_name(p, ops[k])),
        ],
{
    let ex = created_views(p, ops, sqls);
    lemma_drops_prefix(p, ops, sqls, ops[k], ex.len() as int, k);
    assert(ex.take(ex.len() as int) =~= ex);
}

proof fn lemma_drops_prefix(
    p: PlanInputs,
    ops: Seq<Operation>,
    sqls: Seq<Seq<char>>,
    o: Operation,
    n: int,
    k: int,
)
    requires
        sqls.len() == ops.len(),
        ops.no_duplicates(),
        0 <= k < ops.len(),
        ops[k] == o,
        0 <= n <= ops.len(),
    ensures
        operation_drops(created_views(p, ops, sqls).take(n), o) == (if k < n {
            seq![drop_trigger_text(managed_name(p, o))]
        } else {
            Seq::<Seq<char>>::empty()
        }),
    decreases n,
{
    let ex = created_views(p, ops, sqls);
    if n > 0 {
        lemma_drops_prefix(p, ops, sqls, o, n - 1, k);
        assert(ex.take(n).drop_last() =~= ex.take(n - 1));
        assert(ex.take(n).last() == ex[n - 1]);
        assert(ex[n - 1] == (managed_name(p, ops[n - 1]), sqls[n - 1], ops[n - 1]));
        if n - 1 != k {
            assert(ops[n - 1] != ops[k]);
        } else {
            assert(Seq::<Seq<char>>::empty().push(drop_trigger_text(managed_name(p, o))) =~= seq![
                drop_trigger_text(managed_name(p, o)),
            ]);
        }
    } else {
        assert(ex.take(0) =~= Seq::<TriggerView>::empty());
    }
}

pub open spec fn managed_drops(p: PlanInputs, ops: Seq<Operation>) -> Seq<Seq<char>> {
    ops.map_values(|op: Operation| drop_trigger_text(managed_name(p, op)))
}

proof fn lemma_delete_created(
    p: PlanInputs,
    ops: Seq<Operation>,
    sqls: Seq<Seq<char>>,
    n: int,
)
    requires
        sqls.len() == ops.len(),
        ops.no_duplicates(),
        0 <= n <= ops.len(),
    ensures
        delete_plan(p, created_views(p, ops, sqls), ops.take(n)) == managed_drops(p, ops.take(n)),
    decreases n,
{
    if n > 0 {
        lemma_delete_created(p, ops, sqls, n - 1);
        assert(ops.take(n).drop_last() =~= ops.take(n - 1));
        lemma_single_drop(p, ops, sqls, n - 1);
        assert(managed_drops(p, ops.take(n)) =~= managed_drops(p, ops.take(n - 1)) + seq![
            drop_trigger_text(managed_name(p, ops[n - 1])),
        ]);
    } else {
        assert(managed_drops(p, ops.take(0)) =~= Seq::<Seq<char>>::empty());
    }
}

/// Removing right after creating drops exactly the created triggers: for
/// distinct operations, the removal plan computed from the rows the
/// database reports is one drop of each managed name, in the order of the
/// operations.
pub proof fn law_delete_after_create_drops_created(
    p: PlanInputs,
    ops: Seq<Operation>,
    sqls: Seq<Seq<char>>,
)
    requires
        sqls.len() == ops.len(),
        ops.no_duplicates(),
    ensures
        delete_plan(p, recognized_triggers(p.prefix, p.table, created_rows(p, ops, sqls)), ops)
            == managed_drops(p, ops),
{
    lemma_recognize_created(p, ops, sqls);
    lemma_delete_created(p, ops, sqls, ops.len() as int);
    assert(ops.take(ops.len() as int) =~= ops);
}


// ---------------------------------------------------------------------
// The refresh plan read off the trigger rows of a table
// ---------------------------------------------------------------------

/// The first row `(name, sql)` named `name`.
pub open spec fn first_row_named(rows: Seq<(Seq<char>, Seq<char>)>, name: Seq<char>) -> Option<
    (Seq<char>, Seq<char>),
>
    decreases rows.len(),
{
    if rows.len() == 0 {
        None
    } else {
        match first_row_named(rows.drop_last(), name) {
            Some(r) => Some(r),
            None => if rows.last().0 == name {
                Some(rows.last())
            } else {
                None
            },
        }
    }
}

/// Whether the first row under the managed name of `op` has the desired
/// definition, up to normalisation.
pub open spec fn row_current(p: PlanInputs, rows: Seq<(Seq<char>, Seq<char>)>, op: Operation) -> bool {
    match first_row_named(rows, managed_name(p, op)) {
        Some(r) => normalized(r.1) == normalized(managed_sql(p, op)),
        None => false,
    }
}

/// Drops of the rows whose names read as `op` but are not its managed name,
/// in row order.
pub open spec fn stale_row_drops(p: PlanInputs, rows: Seq<(Seq<char>, Seq<char>)>, op: Operation) -> Seq<
    Seq<char>,
>
    decreases rows.len(),
{
    if rows.len() == 0 {
        Seq::empty()
    } else {
        let rest = stale_row_drops(p, rows.drop_last(), op);
        let r = rows.last();
        if parsed_operation(p.prefix, p.table, r.0) == Some(op) && r.0 != managed_name(p, op) {
            rest.push(drop_trigger_text(r.0))
        } else {
            rest
        }
    }
}

proof fn lemma_managed_name_parses(p: PlanInputs, op: Operation)
    ensures
        parsed_operation(p.prefix, p.table, managed_name(p, op)) == Some(op),
{
    law_trigger_name_round_trip(p.prefix, p.table, op, Seq::empty());
}

proof fn lemma_stale_rows(p: PlanInputs, rows: Seq<(Seq<char>, Seq<char>)>, op: Operation)
    ensures
        stale_drops(recognized_triggers(p.prefix, p.table, rows), op, managed_name(p, op))
            == stale_row_drops(p, rows, op),
    decreases rows.len(),
{
    if rows.len() > 0 {
        let d = rows.drop_last();
        lemma_stale_rows(p, d, op);
        let rec = recognized_triggers(p.prefix, p.table, d);
        let r = rows.last();
        match parsed_operation(p.prefix, p.table, r.0) {
            Some(o) => {
                assert(rec.push((r.0, r.1, o)).drop_last() =~= rec);
            },
            None => {},
        }
    }
}

proof fn lemma_current_rows(p: PlanInputs, rows: Seq<(Seq<char>, Seq<char>)>, op: Operation)
    ensures
        match first_row_named(rows, managed_name(p, op)) {
            Some(r) => current_trigger(
                recognized_triggers(p.prefix, p.table, rows),
                op,
                managed_name(p, op),
            ) == Some((r.0, r.1, op)),
            None => current_trigger(
                recognized_triggers(p.prefix, p.table, rows),
                op,
                managed_name(p, op),
            ) is None,
        },
    decreases rows.len(),
{
    if rows.len() > 0 {
        let d = rows.drop_last();
        lemma_current_rows(p, d, op);
        lemma_managed_name_parses(p, op);
        let rec = recognized_triggers(p.prefix, p.table, d);
        let r = rows.last();
        match parsed_operation(p.prefix, p.table, r.0) {
            Some(o) => {
                assert(rec.push((r.0, r.1, o)).drop_last() =~= rec);
            },
            None => {},
        }
    }
}

/// How a refresh plan treats one operation, read off the table's trigger
/// rows `(name, sql)`: first a drop of every row whose name reads as the
/// operation but is not its managed name, in row order; then, unless the
/// first row under the managed name has the desired definition (up to
/// normalisation), a drop of the managed name and the creation of the
/// trigger. A refresh plan is these steps for each selected operation in
/// turn (`refresh_all`), after the statement that creates the log table.
pub proof fn law_refresh_steps_from_rows(
    p: PlanInputs,
    rows: Seq<(Seq<char>, Seq<char>)>,
    op: Operation,
)
    ensures
        refresh_steps(p, recognized_triggers(p.prefix, p.table, rows), op) == stale_row_drops(
            p,
            rows,
            op,
        ) + (if row_current(p, rows, op) {
            Seq::<Seq<char>>::empty()
        } else {
            seq![drop_trigger_text(managed_name(p, op)), managed_sql(p, op)]
        }),
{
    let ex = recognized_triggers(p.prefix, p.table, rows);
    lemma_stale_rows(p, rows, op);
    lemma_current_rows(p, rows, op);
    assert(is_current(p, ex, op) == row_current(p, rows, op));
    if row_current(p, rows, op) {
        assert(stale_row_drops(p, rows, op) + Seq::<Seq<char>>::empty() =~= stale_row_drops(
            p,
            rows,
            op,
        ));
    }
}

/// The table holds the trigger of `op` under its managed name, every row
/// whose name reads as `op` carries that name, and each such row has the
/// desired definition up to normalisation.
pub open spec fn settled(p: PlanInputs, rows: Seq<(Seq<char>, Seq<char>)>, op: Operation) -> bool {
    &&& exists|r: int| 0 <= r < rows.len() && (#[trigger] rows[r]).0 == managed_name(p, op)
    &&& forall|r: int|
        0 <= r < rows.len() && parsed_operation(p.prefix, p.table, (#[trigger] rows[r]).0) == Some(
            op,
        ) ==> rows[r].0 == managed_name(p, op) && normalized(rows[r].1) == normalized(
            managed_sql(p, op),
        )
}

proof fn lemma_first_row_named(rows: Seq<(Seq<char>, Seq<char>)>, name: Seq<char>)
    ensures
        first_row_named(rows, name) matches Some(r) ==> r.0 == name && exists|q: int|
            0 <= q < rows.len() && rows[q] == r,
        (exists|q: int| 0 <= q < rows.len() && (#[trigger] rows[q]).0 == name) ==> first_row_named(
            rows,
            name,
        ) is Some,
    decreases rows.len(),
{
    if rows.len() > 0 {
        let d = rows.drop_last();
        lemma_first_row_named(d, name);
        assert(rows[rows.len() - 1] == rows.last());
        match first_row_named(d, name) {
            Some(r) => {
                let q = choose|q: int| 0 <= q < d.len() && d[q] == r;
                assert(rows[q] == r);
            },
            None => {
                if exists|q: int| 0 <= q < rows.len() && (#[trigger] rows[q]).0 == name {
                    let q = choose|q: int| 0 <= q < rows.len() && (#[trigger] rows[q]).0 == name;
                    if q < rows.len() - 1 {
                        assert(d[q] == rows[q]);
                    }
                }
            },
        }
    }
}

proof fn lemma_settled_no_stale(p: PlanInputs, rows: Seq<(Seq<char>, Seq<char>)>, op: Operation)
    requires
        forall|r: int|
            0 <= r < rows.len() && parsed_operation(p.prefix, p.table, (#[trigger] rows[r]).0)
                == Some(op) ==> rows[r].0 == managed_name(p, op),
    ensures
        stale_row_drops(p, rows, op) == Seq::<Seq<char>>::empty(),
    decreases rows.len(),
{
    if rows.len() > 0 {
        let d = rows.drop_last();
        assert forall|r: int|
            0 <= r < d.len() && parsed_operation(p.prefix, p.table, (#[trigger] d[r]).0) == Some(
                op,
            ) implies d[r].0 == managed_name(p, op) by {
            assert(d[r] == rows[r]);
        }
        lemma_settled_no_stale(p, d, op);
        assert(rows[rows.len() - 1] == rows.last());
    }
}

proof fn lemma_settled_steps(p: PlanInputs, rows: Seq<(Seq<char>, Seq<char>)>, op: Operation)
    requires
        settled(p, rows, op),
    ensures
        refresh_steps(p, recognized_triggers(p.prefix, p.table, rows), op) == Seq::<
            Seq<char>,
        >::empty(),
{
    law_refresh_steps_from_rows(p, rows, op);
    lemma_settled_no_stale(p, rows, op);
    lemma_first_row_named(rows, managed_name(p, op));
    lemma_managed_name_parses(p, op);
    let r = first_row_named(rows, managed_name(p, op))->0;
    let q = choose|q: int| 0 <= q < rows.len() && rows[q] == r;
    assert(parsed_operation(p.prefix, p.table, rows[q].0) == Some(op));
    assert(row_current(p, rows, op));
    assert(Seq::<Seq<char>>::empty() + Seq::<Seq<char>>::empty() =~= Seq::<Seq<char>>::empty());
}

proof fn lemma_refresh_all_settled(
    p: PlanInputs,
    rows: Seq<(Seq<char>, Seq<char>)>,
    ops: Seq<Operation>,
)
    requires
        forall|i: int| 0 <= i < ops.len() ==> settled(p, rows, #[trigger] ops[i]),
    ensures
        refresh_all(p, recognized_triggers(p.prefix, p.table, rows), ops) == Seq::<
            Seq<char>,
        >::empty(),
    decreases ops.len(),
{
    if ops.len() > 0 {
        let d = ops.drop_last();
        assert forall|i: int| 0 <= i < d.len() implies settled(p, rows, #[trigger] d[i]) by {
            assert(d[i] == ops[i]);
        }
        lemma_refresh_all_settled(p, rows, d);
        assert(settled(p, rows, ops[ops.len() - 1]));
        lemma_settled_steps(p, rows, ops.last());
        assert(Seq::<Seq<char>>::empty() + Seq::<Seq<char>>::empty() =~= Seq::<
            Seq<char>,
        >::empty());
    }
}

/// Refreshing a table whose selected triggers are settled changes nothing,
/// whatever order the database lists the rows in and whatever other
/// triggers it holds: when each selected operation has its trigger under
/// the managed name with the desired definition and no other managed
/// trigger, the refresh plan is empty. This is the state that a creation
/// plan, or a refresh plan, leaves behind.
pub proof fn law_refresh_of_settled_triggers_changes_nothing(
    p: PlanInputs,
    rows: Seq<(Seq<char>, Seq<char>)>,
    ops: Seq<Operation>,
)
    requires
        forall|i: int| 0 <= i < ops.len() ==> settled(p, rows, #[trigger] ops[i]),
    ensures
        update_plan(p, recognized_triggers(p.prefix, p.table, rows), ops) == Seq::<
            Seq<char>,
        >::empty(),
{
    lemma_refresh_all_settled(p, rows, ops);
}

/// A statement acts on a trigger of `op`: it drops a trigger whose name
/// reads as `op`, or it creates the managed trigger of `op`.
pub open spec fn acts_on(p: PlanInputs, stmt: Seq<char>, op: Operation) -> bool {
    ||| exists|n: Seq<char>|
        parsed_operation(p.prefix, p.table, n) == Some(op) && stmt == #[trigger] drop_trigger_text(n)
    ||| stmt == managed_sql(p, op)
}

/// A statement acts on a trigger of one of `ops` other than `op`.
pub open spec fn acts_on_other(p: PlanInputs, stmt: Seq<char>, ops: Seq<Operation>, op: Operation) -> bool {
    exists|k: int| 0 <= k < ops.len() && ops[k] != op && acts_on(p, stmt, #[trigger] ops[k])
}

proof fn lemma_stale_rows_act(p: PlanInputs, rows: Seq<(Seq<char>, Seq<char>)>, op: Operation, i: int)
    requires
        0 <= i < stale_row_drops(p, rows, op).len(),
    ensures
        acts_on(p, stale_row_drops(p, rows, op)[i], op),
    decreases rows.len(),
{
    let d = rows.drop_last();
    let rest = stale_row_drops(p, d, op);
    if i < rest.len() {
        lemma_stale_rows_act(p, d, op, i);
    } else {
        let n = rows.last().0;
        assert(parsed_operation(p.prefix, p.table, n) == Some(op));
        assert(stale_row_drops(p, rows, op)[i] == drop_trigger_text(n));
    }
}

proof fn lemma_steps_act(p: PlanInputs, rows: Seq<(Seq<char>, Seq<char>)>, op: Operation, j: int)
    requires
        0 <= j < refresh_steps(p, recognized_triggers(p.prefix, p.table, rows), op).len(),
    ensures
        acts_on(p, refresh_steps(p, recognized_triggers(p.prefix, p.table, rows), op)[j], op),
{
    law_refresh_steps_from_rows(p, rows, op);
    let stale = stale_row_drops(p, rows, op);
    if j < stale.len() {
        lemma_stale_rows_act(p, rows, op, j);
    } else if j == stale.len() {
        lemma_managed_name_parses(p, op);
        let n = managed_name(p, op);
        assert(refresh_steps(p, recognized_triggers(p.prefix, p.table, rows), op)[j]
            == drop_trigger_text(n));
    }
}

proof fn lemma_refresh_all_member(p: PlanInputs, ex: Seq<TriggerView>, ops: Seq<Operation>, i: int)
    requires
        0 <= i < refresh_all(p, ex, ops).len(),
    ensures
        exists|k: int, j: int|
            0 <= k < ops.len() && 0 <= j < refresh_steps(p, ex, ops[k]).len() && refresh_all(
                p,
                ex,
                ops,
            )[i] == #[trigger] refresh_steps(p, ex, ops[k])[j],
    decreases ops.len(),
{
    let d = ops.drop_last();
    let rest = refresh_all(p, ex, d);
    if i < rest.len() {
        lemma_refresh_all_member(p, ex, d, i);
        let (k, j) = choose|k: int, j: int|
            0 <= k < d.len() && 0 <= j < refresh_steps(p, ex, d[k]).len() && rest[i]
                == #[trigger] refresh_steps(p, ex, d[k])[j];
        assert(ops[k] == d[k]);
        assert(refresh_steps(p, ex, ops[k])[j] == refresh_all(p, ex, ops)[i]);
    } else {
        let k = ops.len() - 1;
        assert(ops[k] == ops.last());
        assert(refresh_steps(p, ex, ops[k])[i - rest.len()] == refresh_all(p, ex, ops)[i]);
    }
}

/// Refreshing touches only the selected operations: apart from the leading
/// statement that creates the log table, every statement of a refresh plan
/// drops a trigger whose name reads as a selected operation, or creates the
/// managed trigger of a selected operation.
pub proof fn law_update_acts_on_selected_operations(
    p: PlanInputs,
    rows: Seq<(Seq<char>, Seq<char>)>,
    ops: Seq<Operation>,
)
    ensures
        forall|i: int|
            #![trigger update_plan(p, recognized_triggers(p.prefix, p.table, rows), ops)[i]]
            1 <= i < update_plan(p, recognized_triggers(p.prefix, p.table, rows), ops).len()
                ==> exists|k: int|
                0 <= k < ops.len() && acts_on(
                    p,
                    update_plan(p, recognized_triggers(p.prefix, p.table, rows), ops)[i],
                    #[trigger] ops[k],
                ),
{
    let ex = recognized_triggers(p.prefix, p.table, rows);
    assert forall|i: int|
        #![trigger update_plan(p, ex, ops)[i]]
        1 <= i < update_plan(p, ex, ops).len() implies exists|k: int|
        0 <= k < ops.len() && acts_on(p, update_plan(p, ex, ops)[i], #[trigger] ops[k]) by {
        assert(update_plan(p, ex, ops)[i] == refresh_all(p, ex, ops)[i - 1]);
        lemma_refresh_all_member(p, ex, ops, i - 1);
        let (k, j) = choose|k: int, j: int|
            0 <= k < ops.len() && 0 <= j < refresh_steps(p, ex, ops[k]).len() && refresh_all(
                p,
                ex,
                ops,
            )[i - 1] == #[trigger] refresh_steps(p, ex, ops[k])[j];
        lemma_steps_act(p, rows, ops[k], j);
    }
}

/// A settled trigger is left alone: when the trigger of `op` is settled,
/// the refresh plan holds no step for `op`, and every statement after the
/// one that creates the log table acts on another selected operation.
pub proof fn law_settled_trigger_untouched(
    p: PlanInputs,
    rows: Seq<(Seq<char>, Seq<char>)>,
    ops: Seq<Operation>,
    op: Operation,
)
    requires
        settled(p, rows, op),
    ensures
        refresh_steps(p, recognized_triggers(p.prefix, p.table, rows), op) == Seq::<
            Seq<char>,
        >::empty(),
        forall|i: int|
            1 <= i < update_plan(p, recognized_triggers(p.prefix, p.table, rows), ops).len()
                ==> acts_on_other(
                p,
                #[trigger] update_plan(p, recognized_triggers(p.prefix, p.table, rows), ops)[i],
                ops,
                op,
            ),
{
    let ex = recognized_triggers(p.prefix, p.table, rows);
    lemma_settled_steps(p, rows, op);
    assert forall|i: int| 1 <= i < update_plan(p, ex, ops).len() implies acts_on_other(
        p,
        #[trigger] update_plan(p, ex, ops)[i],
        ops,
        op,
    ) by {
        assert(update_plan(p, ex, ops)[i] == refresh_all(p, ex, ops)[i - 1]);
        lemma_refresh_all_member(p, ex, ops, i - 1);
        let (k, j) = choose|k: int, j: int|
            0 <= k < ops.len() && 0 <= j < refresh_steps(p, ex, ops[k]).len() && refresh_all(
                p,
                ex,
                ops,
            )[i - 1] == #[trigger] refresh_steps(p, ex, ops[k])[j];
        lemma_steps_act(p, rows, ops[k], j);
        assert(ops[k] != op);
    }
}

/// Drops of the rows whose names read as `op`, in row order.
pub open spec fn operation_row_drops(p: PlanInputs, rows: Seq<(Seq<char>, Seq<char>)>, op: Operation) -> Seq<
    Seq<char>,
>
    decreases rows.len(),
{
    if rows.len() == 0 {
        Seq::empty()
    } else {
        let rest = operation_row_drops(p, rows.drop_last(), op);
        let r = rows.last();
        if parsed_operation(p.prefix, p.table, r.0) == Some(op) {
            rest.push(drop_trigger_text(r.0))
        } else {
            rest
        }
    }
}

proof fn lemma_operation_rows(p: PlanInputs, rows: Seq<(Seq<char>, Seq<char>)>, op: Operation)
    ensures
        operation_drops(recognized_triggers(p.prefix, p.table, rows), op) == operation_row_drops(
            p,
            rows,
            op,
        ),
    decreases rows.len(),
{
    if rows.len() > 0 {
        let d = rows.drop_last();
        lemma_operation_rows(p, d, op);
        let rec = recognized_triggers(p.prefix, p.table, d);
        let r = rows.last();
        match parsed_operation(p.prefix, p.table, r.0) {
            Some(o) => {
                assert(rec.push((r.0, r.1, o)).drop_last() =~= rec);
            },
            None => {},
        }
    }
}

proof fn lemma_operation_rows_act(
    p: PlanInputs,
    rows: Seq<(Seq<char>, Seq<char>)>,
    op: Operation,
    i: int,
)
    requires
        0 <= i < operation_row_drops(p, rows, op).len(),
    ensures
        acts_on(p, operation_row_drops(p, rows, op)[i], op),
    decreases rows.len(),
{
    let d = rows.drop_last();
    if i < operation_row_drops(p, d, op).len() {
        lemma_operation_rows_act(p, d, op, i);
    } else {
        let n = rows.last().0;
        assert(operation_row_drops(p, rows, op)[i] == drop_trigger_text(n));
    }
}

proof fn lemma_delete_acts(
    p: PlanInputs,
    rows: Seq<(Seq<char>, Seq<char>)>,
    ops: Seq<Operation>,
    i: int,
)
    requires
        0 <= i < delete_plan(p, recognized_triggers(p.prefix, p.table, rows), ops).len(),
    ensures
        exists|k: int|
            0 <= k < ops.len() && acts_on(
                p,
                delete_plan(p, recognized_triggers(p.prefix, p.table, rows), ops)[i],
                #[trigger] ops[k],
            ),
    decreases ops.len(),
{
    let ex = recognized_triggers(p.prefix, p.table, rows);
    let d = ops.drop_last();
    let rest = delete_plan(p, ex, d);
    let k = ops.len() - 1;
    if i < rest.len() {
        lemma_delete_acts(p, rows, d, i);
        let j = choose|j: int| 0 <= j < d.len() && acts_on(p, rest[i], #[trigger] d[j]);
        assert(ops[j] == d[j]);
    } else {
        let o = ops.last();
        assert(ops[k] == o);
        let j = i - rest.len();
        lemma_operation_rows(p, rows, o);
        if operation_row_drops(p, rows, o).len() > 0 {
            lemma_operation_rows_act(p, rows, o, j);
        } else {
            lemma_managed_name_parses(p, o);
            assert(delete_plan(p, ex, ops)[i] == drop_trigger_text(managed_name(p, o)));
        }
        assert(acts_on(p, delete_plan(p, ex, ops)[i], ops[k]));
    }
}

/// Removal touches only the selected operations: every statement of a
/// removal plan drops a trigger whose name reads as a selected operation.
/// For each selected operation in turn it drops every row whose name reads
/// as that operation, in row order, or the managed name when there is none.
pub proof fn law_delete_acts_on_selected_operations(
    p: PlanInputs,
    rows: Seq<(Seq<char>, Seq<char>)>,
    ops: Seq<Operation>,
    op: Operation,
)
    ensures
        removal_steps(p, recognized_triggers(p.prefix, p.table, rows), op) == (if operation_row_drops(
            p,
            rows,
            op,
        ).len() == 0 {
            seq![drop_trigger_text(managed_name(p, op))]
        } else {
            operation_row_drops(p, rows, op)
        }),
        forall|i: int|
            #![trigger delete_plan(p, recognized_triggers(p.prefix, p.table, rows), ops)[i]]
            0 <= i < delete_plan(p, recognized_triggers(p.prefix, p.table, rows), ops).len()
                ==> exists|k: int|
                0 <= k < ops.len() && acts_on(
                    p,
                    delete_plan(p, recognized_triggers(p.prefix, p.table, rows), ops)[i],
                    #[trigger] ops[k],
                ),
{
    lemma_operation_rows(p, rows, op);
    let ex = recognized_triggers(p.prefix, p.table, rows);
    assert forall|i: int|
        #![trigger delete_plan(p, ex, ops)[i]]
        0 <= i < delete_plan(p, ex, ops).len() implies exists|k: int|
        0 <= k < ops.len() && acts_on(p, delete_plan(p, ex, ops)[i], #[trigger] ops[k]) by {
        lemma_delete_acts(p, rows, ops, i);
    }
}

/// A creation plan holds the log table statement and then exactly one
/// statement per selected operation, in the given order: the statement
/// that creates that operation's trigger.
pub proof fn law_create_plan_one_statement_per_operation(p: PlanInputs, ops: Seq<Operation>)
    ensures
        create_plan(p, ops).len() == ops.len() + 1,
        create_plan(p, ops)[0] == log_table_sql_text(p.log),
        forall|k: int|
            0 <= k < ops.len() ==> create_plan(p, ops)[k + 1] == create_trigger_text(
                p.prefix,
                p.log,
                p.table,
                p.columns,
                #[trigger] ops[k],
            ),
{
    assert forall|k: int| 0 <= k < ops.len() implies create_plan(p, ops)[k + 1]
        == create_trigger_text(p.prefix, p.log, p.table, p.columns, #[trigger] ops[k]) by {
        assert(create_plan(p, ops)[k + 1] == managed_sql(p, ops[k]));
    }
}

} // verus!
