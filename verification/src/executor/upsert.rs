//! Insertion that meets rows that are there already, and what an insertion
//! gives back.
use vstd::prelude::*;

use crate::common::error::{EngramDbError, Fault};
use crate::common::types::{
    name_index, pk_index, pos, ColumnModel, EngineType, IndexDef, IndexModel, TableDef,
};
use crate::executor::env::{answers, oracle, put_text, text_in, Answer, Ask, Question, Reply};
use crate::executor::operators::alter_table::answered;
use crate::executor::operators::hash_join::{cell_of, read_cell};
use crate::query::{one_value, single, Query, QueryResult};
use crate::sql::ast::{
    Conflict, ConflictAction, Expr, Expression, Item, OnConflictAction, OnConflictClause,
    SelectItem,
};
use crate::storage::database::{named, with_table, Database, Db};
use crate::storage::table::{holder, inserted, updated, Table, Tbl};
use crate::text::{dec, join2, join3, usize_text};
use crate::value::{clone_row, same_value, Datum};
use crate::Value;

verus! {

/// The value of an expression on a row: a column, or a literal.
pub open spec fn returned(
    o: spec_fn(Question) -> Answer,
    e: Expr,
    row: Seq<Datum>,
    columns: Seq<ColumnModel>,
) -> Result<Datum, Fault> {
    match e {
        Expr::ColumnRef(_, c) => match name_index(columns, c) {
            Some(i) => Ok(cell_of(row, i)),
            None => Err(Fault::Internal("RETURNING column '"@ + c + "' not found"@)),
        },
        Expr::Literal(d) => Ok(d),
        _ => Err(
            Fault::Parse(
                "Unsupported RETURNING expression: "@ + text_in(o(Question::DebugExpr(e))),
            ),
        ),
    }
}

/// What the first `n` items give of a row.
pub open spec fn returned_row(
    o: spec_fn(Question) -> Answer,
    items: Seq<Item>,
    row: Seq<Datum>,
    columns: Seq<ColumnModel>,
    n: nat,
) -> Result<Seq<Datum>, Fault>
    decreases n,
{
    if n == 0 {
        Ok(Seq::empty())
    } else {
        match returned_row(o, items, row, columns, (n - 1) as nat) {
            Err(f) => Err(f),
            Ok(done) => match items[n - 1] {
                Item::Wildcard => Ok(done + row),
                Item::Expression(e, _) => match returned(o, e, row, columns) {
                    Err(f) => Err(f),
                    Ok(d) => Ok(done.push(d)),
                },
            },
        }
    }
}

/// The names of what items give.
pub open spec fn returned_names(items: Seq<Item>) -> Seq<Seq<char>> {
    Seq::new(
        items.len(),
        |i: int|
            match items[i] {
                Item::Wildcard => "*"@,
                Item::Expression(_, Some(a)) => a,
                Item::Expression(_, None) => "col_"@ + dec(i as nat),
            },
    )
}

/// Whether two rows have the same values in all of the columns.
pub open spec fn same_at(a: Seq<Datum>, b: Seq<Datum>, columns: Seq<usize>) -> bool {
    forall|i: int|
        0 <= i < columns.len() ==> (#[trigger] columns[i]) < a.len() && columns[i] < b.len()
            && a[columns[i] as int] == b[columns[i] as int]
}

/// The first live slot from `i` on whose row has the values of the given one.
pub open spec fn same_from(
    slots: Seq<Option<Seq<Datum>>>,
    columns: Seq<usize>,
    row: Seq<Datum>,
    i: int,
) -> Option<int>
    decreases slots.len() - i,
{
    if i < 0 || i >= slots.len() {
        None
    } else if slots[i] is Some && same_at(slots[i]->0, row, columns) {
        Some(i)
    } else {
        same_from(slots, columns, row, i + 1)
    }
}

/// Whether a unique index has just these columns as its key.
pub open spec fn has_unique(indexes: Seq<IndexModel>, columns: Seq<usize>) -> bool {
    exists|k: int|
        0 <= k < indexes.len() && (#[trigger] indexes[k]).unique && indexes[k].key_columns
            == columns
}

/// The row that stands in the way of a new one. One column that is the
/// primary key, or the key of a unique index, is looked up there.
pub open spec fn conflicting(t: Tbl, columns: Seq<usize>, row: Seq<Datum>) -> Option<int> {
    if columns.len() == 0 {
        None
    } else if columns.len() == 1 && (pk_index(t.def.columns) == Some(columns[0] as int)
        || has_unique(t.def.indexes, columns)) {
        holder(t.slots, columns[0] as int, cell_of(row, columns[0] as int), 0)
    } else {
        same_from(t.slots, columns, row, 0)
    }
}

/// A row after the first `n` assignments, which read the new row.
pub open spec fn merged_row(
    o: spec_fn(Question) -> Answer,
    old_row: Seq<Datum>,
    new_row: Seq<Datum>,
    columns: Seq<ColumnModel>,
    sets: Seq<(Seq<char>, Expr)>,
    n: nat,
) -> Result<Seq<Datum>, Fault>
    decreases n,
{
    if n == 0 {
        Ok(old_row)
    } else {
        match merged_row(o, old_row, new_row, columns, sets, (n - 1) as nat) {
            Err(f) => Err(f),
            Ok(done) => match name_index(columns, sets[n - 1].0) {
                None => Err(
                    Fault::Internal(
                        "Column '"@ + sets[n - 1].0 + "' not found in UPDATE assignments"@,
                    ),
                ),
                Some(c) => if c < done.len() {
                    match returned(o, sets[n - 1].1, new_row, columns) {
                        Err(f) => Err(f),
                        Ok(d) => Ok(done.update(c, d)),
                    }
                } else {
                    Ok(done)
                },
            },
        }
    }
}

/// A table after one row was inserted or merged, whether that changed it, and
/// the number of the row.
pub open spec fn merged_one(
    o: spec_fn(Question) -> Answer,
    t: Tbl,
    columns: Seq<usize>,
    action: ConflictAction,
    row: Seq<Datum>,
) -> Result<(Tbl, bool, int), Fault> {
    match conflicting(t, columns, row) {
        None => {
            let a = inserted(t, seq![row], false, 1);
            match a.1 {
                Some(f) => Err(f),
                None => Ok((a.0, true, a.0.slots.len() - 1)),
            }
        },
        Some(k) => match action {
            ConflictAction::DoNothing => Ok((t, false, k)),
            ConflictAction::Replace => match updated(t, k as u64, row) {
                Err(f) => Err(f),
                Ok(u) => Ok((u, true, k)),
            },
            ConflictAction::DoUpdate(sets) => match merged_row(
                o,
                t.slots[k]->0,
                row,
                t.def.columns,
                sets,
                sets.len(),
            ) {
                Err(f) => Err(f),
                Ok(w) => match updated(t, k as u64, w) {
                    Err(f) => Err(f),
                    Ok(u) => Ok((u, true, k)),
                },
            },
        },
    }
}

/// What items give of the row in a slot.
pub open spec fn returned_at(
    o: spec_fn(Question) -> Answer,
    t: Tbl,
    items: Option<Seq<Item>>,
    k: int,
) -> Result<Option<Seq<Datum>>, Fault> {
    match items {
        None => Ok(None),
        Some(list) => if 0 <= k < t.slots.len() && t.slots[k] is Some {
            match returned_row(o, list, t.slots[k]->0, t.def.columns, list.len()) {
                Err(f) => Err(f),
                Ok(r) => Ok(Some(r)),
            }
        } else {
            Err(Fault::Internal("Row "@ + dec(k as nat) + " not found for RETURNING"@))
        },
    }
}

/// How far an insertion has come: the table, the number of rows that it
/// changed, and what it gives back.
#[verifier::ext_equal]
pub struct Progress {
    pub table: Tbl,
    pub changed: nat,
    pub out: Seq<Seq<Datum>>,
}

/// The insertion after one more row, with the error that ended it.
pub open spec fn merged_step(
    o: spec_fn(Question) -> Answer,
    p: Progress,
    columns: Seq<usize>,
    action: ConflictAction,
    items: Option<Seq<Item>>,
    row: Seq<Datum>,
) -> (Progress, Option<Fault>) {
    match merged_one(o, p.table, columns, action, row) {
        Err(f) => (p, Some(f)),
        Ok(m) => {
            let q = Progress {
                table: m.0,
                changed: if m.1 {
                    p.changed + 1
                } else {
                    p.changed
                },
                out: p.out,
            };
            match returned_at(o, m.0, items, m.2) {
                Err(f) => (q, Some(f)),
                Ok(None) => (q, None),
                Ok(Some(r)) => (Progress { out: p.out.push(r), ..q }, None),
            }
        },
    }
}

/// The insertion of the first `n` rows, with the error that ended it.
pub open spec fn merged_rows(
    o: spec_fn(Question) -> Answer,
    t: Tbl,
    columns: Seq<usize>,
    action: ConflictAction,
    items: Option<Seq<Item>>,
    rows: Seq<Seq<Datum>>,
    n: nat,
) -> (Progress, Option<Fault>)
    decreases n,
{
    if n == 0 {
        (Progress { table: t, changed: 0, out: Seq::empty() }, None)
    } else {
        let before = merged_rows(o, t, columns, action, items, rows, (n - 1) as nat);
        if before.1 is Some {
            before
        } else {
            merged_step(o, before.0, columns, action, items, rows[n - 1])
        }
    }
}

/// The positions of the first `n` names that are columns.
pub open spec fn known_columns(
    columns: Seq<ColumnModel>,
    names: Seq<Seq<char>>,
    n: nat,
) -> Seq<usize>
    decreases n,
{
    if n == 0 {
        Seq::empty()
    } else {
        let before = known_columns(columns, names, (n - 1) as nat);
        match name_index(columns, names[n - 1]) {
            Some(i) => before.push(i as usize),
            None => before,
        }
    }
}

/// The columns that tell rows apart: those named, or else the primary key.
pub open spec fn deciding(columns: Seq<ColumnModel>, names: Seq<Seq<char>>) -> Seq<usize> {
    let known = known_columns(columns, names, names.len());
    if known.len() > 0 {
        known
    } else {
        match pk_index(columns) {
            Some(c) => seq![c as usize],
            None => Seq::empty(),
        }
    }
}

/// The insertion of rows that may meet rows that are there already.
pub open spec fn upserted(
    o: spec_fn(Question) -> Answer,
    d: Db,
    name: Seq<char>,
    rows: Seq<Seq<Datum>>,
    clause: Conflict,
    items: Option<Seq<Item>>,
) -> (Result<Query, Fault>, Db) {
    match named(d, name) {
        None => (Err(Fault::TableNotFound(name)), d),
        Some(k) => if d.tables[k].def.engine == EngineType::Log {
            (Err(Fault::NotSupported("LogEngine 不支持 UPSERT（追加式时间序列引擎）"@)), d)
        } else {
            let t = d.tables[k];
            let columns = deciding(t.def.columns, clause.columns);
            let m = merged_rows(o, t, columns, clause.action, items, rows, rows.len());
            let after = with_table(d, k, m.0.table);
            match m.1 {
                Some(f) => (Err(f), after),
                None => match items {
                    Some(list) => (
                        Ok(
                            Query {
                                columns: returned_names(list),
                                rows: m.0.out,
                                rows_affected: m.0.changed as u64,
                            },
                        ),
                        after,
                    ),
                    None => (
                        Ok(
                            single(
                                "rows_affected"@,
                                Datum::Int64(m.0.changed as i64),
                                m.0.changed as u64,
                            ),
                        ),
                        after,
                    ),
                },
            }
        },
    }
}

/// The model of an optional list of items.
pub open spec fn opt_items(items: Option<Vec<SelectItem>>) -> Option<Seq<Item>> {
    match items {
        Some(v) => Some(v.deep_view()),
        None => None,
    }
}

/// Whether a result is what the model says.
pub open spec fn gives_value(r: Result<Value, EngramDbError>, m: Result<Datum, Fault>) -> bool {
    match (r, m) {
        (Ok(v), Ok(d)) => v.deep_view() == d,
        (Err(e), Err(f)) => e.deep_view() == f,
        _ => false,
    }
}

/// Whether a result is what the model says.
pub open spec fn gives_row(
    r: Result<Vec<Value>, EngramDbError>,
    m: Result<Seq<Datum>, Fault>,
) -> bool {
    match (r, m) {
        (Ok(v), Ok(d)) => v.deep_view() == d,
        (Err(e), Err(f)) => e.deep_view() == f,
        _ => false,
    }
}

/// The value of an expression on a row: a column, or a literal.
pub fn evaluate_returning_expr<E: Fn(Ask) -> Reply>(
    expr: &Expression,
    row: &Vec<Value>,
    table_def: &TableDef,
    env: &E,
) -> (r: Result<Value, EngramDbError>)
    requires
        answers(*env),
    ensures
        gives_value(
            r,
            returned(
                oracle(*env),
                expr.deep_view(),
                row.deep_view(),
                table_def.deep_view().columns,
            ),
        ),
{
    match expr {
        Expression::ColumnRef { table: _, column } => match table_def.column_index(
            column.as_str(),
        ) {
            Some(i) => Ok(read_cell(row, i)),
            None => Err(
                EngramDbError::Internal(
                    join3("RETURNING column '", column.as_str(), "' not found"),
                ),
            ),
        },
        Expression::Literal(v) => Ok(v.clone()),
        _ => {
            let shown = put_text(env, Ask::DebugExpr(expr.clone()));
            Err(
                EngramDbError::Parse(
                    join2("Unsupported RETURNING expression: ", shown.as_str()),
                ),
            )
        },
    }
}

/// What items give of a row.
pub fn returning_row<E: Fn(Ask) -> Reply>(
    items: &Vec<SelectItem>,
    row: &Vec<Value>,
    table_def: &TableDef,
    env: &E,
) -> (r: Result<Vec<Value>, EngramDbError>)
    requires
        answers(*env),
    ensures
        gives_row(
            r,
            returned_row(
                oracle(*env),
                items.deep_view(),
                row.deep_view(),
                table_def.deep_view().columns,
                items.deep_view().len(),
            ),
        ),
{
    let ghost o = oracle(*env);
    let ghost list = items.deep_view();
    let ghost cells = row.deep_view();
    let ghost columns = table_def.deep_view().columns;
    let mut out: Vec<Value> = Vec::new();
    assert(out.deep_view() =~= Seq::empty());
    let mut i: usize = 0;
    while i < items.len()
        invariant
            answers(*env),
            o == oracle(*env),
            list == items.deep_view(),
            cells == row.deep_view(),
            columns == table_def.deep_view().columns,
            i <= items.len(),
            returned_row(o, list, cells, columns, i as nat) == Ok::<Seq<Datum>, Fault>(
                out.deep_view(),
            ),
        decreases items.len() - i,
    {
        assert(list[i as int] == items[i as int].deep_view());
        match &items[i] {
            SelectItem::Wildcard => {
                let mut copy = clone_row(row);
                let ghost (a, b) = (out@, copy@);
                let ghost (x, y) = (out.deep_view(), copy.deep_view());
                out.append(&mut copy);
                assert(out@ == a + b);
                assert(out.deep_view() =~= x + y);
            },
            SelectItem::Expression(e, _) => match evaluate_returning_expr(e, row, table_def, env) {
                Ok(v) => {
                    let ghost before = out.deep_view();
                    out.push(v);
                    assert(out.deep_view() =~= before.push(v.deep_view()));
                },
                Err(x) => {
                    proof {
                        lemma_returned_fails(
                            o,
                            list,
                            cells,
                            columns,
                            (i + 1) as nat,
                            list.len(),
                        );
                    }
                    return Err(x);
                },
            },
        }
        i += 1;
    }
    Ok(out)
}

/// An error among the first items is the error of all.
proof fn lemma_returned_fails(
    o: spec_fn(Question) -> Answer,
    items: Seq<Item>,
    row: Seq<Datum>,
    columns: Seq<ColumnModel>,
    k: nat,
    n: nat,
)
    requires
        k <= n,
        returned_row(o, items, row, columns, k) is Err,
    ensures
        returned_row(o, items, row, columns, n) == returned_row(o, items, row, columns, k),
    decreases n - k,
{
    if k < n {
        lemma_returned_fails(o, items, row, columns, k, (n - 1) as nat);
    }
}

/// The names of what items give.
pub fn returning_names(items: &Vec<SelectItem>) -> (r: Vec<String>)
    ensures
        r.deep_view() == returned_names(items.deep_view()),
{
    let ghost list = items.deep_view();
    let ghost m = returned_names(list);
    let mut out: Vec<String> = Vec::new();
    let mut i: usize = 0;
    while i < items.len()
        invariant
            list == items.deep_view(),
            m == returned_names(list),
            i <= items.len(),
            out.deep_view() == m.subrange(0, i as int),
        decreases items.len() - i,
    {
        assert(list[i as int] == items[i as int].deep_view());
        let s = match &items[i] {
            SelectItem::Wildcard => "*".to_owned(),
            SelectItem::Expression(_, alias) => match alias {
                Some(a) => a.clone(),
                None => {
                    let n = usize_text(i);
                    join2("col_", n.as_str())
                },
            },
        };
        assert(s@ == m[i as int]);
        let ghost before = out.deep_view();
        out.push(s);
        assert(out.deep_view() =~= before.push(s@));
        i += 1;
        assert(out.deep_view() =~= m.subrange(0, i as int));
    }
    assert(out.deep_view() =~= m);
    out
}

/// Whether two rows have the same values in all of the columns.
fn rows_agree(a: &Vec<Value>, b: &Vec<Value>, columns: &Vec<usize>) -> (r: bool)
    ensures
        r == same_at(a.deep_view(), b.deep_view(), columns@),
{
    let mut i: usize = 0;
    while i < columns.len()
        invariant
            i <= columns.len(),
            forall|k: int|
                0 <= k < i ==> (#[trigger] columns@[k]) < a.deep_view().len() && columns@[k]
                    < b.deep_view().len() && a.deep_view()[columns@[k] as int]
                    == b.deep_view()[columns@[k] as int],
        decreases columns.len() - i,
    {
        let c: usize = columns[i];
        assert(columns@[i as int] == c);
        if c >= a.len() || c >= b.len() {
            return false;
        }
        assert(a.deep_view()[c as int] == a[c as int].deep_view());
        assert(b.deep_view()[c as int] == b[c as int].deep_view());
        if !same_value(&a[c], &b[c]) {
            return false;
        }
        i += 1;
    }
    true
}

/// Whether a unique index has just one column as its key.
fn has_unique_on(indexes: &Vec<IndexDef>, column: usize) -> (r: bool)
    ensures
        r == has_unique(indexes.deep_view(), seq![column]),
{
    let ghost all = indexes.deep_view();
    let mut k: usize = 0;
    while k < indexes.len()
        invariant
            all == indexes.deep_view(),
            k <= indexes.len(),
            forall|i: int|
                0 <= i < k ==> !((#[trigger] all[i]).unique && all[i].key_columns == seq![column]),
        decreases indexes.len() - k,
    {
        assert(all[k as int] == indexes[k as int].deep_view());
        let x = &indexes[k];
        if x.unique && x.key_columns.len() == 1 && x.key_columns[0] == column {
            assert(x.key_columns@ =~= seq![column]);
            return true;
        }
        proof {
            if x.key_columns@ == seq![column] {
                assert(x.key_columns@.len() == 1 && x.key_columns@[0] == column);
            }
        }
        k += 1;
    }
    false
}

/// The row that stands in the way of a new one.
pub fn find_conflicting_row(t: &Table, columns: &Vec<usize>, row: &Vec<Value>) -> (r: Option<usize>)
    requires
        t.wf(),
    ensures
        pos(r) == conflicting(t.deep_view(), columns@, row.deep_view()),
        r matches Some(k) ==> k < t.rows.len() && t.rows[k as int] is Some,
{
    let ghost m = t.deep_view();
    if columns.len() == 0 {
        return None;
    }
    if columns.len() == 1 {
        let c: usize = columns[0];
        assert(columns@ =~= seq![c]);
        let key: bool = match t.def.primary_key_index() {
            Some(p) => p == c,
            None => false,
        };
        if key || has_unique_on(&t.def.indexes, c) {
            let v = read_cell(row, c);
            let mut i: usize = 0;
            while i < t.rows.len()
                invariant
                    m == t.deep_view(),
                    i <= t.rows.len(),
                    conflicting(m, columns@, row.deep_view()) == holder(
                        m.slots,
                        c as int,
                        v.deep_view(),
                        i as int,
                    ),
                decreases t.rows.len() - i,
            {
                assert(m.slots[i as int] == t.rows[i as int].deep_view());
                if let Some(x) = &t.rows[i] {
                    let w = read_cell(x, c);
                    if same_value(&w, &v) {
                        return Some(i);
                    }
                }
                i += 1;
            }
            return None;
        }
    }
    let mut i: usize = 0;
    while i < t.rows.len()
        invariant
            m == t.deep_view(),
            i <= t.rows.len(),
            conflicting(m, columns@, row.deep_view()) == same_from(
                m.slots,
                columns@,
                row.deep_view(),
                i as int,
            ),
        decreases t.rows.len() - i,
    {
        assert(m.slots[i as int] == t.rows[i as int].deep_view());
        if let Some(x) = &t.rows[i] {
            if rows_agree(x, row, columns) {
                return Some(i);
            }
        }
        i += 1;
    }
    None
}

/// A row after assignments, which read the new row.
fn merge_row<E: Fn(Ask) -> Reply>(
    old_row: &Vec<Value>,
    new_row: &Vec<Value>,
    table_def: &TableDef,
    sets: &Vec<(String, Expression)>,
    env: &E,
) -> (r: Result<Vec<Value>, EngramDbError>)
    requires
        answers(*env),
    ensures
        gives_row(
            r,
            merged_row(
                oracle(*env),
                old_row.deep_view(),
                new_row.deep_view(),
                table_def.deep_view().columns,
                sets.deep_view(),
                sets.deep_view().len(),
            ),
        ),
{
    let ghost o = oracle(*env);
    let ghost list = sets.deep_view();
    let ghost columns = table_def.deep_view().columns;
    let ghost (a, b) = (old_row.deep_view(), new_row.deep_view());
    let mut out = clone_row(old_row);
    let mut i: usize = 0;
    while i < sets.len()
        invariant
            answers(*env),
            o == oracle(*env),
            list == sets.deep_view(),
            columns == table_def.deep_view().columns,
            a == old_row.deep_view(),
            b == new_row.deep_view(),
            i <= sets.len(),
            merged_row(o, a, b, columns, list, i as nat) == Ok::<Seq<Datum>, Fault>(
                out.deep_view(),
            ),
        decreases sets.len() - i,
    {
        assert(list[i as int] == sets[i as int].deep_view());
        let at: Option<usize> = table_def.column_index(sets[i].0.as_str());
        let failed: Option<EngramDbError> = match at {
            None => {
                let text = join3(
                    "Column '",
                    sets[i].0.as_str(),
                    "' not found in UPDATE assignments",
                );
                Some(EngramDbError::Internal(text))
            },
            Some(c) => if c < out.len() {
                match evaluate_returning_expr(&sets[i].1, new_row, table_def, env) {
                    Ok(v) => {
                        let ghost before = out.deep_view();
                        let ghost d = v.deep_view();
                        out.set(c, v);
                        assert(out.deep_view() =~= before.update(c as int, d));
                        None
                    },
                    Err(e) => Some(e),
                }
            } else {
                None
            },
        };
        if let Some(e) = failed {
            proof {
                lemma_merged_row_fails(o, a, b, columns, list, (i + 1) as nat, list.len());
            }
            return Err(e);
        }
        i += 1;
    }
    Ok(out)
}

/// An error among the first assignments is the error of all.
proof fn lemma_merged_row_fails(
    o: spec_fn(Question) -> Answer,
    a: Seq<Datum>,
    b: Seq<Datum>,
    columns: Seq<ColumnModel>,
    sets: Seq<(Seq<char>, Expr)>,
    k: nat,
    n: nat,
)
    requires
        k <= n,
        merged_row(o, a, b, columns, sets, k) is Err,
    ensures
        merged_row(o, a, b, columns, sets, n) == merged_row(o, a, b, columns, sets, k),
    decreases n - k,
{
    if k < n {
        lemma_merged_row_fails(o, a, b, columns, sets, k, (n - 1) as nat);
    }
}

/// Inserts or merges one row.
fn merge_one<E: Fn(Ask) -> Reply>(
    t: &mut Table,
    columns: &Vec<usize>,
    action: &OnConflictAction,
    row: &Vec<Value>,
    env: &E,
) -> (r: Result<(bool, usize), EngramDbError>)
    requires
        answers(*env),
        old(t).wf(),
    ensures
        final(t).wf(),
        match (
            r,
            merged_one(
                oracle(*env),
                old(t).deep_view(),
                columns@,
                action.deep_view(),
                row.deep_view(),
            ),
        ) {
            (Ok(x), Ok(m)) => final(t).deep_view() == m.0 && x.0 == m.1 && x.1 == m.2,
            (Err(e), Err(f)) => e.deep_view() == f && final(t).deep_view() == old(t).deep_view(),
            _ => false,
        },
{
    let ghost was = t.deep_view();
    match find_conflicting_row(t, columns, row) {
        None => {
            let mut rows: Vec<Vec<Value>> = Vec::new();
            rows.push(clone_row(row));
            assert(rows.deep_view() =~= seq![row.deep_view()]);
            proof {
                reveal_with_fuel(inserted, 2);
            }
            match t.insert_rows(&rows) {
                Ok(_) => Ok((true, t.rows.len() - 1)),
                Err(e) => Err(e),
            }
        },
        Some(k) => {
            assert(was.slots[k as int] == t.rows[k as int].deep_view());
            match action {
                OnConflictAction::DoNothing => Ok((false, k)),
                OnConflictAction::Replace => match t.update_row(k as u64, row) {
                    Ok(_) => Ok((true, k)),
                    Err(e) => Err(e),
                },
                OnConflictAction::DoUpdate { assignments } => {
                    let old_row = match &t.rows[k] {
                        Some(x) => clone_row(x),
                        None => Vec::new(),
                    };
                    match merge_row(&old_row, row, &t.def, assignments, env) {
                        Err(e) => Err(e),
                        Ok(w) => match t.update_row(k as u64, &w) {
                            Ok(_) => Ok((true, k)),
                            Err(e) => Err(e),
                        },
                    }
                },
            }
        },
    }
}

/// What items give of the row in a slot.
fn returning_at<E: Fn(Ask) -> Reply>(
    t: &Table,
    items: &Vec<SelectItem>,
    k: usize,
    env: &E,
) -> (r: Result<Vec<Value>, EngramDbError>)
    requires
        answers(*env),
        t.wf(),
    ensures
        match (r, returned_at(oracle(*env), t.deep_view(), Some(items.deep_view()), k as int)) {
            (Ok(v), Ok(Some(d))) => v.deep_view() == d,
            (Err(e), Err(f)) => e.deep_view() == f,
            _ => false,
        },
{
    if k < t.rows.len() {
        assert(t.deep_view().slots[k as int] == t.rows[k as int].deep_view());
        if let Some(row) = &t.rows[k] {
            return returning_row(items, row, &t.def, env);
        }
    }
    let n = usize_text(k);
    Err(EngramDbError::Internal(join3("Row ", n.as_str(), " not found for RETURNING")))
}

/// Inserts or merges rows in turn, until one fails.
fn merge_rows<E: Fn(Ask) -> Reply>(
    t: &mut Table,
    columns: &Vec<usize>,
    action: &OnConflictAction,
    items: &Option<Vec<SelectItem>>,
    rows: &Vec<Vec<Value>>,
    env: &E,
) -> (r: Result<(u64, Vec<Vec<Value>>), EngramDbError>)
    requires
        answers(*env),
        old(t).wf(),
    ensures
        final(t).wf(),
        ({
            let m = merged_rows(
                oracle(*env),
                old(t).deep_view(),
                columns@,
                action.deep_view(),
                opt_items(*items),
                rows.deep_view(),
                rows.deep_view().len(),
            );
            &&& final(t).deep_view() == m.0.table
            &&& match (r, m.1) {
                (Ok(x), None) => x.0 == m.0.changed && x.1.deep_view() == m.0.out,
                (Err(e), Some(f)) => e.deep_view() == f,
                _ => false,
            }
        }),
{
    let ghost o = oracle(*env);
    let ghost was = t.deep_view();
    let ghost act = action.deep_view();
    let ghost list = opt_items(*items);
    let ghost all = rows.deep_view();
    let mut changed: u64 = 0;
    let mut out: Vec<Vec<Value>> = Vec::new();
    assert(out.deep_view() =~= Seq::empty());
    let mut i: usize = 0;
    while i < rows.len()
        invariant
            answers(*env),
            o == oracle(*env),
            t.wf(),
            was == old(t).deep_view(),
            act == action.deep_view(),
            list == opt_items(*items),
            all == rows.deep_view(),
            i <= rows.len(),
            changed <= i,
            merged_rows(o, was, columns@, act, list, all, i as nat) == (
                Progress {
                    table: t.deep_view(),
                    changed: changed as nat,
                    out: out.deep_view(),
                },
                None::<Fault>,
            ),
        decreases rows.len() - i,
    {
        assert(all[i as int] == rows[i as int].deep_view());
        let done = match merge_one(t, columns, action, &rows[i], env) {
            Ok(x) => x,
            Err(e) => {
                proof {
                    lemma_merged_stops(
                        o,
                        was,
                        columns@,
                        act,
                        list,
                        all,
                        (i + 1) as nat,
                        all.len(),
                    );
                }
                return Err(e);
            },
        };
        if done.0 {
            changed += 1;
        }
        if let Some(v) = items {
            match returning_at(t, v, done.1, env) {
                Ok(row) => {
                    let ghost before = out.deep_view();
                    out.push(row);
                    assert(out.deep_view() =~= before.push(row.deep_view()));
                },
                Err(e) => {
                    proof {
                        lemma_merged_stops(
                            o,
                            was,
                            columns@,
                            act,
                            list,
                            all,
                            (i + 1) as nat,
                            all.len(),
                        );
                    }
                    return Err(e);
                },
            }
        }
        i += 1;
    }
    Ok((changed, out))
}

/// An insertion that has failed stays as it is.
proof fn lemma_merged_stops(
    o: spec_fn(Question) -> Answer,
    t: Tbl,
    columns: Seq<usize>,
    action: ConflictAction,
    items: Option<Seq<Item>>,
    rows: Seq<Seq<Datum>>,
    k: nat,
    n: nat,
)
    requires
        k <= n,
        merged_rows(o, t, columns, action, items, rows, k).1 is Some,
    ensures
        merged_rows(o, t, columns, action, items, rows, n) == merged_rows(
            o,
            t,
            columns,
            action,
            items,
            rows,
            k,
        ),
    decreases n - k,
{
    if k < n {
        lemma_merged_stops(o, t, columns, action, items, rows, k, (n - 1) as nat);
    }
}

/// The columns that tell rows apart: those named, or else the primary key.
fn find_deciding(table_def: &TableDef, names: &Vec<String>) -> (r: Vec<usize>)
    ensures
        r@ == deciding(table_def.deep_view().columns, names.deep_view()),
{
    let ghost columns = table_def.deep_view().columns;
    let ghost all = names.deep_view();
    let mut out: Vec<usize> = Vec::new();
    let mut i: usize = 0;
    while i < names.len()
        invariant
            columns == table_def.deep_view().columns,
            all == names.deep_view(),
            i <= names.len(),
            out@ == known_columns(columns, all, i as nat),
        decreases names.len() - i,
    {
        assert(all[i as int] == names[i as int]@);
        if let Some(c) = table_def.column_index(names[i].as_str()) {
            out.push(c);
        }
        i += 1;
    }
    if out.len() == 0 {
        if let Some(c) = table_def.primary_key_index() {
            out.push(c);
            assert(out@ =~= seq![c]);
        }
    }
    out
}

/// Inserts rows that may meet rows that are there already.
pub fn execute_upsert<E: Fn(Ask) -> Reply>(
    db: &mut Database,
    table_name: &str,
    rows: &Vec<Vec<Value>>,
    conflict_clause: &OnConflictClause,
    returning: &Option<Vec<SelectItem>>,
    env: &E,
) -> (r: Result<QueryResult, EngramDbError>)
    requires
        answers(*env),
        old(db).wf(),
    ensures
        final(db).wf(),
        answered(
            r,
            final(db).deep_view(),
            upserted(
                oracle(*env),
                old(db).deep_view(),
                table_name@,
                rows.deep_view(),
                conflict_clause.deep_view(),
                opt_items(*returning),
            ),
        ),
{
    let k: usize = match db.find_table(table_name) {
        Some(k) => k,
        None => {
            return Err(EngramDbError::TableNotFound(table_name.to_owned()));
        },
    };
    if db.tables[k].def.engine == EngineType::Log {
        return Err(
            EngramDbError::NotSupported(
                "LogEngine 不支持 UPSERT（追加式时间序列引擎）".to_owned(),
            ),
        );
    }
    let columns = find_deciding(&db.tables[k].def, &conflict_clause.conflict_columns);
    let mut t = db.take_table(k);
    let done = merge_rows(&mut t, &columns, &conflict_clause.action, returning, rows, env);
    db.put_table(k, t);
    match done {
        Err(e) => Err(e),
        Ok(x) => match returning {
            Some(items) => Ok(
                QueryResult {
                    columns: returning_names(items),
                    rows: x.1,
                    rows_affected: x.0,
                },
            ),
            None => Ok(one_value("rows_affected", Value::Int64(x.0 as i64), x.0)),
        },
    }
}

} // verus!
