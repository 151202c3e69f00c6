//! Insertion, in batches and through transactions.
use vstd::prelude::*;

use crate::common::error::{EngramDbError, Fault};
use crate::common::types::{lemma_first_from, pk_index, pos, ColumnModel, EngineType, TableDef, TableModel};
use crate::executor::env::{answers, oracle, put_text, text_in, Answer, Ask, Question, Reply};
use crate::storage::database::{
    among, batched, buffered, named, table_of, uniques_from, unique_keys,
    unqueued, validated, waiting, with_table, Database, Db, Pending,
};
use crate::storage::table::{
    index_fault, index_holds, inserted, inserted_at, keyed, removed, slot_at, transpose, transposed,
    updated, Table, Tbl,
};
use crate::storage::txn::{law_commit_hands_out_writes, row_inserts, ApplyOp, Op, Txns};
use crate::text::{dec, join2, join3, u64_text};
use crate::value::{clone_rows, Datum};
use crate::Value;

verus! {

/// A table after rows were put into the slots of their numbers in turn, with
/// the error that ended it.
pub open spec fn placed_each(t: Tbl, base: u64, rows: Seq<Seq<Datum>>, n: nat) -> (
    Tbl,
    Option<Fault>,
)
    decreases n,
{
    if n == 0 {
        (t, None)
    } else {
        let before = placed_each(t, base, rows, (n - 1) as nat);
        if before.1 is Some {
            before
        } else {
            match inserted_at(
                before.0,
                slot_at(base.wrapping_add((n - 1) as u64)),
                rows[n - 1],
                true,
            ) {
                Ok(u) => (u, None),
                Err(f) => (before.0, Some(f)),
            }
        }
    }
}

/// The table that a write goes to.
pub open spec fn target(op: Op) -> u32 {
    match op {
        Op::Insert(t, _, _) => t,
        Op::InsertBatch(t, _, _) => t,
        Op::Update(t, _, _) => t,
        Op::Delete(t, _) => t,
    }
}

/// A table after a write, with the error that ended it.
pub open spec fn wrote(t: Tbl, op: Op) -> (Tbl, Option<Fault>) {
    match op {
        Op::Insert(_, id, row) => match inserted_at(t, slot_at(id), row, true) {
            Ok(u) => (u, None),
            Err(f) => (t, Some(f)),
        },
        Op::InsertBatch(_, base, columns) => {
            let rows = transposed(columns);
            placed_each(t, base, rows, rows.len())
        },
        Op::Update(_, id, row) => match updated(t, id, row) {
            Ok(u) => (u, None),
            Err(f) => (t, Some(f)),
        },
        Op::Delete(_, id) => (removed(t, id), None),
    }
}

/// A database after the first `n` writes in turn, with the error that ended
/// it.
pub open spec fn applied(d: Db, ops: Seq<Op>, n: nat) -> (Db, Option<Fault>)
    decreases n,
{
    if n == 0 {
        (d, None)
    } else {
        let before = applied(d, ops, (n - 1) as nat);
        if before.1 is Some {
            before
        } else {
            let k = target(ops[n - 1]) as int;
            if k >= before.0.tables.len() {
                (before.0, Some(Fault::TableNotFound("id="@ + dec(k as nat))))
            } else {
                let w = wrote(before.0.tables[k], ops[n - 1]);
                (with_table(before.0, k, w.0), w.1)
            }
        }
    }
}

/// The first row from `i` on whose key is taken, by an earlier row or in the
/// table. NULL and missing cells are no keys.
pub open spec fn key_clash(t: Tbl, rows: Seq<Seq<Datum>>, c: int, i: int) -> Option<int>
    decreases rows.len() - i,
{
    if i < 0 || i >= rows.len() {
        None
    } else if c < rows[i].len() && !(rows[i][c] is Null) && (among(
        rows.subrange(0, i),
        c,
        rows[i][c],
    ) || keyed(t, rows[i][c]) is Some) {
        Some(i)
    } else {
        key_clash(t, rows, c, i + 1)
    }
}

/// The first unique index from `k` on whose key in the row is taken.
pub open spec fn unique_clash_at(
    t: Tbl,
    before: Seq<Seq<Datum>>,
    row: Seq<Datum>,
    uniques: Seq<(Seq<char>, usize)>,
    k: int,
) -> Option<int>
    decreases uniques.len() - k,
{
    if k < 0 || k >= uniques.len() {
        None
    } else if uniques[k].1 < row.len() && (among(
        before,
        uniques[k].1 as int,
        row[uniques[k].1 as int],
    ) || index_holds(t, uniques[k].0, row[uniques[k].1 as int])) {
        Some(k)
    } else {
        unique_clash_at(t, before, row, uniques, k + 1)
    }
}

/// The first unique index whose key is taken by a row from `i` on.
pub open spec fn unique_clash(
    t: Tbl,
    rows: Seq<Seq<Datum>>,
    uniques: Seq<(Seq<char>, usize)>,
    i: int,
) -> Option<int>
    decreases rows.len() - i,
{
    if i < 0 || i >= rows.len() {
        None
    } else {
        match unique_clash_at(t, rows.subrange(0, i), rows[i], uniques, 0) {
            Some(k) => Some(k),
            None => unique_clash(t, rows, uniques, i + 1),
        }
    }
}

/// What is wrong with rows before they are written.
pub open spec fn conflict(
    o: spec_fn(Question) -> Answer,
    t: Tbl,
    rows: Seq<Seq<Datum>>,
) -> Option<Fault> {
    let key = match pk_index(t.def.columns) {
        Some(c) => match key_clash(t, rows, c, 0) {
            Some(i) => Some(
                Fault::ConstraintViolation(
                    "UNIQUE constraint failed: "@ + t.def.columns[c].name + "="@ + text_in(
                        o(Question::Debug(rows[i][c])),
                    ),
                ),
            ),
            None => None,
        },
        None => None,
    };
    if key is Some {
        key
    } else {
        let uniques = uniques_from(t.def.indexes, 0);
        match unique_clash(t, rows, uniques, 0) {
            Some(k) => Some(index_fault(uniques[k].0)),
            None => None,
        }
    }
}

/// The transactions after one more has come and gone.
pub open spec fn ticked(t: Txns) -> Txns {
    Txns { last: t.last.wrapping_add(1), clock: t.clock.wrapping_add(1), ..t }
}

/// The number of rows, or the error.
pub open spec fn count_or(n: nat, f: Option<Fault>) -> Result<u64, Fault> {
    match f {
        Some(f) => Err(f),
        None => Ok(n as u64),
    }
}

/// The insertion of rows through a transaction of their own.
pub open spec fn inserted_txn(
    o: spec_fn(Question) -> Answer,
    d: Db,
    name: Seq<char>,
    rows: Seq<Seq<Datum>>,
) -> (Result<u64, Fault>, Db) {
    match named(d, name) {
        None => (Err(Fault::TableNotFound(name)), d),
        Some(k) => match conflict(o, d.tables[k], rows) {
            Some(f) => (Err(f), d),
            None => {
                let ops = row_inserts(k as u32, d.tables[k].def.row_count, rows);
                let a = applied(Db { txns: ticked(d.txns), ..d }, ops, ops.len());
                (count_or(rows.len(), a.1), a.0)
            },
        },
    }
}

/// The insertion of rows without a transaction.
pub open spec fn inserted_direct(d: Db, name: Seq<char>, rows: Seq<Seq<Datum>>) -> (
    Result<u64, Fault>,
    Db,
) {
    match named(d, name) {
        None => (Err(Fault::TableNotFound(name)), d),
        Some(k) => {
            let a = inserted(d.tables[k], rows, false, rows.len());
            (count_or(rows.len(), a.1), with_table(d, k, a.0))
        },
    }
}

/// The insertion of the first `n` lists of rows in turn, until one fails.
pub open spec fn flushed(
    o: spec_fn(Question) -> Answer,
    d: Db,
    p: Seq<(Seq<char>, Seq<Seq<Datum>>)>,
    n: nat,
) -> (Option<Fault>, Db)
    decreases n,
{
    if n == 0 {
        (None, d)
    } else {
        let before = flushed(o, d, p, (n - 1) as nat);
        if before.0 is Some || p[n - 1].1.len() == 0 {
            before
        } else {
            let a = inserted_txn(o, before.1, p[n - 1].0, p[n - 1].1);
            (
                match a.0 {
                    Ok(_) => None,
                    Err(f) => Some(f),
                },
                a.1,
            )
        }
    }
}

/// Whether a column has a constraint that batches have to keep.
pub open spec fn constrained(c: ColumnModel) -> bool {
    !c.nullable || c.is_primary_key || c.auto_increment
}

/// Whether a table takes rows in batches: one without references and
/// lifetimes, and without constraints, or a columnar one.
pub open spec fn batchable(def: TableModel) -> bool {
    if def.foreign_keys.len() > 0 || def.ttl_column is Some {
        false
    } else if def.indexes.len() == 0 && !(exists|i: int|
        0 <= i < def.columns.len() && constrained(#[trigger] def.columns[i])) {
        true
    } else if def.engine != EngineType::Columnar {
        false
    } else {
        (exists|i: int| 0 <= i < def.columns.len() && constrained(#[trigger] def.columns[i])) || (
        exists|i: int| 0 <= i < def.indexes.len() && (#[trigger] def.indexes[i]).unique)
    }
}

/// Whether a table takes no batches at all.
pub open spec fn excluded(def: TableModel) -> bool {
    def.foreign_keys.len() > 0 || def.ttl_column is Some
}

/// The insertion of rows.
pub open spec fn inserted_all(
    o: spec_fn(Question) -> Answer,
    d: Db,
    name: Seq<char>,
    rows: Seq<Seq<Datum>>,
    bypass_batch: bool,
) -> (Result<u64, Fault>, Db) {
    if !d.config.enable_transaction || !d.txns.ready {
        inserted_direct(d, name, rows)
    } else {
        match table_of(d, name) {
            None => (Err(Fault::TableNotFound(name)), d),
            Some(t) => if !bypass_batch && d.config.wal_batch_insert && d.current is None
                && batchable(t.def) && !excluded(t.def) {
                match validated(d, name, rows) {
                    Some(f) => (Err(f), d),
                    None => match batched(d, name, rows) {
                        Err(f) => (Err(f), d),
                        Ok(b) => if b.1 {
                            inserted_txn(
                                o,
                                Db { batch: unqueued(b.0.batch, name), ..b.0 },
                                name,
                                waiting(b.0.batch, name),
                            )
                        } else {
                            (Ok(rows.len() as u64), b.0)
                        },
                    },
                }
            } else if !bypass_batch && d.current is Some && d.config.txn_batch_enabled && (
            batchable(t.def) || !d.config.txn_batch_bypass_constraint_tables) && !excluded(
                t.def,
            ) {
                match buffered(d, name, rows) {
                    Err(f) => (Err(f), d),
                    Ok(b) => if b.1 {
                        let a = flushed(
                            o,
                            Db { buffer: Seq::empty(), ..b.0 },
                            b.0.buffer,
                            b.0.buffer.len(),
                        );
                        (count_or(rows.len(), a.0), a.1)
                    } else {
                        (Ok(rows.len() as u64), b.0)
                    },
                }
            } else {
                inserted_txn(o, d, name, rows)
            },
        }
    }
}

/// The insertion of rows that are given as columns.
pub open spec fn inserted_columns(
    o: spec_fn(Question) -> Answer,
    d: Db,
    name: Seq<char>,
    columns: Seq<Seq<Datum>>,
) -> (Result<u64, Fault>, Db) {
    let rows = transposed(columns);
    if rows.len() == 0 {
        (Ok(0), d)
    } else if d.config.enable_transaction && d.txns.ready {
        inserted_txn(o, d, name, rows)
    } else {
        inserted_direct(d, name, rows)
    }
}

/// Whether a result and the database are what the model says.
pub open spec fn counts(
    r: Result<u64, EngramDbError>,
    after: Db,
    m: (Result<u64, Fault>, Db),
) -> bool {
    &&& after == m.1
    &&& match (r, m.0) {
        (Ok(a), Ok(b)) => a == b,
        (Err(e), Err(f)) => e.deep_view() == f,
        _ => false,
    }
}

/// Whether an outcome and the database are what the model says.
pub open spec fn settles(
    r: Result<(), EngramDbError>,
    after: Db,
    m: (Option<Fault>, Db),
) -> bool {
    &&& after == m.1
    &&& match (r, m.0) {
        (Ok(_), None) => true,
        (Err(e), Some(f)) => e.deep_view() == f,
        _ => false,
    }
}

/// Writes that have failed stay as they are.
proof fn lemma_applied_stops(d: Db, ops: Seq<Op>, k: nat, n: nat)
    requires
        k <= n,
        applied(d, ops, k).1 is Some,
    ensures
        applied(d, ops, n) == applied(d, ops, k),
    decreases n - k,
{
    if k < n {
        lemma_applied_stops(d, ops, k, (n - 1) as nat);
    }
}

/// Placements that have failed stay as they are.
proof fn lemma_placed_stops(t: Tbl, base: u64, rows: Seq<Seq<Datum>>, k: nat, n: nat)
    requires
        k <= n,
        placed_each(t, base, rows, k).1 is Some,
    ensures
        placed_each(t, base, rows, n) == placed_each(t, base, rows, k),
    decreases n - k,
{
    if k < n {
        lemma_placed_stops(t, base, rows, k, (n - 1) as nat);
    }
}

/// Whether a write went as the model says.
pub open spec fn wrote_as(r: Option<EngramDbError>, after: Tbl, m: (Tbl, Option<Fault>)) -> bool {
    &&& after == m.0
    &&& match (r, m.1) {
        (Some(e), Some(f)) => e.deep_view() == f,
        (None, None) => true,
        _ => false,
    }
}

/// Puts rows into the slots of their numbers.
fn place_rows(t: &mut Table, base: u64, rows: &Vec<Vec<Value>>) -> (r: Option<EngramDbError>)
    requires
        old(t).wf(),
    ensures
        final(t).wf(),
        wrote_as(
            r,
            final(t).deep_view(),
            placed_each(old(t).deep_view(), base, rows.deep_view(), rows.deep_view().len()),
        ),
{
    let ghost was = t.deep_view();
    let ghost all = rows.deep_view();
    let mut i: usize = 0;
    while i < rows.len()
        invariant
            t.wf(),
            was == old(t).deep_view(),
            all == rows.deep_view(),
            i <= rows.len(),
            placed_each(was, base, all, i as nat) == (t.deep_view(), None::<Fault>),
        decreases rows.len() - i,
    {
        assert(all[i as int] == rows[i as int].deep_view());
        match t.insert_row_with_check(base.wrapping_add(i as u64), &rows[i], true) {
            Ok(_) => {},
            Err(e) => {
                proof {
                    lemma_placed_stops(was, base, all, (i + 1) as nat, all.len());
                }
                return Some(e);
            },
        }
        i += 1;
    }
    None
}

/// Applies one write to its table.
fn apply_one(t: &mut Table, op: &ApplyOp) -> (r: Option<EngramDbError>)
    requires
        old(t).wf(),
    ensures
        final(t).wf(),
        wrote_as(r, final(t).deep_view(), wrote(old(t).deep_view(), op.deep_view())),
{
    match op {
        ApplyOp::Insert { table_id, row_id, row } => match t.insert_row_with_check(
            *row_id,
            row,
            true,
        ) {
            Ok(_) => None,
            Err(e) => Some(e),
        },
        ApplyOp::InsertBatch { table_id, base_row_id, columns } => {
            let rows = transpose(columns);
            place_rows(t, *base_row_id, &rows)
        },
        ApplyOp::Update { table_id, row_id, new_row } => match t.update_row(*row_id, new_row) {
            Ok(_) => None,
            Err(e) => Some(e),
        },
        ApplyOp::Delete { table_id, row_id } => {
            t.delete_row(*row_id);
            None
        },
    }
}

/// Applies writes in turn, until one fails.
pub fn apply_to_storage(db: &mut Database, ops: &Vec<ApplyOp>) -> (r: Result<(), EngramDbError>)
    requires
        old(db).wf(),
    ensures
        final(db).wf(),
        ({
            let a = applied(old(db).deep_view(), ops.deep_view(), ops.deep_view().len());
            settles(r, final(db).deep_view(), (a.1, a.0))
        }),
{
    let ghost d = db.deep_view();
    let ghost all = ops.deep_view();
    let mut i: usize = 0;
    while i < ops.len()
        invariant
            db.wf(),
            d == old(db).deep_view(),
            all == ops.deep_view(),
            i <= ops.len(),
            applied(d, all, i as nat) == (db.deep_view(), None::<Fault>),
        decreases ops.len() - i,
    {
        assert(all[i as int] == ops[i as int].deep_view());
        let table_id: u32 = match &ops[i] {
            ApplyOp::Insert { table_id, row_id, row } => *table_id,
            ApplyOp::InsertBatch { table_id, base_row_id, columns } => *table_id,
            ApplyOp::Update { table_id, row_id, new_row } => *table_id,
            ApplyOp::Delete { table_id, row_id } => *table_id,
        };
        if table_id as usize >= db.tables.len() {
            proof {
                lemma_applied_stops(d, all, (i + 1) as nat, all.len());
            }
            let n = u64_text(table_id as u64);
            return Err(EngramDbError::TableNotFound(join2("id=", n.as_str())));
        }
        let k: usize = table_id as usize;
        let ghost was = db.deep_view();
        assert(was.tables[k as int] == db.tables[k as int].deep_view());
        let mut t = db.take_table(k);
        let failed = apply_one(&mut t, &ops[i]);
        db.put_table(k, t);
        if let Some(e) = failed {
            proof {
                lemma_applied_stops(d, all, (i + 1) as nat, all.len());
            }
            return Err(e);
        }
        i += 1;
    }
    Ok(())
}

/// Whether an earlier row has the value in the column.
fn seen_before(rows: &Vec<Vec<Value>>, upto: usize, c: usize, v: &Value) -> (r: bool)
    requires
        upto <= rows.len(),
    ensures
        r == among(rows.deep_view().subrange(0, upto as int), c as int, v.deep_view()),
{
    crate::storage::database::has_among(rows, upto, c, v)
}

/// The first row whose key is taken.
fn find_key_clash(t: &Table, rows: &Vec<Vec<Value>>, c: usize) -> (r: Option<usize>)
    requires
        t.wf(),
    ensures
        pos(r) == key_clash(t.deep_view(), rows.deep_view(), c as int, 0),
        r matches Some(i) ==> i < rows.len() && c < rows[i as int].len(),
{
    let ghost all = rows.deep_view();
    let ghost m = t.deep_view();
    let mut i: usize = 0;
    while i < rows.len()
        invariant
            t.wf(),
            m == t.deep_view(),
            all == rows.deep_view(),
            i <= rows.len(),
            key_clash(m, all, c as int, 0) == key_clash(m, all, c as int, i as int),
        decreases rows.len() - i,
    {
        assert(all[i as int] == rows[i as int].deep_view());
        if c < rows[i].len() {
            let v = &rows[i][c];
            assert(all[i as int][c as int] == v.deep_view());
            if !v.is_null() && (seen_before(rows, i, c, v) || t.lookup_primary_key(v).is_some()) {
                return Some(i);
            }
        }
        i += 1;
    }
    None
}

/// The first unique index whose key is taken.
fn find_unique_clash(t: &Table, rows: &Vec<Vec<Value>>, uniques: &Vec<(String, usize)>) -> (r:
    Option<usize>)
    requires
        t.wf(),
    ensures
        pos(r) == unique_clash(t.deep_view(), rows.deep_view(), uniques.deep_view(), 0),
        r matches Some(k) ==> k < uniques.len(),
{
    let ghost all = rows.deep_view();
    let ghost m = t.deep_view();
    let ghost u = uniques.deep_view();
    let mut i: usize = 0;
    while i < rows.len()
        invariant
            t.wf(),
            m == t.deep_view(),
            all == rows.deep_view(),
            u == uniques.deep_view(),
            i <= rows.len(),
            unique_clash(m, all, u, 0) == unique_clash(m, all, u, i as int),
        decreases rows.len() - i,
    {
        assert(all[i as int] == rows[i as int].deep_view());
        let ghost before = all.subrange(0, i as int);
        let mut k: usize = 0;
        while k < uniques.len()
            invariant
                t.wf(),
                m == t.deep_view(),
                all == rows.deep_view(),
                u == uniques.deep_view(),
                i < rows.len(),
                k <= uniques.len(),
                before == all.subrange(0, i as int),
                all[i as int] == rows[i as int].deep_view(),
                unique_clash(m, all, u, 0) == unique_clash(m, all, u, i as int),
                unique_clash_at(m, before, all[i as int], u, 0) == unique_clash_at(
                    m,
                    before,
                    all[i as int],
                    u,
                    k as int,
                ),
            decreases uniques.len() - k,
        {
            assert(u[k as int] == uniques[k as int].deep_view());
            let c: usize = uniques[k].1;
            if c < rows[i].len() {
                let v = &rows[i][c];
                assert(all[i as int][c as int] == v.deep_view());
                if seen_before(rows, i, c, v) || t.unique_index_contains(
                    uniques[k].0.as_str(),
                    v,
                ) {
                    return Some(k);
                }
            }
            k += 1;
        }
        i += 1;
    }
    None
}

/// What is wrong with rows before they are written.
fn check_conflict<E: Fn(Ask) -> Reply>(t: &Table, rows: &Vec<Vec<Value>>, env: &E) -> (r: Option<
    EngramDbError,
>)
    requires
        answers(*env),
        t.wf(),
    ensures
        match (r, conflict(oracle(*env), t.deep_view(), rows.deep_view())) {
            (Some(e), Some(f)) => e.deep_view() == f,
            (None, None) => true,
            _ => false,
        },
{
    let ghost m = t.deep_view();
    let ghost all = rows.deep_view();
    if let Some(c) = t.def.primary_key_index() {
        proof {
            lemma_first_from(m.def.columns, |x: ColumnModel| x.is_primary_key, 0);
        }
        if let Some(i) = find_key_clash(t, rows, c) {
            assert(m.def.columns[c as int] == t.def.columns[c as int].deep_view());
            assert(all[i as int] == rows[i as int].deep_view());
            let cell = rows[i][c].clone();
            assert(all[i as int][c as int] == cell.deep_view());
            let shown = put_text(env, Ask::Debug(cell));
            let head = join3(
                "UNIQUE constraint failed: ",
                t.def.columns[c].name.as_str(),
                "=",
            );
            let text = join2(head.as_str(), shown.as_str());
            return Some(EngramDbError::ConstraintViolation(text));
        }
    }
    let uniques = unique_keys(&t.def.indexes);
    if let Some(k) = find_unique_clash(t, rows, &uniques) {
        assert(uniques.deep_view()[k as int] == uniques[k as int].deep_view());
        let text = join3("UNIQUE constraint failed: index '", uniques[k].0.as_str(), "'");
        return Some(EngramDbError::ConstraintViolation(text));
    }
    None
}

/// Inserts rows through a transaction of their own. Keys that are taken are
/// found before anything is written.
pub fn execute_with_txn<E: Fn(Ask) -> Reply>(
    db: &mut Database,
    table_name: &str,
    rows: Vec<Vec<Value>>,
    env: &E,
) -> (r: Result<u64, EngramDbError>)
    requires
        answers(*env),
        old(db).wf(),
    ensures
        final(db).wf(),
        counts(
            r,
            final(db).deep_view(),
            inserted_txn(oracle(*env), old(db).deep_view(), table_name@, rows.deep_view()),
        ),
{
    let ghost d = db.deep_view();
    let ghost all = rows.deep_view();
    let k: usize = match db.find_table(table_name) {
        Some(k) => k,
        None => {
            return Err(EngramDbError::TableNotFound(table_name.to_owned()));
        },
    };
    if let Some(e) = check_conflict(&db.tables[k], &rows, env) {
        return Err(e);
    }
    let n: usize = rows.len();
    let base: u64 = db.tables[k].def.row_count;
    let isolation = db.config.default_isolation_level;
    let id: u64 = db.txns.begin(isolation);
    let ghost ops = row_inserts(k as u32, base, all);
    proof {
        law_commit_hands_out_writes(d.txns, ops);
    }
    match db.txns.batch_insert(id, k as u32, base, rows) {
        Ok(_) => {},
        Err(e) => {
            return Err(e);
        },
    }
    let done = match db.txns.commit(id) {
        Ok(c) => c,
        Err(e) => {
            return Err(e);
        },
    };
    assert(db.deep_view() =~= Db { txns: ticked(d.txns), ..d });
    match apply_to_storage(db, &done.apply_ops) {
        Ok(_) => Ok(n as u64),
        Err(e) => Err(e),
    }
}

/// Inserts rows without a transaction.
pub fn execute_without_txn(db: &mut Database, table_name: &str, rows: &Vec<Vec<Value>>) -> (r:
    Result<u64, EngramDbError>)
    requires
        old(db).wf(),
    ensures
        final(db).wf(),
        counts(
            r,
            final(db).deep_view(),
            inserted_direct(old(db).deep_view(), table_name@, rows.deep_view()),
        ),
{
    let k: usize = match db.find_table(table_name) {
        Some(k) => k,
        None => {
            return Err(EngramDbError::TableNotFound(table_name.to_owned()));
        },
    };
    let mut t = db.take_table(k);
    let r = t.insert_rows(rows);
    db.put_table(k, t);
    r
}

/// Inserts lists of rows in turn, until one fails.
fn insert_pending<E: Fn(Ask) -> Reply>(db: &mut Database, pending: &Vec<Pending>, env: &E) -> (r:
    Result<(), EngramDbError>)
    requires
        answers(*env),
        old(db).wf(),
    ensures
        final(db).wf(),
        settles(
            r,
            final(db).deep_view(),
            flushed(
                oracle(*env),
                old(db).deep_view(),
                pending.deep_view(),
                pending.deep_view().len(),
            ),
        ),
{
    let ghost o = oracle(*env);
    let ghost d = db.deep_view();
    let ghost p = pending.deep_view();
    let mut i: usize = 0;
    while i < pending.len()
        invariant
            answers(*env),
            db.wf(),
            o == oracle(*env),
            d == old(db).deep_view(),
            p == pending.deep_view(),
            i <= pending.len(),
            flushed(o, d, p, i as nat) == (None::<Fault>, db.deep_view()),
        decreases pending.len() - i,
    {
        assert(p[i as int] == pending[i as int].deep_view());
        if pending[i].rows.len() > 0 {
            let rows = clone_rows(&pending[i].rows);
            match execute_with_txn(db, pending[i].table.as_str(), rows, env) {
                Ok(_) => {},
                Err(e) => {
                    proof {
                        lemma_flushed_stops(o, d, p, (i + 1) as nat, p.len());
                    }
                    return Err(e);
                },
            }
        }
        i += 1;
    }
    Ok(())
}

/// A flush that has failed stays as it is.
proof fn lemma_flushed_stops(
    o: spec_fn(Question) -> Answer,
    d: Db,
    p: Seq<(Seq<char>, Seq<Seq<Datum>>)>,
    k: nat,
    n: nat,
)
    requires
        k <= n,
        flushed(o, d, p, k).0 is Some,
    ensures
        flushed(o, d, p, n) == flushed(o, d, p, k),
    decreases n - k,
{
    if k < n {
        lemma_flushed_stops(o, d, p, k, (n - 1) as nat);
    }
}

/// Writes all batches.
pub fn flush_all_batched<E: Fn(Ask) -> Reply>(db: &mut Database, env: &E) -> (r: Result<
    (),
    EngramDbError,
>)
    requires
        answers(*env),
        old(db).wf(),
    ensures
        final(db).wf(),
        settles(
            r,
            final(db).deep_view(),
            flushed(
                oracle(*env),
                Db { batch: Seq::empty(), ..old(db).deep_view() },
                old(db).deep_view().batch,
                old(db).deep_view().batch.len(),
            ),
        ),
{
    let pending = db.drain_all();
    insert_pending(db, &pending, env)
}

/// Writes the buffer of the open transaction.
pub fn flush_txn_buffer<E: Fn(Ask) -> Reply>(db: &mut Database, env: &E) -> (r: Result<
    (),
    EngramDbError,
>)
    requires
        answers(*env),
        old(db).wf(),
    ensures
        final(db).wf(),
        settles(
            r,
            final(db).deep_view(),
            flushed(
                oracle(*env),
                Db { buffer: Seq::empty(), ..old(db).deep_view() },
                old(db).deep_view().buffer,
                old(db).deep_view().buffer.len(),
            ),
        ),
{
    let pending = db.take_buffer();
    insert_pending(db, &pending, env)
}

/// Whether a column has a constraint that batches have to keep.
fn any_constrained(def: &TableDef) -> (r: bool)
    ensures
        r == (exists|i: int|
            0 <= i < def.deep_view().columns.len() && constrained(
                #[trigger] def.deep_view().columns[i],
            )),
{
    let ghost all = def.deep_view().columns;
    let mut i: usize = 0;
    while i < def.columns.len()
        invariant
            i <= def.columns.len(),
            all == def.columns.deep_view(),
            forall|k: int| 0 <= k < i ==> !constrained(#[trigger] all[k]),
        decreases def.columns.len() - i,
    {
        assert(all[i as int] == def.columns[i as int].deep_view());
        let c = &def.columns[i];
        if !c.nullable || c.is_primary_key || c.auto_increment {
            assert(constrained(def.deep_view().columns[i as int]));
            return true;
        }
        i += 1;
    }
    false
}

/// Whether an index is unique.
fn any_unique(def: &TableDef) -> (r: bool)
    ensures
        r == (exists|i: int|
            0 <= i < def.deep_view().indexes.len() && (
            #[trigger] def.deep_view().indexes[i]).unique),
{
    let ghost all = def.deep_view().indexes;
    let mut i: usize = 0;
    while i < def.indexes.len()
        invariant
            i <= def.indexes.len(),
            all == def.indexes.deep_view(),
            forall|k: int| 0 <= k < i ==> !(#[trigger] all[k]).unique,
        decreases def.indexes.len() - i,
    {
        assert(all[i as int] == def.indexes[i as int].deep_view());
        if def.indexes[i].unique {
            assert(def.deep_view().indexes[i as int].unique);
            return true;
        }
        i += 1;
    }
    false
}

/// Whether a table takes rows in batches.
pub fn table_batchable(def: &TableDef) -> (r: bool)
    ensures
        r == batchable(def.deep_view()),
{
    if def.foreign_keys.len() > 0 || def.ttl_column.is_some() {
        return false;
    }
    let any = any_constrained(def);
    if def.indexes.len() == 0 && !any {
        return true;
    }
    if def.engine != EngineType::Columnar {
        return false;
    }
    any || any_unique(def)
}

/// Whether a table takes no batches at all.
pub fn table_excludes_batch(def: &TableDef) -> (r: bool)
    ensures
        r == excluded(def.deep_view()),
{
    def.foreign_keys.len() > 0 || def.ttl_column.is_some()
}

/// Inserts rows: into a batch, into the buffer of the open transaction,
/// through a transaction of their own, or directly.
pub fn execute<E: Fn(Ask) -> Reply>(
    db: &mut Database,
    table_name: &str,
    rows: Vec<Vec<Value>>,
    bypass_batch: bool,
    env: &E,
) -> (r: Result<u64, EngramDbError>)
    requires
        answers(*env),
        old(db).wf(),
    ensures
        final(db).wf(),
        counts(
            r,
            final(db).deep_view(),
            inserted_all(
                oracle(*env),
                old(db).deep_view(),
                table_name@,
                rows.deep_view(),
                bypass_batch,
            ),
        ),
{
    if !db.config.enable_transaction || !db.txns.is_ready() {
        return execute_without_txn(db, table_name, &rows);
    }
    let k: usize = match db.find_table(table_name) {
        Some(k) => k,
        None => {
            return Err(EngramDbError::TableNotFound(table_name.to_owned()));
        },
    };
    let batchable = table_batchable(&db.tables[k].def);
    let excluded = table_excludes_batch(&db.tables[k].def);
    let n: u64 = rows.len() as u64;
    if !bypass_batch && db.config.wal_batch_insert && !db.in_explicit_txn() && batchable
        && !excluded {
        if let Some(e) = db.validate_rows_against_committed(table_name, &rows) {
            return Err(e);
        }
        return match db.push_checked(table_name, rows) {
            Err(e) => Err(e),
            Ok(full) => if full {
                let all = db.drain(table_name);
                execute_with_txn(db, table_name, all, env)
            } else {
                Ok(n)
            },
        };
    }
    if !bypass_batch && db.in_explicit_txn() && db.config.txn_batch_enabled && (batchable
        || !db.config.txn_batch_bypass_constraint_tables) && !excluded {
        return match db.txn_buffer_push(table_name, rows) {
            Err(e) => Err(e),
            Ok(full) => if full {
                match flush_txn_buffer(db, env) {
                    Ok(_) => Ok(n),
                    Err(e) => Err(e),
                }
            } else {
                Ok(n)
            },
        };
    }
    execute_with_txn(db, table_name, rows, env)
}

/// Inserts rows that are given as columns.
pub fn execute_columns<E: Fn(Ask) -> Reply>(
    db: &mut Database,
    table_name: &str,
    columns: &Vec<Vec<Value>>,
    env: &E,
) -> (r: Result<u64, EngramDbError>)
    requires
        answers(*env),
        old(db).wf(),
    ensures
        final(db).wf(),
        counts(
            r,
            final(db).deep_view(),
            inserted_columns(
                oracle(*env),
                old(db).deep_view(),
                table_name@,
                columns.deep_view(),
            ),
        ),
{
    let rows = transpose(columns);
    if rows.len() == 0 {
        return Ok(0);
    }
    if db.config.enable_transaction && db.txns.is_ready() {
        execute_with_txn(db, table_name, rows, env)
    } else {
        insert_columns_direct(db, table_name, columns)
    }
}

/// Inserts rows that are given as columns without a transaction.
fn insert_columns_direct(db: &mut Database, table_name: &str, columns: &Vec<Vec<Value>>) -> (r:
    Result<u64, EngramDbError>)
    requires
        old(db).wf(),
    ensures
        final(db).wf(),
        counts(
            r,
            final(db).deep_view(),
            inserted_direct(
                old(db).deep_view(),
                table_name@,
                transposed(columns.deep_view()),
            ),
        ),
{
    let k: usize = match db.find_table(table_name) {
        Some(k) => k,
        None => {
            return Err(EngramDbError::TableNotFound(table_name.to_owned()));
        },
    };
    let mut t = db.take_table(k);
    let r = t.insert_columns_with_check(columns, false);
    db.put_table(k, t);
    r
}

} // verus!
