//! Which rows an insertion adds.
use vstd::prelude::*;

use crate::common::error::Fault;
use crate::common::types::ColumnModel;
use crate::executor::env::{Answer, Question};
use crate::executor::operators::insert::{
    applied, conflict, inserted_all, inserted_columns, inserted_direct, inserted_txn, placed_each,
    target, ticked, wrote,
};
use crate::storage::database::{lemma_named, named, Db};
use crate::storage::table::{inserted, lemma_live_same, live, numbered, transposed, Tbl};
use crate::storage::txn::{row_inserts, Op};
use crate::value::Datum;

verus! {

/// The first `n` rows as a table stores them, and the next number that is given
/// to a row.
pub open spec fn stored(columns: Seq<ColumnModel>, next: u64, rows: Seq<Seq<Datum>>, n: nat) -> (
    Seq<Seq<Datum>>,
    u64,
)
    decreases n,
{
    if n == 0 {
        (Seq::empty(), next)
    } else {
        let before = stored(columns, next, rows, (n - 1) as nat);
        let full = numbered(columns, rows[n - 1], before.1, columns.len());
        (before.0.push(full.0), full.1)
    }
}

/// Rows with their numbers, from `base` on.
pub open spec fn with_numbers(base: nat, rows: Seq<Seq<Datum>>) -> Seq<(u64, Seq<Datum>)> {
    Seq::new(rows.len(), |i: int| ((base + i) as u64, rows[i]))
}

/// Whether a table is another with the first `n` rows behind its slots.
spec fn grown(t: Tbl, u: Tbl, rows: Seq<Seq<Datum>>, n: nat) -> bool {
    let s = stored(t.def.columns, t.def.next_auto_increment_id, rows, n);
    &&& u.def.columns == t.def.columns
    &&& u.def.next_auto_increment_id == s.1
    &&& s.0.len() == n
    &&& u.slots.len() == t.slots.len() + n
    &&& forall|i: int| 0 <= i < t.slots.len() ==> u.slots[i] == t.slots[i]
    &&& forall|i: int| 0 <= i < n ==> #[trigger] u.slots[t.slots.len() + i] == Some(s.0[i])
}

/// What the first `n` rows add without a transaction.
proof fn lemma_grown_direct(t: Tbl, rows: Seq<Seq<Datum>>, n: nat)
    requires
        n <= rows.len(),
        inserted(t, rows, false, n).1 is None,
    ensures
        grown(t, inserted(t, rows, false, n).0, rows, n),
    decreases n,
{
    if n > 0 {
        lemma_grown_direct(t, rows, (n - 1) as nat);
    }
}

/// Writes that succeed succeed from the first on.
proof fn lemma_first_ok(d: Db, ops: Seq<Op>, n: nat)
    requires
        n > 0,
        applied(d, ops, n).1 is None,
    ensures
        applied(d, ops, (n - 1) as nat).1 is None,
{
}

/// What the first `n` rows add through a transaction.
proof fn lemma_grown_txn(d: Db, k: int, rows: Seq<Seq<Datum>>, n: nat)
    requires
        0 <= k < d.tables.len(),
        k <= u32::MAX,
        d.tables[k].def.row_count == d.tables[k].slots.len(),
        d.tables[k].slots.len() + rows.len() <= u64::MAX,
        n <= rows.len(),
        applied(d, row_inserts(k as u32, d.tables[k].def.row_count, rows), n).1 is None,
    ensures
        ({
            let ops = row_inserts(k as u32, d.tables[k].def.row_count, rows);
            let a = applied(d, ops, n).0;
            &&& a.tables.len() == d.tables.len()
            &&& grown(d.tables[k], a.tables[k], rows, n)
            &&& forall|j: int|
                0 <= j < d.tables.len() && j != k ==> #[trigger] a.tables[j] == d.tables[j]
        }),
    decreases n,
{
    if n > 0 {
        let ops = row_inserts(k as u32, d.tables[k].def.row_count, rows);
        lemma_first_ok(d, ops, n);
        lemma_grown_txn(d, k, rows, (n - 1) as nat);
        let t = applied(d, ops, (n - 1) as nat).0.tables[k];
        assert(ops[n - 1] == Op::Insert(
            k as u32,
            (d.tables[k].slots.len() + n - 1) as u64,
            rows[n - 1],
        ));
        assert(t.slots.len() == d.tables[k].slots.len() + n - 1);
    }
}

/// The live rows of a table that has grown.
proof fn lemma_live_grown(t: Tbl, u: Tbl, rows: Seq<Seq<Datum>>, all: nat, n: nat)
    requires
        grown(t, u, rows, all),
        n <= all,
    ensures
        ({
            let s = stored(t.def.columns, t.def.next_auto_increment_id, rows, all).0;
            live(u.slots, t.slots.len() + n) == live(t.slots, t.slots.len()) + with_numbers(
                t.slots.len(),
                s.subrange(0, n as int),
            )
        }),
    decreases n,
{
    let s = stored(t.def.columns, t.def.next_auto_increment_id, rows, all).0;
    let old_rows = live(t.slots, t.slots.len());
    if n == 0 {
        lemma_live_same(t.slots, u.slots, t.slots.len());
        assert(with_numbers(t.slots.len(), s.subrange(0, 0)) =~= Seq::empty());
        assert(live(u.slots, t.slots.len()) =~= old_rows + with_numbers(
            t.slots.len(),
            s.subrange(0, 0),
        ));
    } else {
        lemma_live_grown(t, u, rows, all, (n - 1) as nat);
        let i = t.slots.len() + n - 1;
        assert(u.slots[t.slots.len() + (n - 1)] == Some(s[n - 1]));
        assert(with_numbers(t.slots.len(), s.subrange(0, n as int)) =~= with_numbers(
            t.slots.len(),
            s.subrange(0, n - 1),
        ).push((i as u64, s[n - 1])));
        assert(live(u.slots, t.slots.len() + n) =~= old_rows + with_numbers(
            t.slots.len(),
            s.subrange(0, n as int),
        ));
    }
}

/// Whether a database is another with rows behind those of a table, in their
/// order, as the columns store them, and other tables as they were.
pub open spec fn adds(d: Db, name: Seq<char>, rows: Seq<Seq<Datum>>, after: Db) -> bool {
    let k = named(d, name)->0;
    let t = d.tables[k];
    let s = stored(t.def.columns, t.def.next_auto_increment_id, rows, rows.len()).0;
    &&& after.tables.len() == d.tables.len()
    &&& live(after.tables[k].slots, after.tables[k].slots.len()) == live(
        t.slots,
        t.slots.len(),
    ) + with_numbers(t.slots.len(), s)
    &&& forall|j: int|
        0 <= j < d.tables.len() && j != k ==> #[trigger] after.tables[j] == d.tables[j]
}

/// Rows that are inserted stand behind those that were there, in their order,
/// as the columns store them. Other tables are as they were.
pub proof fn law_insert_adds(
    o: spec_fn(Question) -> Answer,
    d: Db,
    name: Seq<char>,
    rows: Seq<Seq<Datum>>,
)
    requires
        named(d, name) matches Some(k) && k <= u32::MAX && d.tables[k].def.row_count
            == d.tables[k].slots.len() && d.tables[k].slots.len() + rows.len() <= u64::MAX,
    ensures
        inserted_txn(o, d, name, rows).0 is Ok ==> adds(
            d,
            name,
            rows,
            inserted_txn(o, d, name, rows).1,
        ),
        inserted_direct(d, name, rows).0 is Ok ==> adds(
            d,
            name,
            rows,
            inserted_direct(d, name, rows).1,
        ),
{
    let k = named(d, name)->0;
    lemma_named(d.tables, name, 0);
    let t = d.tables[k];
    let s = stored(t.def.columns, t.def.next_auto_increment_id, rows, rows.len()).0;
    if inserted_txn(o, d, name, rows).0 is Ok {
        let start = Db { txns: ticked(d.txns), ..d };
        lemma_grown_txn(start, k, rows, rows.len());
        let after = inserted_txn(o, d, name, rows).1;
        lemma_live_grown(t, after.tables[k], rows, rows.len(), rows.len());
        assert(s.subrange(0, rows.len() as int) =~= s);
    }
    if inserted_direct(d, name, rows).0 is Ok {
        lemma_grown_direct(t, rows, rows.len());
        let after = inserted_direct(d, name, rows).1;
        lemma_live_grown(t, after.tables[k], rows, rows.len(), rows.len());
        assert(s.subrange(0, rows.len() as int) =~= s);
    }
}

/// Rows whose keys are taken are refused before anything is written: the
/// database is as it was.
pub proof fn law_conflict_changes_nothing(
    o: spec_fn(Question) -> Answer,
    d: Db,
    name: Seq<char>,
    rows: Seq<Seq<Datum>>,
)
    requires
        named(d, name) matches Some(k) && conflict(o, d.tables[k], rows) is Some,
    ensures
        inserted_txn(o, d, name, rows) == (
            Err::<u64, Fault>(conflict(o, d.tables[named(d, name)->0], rows)->0),
            d,
        ),
{
}

/// Rows that are given as columns are inserted as rows are that wait in no
/// batch.
pub proof fn law_columns_as_rows(
    o: spec_fn(Question) -> Answer,
    d: Db,
    name: Seq<char>,
    columns: Seq<Seq<Datum>>,
)
    requires
        transposed(columns).len() > 0,
    ensures
        inserted_columns(o, d, name, columns) == inserted_all(
            o,
            d,
            name,
            transposed(columns),
            true,
        ),
{
}

/// Whether a table is another with a row in a slot. Slots that it got besides
/// are empty.
pub open spec fn lands(t: Tbl, u: Tbl, id: int, row: Seq<Datum>) -> bool {
    &&& u.slots.len() == if id < t.slots.len() {
        t.slots.len() as int
    } else {
        id + 1
    }
    &&& u.slots[id] == Some(row)
    &&& forall|j: int|
        0 <= j < u.slots.len() && j != id ==> #[trigger] u.slots[j] == if j < t.slots.len() {
            t.slots[j]
        } else {
            None
        }
}

/// An insertion that does not fail puts the row, as the columns store it, into
/// the slot of its number, wherever the table ended. Other rows stay.
pub proof fn law_insert_lands(t: Tbl, k: u32, id: u64, row: Seq<Datum>)
    requires
        id < usize::MAX,
    ensures
        wrote(t, Op::Insert(k, id, row)).1 is None ==> lands(
            t,
            wrote(t, Op::Insert(k, id, row)).0,
            id as int,
            numbered(
                t.def.columns,
                row,
                t.def.next_auto_increment_id,
                t.def.columns.len(),
            ).0,
        ),
{
}

/// Whether a table is another with the first `n` rows in the slots from `base`
/// on. Slots that it got besides are empty.
pub open spec fn lands_from(
    t: Tbl,
    u: Tbl,
    base: int,
    rows: Seq<Seq<Datum>>,
    n: nat,
) -> bool {
    let s = stored(t.def.columns, t.def.next_auto_increment_id, rows, n);
    &&& s.0.len() == n
    &&& u.def.columns == t.def.columns
    &&& u.def.next_auto_increment_id == s.1
    &&& u.slots.len() == if n == 0 || base + n <= t.slots.len() {
        t.slots.len() as int
    } else {
        base + n
    }
    &&& forall|i: int| 0 <= i < n ==> #[trigger] u.slots[base + i] == Some(s.0[i])
    &&& forall|j: int|
        0 <= j < u.slots.len() && !(base <= j < base + n) ==> #[trigger] u.slots[j] == if j
            < t.slots.len() {
            t.slots[j]
        } else {
            None
        }
}

/// The first `n` rows of a batch land.
proof fn lemma_batch_lands(t: Tbl, base: u64, rows: Seq<Seq<Datum>>, n: nat)
    requires
        n <= rows.len(),
        base + rows.len() <= usize::MAX,
        placed_each(t, base, rows, n).1 is None,
    ensures
        lands_from(t, placed_each(t, base, rows, n).0, base as int, rows, n),
    decreases n,
{
    if n > 0 {
        lemma_batch_lands(t, base, rows, (n - 1) as nat);
        let before = placed_each(t, base, rows, (n - 1) as nat).0;
        let u = placed_each(t, base, rows, n).0;
        let id = base.wrapping_add((n - 1) as u64);
        assert(id == base + n - 1);
        let s = stored(t.def.columns, t.def.next_auto_increment_id, rows, n).0;
        let p = stored(t.def.columns, t.def.next_auto_increment_id, rows, (n - 1) as nat).0;
        assert(lands(before, u, id as int, s[n - 1]));
        assert forall|i: int| 0 <= i < n implies #[trigger] u.slots[base + i] == Some(s[i]) by {
            if i < n - 1 {
                assert(before.slots[base + i] == Some(p[i]));
                assert(s[i] == p[i]);
            }
        }
    }
}

/// A batch of rows that does not fail puts row `i`, as the columns store it,
/// into the slot behind the first by `i`. Other rows stay.
pub proof fn law_batch_lands(t: Tbl, k: u32, base: u64, columns: Seq<Seq<Datum>>)
    requires
        base + transposed(columns).len() <= usize::MAX,
    ensures
        wrote(t, Op::InsertBatch(k, base, columns)).1 is None ==> lands_from(
            t,
            wrote(t, Op::InsertBatch(k, base, columns)).0,
            base as int,
            transposed(columns),
            transposed(columns).len(),
        ),
{
    let rows = transposed(columns);
    if placed_each(t, base, rows, rows.len()).1 is None {
        lemma_batch_lands(t, base, rows, rows.len());
    }
}

/// An update that does not fail replaces the row of its number, and a deletion
/// takes it away. Other rows stay.
pub proof fn law_change_lands(t: Tbl, k: u32, id: u64, row: Seq<Datum>)
    requires
        id < t.slots.len(),
        t.slots[id as int] is Some,
    ensures
        wrote(t, Op::Update(k, id, row)).1 is None ==> wrote(t, Op::Update(k, id, row)).0.slots
            == t.slots.update(id as int, Some(row)),
        wrote(t, Op::Delete(k, id)).1 is None,
        wrote(t, Op::Delete(k, id)).0.slots == t.slots.update(id as int, None),
{
}

/// Writes to tables that are there go on where the writes before them ended:
/// each changes the table that it names as it would by itself, and no other.
/// All of them succeed where none fails.
pub proof fn law_writes_in_turn(d: Db, ops: Seq<Op>, n: nat)
    requires
        n < ops.len(),
        applied(d, ops, n).1 is None,
        target(ops[n as int]) < applied(d, ops, n).0.tables.len(),
    ensures
        ({
            let (b, a) = (applied(d, ops, n).0, applied(d, ops, n + 1));
            let k = target(ops[n as int]) as int;
            let w = wrote(b.tables[k], ops[n as int]);
            &&& a.1 == w.1
            &&& a.0.tables.len() == b.tables.len()
            &&& a.0.tables[k] == w.0
            &&& forall|j: int|
                0 <= j < b.tables.len() && j != k ==> #[trigger] a.0.tables[j] == b.tables[j]
        }),
{
}

} // verus!
