//! Which rows a deletion leaves.
use vstd::prelude::*;

use crate::common::error::Fault;
use crate::executor::env::{Answer, Question};
use crate::executor::operators::delete::{column_names, deleted, deletions, meets};
use crate::executor::operators::insert::{applied, ticked};
use crate::sql::ast::Expr;
use crate::storage::database::{lemma_named, named, Db};
use crate::storage::table::live;
use crate::storage::txn::Op;
use crate::value::Datum;

verus! {

/// The rows among the first `n` of which a condition is not true.
pub open spec fn survivors(
    o: spec_fn(Question) -> Answer,
    rows: Seq<(u64, Seq<Datum>)>,
    cond: Option<Expr>,
    names: Seq<Seq<char>>,
    n: nat,
) -> Seq<(u64, Seq<Datum>)>
    decreases n,
{
    if n == 0 {
        Seq::empty()
    } else {
        let before = survivors(o, rows, cond, names, (n - 1) as nat);
        if meets(o, rows[n - 1].1, cond, names) == Ok::<bool, Fault>(true) {
            before
        } else {
            before.push(rows[n - 1])
        }
    }
}

/// Whether one of the first `n` writes deletes a row.
spec fn deletes(ops: Seq<Op>, table: u32, id: u64, n: nat) -> bool {
    exists|m: int| 0 <= m < n && #[trigger] ops[m] == Op::Delete(table, id)
}

/// Whether one of the first `n` rows has the number, and the condition is true
/// of it.
spec fn condemned(
    o: spec_fn(Question) -> Answer,
    rows: Seq<(u64, Seq<Datum>)>,
    cond: Option<Expr>,
    names: Seq<Seq<char>>,
    id: u64,
    n: nat,
) -> bool {
    exists|x: int|
        0 <= x < n && (#[trigger] rows[x]).0 == id && meets(o, rows[x].1, cond, names) == Ok::<
            bool,
            Fault,
        >(true)
}

/// The deletions are those of the rows of which the condition is true.
proof fn lemma_deletions(
    o: spec_fn(Question) -> Answer,
    table: u32,
    rows: Seq<(u64, Seq<Datum>)>,
    cond: Option<Expr>,
    names: Seq<Seq<char>>,
    n: nat,
)
    requires
        n <= rows.len(),
        deletions(o, table, rows, cond, names, n) is Ok,
    ensures
        ({
            let ops = deletions(o, table, rows, cond, names, n)->Ok_0;
            &&& forall|m: int|
                0 <= m < ops.len() ==> #[trigger] ops[m] is Delete && ops[m]->Delete_0 == table
            &&& forall|id: u64| #[trigger]
                deletes(ops, table, id, ops.len()) <==> condemned(o, rows, cond, names, id, n)
        }),
    decreases n,
{
    let ops = deletions(o, table, rows, cond, names, n)->Ok_0;
    if n > 0 {
        lemma_deletions(o, table, rows, cond, names, (n - 1) as nat);
        let before = deletions(o, table, rows, cond, names, (n - 1) as nat)->Ok_0;
        let row = rows[n - 1];
        assert forall|id: u64| #[trigger] deletes(ops, table, id, ops.len()) <==> condemned(
            o,
            rows,
            cond,
            names,
            id,
            n,
        ) by {
            if deletes(ops, table, id, ops.len()) {
                let m = choose|m: int|
                    0 <= m < ops.len() && #[trigger] ops[m] == Op::Delete(table, id);
                if m < before.len() {
                    assert(before[m] == Op::Delete(table, id));
                    assert(deletes(before, table, id, before.len()));
                    let x = choose|x: int|
                        0 <= x < n - 1 && (#[trigger] rows[x]).0 == id && meets(
                            o,
                            rows[x].1,
                            cond,
                            names,
                        ) == Ok::<bool, Fault>(true);
                    assert(rows[x].0 == id);
                } else {
                    assert(rows[n - 1].0 == id);
                }
            }
            if condemned(o, rows, cond, names, id, n) {
                let x = choose|x: int|
                    0 <= x < n && (#[trigger] rows[x]).0 == id && meets(o, rows[x].1, cond, names)
                        == Ok::<bool, Fault>(true);
                if x < n - 1 {
                    assert(condemned(o, rows, cond, names, id, (n - 1) as nat));
                    assert(deletes(before, table, id, before.len()));
                    let m = choose|m: int|
                        0 <= m < before.len() && #[trigger] before[m] == Op::Delete(table, id);
                    assert(ops[m] == Op::Delete(table, id));
                } else {
                    assert(ops[before.len() as int] == Op::Delete(table, id));
                }
            }
        }
    } else {
        assert forall|id: u64| !#[trigger] deletes(ops, table, id, ops.len()) by {}
    }
}

/// Deletions empty the slots that they name.
proof fn lemma_emptied(d: Db, ops: Seq<Op>, k: int, n: nat)
    requires
        0 <= k < d.tables.len(),
        k <= u32::MAX,
        n <= ops.len(),
        forall|m: int|
            0 <= m < ops.len() ==> #[trigger] ops[m] is Delete && ops[m]->Delete_0 == k as u32,
    ensures
        ({
            let a = applied(d, ops, n);
            &&& a.1 is None
            &&& a.0.tables.len() == d.tables.len()
            &&& a.0.tables[k].slots.len() == d.tables[k].slots.len()
            &&& forall|i: int|
                0 <= i < d.tables[k].slots.len() && i <= u64::MAX
                    ==> #[trigger] a.0.tables[k].slots[i] == if deletes(
                    ops,
                    k as u32,
                    i as u64,
                    n,
                ) {
                    None
                } else {
                    d.tables[k].slots[i]
                }
            &&& forall|j: int|
                0 <= j < d.tables.len() && j != k ==> #[trigger] a.0.tables[j] == d.tables[j]
        }),
    decreases n,
{
    if n > 0 {
        lemma_emptied(d, ops, k, (n - 1) as nat);
        let (b, a) = (applied(d, ops, (n - 1) as nat), applied(d, ops, n));
        let id = ops[n - 1]->Delete_1;
        assert(ops[n - 1] == Op::Delete(k as u32, id));
        let slots = d.tables[k].slots;
        assert forall|i: int|
            0 <= i < slots.len() && i <= u64::MAX implies #[trigger] a.0.tables[k].slots[i]
            == if deletes(ops, k as u32, i as u64, n) {
            None
        } else {
            slots[i]
        } by {
            assert(b.0.tables[k].slots[i] == if deletes(
                ops,
                k as u32,
                i as u64,
                (n - 1) as nat,
            ) {
                None
            } else {
                slots[i]
            });
            if i == id {
                assert(deletes(ops, k as u32, i as u64, n));
            } else {
                if deletes(ops, k as u32, i as u64, n) {
                    let m = choose|m: int|
                        0 <= m < n && #[trigger] ops[m] == Op::Delete(k as u32, i as u64);
                    assert(m < n - 1);
                    assert(deletes(ops, k as u32, i as u64, (n - 1) as nat));
                }
                if deletes(ops, k as u32, i as u64, (n - 1) as nat) {
                    let m = choose|m: int|
                        0 <= m < n - 1 && #[trigger] ops[m] == Op::Delete(k as u32, i as u64);
                    assert(ops[m] == Op::Delete(k as u32, i as u64));
                }
            }
        }
    } else {
        assert forall|i: u64| !#[trigger] deletes(ops, k as u32, i, 0) by {}
    }
}

/// The live rows are numbered by their slots, in ascending order, and those
/// of the first slots come first.
pub proof fn lemma_live(slots: Seq<Option<Seq<Datum>>>, n: nat, all: nat)
    requires
        n <= all <= slots.len(),
        all <= u64::MAX,
    ensures
        live(slots, n).len() <= live(slots, all).len(),
        forall|x: int|
            0 <= x < live(slots, n).len() ==> #[trigger] live(slots, n)[x] == live(slots, all)[x]
                && live(slots, n)[x].0 < n,
        forall|x: int|
            live(slots, n).len() <= x < live(slots, all).len() ==> (
            #[trigger] live(slots, all)[x]).0 >= n,
    decreases all,
{
    if n < all {
        lemma_live(slots, n, (all - 1) as nat);
        let (a, b) = (live(slots, (all - 1) as nat), live(slots, all));
        assert forall|x: int| 0 <= x < live(slots, n).len() implies #[trigger] live(slots, n)[x]
            == b[x] && live(slots, n)[x].0 < n by {
            assert(live(slots, n)[x] == a[x]);
        }
        assert forall|x: int| live(slots, n).len() <= x < b.len() implies (
        #[trigger] b[x]).0 >= n by {
            if x < a.len() {
                assert(b[x] == a[x]);
            }
        }
    } else if n > 0 {
        lemma_live(slots, (n - 1) as nat, (n - 1) as nat);
        let (a, b) = (live(slots, (n - 1) as nat), live(slots, n));
        assert forall|x: int| 0 <= x < b.len() implies (#[trigger] b[x]).0 < n by {
            if x < a.len() {
                assert(b[x] == a[x]);
            }
        }
    }
}

/// What is live after the deletions, slot by slot.
proof fn lemma_survive(
    o: spec_fn(Question) -> Answer,
    slots: Seq<Option<Seq<Datum>>>,
    after: Seq<Option<Seq<Datum>>>,
    cond: Option<Expr>,
    names: Seq<Seq<char>>,
    n: nat,
)
    requires
        n <= slots.len() == after.len(),
        slots.len() <= u64::MAX,
        ({
            let rows = live(slots, slots.len());
            forall|i: int|
                0 <= i < slots.len() ==> #[trigger] after[i] == if condemned(
                    o,
                    rows,
                    cond,
                    names,
                    i as u64,
                    rows.len(),
                ) {
                    None
                } else {
                    slots[i]
                }
        }),
    ensures
        live(after, n) == survivors(
            o,
            live(slots, slots.len()),
            cond,
            names,
            live(slots, n).len(),
        ),
    decreases n,
{
    let rows = live(slots, slots.len());
    if n > 0 {
        lemma_survive(o, slots, after, cond, names, (n - 1) as nat);
        let x = live(slots, (n - 1) as nat).len() as int;
        lemma_live(slots, n, slots.len());
        lemma_live(slots, (n - 1) as nat, slots.len());
        let i = n - 1;
        if slots[i] is Some {
            assert(live(slots, n)[x] == rows[x]);
            assert(rows[x] == (i as u64, slots[i]->0));
            if condemned(o, rows, cond, names, i as u64, rows.len()) {
                let y = choose|y: int|
                    0 <= y < rows.len() && (#[trigger] rows[y]).0 == i as u64 && meets(
                        o,
                        rows[y].1,
                        cond,
                        names,
                    ) == Ok::<bool, Fault>(true);
                if y < x {
                    assert(live(slots, (n - 1) as nat)[y] == rows[y]);
                } else if y > x {
                    assert(rows[y].0 >= n);
                }
                assert(y == x);
            }
        } else {
            assert(after[i] is None);
        }
    }
}

/// A deletion leaves just the rows of which the condition is not true, under
/// their numbers and in their order, and other tables as they were.
pub proof fn law_delete_leaves(
    o: spec_fn(Question) -> Answer,
    d: Db,
    name: Seq<char>,
    cond: Option<Expr>,
)
    requires
        named(d, name) matches Some(k) && k <= u32::MAX && d.tables[k].slots.len() <= u64::MAX
            && d.tables[k].def.columns.len() > 0,
        deleted(o, d, name, cond).0 is Ok,
    ensures
        ({
            let k = named(d, name)->0;
            let t = d.tables[k];
            let after = deleted(o, d, name, cond).1;
            let rows = live(t.slots, t.slots.len());
            &&& after.tables.len() == d.tables.len()
            &&& live(after.tables[k].slots, after.tables[k].slots.len()) == survivors(
                o,
                rows,
                cond,
                column_names(t.def.columns),
                rows.len(),
            )
            &&& forall|j: int|
                0 <= j < d.tables.len() && j != k ==> #[trigger] after.tables[j] == d.tables[j]
        }),
{
    let k = named(d, name)->0;
    lemma_named(d.tables, name, 0);
    let t = d.tables[k];
    let names = column_names(t.def.columns);
    let rows = live(t.slots, t.slots.len());
    let ops = deletions(o, k as u32, rows, cond, names, rows.len())->Ok_0;
    lemma_deletions(o, k as u32, rows, cond, names, rows.len());
    let start = if d.config.enable_transaction && d.txns.ready {
        Db { txns: ticked(d.txns), ..d }
    } else {
        d
    };
    lemma_emptied(start, ops, k, ops.len());
    let after = deleted(o, d, name, cond).1;
    let slots = after.tables[k].slots;
    if ops.len() == 0 {
        assert(after == d);
        assert forall|i: int| 0 <= i < t.slots.len() implies #[trigger] slots[i] == if condemned(
            o,
            rows,
            cond,
            names,
            i as u64,
            rows.len(),
        ) {
            None
        } else {
            t.slots[i]
        } by {
            assert(!deletes(ops, k as u32, i as u64, ops.len()));
        }
    } else {
        assert forall|i: int| 0 <= i < t.slots.len() implies #[trigger] slots[i] == if condemned(
            o,
            rows,
            cond,
            names,
            i as u64,
            rows.len(),
        ) {
            None
        } else {
            t.slots[i]
        } by {
            assert(deletes(ops, k as u32, i as u64, ops.len()) <==> condemned(
                o,
                rows,
                cond,
                names,
                i as u64,
                rows.len(),
            ));
        }
    }
    lemma_survive(o, t.slots, slots, cond, names, t.slots.len());
}

/// A deletion without a condition leaves no row.
pub proof fn law_delete_all(o: spec_fn(Question) -> Answer, d: Db, name: Seq<char>)
    requires
        named(d, name) matches Some(k) && k <= u32::MAX && d.tables[k].slots.len() <= u64::MAX
            && d.tables[k].def.columns.len() > 0,
    ensures
        ({
            let k = named(d, name)->0;
            let r = deleted(o, d, name, None);
            &&& r.0 is Ok
            &&& live(r.1.tables[k].slots, r.1.tables[k].slots.len()).len() == 0
        }),
{
    let k = named(d, name)->0;
    lemma_named(d.tables, name, 0);
    let t = d.tables[k];
    let names = column_names(t.def.columns);
    let rows = live(t.slots, t.slots.len());
    lemma_unconditional(o, k as u32, rows, names, rows.len());
    lemma_deletions(o, k as u32, rows, None, names, rows.len());
    let ops = deletions(o, k as u32, rows, None, names, rows.len())->Ok_0;
    let start = if d.config.enable_transaction && d.txns.ready {
        Db { txns: ticked(d.txns), ..d }
    } else {
        d
    };
    lemma_emptied(start, ops, k, ops.len());
    law_delete_leaves(o, d, name, None);
}

/// Without a condition every row is deleted, and none is left.
proof fn lemma_unconditional(
    o: spec_fn(Question) -> Answer,
    table: u32,
    rows: Seq<(u64, Seq<Datum>)>,
    names: Seq<Seq<char>>,
    n: nat,
)
    requires
        n <= rows.len(),
    ensures
        deletions(o, table, rows, None, names, n) is Ok,
        survivors(o, rows, None, names, n).len() == 0,
    decreases n,
{
    if n > 0 {
        lemma_unconditional(o, table, rows, names, (n - 1) as nat);
    }
}

} // verus!
