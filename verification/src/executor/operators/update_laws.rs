//! Which rows an update changes.
use vstd::prelude::*;

use crate::executor::env::{Answer, Question};
use crate::executor::operators::delete::column_names;
use crate::executor::operators::delete_laws::lemma_live;
use crate::executor::operators::insert::{applied, ticked};
use crate::executor::operators::update::{changed_row, changes, updated_rows};
use crate::sql::ast::Expr;
use crate::storage::database::{lemma_named, named, Db};
use crate::storage::table::live;
use crate::storage::txn::Op;
use crate::value::Datum;

verus! {

/// What an update leaves in the place of a row: the changed row where the
/// condition is true of it and an assignment hits a column, else the row.
pub open spec fn left_of(
    o: spec_fn(Question) -> Answer,
    slot: Option<Seq<Datum>>,
    sets: Seq<(usize, Expr)>,
    cond: Option<Expr>,
    names: Seq<Seq<char>>,
) -> Option<Seq<Datum>> {
    match slot {
        None => None,
        Some(row) => match changed_row(o, row, sets, cond, names) {
            Ok(Some(new)) => Some(new),
            _ => Some(row),
        },
    }
}

/// The updates of the first rows come first.
proof fn lemma_changes_first(
    o: spec_fn(Question) -> Answer,
    table: u32,
    rows: Seq<(u64, Seq<Datum>)>,
    sets: Seq<(usize, Expr)>,
    cond: Option<Expr>,
    names: Seq<Seq<char>>,
    n: nat,
    all: nat,
)
    requires
        n <= all,
        changes(o, table, rows, sets, cond, names, all) is Ok,
    ensures
        changes(o, table, rows, sets, cond, names, n) is Ok,
        ({
            let a = changes(o, table, rows, sets, cond, names, n)->Ok_0;
            let b = changes(o, table, rows, sets, cond, names, all)->Ok_0;
            a.len() <= b.len() && a == b.subrange(0, a.len() as int)
        }),
    decreases all - n,
{
    let b = changes(o, table, rows, sets, cond, names, all)->Ok_0;
    if n < all {
        lemma_changes_first(o, table, rows, sets, cond, names, n, (all - 1) as nat);
        let a = changes(o, table, rows, sets, cond, names, n)->Ok_0;
        assert(a =~= b.subrange(0, a.len() as int));
    } else {
        assert(b =~= b.subrange(0, b.len() as int));
    }
}

/// Writes that succeed succeed from the first on.
proof fn lemma_succeeds(d: Db, ops: Seq<Op>, n: nat, all: nat)
    requires
        n <= all,
        applied(d, ops, all).1 is None,
    ensures
        applied(d, ops, n).1 is None,
    decreases all - n,
{
    if n < all {
        lemma_succeeds(d, ops, n, (all - 1) as nat);
    }
}

/// What the updates of the rows in the first `n` slots leave.
proof fn lemma_changed(
    o: spec_fn(Question) -> Answer,
    d: Db,
    k: int,
    sets: Seq<(usize, Expr)>,
    cond: Option<Expr>,
    n: nat,
)
    requires
        0 <= k < d.tables.len(),
        k <= u32::MAX,
        n <= d.tables[k].slots.len() <= u64::MAX,
        ({
            let slots = d.tables[k].slots;
            let rows = live(slots, slots.len());
            let names = column_names(d.tables[k].def.columns);
            let all = changes(o, k as u32, rows, sets, cond, names, rows.len());
            all is Ok && applied(d, all->Ok_0, all->Ok_0.len()).1 is None
        }),
    ensures
        ({
            let slots = d.tables[k].slots;
            let rows = live(slots, slots.len());
            let names = column_names(d.tables[k].def.columns);
            let ops = changes(o, k as u32, rows, sets, cond, names, rows.len())->Ok_0;
            let first = changes(o, k as u32, rows, sets, cond, names, live(slots, n).len())->Ok_0;
            let a = applied(d, ops, first.len()).0;
            &&& a.tables.len() == d.tables.len()
            &&& a.tables[k].slots.len() == slots.len()
            &&& forall|i: int|
                0 <= i < slots.len() ==> #[trigger] a.tables[k].slots[i] == if i < n {
                    left_of(o, slots[i], sets, cond, names)
                } else {
                    slots[i]
                }
            &&& forall|j: int|
                0 <= j < d.tables.len() && j != k ==> #[trigger] a.tables[j] == d.tables[j]
        }),
    decreases n,
{
    let slots = d.tables[k].slots;
    let rows = live(slots, slots.len());
    let names = column_names(d.tables[k].def.columns);
    let ops = changes(o, k as u32, rows, sets, cond, names, rows.len())->Ok_0;
    if n > 0 {
        lemma_changed(o, d, k, sets, cond, (n - 1) as nat);
        let i = n - 1;
        let x = live(slots, i as nat).len();
        lemma_live(slots, i as nat, slots.len());
        lemma_live(slots, n, slots.len());
        if slots[i] is Some {
            assert(live(slots, n)[x as int] == rows[x as int]);
            assert(rows[x as int] == (i as u64, slots[i]->0));
            lemma_changes_first(o, k as u32, rows, sets, cond, names, x, rows.len());
            lemma_changes_first(o, k as u32, rows, sets, cond, names, x + 1, rows.len());
            let before = changes(o, k as u32, rows, sets, cond, names, x)->Ok_0;
            let after = changes(o, k as u32, rows, sets, cond, names, x + 1)->Ok_0;
            lemma_succeeds(d, ops, before.len(), ops.len());
            lemma_succeeds(d, ops, after.len(), ops.len());
            match changed_row(o, slots[i]->0, sets, cond, names) {
                Ok(Some(new)) => {
                    assert(after == before.push(Op::Update(k as u32, i as u64, new)));
                    assert(ops[before.len() as int] == after[before.len() as int]);
                    let t = applied(d, ops, before.len()).0.tables[k];
                    assert(t.slots[i] == slots[i]);
                },
                _ => {},
            }
        }
    }
}

/// An update leaves every row in its place: changed where the condition is true
/// of it and an assignment hits a column, else as it was. Other tables are as
/// they were.
pub proof fn law_update_changes(
    o: spec_fn(Question) -> Answer,
    d: Db,
    name: Seq<char>,
    sets: Seq<(usize, Expr)>,
    cond: Option<Expr>,
)
    requires
        named(d, name) matches Some(k) && k <= u32::MAX && d.tables[k].slots.len() <= u64::MAX
            && d.tables[k].def.columns.len() > 0,
        updated_rows(o, d, name, sets, cond).0 is Ok,
    ensures
        ({
            let k = named(d, name)->0;
            let t = d.tables[k];
            let after = updated_rows(o, d, name, sets, cond).1;
            &&& after.tables.len() == d.tables.len()
            &&& after.tables[k].slots == Seq::new(
                t.slots.len(),
                |i: int| left_of(o, t.slots[i], sets, cond, column_names(t.def.columns)),
            )
            &&& forall|j: int|
                0 <= j < d.tables.len() && j != k ==> #[trigger] after.tables[j] == d.tables[j]
        }),
{
    let k = named(d, name)->0;
    lemma_named(d.tables, name, 0);
    let t = d.tables[k];
    let names = column_names(t.def.columns);
    let rows = live(t.slots, t.slots.len());
    let ops = changes(o, k as u32, rows, sets, cond, names, rows.len())->Ok_0;
    let start = if ops.len() > 0 && d.config.enable_transaction && d.txns.ready {
        Db { txns: ticked(d.txns), ..d }
    } else {
        d
    };
    let after = updated_rows(o, d, name, sets, cond).1;
    assert(after == applied(start, ops, ops.len()).0);
    lemma_changed(o, start, k, sets, cond, t.slots.len());
    assert(after.tables[k].slots =~= Seq::new(
        t.slots.len(),
        |i: int| left_of(o, t.slots[i], sets, cond, names),
    ));
}

} // verus!
