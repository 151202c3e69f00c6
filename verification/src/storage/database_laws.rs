//! What a database keeps of tables, of waiting rows and of transactions.
use vstd::prelude::*;

use crate::common::types::{IndexModel, TableModel};
use crate::storage::database::{
    index_from, lemma_named, named, pending_from, queued, renamed, unqueued, waiting, waiting_rows,
    with_index, with_new_table, Db,
};
use crate::storage::txn::{
    lemma_open_at, place, released, returned, saved, saved_at, written, Op, Txns,
};
use crate::value::Datum;

verus! {

/// Whether a database has a table of a name.
pub open spec fn has_table(d: Db, name: Seq<char>) -> bool {
    exists|k: int| 0 <= k < d.tables.len() && (#[trigger] d.tables[k]).def.name == name
}

/// Whether one database is another with a change of one table at most.
pub open spec fn same_but(d: Db, u: Db, k: int) -> bool {
    &&& u == Db { tables: u.tables, ..d }
    &&& forall|j: int|
        0 <= j < d.tables.len() && j != k ==> j < u.tables.len() && #[trigger] u.tables[j]
            == d.tables[j]
}

proof fn lemma_has(d: Db, name: Seq<char>)
    ensures
        named(d, name) is Some <==> has_table(d, name),
{
    lemma_named(d.tables, name, 0);
    if let Some(k) = named(d, name) {
        assert(d.tables[k].def.name == name);
    }
}

/// A table is made where none has its name, and only there: it is the last one, has no
/// rows, and is what it was defined as. The others stay.
pub proof fn law_create_table(d: Db, def: TableModel)
    ensures
        with_new_table(d, def) is Ok <==> !has_table(d, def.name),
        with_new_table(d, def) matches Ok(u) ==> {
            let k = d.tables.len() as int;
            let made = u.tables[k].def;
            &&& u.tables.len() == k + 1
            &&& same_but(d, u, k)
            &&& u.tables[k].slots.len() == 0
            &&& made.row_count == 0
            &&& made == TableModel { id: made.id, row_count: 0, ..def }
            &&& k <= u32::MAX ==> made.id == k
            &&& named(u, def.name) == Some(k)
        },
{
    lemma_has(d, def.name);
    if let Ok(u) = with_new_table(d, def) {
        lemma_named(u.tables, def.name, 0);
        lemma_has(u, def.name);
        assert(u.tables[d.tables.len() as int].def.name == def.name);
        if let Some(k) = named(u, def.name) {
            if k < d.tables.len() {
                assert(u.tables[k] == d.tables[k]);
            }
        }
    }
}

/// A table gets another name where it is there and no table has that name, and only
/// there. It keeps its rows and the rest of its definition, and the others stay.
pub proof fn law_rename_table(d: Db, a: Seq<char>, b: Seq<char>)
    ensures
        renamed(d, a, b) is Ok <==> has_table(d, a) && !has_table(d, b),
        renamed(d, a, b) matches Ok(u) ==> {
            let k = named(d, a)->0;
            &&& u.tables.len() == d.tables.len()
            &&& 0 <= k < d.tables.len()
            &&& d.tables[k].def.name == a
            &&& same_but(d, u, k)
            &&& u.tables[k].slots == d.tables[k].slots
            &&& u.tables[k].def.name == b
            &&& u.tables[k].def == TableModel { name: b, ..d.tables[k].def }
            &&& named(u, b) == Some(k)
        },
{
    lemma_has(d, a);
    lemma_has(d, b);
    lemma_named(d.tables, a, 0);
    if let Ok(u) = renamed(d, a, b) {
        let k = named(d, a)->0;
        lemma_named(u.tables, b, 0);
        lemma_has(u, b);
        assert(u.tables[k].def.name == b);
        let j = named(u, b)->0;
        if j != k {
            assert(u.tables[j] == d.tables[j]);
            assert(d.tables[j].def.name == b);
        }
    }
}

/// Whether a table has an index of a name.
pub open spec fn has_index(indexes: Seq<IndexModel>, name: Seq<char>) -> bool {
    exists|k: int| 0 <= k < indexes.len() && (#[trigger] indexes[k]).name == name
}

proof fn lemma_index(indexes: Seq<IndexModel>, name: Seq<char>, i: int)
    requires
        0 <= i,
    ensures
        match index_from(indexes, name, i) {
            Some(k) => i <= k < indexes.len() && indexes[k].name == name,
            None => forall|k: int| i <= k < indexes.len() ==> (#[trigger] indexes[k]).name != name,
        },
    decreases indexes.len() - i,
{
    if i < indexes.len() {
        lemma_index(indexes, name, i + 1);
    }
}

/// An index is made where the table is there and has none of its name, and only there. It
/// is the last one; the rows and the rest of the definition stay.
pub proof fn law_create_index(d: Db, table: Seq<char>, x: IndexModel)
    ensures
        with_index(d, table, x) is Ok <==> (named(d, table) matches Some(k) && !has_index(
            d.tables[k].def.indexes,
            x.name,
        )),
        with_index(d, table, x) matches Ok(u) ==> {
            let k = named(d, table)->0;
            let (t, v) = (d.tables[k], u.tables[k]);
            &&& u.tables.len() == d.tables.len()
            &&& t.def.name == table
            &&& same_but(d, u, k)
            &&& v.slots == t.slots
            &&& v.def.indexes == t.def.indexes.push(x)
            &&& v.def == TableModel { indexes: v.def.indexes, ..t.def }
        },
{
    lemma_named(d.tables, table, 0);
    if let Some(k) = named(d, table) {
        lemma_index(d.tables[k].def.indexes, x.name, 0);
        if let Some(j) = index_from(d.tables[k].def.indexes, x.name, 0) {
            assert(d.tables[k].def.indexes[j].name == x.name);
        }
    }
}

proof fn lemma_pending(p: Seq<(Seq<char>, Seq<Seq<Datum>>)>, name: Seq<char>, i: int)
    requires
        0 <= i,
    ensures
        match pending_from(p, name, i) {
            Some(k) => i <= k < p.len() && p[k].0 == name && forall|j: int|
                i <= j < k ==> (#[trigger] p[j]).0 != name,
            None => forall|k: int| i <= k < p.len() ==> (#[trigger] p[k]).0 != name,
        },
    decreases p.len() - i,
{
    if i < p.len() {
        lemma_pending(p, name, i + 1);
    }
}

/// Whether each table has one entry at most.
pub open spec fn entries_apart(p: Seq<(Seq<char>, Seq<Seq<Datum>>)>) -> bool {
    forall|j: int, k: int|
        0 <= j < k < p.len() ==> (#[trigger] p[j]).0 != (#[trigger] p[k]).0
}

proof fn lemma_first_pending(p: Seq<(Seq<char>, Seq<Seq<Datum>>)>, name: Seq<char>, k: int)
    requires
        entries_apart(p),
        0 <= k < p.len(),
        p[k].0 == name,
    ensures
        pending_from(p, name, 0) == Some(k),
{
    lemma_pending(p, name, 0);
    if let Some(j) = pending_from(p, name, 0) {
        if j < k {
            assert(p[j].0 != p[k].0);
        }
        if k < j {
            assert(p[k].0 != name);
        }
    }
}

/// Rows that come to wait for a table stand behind those that wait for it already, and
/// nothing else changes. Without the rows of a table, none wait for it.
pub proof fn law_queue(
    p: Seq<(Seq<char>, Seq<Seq<Datum>>)>,
    name: Seq<char>,
    other: Seq<char>,
    rows: Seq<Seq<Datum>>,
)
    requires
        entries_apart(p),
    ensures
        entries_apart(queued(p, name, rows)),
        waiting(queued(p, name, rows), name) == waiting(p, name) + rows,
        other != name ==> waiting(queued(p, name, rows), other) == waiting(p, other),
        entries_apart(unqueued(p, name)),
        waiting(unqueued(p, name), name).len() == 0,
        other != name ==> waiting(unqueued(p, name), other) == waiting(p, other),
        waiting_rows(queued(p, name, rows), queued(p, name, rows).len()) == waiting_rows(p, p.len())
            + rows.len(),
{
    lemma_pending(p, name, 0);
    lemma_pending(p, other, 0);
    let q = queued(p, name, rows);
    let u = unqueued(p, name);
    match pending_from(p, name, 0) {
        Some(k) => {
            assert forall|i: int, j: int| 0 <= i < j < q.len() implies (#[trigger] q[i]).0 != (
            #[trigger] q[j]).0 by {
                assert(p[i].0 != p[j].0);
            }
            lemma_first_pending(q, name, k);
            assert forall|i: int, j: int| 0 <= i < j < u.len() implies (#[trigger] u[i]).0 != (
            #[trigger] u[j]).0 by {
                let (a, b) = (
                    if i < k {
                        i
                    } else {
                        i + 1
                    },
                    if j < k {
                        j
                    } else {
                        j + 1
                    },
                );
                assert(u[i] == p[a] && u[j] == p[b]);
            }
            lemma_pending(u, name, 0);
            if let Some(j) = pending_from(u, name, 0) {
                let b = if j < k {
                    j
                } else {
                    j + 1
                };
                assert(u[j] == p[b]);
                if b < k {
                    assert(p[b].0 != p[k].0);
                } else {
                    assert(p[k].0 != p[b].0);
                }
            }
            lemma_rows_more(p, q, k, rows.len(), p.len());
        },
        None => {
            assert forall|i: int, j: int| 0 <= i < j < q.len() implies (#[trigger] q[i]).0 != (
            #[trigger] q[j]).0 by {
                if j < p.len() {
                    assert(p[i].0 != p[j].0);
                } else {
                    assert(p[i].0 != name);
                }
            }
            lemma_first_pending(q, name, p.len() as int);
            assert(Seq::<Seq<Datum>>::empty() + rows =~= rows);
            lemma_rows_same(p, q, p.len());
        },
    }
    if other != name {
        lemma_pending(q, other, 0);
        lemma_pending(u, other, 0);
        if let Some(j) = pending_from(p, other, 0) {
            assert(q[j].0 == other);
            lemma_first_pending(q, other, j);
            if let Some(k) = pending_from(p, name, 0) {
                let b = if j < k {
                    j
                } else {
                    j - 1
                };
                assert(u[b] == p[j]);
                lemma_first_pending(u, other, b);
            }
        } else {
            if let Some(j) = pending_from(q, other, 0) {
                assert(j < p.len() ==> p[j].0 != other);
            }
            if let Some(j) = pending_from(u, other, 0) {
                if let Some(k) = pending_from(p, name, 0) {
                    assert(u[j] == p[if j < k {
                        j
                    } else {
                        j + 1
                    }]);
                }
            }
        }
    }
}

proof fn lemma_rows_same(
    p: Seq<(Seq<char>, Seq<Seq<Datum>>)>,
    q: Seq<(Seq<char>, Seq<Seq<Datum>>)>,
    n: nat,
)
    requires
        n <= p.len() <= q.len(),
        forall|i: int| 0 <= i < n ==> (#[trigger] p[i]).1.len() == q[i].1.len(),
    ensures
        waiting_rows(p, n) == waiting_rows(q, n),
    decreases n,
{
    if n > 0 {
        lemma_rows_same(p, q, (n - 1) as nat);
        assert(p[n - 1].1.len() == q[n - 1].1.len());
    }
}

proof fn lemma_rows_more(
    p: Seq<(Seq<char>, Seq<Seq<Datum>>)>,
    q: Seq<(Seq<char>, Seq<Seq<Datum>>)>,
    k: int,
    more: nat,
    n: nat,
)
    requires
        n <= p.len() == q.len(),
        0 <= k < n,
        q[k].1.len() == p[k].1.len() + more,
        forall|i: int| 0 <= i < p.len() && i != k ==> (#[trigger] q[i]) == p[i],
    ensures
        waiting_rows(q, n) == waiting_rows(p, n) + more,
    decreases n,
{
    if k == n - 1 {
        assert forall|i: int| 0 <= i < n - 1 implies (#[trigger] p[i]).1.len() == q[i].1.len() by {
            assert(q[i] == p[i]);
        }
        lemma_rows_same(p, q, (n - 1) as nat);
    } else {
        lemma_rows_more(p, q, k, more, (n - 1) as nat);
        assert(q[n - 1] == p[n - 1]);
    }
}

/// Whether a savepoint is the last of its name.
pub open spec fn last_saved(s: Seq<(Seq<char>, usize)>, name: Seq<char>, j: int) -> bool {
    &&& 0 <= j < s.len()
    &&& s[j].0 == name
    &&& forall|i: int| j < i < s.len() ==> (#[trigger] s[i]).0 != name
}

proof fn lemma_saved(s: Seq<(Seq<char>, usize)>, name: Seq<char>, n: nat)
    requires
        n <= s.len(),
    ensures
        match saved_at(s, name, n) {
            Some(j) => 0 <= j < n && s[j].0 == name && forall|i: int|
                j < i < n ==> (#[trigger] s[i]).0 != name,
            None => forall|i: int| 0 <= i < n ==> (#[trigger] s[i]).0 != name,
        },
    decreases n,
{
    if n > 0 {
        lemma_saved(s, name, (n - 1) as nat);
    }
}

/// A return to a savepoint keeps the writes that had come before it, the savepoint itself
/// and those before it. A release keeps all writes and the savepoints before it. Other
/// transactions stay, and a savepoint that is not there is an error.
pub proof fn law_savepoints(t: Txns, id: u64, name: Seq<char>, k: int, j: int)
    requires
        place(t, id) == Some(k),
    ensures
        0 <= k < t.open.len(),
        last_saved(t.open[k].savepoints, name, j) ==> {
            &&& returned(t, id, name) matches Ok(u) && {
                &&& u.open.len() == t.open.len()
                &&& forall|i: int|
                    0 <= i < t.open.len() && i != k ==> #[trigger] u.open[i] == t.open[i]
                &&& u.open[k].id == id
                &&& u.open[k].savepoints == t.open[k].savepoints.subrange(0, j + 1)
                &&& t.open[k].savepoints[j].1 <= t.open[k].ops.len() ==> u.open[k].ops
                    == t.open[k].ops.subrange(0, t.open[k].savepoints[j].1 as int)
            }
            &&& released(t, id, name) matches Ok(u) && {
                &&& u.open.len() == t.open.len()
                &&& forall|i: int|
                    0 <= i < t.open.len() && i != k ==> #[trigger] u.open[i] == t.open[i]
                &&& u.open[k].ops == t.open[k].ops
                &&& u.open[k].savepoints == t.open[k].savepoints.subrange(0, j)
            }
        },
        (forall|i: int|
            0 <= i < t.open[k].savepoints.len() ==> (#[trigger] t.open[k].savepoints[i]).0 != name)
            ==> returned(t, id, name) is Err && released(t, id, name) is Err,
{
    lemma_open_at(t.open, id, t.open.len());
    let s = t.open[k].savepoints;
    lemma_saved(s, name, s.len());
    if last_saved(s, name, j) {
        let i = saved_at(s, name, s.len())->0;
        if i < j {
            assert(s[j].0 != name);
        }
        if j < i {
            assert(s[i].0 != name);
        }
    }
}

/// Writes are put behind those of their transaction, and no other changes. A savepoint
/// remembers how many there are.
pub proof fn law_writes_collect(t: Txns, id: u64, name: Seq<char>, ops: Seq<Op>, k: int)
    requires
        place(t, id) == Some(k),
        t.open[k].ops.len() <= usize::MAX,
    ensures
        written(t, id, ops) matches Ok(u) && {
            &&& u.open.len() == t.open.len()
            &&& u.open[k].ops == t.open[k].ops + ops
            &&& u.open[k].savepoints == t.open[k].savepoints
            &&& forall|i: int| 0 <= i < t.open.len() && i != k ==> #[trigger] u.open[i] == t.open[i]
        },
        saved(t, id, name) matches Ok(u) && {
            &&& u.open.len() == t.open.len()
            &&& u.open[k].ops == t.open[k].ops
            &&& u.open[k].savepoints.len() == t.open[k].savepoints.len() + 1
            &&& last_saved(u.open[k].savepoints, name, t.open[k].savepoints.len() as int)
            &&& u.open[k].savepoints.last().1 == t.open[k].ops.len()
            &&& forall|i: int| 0 <= i < t.open.len() && i != k ==> #[trigger] u.open[i] == t.open[i]
        },
{
    lemma_open_at(t.open, id, t.open.len());
}

} // verus!
