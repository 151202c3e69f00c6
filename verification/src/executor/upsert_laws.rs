//! What an insertion does to the rows that it meets.
use vstd::prelude::*;

use crate::common::error::Fault;
use crate::common::types::{lemma_first_from, name_index, ColumnModel};
use crate::executor::env::{Answer, Question};
use crate::executor::operators::hash_join::cell_of;
use crate::executor::upsert::{
    conflicting, merged_one, merged_row, merged_rows, returned, returned_row, same_from,
};
use crate::sql::ast::{ConflictAction, Expr, Item};
use crate::storage::table::{holder, Tbl};
use crate::value::Datum;

verus! {

/// Whether the first column of a name stands at a position.
pub open spec fn stands_at(columns: Seq<ColumnModel>, name: Seq<char>, p: int) -> bool {
    &&& 0 <= p < columns.len()
    &&& columns[p].name == name
    &&& forall|q: int| 0 <= q < p ==> (#[trigger] columns[q]).name != name
}

/// Whether no column has a name.
pub open spec fn stands_nowhere(columns: Seq<ColumnModel>, name: Seq<char>) -> bool {
    forall|q: int| 0 <= q < columns.len() ==> (#[trigger] columns[q]).name != name
}

/// A name is found among columns where one bears it, and nowhere else.
pub proof fn lemma_named(columns: Seq<ColumnModel>, name: Seq<char>)
    ensures
        match name_index(columns, name) {
            Some(p) => stands_at(columns, name, p),
            None => stands_nowhere(columns, name),
        },
{
    let f = |c: ColumnModel| c.name == name;
    lemma_first_from(columns, f, 0);
    assert forall|q: int| 0 <= q < columns.len() implies f(columns[q]) == ((
    #[trigger] columns[q]).name == name) by {}
}

/// Whether an expression reads a value off a row: a column by its name, NULL where
/// the row is too short for it, or a literal.
pub open spec fn reads(e: Expr, row: Seq<Datum>, columns: Seq<ColumnModel>, d: Datum) -> bool {
    match e {
        Expr::ColumnRef(_, name) => exists|p: int|
            #![trigger columns[p]]
            stands_at(columns, name, p) && d == if p < row.len() {
                row[p]
            } else {
                Datum::Null
            },
        Expr::Literal(v) => d == v,
        _ => false,
    }
}

/// Whether one of the first `n` assignments is to the column at a position.
pub open spec fn assigned(
    columns: Seq<ColumnModel>,
    sets: Seq<(Seq<char>, Expr)>,
    n: int,
    c: int,
) -> bool {
    exists|j: int| 0 <= j < n && stands_at(columns, (#[trigger] sets[j]).0, c)
}

/// Whether the assignment `j` is the last of the first `n` to the column at a
/// position.
pub open spec fn last_assigned(
    columns: Seq<ColumnModel>,
    sets: Seq<(Seq<char>, Expr)>,
    n: int,
    c: int,
    j: int,
) -> bool {
    &&& 0 <= j < n
    &&& stands_at(columns, sets[j].0, c)
    &&& forall|i: int| j < i < n ==> !stands_at(columns, (#[trigger] sets[i]).0, c)
}

proof fn lemma_reads(
    o: spec_fn(Question) -> Answer,
    e: Expr,
    row: Seq<Datum>,
    columns: Seq<ColumnModel>,
)
    ensures
        returned(o, e, row, columns) matches Ok(d) ==> reads(e, row, columns, d),
{
    if let Expr::ColumnRef(_, name) = e {
        lemma_named(columns, name);
        if let Some(p) = name_index(columns, name) {
            assert(stands_at(columns, name, p));
            assert(columns[p].name == name);
        }
    }
}

/// ON CONFLICT DO UPDATE makes of the row that is there, and of the row that is
/// inserted, a row that has in each column what the last assignment to it reads off
/// the inserted row, and what it had in the columns that are not assigned.
pub proof fn law_merged_row(
    o: spec_fn(Question) -> Answer,
    old_row: Seq<Datum>,
    new_row: Seq<Datum>,
    columns: Seq<ColumnModel>,
    sets: Seq<(Seq<char>, Expr)>,
    n: nat,
)
    requires
        n <= sets.len(),
    ensures
        merged_row(o, old_row, new_row, columns, sets, n) matches Ok(w) ==> {
            &&& w.len() == old_row.len()
            &&& forall|c: int|
                0 <= c < w.len() && !assigned(columns, sets, n as int, c) ==> #[trigger] w[c]
                    == old_row[c]
            &&& forall|c: int, j: int|
                0 <= c < w.len() && #[trigger] last_assigned(columns, sets, n as int, c, j)
                    ==> reads(sets[j].1, new_row, columns, w[c])
        },
    decreases n,
{
    if n > 0 {
        law_merged_row(o, old_row, new_row, columns, sets, (n - 1) as nat);
        if let Ok(w) = merged_row(o, old_row, new_row, columns, sets, n) {
            let before = merged_row(o, old_row, new_row, columns, sets, (n - 1) as nat)->Ok_0;
            let (name, e) = sets[n - 1];
            lemma_named(columns, name);
            lemma_reads(o, e, new_row, columns);
            let p = name_index(columns, name)->0;
            assert(stands_at(columns, name, p));
            assert forall|c: int|
                0 <= c < w.len() && !assigned(columns, sets, n as int, c) implies #[trigger] w[c]
                == old_row[c] by {
                assert(sets[n - 1].0 == name);
                assert(c != p);
                assert(!assigned(columns, sets, n - 1, c)) by {
                    if assigned(columns, sets, n - 1, c) {
                        let j = choose|j: int|
                            0 <= j < n - 1 && stands_at(columns, (#[trigger] sets[j]).0, c);
                        assert(stands_at(columns, sets[j].0, c));
                    }
                }
                assert(w[c] == before[c]);
            }
            assert forall|c: int, j: int|
                0 <= c < w.len() && #[trigger] last_assigned(
                    columns,
                    sets,
                    n as int,
                    c,
                    j,
                ) implies reads(sets[j].1, new_row, columns, w[c]) by {
                if j < n - 1 {
                    assert(!stands_at(columns, sets[n - 1].0, c));
                    assert(c != p);
                    assert(last_assigned(columns, sets, n - 1, c, j));
                    assert(w[c] == before[c]);
                } else {
                    assert(columns[c].name == name && columns[p].name == name);
                    assert(c == p) by {
                        if c < p {
                            assert(columns[c].name != name);
                        } else if p < c {
                            assert(columns[p].name != name);
                        }
                    }
                }
            }
        }
    }
}

/// Assigning columns to themselves takes their values over from the inserted row,
/// and leaves the others.
pub proof fn law_take_over(
    o: spec_fn(Question) -> Answer,
    old_row: Seq<Datum>,
    new_row: Seq<Datum>,
    columns: Seq<ColumnModel>,
    sets: Seq<(Seq<char>, Expr)>,
    w: Seq<Datum>,
)
    requires
        forall|j: int|
            0 <= j < sets.len() ==> ((#[trigger] sets[j]).1 matches Expr::ColumnRef(_, x) && x
                == sets[j].0),
        old_row.len() == columns.len(),
        new_row.len() == columns.len(),
        merged_row(o, old_row, new_row, columns, sets, sets.len()) == Ok::<Seq<Datum>, Fault>(w),
    ensures
        w.len() == columns.len(),
        forall|c: int|
            0 <= c < w.len() ==> #[trigger] w[c] == if assigned(
                columns,
                sets,
                sets.len() as int,
                c,
            ) {
                new_row[c]
            } else {
                old_row[c]
            },
        (forall|c: int| 0 <= c < columns.len() ==> assigned(columns, sets, sets.len() as int, c))
            ==> w == new_row,
{
    law_merged_row(o, old_row, new_row, columns, sets, sets.len());
    assert forall|c: int| 0 <= c < w.len() implies #[trigger] w[c] == if assigned(
        columns,
        sets,
        sets.len() as int,
        c,
    ) {
        new_row[c]
    } else {
        old_row[c]
    } by {
        if assigned(columns, sets, sets.len() as int, c) {
            let j = lemma_last(columns, sets, sets.len() as int, c);
            assert(last_assigned(columns, sets, sets.len() as int, c, j));
            let name = sets[j].0;
            assert(reads(sets[j].1, new_row, columns, w[c]));
            let p = choose|p: int|
                #![trigger columns[p]]
                stands_at(columns, name, p) && w[c] == if p < new_row.len() {
                    new_row[p]
                } else {
                    Datum::Null
                };
            assert(p == c) by {
                if c < p {
                    assert(columns[c].name != name);
                } else if p < c {
                    assert(columns[p].name != name);
                }
            }
        }
    }
    if forall|c: int| 0 <= c < columns.len() ==> assigned(columns, sets, sets.len() as int, c) {
        assert(w =~= new_row);
    }
}

/// The last assignment to a column that is assigned.
proof fn lemma_last(
    columns: Seq<ColumnModel>,
    sets: Seq<(Seq<char>, Expr)>,
    n: int,
    c: int,
) -> (j: int)
    requires
        assigned(columns, sets, n, c),
    ensures
        last_assigned(columns, sets, n, c, j),
    decreases n,
{
    if stands_at(columns, sets[n - 1].0, c) {
        n - 1
    } else {
        let j = choose|j: int| 0 <= j < n && stands_at(columns, (#[trigger] sets[j]).0, c);
        assert(j != n - 1);
        assert(assigned(columns, sets, n - 1, c));
        let k = lemma_last(columns, sets, n - 1, c);
        k
    }
}

/// Whether a slot holds a row that has the values of another in some columns.
pub open spec fn meets_at(t: Tbl, columns: Seq<usize>, row: Seq<Datum>, k: int) -> bool {
    0 <= k < t.slots.len() && (t.slots[k] matches Some(r) && forall|i: int|
        0 <= i < columns.len() ==> (#[trigger] columns[i]) < r.len() && columns[i] < row.len()
            && r[columns[i] as int] == row[columns[i] as int])
}

proof fn lemma_same_from(t: Tbl, columns: Seq<usize>, row: Seq<Datum>, i: int)
    requires
        0 <= i,
    ensures
        match same_from(t.slots, columns, row, i) {
            Some(k) => i <= k && meets_at(t, columns, row, k) && forall|j: int|
                i <= j < k ==> !#[trigger] meets_at(t, columns, row, j),
            None => forall|j: int| i <= j ==> !#[trigger] meets_at(t, columns, row, j),
        },
    decreases t.slots.len() - i,
{
    if i < t.slots.len() {
        lemma_same_from(t, columns, row, i + 1);
    }
}

proof fn lemma_holder(t: Tbl, c: usize, row: Seq<Datum>, i: int)
    requires
        0 <= i,
        c < row.len(),
        forall|k: int|
            0 <= k < t.slots.len() && #[trigger] t.slots[k] is Some ==> c < t.slots[k]->0.len(),
    ensures
        match holder(t.slots, c as int, cell_of(row, c as int), i) {
            Some(k) => i <= k && meets_at(t, seq![c], row, k) && forall|j: int|
                i <= j < k ==> !#[trigger] meets_at(t, seq![c], row, j),
            None => forall|j: int| i <= j ==> !#[trigger] meets_at(t, seq![c], row, j),
        },
    decreases t.slots.len() - i,
{
    if i < t.slots.len() {
        lemma_holder(t, c, row, i + 1);
        let one = seq![c];
        assert(one[0] == c);
        if t.slots[i] is Some {
            assert(c < t.slots[i]->0.len());
        }
        assert(meets_at(t, one, row, i) == (t.slots[i] is Some && t.slots[i]->0[c as int]
            == row[c as int]));
    }
}

/// The row that an insertion meets is the first that has its values in the deciding
/// columns, and without deciding columns it meets none.
pub proof fn law_meets(t: Tbl, columns: Seq<usize>, row: Seq<Datum>)
    requires
        forall|i: int|
            #![trigger columns[i]]
            0 <= i < columns.len() ==> columns[i] < row.len() && forall|k: int|
                0 <= k < t.slots.len() && #[trigger] t.slots[k] is Some ==> columns[i]
                    < t.slots[k]->0.len(),
    ensures
        columns.len() == 0 ==> conflicting(t, columns, row) is None,
        columns.len() > 0 ==> match conflicting(t, columns, row) {
            Some(k) => meets_at(t, columns, row, k) && forall|j: int|
                0 <= j < k ==> !#[trigger] meets_at(t, columns, row, j),
            None => forall|j: int| 0 <= j ==> !#[trigger] meets_at(t, columns, row, j),
        },
{
    if columns.len() > 0 {
        lemma_same_from(t, columns, row, 0);
        if columns.len() == 1 {
            assert(columns =~= seq![columns[0]]);
            lemma_holder(t, columns[0], row, 0);
        }
    }
}

/// What becomes of a row that meets another: DO NOTHING leaves the table, REPLACE puts
/// the row in the place of the one that is there, and DO UPDATE puts there what the
/// two make. No other slot changes. Only a change counts as one.
pub proof fn law_upsert_meets(
    o: spec_fn(Question) -> Answer,
    t: Tbl,
    columns: Seq<usize>,
    action: ConflictAction,
    row: Seq<Datum>,
    k: int,
)
    requires
        conflicting(t, columns, row) == Some(k),
        0 <= k < t.slots.len() <= u64::MAX,
        t.slots[k] is Some,
    ensures
        action is DoNothing ==> merged_one(o, t, columns, action, row) == Ok::<
            (Tbl, bool, int),
            Fault,
        >((t, false, k)),
        !(action is DoNothing) ==> (merged_one(o, t, columns, action, row) matches Ok(m) ==> {
            &&& m.1
            &&& m.2 == k
            &&& m.0.def == t.def
            &&& m.0.slots.len() == t.slots.len()
            &&& forall|j: int|
                0 <= j < t.slots.len() && j != k ==> #[trigger] m.0.slots[j] == t.slots[j]
            &&& action is Replace ==> m.0.slots[k] == Some(row)
            &&& action matches ConflictAction::DoUpdate(sets) ==> (merged_row(
                o,
                t.slots[k]->0,
                row,
                t.def.columns,
                sets,
                sets.len(),
            ) matches Ok(w) && m.0.slots[k] == Some(w))
        }),
{
}

/// Rows go in one after the other: each meets the table as the one before it left it,
/// and the first error ends the insertion. A row counts where it changed the table.
pub proof fn law_upsert_in_turn(
    o: spec_fn(Question) -> Answer,
    t: Tbl,
    columns: Seq<usize>,
    action: ConflictAction,
    rows: Seq<Seq<Datum>>,
    n: nat,
)
    requires
        n < rows.len(),
        merged_rows(o, t, columns, action, None, rows, n).1 is None,
    ensures
        ({
            let (p, q) = (
                merged_rows(o, t, columns, action, None, rows, n),
                merged_rows(o, t, columns, action, None, rows, n + 1),
            );
            match merged_one(o, p.0.table, columns, action, rows[n as int]) {
                Err(f) => q == (p.0, Some(f)),
                Ok(m) => q.1 is None && q.0.table == m.0 && q.0.changed == p.0.changed + if m.1 {
                    1nat
                } else {
                    0
                },
            }
        }),
{
}

/// RETURNING reads the row: all of it for a star, and else what an expression reads.
pub proof fn law_returning(
    o: spec_fn(Question) -> Answer,
    items: Seq<Item>,
    row: Seq<Datum>,
    columns: Seq<ColumnModel>,
)
    ensures
        (forall|i: int| 0 <= i < items.len() ==> #[trigger] items[i] is Expression) ==> (
        returned_row(o, items, row, columns, items.len()) matches Ok(r) ==> {
            &&& r.len() == items.len()
            &&& forall|i: int|
                0 <= i < r.len() ==> reads(items[i]->Expression_0, row, columns, #[trigger] r[i])
        }),
        items.len() == 1 && items[0] is Wildcard ==> returned_row(
            o,
            items,
            row,
            columns,
            items.len(),
        ) == Ok::<Seq<Datum>, Fault>(row),
{
    if forall|i: int| 0 <= i < items.len() ==> #[trigger] items[i] is Expression {
        lemma_returning(o, items, row, columns, items.len());
    }
    if items.len() == 1 && items[0] is Wildcard {
        assert(returned_row(o, items, row, columns, 0) == Ok::<Seq<Datum>, Fault>(Seq::empty()));
        assert(Seq::<Datum>::empty() + row =~= row);
    }
}

proof fn lemma_returning(
    o: spec_fn(Question) -> Answer,
    items: Seq<Item>,
    row: Seq<Datum>,
    columns: Seq<ColumnModel>,
    n: nat,
)
    requires
        n <= items.len(),
        forall|i: int| 0 <= i < items.len() ==> #[trigger] items[i] is Expression,
    ensures
        returned_row(o, items, row, columns, n) matches Ok(r) ==> {
            &&& r.len() == n
            &&& forall|i: int|
                0 <= i < r.len() ==> reads(items[i]->Expression_0, row, columns, #[trigger] r[i])
        },
    decreases n,
{
    if n > 0 {
        lemma_returning(o, items, row, columns, (n - 1) as nat);
        assert(items[n - 1] is Expression);
        lemma_reads(o, items[n - 1]->Expression_0, row, columns);
    }
}

} // verus!
