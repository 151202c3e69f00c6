//! What conditions choose, what assignments make of a row, and what rows may come in.
use vstd::prelude::*;

use crate::common::error::Fault;
use crate::common::types::{lemma_first_from, pk_index, ColumnModel};
use crate::executor::env::{Answer, Question};
use crate::executor::expression::call_laws::lemma_args;
use crate::executor::expression::eval::{eval, law_selection, true_rows};
use crate::executor::expression::operator_laws::cell;
use crate::executor::operators::delete::{meets, row_chunk};
use crate::executor::operators::filter::{filtered, law_filter_rows};
use crate::executor::operators::hash_join::cell_of;
use crate::executor::operators::insert::{conflict, key_clash, unique_clash, unique_clash_at};
use crate::executor::operators::projection::projected;
use crate::executor::operators::update::{changed_row, rewritten};
use crate::executor::vector::{aligned, col_at, row_of, rows_of, Chunk, Column};
use crate::sql::ast::Expr;
use crate::storage::database::{among, uniques_from};
use crate::storage::row_laws::{is_key, lemma_key_column, lives_with};
use crate::storage::table::{index_holds, keyed, law_key_is_found, taken, Tbl};
use crate::value::Datum;

verus! {

/// What an expression is on a row.
pub open spec fn on_row(
    o: spec_fn(Question) -> Answer,
    e: Expr,
    row: Seq<Datum>,
    names: Seq<Seq<char>>,
) -> Option<Datum> {
    cell(o, e, row_chunk(row), names, 0)
}

/// A condition chooses a row where it is true of it, and not where it is false or NULL.
/// Without a condition every row is chosen.
pub proof fn law_condition(
    o: spec_fn(Question) -> Answer,
    row: Seq<Datum>,
    cond: Expr,
    names: Seq<Seq<char>>,
)
    requires
        on_row(o, cond, row, names) is Some,
    ensures
        meets(o, row, Some(cond), names) == Ok::<bool, Fault>(
            on_row(o, cond, row, names) == Some(Datum::Boolean(true)),
        ),
        meets(o, row, None, names) == Ok::<bool, Fault>(true),
{
    let b = eval(o, cond, row_chunk(row), names)->Ok_0;
    law_selection(b, 1);
    let sel = true_rows(b, 1);
    if col_at(b, 0) == Datum::Boolean(true) {
        assert(sel.contains(0usize));
    } else if sel.len() > 0 {
        assert(sel[0] < 1 && col_at(b, sel[0] as int) == Datum::Boolean(true));
    }
}

/// Whether a row is left of a batch by a condition.
pub open spec fn left_by(
    o: spec_fn(Question) -> Answer,
    e: Expr,
    c: Chunk,
    names: Seq<Seq<char>>,
    i: int,
) -> bool {
    cell(o, e, c, names, i) == Some(Datum::Boolean(true))
}

/// The assignment of a value by the last of the first `n` assignments to a column.
pub open spec fn last_set(sets: Seq<(usize, Expr)>, c: int, n: int, k: int) -> bool {
    &&& 0 <= k < n
    &&& sets[k].0 == c
    &&& forall|j: int| k < j < n ==> (#[trigger] sets[j]).0 != c
}

/// Assignments read the row as it was: a column gets what the last expression that is
/// assigned to it is on the row before the update, and the others stay.
pub proof fn law_assignments(
    o: spec_fn(Question) -> Answer,
    row: Seq<Datum>,
    names: Seq<Seq<char>>,
    sets: Seq<(usize, Expr)>,
    n: nat,
    c: int,
    k: int,
)
    requires
        n <= sets.len(),
        0 <= c < row.len(),
        forall|j: int| 0 <= j < n ==> on_row(o, (#[trigger] sets[j]).1, row, names) is Some,
    ensures
        rewritten(o, row, names, sets, n) matches Ok(w) && {
            &&& w.0.len() == row.len()
            &&& last_set(sets, c, n as int, k) ==> Some(w.0[c]) == on_row(o, sets[k].1, row, names)
            &&& (forall|j: int| 0 <= j < n ==> (#[trigger] sets[j]).0 != c) ==> w.0[c] == row[c]
            &&& w.1 <==> exists|j: int| 0 <= j < n && (#[trigger] sets[j]).0 < row.len()
        },
    decreases n,
{
    if n > 0 {
        let m = (n - 1) as nat;
        law_assignments(o, row, names, sets, m, c, k);
        assert(on_row(o, sets[n - 1].1, row, names) is Some);
        let w = rewritten(o, row, names, sets, n)->Ok_0;
        let before = rewritten(o, row, names, sets, m)->Ok_0;
        if last_set(sets, c, n as int, k) {
            if k < n - 1 {
                assert(sets[n - 1].0 != c);
                assert(last_set(sets, c, m as int, k));
            }
        }
        if w.1 {
            if sets[n - 1].0 < row.len() {
                assert(0 <= n - 1 < n);
            } else {
                let j = choose|j: int| 0 <= j < m && (#[trigger] sets[j]).0 < row.len();
                assert(sets[j].0 < row.len());
            }
        }
        if exists|j: int| 0 <= j < n && (#[trigger] sets[j]).0 < row.len() {
            let j = choose|j: int| 0 <= j < n && (#[trigger] sets[j]).0 < row.len();
            if j < m {
                assert(before.1);
            }
        }
    }
}

/// An update changes the rows that its condition chooses, and no others.
pub proof fn law_update_chooses(
    o: spec_fn(Question) -> Answer,
    row: Seq<Datum>,
    names: Seq<Seq<char>>,
    sets: Seq<(usize, Expr)>,
    cond: Expr,
)
    requires
        on_row(o, cond, row, names) is Some,
        forall|j: int|
            0 <= j < sets.len() ==> on_row(o, (#[trigger] sets[j]).1, row, names) is Some
                && sets[j].0 < row.len(),
        sets.len() > 0,
    ensures
        on_row(o, cond, row, names) == Some(Datum::Boolean(true)) ==> (changed_row(
            o,
            row,
            sets,
            Some(cond),
            names,
        ) matches Ok(Some(w)) && w == rewritten(o, row, names, sets, sets.len())->Ok_0.0),
        on_row(o, cond, row, names) != Some(Datum::Boolean(true)) ==> changed_row(
            o,
            row,
            sets,
            Some(cond),
            names,
        ) == Ok::<Option<Seq<Datum>>, Fault>(None),
{
    law_condition(o, row, cond, names);
    assert(sets[0].0 < row.len());
    law_assignments(o, row, names, sets, sets.len(), 0, 0);
}

/// A projection has in each row what its expressions are there, in their order, and as
/// many rows as the batch.
pub proof fn law_projection(
    o: spec_fn(Question) -> Answer,
    c: Chunk,
    es: Seq<Expr>,
    names: Seq<Seq<char>>,
    i: int,
)
    requires
        0 <= i < c.count,
        forall|j: int| 0 <= j < es.len() ==> cell(o, #[trigger] es[j], c, names, i) is Some,
    ensures
        projected(o, c, es, names) matches Ok(p) && {
            &&& p.count == c.count
            &&& row_of(p, i).len() == es.len()
            &&& forall|j: int|
                0 <= j < es.len() ==> cell(o, #[trigger] es[j], c, names, i) == Some(
                    row_of(p, i)[j],
                )
        },
{
    assert forall|j: int| 0 <= j < es.len() implies eval(o, #[trigger] es[j], c, names) is Ok by {
        assert(cell(o, es[j], c, names, i) is Some);
    }
    lemma_args(o, es, 0, c, names);
    let p = projected(o, c, es, names)->Ok_0;
    assert forall|j: int| 0 <= j < es.len() implies cell(o, #[trigger] es[j], c, names, i) == Some(
        row_of(p, i)[j],
    ) by {
        assert(eval(o, es[j], c, names) == Ok::<Column, Fault>(p.columns[j]));
    }
}

/// A filter leaves of a batch the rows in which the condition is true, in their order and
/// each once.
pub proof fn law_filter(
    o: spec_fn(Question) -> Answer,
    c: Chunk,
    e: Expr,
    names: Seq<Seq<char>>,
) -> (p: Seq<usize>)
    requires
        aligned(c),
        c.count <= usize::MAX,
        forall|i: int| 0 <= i < c.count ==> #[trigger] cell(o, e, c, names, i) is Some,
        c.count > 0,
    ensures
        filtered(o, c, e, names) matches Ok(f) && {
            &&& rows_of(f).len() == p.len()
            &&& forall|k: int|
                0 <= k < p.len() ==> (#[trigger] p[k]) < c.count && rows_of(f)[k] == row_of(
                    c,
                    p[k] as int,
                ) && left_by(o, e, c, names, p[k] as int)
            &&& forall|j: int, k: int| 0 <= j < k < p.len() ==> (#[trigger] p[j]) < (#[trigger] p[k])
            &&& forall|i: int|
                0 <= i < c.count && #[trigger] left_by(o, e, c, names, i) ==> p.contains(i as usize)
        },
{
    assert(cell(o, e, c, names, 0) is Some);
    let b = eval(o, e, c, names)->Ok_0;
    let p = true_rows(b, c.count);
    law_selection(b, c.count);
    law_filter_rows(o, c, e, names);
    let f = filtered(o, c, e, names)->Ok_0;
    assert forall|k: int| 0 <= k < p.len() implies (#[trigger] p[k]) < c.count && rows_of(f)[k]
        == row_of(c, p[k] as int) && left_by(o, e, c, names, p[k] as int) by {
        assert(cell(o, e, c, names, p[k] as int) is Some);
    }
    assert forall|i: int|
        0 <= i < c.count && #[trigger] left_by(o, e, c, names, i) implies p.contains(i as usize) by {
        assert(col_at(b, i) == Datum::Boolean(true));
    }
    p
}

/// Whether two rows have one value in a column.
pub open spec fn share(a: Seq<Datum>, b: Seq<Datum>, c: int) -> bool {
    c < a.len() && c < b.len() && a[c] == b[c]
}

/// Whether a row has in a column what a row before it or a live row of the table has.
pub open spec fn met(t: Tbl, rows: Seq<Seq<Datum>>, i: int, c: int) -> bool {
    c < rows[i].len() && ((exists|j: int| 0 <= j < i && #[trigger] share(rows[j], rows[i], c)) || (
    exists|k: int| #[trigger] lives_with(t, k, c, rows[i][c])))
}

/// Whether rows have primary keys of their own: none that is not NULL is that of a row
/// before it or of a live row of the table.
pub open spec fn keys_apart(t: Tbl, rows: Seq<Seq<Datum>>) -> bool {
    forall|i: int, c: int|
        0 <= i < rows.len() && #[trigger] is_key(t, c) && #[trigger] met(t, rows, i, c) ==> rows[i][c]
            == Datum::Null
}

/// Rows with keys that are taken are refused before anything is written, and the error
/// names the column of the primary key.
pub proof fn law_key_conflict(
    o: spec_fn(Question) -> Answer,
    t: Tbl,
    rows: Seq<Seq<Datum>>,
    c: int,
)
    requires
        is_key(t, c),
    ensures
        !keys_apart(t, rows) ==> (conflict(o, t, rows) matches Some(Fault::ConstraintViolation(s))
            && {
            let front = "UNIQUE constraint failed: "@ + t.def.columns[c].name + "="@;
            s.len() >= front.len() && s.subrange(0, front.len() as int) == front
        }),
{
    lemma_key_column(t, c);
    lemma_key_clash(t, rows, c, 0);
    match key_clash(t, rows, c, 0) {
        Some(i) => {
            assert(is_key(t, c) && met(t, rows, i, c) && rows[i][c] != Datum::Null);
            let front = "UNIQUE constraint failed: "@ + t.def.columns[c].name + "="@;
            let s = conflict(o, t, rows)->0->ConstraintViolation_0;
            assert(s.subrange(0, front.len() as int) =~= front);
        },
        None => {
            assert forall|i: int, d: int|
                0 <= i < rows.len() && #[trigger] is_key(t, d) && #[trigger] met(
                    t,
                    rows,
                    i,
                    d,
                ) implies rows[i][d] == Datum::Null by {
                lemma_key_column(t, d);
            }
        },
    }
}

proof fn lemma_key_clash(t: Tbl, rows: Seq<Seq<Datum>>, c: int, i: int)
    requires
        0 <= i,
        is_key(t, c),
    ensures
        match key_clash(t, rows, c, i) {
            Some(k) => i <= k < rows.len() && met(t, rows, k, c) && rows[k][c] != Datum::Null,
            None => forall|k: int|
                i <= k < rows.len() && #[trigger] met(t, rows, k, c) ==> rows[k][c] == Datum::Null,
        },
    decreases rows.len() - i,
{
    if i < rows.len() {
        lemma_key_clash(t, rows, c, i + 1);
        if c < rows[i].len() {
            lemma_met(t, rows, c, i);
        }
    }
}

proof fn lemma_met(t: Tbl, rows: Seq<Seq<Datum>>, c: int, i: int)
    requires
        0 <= i < rows.len(),
        is_key(t, c),
        c < rows[i].len(),
    ensures
        met(t, rows, i, c) <==> among(
            rows.subrange(0, i),
            c,
            rows[i][c],
        ) || keyed(t, rows[i][c]) is Some,
{
    let d = rows[i][c];
    let front = rows.subrange(0, i);
    lemma_key_column(t, c);
    law_key_is_found(t, d);
    if among(front, c, d) {
        let j = choose|j: int|
            0 <= j < front.len() && c < (#[trigger] front[j]).len() && front[j][c] == d;
        assert(share(rows[j], rows[i], c));
    }
    if let Some(k) = keyed(t, d) {
        assert(lives_with(t, k, c, d));
    }
    if exists|j: int| 0 <= j < i && #[trigger] share(rows[j], rows[i], c) {
        let j = choose|j: int| 0 <= j < i && #[trigger] share(rows[j], rows[i], c);
        assert(front[j] == rows[j]);
    }
    if exists|k: int| #[trigger] lives_with(t, k, c, d) {
        let k = choose|k: int| #[trigger] lives_with(t, k, c, d);
        assert(t.slots[k] is Some);
    }
}

/// Whether no two indexes have one name.
pub open spec fn index_names_apart(t: Tbl) -> bool {
    forall|j: int, k: int|
        0 <= j < k < t.def.indexes.len() ==> (#[trigger] t.def.indexes[j]).name != (
        #[trigger] t.def.indexes[k]).name
}

/// Whether a column is the first of a unique index.
pub open spec fn held_unique(t: Tbl, k: int, c: int) -> bool {
    &&& 0 <= k < t.def.indexes.len()
    &&& t.def.indexes[k].unique
    &&& t.def.indexes[k].key_columns.len() > 0
    &&& t.def.indexes[k].key_columns[0] == c
}

/// Whether rows have in the first columns of the unique indexes what no row before them
/// and no live row of the table has.
pub open spec fn indexed_apart(t: Tbl, rows: Seq<Seq<Datum>>) -> bool {
    forall|i: int, k: int, c: int|
        0 <= i < rows.len() && #[trigger] held_unique(t, k, c) ==> !#[trigger] met(t, rows, i, c)
}

/// Whether a name and a column are those of a unique index from `i` on.
pub open spec fn stems(t: Tbl, e: (Seq<char>, usize), i: int) -> bool {
    exists|k: int|
        i <= k && #[trigger] held_unique(t, k, e.1 as int) && t.def.indexes[k].name == e.0
}

/// The unique indexes, and nothing else, are looked at.
proof fn lemma_uniques(t: Tbl, i: int)
    requires
        0 <= i,
    ensures
        forall|m: int|
            0 <= m < uniques_from(t.def.indexes, i).len() ==> stems(
                t,
                #[trigger] uniques_from(t.def.indexes, i)[m],
                i,
            ),
        forall|k: int, c: int|
            i <= k && #[trigger] held_unique(t, k, c) ==> uniques_from(t.def.indexes, i).contains(
                (t.def.indexes[k].name, c as usize),
            ),
    decreases t.def.indexes.len() - i,
{
    let x = t.def.indexes;
    let us = uniques_from(x, i);
    if i < x.len() {
        lemma_uniques(t, i + 1);
        let rest = uniques_from(x, i + 1);
        let here = x[i].unique && x[i].key_columns.len() > 0;
        assert forall|m: int| 0 <= m < us.len() implies stems(t, #[trigger] us[m], i) by {
            if here && m == 0 {
                assert(held_unique(t, i, us[0].1 as int));
            } else {
                let n = if here {
                    m - 1
                } else {
                    m
                };
                assert(us[m] == rest[n]);
                assert(stems(t, rest[n], i + 1));
                let k = choose|k: int|
                    i + 1 <= k && #[trigger] held_unique(t, k, rest[n].1 as int) && x[k].name
                        == rest[n].0;
                assert(held_unique(t, k, us[m].1 as int));
            }
        }
        assert forall|k: int, c: int| i <= k && #[trigger] held_unique(t, k, c) implies us.contains(
            (x[k].name, c as usize),
        ) by {
            let e = (x[k].name, c as usize);
            if k == i {
                assert(us[0] == e);
            } else {
                let n = rest.index_of(e);
                assert(rest[n] == e);
                assert(us[if here {
                    n + 1
                } else {
                    n
                }] == e);
            }
        }
    }
}

/// A row meets another in the key of an index.
proof fn lemma_met_index(t: Tbl, rows: Seq<Seq<Datum>>, i: int, k: int, c: int)
    requires
        0 <= i < rows.len(),
        held_unique(t, k, c),
        index_names_apart(t),
    ensures
        met(t, rows, i, c) <==> c < rows[i].len() && (among(rows.subrange(0, i), c, rows[i][c])
            || index_holds(t, t.def.indexes[k].name, rows[i][c])),
{
    let front = rows.subrange(0, i);
    if c < rows[i].len() {
        let d = rows[i][c];
        if among(front, c, d) {
            let j = choose|j: int|
                0 <= j < front.len() && c < (#[trigger] front[j]).len() && front[j][c] == d;
            assert(share(rows[j], rows[i], c));
        }
        if exists|j: int| 0 <= j < i && #[trigger] share(rows[j], rows[i], c) {
            let j = choose|j: int| 0 <= j < i && #[trigger] share(rows[j], rows[i], c);
            assert(front[j] == rows[j]);
        }
        if index_holds(t, t.def.indexes[k].name, d) {
            let m = choose|m: int|
                0 <= m < t.def.indexes.len() && (#[trigger] t.def.indexes[m]).unique
                    && t.def.indexes[m].name == t.def.indexes[k].name
                    && t.def.indexes[m].key_columns.len() > 0 && taken(
                    t.slots,
                    t.def.indexes[m].key_columns[0] as int,
                    d,
                    None,
                );
            assert(m == k);
            let n = choose|n: int|
                0 <= n < t.slots.len() && #[trigger] t.slots[n] is Some && cell_of(
                    t.slots[n]->0,
                    c,
                ) == d;
            assert(lives_with(t, n, c, d));
        }
        if exists|n: int| #[trigger] lives_with(t, n, c, d) {
            let n = choose|n: int| #[trigger] lives_with(t, n, c, d);
            assert(t.slots[n] is Some && cell_of(t.slots[n]->0, c) == d);
            assert(taken(t.slots, c, d, None));
            assert(t.def.indexes[k].unique);
        }
    }
}

proof fn lemma_unique_clash_at(t: Tbl, rows: Seq<Seq<Datum>>, i: int, m: int)
    requires
        0 <= i < rows.len(),
        0 <= m,
        index_names_apart(t),
    ensures
        unique_clash_at(t, rows.subrange(0, i), rows[i], uniques_from(t.def.indexes, 0), m) is None
            <==> forall|n: int|
            m <= n < uniques_from(t.def.indexes, 0).len() ==> !met(
                t,
                rows,
                i,
                (#[trigger] uniques_from(t.def.indexes, 0)[n]).1 as int,
            ),
    decreases uniques_from(t.def.indexes, 0).len() - m,
{
    let us = uniques_from(t.def.indexes, 0);
    if m < us.len() {
        lemma_unique_clash_at(t, rows, i, m + 1);
        lemma_uniques(t, 0);
        assert(stems(t, us[m], 0));
        let k = choose|k: int|
            0 <= k && #[trigger] held_unique(t, k, us[m].1 as int) && t.def.indexes[k].name == us[m].0;
        lemma_met_index(t, rows, i, k, us[m].1 as int);
    }
}

proof fn lemma_unique_clash(t: Tbl, rows: Seq<Seq<Datum>>, i: int)
    requires
        0 <= i,
        index_names_apart(t),
    ensures
        unique_clash(t, rows, uniques_from(t.def.indexes, 0), i) is None <==> forall|
            j: int,
            n: int,
        |
            i <= j < rows.len() && 0 <= n < uniques_from(t.def.indexes, 0).len() ==> !#[trigger] met(
                t,
                rows,
                j,
                (#[trigger] uniques_from(t.def.indexes, 0)[n]).1 as int,
            ),
    decreases rows.len() - i,
{
    if i < rows.len() {
        lemma_unique_clash_at(t, rows, i, 0);
        lemma_unique_clash(t, rows, i + 1);
    }
}

/// Rows are let in where no primary key and no key of a unique index is taken, and only
/// there.
pub proof fn law_conflict(o: spec_fn(Question) -> Answer, t: Tbl, rows: Seq<Seq<Datum>>)
    requires
        index_names_apart(t),
    ensures
        conflict(o, t, rows) is None <==> keys_apart(t, rows) && indexed_apart(t, rows),
{
    let us = uniques_from(t.def.indexes, 0);
    lemma_unique_clash(t, rows, 0);
    lemma_uniques(t, 0);
    if unique_clash(t, rows, us, 0) is None {
        assert forall|i: int, k: int, c: int|
            0 <= i < rows.len() && #[trigger] held_unique(t, k, c) implies !#[trigger] met(
            t,
            rows,
            i,
            c,
        ) by {
            let e = (t.def.indexes[k].name, c as usize);
            let n = us.index_of(e);
            assert(us[n].1 as int == c);
        }
    } else {
        let (j, n) = choose|j: int, n: int|
            0 <= j < rows.len() && 0 <= n < us.len() && #[trigger] met(
                t,
                rows,
                j,
                (#[trigger] us[n]).1 as int,
            );
        assert(stems(t, us[n], 0));
        let k = choose|k: int| 0 <= k && #[trigger] held_unique(t, k, us[n].1 as int);
        assert(held_unique(t, k, us[n].1 as int));
    }
    let f = |c: ColumnModel| c.is_primary_key;
    lemma_first_from(t.def.columns, f, 0);
    match pk_index(t.def.columns) {
        Some(c) => {
            assert(f(t.def.columns[c]));
            assert forall|j: int| 0 <= j < c implies !(#[trigger] t.def.columns[j]).is_primary_key by {
                assert(!f(t.def.columns[j]));
            }
            assert(is_key(t, c));
            lemma_key_clash(t, rows, c, 0);
            assert forall|e: int| #[trigger] is_key(t, e) implies e == c by {
                lemma_key_column(t, e);
            }
            if let Some(i) = key_clash(t, rows, c, 0) {
                assert(met(t, rows, i, c));
            }
        },
        None => {
            assert forall|e: int| !#[trigger] is_key(t, e) by {
                if 0 <= e < t.def.columns.len() {
                    assert(!f(t.def.columns[e]));
                }
            }
        },
    }
}

} // verus!
