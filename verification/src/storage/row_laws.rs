//! What a table stores, what it refuses, and what it keeps.
use vstd::prelude::*;

use crate::common::error::Fault;
use crate::common::types::{lemma_first_from, pk_index, ColumnModel};
use crate::executor::operators::hash_join::cell_of;
use crate::storage::table::{
    index_taken, inserted_at, key_taken, live, null_at, numbered, removed, row_fault, taken,
    updated,
    Tbl,
};
use crate::value::Datum;

verus! {

/// What a row has in a column: NULL behind its end.
pub open spec fn has_at(row: Seq<Datum>, j: int, d: Datum) -> bool {
    if j < row.len() {
        row[j] == d
    } else {
        d == Datum::Null
    }
}

/// Whether a live row has a value in a column.
pub open spec fn lives_with(t: Tbl, i: int, c: int, d: Datum) -> bool {
    0 <= i < t.slots.len() && (t.slots[i] matches Some(r) && has_at(r, c, d))
}

/// Whether a row has in no column that forbids it a NULL.
pub open spec fn no_nulls(t: Tbl, row: Seq<Datum>) -> bool {
    forall|j: int|
        0 <= j < t.def.columns.len() && !(#[trigger] t.def.columns[j]).nullable ==> !has_at(
            row,
            j,
            Datum::Null,
        )
}

/// Whether a column is the first that makes the primary key.
pub open spec fn is_key(t: Tbl, c: int) -> bool {
    &&& 0 <= c < t.def.columns.len()
    &&& t.def.columns[c].is_primary_key
    &&& forall|j: int| 0 <= j < c ==> !(#[trigger] t.def.columns[j]).is_primary_key
}

/// Whether no live row but that in a slot has the value that a row has in a column.
pub open spec fn alone(t: Tbl, row: Seq<Datum>, c: int, except: Option<int>) -> bool {
    forall|i: int, d: Datum|
        except != Some(i) && has_at(row, c, d) ==> !#[trigger] lives_with(t, i, c, d)
}

/// Whether the primary key of a row, where it is not NULL, is that of no other row.
pub open spec fn key_alone(t: Tbl, row: Seq<Datum>, except: Option<int>) -> bool {
    forall|c: int|
        #[trigger] is_key(t, c) ==> has_at(row, c, Datum::Null) || alone(t, row, c, except)
}

/// Whether a row has in the first column of each unique index what no other row has.
pub open spec fn indexes_alone(t: Tbl, row: Seq<Datum>, except: Option<int>) -> bool {
    forall|k: int|
        0 <= k < t.def.indexes.len() && (#[trigger] t.def.indexes[k]).unique
            && t.def.indexes[k].key_columns.len() > 0 ==> alone(
            t,
            row,
            t.def.indexes[k].key_columns[0] as int,
            except,
        )
}

proof fn lemma_alone(t: Tbl, row: Seq<Datum>, c: int, except: Option<int>)
    requires
        0 <= c,
    ensures
        alone(t, row, c, except) <==> !taken(
            t.slots,
            c,
            cell_of(row, c),
            except,
        ),
{
    let d = cell_of(row, c);
    assert(has_at(row, c, d));
    if alone(t, row, c, except) {
        assert forall|i: int|
            0 <= i < t.slots.len() && except != Some(i) && #[trigger] t.slots[i] is Some implies
            cell_of(t.slots[i]->0, c) != d by {
            assert(!lives_with(t, i, c, d));
        }
    } else {
        let (i, e) = choose|i: int, e: Datum|
            except != Some(i) && has_at(row, c, e) && #[trigger] lives_with(t, i, c, e);
        assert(e == d);
        assert(t.slots[i] is Some);
    }
}

proof fn lemma_null_at(columns: Seq<ColumnModel>, row: Seq<Datum>, i: int)
    requires
        0 <= i,
    ensures
        match null_at(columns, row, i) {
            Some(k) => i <= k < columns.len() && !columns[k].nullable && has_at(row, k, Datum::Null)
                && forall|j: int|
                i <= j < k ==> (#[trigger] columns[j]).nullable || !has_at(row, j, Datum::Null),
            None => forall|j: int|
                i <= j < columns.len() ==> (#[trigger] columns[j]).nullable || !has_at(
                    row,
                    j,
                    Datum::Null,
                ),
        },
    decreases columns.len() - i,
{
    if i < columns.len() {
        lemma_null_at(columns, row, i + 1);
    }
}

proof fn lemma_index_taken(t: Tbl, row: Seq<Datum>, except: Option<int>, i: int)
    requires
        0 <= i,
    ensures
        index_taken(t.def.indexes, t.slots, row, except, i) is None <==> forall|k: int|
            i <= k < t.def.indexes.len() && (#[trigger] t.def.indexes[k]).unique
                && t.def.indexes[k].key_columns.len() > 0 ==> alone(
                t,
                row,
                t.def.indexes[k].key_columns[0] as int,
                except,
            ),
    decreases t.def.indexes.len() - i,
{
    if i < t.def.indexes.len() {
        lemma_index_taken(t, row, except, i + 1);
        let x = t.def.indexes[i];
        if x.key_columns.len() > 0 {
            lemma_alone(t, row, x.key_columns[0] as int, except);
        }
        if index_taken(t.def.indexes, t.slots, row, except, i) is None {
            assert forall|k: int|
                i <= k < t.def.indexes.len() && (#[trigger] t.def.indexes[k]).unique
                    && t.def.indexes[k].key_columns.len() > 0 implies alone(
                t,
                row,
                t.def.indexes[k].key_columns[0] as int,
                except,
            ) by {}
        }
    }
}

proof fn lemma_key_taken(t: Tbl, row: Seq<Datum>, except: Option<int>)
    ensures
        key_taken(t, row, except) <==> !key_alone(t, row, except),
{
    let f = |c: ColumnModel| c.is_primary_key;
    lemma_first_from(t.def.columns, f, 0);
    match pk_index(t.def.columns) {
        Some(c) => {
            assert(f(t.def.columns[c]));
            assert forall|j: int| 0 <= j < c implies !(#[trigger] t.def.columns[j]).is_primary_key by {
                assert(!f(t.def.columns[j]));
            }
            assert(is_key(t, c));
            lemma_alone(t, row, c, except);
            assert forall|e: int| #[trigger] is_key(t, e) implies e == c by {
                if e < c {
                    assert(!t.def.columns[e].is_primary_key);
                }
                if c < e {
                    assert(!t.def.columns[c].is_primary_key);
                }
            }
        },
        None => {
            assert forall|e: int| !#[trigger] is_key(t, e) by {
                if 0 <= e < t.def.columns.len() {
                    assert(!f(t.def.columns[e]));
                }
            }
        },
    }
}

/// The column of the primary key is found.
pub proof fn lemma_key_column(t: Tbl, c: int)
    requires
        is_key(t, c),
    ensures
        pk_index(t.def.columns) == Some(c),
{
    let f = |c: ColumnModel| c.is_primary_key;
    lemma_first_from(t.def.columns, f, 0);
    assert(f(t.def.columns[c]));
    if let Some(k) = pk_index(t.def.columns) {
        assert(f(t.def.columns[k]));
    }
}

/// A table takes a row where it has no NULL in a column that forbids it, and no other row
/// has its primary key or, in the first column of a unique index, its value. A row with a
/// NULL too many is refused with the name of the first such column.
pub proof fn law_row_is_taken(t: Tbl, row: Seq<Datum>, skip_key: bool, except: Option<int>)
    ensures
        row_fault(t, row, skip_key, except) is None <==> no_nulls(t, row) && (skip_key || key_alone(
            t,
            row,
            except,
        )) && indexes_alone(t, row, except),
        !no_nulls(t, row) ==> exists|j: int|
            0 <= j < t.def.columns.len() && !(#[trigger] t.def.columns[j]).nullable && has_at(
                row,
                j,
                Datum::Null,
            ) && (forall|i: int|
                0 <= i < j ==> (#[trigger] t.def.columns[i]).nullable || !has_at(
                    row,
                    i,
                    Datum::Null,
                )) && row_fault(t, row, skip_key, except) == Some(
                Fault::ConstraintViolation("NOT NULL constraint failed: "@ + t.def.columns[j].name),
            ),
{
    lemma_null_at(t.def.columns, row, 0);
    lemma_key_taken(t, row, except);
    lemma_index_taken(t, row, except, 0);
    if let Some(j) = null_at(t.def.columns, row, 0) {
        assert(!t.def.columns[j].nullable && has_at(row, j, Datum::Null));
    }
}

/// An update puts a row in the place of the one that was there, where the table takes it
/// beside the others, and changes nothing else. A row that is not there is not made.
pub proof fn law_update_row(t: Tbl, id: u64, row: Seq<Datum>)
    ensures
        id < t.slots.len() && t.slots[id as int] is Some ==> (updated(t, id, row) is Ok <==> no_nulls(
            t,
            row,
        ) && key_alone(t, row, Some(id as int)) && indexes_alone(t, row, Some(id as int))),
        id < t.slots.len() && t.slots[id as int] is Some ==> (updated(t, id, row) matches Ok(u) ==> {
            &&& u.def == t.def
            &&& u.slots.len() == t.slots.len()
            &&& u.slots[id as int] == Some(row)
            &&& forall|i: int|
                0 <= i < t.slots.len() && i != id ==> #[trigger] u.slots[i] == t.slots[i]
        }),
        id >= t.slots.len() || t.slots[id as int] is None ==> updated(t, id, row) == Ok::<Tbl, Fault>(
            t,
        ),
{
    law_row_is_taken(t, row, false, Some(id as int));
}

/// A deletion empties the slot of a row and changes nothing else.
pub proof fn law_delete_row(t: Tbl, id: u64)
    ensures
        removed(t, id).def == t.def,
        removed(t, id).slots.len() == t.slots.len(),
        id < t.slots.len() ==> removed(t, id).slots[id as int] is None,
        forall|i: int|
            0 <= i < t.slots.len() && i != id ==> #[trigger] removed(t, id).slots[i] == t.slots[i],
{
}

/// What a column without automatic numbers stores is what the row has there.
proof fn lemma_numbered(columns: Seq<ColumnModel>, row: Seq<Datum>, next: u64, n: nat)
    requires
        n <= columns.len(),
    ensures
        numbered(columns, row, next, n).0.len() == n,
        forall|j: int|
            0 <= j < n && !(#[trigger] columns[j]).auto_increment ==> has_at(
                row,
                j,
                numbered(columns, row, next, n).0[j],
            ),
        (forall|j: int| 0 <= j < n ==> !(#[trigger] columns[j]).auto_increment) ==> numbered(
            columns,
            row,
            next,
            n,
        ).1 == next,
    decreases n,
{
    if n > 0 {
        lemma_numbered(columns, row, next, (n - 1) as nat);
        let (before, all) = (
            numbered(columns, row, next, (n - 1) as nat).0,
            numbered(columns, row, next, n).0,
        );
        assert forall|j: int| 0 <= j < n && !(#[trigger] columns[j]).auto_increment implies has_at(
            row,
            j,
            all[j],
        ) by {
            if j < n - 1 {
                assert(all[j] == before[j]);
            }
        }
    }
}

/// Whether a column is the only one with automatic numbers.
pub open spec fn numbers_only(t: Tbl, c: int) -> bool {
    &&& 0 <= c < t.def.columns.len()
    &&& forall|j: int|
        0 <= j < t.def.columns.len() ==> ((#[trigger] t.def.columns[j]).auto_increment <==> j == c)
}

proof fn lemma_numbers(t: Tbl, row: Seq<Datum>, c: int, n: nat)
    requires
        numbers_only(t, c),
        n <= t.def.columns.len(),
    ensures
        n <= c ==> numbered(t.def.columns, row, t.def.next_auto_increment_id, n).1
            == t.def.next_auto_increment_id,
        n > c ==> {
            let all = numbered(t.def.columns, row, t.def.next_auto_increment_id, n);
            let one = numbered(t.def.columns, row, t.def.next_auto_increment_id, (c + 1) as nat);
            all.1 == one.1 && all.0.len() > c && all.0[c] == one.0[c]
        },
    decreases n,
{
    lemma_numbered(t.def.columns, row, t.def.next_auto_increment_id, n);
    if n > 0 {
        lemma_numbers(t, row, c, (n - 1) as nat);
        assert(t.def.columns[n - 1].auto_increment <==> n - 1 == c);
    }
}

/// A new row stands behind the last one as it was given, and a column with automatic
/// numbers numbers a NULL: with the next number, which is at least 1. What it stores as a
/// number is never given out again.
pub proof fn law_new_row(t: Tbl, row: Seq<Datum>, skip_key: bool, c: int, u: Tbl)
    requires
        inserted_at(t, None, row, skip_key) == Ok::<Tbl, Fault>(u),
    ensures
        u.slots.len() == t.slots.len() + 1,
        forall|i: int| 0 <= i < t.slots.len() ==> #[trigger] u.slots[i] == t.slots[i],
        u.slots.last() matches Some(r) && r.len() == t.def.columns.len() && {
            let next = t.def.next_auto_increment_id;
            let then = u.def.next_auto_increment_id;
            &&& no_nulls(t, r) && indexes_alone(t, r, None) && (skip_key || key_alone(t, r, None))
            &&& forall|j: int|
                0 <= j < r.len() && !(#[trigger] t.def.columns[j]).auto_increment ==> has_at(
                    row,
                    j,
                    r[j],
                )
            &&& numbers_only(t, c) && has_at(row, c, Datum::Null) && next < i64::MAX ==> {
                &&& r[c] matches Datum::Int64(v) && v >= 1 && (v == next || next == 0 && v == 1)
                &&& then == r[c]->Int64_0 + 1
            }
            &&& numbers_only(t, c) && !has_at(row, c, Datum::Null) ==> {
                &&& has_at(row, c, r[c])
                &&& then >= next
                &&& (r[c] matches Datum::Int64(v) && v < i64::MAX) ==> then > r[c]->Int64_0 && (then
                    == r[c]->Int64_0 + 1 || then == next)
            }
            &&& (forall|j: int|
                0 <= j < r.len() ==> !(#[trigger] t.def.columns[j]).auto_increment) ==> then == next
        },
{
    let columns = t.def.columns;
    let next = t.def.next_auto_increment_id;
    let full = numbered(columns, row, next, columns.len());
    lemma_numbered(columns, row, next, columns.len());
    law_row_is_taken(t, full.0, skip_key, None);
    assert(u.slots.last() == Some(full.0));
    if numbers_only(t, c) {
        lemma_numbers(t, row, c, columns.len());
        lemma_numbers(t, row, c, c as nat);
        lemma_numbered(columns, row, next, c as nat);
        assert(columns[c].auto_increment);
    }
}

/// The live rows of a table are those of its slots that are not empty, each with its
/// number, in the order of the numbers.
pub proof fn law_live_rows(slots: Seq<Option<Seq<Datum>>>, n: nat)
    requires
        n <= slots.len() <= u64::MAX,
    ensures
        forall|k: int|
            0 <= k < live(slots, n).len() ==> (#[trigger] live(slots, n)[k]).0 < n
                && slots[live(slots, n)[k].0 as int] == Some(live(slots, n)[k].1),
        forall|j: int, k: int|
            0 <= j < k < live(slots, n).len() ==> (#[trigger] live(slots, n)[j]).0 < (
            #[trigger] live(slots, n)[k]).0,
        forall|i: int|
            0 <= i < n && #[trigger] slots[i] is Some ==> live(slots, n).contains(
                (i as u64, slots[i]->0),
            ),
    decreases n,
{
    if n > 0 {
        law_live_rows(slots, (n - 1) as nat);
        let (before, all) = (live(slots, (n - 1) as nat), live(slots, n));
        assert forall|i: int| 0 <= i < n && #[trigger] slots[i] is Some implies all.contains(
            (i as u64, slots[i]->0),
        ) by {
            if i < n - 1 {
                let k = before.index_of((i as u64, slots[i]->0));
                assert(all[k] == before[k]);
            } else {
                assert(all[all.len() - 1] == (i as u64, slots[i]->0));
            }
        }
        assert forall|k: int| 0 <= k < all.len() implies (#[trigger] all[k]).0 < n
            && slots[all[k].0 as int] == Some(all[k].1) by {
            if k < before.len() {
                assert(all[k] == before[k]);
            }
        }
        assert forall|j: int, k: int| 0 <= j < k < all.len() implies (#[trigger] all[j]).0 < (
        #[trigger] all[k]).0 by {
            assert(all[j] == before[j]);
            if k < before.len() {
                assert(all[k] == before[k]);
            }
        }
    }
}

} // verus!
