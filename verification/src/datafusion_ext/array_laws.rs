//! What a table hands out as arrays.
use vstd::prelude::*;

use crate::common::error::Fault;
use crate::common::types::DataType;
use crate::datafusion_ext::catalog::database_tables;
use crate::datafusion_ext::table_provider::{
    arrayed, arrays, fitted, fitted_cells, provided, Provider,
};
use crate::datafusion_ext::types::{arrow_of, ArrowType};
use crate::executor::exact::finite64;
use crate::executor::operators::hash_join::cell_of;
use crate::float_laws::{law_integer_kept, one, units};
use crate::storage::database::Db;
use crate::storage::row_laws::{has_at, law_live_rows};
use crate::storage::table::{live, Tbl};
use crate::value::Datum;

verus! {

/// Whether a value is handed out as another: NULL as NULL, a value of the type as it is,
/// an integer as the same integer, in 32 bits up to a multiple of their range, or as the
/// double that stands for it.
pub open spec fn handed(t: ArrowType, d: Datum, e: Datum) -> bool {
    match d {
        Datum::Null => e == Datum::Null,
        Datum::Int32(x) => match t {
            ArrowType::Int32 => e == d,
            ArrowType::Int64 => e matches Datum::Int64(y) && y == x,
            ArrowType::Float64 => e matches Datum::Float64(b) && finite64(b) && units(b) == x * one(),
            _ => false,
        },
        Datum::Int64(x) => match t {
            ArrowType::Int64 => e == d,
            ArrowType::Int32 => e matches Datum::Int32(y) && (x - y) % 0x1_0000_0000 == 0,
            ArrowType::Float64 => e matches Datum::Float64(b) && (-0x20_0000_0000_0000 <= x
                <= 0x20_0000_0000_0000 ==> finite64(b) && units(b) == x * one()),
            _ => false,
        },
        Datum::Boolean(_) => t == ArrowType::Boolean && e == d,
        Datum::Float64(_) => t == ArrowType::Float64 && e == d,
        Datum::Varchar(_) => t == ArrowType::Utf8 && e == d,
        _ => false,
    }
}

/// Whether a value is one that a column of a type can hand out.
pub open spec fn can_hand(t: ArrowType, d: Datum) -> bool {
    match d {
        Datum::Null => true,
        Datum::Int32(_) | Datum::Int64(_) => t == ArrowType::Int32 || t == ArrowType::Int64 || t
            == ArrowType::Float64,
        Datum::Boolean(_) => t == ArrowType::Boolean,
        Datum::Float64(_) => t == ArrowType::Float64,
        Datum::Varchar(_) => t == ArrowType::Utf8,
        _ => false,
    }
}

proof fn lemma_fitted(t: ArrowType, d: Datum)
    ensures
        fitted(t, d) is Some <==> can_hand(t, d),
        fitted(t, d) matches Some(e) ==> handed(t, d, e),
{
    match d {
        Datum::Int32(x) => law_integer_kept(x as int),
        Datum::Int64(x) => {
            if -0x20_0000_0000_0000 <= x <= 0x20_0000_0000_0000 {
                law_integer_kept(x as int);
            }
            assert(x - (x as i32) as i64 == ((x - (x as i32) as i64) / 0x1_0000_0000)
                * 0x1_0000_0000) by (bit_vector);
        },
        _ => {},
    }
}

proof fn lemma_cells(t: ArrowType, rows: Seq<Seq<Datum>>, c: int, n: nat)
    requires
        n <= rows.len(),
        0 <= c,
    ensures
        fitted_cells(t, rows, c, n) is Some <==> forall|i: int|
            0 <= i < n ==> can_hand(t, cell_of(#[trigger] rows[i], c)),
        fitted_cells(t, rows, c, n) matches Some(cells) ==> cells.len() == n && forall|i: int|
            0 <= i < n ==> handed(t, cell_of(#[trigger] rows[i], c), cells[i]),
    decreases n,
{
    if n > 0 {
        lemma_cells(t, rows, c, (n - 1) as nat);
        lemma_fitted(t, cell_of(rows[n - 1], c));
        if let Some(cells) = fitted_cells(t, rows, c, n) {
            let before = fitted_cells(t, rows, c, (n - 1) as nat)->0;
            assert forall|i: int| 0 <= i < n implies handed(
                t,
                cell_of(#[trigger] rows[i], c),
                cells[i],
            ) by {
                if i < n - 1 {
                    assert(cells[i] == before[i]);
                }
            }
        }
    }
}

/// Whether an array can be made of a column type.
pub open spec fn arrays_of(t: DataType) -> bool {
    t is Boolean || t is Int32 || t is Int64 || t is Float64 || t is Varchar
}

/// A column is handed out under the type that its schema says, with a value for each row
/// that is that of the row, in the order of the rows. That fails for other types, and
/// where a row has a value that the type cannot have.
pub proof fn law_column_array(t: DataType, rows: Seq<Seq<Datum>>, c: nat)
    ensures
        arrayed(t, rows, c) is Ok <==> arrays_of(t) && forall|i: int|
            0 <= i < rows.len() ==> can_hand(arrow_of(t), cell_of(#[trigger] rows[i], c as int)),
        arrayed(t, rows, c) matches Ok(a) ==> a.0 == arrow_of(t) && a.1.len() == rows.len() && forall|
            i: int,
            d: Datum,
        |
            0 <= i < rows.len() && #[trigger] has_at(rows[i], c as int, d) ==> handed(
                a.0,
                d,
                a.1[i],
            ),
{
    lemma_cells(arrow_of(t), rows, c as int, rows.len());
    if let Ok(a) = arrayed(t, rows, c) {
        assert forall|i: int, d: Datum|
            0 <= i < rows.len() && #[trigger] has_at(rows[i], c as int, d) implies handed(
            a.0,
            d,
            a.1[i],
        ) by {
            assert(d == cell_of(rows[i], c as int));
        }
    }
}

/// Columns are handed out in the order in which they are asked for, each as it is by
/// itself.
pub proof fn law_arrays_in_order(p: Provider, at: Seq<usize>, n: nat)
    requires
        n <= at.len(),
    ensures
        arrays(p, at, n) matches Ok(out) ==> out.len() == n && forall|k: int|
            0 <= k < n ==> arrayed(
                p.columns[(#[trigger] at[k]) as int].1,
                p.rows,
                at[k] as nat,
            ) == Ok::<(ArrowType, Seq<Datum>), Fault>(out[k]),
    decreases n,
{
    if n > 0 {
        law_arrays_in_order(p, at, (n - 1) as nat);
        if let Ok(out) = arrays(p, at, n) {
            let before = arrays(p, at, (n - 1) as nat)->Ok_0;
            assert forall|k: int| 0 <= k < n implies arrayed(
                p.columns[(#[trigger] at[k]) as int].1,
                p.rows,
                at[k] as nat,
            ) == Ok::<(ArrowType, Seq<Datum>), Fault>(out[k]) by {
                if k < n - 1 {
                    assert(out[k] == before[k]);
                }
            }
        }
    }
}

/// What is handed out of a table are its columns, by name, type and whether they take
/// NULL, and its live rows in their order.
pub proof fn law_provided(t: Tbl, k: int, j: int)
    requires
        t.slots.len() <= u64::MAX,
        t.def.columns.len() <= usize::MAX,
        0 <= k < live(t.slots, t.slots.len()).len(),
        0 <= j < t.def.columns.len(),
    ensures
        ({
            let p = provided(t);
            let i = live(t.slots, t.slots.len())[k].0 as int;
            &&& p.name == t.def.name
            &&& p.columns.len() == t.def.columns.len() == p.schema.len()
            &&& p.columns[j] == (
                t.def.columns[j].name,
                t.def.columns[j].data_type,
                t.def.columns[j].nullable,
            )
            &&& p.schema[j] == (
                t.def.columns[j].name,
                arrow_of(t.def.columns[j].data_type),
                t.def.columns[j].nullable,
            )
            &&& p.rows.len() == live(t.slots, t.slots.len()).len()
            &&& 0 <= i < t.slots.len()
            &&& t.slots[i] matches Some(r) && has_at(r, j, p.rows[k][j])
        }),
{
    law_live_rows(t.slots, t.slots.len());
    assert(live(t.slots, t.slots.len())[k].0 < t.slots.len());
}

/// A catalog of a database has its tables under their names, the last of a name, and no
/// others.
pub proof fn law_catalog(d: Db, n: nat, name: Seq<char>)
    requires
        n <= d.tables.len(),
    ensures
        database_tables(d, n).contains_key(name) <==> exists|k: int|
            0 <= k < n && (#[trigger] d.tables[k]).def.name == name,
        forall|k: int|
            0 <= k < n && (#[trigger] d.tables[k]).def.name == name && (forall|j: int|
                k < j < n ==> (#[trigger] d.tables[j]).def.name != name) ==> database_tables(
                d,
                n,
            )[name] == provided(d.tables[k]),
    decreases n,
{
    if n > 0 {
        law_catalog(d, (n - 1) as nat, name);
        let last = d.tables[n - 1];
        assert(last.def.name == d.tables[n - 1].def.name);
    }
}

} // verus!
