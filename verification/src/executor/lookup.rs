//! Reading tables by key.
use vstd::prelude::*;

use crate::common::error::{EngramDbError, Fault};
use crate::common::types::{IndexDef, IndexModel};
use crate::common::value_cmp::{order_values, value_order};
use crate::executor::columnar::{names_picked, pick_names};
use crate::executor::operators::delete::{column_names, names_of};
use crate::executor::operators::hash_join::{cell_of, read_cell};
use crate::executor::operators::sort::{row_order, sort_keyed};
use crate::executor::physical_plan::{SortDirection, SortKey};
use crate::executor::relational::{gives_query, pick_rows};
use crate::executor::sorting::sorted_rows;
use crate::float::{f32_widen, widen32, F32};
use crate::query::{listed, Query, QueryResult};
use crate::storage::database::{
    find_index, has_search, index_from, table_of, Database, Db,
};
use crate::storage::table::{keyed, pick_cells, picked, Table, Tbl};
use crate::text::join3;
use crate::value::{clone_row, same_value, Datum};
use crate::Value;

verus! {

/// A table and one of its indexes.
pub open spec fn indexed(d: Db, table: Seq<char>, index: Seq<char>) -> Result<
    (Tbl, IndexModel),
    Fault,
> {
    match table_of(d, table) {
        None => Err(Fault::TableNotFound(table)),
        Some(t) => match index_from(t.def.indexes, index, 0) {
            None => Err(
                Fault::Parse("Index '"@ + index + "' not found during execution"@),
            ),
            Some(k) => Ok((t, t.def.indexes[k])),
        },
    }
}

/// The live rows among the first `n` whose key in an index is the given one.
pub open spec fn rows_with(t: Tbl, x: IndexModel, d: Datum, n: nat) -> Seq<Seq<Datum>>
    decreases n,
{
    if n == 0 {
        Seq::empty()
    } else {
        let before = rows_with(t, x, d, (n - 1) as nat);
        if t.slots[n - 1] is Some && x.key_columns.len() > 0 && cell_of(
            t.slots[n - 1]->0,
            x.key_columns[0] as int,
        ) == d {
            before.push(t.slots[n - 1]->0)
        } else {
            before
        }
    }
}

/// What an index holds of a row: the key at 0, and the included columns
/// behind it.
pub open spec fn entry_cell(row: Seq<Datum>, x: IndexModel, d: Datum, at: usize) -> Datum {
    if at == 0 {
        d
    } else if at - 1 < x.included_columns.len() {
        cell_of(row, x.included_columns[at - 1] as int)
    } else {
        Datum::Null
    }
}

/// The rows with a key, as an index holds them.
pub open spec fn covered(
    d: Db,
    table: Seq<char>,
    index: Seq<char>,
    key: Datum,
    out: Seq<usize>,
    map: Seq<usize>,
) -> Result<Query, Fault> {
    match indexed(d, table, index) {
        Err(f) => Err(f),
        Ok(p) => {
            let rows = rows_with(p.0, p.1, key, p.0.slots.len());
            Ok(
                listed(
                    names_picked(p.0.def.columns, out),
                    Seq::new(
                        rows.len(),
                        |i: int|
                            Seq::new(map.len(), |j: int| entry_cell(rows[i], p.1, key, map[j])),
                    ),
                ),
            )
        },
    }
}

/// The rows with a key.
pub open spec fn looked_up(
    d: Db,
    table: Seq<char>,
    index: Seq<char>,
    key: Datum,
    out: Seq<usize>,
) -> Result<Query, Fault> {
    match indexed(d, table, index) {
        Err(f) => Err(f),
        Ok(p) => {
            let rows = rows_with(p.0, p.1, key, p.0.slots.len());
            Ok(
                listed(
                    names_picked(p.0.def.columns, out),
                    Seq::new(rows.len(), |i: int| picked(rows[i], out)),
                ),
            )
        },
    }
}

/// Whether a key lies between two bounds. NULL lies nowhere.
pub open spec fn in_range(
    d: Datum,
    low: Option<Datum>,
    low_inclusive: bool,
    high: Option<Datum>,
    high_inclusive: bool,
) -> bool {
    &&& !(d is Null)
    &&& low matches Some(l) ==> value_order(d, l) > 0 || (low_inclusive && value_order(d, l) == 0)
    &&& high matches Some(h) ==> value_order(d, h) < 0 || (high_inclusive && value_order(d, h)
        == 0)
}

/// The live rows among the first `n` whose key lies between two bounds: the
/// key, and behind it the columns that are read.
pub open spec fn rows_between(
    t: Tbl,
    x: IndexModel,
    low: Option<Datum>,
    low_inclusive: bool,
    high: Option<Datum>,
    high_inclusive: bool,
    out: Seq<usize>,
    n: nat,
) -> Seq<Seq<Datum>>
    decreases n,
{
    if n == 0 {
        Seq::empty()
    } else {
        let before = rows_between(
            t,
            x,
            low,
            low_inclusive,
            high,
            high_inclusive,
            out,
            (n - 1) as nat,
        );
        if t.slots[n - 1] is Some && x.key_columns.len() > 0 && in_range(
            cell_of(t.slots[n - 1]->0, x.key_columns[0] as int),
            low,
            low_inclusive,
            high,
            high_inclusive,
        ) {
            before.push(
                seq![cell_of(t.slots[n - 1]->0, x.key_columns[0] as int)] + picked(
                    t.slots[n - 1]->0,
                    out,
                ),
            )
        } else {
            before
        }
    }
}

/// The order of the first column.
pub open spec fn by_first() -> Seq<SortKey> {
    seq![SortKey { column_index: 0, direction: SortDirection::Asc }]
}

/// Rows without their first cells.
pub open spec fn tails(rows: Seq<Seq<Datum>>) -> Seq<Seq<Datum>> {
    Seq::new(
        rows.len(),
        |i: int|
            if rows[i].len() > 0 {
                rows[i].subrange(1, rows[i].len() as int)
            } else {
                rows[i]
            },
    )
}

/// The rows whose key lies between two bounds, in the order of the keys.
pub open spec fn ranged(
    d: Db,
    table: Seq<char>,
    index: Seq<char>,
    low: Option<Datum>,
    low_inclusive: bool,
    high: Option<Datum>,
    high_inclusive: bool,
    out: Seq<usize>,
) -> Result<Query, Fault> {
    match indexed(d, table, index) {
        Err(f) => Err(f),
        Ok(p) => {
            let rows = rows_between(
                p.0,
                p.1,
                low,
                low_inclusive,
                high,
                high_inclusive,
                out,
                p.0.slots.len(),
            );
            let keys = by_first();
            Ok(
                listed(
                    names_picked(p.0.def.columns, out),
                    tails(
                        sorted_rows(
                            rows,
                            |a: Seq<Datum>, b: Seq<Datum>| row_order(a, b, keys, 0),
                        ),
                    ),
                ),
            )
        },
    }
}

/// The row with a primary key; no columns stand for all.
pub open spec fn found_key(d: Db, table: Seq<char>, key: Datum, out: Seq<usize>) -> Result<
    Query,
    Fault,
> {
    match table_of(d, table) {
        None => Err(Fault::TableNotFound(table)),
        Some(t) => {
            let names = if out.len() == 0 {
                column_names(t.def.columns)
            } else {
                names_picked(t.def.columns, out)
            };
            let rows = match keyed(t, key) {
                None => Seq::empty(),
                Some(i) => if 0 <= i < t.slots.len() && t.slots[i] is Some {
                    seq![
                        if out.len() == 0 {
                            t.slots[i]->0
                        } else {
                            picked(t.slots[i]->0, out)
                        },
                    ]
                } else {
                    Seq::empty()
                },
            };
            Ok(listed(names, rows))
        },
    }
}

/// A row near a vector, and its distance.
#[derive(Debug, Clone, Copy)]
pub struct Neighbor {
    pub id: u32,
    pub distance: F32,
}

impl DeepView for Neighbor {
    type V = (u32, u32);

    open spec fn deep_view(&self) -> (u32, u32) {
        (self.id, self.distance.bits)
    }
}

/// What is shown of a near row: the first cell of the row, or its number, and
/// the distance.
pub open spec fn neighbor_row(t: Tbl, n: (u32, u32)) -> Seq<Datum> {
    let first = if n.0 < t.slots.len() && t.slots[n.0 as int] is Some && t.slots[n.0 as int]->0.len()
        > 0 {
        t.slots[n.0 as int]->0[0]
    } else {
        Datum::Int32(n.0 as i32)
    };
    seq![first, Datum::Float64(widen32(n.1))]
}

/// The rows near a vector.
pub open spec fn searched(d: Db, table: Seq<char>, index: Seq<char>, near: Seq<(u32, u32)>) -> Result<
    Query,
    Fault,
> {
    if !has_search(d, table, index) {
        Err(Fault::IndexNotFound(index))
    } else {
        match table_of(d, table) {
            None => Err(Fault::TableNotFound(table)),
            Some(t) => Ok(
                listed(
                    seq!["row_id"@, "distance"@],
                    Seq::new(near.len(), |i: int| neighbor_row(t, near[i])),
                ),
            ),
        }
    }
}

/// Finds a table and one of its indexes.
fn find_indexed<'a>(db: &'a Database, table_name: &str, index_name: &str) -> (r: Result<
    (&'a Table, &'a IndexDef),
    EngramDbError,
>)
    requires
        db.wf(),
    ensures
        match (r, indexed(db.deep_view(), table_name@, index_name@)) {
            (Ok(p), Ok(m)) => p.0.wf() && p.0.deep_view() == m.0 && p.1.deep_view() == m.1,
            (Err(e), Err(f)) => e.deep_view() == f,
            _ => false,
        },
{
    match db.get_table(table_name) {
        None => Err(EngramDbError::TableNotFound(table_name.to_owned())),
        Some(t) => match find_index(&t.def.indexes, index_name) {
            None => Err(
                EngramDbError::Parse(
                    join3("Index '", index_name, "' not found during execution"),
                ),
            ),
            Some(k) => Ok((t, &t.def.indexes[k])),
        },
    }
}

/// The live rows whose key in an index is the given one.
fn collect_with(t: &Table, x: &IndexDef, key: &Value) -> (r: Vec<Vec<Value>>)
    ensures
        r.deep_view() == rows_with(
            t.deep_view(),
            x.deep_view(),
            key.deep_view(),
            t.deep_view().slots.len(),
        ),
{
    let ghost m = t.deep_view();
    let mut out: Vec<Vec<Value>> = Vec::new();
    assert(out.deep_view() =~= Seq::empty());
    let mut i: usize = 0;
    while i < t.rows.len()
        invariant
            m == t.deep_view(),
            i <= t.rows.len(),
            out.deep_view() == rows_with(m, x.deep_view(), key.deep_view(), i as nat),
        decreases t.rows.len() - i,
    {
        assert(m.slots[i as int] == t.rows[i as int].deep_view());
        if let Some(row) = &t.rows[i] {
            if x.key_columns.len() > 0 {
                let v = read_cell(row, x.key_columns[0]);
                if same_value(&v, key) {
                    let copy = clone_row(row);
                    let ghost before = out.deep_view();
                    out.push(copy);
                    assert(out.deep_view() =~= before.push(copy.deep_view()));
                }
            }
        }
        i += 1;
    }
    out
}

/// Reads the rows with a key off an index.
pub fn index_only_scan(
    db: &Database,
    table_name: &str,
    index_name: &str,
    key_value: &Value,
    output_column_indices: &Vec<usize>,
    output_col_map: &Vec<usize>,
) -> (r: Result<QueryResult, EngramDbError>)
    requires
        db.wf(),
    ensures
        gives_query(
            r,
            covered(
                db.deep_view(),
                table_name@,
                index_name@,
                key_value.deep_view(),
                output_column_indices@,
                output_col_map@,
            ),
        ),
{
    let (t, x) = match find_indexed(db, table_name, index_name) {
        Err(e) => {
            return Err(e);
        },
        Ok(p) => p,
    };
    let ghost d = key_value.deep_view();
    let ghost im = x.deep_view();
    let rows = collect_with(t, x, key_value);
    let ghost all = rows.deep_view();
    let ghost m = Seq::new(
        all.len(),
        |i: int|
            Seq::new(output_col_map@.len(), |j: int| entry_cell(all[i], im, d, output_col_map@[j])),
    );
    let mut out: Vec<Vec<Value>> = Vec::new();
    let mut i: usize = 0;
    while i < rows.len()
        invariant
            all == rows.deep_view(),
            d == key_value.deep_view(),
            im == x.deep_view(),
            m == Seq::new(
                all.len(),
                |i: int|
                    Seq::new(
                        output_col_map@.len(),
                        |j: int| entry_cell(all[i], im, d, output_col_map@[j]),
                    ),
            ),
            i <= rows.len(),
            out.deep_view() == m.subrange(0, i as int),
        decreases rows.len() - i,
    {
        assert(all[i as int] == rows[i as int].deep_view());
        let mut row: Vec<Value> = Vec::new();
        let mut j: usize = 0;
        while j < output_col_map.len()
            invariant
                i < rows.len(),
                i < m.len(),
                d == key_value.deep_view(),
                im == x.deep_view(),
                all[i as int] == rows[i as int].deep_view(),
                m[i as int] == Seq::new(
                    output_col_map@.len(),
                    |j: int| entry_cell(all[i as int], im, d, output_col_map@[j]),
                ),
                j <= output_col_map.len(),
                row.deep_view() == m[i as int].subrange(0, j as int),
            decreases output_col_map.len() - j,
        {
            let at: usize = output_col_map[j];
            let v = if at == 0 {
                key_value.clone()
            } else if at - 1 < x.included_columns.len() {
                read_cell(&rows[i], x.included_columns[at - 1])
            } else {
                Value::Null
            };
            let ghost before = row.deep_view();
            row.push(v);
            assert(row.deep_view() =~= before.push(v.deep_view()));
            j += 1;
            assert(row.deep_view() =~= m[i as int].subrange(0, j as int));
        }
        assert(row.deep_view() =~= m[i as int]);
        let ghost before = out.deep_view();
        out.push(row);
        assert(out.deep_view() =~= before.push(row.deep_view()));
        i += 1;
        assert(out.deep_view() =~= m.subrange(0, i as int));
    }
    assert(out.deep_view() =~= m);
    Ok(
        QueryResult {
            columns: pick_names(&t.def.columns, output_column_indices),
            rows: out,
            rows_affected: 0,
        },
    )
}

/// Reads the rows with a key through an index.
pub fn index_scan(
    db: &Database,
    table_name: &str,
    index_name: &str,
    key_value: &Value,
    output_column_indices: &Vec<usize>,
) -> (r: Result<QueryResult, EngramDbError>)
    requires
        db.wf(),
    ensures
        gives_query(
            r,
            looked_up(
                db.deep_view(),
                table_name@,
                index_name@,
                key_value.deep_view(),
                output_column_indices@,
            ),
        ),
{
    match find_indexed(db, table_name, index_name) {
        Err(e) => Err(e),
        Ok(p) => {
            let rows = collect_with(p.0, p.1, key_value);
            Ok(
                QueryResult {
                    columns: pick_names(&p.0.def.columns, output_column_indices),
                    rows: pick_rows(&rows, output_column_indices),
                    rows_affected: 0,
                },
            )
        },
    }
}

/// The model of an optional value.
pub open spec fn opt_value(v: Option<Value>) -> Option<Datum> {
    match v {
        Some(x) => Some(x.deep_view()),
        None => None,
    }
}

/// Whether a key lies between two bounds.
fn within(v: &Value, low: &Option<Value>, low_inclusive: bool, high: &Option<Value>, high_inclusive: bool)
    -> (r: bool)
    ensures
        r == in_range(
            v.deep_view(),
            opt_value(*low),
            low_inclusive,
            opt_value(*high),
            high_inclusive,
        ),
{
    if v.is_null() {
        return false;
    }
    if let Some(l) = low {
        let o: i8 = order_values(v, l);
        if !(o > 0 || (low_inclusive && o == 0)) {
            return false;
        }
    }
    if let Some(h) = high {
        let o: i8 = order_values(v, h);
        if !(o < 0 || (high_inclusive && o == 0)) {
            return false;
        }
    }
    true
}

/// Rows without their first cells.
fn drop_first_cells(rows: &Vec<Vec<Value>>) -> (r: Vec<Vec<Value>>)
    ensures
        r.deep_view() == tails(rows.deep_view()),
{
    let ghost all = rows.deep_view();
    let ghost m = tails(all);
    let mut out: Vec<Vec<Value>> = Vec::new();
    let mut i: usize = 0;
    while i < rows.len()
        invariant
            all == rows.deep_view(),
            m == tails(all),
            i <= rows.len(),
            out.deep_view() == m.subrange(0, i as int),
        decreases rows.len() - i,
    {
        assert(all[i as int] == rows[i as int].deep_view());
        let mut row = clone_row(&rows[i]);
        let ghost was = row.deep_view();
        if row.len() > 0 {
            let first = row.remove(0);
            assert(row.deep_view() =~= was.subrange(1, was.len() as int));
        }
        let ghost before = out.deep_view();
        out.push(row);
        assert(out.deep_view() =~= before.push(row.deep_view()));
        i += 1;
        assert(out.deep_view() =~= m.subrange(0, i as int));
    }
    assert(out.deep_view() =~= m);
    out
}

/// The live rows whose key lies between two bounds.
fn collect_between(
    t: &Table,
    x: &IndexDef,
    low: &Option<Value>,
    low_inclusive: bool,
    high: &Option<Value>,
    high_inclusive: bool,
    at: &Vec<usize>,
) -> (r: Vec<Vec<Value>>)
    ensures
        r.deep_view() == rows_between(
            t.deep_view(),
            x.deep_view(),
            opt_value(*low),
            low_inclusive,
            opt_value(*high),
            high_inclusive,
            at@,
            t.deep_view().slots.len(),
        ),
{
    let ghost m = t.deep_view();
    let ghost (l, h) = (opt_value(*low), opt_value(*high));
    let mut out: Vec<Vec<Value>> = Vec::new();
    assert(out.deep_view() =~= Seq::empty());
    let mut i: usize = 0;
    while i < t.rows.len()
        invariant
            m == t.deep_view(),
            l == opt_value(*low),
            h == opt_value(*high),
            i <= t.rows.len(),
            out.deep_view() == rows_between(
                m,
                x.deep_view(),
                l,
                low_inclusive,
                h,
                high_inclusive,
                at@,
                i as nat,
            ),
        decreases t.rows.len() - i,
    {
        assert(m.slots[i as int] == t.rows[i as int].deep_view());
        if let Some(row) = &t.rows[i] {
            if x.key_columns.len() > 0 {
                let v = read_cell(row, x.key_columns[0]);
                if within(&v, low, low_inclusive, high, high_inclusive) {
                    let ghost d = v.deep_view();
                    let mut line: Vec<Value> = Vec::new();
                    line.push(v);
                    assert(line.deep_view() =~= seq![d]);
                    let mut more = pick_cells(row, at);
                    let ghost (a, b) = (line@, more@);
                    let ghost (u, w) = (line.deep_view(), more.deep_view());
                    line.append(&mut more);
                    assert(line@ == a + b);
                    assert(line.deep_view() =~= u + w);
                    let ghost before = out.deep_view();
                    out.push(line);
                    assert(out.deep_view() =~= before.push(u + w));
                }
            }
        }
        i += 1;
    }
    out
}

/// Reads the rows whose key lies between two bounds through an index.
pub fn index_range_scan(
    db: &Database,
    table_name: &str,
    index_name: &str,
    low: &Option<Value>,
    low_inclusive: bool,
    high: &Option<Value>,
    high_inclusive: bool,
    output_column_indices: &Vec<usize>,
) -> (r: Result<QueryResult, EngramDbError>)
    requires
        db.wf(),
    ensures
        gives_query(
            r,
            ranged(
                db.deep_view(),
                table_name@,
                index_name@,
                opt_value(*low),
                low_inclusive,
                opt_value(*high),
                high_inclusive,
                output_column_indices@,
            ),
        ),
{
    match find_indexed(db, table_name, index_name) {
        Err(e) => Err(e),
        Ok(p) => {
            let rows = collect_between(
                p.0,
                p.1,
                low,
                low_inclusive,
                high,
                high_inclusive,
                output_column_indices,
            );
            let mut keys: Vec<SortKey> = Vec::new();
            keys.push(SortKey { column_index: 0, direction: SortDirection::Asc });
            assert(keys@ =~= by_first());
            let sorted = sort_keyed(&rows, &keys);
            Ok(
                QueryResult {
                    columns: pick_names(&p.0.def.columns, output_column_indices),
                    rows: drop_first_cells(&sorted),
                    rows_affected: 0,
                },
            )
        },
    }
}

/// Reads the row with a primary key.
pub fn primary_key_lookup(
    db: &Database,
    table_name: &str,
    pk_value: &Value,
    output_column_indices: &Vec<usize>,
) -> (r: Result<QueryResult, EngramDbError>)
    requires
        db.wf(),
    ensures
        gives_query(
            r,
            found_key(
                db.deep_view(),
                table_name@,
                pk_value.deep_view(),
                output_column_indices@,
            ),
        ),
{
    let t = match db.get_table(table_name) {
        None => {
            return Err(EngramDbError::TableNotFound(table_name.to_owned()));
        },
        Some(t) => t,
    };
    let columns = if output_column_indices.len() == 0 {
        names_of(&t.def.columns)
    } else {
        pick_names(&t.def.columns, output_column_indices)
    };
    let mut rows: Vec<Vec<Value>> = Vec::new();
    assert(rows.deep_view() =~= Seq::empty());
    if let Some(id) = t.lookup_primary_key(pk_value) {
        if id < t.rows.len() as u64 {
            let i: usize = id as usize;
            assert(t.deep_view().slots[i as int] == t.rows[i as int].deep_view());
            if let Some(row) = &t.rows[i] {
                let out = if output_column_indices.len() == 0 {
                    clone_row(row)
                } else {
                    pick_cells(row, output_column_indices)
                };
                let ghost m = out.deep_view();
                rows.push(out);
                assert(rows.deep_view() =~= seq![m]);
            }
        }
    }
    Ok(QueryResult { columns, rows, rows_affected: 0 })
}

/// Shows the rows near a vector.
pub fn vector_search(
    db: &Database,
    table_name: &str,
    index_name: &str,
    neighbors: &Vec<Neighbor>,
) -> (r: Result<QueryResult, EngramDbError>)
    requires
        db.wf(),
    ensures
        gives_query(
            r,
            searched(db.deep_view(), table_name@, index_name@, neighbors.deep_view()),
        ),
{
    if !db.has_vector_index(table_name, index_name) {
        return Err(EngramDbError::IndexNotFound(index_name.to_owned()));
    }
    let t = match db.get_table(table_name) {
        None => {
            return Err(EngramDbError::TableNotFound(table_name.to_owned()));
        },
        Some(t) => t,
    };
    let ghost near = neighbors.deep_view();
    let ghost tm = t.deep_view();
    let ghost m = Seq::new(near.len(), |i: int| neighbor_row(tm, near[i]));
    let mut rows: Vec<Vec<Value>> = Vec::new();
    let mut i: usize = 0;
    while i < neighbors.len()
        invariant
            near == neighbors.deep_view(),
            tm == t.deep_view(),
            m == Seq::new(near.len(), |i: int| neighbor_row(tm, near[i])),
            i <= neighbors.len(),
            rows.deep_view() == m.subrange(0, i as int),
        decreases neighbors.len() - i,
    {
        let n = neighbors[i];
        assert(near[i as int] == n.deep_view());
        let mut first = Value::Int32(n.id as i32);
        if (n.id as usize) < t.rows.len() {
            assert(tm.slots[n.id as int] == t.rows[n.id as int].deep_view());
            if let Some(row) = &t.rows[n.id as usize] {
                if row.len() > 0 {
                    assert(row.deep_view()[0] == row[0].deep_view());
                    first = row[0].clone();
                }
            }
        }
        let row = vec![first, Value::Float64(f32_widen(n.distance))];
        assert(row.deep_view() =~= m[i as int]);
        let ghost before = rows.deep_view();
        rows.push(row);
        assert(rows.deep_view() =~= before.push(row.deep_view()));
        i += 1;
        assert(rows.deep_view() =~= m.subrange(0, i as int));
    }
    assert(rows.deep_view() =~= m);
    let columns = vec!["row_id".to_owned(), "distance".to_owned()];
    assert(columns.deep_view() =~= seq!["row_id"@, "distance"@]);
    Ok(QueryResult { columns, rows, rows_affected: 0 })
}

} // verus!
