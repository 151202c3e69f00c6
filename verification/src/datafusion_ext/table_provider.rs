//! The rows of a table as Arrow columns.
use vstd::prelude::*;

use crate::common::error::{EngramDbError, Fault};
use crate::common::types::DataType;
use crate::datafusion_ext::arrays::{
    array_cells, array_kind, cells_of, kind_of, texts_fit, to_array, ArrowArray, ArrowColumn,
};
use crate::datafusion_ext::types::{
    columns_to_schema, columns_view, make_field, schema_of, ArrowField, ArrowType,
};
use crate::executor::operators::hash_join::{cell_of, read_cell};
use crate::float::{i64_widen, int_to_f64, F64};
use crate::storage::table::{all_columns, live, picked_rows, Table, Tbl};
use crate::text::{dec, join2, join3, usize_text};
use crate::value::Datum;
use crate::Value;

verus! {

/// The columns and the rows of a table.
#[derive(Debug)]
pub struct TableRef {
    pub name: String,
    pub columns: Vec<(String, DataType, bool)>,
    pub rows: Vec<Vec<Value>>,
}

/// A table as a query engine reads it.
#[derive(Debug)]
pub struct HybridDBTable {
    pub table_name: String,
    pub schema: Vec<ArrowField>,
    pub table: TableRef,
}

/// The model of a [`HybridDBTable`].
#[verifier::ext_equal]
pub struct Provider {
    pub name: Seq<char>,
    pub schema: Seq<(Seq<char>, ArrowType, bool)>,
    pub inner: Seq<char>,
    pub columns: Seq<(Seq<char>, DataType, bool)>,
    pub rows: Seq<Seq<Datum>>,
}

/// The model of a table whose schema is that of its columns.
pub open spec fn provider(
    name: Seq<char>,
    columns: Seq<(Seq<char>, DataType, bool)>,
    rows: Seq<Seq<Datum>>,
) -> Provider {
    Provider { name, schema: schema_of(columns), inner: name, columns, rows }
}

impl DeepView for HybridDBTable {
    type V = Provider;

    open spec fn deep_view(&self) -> Provider {
        Provider {
            name: self.table_name@,
            schema: self.schema.deep_view(),
            inner: self.table.name@,
            columns: columns_view(self.table.columns@),
            rows: self.table.rows.deep_view(),
        }
    }
}

/// The Arrow type and the values of a column.
pub open spec fn column_model(c: ArrowColumn) -> (ArrowType, Seq<Datum>) {
    (kind_of(c), cells_of(c))
}

/// The Arrow type and the values of an array.
pub open spec fn array_model(a: ArrowArray) -> (ArrowType, Seq<Datum>) {
    (array_kind(a), array_cells(a))
}

/// The types whose values can be handed out.
pub open spec fn handed_as(t: DataType) -> Option<ArrowType> {
    match t {
        DataType::Boolean => Some(ArrowType::Boolean),
        DataType::Int32 => Some(ArrowType::Int32),
        DataType::Int64 => Some(ArrowType::Int64),
        DataType::Float64 => Some(ArrowType::Float64),
        DataType::Varchar => Some(ArrowType::Utf8),
        _ => None,
    }
}

/// A value as one of an Arrow type: integers fit every number, and NULL fits
/// everything.
pub open spec fn fitted(t: ArrowType, d: Datum) -> Option<Datum> {
    match (t, d) {
        (_, Datum::Null) => Some(Datum::Null),
        (ArrowType::Boolean, Datum::Boolean(b)) => Some(Datum::Boolean(b)),
        (ArrowType::Int32, Datum::Int32(x)) => Some(Datum::Int32(x)),
        (ArrowType::Int32, Datum::Int64(x)) => Some(Datum::Int32(x as i32)),
        (ArrowType::Int64, Datum::Int64(x)) => Some(Datum::Int64(x)),
        (ArrowType::Int64, Datum::Int32(x)) => Some(Datum::Int64(x as i64)),
        (ArrowType::Float64, Datum::Float64(b)) => Some(Datum::Float64(b)),
        (ArrowType::Float64, Datum::Int64(x)) => Some(Datum::Float64(int_to_f64(x as int))),
        (ArrowType::Float64, Datum::Int32(x)) => Some(Datum::Float64(int_to_f64(x as int))),
        (ArrowType::Utf8, Datum::Varchar(s)) => Some(Datum::Varchar(s)),
        _ => None,
    }
}

/// The name of a type in an error.
pub open spec fn expected_name(t: ArrowType) -> Seq<char> {
    match t {
        ArrowType::Boolean => "Boolean"@,
        ArrowType::Int32 => "Int32"@,
        ArrowType::Int64 => "Int64"@,
        ArrowType::Float64 => "Float64"@,
        _ => "Varchar"@,
    }
}

/// The error of a value of another type.
pub open spec fn mismatch(t: ArrowType, col: nat) -> Fault {
    Fault::Internal("Type mismatch: expected "@ + expected_name(t) + " at column "@ + dec(col))
}

/// The error of a column whose values cannot be handed out.
pub open spec fn no_array(col: nat) -> Fault {
    Fault::NotSupported("no Arrow array for column "@ + dec(col))
}

/// The values of a column in the first `n` rows, as ones of an Arrow type.
pub open spec fn fitted_cells(t: ArrowType, rows: Seq<Seq<Datum>>, col: int, n: nat) -> Option<
    Seq<Datum>,
>
    decreases n,
{
    if n == 0 {
        Some(Seq::empty())
    } else {
        match (fitted_cells(t, rows, col, (n - 1) as nat), fitted(t, cell_of(rows[n - 1], col))) {
            (Some(done), Some(d)) => Some(done.push(d)),
            _ => None,
        }
    }
}

/// A column of rows, or the error of a value of another type.
pub open spec fn arrayed(t: DataType, rows: Seq<Seq<Datum>>, col: nat) -> Result<
    (ArrowType, Seq<Datum>),
    Fault,
> {
    match handed_as(t) {
        None => Err(no_array(col)),
        Some(a) => match fitted_cells(a, rows, col as int, rows.len()) {
            Some(cells) => Ok((a, cells)),
            None => Err(mismatch(a, col)),
        },
    }
}

/// The first `n` of some columns of a table, or the first error.
pub open spec fn arrays(p: Provider, at: Seq<usize>, n: nat) -> Result<
    Seq<(ArrowType, Seq<Datum>)>,
    Fault,
>
    decreases n,
{
    if n == 0 {
        Ok(Seq::empty())
    } else {
        match arrays(p, at, (n - 1) as nat) {
            Err(f) => Err(f),
            Ok(done) => match arrayed(
                p.columns[at[n - 1] as int].1,
                p.rows,
                at[n - 1] as nat,
            ) {
                Err(f) => Err(f),
                Ok(c) => Ok(done.push(c)),
            },
        }
    }
}

/// What a table hands out of its definition and its rows.
pub open spec fn provided(t: Tbl) -> Provider {
    provider(
        t.def.name,
        Seq::new(
            t.def.columns.len(),
            |i: int|
                (
                    t.def.columns[i].name,
                    t.def.columns[i].data_type,
                    t.def.columns[i].nullable,
                ),
        ),
        picked_rows(
            live(t.slots, t.slots.len()),
            Seq::new(t.def.columns.len(), |i: int| i as usize),
        ),
    )
}

/// A value that does not fit leaves no column.
proof fn lemma_fitted_fails(t: ArrowType, rows: Seq<Seq<Datum>>, col: int, k: nat, n: nat)
    requires
        k <= n,
        fitted_cells(t, rows, col, k) is None,
    ensures
        fitted_cells(t, rows, col, n) is None,
    decreases n - k,
{
    if k < n {
        lemma_fitted_fails(t, rows, col, k, (n - 1) as nat);
    }
}

/// The error of a value of another type.
fn mismatch_error(name: &str, col: usize) -> (r: EngramDbError)
    ensures
        r.deep_view() == Fault::Internal(
            "Type mismatch: expected "@ + name@ + " at column "@ + dec(col as nat),
        ),
{
    let n = usize_text(col);
    let head = join3("Type mismatch: expected ", name, " at column ");
    EngramDbError::Internal(join2(head.as_str(), n.as_str()))
}

/// Whether a column, or the error, is what the model says.
pub open spec fn gives_column(
    r: Result<ArrowColumn, EngramDbError>,
    m: Result<(ArrowType, Seq<Datum>), Fault>,
) -> bool {
    match (r, m) {
        (Ok(c), Ok(x)) => column_model(c) == x,
        (Err(e), Err(f)) => e.deep_view() == f,
        _ => false,
    }
}

/// A column of rows as one of type Boolean.
fn boolean_column(rows: &Vec<Vec<Value>>, col: usize) -> (r: Result<ArrowColumn, EngramDbError>)
    ensures
        gives_column(
            r,
            match fitted_cells(
                ArrowType::Boolean,
                rows.deep_view(),
                col as int,
                rows.deep_view().len(),
            ) {
                Some(cells) => Ok((ArrowType::Boolean, cells)),
                None => Err(mismatch(ArrowType::Boolean, col as nat)),
            },
        ),
{
    let ghost all = rows.deep_view();
    let mut out: Vec<Option<bool>> = Vec::new();
    let mut i: usize = 0;
    assert(cells_of(ArrowColumn::Boolean(out)) =~= Seq::empty());
    while i < rows.len()
        invariant
            all == rows.deep_view(),
            i <= rows.len(),
            fitted_cells(ArrowType::Boolean, all, col as int, i as nat) == Some(
                cells_of(ArrowColumn::Boolean(out)),
            ),
        decreases rows.len() - i,
    {
        assert(all[i as int] == rows[i as int].deep_view());
        let v = read_cell(&rows[i], col);
        let ghost d = v.deep_view();
        let cell: Option<bool> = if v.is_null() {
            None
        } else {
            match v {
                Value::Boolean(b) => Some(b),
                _ => {
                    proof {
                        lemma_fitted_fails(
                            ArrowType::Boolean,
                            all,
                            col as int,
                            (i + 1) as nat,
                            all.len(),
                        );
                    }
                    return Err(mismatch_error("Boolean", col));
                },
            }
        };
        let ghost before = cells_of(ArrowColumn::Boolean(out));
        let ghost shown = fitted(ArrowType::Boolean, d)->0;
        out.push(cell);
        assert(cells_of(ArrowColumn::Boolean(out)) =~= before.push(shown));
        i += 1;
    }
    Ok(ArrowColumn::Boolean(out))
}

/// A column of rows as one of type Int32.
fn int32_column(rows: &Vec<Vec<Value>>, col: usize) -> (r: Result<ArrowColumn, EngramDbError>)
    ensures
        gives_column(
            r,
            match fitted_cells(
                ArrowType::Int32,
                rows.deep_view(),
                col as int,
                rows.deep_view().len(),
            ) {
                Some(cells) => Ok((ArrowType::Int32, cells)),
                None => Err(mismatch(ArrowType::Int32, col as nat)),
            },
        ),
{
    let ghost all = rows.deep_view();
    let mut out: Vec<Option<i32>> = Vec::new();
    let mut i: usize = 0;
    assert(cells_of(ArrowColumn::Int32(out)) =~= Seq::empty());
    while i < rows.len()
        invariant
            all == rows.deep_view(),
            i <= rows.len(),
            fitted_cells(ArrowType::Int32, all, col as int, i as nat) == Some(
                cells_of(ArrowColumn::Int32(out)),
            ),
        decreases rows.len() - i,
    {
        assert(all[i as int] == rows[i as int].deep_view());
        let v = read_cell(&rows[i], col);
        let ghost d = v.deep_view();
        let cell: Option<i32> = if v.is_null() {
            None
        } else {
            match v {
                Value::Int32(x) => Some(x),
                Value::Int64(x) => Some(x as i32),
                _ => {
                    proof {
                        lemma_fitted_fails(
                            ArrowType::Int32,
                            all,
                            col as int,
                            (i + 1) as nat,
                            all.len(),
                        );
                    }
                    return Err(mismatch_error("Int32", col));
                },
            }
        };
        let ghost before = cells_of(ArrowColumn::Int32(out));
        let ghost shown = fitted(ArrowType::Int32, d)->0;
        out.push(cell);
        assert(cells_of(ArrowColumn::Int32(out)) =~= before.push(shown));
        i += 1;
    }
    Ok(ArrowColumn::Int32(out))
}

/// A column of rows as one of type Int64.
fn int64_column(rows: &Vec<Vec<Value>>, col: usize) -> (r: Result<ArrowColumn, EngramDbError>)
    ensures
        gives_column(
            r,
            match fitted_cells(
                ArrowType::Int64,
                rows.deep_view(),
                col as int,
                rows.deep_view().len(),
            ) {
                Some(cells) => Ok((ArrowType::Int64, cells)),
                None => Err(mismatch(ArrowType::Int64, col as nat)),
            },
        ),
{
    let ghost all = rows.deep_view();
    let mut out: Vec<Option<i64>> = Vec::new();
    let mut i: usize = 0;
    assert(cells_of(ArrowColumn::Int64(out)) =~= Seq::empty());
    while i < rows.len()
        invariant
            all == rows.deep_view(),
            i <= rows.len(),
            fitted_cells(ArrowType::Int64, all, col as int, i as nat) == Some(
                cells_of(ArrowColumn::Int64(out)),
            ),
        decreases rows.len() - i,
    {
        assert(all[i as int] == rows[i as int].deep_view());
        let v = read_cell(&rows[i], col);
        let ghost d = v.deep_view();
        let cell: Option<i64> = if v.is_null() {
            None
        } else {
            match v {
                Value::Int64(x) => Some(x),
                Value::Int32(x) => Some(x as i64),
                _ => {
                    proof {
                        lemma_fitted_fails(
                            ArrowType::Int64,
                            all,
                            col as int,
                            (i + 1) as nat,
                            all.len(),
                        );
                    }
                    return Err(mismatch_error("Int64", col));
                },
            }
        };
        let ghost before = cells_of(ArrowColumn::Int64(out));
        let ghost shown = fitted(ArrowType::Int64, d)->0;
        out.push(cell);
        assert(cells_of(ArrowColumn::Int64(out)) =~= before.push(shown));
        i += 1;
    }
    Ok(ArrowColumn::Int64(out))
}

/// A column of rows as one of type Float64.
fn float64_column(rows: &Vec<Vec<Value>>, col: usize) -> (r: Result<ArrowColumn, EngramDbError>)
    ensures
        gives_column(
            r,
            match fitted_cells(
                ArrowType::Float64,
                rows.deep_view(),
                col as int,
                rows.deep_view().len(),
            ) {
                Some(cells) => Ok((ArrowType::Float64, cells)),
                None => Err(mismatch(ArrowType::Float64, col as nat)),
            },
        ),
{
    let ghost all = rows.deep_view();
    let mut out: Vec<Option<F64>> = Vec::new();
    let mut i: usize = 0;
    assert(cells_of(ArrowColumn::Float64(out)) =~= Seq::empty());
    while i < rows.len()
        invariant
            all == rows.deep_view(),
            i <= rows.len(),
            fitted_cells(ArrowType::Float64, all, col as int, i as nat) == Some(
                cells_of(ArrowColumn::Float64(out)),
            ),
        decreases rows.len() - i,
    {
        assert(all[i as int] == rows[i as int].deep_view());
        let v = read_cell(&rows[i], col);
        let ghost d = v.deep_view();
        let cell: Option<F64> = if v.is_null() {
            None
        } else {
            match v {
                Value::Float64(x) => Some(x),
                Value::Int64(x) => Some(i64_widen(x)),
                Value::Int32(x) => Some(i64_widen(x as i64)),
                _ => {
                    proof {
                        lemma_fitted_fails(
                            ArrowType::Float64,
                            all,
                            col as int,
                            (i + 1) as nat,
                            all.len(),
                        );
                    }
                    return Err(mismatch_error("Float64", col));
                },
            }
        };
        let ghost before = cells_of(ArrowColumn::Float64(out));
        let ghost shown = fitted(ArrowType::Float64, d)->0;
        out.push(cell);
        assert(cells_of(ArrowColumn::Float64(out)) =~= before.push(shown));
        i += 1;
    }
    Ok(ArrowColumn::Float64(out))
}

/// A column of rows as one of type Varchar.
fn utf8_column(rows: &Vec<Vec<Value>>, col: usize) -> (r: Result<ArrowColumn, EngramDbError>)
    ensures
        gives_column(
            r,
            match fitted_cells(
                ArrowType::Utf8,
                rows.deep_view(),
                col as int,
                rows.deep_view().len(),
            ) {
                Some(cells) => Ok((ArrowType::Utf8, cells)),
                None => Err(mismatch(ArrowType::Utf8, col as nat)),
            },
        ),
{
    let ghost all = rows.deep_view();
    let mut out: Vec<Option<String>> = Vec::new();
    let mut i: usize = 0;
    assert(cells_of(ArrowColumn::Utf8(out)) =~= Seq::empty());
    while i < rows.len()
        invariant
            all == rows.deep_view(),
            i <= rows.len(),
            fitted_cells(ArrowType::Utf8, all, col as int, i as nat) == Some(
                cells_of(ArrowColumn::Utf8(out)),
            ),
        decreases rows.len() - i,
    {
        assert(all[i as int] == rows[i as int].deep_view());
        let v = read_cell(&rows[i], col);
        let ghost d = v.deep_view();
        let cell: Option<String> = if v.is_null() {
            None
        } else {
            match v {
                Value::Varchar(s) => Some(s),
                _ => {
                    proof {
                        lemma_fitted_fails(
                            ArrowType::Utf8,
                            all,
                            col as int,
                            (i + 1) as nat,
                            all.len(),
                        );
                    }
                    return Err(mismatch_error("Varchar", col));
                },
            }
        };
        let ghost before = cells_of(ArrowColumn::Utf8(out));
        let ghost shown = fitted(ArrowType::Utf8, d)->0;
        out.push(cell);
        assert(cells_of(ArrowColumn::Utf8(out)) =~= before.push(shown));
        i += 1;
    }
    Ok(ArrowColumn::Utf8(out))
}

/// A column of rows as values of its type.
pub fn values_to_column(dt: &DataType, rows: &Vec<Vec<Value>>, col_idx: usize) -> (r: Result<
    ArrowColumn,
    EngramDbError,
>)
    ensures
        gives_column(r, arrayed(*dt, rows.deep_view(), col_idx as nat)),
{
    match dt {
        DataType::Boolean => boolean_column(rows, col_idx),
        DataType::Int32 => int32_column(rows, col_idx),
        DataType::Int64 => int64_column(rows, col_idx),
        DataType::Float64 => float64_column(rows, col_idx),
        DataType::Varchar => utf8_column(rows, col_idx),
        _ => {
            let n = usize_text(col_idx);
            Err(EngramDbError::NotSupported(join2("no Arrow array for column ", n.as_str())))
        },
    }
}

/// Whether an array, or the error, is what the model says.
pub open spec fn gives_array(
    r: Result<ArrowArray, EngramDbError>,
    m: Result<(ArrowType, Seq<Datum>), Fault>,
) -> bool {
    match (r, m) {
        (Ok(a), Ok(x)) => array_model(a) == x,
        (Err(e), Err(f)) => e.deep_view() == f,
        _ => false,
    }
}

/// Whether the texts of a column, where there are any, fit in one array.
pub open spec fn column_fits(t: DataType, rows: Seq<Seq<Datum>>, col: nat) -> bool {
    match arrayed(t, rows, col) {
        Ok((ArrowType::Utf8, cells)) => texts_fit(cells),
        _ => true,
    }
}

/// A column of rows as an array of its type.
pub fn values_to_array(dt: &DataType, rows: &Vec<Vec<Value>>, col_idx: usize) -> (r: Result<
    ArrowArray,
    EngramDbError,
>)
    requires
        column_fits(*dt, rows.deep_view(), col_idx as nat),
    ensures
        gives_array(r, arrayed(*dt, rows.deep_view(), col_idx as nat)),
{
    match values_to_column(dt, rows, col_idx) {
        Ok(c) => Ok(to_array(c)),
        Err(e) => Err(e),
    }
}

/// Whether arrays, or the error, are what the model says.
pub open spec fn gives_arrays(
    r: Result<Vec<ArrowArray>, EngramDbError>,
    m: Result<Seq<(ArrowType, Seq<Datum>)>, Fault>,
) -> bool {
    match (r, m) {
        (Ok(v), Ok(x)) => Seq::new(v@.len(), |i: int| array_model(v@[i])) == x,
        (Err(e), Err(f)) => e.deep_view() == f,
        _ => false,
    }
}

/// An error among the first columns is the error of all.
proof fn lemma_arrays_fail(p: Provider, at: Seq<usize>, k: nat, n: nat)
    requires
        k <= n,
        arrays(p, at, k) is Err,
    ensures
        arrays(p, at, n) == arrays(p, at, k),
    decreases n - k,
{
    if k < n {
        lemma_arrays_fail(p, at, k, (n - 1) as nat);
    }
}

impl HybridDBTable {
    /// Whether the schema is that of the columns.
    pub open spec fn wf(&self) -> bool {
        &&& self.schema.deep_view() == schema_of(columns_view(self.table.columns@))
        &&& self.table.name@ == self.table_name@
    }

    /// A table of columns and rows.
    pub fn new(
        table_name: String,
        columns: Vec<(String, DataType, bool)>,
        rows: Vec<Vec<Value>>,
    ) -> (r: Self)
        ensures
            r.wf(),
            r.deep_view() == provider(table_name@, columns_view(columns@), rows.deep_view()),
    {
        let schema = columns_to_schema(&columns);
        let table = TableRef { name: table_name.clone(), columns, rows };
        HybridDBTable { table_name, schema, table }
    }

    /// The columns and the live rows of a stored table.
    pub fn from_storage_table(table: &Table) -> (r: Self)
        requires
            table.wf(),
        ensures
            r.wf(),
            r.deep_view() == provided(table.deep_view()),
    {
        let ghost t = table.deep_view();
        let ghost m = provided(t).columns;
        let mut columns: Vec<(String, DataType, bool)> = Vec::new();
        let mut i: usize = 0;
        while i < table.def.columns.len()
            invariant
                t == table.deep_view(),
                m == provided(t).columns,
                i <= table.def.columns.len(),
                columns_view(columns@) == m.subrange(0, i as int),
            decreases table.def.columns.len() - i,
        {
            let c = &table.def.columns[i];
            assert(t.def.columns[i as int] == c.deep_view());
            let ghost before = columns_view(columns@);
            columns.push((c.name.clone(), c.data_type, c.nullable));
            assert(columns_view(columns@) =~= before.push(m[i as int]));
            i += 1;
            assert(columns_view(columns@) =~= m.subrange(0, i as int));
        }
        assert(columns_view(columns@) =~= m);
        let at = all_columns(columns.len());
        let rows = table.scan_to_rows_direct(&at);
        assert(columns.len() == t.def.columns.len());
        HybridDBTable::new(table.def.name.clone(), columns, rows)
    }

    /// Reads some columns.
    pub fn scan_projected(&self, projection: &Vec<usize>) -> (r: Result<
        Vec<ArrowArray>,
        EngramDbError,
    >)
        requires
            forall|i: int|
                0 <= i < projection@.len() ==> (#[trigger] projection@[i])
                    < self.deep_view().columns.len() && column_fits(
                    self.deep_view().columns[projection@[i] as int].1,
                    self.deep_view().rows,
                    projection@[i] as nat,
                ),
        ensures
            gives_arrays(r, arrays(self.deep_view(), projection@, projection@.len())),
    {
        let ghost p = self.deep_view();
        let mut out: Vec<ArrowArray> = Vec::new();
        let mut i: usize = 0;
        assert(Seq::new(out@.len(), |k: int| array_model(out@[k])) =~= Seq::empty());
        while i < projection.len()
            invariant
                p == self.deep_view(),
                forall|k: int|
                    0 <= k < projection@.len() ==> (#[trigger] projection@[k]) < p.columns.len()
                        && column_fits(
                        p.columns[projection@[k] as int].1,
                        p.rows,
                        projection@[k] as nat,
                    ),
                i <= projection.len(),
                arrays(p, projection@, i as nat) == Ok::<Seq<(ArrowType, Seq<Datum>)>, Fault>(
                    Seq::new(out@.len(), |k: int| array_model(out@[k])),
                ),
            decreases projection.len() - i,
        {
            let c: usize = projection[i];
            assert(projection@[i as int] < p.columns.len());
            match values_to_array(&self.table.columns[c].1, &self.table.rows, c) {
                Ok(a) => {
                    let ghost before = Seq::new(out@.len(), |k: int| array_model(out@[k]));
                    out.push(a);
                    assert(Seq::new(out@.len(), |k: int| array_model(out@[k])) =~= before.push(
                        array_model(a),
                    ));
                },
                Err(e) => {
                    proof {
                        lemma_arrays_fail(
                            p,
                            projection@,
                            (i + 1) as nat,
                            projection@.len(),
                        );
                    }
                    return Err(e);
                },
            }
            i += 1;
        }
        Ok(out)
    }

    /// The schema of some columns.
    pub fn project_schema(&self, projection: &Vec<usize>) -> (r: Vec<ArrowField>)
        requires
            forall|i: int|
                0 <= i < projection@.len() ==> (#[trigger] projection@[i])
                    < self.deep_view().columns.len(),
        ensures
            r.deep_view() == Seq::new(
                projection@.len(),
                |i: int| schema_of(self.deep_view().columns)[projection@[i] as int],
            ),
    {
        let ghost p = self.deep_view();
        let ghost m = Seq::new(
            projection@.len(),
            |i: int| schema_of(p.columns)[projection@[i] as int],
        );
        let mut out: Vec<ArrowField> = Vec::new();
        let mut i: usize = 0;
        while i < projection.len()
            invariant
                p == self.deep_view(),
                forall|k: int|
                    0 <= k < projection@.len() ==> (#[trigger] projection@[k]) < p.columns.len(),
                m == Seq::new(
                    projection@.len(),
                    |i: int| schema_of(p.columns)[projection@[i] as int],
                ),
                i <= projection.len(),
                out.deep_view() == m.subrange(0, i as int),
            decreases projection.len() - i,
        {
            assert(projection@[i as int] < p.columns.len());
            let c = &self.table.columns[projection[i]];
            let f = make_field(c.0.as_str(), &c.1, c.2);
            let ghost before = out.deep_view();
            out.push(f);
            assert(out.deep_view() =~= before.push(f.deep_view()));
            i += 1;
            assert(out.deep_view() =~= m.subrange(0, i as int));
        }
        assert(out.deep_view() =~= m);
        out
    }
}

} // verus!
