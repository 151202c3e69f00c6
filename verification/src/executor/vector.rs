//! Batches of rows, stored column by column.
use vstd::prelude::*;

use crate::common::column_data::ColumnData;
use crate::value::{clone_row, Datum};
use crate::Value;

verus! {

/// The number of rows in a full batch.
pub const VECTOR_SIZE: usize = 2048;

/// A column of a batch.
#[derive(Debug)]
pub enum Vector {
    /// One value per row.
    Flat(Vec<Value>),
    /// One value for all rows, and the number of rows.
    Constant(Value, usize),
    /// A typed column.
    Typed(ColumnData),
}

/// The model of a [`Vector`]. A typed column is a flat one.
#[verifier::ext_equal]
pub enum Column {
    Constant(Datum, nat),
    Flat(Seq<Datum>),
}

impl DeepView for Vector {
    type V = Column;

    open spec fn deep_view(&self) -> Column {
        match self {
            Vector::Flat(v) => Column::Flat(v.deep_view()),
            Vector::Constant(v, n) => Column::Constant(v.deep_view(), *n as nat),
            Vector::Typed(d) => Column::Flat(d.deep_view()),
        }
    }
}

/// The number of rows of a column.
pub open spec fn col_len(c: Column) -> nat {
    match c {
        Column::Constant(_, n) => n,
        Column::Flat(s) => s.len(),
    }
}

/// The value of a column at row `i`. A constant column has it everywhere.
pub open spec fn col_at(c: Column, i: int) -> Datum {
    match c {
        Column::Constant(v, _) => v,
        Column::Flat(s) => s[i],
    }
}

/// The values of a column, row by row.
pub open spec fn col_flat(c: Column) -> Seq<Datum> {
    match c {
        Column::Constant(v, n) => Seq::new(n, |i: int| v),
        Column::Flat(s) => s,
    }
}

/// Whether row `i` of a column can be read.
pub open spec fn col_has(c: Column, i: int) -> bool {
    c is Constant || 0 <= i < col_len(c)
}

impl Vector {
    /// Whether a typed column is well formed.
    pub open spec fn wf(&self) -> bool {
        match self {
            Vector::Typed(d) => d.wf(),
            _ => true,
        }
    }

    /// A flat vector without rows.
    pub fn new() -> (r: Self)
        ensures
            r.wf(),
            r.deep_view() == Column::Flat(Seq::empty()),
            !(r is Typed),
    {
        let r = Vector::Flat(Vec::new());
        assert(r.deep_view()->Flat_0 =~= Seq::empty());
        r
    }

    /// A flat vector of the given values.
    pub fn from_values(values: Vec<Value>) -> (r: Self)
        ensures
            r.wf(),
            r.deep_view() == Column::Flat(values.deep_view()),
            !(r is Typed),
    {
        Vector::Flat(values)
    }

    /// A typed vector.
    pub fn from_typed(data: ColumnData) -> (r: Self)
        ensures
            data.wf() ==> r.wf(),
            r == Vector::Typed(data),
    {
        Vector::Typed(data)
    }

    /// The number of rows.
    pub fn len(&self) -> (n: usize)
        ensures
            n == col_len(self.deep_view()),
    {
        match self {
            Vector::Flat(v) => v.len(),
            Vector::Constant(_, n) => *n,
            Vector::Typed(d) => d.len(),
        }
    }

    /// Whether there is no row.
    pub fn is_empty(&self) -> (r: bool)
        ensures
            r == (col_len(self.deep_view()) == 0),
    {
        self.len() == 0
    }

    /// The value at row `idx`.
    pub fn get(&self, idx: usize) -> (r: Value)
        requires
            self.wf(),
            col_has(self.deep_view(), idx as int),
        ensures
            r.deep_view() == col_at(self.deep_view(), idx as int),
    {
        match self {
            Vector::Flat(v) => v[idx].clone(),
            Vector::Constant(val, _) => val.clone(),
            Vector::Typed(d) => d.get(idx),
        }
    }

    /// Appends a row. A flat vector takes the value; a constant one only
    /// grows, and keeps its value.
    pub fn push(&mut self, val: Value)
        requires
            !(*old(self) is Typed),
            col_len(old(self).deep_view()) < usize::MAX,
        ensures
            final(self).wf(),
            final(self).deep_view() == match old(self).deep_view() {
                Column::Flat(s) => Column::Flat(s.push(val.deep_view())),
                Column::Constant(v, n) => Column::Constant(v, n + 1),
            },
    {
        let ghost before = self.deep_view();
        match self {
            Vector::Flat(v) => {
                v.push(val);
                assert(v.deep_view() =~= before->Flat_0.push(val.deep_view()));
            },
            Vector::Constant(_, n) => {
                *n = *n + 1;
            },
            Vector::Typed(_) => {},
        }
    }

    /// The values, row by row.
    pub fn to_flat(&self) -> (r: Vec<Value>)
        requires
            self.wf(),
        ensures
            r.deep_view() == col_flat(self.deep_view()),
    {
        match self {
            Vector::Flat(v) => clone_row(v),
            Vector::Constant(val, n) => repeat_value(val, *n),
            Vector::Typed(d) => d.to_values(),
        }
    }

    /// Whether the vector is typed.
    pub fn is_typed(&self) -> (r: bool)
        ensures
            r == (*self is Typed),
    {
        matches!(self, Vector::Typed(_))
    }

    /// The typed column, where the vector is one.
    pub fn as_typed(&self) -> (r: Option<&ColumnData>)
        ensures
            match *self {
                Vector::Typed(d) => r == Some(&d),
                _ => r is None,
            },
    {
        match self {
            Vector::Typed(d) => Some(d),
            _ => None,
        }
    }

    /// Turns a flat vector whose values share a type into a typed one. Any
    /// other vector stays as it is.
    pub fn try_typed(self) -> (r: Vector)
        requires
            self.wf(),
        ensures
            r.wf(),
            r.deep_view() == self.deep_view(),
            r is Typed <==> (self is Typed || self is Flat
                && crate::common::column_data::common_type(col_flat(self.deep_view())) is Some),
            !(self is Flat) ==> r == self,
    {
        match self {
            Vector::Flat(v) => {
                let slice = v.as_slice();
                assert(slice.deep_view() =~= v.deep_view());
                match ColumnData::try_from_values(slice) {
                    Some(d) => Vector::Typed(d),
                    None => Vector::Flat(v),
                }
            },
            other => other,
        }
    }
}

impl Default for Vector {
    fn default() -> (r: Self)
        ensures
            r.deep_view() == Column::Flat(Seq::empty()),
    {
        Self::new()
    }
}

impl Clone for Vector {
    fn clone(&self) -> (r: Self)
        ensures
            r.deep_view() == self.deep_view(),
            self.wf() ==> r.wf(),
            r is Typed <==> *self is Typed,
    {
        match self {
            Vector::Flat(v) => Vector::Flat(clone_row(v)),
            Vector::Constant(v, n) => Vector::Constant(v.clone(), *n),
            Vector::Typed(d) => Vector::Typed(d.clone()),
        }
    }
}

/// The value `n` times.
pub fn repeat_value(val: &Value, n: usize) -> (r: Vec<Value>)
    ensures
        r.deep_view() == Seq::new(n as nat, |i: int| val.deep_view()),
{
    let mut out: Vec<Value> = Vec::new();
    let mut i: usize = 0;
    while i < n
        invariant
            i <= n,
            out.len() == i,
            forall|k: int| 0 <= k < i ==> (#[trigger] out[k]).deep_view() == val.deep_view(),
        decreases n - i,
    {
        out.push(val.clone());
        i += 1;
    }
    assert(out.deep_view() =~= Seq::new(n as nat, |i: int| val.deep_view()));
    out
}

/// A batch of rows.
#[derive(Debug)]
pub struct DataChunk {
    pub columns: Vec<Vector>,
    pub count: usize,
}

/// The model of a [`DataChunk`].
#[verifier::ext_equal]
pub struct Chunk {
    pub columns: Seq<Column>,
    pub count: nat,
}

impl DeepView for DataChunk {
    type V = Chunk;

    open spec fn deep_view(&self) -> Chunk {
        Chunk { columns: self.columns.deep_view(), count: self.count as nat }
    }
}

/// Whether every column covers every row of the batch.
pub open spec fn covers(c: Chunk) -> bool {
    forall|j: int| 0 <= j < c.columns.len() ==> #[trigger] c.columns[j] is Constant || col_len(
        c.columns[j],
    ) >= c.count
}

/// Whether every column has as many rows as the batch.
pub open spec fn aligned(c: Chunk) -> bool {
    forall|j: int| 0 <= j < c.columns.len() ==> col_len(#[trigger] c.columns[j]) == c.count
}

/// Row `i` of a batch.
pub open spec fn row_of(c: Chunk, i: int) -> Seq<Datum> {
    Seq::new(c.columns.len(), |j: int| col_at(c.columns[j], i))
}

/// The rows of a batch.
pub open spec fn rows_of(c: Chunk) -> Seq<Seq<Datum>> {
    Seq::new(c.count, |i: int| row_of(c, i))
}

/// The `j`-th values of the rows that have one, in row order.
pub open spec fn column_of(rows: Seq<Seq<Datum>>, j: int) -> Seq<Datum>
    decreases rows.len(),
{
    if rows.len() == 0 {
        Seq::empty()
    } else if j < rows.last().len() {
        column_of(rows.drop_last(), j).push(rows.last()[j])
    } else {
        column_of(rows.drop_last(), j)
    }
}

/// The batch made of rows; the first row gives the number of columns.
pub open spec fn chunk_of(rows: Seq<Seq<Datum>>) -> Chunk {
    if rows.len() == 0 {
        Chunk { columns: Seq::empty(), count: 0 }
    } else {
        Chunk {
            columns: Seq::new(rows[0].len(), |j: int| Column::Flat(column_of(rows, j))),
            count: rows.len(),
        }
    }
}

/// Whether no row is longer than the first.
pub open spec fn first_is_longest(rows: Seq<Seq<Datum>>) -> bool {
    forall|i: int| 0 <= i < rows.len() ==> (#[trigger] rows[i]).len() <= rows[0].len()
}

/// Whether all rows are of one length.
pub open spec fn rectangular(rows: Seq<Seq<Datum>>) -> bool {
    forall|i: int| 0 <= i < rows.len() ==> (#[trigger] rows[i]).len() == rows[0].len()
}

/// A column of rows that all reach it has the rows' values.
pub proof fn lemma_column_of(rows: Seq<Seq<Datum>>, j: int)
    requires
        forall|i: int| 0 <= i < rows.len() ==> (#[trigger] rows[i]).len() > j,
        j >= 0,
    ensures
        column_of(rows, j) == Seq::new(rows.len(), |i: int| rows[i][j]),
    decreases rows.len(),
{
    if rows.len() > 0 {
        let front = rows.drop_last();
        assert forall|i: int| 0 <= i < front.len() implies (#[trigger] front[i]).len() > j by {
            assert(front[i] == rows[i]);
        }
        lemma_column_of(front, j);
        assert(rows.last() == rows[rows.len() - 1]);
    }
    assert(column_of(rows, j) =~= Seq::new(rows.len(), |i: int| rows[i][j]));
}

/// Turning rows of one length into a batch and back changes nothing.
pub proof fn law_chunk_roundtrip(rows: Seq<Seq<Datum>>)
    requires
        rectangular(rows),
    ensures
        rows_of(chunk_of(rows)) == rows,
        aligned(chunk_of(rows)),
{
    if rows.len() > 0 {
        let c = chunk_of(rows);
        assert forall|j: int| 0 <= j < rows[0].len() implies #[trigger] c.columns[j]
            == Column::Flat(Seq::new(rows.len(), |i: int| rows[i][j])) by {
            assert forall|i: int| 0 <= i < rows.len() implies (#[trigger] rows[i]).len() > j by {}
            lemma_column_of(rows, j);
        }
        assert forall|i: int| 0 <= i < rows.len() implies #[trigger] rows_of(c)[i] == rows[i] by {
            assert(rows_of(c)[i] =~= rows[i]);
        }
    }
    assert(rows_of(chunk_of(rows)) =~= rows);
}

impl DataChunk {
    /// Whether all typed columns are well formed.
    pub open spec fn wf(&self) -> bool {
        forall|j: int| 0 <= j < self.columns.len() ==> (#[trigger] self.columns[j]).wf()
    }

    /// A batch of `num_columns` columns without rows.
    pub fn new(num_columns: usize) -> (r: Self)
        ensures
            r.wf(),
            r.deep_view() == (Chunk {
                columns: Seq::new(num_columns as nat, |j: int| Column::Flat(Seq::empty())),
                count: 0,
            }),
    {
        let mut columns: Vec<Vector> = Vec::new();
        let mut i: usize = 0;
        while i < num_columns
            invariant
                i <= num_columns,
                columns.len() == i,
                forall|k: int|
                    0 <= k < i ==> (#[trigger] columns[k]).deep_view() == Column::Flat(Seq::empty())
                        && columns[k].wf(),
            decreases num_columns - i,
        {
            columns.push(Vector::new());
            i += 1;
        }
        let r = DataChunk { columns, count: 0 };
        assert(r.deep_view().columns =~= Seq::new(
            num_columns as nat,
            |j: int| Column::Flat(Seq::empty()),
        ));
        r
    }

    /// The batch made of rows; the first row gives the number of columns.
    pub fn from_rows(rows: &[Vec<Value>]) -> (r: Self)
        requires
            first_is_longest(rows.deep_view()),
        ensures
            r.wf(),
            r.deep_view() == chunk_of(rows.deep_view()),
            forall|j: int| 0 <= j < r.columns.len() ==> #[trigger] r.columns[j] is Flat,
    {
        if rows.len() == 0 {
            let r = Self::new(0);
            assert(r.deep_view().columns =~= Seq::empty());
            return r;
        }
        let ghost all = rows.deep_view();
        let width: usize = rows[0].len();
        assert(all[0].len() == width);
        let mut columns: Vec<Vector> = Vec::new();
        let mut j: usize = 0;
        while j < width
            invariant
                rows.len() > 0,
                all == rows.deep_view(),
                width == all[0].len(),
                j <= width,
                columns.len() == j,
                forall|k: int|
                    0 <= k < j ==> (#[trigger] columns[k]).deep_view() == Column::Flat(
                        column_of(all, k),
                    ) && columns[k] is Flat,
            decreases width - j,
        {
            let col = column_values(rows, j);
            columns.push(Vector::Flat(col));
            j += 1;
        }
        let r = DataChunk { columns, count: rows.len() };
        assert(r.deep_view().columns =~= chunk_of(all).columns);
        r
    }

    /// The number of rows.
    pub fn len(&self) -> (n: usize)
        ensures
            n == self.deep_view().count,
    {
        self.count
    }

    /// Whether there is no row.
    pub fn is_empty(&self) -> (r: bool)
        ensures
            r == (self.deep_view().count == 0),
    {
        self.count == 0
    }

    /// The number of columns.
    pub fn num_columns(&self) -> (n: usize)
        ensures
            n == self.deep_view().columns.len(),
    {
        self.columns.len()
    }

    /// Row `i`.
    pub fn row(&self, i: usize) -> (r: Vec<Value>)
        requires
            self.wf(),
            covers(self.deep_view()),
            i < self.count,
        ensures
            r.deep_view() == row_of(self.deep_view(), i as int),
    {
        let ghost c = self.deep_view();
        let mut row: Vec<Value> = Vec::new();
        let mut j: usize = 0;
        while j < self.columns.len()
            invariant
                self.wf(),
                c == self.deep_view(),
                covers(c),
                i < self.count,
                j <= self.columns.len(),
                row.deep_view() == row_of(c, i as int).subrange(0, j as int),
            decreases self.columns.len() - j,
        {
            assert(c.columns[j as int] == self.columns[j as int].deep_view());
            let v = self.columns[j].get(i);
            let ghost before = row.deep_view();
            row.push(v);
            assert(row.deep_view() =~= before.push(v.deep_view()));
            assert(row.deep_view() =~= row_of(c, i as int).subrange(0, j as int + 1));
            j += 1;
        }
        assert(row.deep_view() =~= row_of(c, i as int));
        row
    }

    /// The rows.
    pub fn to_rows(&self) -> (r: Vec<Vec<Value>>)
        requires
            self.wf(),
            covers(self.deep_view()),
        ensures
            r.deep_view() == rows_of(self.deep_view()),
    {
        let ghost c = self.deep_view();
        let mut rows: Vec<Vec<Value>> = Vec::new();
        let mut i: usize = 0;
        while i < self.count
            invariant
                self.wf(),
                c == self.deep_view(),
                covers(c),
                i <= self.count,
                rows.deep_view() == rows_of(c).subrange(0, i as int),
            decreases self.count - i,
        {
            let row = self.row(i);
            let ghost before = rows.deep_view();
            rows.push(row);
            assert(rows.deep_view() =~= before.push(row.deep_view()));
            assert(rows.deep_view() =~= rows_of(c).subrange(0, i as int + 1));
            i += 1;
        }
        assert(rows.deep_view() =~= rows_of(c));
        rows
    }
}

impl Clone for DataChunk {
    fn clone(&self) -> (r: Self)
        ensures
            r.deep_view() == self.deep_view(),
            self.wf() ==> r.wf(),
    {
        let columns = self.columns.clone();
        assert(columns.deep_view() =~= self.columns.deep_view());
        DataChunk { columns, count: self.count }
    }
}

/// The `j`-th values of the rows that have one, in row order.
fn column_values(rows: &[Vec<Value>], j: usize) -> (r: Vec<Value>)
    ensures
        r.deep_view() == column_of(rows.deep_view(), j as int),
{
    let ghost all = rows.deep_view();
    let mut col: Vec<Value> = Vec::new();
    let mut i: usize = 0;
    assert(col.deep_view() =~= column_of(all.subrange(0, 0), j as int));
    while i < rows.len()
        invariant
            all == rows.deep_view(),
            i <= rows.len(),
            col.deep_view() == column_of(all.subrange(0, i as int), j as int),
        decreases rows.len() - i,
    {
        let ghost next = all.subrange(0, i as int + 1);
        assert(next.drop_last() =~= all.subrange(0, i as int));
        assert(next.last() == all[i as int]);
        assert(all[i as int] == rows[i as int].deep_view());
        if j < rows[i].len() {
            let v = rows[i][j].clone();
            let ghost before = col.deep_view();
            col.push(v);
            assert(col.deep_view() =~= before.push(all[i as int][j as int]));
        }
        i += 1;
    }
    assert(all.subrange(0, i as int) =~= all);
    col
}

/// How many batches `n` rows take.
pub open spec fn batch_count(n: nat) -> nat {
    (n + VECTOR_SIZE as nat - 1) as nat / VECTOR_SIZE as nat
}

/// The rows of batch `k`.
pub open spec fn batch(rows: Seq<Seq<Datum>>, k: int) -> Seq<Seq<Datum>> {
    let end = (k + 1) * VECTOR_SIZE;
    rows.subrange(
        k * VECTOR_SIZE,
        if end <= rows.len() {
            end
        } else {
            rows.len() as int
        },
    )
}

/// The batches made of rows.
pub open spec fn batches(rows: Seq<Seq<Datum>>) -> Seq<Chunk> {
    Seq::new(batch_count(rows.len()), |k: int| chunk_of(batch(rows, k)))
}

/// Whether in every batch no row is longer than the batch's first.
pub open spec fn batches_fit(rows: Seq<Seq<Datum>>) -> bool {
    forall|k: int| 0 <= k < batch_count(rows.len()) ==> first_is_longest(#[trigger] batch(rows, k))
}

/// Rows of one length fit into batches.
pub proof fn lemma_rectangular_fits(rows: Seq<Seq<Datum>>)
    requires
        rectangular(rows),
    ensures
        batches_fit(rows),
        forall|k: int| 0 <= k < batch_count(rows.len()) ==> rectangular(#[trigger] batch(rows, k)),
{
    assert forall|k: int| 0 <= k < batch_count(rows.len()) implies first_is_longest(
        #[trigger] batch(rows, k),
    ) && rectangular(batch(rows, k)) by {
        lemma_batch_bounds(rows, k);
        let b = batch(rows, k);
        assert(b[0] == rows[k * VECTOR_SIZE]);
        assert forall|i: int| 0 <= i < b.len() implies (#[trigger] b[i]).len() == b[0].len() by {
            assert(b[i] == rows[k * VECTOR_SIZE + i]);
        }
    }
}

/// Every batch starts inside the rows, and is not empty.
pub proof fn lemma_batch_bounds(rows: Seq<Seq<Datum>>, k: int)
    requires
        0 <= k < batch_count(rows.len()),
    ensures
        0 <= k * VECTOR_SIZE < rows.len(),
        0 < batch(rows, k).len() <= VECTOR_SIZE,
{
}

/// Cuts rows into batches.
pub fn from_rows_batched(rows: &[Vec<Value>]) -> (r: Vec<DataChunk>)
    requires
        batches_fit(rows.deep_view()),
    ensures
        r.deep_view() == batches(rows.deep_view()),
        forall|k: int| 0 <= k < r.len() ==> (#[trigger] r[k]).wf(),
{
    let ghost all = rows.deep_view();
    let mut out: Vec<DataChunk> = Vec::new();
    let mut start: usize = 0;
    let ghost mut k: int = 0;
    while start < rows.len()
        invariant
            all == rows.deep_view(),
            batches_fit(all),
            start <= rows.len(),
            k == out.len(),
            start == k * VECTOR_SIZE || start == rows.len(),
            start == rows.len() ==> k == batch_count(all.len()),
            start < rows.len() ==> k < batch_count(all.len()) && start == k * VECTOR_SIZE,
            0 <= k <= batch_count(all.len()),
            forall|j: int|
                0 <= j < k ==> (#[trigger] out[j]).deep_view() == chunk_of(batch(all, j))
                    && out[j].wf(),
        decreases rows.len() - start,
    {
        let end: usize = if rows.len() - start <= VECTOR_SIZE {
            rows.len()
        } else {
            start + VECTOR_SIZE
        };
        let part = vstd::slice::slice_subrange(rows, start, end);
        assert(part.deep_view() =~= batch(all, k));
        assert(first_is_longest(batch(all, k)));
        out.push(DataChunk::from_rows(part));
        start = end;
        proof {
            k = k + 1;
        }
    }
    assert(out.deep_view() =~= batches(all));
    out
}

/// The rows of several batches, one batch after the other.
pub open spec fn rows_of_all(chunks: Seq<Chunk>) -> Seq<Seq<Datum>>
    decreases chunks.len(),
{
    if chunks.len() == 0 {
        Seq::empty()
    } else {
        rows_of_all(chunks.drop_last()) + rows_of(chunks.last())
    }
}

/// Whether every batch can be read row by row.
pub open spec fn all_cover(chunks: Seq<Chunk>) -> bool {
    forall|k: int| 0 <= k < chunks.len() ==> covers(#[trigger] chunks[k])
}

/// Whether every batch's typed columns are well formed.
pub open spec fn chunks_wf(chunks: Seq<DataChunk>) -> bool {
    forall|k: int| 0 <= k < chunks.len() ==> (#[trigger] chunks[k]).wf()
}

/// The rows of all batches.
pub fn flatten_to_rows(chunks: &[DataChunk]) -> (r: Vec<Vec<Value>>)
    requires
        chunks_wf(chunks@),
        all_cover(chunks.deep_view()),
    ensures
        r.deep_view() == rows_of_all(chunks.deep_view()),
{
    let ghost all = chunks.deep_view();
    let mut out: Vec<Vec<Value>> = Vec::new();
    let mut i: usize = 0;
    assert(out.deep_view() =~= rows_of_all(all.subrange(0, 0)));
    while i < chunks.len()
        invariant
            all == chunks.deep_view(),
            chunks_wf(chunks@),
            all_cover(all),
            i <= chunks.len(),
            out.deep_view() == rows_of_all(all.subrange(0, i as int)),
        decreases chunks.len() - i,
    {
        assert(all[i as int] == chunks[i as int].deep_view());
        assert(covers(all[i as int]));
        let mut rows = chunks[i].to_rows();
        let ghost before = out.deep_view();
        let ghost more = rows.deep_view();
        out.append(&mut rows);
        assert(out.deep_view() =~= before + more);
        let ghost next = all.subrange(0, i as int + 1);
        assert(next.drop_last() =~= all.subrange(0, i as int));
        i += 1;
    }
    assert(all.subrange(0, i as int) =~= all);
    out
}

/// Cutting rows of one length into batches and reading the batches back gives
/// the rows.
pub proof fn law_batches_roundtrip(rows: Seq<Seq<Datum>>)
    requires
        rectangular(rows),
    ensures
        rows_of_all(batches(rows)) == rows,
        all_cover(batches(rows)),
{
    let n = batch_count(rows.len());
    lemma_rectangular_fits(rows);
    assert forall|k: int| 0 <= k < n implies covers(#[trigger] batches(rows)[k]) by {
        law_chunk_roundtrip(batch(rows, k));
        lemma_batch_bounds(rows, k);
    }
    lemma_batches_prefix(rows, n);
    assert(batches(rows).subrange(0, n as int) =~= batches(rows));
    assert(rows.subrange(0, rows.len() as int) =~= rows);
}

/// The first `k` batches hold the first `k * VECTOR_SIZE` rows.
proof fn lemma_batches_prefix(rows: Seq<Seq<Datum>>, k: nat)
    requires
        rectangular(rows),
        k <= batch_count(rows.len()),
    ensures
        ({
            let end = k * VECTOR_SIZE;
            rows_of_all(batches(rows).subrange(0, k as int)) == rows.subrange(
                0,
                if end <= rows.len() {
                    end
                } else {
                    rows.len() as int
                },
            )
        }),
    decreases k,
{
    let bs = batches(rows).subrange(0, k as int);
    if k == 0 {
        assert(bs.len() == 0);
        assert(rows.subrange(0, 0) =~= Seq::empty());
    } else {
        lemma_batches_prefix(rows, (k - 1) as nat);
        lemma_rectangular_fits(rows);
        lemma_batch_bounds(rows, k - 1);
        assert(bs.drop_last() =~= batches(rows).subrange(0, k - 1));
        law_chunk_roundtrip(batch(rows, k - 1));
        let end = k * VECTOR_SIZE;
        let stop = if end <= rows.len() {
            end
        } else {
            rows.len() as int
        };
        assert(rows.subrange(0, (k - 1) * VECTOR_SIZE) + batch(rows, k - 1) =~= rows.subrange(
            0,
            stop,
        ));
    }
}

/// The rows that passed a filter, by position.
#[derive(Debug)]
pub struct SelectionVector {
    indices: Vec<usize>,
}

impl View for SelectionVector {
    type V = Seq<usize>;

    closed spec fn view(&self) -> Seq<usize> {
        self.indices@
    }
}

/// The positions below `n` in order.
pub open spec fn positions(n: nat) -> Seq<usize> {
    Seq::new(n, |i: int| i as usize)
}

/// The rows of a column at the given positions.
pub open spec fn select_column(c: Column, sel: Seq<usize>) -> Column {
    match c {
        Column::Constant(v, _) => Column::Constant(v, sel.len()),
        Column::Flat(s) => Column::Flat(Seq::new(sel.len(), |i: int| s[sel[i] as int])),
    }
}

/// The rows of a batch at the given positions.
pub open spec fn select_chunk(c: Chunk, sel: Seq<usize>) -> Chunk {
    Chunk {
        columns: Seq::new(c.columns.len(), |j: int| select_column(c.columns[j], sel)),
        count: sel.len(),
    }
}

/// All rows of a batch are the batch.
pub proof fn lemma_select_all(c: Chunk)
    requires
        aligned(c),
        c.count <= usize::MAX,
    ensures
        select_chunk(c, positions(c.count)) == c,
{
    let r = select_chunk(c, positions(c.count));
    assert forall|j: int| 0 <= j < c.columns.len() implies r.columns[j] == c.columns[j] by {
        assert(col_len(c.columns[j]) == c.count);
        match c.columns[j] {
            Column::Flat(s) => {
                assert(Seq::new(c.count, |i: int| s[positions(c.count)[i] as int]) =~= s);
            },
            Column::Constant(_, _) => {},
        }
    }
    assert(r.columns =~= c.columns);
}

/// Whether all selected rows can be read.
pub open spec fn selectable(c: Column, sel: Seq<usize>) -> bool {
    c is Constant || forall|i: int| 0 <= i < sel.len() ==> (#[trigger] sel[i]) < col_len(c)
}

impl SelectionVector {
    /// No row.
    pub fn new() -> (r: Self)
        ensures
            r@ == Seq::<usize>::empty(),
    {
        SelectionVector { indices: Vec::new() }
    }

    /// All of the first `count` rows.
    pub fn all(count: usize) -> (r: Self)
        ensures
            r@ == positions(count as nat),
    {
        let mut indices: Vec<usize> = Vec::new();
        let mut i: usize = 0;
        while i < count
            invariant
                i <= count,
                indices@ == positions(i as nat),
            decreases count - i,
        {
            indices.push(i);
            assert(indices@ =~= positions((i + 1) as nat));
            i += 1;
        }
        SelectionVector { indices }
    }

    /// The given rows.
    pub fn from_indices(indices: Vec<usize>) -> (r: Self)
        ensures
            r@ == indices@,
    {
        SelectionVector { indices }
    }

    /// The number of rows.
    pub fn len(&self) -> (n: usize)
        ensures
            n == self@.len(),
    {
        self.indices.len()
    }

    /// Whether no row is selected.
    pub fn is_empty(&self) -> (r: bool)
        ensures
            r == (self@.len() == 0),
    {
        self.indices.len() == 0
    }

    /// Adds a row at the end.
    pub fn push(&mut self, idx: usize)
        ensures
            final(self)@ == old(self)@.push(idx),
    {
        self.indices.push(idx);
    }

    /// The `i`-th selected row.
    pub fn index(&self, i: usize) -> (r: usize)
        requires
            i < self@.len(),
        ensures
            r == self@[i as int],
    {
        self.indices[i]
    }

    /// All selected rows.
    pub fn indices(&self) -> (r: &[usize])
        ensures
            r@ == self@,
    {
        self.indices.as_slice()
    }

    /// The selected rows of a vector.
    pub fn apply_to_vector(&self, vector: &Vector) -> (r: Vector)
        requires
            vector.wf(),
            selectable(vector.deep_view(), self@),
        ensures
            r.wf(),
            r.deep_view() == select_column(vector.deep_view(), self@),
            r is Typed <==> vector is Typed,
    {
        match vector {
            Vector::Flat(values) => {
                let mut out: Vec<Value> = Vec::new();
                let mut i: usize = 0;
                let ghost s = values.deep_view();
                while i < self.indices.len()
                    invariant
                        s == values.deep_view(),
                        i <= self.indices.len(),
                        out.len() == i,
                        selectable(Column::Flat(s), self.indices@),
                        forall|k: int|
                            0 <= k < i ==> (#[trigger] out[k]).deep_view()
                                == s[self.indices[k] as int],
                    decreases self.indices.len() - i,
                {
                    let j: usize = self.indices[i];
                    out.push(values[j].clone());
                    i += 1;
                }
                let r = Vector::Flat(out);
                assert(out.deep_view() =~= Seq::new(self@.len(), |i: int| s[self@[i] as int]));
                r
            },
            Vector::Constant(val, _) => Vector::Constant(val.clone(), self.indices.len()),
            Vector::Typed(data) => {
                let r = data.gather(&self.indices);
                assert(r.deep_view() =~= Seq::new(
                    self@.len(),
                    |i: int| data.deep_view()[self@[i] as int],
                ));
                Vector::Typed(r)
            },
        }
    }

    /// The selected rows of a batch, in the order of the selection.
    pub fn apply_to_chunk(&self, chunk: &DataChunk) -> (r: DataChunk)
        requires
            chunk.wf(),
            forall|j: int|
                0 <= j < chunk.columns.len() ==> selectable(
                    #[trigger] chunk.deep_view().columns[j],
                    self@,
                ),
        ensures
            r.wf(),
            r.deep_view() == select_chunk(chunk.deep_view(), self@),
    {
        let ghost c = chunk.deep_view();
        let mut columns: Vec<Vector> = Vec::new();
        let mut j: usize = 0;
        while j < chunk.columns.len()
            invariant
                chunk.wf(),
                c == chunk.deep_view(),
                j <= chunk.columns.len(),
                columns.len() == j,
                forall|k: int|
                    0 <= k < chunk.columns.len() ==> selectable(#[trigger] c.columns[k], self@),
                forall|k: int|
                    0 <= k < j ==> (#[trigger] columns[k]).deep_view() == select_column(
                        c.columns[k],
                        self@,
                    ) && columns[k].wf(),
            decreases chunk.columns.len() - j,
        {
            assert(c.columns[j as int] == chunk.columns[j as int].deep_view());
            columns.push(self.apply_to_vector(&chunk.columns[j]));
            j += 1;
        }
        let r = DataChunk { columns, count: self.len() };
        assert(r.deep_view().columns =~= select_chunk(c, self@).columns);
        r
    }
}

impl Default for SelectionVector {
    fn default() -> (r: Self)
        ensures
            r@ == Seq::<usize>::empty(),
    {
        Self::new()
    }
}

impl Clone for SelectionVector {
    fn clone(&self) -> (r: Self)
        ensures
            r@ == self@,
    {
        let indices = self.indices.clone();
        assert(indices@ =~= self.indices@);
        SelectionVector { indices }
    }
}

/// A batch with a filter that has not been applied yet.
#[derive(Debug)]
pub struct LazyDataChunk {
    pub chunk: DataChunk,
    /// The rows that passed; all of them where there is no selection.
    pub selection: Option<SelectionVector>,
}

/// The rows of a filtered batch that have passed so far.
pub open spec fn selected(c: LazyDataChunk) -> Seq<usize> {
    match c.selection {
        Some(s) => s@,
        None => positions(c.chunk.count as nat),
    }
}

/// The elements of `s` that are marked.
pub open spec fn kept(s: Seq<usize>, keep: Seq<bool>) -> Seq<usize>
    decreases s.len(),
{
    if s.len() == 0 {
        s
    } else if keep[s.len() - 1] {
        kept(s.drop_last(), keep).push(s.last())
    } else {
        kept(s.drop_last(), keep)
    }
}

/// Only the marks of the elements themselves matter.
proof fn lemma_kept_marks(s: Seq<usize>, a: Seq<bool>, b: Seq<bool>)
    requires
        a.len() >= s.len(),
        b.len() >= s.len(),
        forall|i: int| 0 <= i < s.len() ==> a[i] == b[i],
    ensures
        kept(s, a) == kept(s, b),
        kept(s, a).len() <= s.len(),
        kept(s, a).len() == s.len() ==> kept(s, a) == s,
    decreases s.len(),
{
    if s.len() > 0 {
        lemma_kept_marks(s.drop_last(), a, b);
        assert(s.drop_last().push(s.last()) =~= s);
    }
}

impl LazyDataChunk {
    /// A batch of which every row has passed.
    pub fn new(chunk: DataChunk) -> (r: Self)
        ensures
            r.chunk == chunk,
            r.selection is None,
    {
        LazyDataChunk { chunk, selection: None }
    }

    /// The number of rows that have passed.
    pub fn len(&self) -> (n: usize)
        ensures
            n == selected(*self).len(),
    {
        match &self.selection {
            Some(sel) => sel.len(),
            None => self.chunk.len(),
        }
    }

    /// Whether no row has passed.
    pub fn is_empty(&self) -> (r: bool)
        ensures
            r == (selected(*self).len() == 0),
    {
        self.len() == 0
    }

    /// The number of columns.
    pub fn num_columns(&self) -> (n: usize)
        ensures
            n == self.chunk.columns.len(),
    {
        self.chunk.num_columns()
    }

    /// Narrows the selection to the rows that the predicate accepts. The data
    /// stays untouched, and a batch of which every row passes stays without a
    /// selection.
    pub fn filter<F: Fn(usize) -> bool>(&mut self, predicate: F)
        requires
            forall|i: usize| call_requires(predicate, (i,)),
        ensures
            final(self).chunk == old(self).chunk,
            exists|keep: Seq<bool>|
                {
                    &&& keep.len() == selected(*old(self)).len()
                    &&& forall|i: int|
                        0 <= i < keep.len() ==> call_ensures(
                            predicate,
                            (selected(*old(self))[i],),
                            #[trigger] keep[i],
                        )
                    &&& selected(*final(self)) == kept(selected(*old(self)), keep)
                },
            final(self).selection is None <==> old(self).selection is None && selected(
                *final(self),
            ).len() == selected(*old(self)).len(),
    {
        let ghost start = selected(*self);
        let total: usize = self.len();
        let mut sel = SelectionVector::new();
        let ghost mut keep: Seq<bool> = Seq::empty();
        let mut i: usize = 0;
        while i < total
            invariant
                start == selected(*self),
                self.chunk == old(self).chunk,
                self.selection == old(self).selection,
                total == start.len(),
                i <= total,
                keep.len() == i,
                forall|i: usize| call_requires(predicate, (i,)),
                forall|k: int|
                    0 <= k < i ==> call_ensures(predicate, (start[k],), #[trigger] keep[k]),
                sel@ == kept(start.subrange(0, i as int), keep),
            decreases total - i,
        {
            let row: usize = match &self.selection {
                Some(s) => s.index(i),
                None => i,
            };
            assert(row == start[i as int]);
            let pass = predicate(row);
            let ghost before = keep;
            proof {
                keep = keep.push(pass);
                let next = start.subrange(0, i as int + 1);
                assert(next.drop_last() =~= start.subrange(0, i as int));
                lemma_kept_marks(start.subrange(0, i as int), before, keep);
            }
            if pass {
                sel.push(row);
            }
            i += 1;
        }
        proof {
            assert(start.subrange(0, total as int) =~= start);
            lemma_kept_marks(start, keep, keep);
        }
        if self.selection.is_some() || sel.len() < total {
            self.selection = Some(sel);
        }
    }

    /// The rows that have passed, as a batch.
    pub fn materialize(self) -> (r: DataChunk)
        requires
            self.chunk.wf(),
            self.selection is Some ==> forall|j: int|
                0 <= j < self.chunk.columns.len() ==> selectable(
                    #[trigger] self.chunk.deep_view().columns[j],
                    self.selection->0@,
                ),
        ensures
            r.wf(),
            r.deep_view() == match self.selection {
                Some(s) => select_chunk(self.chunk.deep_view(), s@),
                None => self.chunk.deep_view(),
            },
    {
        match self.selection {
            Some(sel) => sel.apply_to_chunk(&self.chunk),
            None => self.chunk,
        }
    }

    /// A column together with the selection that applies to it.
    pub fn column_with_selection(&self, col_idx: usize) -> (r: (&Vector, Option<&SelectionVector>))
        requires
            col_idx < self.chunk.columns.len(),
        ensures
            *r.0 == self.chunk.columns[col_idx as int],
            match self.selection {
                Some(s) => r.1 == Some(&s),
                None => r.1 is None,
            },
    {
        (&self.chunk.columns[col_idx], self.selection.as_ref())
    }
}

/// Filtering twice keeps the rows that pass both filters, in order: the
/// second filter only ever sees, and only ever drops, rows that the first
/// one kept.
pub proof fn law_filters_accumulate(start: Seq<usize>, first: Seq<bool>, second: Seq<bool>)
    requires
        first.len() == start.len(),
        second.len() == kept(start, first).len(),
    ensures
        forall|x: usize| #[trigger]
            kept(kept(start, first), second).contains(x) ==> start.contains(x),
        kept(kept(start, first), second).len() <= kept(start, first).len() <= start.len(),
{
    lemma_kept_marks(start, first, first);
    lemma_kept_marks(kept(start, first), second, second);
    lemma_kept_contains(start, first);
    lemma_kept_contains(kept(start, first), second);
}

/// What is kept was there before.
proof fn lemma_kept_contains(s: Seq<usize>, keep: Seq<bool>)
    requires
        keep.len() >= s.len(),
    ensures
        forall|x: usize| #[trigger] kept(s, keep).contains(x) ==> s.contains(x),
    decreases s.len(),
{
    if s.len() > 0 {
        let front = s.drop_last();
        lemma_kept_contains(front, keep);
        assert forall|x: usize| #[trigger] kept(s, keep).contains(x) implies s.contains(x) by {
            let i = choose|i: int| 0 <= i < kept(s, keep).len() && kept(s, keep)[i] == x;
            if kept(front, keep).contains(x) {
                let j = choose|j: int| 0 <= j < front.len() && front[j] == x;
                assert(s[j] == x);
            } else {
                if i < kept(front, keep).len() {
                    assert(kept(front, keep)[i] == x);
                }
                assert(s[s.len() - 1] == x);
            }
        }
    }
}

} // verus!
