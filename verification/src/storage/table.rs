//! A table: its definition, and its rows by row number.
use vstd::prelude::*;

use crate::common::error::{EngramDbError, Fault};
use crate::common::types::{
    lemma_first_from, pk_index, pos, ColumnModel, IndexModel, TableDef, TableModel,
};
use crate::common::value_cmp::whole;
use crate::executor::operators::hash_join::{cell_of, read_cell};
use crate::text::{join2, join3, same_text};
use crate::value::{clone_row, same_value, Datum};
use crate::Value;

verus! {

/// A table. A row keeps its number; the slot of a deleted row is empty.
#[derive(Debug)]
pub struct Table {
    pub def: TableDef,
    pub rows: Vec<Option<Vec<Value>>>,
}

/// The model of a [`Table`].
#[verifier::ext_equal]
pub struct Tbl {
    pub def: TableModel,
    pub slots: Seq<Option<Seq<Datum>>>,
}

impl DeepView for Table {
    type V = Tbl;

    open spec fn deep_view(&self) -> Tbl {
        Tbl { def: self.def.deep_view(), slots: self.rows.deep_view() }
    }
}

/// What a column stores of a value, and the next automatic number. An
/// automatically numbered column numbers NULLs from 1 on, and goes on behind
/// the numbers that it was given.
pub open spec fn assigned(auto: bool, d: Datum, next: u64) -> (Datum, u64) {
    if !auto {
        (d, next)
    } else if d is Null {
        let n = if next == 0 {
            1u64
        } else {
            next
        };
        (Datum::Int64(n as i64), n.wrapping_add(1))
    } else {
        match whole(d) {
            Some(k) => if next <= k < i64::MAX {
                (d, (k + 1) as u64)
            } else {
                (d, next)
            },
            None => (d, next),
        }
    }
}

/// What the first `n` columns store of a row, and the next automatic number.
pub open spec fn numbered(
    columns: Seq<ColumnModel>,
    row: Seq<Datum>,
    next: u64,
    n: nat,
) -> (Seq<Datum>, u64)
    decreases n,
{
    if n == 0 {
        (Seq::empty(), next)
    } else {
        let done = numbered(columns, row, next, (n - 1) as nat);
        let last = assigned(
            columns[n - 1].auto_increment,
            cell_of(row, n - 1),
            done.1,
        );
        (done.0.push(last.0), last.1)
    }
}

/// Whether a live row other than `except` has the value in the column.
pub open spec fn taken(
    slots: Seq<Option<Seq<Datum>>>,
    column: int,
    d: Datum,
    except: Option<int>,
) -> bool {
    exists|i: int|
        0 <= i < slots.len() && except != Some(i) && #[trigger] slots[i] is Some && cell_of(
            slots[i]->0,
            column,
        ) == d
}

/// The first column from `i` on that forbids NULL and has it.
pub open spec fn null_at(columns: Seq<ColumnModel>, row: Seq<Datum>, i: int) -> Option<int>
    decreases columns.len() - i,
{
    if i < 0 || i >= columns.len() {
        None
    } else if !columns[i].nullable && cell_of(row, i) is Null {
        Some(i)
    } else {
        null_at(columns, row, i + 1)
    }
}

/// The first unique index from `i` on that holds the row's key already. The
/// key of an index is its first column.
pub open spec fn index_taken(
    indexes: Seq<IndexModel>,
    slots: Seq<Option<Seq<Datum>>>,
    row: Seq<Datum>,
    except: Option<int>,
    i: int,
) -> Option<int>
    decreases indexes.len() - i,
{
    if i < 0 || i >= indexes.len() {
        None
    } else if indexes[i].unique && indexes[i].key_columns.len() > 0 && taken(
        slots,
        indexes[i].key_columns[0] as int,
        cell_of(row, indexes[i].key_columns[0] as int),
        except,
    ) {
        Some(i)
    } else {
        index_taken(indexes, slots, row, except, i + 1)
    }
}

/// The error about a key that is there already.
pub open spec fn key_fault(name: Seq<char>) -> Fault {
    Fault::ConstraintViolation("UNIQUE constraint failed: "@ + name)
}

/// The error about an index that holds a key already.
pub open spec fn index_fault(name: Seq<char>) -> Fault {
    Fault::ConstraintViolation("UNIQUE constraint failed: index '"@ + name + "'"@)
}

/// Whether the row's primary key is that of another row. NULL is no key.
pub open spec fn key_taken(t: Tbl, row: Seq<Datum>, except: Option<int>) -> bool {
    match pk_index(t.def.columns) {
        Some(c) => !(cell_of(row, c) is Null) && taken(t.slots, c, cell_of(row, c), except),
        None => false,
    }
}

/// What is wrong with a row in the place of `except`, or with a new row.
pub open spec fn row_fault(
    t: Tbl,
    row: Seq<Datum>,
    skip_key: bool,
    except: Option<int>,
) -> Option<Fault> {
    match null_at(t.def.columns, row, 0) {
        Some(j) => Some(
            Fault::ConstraintViolation("NOT NULL constraint failed: "@ + t.def.columns[j].name),
        ),
        None => if !skip_key && key_taken(t, row, except) {
            Some(key_fault(t.def.columns[pk_index(t.def.columns)->0].name))
        } else {
            match index_taken(t.def.indexes, t.slots, row, except, 0) {
                Some(k) => Some(index_fault(t.def.indexes[k].name)),
                None => None,
            }
        },
    }
}

/// Slots with empty ones behind them, up to a length.
pub open spec fn padded(slots: Seq<Option<Seq<Datum>>>, n: int) -> Seq<Option<Seq<Datum>>> {
    if n <= slots.len() {
        slots
    } else {
        slots + Seq::new((n - slots.len()) as nat, |i: int| None)
    }
}

/// A table with a row put into a slot, or behind the last one. Where the slot
/// lies further behind, those before it are empty.
pub open spec fn placed(t: Tbl, at: Option<int>, row: Seq<Datum>, next: u64) -> Tbl {
    let slots = match at {
        Some(i) => padded(t.slots, i + 1).update(i, Some(row)),
        None => t.slots.push(Some(row)),
    };
    Tbl {
        def: TableModel {
            row_count: slots.len() as u64,
            next_auto_increment_id: next,
            ..t.def
        },
        slots,
    }
}

/// The slot that a row number names, where a table can have as many.
pub open spec fn slot_at(id: u64) -> Option<int> {
    if id < usize::MAX {
        Some(id as int)
    } else {
        None
    }
}

/// A table after the insertion of one row.
pub open spec fn inserted_at(
    t: Tbl,
    at: Option<int>,
    row: Seq<Datum>,
    skip_key: bool,
) -> Result<Tbl, Fault> {
    let full = numbered(
        t.def.columns,
        row,
        t.def.next_auto_increment_id,
        t.def.columns.len(),
    );
    match row_fault(t, full.0, skip_key, at) {
        Some(f) => Err(f),
        None => Ok(placed(t, at, full.0, full.1)),
    }
}

/// A table after the insertion of the first `n` rows in turn, with the error
/// that ended it.
pub open spec fn inserted(t: Tbl, rows: Seq<Seq<Datum>>, skip_key: bool, n: nat) -> (
    Tbl,
    Option<Fault>,
)
    decreases n,
{
    if n == 0 {
        (t, None)
    } else {
        let before = inserted(t, rows, skip_key, (n - 1) as nat);
        if before.1 is Some {
            before
        } else {
            match inserted_at(before.0, None, rows[n - 1], skip_key) {
                Ok(u) => (u, None),
                Err(f) => (before.0, Some(f)),
            }
        }
    }
}

/// The rows that columns of values hold: as many as the first column, with
/// NULL where another column is shorter.
pub open spec fn transposed(columns: Seq<Seq<Datum>>) -> Seq<Seq<Datum>> {
    Seq::new(
        if columns.len() == 0 {
            0
        } else {
            columns[0].len()
        },
        |i: int| Seq::new(columns.len(), |j: int| cell_of(columns[j], i)),
    )
}

/// The live rows among the first `n` slots, with their numbers.
pub open spec fn live(slots: Seq<Option<Seq<Datum>>>, n: nat) -> Seq<(u64, Seq<Datum>)>
    decreases n,
{
    if n == 0 {
        Seq::empty()
    } else {
        let before = live(slots, (n - 1) as nat);
        match slots[n - 1] {
            Some(r) => before.push(((n - 1) as u64, r)),
            None => before,
        }
    }
}

/// The given columns of a row.
pub open spec fn picked(row: Seq<Datum>, columns: Seq<usize>) -> Seq<Datum> {
    Seq::new(columns.len(), |j: int| cell_of(row, columns[j] as int))
}

/// The first live slot from `i` on that has the value in the column.
pub open spec fn holder(
    slots: Seq<Option<Seq<Datum>>>,
    column: int,
    d: Datum,
    i: int,
) -> Option<int>
    decreases slots.len() - i,
{
    if i < 0 || i >= slots.len() {
        None
    } else if slots[i] is Some && cell_of(slots[i]->0, column) == d {
        Some(i)
    } else {
        holder(slots, column, d, i + 1)
    }
}

/// The row with a primary key.
pub open spec fn keyed(t: Tbl, d: Datum) -> Option<int> {
    match pk_index(t.def.columns) {
        Some(c) => holder(t.slots, c, d, 0),
        None => None,
    }
}

/// Whether no two live rows share a primary key.
pub open spec fn keys_unique(t: Tbl) -> bool {
    pk_index(t.def.columns) matches Some(c) ==> forall|i: int, j: int|
        0 <= i < j < t.slots.len() && #[trigger] t.slots[i] is Some && #[trigger] t.slots[j] is Some
            && !(cell_of(t.slots[i]->0, c) is Null) ==> cell_of(t.slots[i]->0, c) != cell_of(
            t.slots[j]->0,
            c,
        )
}

/// An error, or what the model says went in.
pub open spec fn gives_fault(r: Option<EngramDbError>, m: Option<Fault>) -> bool {
    match r {
        Some(e) => m == Some(e.deep_view()),
        None => m is None,
    }
}

/// Whether a count, or the error, is what the model says.
pub open spec fn gives_count(r: Result<u64, EngramDbError>, n: int, m: Option<Fault>) -> bool {
    match r {
        Ok(k) => m is None && k == n,
        Err(e) => m == Some(e.deep_view()),
    }
}

/// An empty table.
pub open spec fn empty_table(def: TableModel) -> Tbl {
    Tbl { def: TableModel { row_count: 0, ..def }, slots: Seq::empty() }
}

/// A table after the update of a row. There is nothing to do for a row that is
/// not there.
pub open spec fn updated(t: Tbl, id: u64, row: Seq<Datum>) -> Result<Tbl, Fault> {
    if id < t.slots.len() && t.slots[id as int] is Some {
        match row_fault(t, row, false, Some(id as int)) {
            Some(f) => Err(f),
            None => Ok(Tbl { slots: t.slots.update(id as int, Some(row)), ..t }),
        }
    } else {
        Ok(t)
    }
}

/// A table after the deletion of a row.
pub open spec fn removed(t: Tbl, id: u64) -> Tbl {
    if id < t.slots.len() {
        Tbl { slots: t.slots.update(id as int, None), ..t }
    } else {
        t
    }
}

/// Whether a live row has the key of the unique index of that name.
pub open spec fn index_holds(t: Tbl, name: Seq<char>, d: Datum) -> bool {
    exists|k: int|
        0 <= k < t.def.indexes.len() && (#[trigger] t.def.indexes[k]).unique
            && t.def.indexes[k].name == name && t.def.indexes[k].key_columns.len() > 0 && taken(
            t.slots,
            t.def.indexes[k].key_columns[0] as int,
            d,
            None,
        )
}

/// The given columns of rows.
pub open spec fn picked_rows(rows: Seq<(u64, Seq<Datum>)>, columns: Seq<usize>) -> Seq<Seq<Datum>> {
    Seq::new(rows.len(), |i: int| picked(rows[i].1, columns))
}

/// Reads some columns of a row.
pub fn pick_cells(row: &Vec<Value>, columns: &Vec<usize>) -> (r: Vec<Value>)
    ensures
        r.deep_view() == picked(row.deep_view(), columns@),
{
    let mut out: Vec<Value> = Vec::new();
    let mut j: usize = 0;
    while j < columns.len()
        invariant
            j <= columns.len(),
            out.deep_view() == picked(row.deep_view(), columns@).subrange(0, j as int),
        decreases columns.len() - j,
    {
        let v = read_cell(row, columns[j]);
        let ghost before = out.deep_view();
        out.push(v);
        assert(out.deep_view() =~= before.push(v.deep_view()));
        j += 1;
        assert(out.deep_view() =~= picked(row.deep_view(), columns@).subrange(0, j as int));
    }
    assert(out.deep_view() =~= picked(row.deep_view(), columns@));
    out
}

/// The positions of the columns of a table.
pub fn all_columns(n: usize) -> (r: Vec<usize>)
    ensures
        r@ == Seq::new(n as nat, |i: int| i as usize),
{
    let mut out: Vec<usize> = Vec::new();
    let mut i: usize = 0;
    while i < n
        invariant
            i <= n,
            out@ == Seq::new(i as nat, |k: int| k as usize),
        decreases n - i,
    {
        out.push(i);
        i += 1;
        assert(out@ =~= Seq::new(i as nat, |k: int| k as usize));
    }
    out
}

/// Turns columns of values into rows.
pub fn transpose(columns: &Vec<Vec<Value>>) -> (r: Vec<Vec<Value>>)
    ensures
        r.deep_view() == transposed(columns.deep_view()),
{
    let ghost m = transposed(columns.deep_view());
    let mut out: Vec<Vec<Value>> = Vec::new();
    if columns.len() == 0 {
        assert(out.deep_view() =~= m);
        return out;
    }
    let n: usize = columns[0].len();
    assert(columns.deep_view()[0] == columns[0].deep_view());
    let mut i: usize = 0;
    while i < n
        invariant
            i <= n,
            m == transposed(columns.deep_view()),
            m.len() == n,
            out.deep_view() == m.subrange(0, i as int),
        decreases n - i,
    {
        let mut row: Vec<Value> = Vec::new();
        let mut j: usize = 0;
        while j < columns.len()
            invariant
                i < n,
                j <= columns.len(),
                m == transposed(columns.deep_view()),
                m.len() == n,
                row.deep_view() == m[i as int].subrange(0, j as int),
            decreases columns.len() - j,
        {
            let v = read_cell(&columns[j], i);
            assert(columns.deep_view()[j as int] == columns[j as int].deep_view());
            let ghost before = row.deep_view();
            row.push(v);
            assert(row.deep_view() =~= before.push(v.deep_view()));
            j += 1;
            assert(row.deep_view() =~= m[i as int].subrange(0, j as int));
        }
        assert(row.deep_view() =~= m[i as int]);
        let ghost before = out.deep_view();
        out.push(row);
        assert(out.deep_view() =~= before.push(row.deep_view()));
        i += 1;
        assert(out.deep_view() =~= m.subrange(0, i as int));
    }
    assert(out.deep_view() =~= m);
    out
}

impl Table {
    /// Whether the definition counts the slots.
    pub open spec fn wf(&self) -> bool {
        self.def.row_count == self.rows.len()
    }

    /// An empty table.
    pub fn new(def: TableDef) -> (r: Self)
        ensures
            r.wf(),
            r.deep_view() == empty_table(def.deep_view()),
    {
        let mut d = def;
        d.row_count = 0;
        let rows: Vec<Option<Vec<Value>>> = Vec::new();
        assert(rows.deep_view() =~= Seq::empty());
        Table { def: d, rows }
    }

    /// Whether a live row other than `except` has the value in the column.
    pub fn has_value(&self, column: usize, v: &Value, except: Option<usize>) -> (r: bool)
        ensures
            r == taken(self.deep_view().slots, column as int, v.deep_view(), pos(except)),
    {
        let ghost slots = self.deep_view().slots;
        let mut i: usize = 0;
        while i < self.rows.len()
            invariant
                slots == self.rows.deep_view(),
                i <= self.rows.len(),
                forall|k: int|
                    0 <= k < i && pos(except) != Some(k) && #[trigger] slots[k] is Some ==> cell_of(
                        slots[k]->0,
                        column as int,
                    ) != v.deep_view(),
            decreases self.rows.len() - i,
        {
            assert(slots[i as int] == self.rows[i as int].deep_view());
            let other: bool = match except {
                Some(e) => e != i,
                None => true,
            };
            if other {
                if let Some(row) = &self.rows[i] {
                    let c = read_cell(row, column);
                    if same_value(&c, v) {
                        return true;
                    }
                }
            }
            i += 1;
        }
        false
    }

    /// What the columns store of a row, and the next automatic number.
    pub fn fill_row(&self, row: &Vec<Value>) -> (r: (Vec<Value>, u64))
        ensures
            (r.0.deep_view(), r.1) == numbered(
                self.def.deep_view().columns,
                row.deep_view(),
                self.def.next_auto_increment_id,
                self.def.deep_view().columns.len(),
            ),
    {
        let ghost cols = self.def.deep_view().columns;
        let mut next: u64 = self.def.next_auto_increment_id;
        let mut out: Vec<Value> = Vec::new();
        let mut j: usize = 0;
        assert(out.deep_view() =~= Seq::empty());
        while j < self.def.columns.len()
            invariant
                j <= self.def.columns.len(),
                cols == self.def.columns.deep_view(),
                (out.deep_view(), next) == numbered(
                    cols,
                    row.deep_view(),
                    self.def.next_auto_increment_id,
                    j as nat,
                ),
            decreases self.def.columns.len() - j,
        {
            assert(cols[j as int] == self.def.columns[j as int].deep_view());
            let mut v = read_cell(row, j);
            let ghost d = v.deep_view();
            let ghost was = next;
            if self.def.columns[j].auto_increment {
                match &v {
                    Value::Null => {
                        let n: u64 = if next == 0 {
                            1
                        } else {
                            next
                        };
                        v = Value::Int64(n as i64);
                        next = n.wrapping_add(1);
                    },
                    Value::Int32(x) => {
                        if *x >= 0 && *x as u64 >= next {
                            next = (*x as u64) + 1;
                        }
                    },
                    Value::Int64(x) => {
                        if *x >= 0 && *x as u64 >= next && *x < i64::MAX {
                            next = (*x as u64) + 1;
                        }
                    },
                    Value::Timestamp(x) => {
                        if *x >= 0 && *x as u64 >= next && *x < i64::MAX {
                            next = (*x as u64) + 1;
                        }
                    },
                    _ => {},
                }
            }
            assert((v.deep_view(), next) == assigned(cols[j as int].auto_increment, d, was));
            let ghost before = out.deep_view();
            out.push(v);
            assert(out.deep_view() =~= before.push(v.deep_view()));
            j += 1;
        }
        (out, next)
    }

    /// What is wrong with a row, if anything is.
    pub fn check_row(&self, row: &Vec<Value>, skip_key: bool, except: Option<usize>) -> (r: Option<
        EngramDbError,
    >)
        ensures
            gives_fault(
                r,
                row_fault(self.deep_view(), row.deep_view(), skip_key, pos(except)),
            ),
    {
        let ghost t = self.deep_view();
        let ghost m = row_fault(t, row.deep_view(), skip_key, pos(except));
        let mut j: usize = 0;
        while j < self.def.columns.len()
            invariant
                t == self.deep_view(),
                j <= self.def.columns.len(),
                null_at(t.def.columns, row.deep_view(), 0) == null_at(
                    t.def.columns,
                    row.deep_view(),
                    j as int,
                ),
                m == row_fault(t, row.deep_view(), skip_key, pos(except)),
            decreases self.def.columns.len() - j,
        {
            assert(t.def.columns[j as int] == self.def.columns[j as int].deep_view());
            let null: bool = if j < row.len() {
                assert(row.deep_view()[j as int] == row[j as int].deep_view());
                row[j].is_null()
            } else {
                true
            };
            if !self.def.columns[j].nullable && null {
                let text = join2("NOT NULL constraint failed: ", self.def.columns[j].name.as_str());
                return Some(EngramDbError::ConstraintViolation(text));
            }
            j += 1;
        }
        if !skip_key {
            if let Some(c) = self.def.primary_key_index() {
                let v = read_cell(row, c);
                if !v.is_null() && self.has_value(c, &v, except) {
                    proof {
                        lemma_first_from(
                            t.def.columns,
                            |x: ColumnModel| x.is_primary_key,
                            0,
                        );
                    }
                    assert(t.def.columns[c as int] == self.def.columns[c as int].deep_view());
                    let text = join2("UNIQUE constraint failed: ", self.def.columns[c].name.as_str());
                    return Some(EngramDbError::ConstraintViolation(text));
                }
            }
        }
        assert(skip_key || !key_taken(t, row.deep_view(), pos(except)));
        let mut k: usize = 0;
        while k < self.def.indexes.len()
            invariant
                t == self.deep_view(),
                k <= self.def.indexes.len(),
                null_at(t.def.columns, row.deep_view(), 0) is None,
                skip_key || !key_taken(t, row.deep_view(), pos(except)),
                index_taken(t.def.indexes, t.slots, row.deep_view(), pos(except), 0)
                    == index_taken(
                    t.def.indexes,
                    t.slots,
                    row.deep_view(),
                    pos(except),
                    k as int,
                ),
                m == row_fault(t, row.deep_view(), skip_key, pos(except)),
            decreases self.def.indexes.len() - k,
        {
            assert(t.def.indexes[k as int] == self.def.indexes[k as int].deep_view());
            if self.def.indexes[k].unique && self.def.indexes[k].key_columns.len() > 0 {
                let c: usize = self.def.indexes[k].key_columns[0];
                let v = read_cell(row, c);
                if self.has_value(c, &v, except) {
                    let text = join3(
                        "UNIQUE constraint failed: index '",
                        self.def.indexes[k].name.as_str(),
                        "'",
                    );
                    return Some(EngramDbError::ConstraintViolation(text));
                }
            }
            k += 1;
        }
        None
    }

    /// Puts a row into a slot, or behind the last one.
    fn insert_at(&mut self, at: Option<usize>, row: &Vec<Value>, skip_key: bool) -> (r: Result<
        (),
        EngramDbError,
    >)
        requires
            old(self).wf(),
            at matches Some(i) ==> i < usize::MAX,
        ensures
            final(self).wf(),
            match (r, inserted_at(old(self).deep_view(), pos(at), row.deep_view(), skip_key)) {
                (Ok(_), Ok(t)) => final(self).deep_view() == t,
                (Err(e), Err(f)) => e.deep_view() == f && *final(self) == *old(self),
                _ => false,
            },
    {
        let ghost t = self.deep_view();
        let full = self.fill_row(row);
        if let Some(e) = self.check_row(&full.0, skip_key, at) {
            return Err(e);
        }
        let ghost f = full.0.deep_view();
        let ghost slots = self.rows.deep_view();
        match at {
            Some(i) => {
                assert(padded(slots, slots.len() as int) =~= slots);
                while self.rows.len() <= i
                    invariant
                        self.def == old(self).def,
                        slots == old(self).rows.deep_view(),
                        i < usize::MAX,
                        slots.len() <= self.rows.len(),
                        self.rows.len() <= i + 1 || self.rows.len() == slots.len(),
                        self.rows.deep_view() == padded(slots, self.rows.len() as int),
                    decreases i + 1 - self.rows.len(),
                {
                    let ghost before = self.rows.deep_view();
                    self.rows.push(None);
                    assert(self.rows.deep_view() =~= before.push(None));
                    assert(self.rows.deep_view() =~= padded(slots, self.rows.len() as int));
                }
                let ghost wide = self.rows.deep_view();
                assert(wide =~= padded(slots, i + 1));
                self.rows.set(i, Some(full.0));
                assert(self.rows.deep_view() =~= wide.update(i as int, Some(f)));
            },
            None => {
                self.rows.push(Some(full.0));
                assert(self.rows.deep_view() =~= slots.push(Some(f)));
            },
        }
        self.def.row_count = self.rows.len() as u64;
        self.def.next_auto_increment_id = full.1;
        assert(self.deep_view() =~= placed(t, pos(at), f, full.1));
        Ok(())
    }

    /// Puts a row into the slot of that number. Where the table has fewer
    /// slots, it gets empty ones up to there.
    pub fn insert_row_with_check(&mut self, row_id: u64, row: &Vec<Value>, skip_key: bool) -> (r:
        Result<(), EngramDbError>)
        requires
            old(self).wf(),
        ensures
            final(self).wf(),
            match (
                r,
                inserted_at(old(self).deep_view(), slot_at(row_id), row.deep_view(), skip_key),
            ) {
                (Ok(_), Ok(t)) => final(self).deep_view() == t,
                (Err(e), Err(f)) => e.deep_view() == f && *final(self) == *old(self),
                _ => false,
            },
    {
        let at: Option<usize> = if row_id < usize::MAX as u64 {
            Some(row_id as usize)
        } else {
            None
        };
        self.insert_at(at, row, skip_key)
    }

    /// Inserts rows behind the last slot, until one fails.
    pub fn insert_with_check(&mut self, rows: &Vec<Vec<Value>>, skip_key: bool) -> (r: Result<
        u64,
        EngramDbError,
    >)
        requires
            old(self).wf(),
        ensures
            final(self).wf(),
            ({
                let m = inserted(
                    old(self).deep_view(),
                    rows.deep_view(),
                    skip_key,
                    rows.deep_view().len(),
                );
                final(self).deep_view() == m.0 && gives_count(
                    r,
                    rows.deep_view().len() as int,
                    m.1,
                )
            }),
    {
        let ghost t = self.deep_view();
        let ghost all = rows.deep_view();
        let mut i: usize = 0;
        while i < rows.len()
            invariant
                self.wf(),
                t == old(self).deep_view(),
                all == rows.deep_view(),
                i <= rows.len(),
                inserted(t, all, skip_key, i as nat) == (self.deep_view(), None::<Fault>),
            decreases rows.len() - i,
        {
            assert(all[i as int] == rows[i as int].deep_view());
            match self.insert_at(None, &rows[i], skip_key) {
                Ok(_) => {},
                Err(e) => {
                    proof {
                        lemma_inserted_stops(t, all, skip_key, (i + 1) as nat, all.len());
                    }
                    return Err(e);
                },
            }
            i += 1;
        }
        Ok(rows.len() as u64)
    }

    /// Inserts rows.
    pub fn insert_rows(&mut self, rows: &Vec<Vec<Value>>) -> (r: Result<u64, EngramDbError>)
        requires
            old(self).wf(),
        ensures
            final(self).wf(),
            ({
                let m = inserted(
                    old(self).deep_view(),
                    rows.deep_view(),
                    false,
                    rows.deep_view().len(),
                );
                final(self).deep_view() == m.0 && gives_count(
                    r,
                    rows.deep_view().len() as int,
                    m.1,
                )
            }),
    {
        self.insert_with_check(rows, false)
    }

    /// Inserts the rows that columns of values hold.
    pub fn insert_columns_with_check(&mut self, columns: &Vec<Vec<Value>>, skip_key: bool) -> (r:
        Result<u64, EngramDbError>)
        requires
            old(self).wf(),
        ensures
            final(self).wf(),
            ({
                let rows = transposed(columns.deep_view());
                let m = inserted(old(self).deep_view(), rows, skip_key, rows.len());
                final(self).deep_view() == m.0 && gives_count(r, rows.len() as int, m.1)
            }),
    {
        let rows = transpose(columns);
        self.insert_with_check(&rows, skip_key)
    }

    /// Replaces a row.
    pub fn update_row(&mut self, row_id: u64, row: &Vec<Value>) -> (r: Result<(), EngramDbError>)
        requires
            old(self).wf(),
        ensures
            final(self).wf(),
            match (r, updated(old(self).deep_view(), row_id, row.deep_view())) {
                (Ok(_), Ok(t)) => final(self).deep_view() == t,
                (Err(e), Err(f)) => e.deep_view() == f && *final(self) == *old(self),
                _ => false,
            },
    {
        let ghost t = self.deep_view();
        if row_id >= self.rows.len() as u64 {
            return Ok(());
        }
        let i: usize = row_id as usize;
        assert(t.slots[i as int] == self.rows[i as int].deep_view());
        if self.rows[i].is_none() {
            return Ok(());
        }
        if let Some(e) = self.check_row(row, false, Some(i)) {
            return Err(e);
        }
        let copy = clone_row(row);
        self.rows.set(i, Some(copy));
        assert(self.rows.deep_view() =~= t.slots.update(i as int, Some(row.deep_view())));
        Ok(())
    }

    /// Deletes a row.
    pub fn delete_row(&mut self, row_id: u64)
        requires
            old(self).wf(),
        ensures
            final(self).wf(),
            final(self).deep_view() == removed(old(self).deep_view(), row_id),
    {
        let ghost t = self.deep_view();
        if row_id < self.rows.len() as u64 {
            self.rows.set(row_id as usize, None);
            assert(self.rows.deep_view() =~= t.slots.update(row_id as int, None));
        }
    }

    /// The number of the row with a primary key.
    pub fn lookup_primary_key(&self, key: &Value) -> (r: Option<u64>)
        requires
            self.wf(),
        ensures
            match (r, keyed(self.deep_view(), key.deep_view())) {
                (Some(i), Some(j)) => i == j,
                (None, None) => true,
                _ => false,
            },
    {
        let ghost slots = self.deep_view().slots;
        let c: usize = match self.def.primary_key_index() {
            Some(c) => c,
            None => {
                return None;
            },
        };
        let mut i: usize = 0;
        while i < self.rows.len()
            invariant
                self.wf(),
                slots == self.rows.deep_view(),
                i <= self.rows.len(),
                holder(slots, c as int, key.deep_view(), 0) == holder(
                    slots,
                    c as int,
                    key.deep_view(),
                    i as int,
                ),
                pk_index(self.deep_view().def.columns) == Some(c as int),
            decreases self.rows.len() - i,
        {
            assert(slots[i as int] == self.rows[i as int].deep_view());
            if let Some(row) = &self.rows[i] {
                let v = read_cell(row, c);
                if same_value(&v, key) {
                    return Some(i as u64);
                }
            }
            i += 1;
        }
        None
    }

    /// Whether a live row has the key of the unique index of that name.
    pub fn unique_index_contains(&self, name: &str, key: &Value) -> (r: bool)
        ensures
            r == index_holds(self.deep_view(), name@, key.deep_view()),
    {
        let ghost t = self.deep_view();
        let mut k: usize = 0;
        while k < self.def.indexes.len()
            invariant
                t == self.deep_view(),
                k <= self.def.indexes.len(),
                forall|n: int|
                    0 <= n < k ==> !((#[trigger] t.def.indexes[n]).unique && t.def.indexes[n].name
                        == name@ && t.def.indexes[n].key_columns.len() > 0 && taken(
                        t.slots,
                        t.def.indexes[n].key_columns[0] as int,
                        key.deep_view(),
                        None,
                    )),
            decreases self.def.indexes.len() - k,
        {
            assert(t.def.indexes[k as int] == self.def.indexes[k as int].deep_view());
            let d = &self.def.indexes[k];
            if d.unique && d.key_columns.len() > 0 && same_text(d.name.as_str(), name) {
                if self.has_value(d.key_columns[0], key, None) {
                    return true;
                }
            }
            k += 1;
        }
        false
    }

    /// The live rows with their numbers.
    pub fn collect_mutable_rows(&self) -> (r: Vec<(u64, Vec<Value>)>)
        requires
            self.wf(),
        ensures
            r.deep_view() == live(self.deep_view().slots, self.deep_view().slots.len()),
    {
        let ghost slots = self.deep_view().slots;
        let mut out: Vec<(u64, Vec<Value>)> = Vec::new();
        let mut i: usize = 0;
        assert(out.deep_view() =~= Seq::empty());
        while i < self.rows.len()
            invariant
                self.wf(),
                slots == self.rows.deep_view(),
                i <= self.rows.len(),
                out.deep_view() == live(slots, i as nat),
            decreases self.rows.len() - i,
        {
            assert(slots[i as int] == self.rows[i as int].deep_view());
            if let Some(row) = &self.rows[i] {
                let copy = clone_row(row);
                let ghost before = out.deep_view();
                out.push((i as u64, copy));
                assert(out.deep_view() =~= before.push((i as u64, row.deep_view())));
            }
            i += 1;
        }
        out
    }

    /// Some columns of the live rows.
    pub fn scan_to_rows_direct(&self, columns: &Vec<usize>) -> (r: Vec<Vec<Value>>)
        requires
            self.wf(),
        ensures
            r.deep_view() == picked_rows(
                live(self.deep_view().slots, self.deep_view().slots.len()),
                columns@,
            ),
    {
        let all = self.collect_mutable_rows();
        let ghost m = picked_rows(all.deep_view(), columns@);
        let mut out: Vec<Vec<Value>> = Vec::new();
        let mut i: usize = 0;
        while i < all.len()
            invariant
                i <= all.len(),
                m == picked_rows(all.deep_view(), columns@),
                out.deep_view() == m.subrange(0, i as int),
            decreases all.len() - i,
        {
            assert(all.deep_view()[i as int] == all[i as int].deep_view());
            let row = pick_cells(&all[i].1, columns);
            let ghost before = out.deep_view();
            out.push(row);
            assert(out.deep_view() =~= before.push(row.deep_view()));
            i += 1;
            assert(out.deep_view() =~= m.subrange(0, i as int));
        }
        assert(out.deep_view() =~= m);
        out
    }

    /// Removes all rows.
    pub fn truncate(&mut self)
        ensures
            final(self).wf(),
            final(self).deep_view() == empty_table(old(self).deep_view().def),
    {
        self.rows = Vec::new();
        self.def.row_count = 0;
        assert(self.rows.deep_view() =~= Seq::empty());
    }
}

/// An insertion that has failed stays as it is.
pub proof fn lemma_inserted_stops(t: Tbl, rows: Seq<Seq<Datum>>, skip_key: bool, k: nat, n: nat)
    requires
        k <= n,
        inserted(t, rows, skip_key, k).1 is Some,
    ensures
        inserted(t, rows, skip_key, n) == inserted(t, rows, skip_key, k),
    decreases n - k,
{
    if k < n {
        lemma_inserted_stops(t, rows, skip_key, k, (n - 1) as nat);
    }
}

/// The insertion of a row that is checked keeps the primary keys apart.
pub proof fn law_insert_keeps_keys(t: Tbl, at: Option<int>, row: Seq<Datum>)
    requires
        keys_unique(t),
        at matches Some(i) ==> 0 <= i,
    ensures
        inserted_at(t, at, row, false) matches Ok(u) ==> keys_unique(u),
{
    if let Ok(u) = inserted_at(t, at, row, false) {
        let full = numbered(t.def.columns, row, t.def.next_auto_increment_id, t.def.columns.len());
        if let Some(c) = pk_index(t.def.columns) {
            lemma_placed_keys(t, u.slots, at, full.0, c);
        }
    }
}

/// A row with a key of its own may take a slot.
proof fn lemma_placed_keys(
    t: Tbl,
    slots: Seq<Option<Seq<Datum>>>,
    at: Option<int>,
    row: Seq<Datum>,
    c: int,
)
    requires
        keys_unique(t),
        pk_index(t.def.columns) == Some(c),
        !key_taken(t, row, at),
        at matches Some(i) ==> 0 <= i && slots == padded(t.slots, i + 1).update(i, Some(row)),
        at is None ==> slots == t.slots.push(Some(row)),
    ensures
        forall|i: int, j: int|
            0 <= i < j < slots.len() && #[trigger] slots[i] is Some && #[trigger] slots[j] is Some
                && !(cell_of(slots[i]->0, c) is Null) ==> cell_of(slots[i]->0, c) != cell_of(
                slots[j]->0,
                c,
            ),
{
    assert forall|i: int, j: int|
        0 <= i < j < slots.len() && #[trigger] slots[i] is Some && #[trigger] slots[j] is Some && !(
        cell_of(slots[i]->0, c) is Null) implies cell_of(slots[i]->0, c) != cell_of(
        slots[j]->0,
        c,
    ) by {
        let k = match at {
            Some(k) => k,
            None => t.slots.len() as int,
        };
        if i != k {
            assert(t.slots[i] == slots[i]);
        }
        if j != k {
            assert(t.slots[j] == slots[j]);
        }
    }
}

/// The update of a row keeps the primary keys apart.
pub proof fn law_update_keeps_keys(t: Tbl, id: u64, row: Seq<Datum>)
    requires
        keys_unique(t),
    ensures
        updated(t, id, row) matches Ok(u) ==> keys_unique(u),
{
    if id < t.slots.len() && t.slots[id as int] is Some {
        if let Ok(u) = updated(t, id, row) {
            if let Some(c) = pk_index(t.def.columns) {
                lemma_placed_keys(t, u.slots, Some(id as int), row, c);
            }
        }
    }
}

/// The deletion of a row keeps the primary keys apart.
pub proof fn law_delete_keeps_keys(t: Tbl, id: u64)
    requires
        keys_unique(t),
    ensures
        keys_unique(removed(t, id)),
{
    let u = removed(t, id);
    if let Some(c) = pk_index(t.def.columns) {
        assert forall|i: int, j: int|
            0 <= i < j < u.slots.len() && #[trigger] u.slots[i] is Some && #[trigger] u.slots[j] is Some
                && !(cell_of(u.slots[i]->0, c) is Null) implies cell_of(u.slots[i]->0, c)
            != cell_of(u.slots[j]->0, c) by {
            assert(t.slots[i] == u.slots[i]);
            assert(t.slots[j] == u.slots[j]);
        }
    }
}

/// The live rows depend on the slots that are read.
pub proof fn lemma_live_same(a: Seq<Option<Seq<Datum>>>, b: Seq<Option<Seq<Datum>>>, n: nat)
    requires
        n <= a.len(),
        n <= b.len(),
        forall|i: int| 0 <= i < n ==> a[i] == b[i],
    ensures
        live(a, n) == live(b, n),
    decreases n,
{
    if n > 0 {
        lemma_live_same(a, b, (n - 1) as nat);
    }
}

/// A new row stands behind the rows that were there, as its columns store it.
pub proof fn law_insert_appends(t: Tbl, row: Seq<Datum>, skip_key: bool)
    ensures
        inserted_at(t, None, row, skip_key) matches Ok(u) ==> live(u.slots, u.slots.len()) == live(
            t.slots,
            t.slots.len(),
        ).push(
            (
                t.slots.len() as u64,
                numbered(
                    t.def.columns,
                    row,
                    t.def.next_auto_increment_id,
                    t.def.columns.len(),
                ).0,
            ),
        ),
{
    if let Ok(u) = inserted_at(t, None, row, skip_key) {
        lemma_live_same(t.slots, u.slots, t.slots.len());
    }
}

/// The row that is found by a primary key is live and has it, and a key that
/// a live row has is found.
pub proof fn law_key_is_found(t: Tbl, d: Datum)
    ensures
        match (keyed(t, d), pk_index(t.def.columns)) {
            (Some(i), Some(c)) => 0 <= i < t.slots.len() && t.slots[i] is Some && cell_of(
                t.slots[i]->0,
                c,
            ) == d,
            (None, Some(c)) => !taken(t.slots, c, d, None),
            (found, None) => found is None,
        },
{
    if let Some(c) = pk_index(t.def.columns) {
        lemma_holder(t.slots, c, d, 0);
    }
}

/// The search finds the first slot with the value.
proof fn lemma_holder(slots: Seq<Option<Seq<Datum>>>, c: int, d: Datum, i: int)
    requires
        0 <= i,
    ensures
        match holder(slots, c, d, i) {
            Some(k) => i <= k < slots.len() && slots[k] is Some && cell_of(slots[k]->0, c) == d,
            None => forall|k: int|
                i <= k < slots.len() && #[trigger] slots[k] is Some ==> cell_of(slots[k]->0, c)
                    != d,
        },
    decreases slots.len() - i,
{
    if i < slots.len() {
        lemma_holder(slots, c, d, i + 1);
    }
}

} // verus!
