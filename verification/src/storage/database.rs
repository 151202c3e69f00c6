//! A database: its tables, its transactions, and the rows that wait to be
//! written together.
use vstd::prelude::*;

use crate::common::config::{usual_config, Config, WalFlushMode};
use crate::common::error::{EngramDbError, Fault};
use crate::common::types::{
    copy_positions, pk_index, pos, IndexDef, IndexModel, TableDef, TableModel,
};
use crate::storage::table::{
    empty_table, gives_fault, index_fault, key_fault, numbered, row_fault, Table, Tbl,
};
use crate::storage::txn::{no_txns, TxnManager, Txns};
use crate::text::{join2, join3, same_text};
use crate::value::{clone_rows, same_value, Datum};
use crate::Value;

verus! {

/// How vectors are compared by a vector index.
#[derive(Debug, Clone, Copy, PartialEq, Eq, Structural)]
pub enum DistanceMetric {
    L2,
    Cosine,
    InnerProduct,
}

/// A vector index of a column.
#[derive(Debug)]
pub struct VectorIndexDef {
    pub table_name: String,
    pub index_name: String,
    pub column_name: String,
    pub metric: DistanceMetric,
    pub m: usize,
    pub ef_construction: usize,
}

/// The model of a [`VectorIndexDef`].
#[verifier::ext_equal]
pub struct VectorIndexModel {
    pub table_name: Seq<char>,
    pub index_name: Seq<char>,
    pub column_name: Seq<char>,
    pub metric: DistanceMetric,
    pub m: usize,
    pub ef_construction: usize,
}

impl DeepView for VectorIndexDef {
    type V = VectorIndexModel;

    open spec fn deep_view(&self) -> VectorIndexModel {
        VectorIndexModel {
            table_name: self.table_name@,
            index_name: self.index_name@,
            column_name: self.column_name@,
            metric: self.metric,
            m: self.m,
            ef_construction: self.ef_construction,
        }
    }
}

/// Rows that wait to be written to a table.
#[derive(Debug)]
pub struct Pending {
    pub table: String,
    pub rows: Vec<Vec<Value>>,
}

impl DeepView for Pending {
    type V = (Seq<char>, Seq<Seq<Datum>>);

    open spec fn deep_view(&self) -> (Seq<char>, Seq<Seq<Datum>>) {
        (self.table@, self.rows.deep_view())
    }
}

/// A database. The number of a table is its place.
#[derive(Debug)]
pub struct Database {
    pub config: Config,
    pub path: String,
    pub tables: Vec<Table>,
    pub txns: TxnManager,
    /// The transaction that a client has opened.
    pub current: Option<u64>,
    /// Single inserts that are collected into batches.
    pub batch: Vec<Pending>,
    /// Inserts of the open transaction that are collected.
    pub buffer: Vec<Pending>,
    pub cache_bytes: usize,
    pub vector_indexes: Vec<VectorIndexDef>,
    /// The tables of which statistics were taken.
    pub analyzed: Vec<String>,
}

/// The model of a [`Database`].
#[verifier::ext_equal]
pub struct Db {
    pub config: Config,
    pub path: Seq<char>,
    pub tables: Seq<Tbl>,
    pub txns: Txns,
    pub current: Option<u64>,
    pub batch: Seq<(Seq<char>, Seq<Seq<Datum>>)>,
    pub buffer: Seq<(Seq<char>, Seq<Seq<Datum>>)>,
    pub cache_bytes: usize,
    pub vector_indexes: Seq<VectorIndexModel>,
    pub analyzed: Seq<Seq<char>>,
}

impl DeepView for Database {
    type V = Db;

    open spec fn deep_view(&self) -> Db {
        Db {
            config: self.config,
            path: self.path@,
            tables: self.tables.deep_view(),
            txns: self.txns.deep_view(),
            current: self.current,
            batch: self.batch.deep_view(),
            buffer: self.buffer.deep_view(),
            cache_bytes: self.cache_bytes,
            vector_indexes: self.vector_indexes.deep_view(),
            analyzed: self.analyzed.deep_view(),
        }
    }
}

/// The first table from `i` on of that name.
pub open spec fn named_from(tables: Seq<Tbl>, name: Seq<char>, i: int) -> Option<int>
    decreases tables.len() - i,
{
    if i < 0 || i >= tables.len() {
        None
    } else if tables[i].def.name == name {
        Some(i)
    } else {
        named_from(tables, name, i + 1)
    }
}

/// The table of that name.
pub open spec fn named(d: Db, name: Seq<char>) -> Option<int> {
    named_from(d.tables, name, 0)
}

/// A table by its name.
pub open spec fn table_of(d: Db, name: Seq<char>) -> Option<Tbl> {
    match named(d, name) {
        Some(k) => Some(d.tables[k]),
        None => None,
    }
}

/// The database with another table in a place.
pub open spec fn with_table(d: Db, k: int, t: Tbl) -> Db {
    Db { tables: d.tables.update(k, t), ..d }
}

/// The memory that a new database caches blocks in, in bytes.
pub const CACHE_BYTES: usize = 67_108_864;

/// A database without tables.
pub open spec fn empty_db(config: Config, path: Seq<char>) -> Db {
    Db {
        config,
        path,
        tables: Seq::empty(),
        txns: no_txns(true),
        current: None,
        batch: Seq::empty(),
        buffer: Seq::empty(),
        cache_bytes: CACHE_BYTES,
        vector_indexes: Seq::empty(),
        analyzed: Seq::empty(),
    }
}

/// The error about a table that is there already.
pub open spec fn table_exists(name: Seq<char>) -> Fault {
    Fault::ConstraintViolation("Table '"@ + name + "' already exists"@)
}

/// A database with a new table.
pub open spec fn with_new_table(d: Db, def: TableModel) -> Result<Db, Fault> {
    if named(d, def.name) is Some {
        Err(table_exists(def.name))
    } else {
        Ok(
            Db {
                tables: d.tables.push(
                    empty_table(TableModel { id: d.tables.len() as u32, ..def }),
                ),
                ..d
            },
        )
    }
}

/// A database with a table under another name.
pub open spec fn renamed(d: Db, old_name: Seq<char>, new_name: Seq<char>) -> Result<Db, Fault> {
    match named(d, old_name) {
        Some(k) => if named(d, new_name) is Some {
            Err(table_exists(new_name))
        } else {
            Ok(
                with_table(
                    d,
                    k,
                    Tbl { def: TableModel { name: new_name, ..d.tables[k].def }, ..d.tables[k] },
                ),
            )
        },
        None => Err(Fault::TableNotFound(old_name)),
    }
}

/// The first index from `i` on of that name.
pub open spec fn index_from(indexes: Seq<IndexModel>, name: Seq<char>, i: int) -> Option<int>
    decreases indexes.len() - i,
{
    if i < 0 || i >= indexes.len() {
        None
    } else if indexes[i].name == name {
        Some(i)
    } else {
        index_from(indexes, name, i + 1)
    }
}

/// A database with a new index.
pub open spec fn with_index(d: Db, table: Seq<char>, index: IndexModel) -> Result<Db, Fault> {
    match named(d, table) {
        Some(k) => if index_from(d.tables[k].def.indexes, index.name, 0) is Some {
            Err(Fault::ConstraintViolation("Index '"@ + index.name + "' already exists"@))
        } else {
            Ok(
                with_table(
                    d,
                    k,
                    Tbl {
                        def: TableModel {
                            indexes: d.tables[k].def.indexes.push(index),
                            ..d.tables[k].def
                        },
                        ..d.tables[k]
                    },
                ),
            )
        },
        None => Err(Fault::TableNotFound(table)),
    }
}

/// The first of the waiting rows from `i` on for a table.
pub open spec fn pending_from(
    p: Seq<(Seq<char>, Seq<Seq<Datum>>)>,
    name: Seq<char>,
    i: int,
) -> Option<int>
    decreases p.len() - i,
{
    if i < 0 || i >= p.len() {
        None
    } else if p[i].0 == name {
        Some(i)
    } else {
        pending_from(p, name, i + 1)
    }
}

/// The rows that wait for a table.
pub open spec fn waiting(p: Seq<(Seq<char>, Seq<Seq<Datum>>)>, name: Seq<char>) -> Seq<
    Seq<Datum>,
> {
    match pending_from(p, name, 0) {
        Some(k) => p[k].1,
        None => Seq::empty(),
    }
}

/// The waiting rows with more rows for a table.
pub open spec fn queued(
    p: Seq<(Seq<char>, Seq<Seq<Datum>>)>,
    name: Seq<char>,
    rows: Seq<Seq<Datum>>,
) -> Seq<(Seq<char>, Seq<Seq<Datum>>)> {
    match pending_from(p, name, 0) {
        Some(k) => p.update(k, (name, p[k].1 + rows)),
        None => p.push((name, rows)),
    }
}

/// The waiting rows without those of a table.
pub open spec fn unqueued(p: Seq<(Seq<char>, Seq<Seq<Datum>>)>, name: Seq<char>) -> Seq<
    (Seq<char>, Seq<Seq<Datum>>),
> {
    match pending_from(p, name, 0) {
        Some(k) => p.remove(k),
        None => p,
    }
}

/// The number of rows in the first `n` entries.
pub open spec fn waiting_rows(p: Seq<(Seq<char>, Seq<Seq<Datum>>)>, n: nat) -> nat
    decreases n,
{
    if n == 0 {
        0
    } else {
        waiting_rows(p, (n - 1) as nat) + p[n - 1].1.len()
    }
}

/// Whether one of the rows has the value in the column.
pub open spec fn among(rows: Seq<Seq<Datum>>, column: int, d: Datum) -> bool {
    exists|i: int|
        0 <= i < rows.len() && column < (#[trigger] rows[i]).len() && rows[i][column] == d
}

/// The first index from `k` on whose key a row shares with one before it.
pub open spec fn repeats_from(
    before: Seq<Seq<Datum>>,
    row: Seq<Datum>,
    uniques: Seq<(Seq<char>, usize)>,
    k: int,
) -> Option<int>
    decreases uniques.len() - k,
{
    if k < 0 || k >= uniques.len() {
        None
    } else if uniques[k].1 < row.len() && among(
        before,
        uniques[k].1 as int,
        row[uniques[k].1 as int],
    ) {
        Some(k)
    } else {
        repeats_from(before, row, uniques, k + 1)
    }
}

/// What is wrong with a row beside the rows before it.
pub open spec fn repeat_fault(
    before: Seq<Seq<Datum>>,
    row: Seq<Datum>,
    key: Option<int>,
    uniques: Seq<(Seq<char>, usize)>,
) -> Option<Fault> {
    if key matches Some(c) && c < row.len() && !(row[c] is Null) && among(before, c, row[c]) {
        Some(key_fault("primary key"@))
    } else {
        match repeats_from(before, row, uniques, 0) {
            Some(k) => Some(index_fault(uniques[k].0)),
            None => None,
        }
    }
}

/// What is wrong first with the rows from `i` on behind the waiting ones.
pub open spec fn clash(
    held: Seq<Seq<Datum>>,
    rows: Seq<Seq<Datum>>,
    key: Option<int>,
    uniques: Seq<(Seq<char>, usize)>,
    i: int,
) -> Option<Fault>
    decreases rows.len() - i,
{
    if i < 0 || i >= rows.len() {
        None
    } else {
        match repeat_fault(held + rows.subrange(0, i), rows[i], key, uniques) {
            Some(f) => Some(f),
            None => clash(held, rows, key, uniques, i + 1),
        }
    }
}

/// What is wrong first with the rows from `i` on beside the rows of a table.
pub open spec fn stored_fault(t: Tbl, rows: Seq<Seq<Datum>>, i: int) -> Option<Fault>
    decreases rows.len() - i,
{
    if i < 0 || i >= rows.len() {
        None
    } else {
        match row_fault(
            t,
            numbered(
                t.def.columns,
                rows[i],
                t.def.next_auto_increment_id,
                t.def.columns.len(),
            ).0,
            false,
            None,
        ) {
            Some(f) => Some(f),
            None => stored_fault(t, rows, i + 1),
        }
    }
}

/// What is wrong with rows beside the rows of the table of that name.
pub open spec fn validated(d: Db, name: Seq<char>, rows: Seq<Seq<Datum>>) -> Option<Fault> {
    match table_of(d, name) {
        Some(t) => stored_fault(t, rows, 0),
        None => Some(Fault::TableNotFound(name)),
    }
}

/// The names and first columns of the unique indexes from `i` on.
pub open spec fn uniques_from(indexes: Seq<IndexModel>, i: int) -> Seq<(Seq<char>, usize)>
    decreases indexes.len() - i,
{
    if i < 0 || i >= indexes.len() {
        Seq::empty()
    } else if indexes[i].unique && indexes[i].key_columns.len() > 0 {
        seq![(indexes[i].name, indexes[i].key_columns[0])] + uniques_from(indexes, i + 1)
    } else {
        uniques_from(indexes, i + 1)
    }
}

/// The database with rows put into a batch, and whether the batch is full.
pub open spec fn batched(d: Db, name: Seq<char>, rows: Seq<Seq<Datum>>) -> Result<
    (Db, bool),
    Fault,
> {
    let def = table_of(d, name)->0.def;
    match clash(
        waiting(d.batch, name),
        rows,
        pk_index(def.columns),
        uniques_from(def.indexes, 0),
        0,
    ) {
        Some(f) => Err(f),
        None => {
            let batch = queued(d.batch, name, rows);
            Ok((Db { batch, ..d }, waiting(batch, name).len() >= d.config.insert_batch_rows))
        },
    }
}

/// The database with rows put into the buffer of the open transaction, and
/// whether the buffer is full.
pub open spec fn buffered(d: Db, name: Seq<char>, rows: Seq<Seq<Datum>>) -> Result<
    (Db, bool),
    Fault,
> {
    match validated(d, name, rows) {
        Some(f) => Err(f),
        None => {
            let def = table_of(d, name)->0.def;
            match clash(
                waiting(d.buffer, name),
                rows,
                pk_index(def.columns),
                uniques_from(def.indexes, 0),
                0,
            ) {
                Some(f) => Err(f),
                None => {
                    let buffer = queued(d.buffer, name, rows);
                    Ok(
                        (
                            Db { buffer, ..d },
                            waiting_rows(buffer, buffer.len()) >= d.config.txn_batch_rows,
                        ),
                    )
                },
            }
        },
    }
}

/// Whether the outcome of a change is what the model says.
pub open spec fn turned(
    r: Result<(), EngramDbError>,
    before: Db,
    after: Db,
    m: Result<Db, Fault>,
) -> bool {
    match (r, m) {
        (Ok(_), Ok(d)) => after == d,
        (Err(e), Err(f)) => e.deep_view() == f && after == before,
        _ => false,
    }
}

/// Whether one of the rows has the value in the column.
pub fn has_among(rows: &Vec<Vec<Value>>, upto: usize, column: usize, v: &Value) -> (r: bool)
    requires
        upto <= rows.len(),
    ensures
        r == among(rows.deep_view().subrange(0, upto as int), column as int, v.deep_view()),
{
    let ghost all = rows.deep_view().subrange(0, upto as int);
    let mut i: usize = 0;
    while i < upto
        invariant
            i <= upto <= rows.len(),
            all == rows.deep_view().subrange(0, upto as int),
            forall|k: int|
                0 <= k < i ==> !(column < (#[trigger] all[k]).len() && all[k][column as int]
                    == v.deep_view()),
        decreases upto - i,
    {
        assert(all[i as int] == rows[i as int].deep_view());
        if column < rows[i].len() {
            assert(all[i as int][column as int] == rows[i as int][column as int].deep_view());
            if same_value(&rows[i][column], v) {
                return true;
            }
        }
        i += 1;
    }
    false
}

/// Among two lists of rows is among the one or the other.
proof fn lemma_among_both(a: Seq<Seq<Datum>>, b: Seq<Seq<Datum>>, c: int, d: Datum)
    ensures
        among(a + b, c, d) == (among(a, c, d) || among(b, c, d)),
{
    if among(a, c, d) {
        let i = choose|i: int| 0 <= i < a.len() && c < (#[trigger] a[i]).len() && a[i][c] == d;
        assert((a + b)[i] == a[i]);
    }
    if among(b, c, d) {
        let i = choose|i: int| 0 <= i < b.len() && c < (#[trigger] b[i]).len() && b[i][c] == d;
        assert((a + b)[a.len() + i] == b[i]);
    }
    if among(a + b, c, d) {
        let i = choose|i: int|
            0 <= i < (a + b).len() && c < (#[trigger] (a + b)[i]).len() && (a + b)[i][c] == d;
        if i < a.len() {
            assert((a + b)[i] == a[i]);
        } else {
            assert((a + b)[i] == b[i - a.len()]);
        }
    }
}

/// What is wrong with rows beside the waiting ones and one another.
pub fn check_clash(
    held: &Vec<Vec<Value>>,
    rows: &Vec<Vec<Value>>,
    key: Option<usize>,
    uniques: &Vec<(String, usize)>,
) -> (r: Option<EngramDbError>)
    ensures
        gives_fault(
            r,
            clash(
                held.deep_view(),
                rows.deep_view(),
                pos(key),
                uniques.deep_view(),
                0,
            ),
        ),
{
    let ghost h = held.deep_view();
    let ghost all = rows.deep_view();
    let ghost u = uniques.deep_view();
    let mut i: usize = 0;
    while i < rows.len()
        invariant
            i <= rows.len(),
            h == held.deep_view(),
            all == rows.deep_view(),
            u == uniques.deep_view(),
            clash(h, all, pos(key), u, 0) == clash(h, all, pos(key), u, i as int),
        decreases rows.len() - i,
    {
        let ghost before = h + all.subrange(0, i as int);
        assert(all[i as int] == rows[i as int].deep_view());
        assert(h.subrange(0, h.len() as int) =~= h);
        if let Some(c) = key {
            if c < rows[i].len() {
                assert(all[i as int][c as int] == rows[i as int][c as int].deep_view());
                let v = &rows[i][c];
                proof {
                    lemma_among_both(h, all.subrange(0, i as int), c as int, v.deep_view());
                }
                if !v.is_null() && (has_among(held, held.len(), c, v) || has_among(rows, i, c, v)) {
                    let text = join2("UNIQUE constraint failed: ", "primary key");
                    return Some(EngramDbError::ConstraintViolation(text));
                }
            }
        }
        let mut k: usize = 0;
        while k < uniques.len()
            invariant
                i < rows.len(),
                k <= uniques.len(),
                h == held.deep_view(),
                h.subrange(0, h.len() as int) == h,
                all == rows.deep_view(),
                all[i as int] == rows[i as int].deep_view(),
                u == uniques.deep_view(),
                before == h + all.subrange(0, i as int),
                clash(h, all, pos(key), u, 0) == clash(h, all, pos(key), u, i as int),
                !(pos(key) matches Some(c) && c < all[i as int].len() && !(all[i as int][c] is Null)
                    && among(before, c, all[i as int][c])),
                repeats_from(before, all[i as int], u, 0) == repeats_from(
                    before,
                    all[i as int],
                    u,
                    k as int,
                ),
            decreases uniques.len() - k,
        {
            assert(u[k as int] == uniques[k as int].deep_view());
            let c: usize = uniques[k].1;
            if c < rows[i].len() {
                assert(all[i as int][c as int] == rows[i as int][c as int].deep_view());
                let v = &rows[i][c];
                proof {
                    lemma_among_both(h, all.subrange(0, i as int), c as int, v.deep_view());
                }
                if has_among(held, held.len(), c, v) || has_among(rows, i, c, v) {
                    let text = join3(
                        "UNIQUE constraint failed: index '",
                        uniques[k].0.as_str(),
                        "'",
                    );
                    return Some(EngramDbError::ConstraintViolation(text));
                }
            }
            k += 1;
        }
        i += 1;
    }
    None
}

/// The names and first columns of the unique indexes.
pub fn unique_keys(indexes: &Vec<IndexDef>) -> (r: Vec<(String, usize)>)
    ensures
        r.deep_view() == uniques_from(indexes.deep_view(), 0),
{
    let ghost all = indexes.deep_view();
    let ghost m = uniques_from(all, 0);
    let mut out: Vec<(String, usize)> = Vec::new();
    let mut i: usize = 0;
    assert(out.deep_view() + m =~= m);
    while i < indexes.len()
        invariant
            i <= indexes.len(),
            all == indexes.deep_view(),
            m == uniques_from(all, 0),
            out.deep_view() + uniques_from(all, i as int) == m,
        decreases indexes.len() - i,
    {
        assert(all[i as int] == indexes[i as int].deep_view());
        let ghost before = out.deep_view();
        if indexes[i].unique && indexes[i].key_columns.len() > 0 {
            let name = indexes[i].name.clone();
            let c: usize = indexes[i].key_columns[0];
            out.push((name, c));
            assert(out.deep_view() =~= before.push((name@, c)));
            assert(out.deep_view() + uniques_from(all, i + 1) =~= before + uniques_from(
                all,
                i as int,
            ));
        }
        i += 1;
    }
    assert(out.deep_view() =~= m);
    out
}

/// The place of the rows that wait for a table.
fn find_pending(p: &Vec<Pending>, name: &str) -> (r: Option<usize>)
    ensures
        match (r, pending_from(p.deep_view(), name@, 0)) {
            (Some(i), Some(k)) => i == k && i < p.len(),
            (None, None) => true,
            _ => false,
        },
{
    let ghost all = p.deep_view();
    let mut i: usize = 0;
    while i < p.len()
        invariant
            i <= p.len(),
            all == p.deep_view(),
            pending_from(all, name@, 0) == pending_from(all, name@, i as int),
        decreases p.len() - i,
    {
        assert(all[i as int] == p[i as int].deep_view());
        if same_text(p[i].table.as_str(), name) {
            return Some(i);
        }
        i += 1;
    }
    None
}

/// A copy of the rows that wait for a table.
fn waiting_copy(p: &Vec<Pending>, name: &str) -> (r: Vec<Vec<Value>>)
    ensures
        r.deep_view() == waiting(p.deep_view(), name@),
{
    match find_pending(p, name) {
        Some(k) => {
            assert(p.deep_view()[k as int] == p[k as int].deep_view());
            clone_rows(&p[k].rows)
        },
        None => {
            let rows: Vec<Vec<Value>> = Vec::new();
            assert(rows.deep_view() =~= Seq::empty());
            rows
        },
    }
}

/// Adds rows to those that wait for a table.
fn enqueue(p: &mut Vec<Pending>, name: &str, rows: Vec<Vec<Value>>)
    ensures
        final(p).deep_view() == queued(old(p).deep_view(), name@, rows.deep_view()),
{
    let ghost was = p.deep_view();
    let ghost new = rows.deep_view();
    let mut rows = rows;
    match find_pending(p, name) {
        Some(k) => {
            assert(was[k as int] == p[k as int].deep_view());
            proof {
                lemma_pending_named(was, name@, 0);
            }
            let mut x = Pending { table: name.to_owned(), rows: Vec::new() };
            let ghost before = p[k as int];
            std::mem::swap(&mut x, &mut p[k]);
            let ghost (a, b) = (x.rows@, rows@);
            x.rows.append(&mut rows);
            assert(x.rows@ == a + b);
            assert(x.rows.deep_view() =~= before.rows.deep_view() + new);
            let ghost y = x.deep_view();
            p.set(k, x);
            assert(p.deep_view() =~= was.update(k as int, y));
        },
        None => {
            p.push(Pending { table: name.to_owned(), rows });
            assert(p.deep_view() =~= was.push((name@, new)));
        },
    }
}

/// The entry that is found is that of the table.
pub proof fn lemma_pending_named(
    p: Seq<(Seq<char>, Seq<Seq<Datum>>)>,
    name: Seq<char>,
    i: int,
)
    requires
        0 <= i,
    ensures
        match pending_from(p, name, i) {
            Some(k) => i <= k < p.len() && p[k].0 == name,
            None => forall|k: int| i <= k < p.len() ==> (#[trigger] p[k]).0 != name,
        },
    decreases p.len() - i,
{
    if i < p.len() {
        lemma_pending_named(p, name, i + 1);
    }
}

/// More entries hold no fewer rows.
proof fn lemma_waiting_grows(p: Seq<(Seq<char>, Seq<Seq<Datum>>)>, i: nat, n: nat)
    requires
        i <= n,
    ensures
        waiting_rows(p, i) <= waiting_rows(p, n),
    decreases n - i,
{
    if i < n {
        lemma_waiting_grows(p, i, (n - 1) as nat);
    }
}

/// Whether at least `bound` rows wait.
fn waiting_at_least(p: &Vec<Pending>, bound: usize) -> (r: bool)
    ensures
        r == (waiting_rows(p.deep_view(), p.deep_view().len()) >= bound),
{
    let ghost all = p.deep_view();
    let mut need: usize = bound;
    let mut i: usize = 0;
    while i < p.len()
        invariant
            i <= p.len(),
            all == p.deep_view(),
            need == bound - waiting_rows(all, i as nat),
        decreases p.len() - i,
    {
        assert(all[i as int] == p[i as int].deep_view());
        let n: usize = p[i].rows.len();
        if need <= n {
            proof {
                lemma_waiting_grows(all, (i + 1) as nat, all.len());
            }
            return true;
        }
        need -= n;
        i += 1;
    }
    need == 0
}

/// The table that is found has the name.
pub proof fn lemma_named(tables: Seq<Tbl>, name: Seq<char>, i: int)
    requires
        0 <= i,
    ensures
        match named_from(tables, name, i) {
            Some(k) => i <= k < tables.len() && tables[k].def.name == name,
            None => forall|k: int| i <= k < tables.len() ==> (#[trigger] tables[k]).def.name != name,
        },
    decreases tables.len() - i,
{
    if i < tables.len() {
        lemma_named(tables, name, i + 1);
    }
}

impl Database {
    /// Whether all tables are well formed.
    pub open spec fn wf(&self) -> bool {
        forall|k: int| 0 <= k < self.tables.len() ==> (#[trigger] self.tables[k]).wf()
    }

    /// A database without tables.
    pub fn open_with_config(path: &str, config: Config) -> (r: Self)
        ensures
            r.wf(),
            r.deep_view() == empty_db(config, path@),
    {
        let r = Database {
            config,
            path: path.to_owned(),
            tables: Vec::new(),
            txns: TxnManager::new(),
            current: None,
            batch: Vec::new(),
            buffer: Vec::new(),
            cache_bytes: CACHE_BYTES,
            vector_indexes: Vec::new(),
            analyzed: Vec::new(),
        };
        assert(r.deep_view() =~= empty_db(config, path@));
        r
    }

    /// A database without tables, with the usual configuration.
    pub fn open(path: &str) -> (r: Self)
        ensures
            r.wf(),
            r.deep_view() == empty_db(usual_config(), path@),
    {
        Database::open_with_config(path, Config::default())
    }

    /// The place of a table.
    pub fn find_table(&self, name: &str) -> (r: Option<usize>)
        ensures
            pos(r) == named(self.deep_view(), name@),
            r matches Some(k) ==> k < self.tables.len() && self.deep_view().tables[k as int]
                == self.tables[k as int].deep_view(),
    {
        let ghost all = self.deep_view().tables;
        let mut i: usize = 0;
        while i < self.tables.len()
            invariant
                i <= self.tables.len(),
                all == self.tables.deep_view(),
                named(self.deep_view(), name@) == named_from(all, name@, i as int),
            decreases self.tables.len() - i,
        {
            assert(all[i as int] == self.tables[i as int].deep_view());
            if same_text(self.tables[i].def.name.as_str(), name) {
                return Some(i);
            }
            i += 1;
        }
        None
    }

    /// A table by its name.
    pub fn get_table(&self, name: &str) -> (r: Option<&Table>)
        requires
            self.wf(),
        ensures
            match (r, table_of(self.deep_view(), name@)) {
                (Some(t), Some(m)) => t.wf() && t.deep_view() == m,
                (None, None) => true,
                _ => false,
            },
    {
        match self.find_table(name) {
            Some(k) => Some(&self.tables[k]),
            None => None,
        }
    }

    /// Puts another table in a place.
    pub fn put_table(&mut self, k: usize, t: Table)
        requires
            old(self).wf(),
            k < old(self).tables.len(),
            t.wf(),
        ensures
            final(self).wf(),
            final(self).deep_view() == with_table(old(self).deep_view(), k as int, t.deep_view()),
            final(self).tables.len() == old(self).tables.len(),
    {
        let ghost d = self.deep_view();
        let ghost m = t.deep_view();
        self.tables.set(k, t);
        assert(self.tables.deep_view() =~= d.tables.update(k as int, m));
        assert(self.deep_view() =~= with_table(d, k as int, m));
    }

    /// Takes a table out of its place, to be put back.
    pub fn take_table(&mut self, k: usize) -> (t: Table)
        requires
            old(self).wf(),
            k < old(self).tables.len(),
        ensures
            final(self).wf(),
            t == old(self).tables[k as int],
            t.wf(),
            final(self).tables.len() == old(self).tables.len(),
            forall|x: Tbl|
                #[trigger] with_table(final(self).deep_view(), k as int, x) == with_table(
                    old(self).deep_view(),
                    k as int,
                    x,
                ),
    {
        let ghost d = self.deep_view();
        let mut t = Table::new(TableDef::new(0, "", Vec::new()));
        std::mem::swap(&mut t, &mut self.tables[k]);
        assert forall|x: Tbl|
            #[trigger] with_table(self.deep_view(), k as int, x) == with_table(
                d,
                k as int,
                x,
            ) by {
            assert(self.deep_view().tables.update(k as int, x) =~= d.tables.update(k as int, x));
        }
        t
    }

    /// Creates a table.
    pub fn create_table(&mut self, def: TableDef) -> (r: Result<(), EngramDbError>)
        requires
            old(self).wf(),
        ensures
            final(self).wf(),
            turned(
                r,
                old(self).deep_view(),
                final(self).deep_view(),
                with_new_table(old(self).deep_view(), def.deep_view()),
            ),
    {
        let ghost d = self.deep_view();
        if self.find_table(def.name.as_str()).is_some() {
            let text = join3("Table '", def.name.as_str(), "' already exists");
            return Err(EngramDbError::ConstraintViolation(text));
        }
        let ghost m = def.deep_view();
        let mut def = def;
        def.id = self.tables.len() as u32;
        let t = Table::new(def);
        let ghost x = t.deep_view();
        assert(x == empty_table(TableModel { id: d.tables.len() as u32, ..m }));
        self.tables.push(t);
        assert(self.tables.deep_view() =~= d.tables.push(x));
        assert(self.deep_view() =~= with_new_table(d, m)->Ok_0);
        Ok(())
    }

    /// Gives a table another name.
    pub fn rename_table(&mut self, old_name: &str, new_name: &str) -> (r: Result<
        (),
        EngramDbError,
    >)
        requires
            old(self).wf(),
        ensures
            final(self).wf(),
            turned(
                r,
                old(self).deep_view(),
                final(self).deep_view(),
                renamed(old(self).deep_view(), old_name@, new_name@),
            ),
    {
        let ghost d = self.deep_view();
        let k: usize = match self.find_table(old_name) {
            Some(k) => k,
            None => {
                return Err(EngramDbError::TableNotFound(old_name.to_owned()));
            },
        };
        if self.find_table(new_name).is_some() {
            let text = join3("Table '", new_name, "' already exists");
            return Err(EngramDbError::ConstraintViolation(text));
        }
        let mut t = self.take_table(k);
        t.def.name = new_name.to_owned();
        self.put_table(k, t);
        Ok(())
    }

    /// Adds an index to a table.
    pub fn create_index(
        &mut self,
        table_name: &str,
        index_name: &str,
        key_columns: &Vec<usize>,
        included_columns: &Vec<usize>,
        unique: bool,
    ) -> (r: Result<(), EngramDbError>)
        requires
            old(self).wf(),
        ensures
            final(self).wf(),
            turned(
                r,
                old(self).deep_view(),
                final(self).deep_view(),
                with_index(
                    old(self).deep_view(),
                    table_name@,
                    IndexModel {
                        name: index_name@,
                        key_columns: key_columns@,
                        included_columns: included_columns@,
                        unique,
                        index_type: "skiplist"@,
                    },
                ),
            ),
    {
        let ghost d = self.deep_view();
        let k: usize = match self.find_table(table_name) {
            Some(k) => k,
            None => {
                return Err(EngramDbError::TableNotFound(table_name.to_owned()));
            },
        };
        if find_index(&self.tables[k].def.indexes, index_name).is_some() {
            let text = join3("Index '", index_name, "' already exists");
            return Err(EngramDbError::ConstraintViolation(text));
        }
        let x = IndexDef {
            name: index_name.to_owned(),
            key_columns: copy_positions(key_columns),
            included_columns: copy_positions(included_columns),
            unique,
            index_type: "skiplist".to_owned(),
        };
        let ghost m = x.deep_view();
        let mut t = self.take_table(k);
        let ghost was = t.def.indexes.deep_view();
        t.def.indexes.push(x);
        assert(t.def.indexes.deep_view() =~= was.push(m));
        self.put_table(k, t);
        Ok(())
    }

    /// Adds a vector index.
    pub fn create_vector_index(&mut self, index: VectorIndexDef)
        requires
            old(self).wf(),
        ensures
            final(self).wf(),
            final(self).deep_view() == (Db {
                vector_indexes: old(self).deep_view().vector_indexes.push(index.deep_view()),
                ..old(self).deep_view()
            }),
    {
        let ghost d = self.deep_view();
        let ghost m = index.deep_view();
        self.vector_indexes.push(index);
        assert(self.vector_indexes.deep_view() =~= d.vector_indexes.push(m));
        assert(self.deep_view() =~= Db { vector_indexes: d.vector_indexes.push(m), ..d });
    }

    /// Whether there is a vector index of that name on the table.
    pub fn has_vector_index(&self, table_name: &str, index_name: &str) -> (r: bool)
        ensures
            r == has_search(self.deep_view(), table_name@, index_name@),
    {
        let ghost all = self.deep_view().vector_indexes;
        let mut i: usize = 0;
        while i < self.vector_indexes.len()
            invariant
                i <= self.vector_indexes.len(),
                all == self.vector_indexes.deep_view(),
                forall|k: int|
                    0 <= k < i ==> !((#[trigger] all[k]).table_name == table_name@
                        && all[k].index_name == index_name@),
            decreases self.vector_indexes.len() - i,
        {
            assert(all[i as int] == self.vector_indexes[i as int].deep_view());
            if same_text(self.vector_indexes[i].table_name.as_str(), table_name) && same_text(
                self.vector_indexes[i].index_name.as_str(),
                index_name,
            ) {
                return true;
            }
            i += 1;
        }
        false
    }

    /// Sets when the log is flushed.
    pub fn set_wal_flush_mode(&mut self, mode: WalFlushMode)
        requires
            old(self).wf(),
        ensures
            final(self).wf(),
            final(self).deep_view() == (Db {
                config: Config { wal_flush_mode: mode, ..old(self).deep_view().config },
                ..old(self).deep_view()
            }),
    {
        self.config.wal_flush_mode = mode;
    }

    /// Whether a client has opened a transaction.
    pub fn in_explicit_txn(&self) -> (r: bool)
        ensures
            r == self.deep_view().current is Some,
    {
        self.current.is_some()
    }

    /// What is wrong with rows beside the rows of a table.
    pub fn validate_rows_against_committed(&self, name: &str, rows: &Vec<Vec<Value>>) -> (r: Option<
        EngramDbError,
    >)
        requires
            self.wf(),
        ensures
            gives_fault(r, validated(self.deep_view(), name@, rows.deep_view())),
    {
        let ghost d = self.deep_view();
        let ghost all = rows.deep_view();
        let t = match self.get_table(name) {
            Some(t) => t,
            None => {
                return Some(EngramDbError::TableNotFound(name.to_owned()));
            },
        };
        let ghost m = t.deep_view();
        let mut i: usize = 0;
        while i < rows.len()
            invariant
                i <= rows.len(),
                all == rows.deep_view(),
                m == t.deep_view(),
                table_of(self.deep_view(), name@) == Some(m),
                stored_fault(m, all, 0) == stored_fault(m, all, i as int),
            decreases rows.len() - i,
        {
            assert(all[i as int] == rows[i as int].deep_view());
            let full = t.fill_row(&rows[i]);
            if let Some(e) = t.check_row(&full.0, false, None) {
                return Some(e);
            }
            i += 1;
        }
        None
    }

    /// Puts rows into the batch of a table, and says whether it is full.
    pub fn push_checked(&mut self, name: &str, rows: Vec<Vec<Value>>) -> (r: Result<
        bool,
        EngramDbError,
    >)
        requires
            old(self).wf(),
            table_of(old(self).deep_view(), name@) is Some,
        ensures
            final(self).wf(),
            match (r, batched(old(self).deep_view(), name@, rows.deep_view())) {
                (Ok(b), Ok(m)) => final(self).deep_view() == m.0 && b == m.1,
                (Err(e), Err(f)) => e.deep_view() == f && *final(self) == *old(self),
                _ => false,
            },
    {
        let ghost d = self.deep_view();
        let ghost all = rows.deep_view();
        let k: usize = match self.find_table(name) {
            Some(k) => k,
            None => {
                return Ok(false);
            },
        };
        let held = waiting_copy(&self.batch, name);
        let uniques = unique_keys(&self.tables[k].def.indexes);
        if let Some(e) = check_clash(
            &held,
            &rows,
            self.tables[k].def.primary_key_index(),
            &uniques,
        ) {
            return Err(e);
        }
        enqueue(&mut self.batch, name, rows);
        assert(self.deep_view() =~= Db { batch: queued(d.batch, name@, all), ..d });
        let now = waiting_copy(&self.batch, name);
        Ok(now.len() >= self.config.insert_batch_rows)
    }

    /// Takes the rows of a table out of the batches.
    pub fn drain(&mut self, name: &str) -> (r: Vec<Vec<Value>>)
        requires
            old(self).wf(),
        ensures
            final(self).wf(),
            r.deep_view() == waiting(old(self).deep_view().batch, name@),
            final(self).deep_view() == (Db {
                batch: unqueued(old(self).deep_view().batch, name@),
                ..old(self).deep_view()
            }),
    {
        let ghost d = self.deep_view();
        match find_pending(&self.batch, name) {
            Some(k) => {
                assert(d.batch[k as int] == self.batch[k as int].deep_view());
                let x = self.batch.remove(k);
                assert(self.batch.deep_view() =~= d.batch.remove(k as int));
                assert(self.deep_view() =~= Db { batch: unqueued(d.batch, name@), ..d });
                x.rows
            },
            None => {
                let rows: Vec<Vec<Value>> = Vec::new();
                assert(rows.deep_view() =~= Seq::empty());
                rows
            },
        }
    }

    /// Takes all rows out of the batches.
    pub fn drain_all(&mut self) -> (r: Vec<Pending>)
        requires
            old(self).wf(),
        ensures
            final(self).wf(),
            r.deep_view() == old(self).deep_view().batch,
            final(self).deep_view() == (Db { batch: Seq::empty(), ..old(self).deep_view() }),
    {
        let ghost d = self.deep_view();
        let mut p: Vec<Pending> = Vec::new();
        std::mem::swap(&mut p, &mut self.batch);
        assert(self.deep_view() =~= Db { batch: Seq::empty(), ..d });
        p
    }

    /// Puts rows into the buffer of the open transaction, and says whether
    /// the buffer is full.
    pub fn txn_buffer_push(&mut self, name: &str, rows: Vec<Vec<Value>>) -> (r: Result<
        bool,
        EngramDbError,
    >)
        requires
            old(self).wf(),
        ensures
            final(self).wf(),
            match (r, buffered(old(self).deep_view(), name@, rows.deep_view())) {
                (Ok(b), Ok(m)) => final(self).deep_view() == m.0 && b == m.1,
                (Err(e), Err(f)) => e.deep_view() == f && *final(self) == *old(self),
                _ => false,
            },
    {
        let ghost d = self.deep_view();
        let ghost all = rows.deep_view();
        if let Some(e) = self.validate_rows_against_committed(name, &rows) {
            return Err(e);
        }
        let k: usize = match self.find_table(name) {
            Some(k) => k,
            None => {
                return Ok(false);
            },
        };
        let held = waiting_copy(&self.buffer, name);
        let uniques = unique_keys(&self.tables[k].def.indexes);
        if let Some(e) = check_clash(
            &held,
            &rows,
            self.tables[k].def.primary_key_index(),
            &uniques,
        ) {
            return Err(e);
        }
        enqueue(&mut self.buffer, name, rows);
        assert(self.deep_view() =~= Db { buffer: queued(d.buffer, name@, all), ..d });
        Ok(waiting_at_least(&self.buffer, self.config.txn_batch_rows))
    }

    /// Takes all rows out of the buffer.
    pub fn take_buffer(&mut self) -> (r: Vec<Pending>)
        requires
            old(self).wf(),
        ensures
            final(self).wf(),
            r.deep_view() == old(self).deep_view().buffer,
            final(self).deep_view() == (Db { buffer: Seq::empty(), ..old(self).deep_view() }),
    {
        let ghost d = self.deep_view();
        let mut p: Vec<Pending> = Vec::new();
        std::mem::swap(&mut p, &mut self.buffer);
        assert(self.deep_view() =~= Db { buffer: Seq::empty(), ..d });
        p
    }

    /// Drops the rows of the buffer.
    pub fn discard_txn_buffer(&mut self)
        requires
            old(self).wf(),
        ensures
            final(self).wf(),
            final(self).deep_view() == (Db { buffer: Seq::empty(), ..old(self).deep_view() }),
    {
        let p = self.take_buffer();
    }

    /// Notes that statistics were taken of a table.
    pub fn note_analyzed(&mut self, name: &str)
        requires
            old(self).wf(),
        ensures
            final(self).wf(),
            final(self).deep_view() == (Db {
                analyzed: old(self).deep_view().analyzed.push(name@),
                ..old(self).deep_view()
            }),
    {
        let ghost d = self.deep_view();
        self.analyzed.push(name.to_owned());
        assert(self.analyzed.deep_view() =~= d.analyzed.push(name@));
        assert(self.deep_view() =~= Db { analyzed: d.analyzed.push(name@), ..d });
    }
}

/// Whether there is a vector index of that name on the table.
pub open spec fn has_search(d: Db, table: Seq<char>, index: Seq<char>) -> bool {
    exists|k: int|
        0 <= k < d.vector_indexes.len() && (#[trigger] d.vector_indexes[k]).table_name == table
            && d.vector_indexes[k].index_name == index
}

/// The place of an index.
pub fn find_index(indexes: &Vec<IndexDef>, name: &str) -> (r: Option<usize>)
    ensures
        pos(r) == index_from(indexes.deep_view(), name@, 0),
        r matches Some(k) ==> k < indexes.len() && indexes.deep_view()[k as int]
            == indexes[k as int].deep_view(),
{
    let ghost all = indexes.deep_view();
    let mut i: usize = 0;
    while i < indexes.len()
        invariant
            i <= indexes.len(),
            all == indexes.deep_view(),
            index_from(all, name@, 0) == index_from(all, name@, i as int),
        decreases indexes.len() - i,
    {
        assert(all[i as int] == indexes[i as int].deep_view());
        if same_text(indexes[i].name.as_str(), name) {
            return Some(i);
        }
        i += 1;
    }
    None
}

} // verus!
