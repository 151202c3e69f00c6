//! Statements that read or set properties of the database.
use vstd::prelude::*;

use crate::common::config::{Config, WalFlushMode};
use crate::common::error::{EngramDbError, Fault};
use crate::common::types::{
    opt_text, pk_index, pos, sql_name, ColumnDef, ColumnModel, IndexDef, IndexModel, TableDef, TableModel,
};
use crate::executor::operators::alter_table::answered;
use crate::executor::operators::sort::{row_order, sort_keyed};
use crate::executor::physical_plan::{SortDirection, SortKey};
use crate::executor::sorting::{law_sort_permutes, sorted_positions, sorted_rows};
use crate::query::{listed, one_value, single, status, status_result, Query, QueryResult};
use crate::sql::ast::PragmaStmt;
use crate::storage::database::{table_of, Database, Db};
use crate::text::{
    dec_int, i64_text, int_text, join2, join3, join_text, joined, lower_text, parse_int, same_text,
    to_lower, to_upper, upper_text,
};
use crate::value::Datum;
use crate::Value;

verus! {

/// What is shown of each column of a table.
pub open spec fn info_rows(columns: Seq<ColumnModel>) -> Seq<Seq<Datum>> {
    Seq::new(
        columns.len(),
        |i: int|
            seq![
                Datum::Int32(i as i32),
                Datum::Varchar(columns[i].name),
                Datum::Varchar(sql_name(columns[i].data_type)),
                Datum::Boolean(!columns[i].nullable),
                Datum::Null,
                Datum::Boolean(columns[i].is_primary_key),
            ],
    )
}

/// The names of the tables, each as a row.
pub open spec fn name_rows(d: Db) -> Seq<Seq<Datum>> {
    Seq::new(d.tables.len(), |i: int| seq![Datum::Varchar(d.tables[i].def.name)])
}

/// The names of the tables in order.
pub open spec fn table_list(d: Db) -> Seq<Seq<Datum>> {
    let keys = seq![SortKey { column_index: 0, direction: SortDirection::Asc }];
    sorted_rows(name_rows(d), |a: Seq<Datum>, b: Seq<Datum>| row_order(a, b, keys, 0))
}

/// The name in a row of the list.
pub open spec fn name_in(row: Seq<Datum>) -> Seq<char> {
    match row[0] {
        Datum::Varchar(s) => s,
        _ => Seq::empty(),
    }
}

/// The position of the primary key as a developer reads it.
pub open spec fn key_text(key: Option<int>) -> Seq<char> {
    match key {
        Some(i) => "Some("@ + dec_int((i as i32) as int) + ")"@,
        None => "None"@,
    }
}

/// What is shown of a table.
pub open spec fn table_row(def: TableModel) -> Seq<Datum> {
    seq![
        Datum::Varchar(def.name),
        Datum::Varchar("BASE TABLE"@),
        Datum::Int64(def.row_count as i64),
        Datum::Int32(def.columns.len() as i32),
        Datum::Varchar(key_text(pk_index(def.columns))),
        Datum::Boolean(def.ttl_seconds is Some),
    ]
}

/// What is shown of each column of a named table.
pub open spec fn column_rows(def: TableModel) -> Seq<Seq<Datum>> {
    Seq::new(
        def.columns.len(),
        |i: int|
            seq![
                Datum::Varchar(def.name),
                Datum::Varchar(def.columns[i].name),
                Datum::Int32(i as i32),
                Datum::Varchar(sql_name(def.columns[i].data_type)),
                Datum::Boolean(def.columns[i].nullable),
                Datum::Boolean(def.columns[i].is_primary_key),
                Datum::Boolean(def.columns[i].auto_increment),
            ],
    )
}

/// The names of columns by position, joined. A position behind the last
/// column has the empty name.
pub open spec fn names_at(columns: Seq<ColumnModel>, at: Seq<usize>) -> Seq<char> {
    joined(
        Seq::new(
            at.len(),
            |i: int|
                if at[i] < columns.len() {
                    columns[at[i] as int].name
                } else {
                    Seq::empty()
                },
        ),
        ", "@,
    )
}

/// What is shown of each index of a named table.
pub open spec fn index_rows(def: TableModel) -> Seq<Seq<Datum>> {
    Seq::new(
        def.indexes.len(),
        |i: int|
            seq![
                Datum::Varchar(def.name),
                Datum::Varchar(def.indexes[i].name),
                Datum::Varchar(def.indexes[i].index_type),
                Datum::Varchar(names_at(def.columns, def.indexes[i].key_columns)),
                Datum::Varchar(names_at(def.columns, def.indexes[i].included_columns)),
                Datum::Boolean(def.indexes[i].unique),
            ],
    )
}

/// What can be listed of every table.
#[derive(Debug, Clone, Copy, PartialEq, Eq, Structural)]
pub enum Listing {
    Tables,
    Columns,
    Indexes,
}

/// The rows of a listing for one table.
pub open spec fn rows_for(l: Listing, def: TableModel) -> Seq<Seq<Datum>> {
    match l {
        Listing::Tables => seq![table_row(def)],
        Listing::Columns => column_rows(def),
        Listing::Indexes => index_rows(def),
    }
}

/// The rows of a listing for the first `n` named tables.
pub open spec fn listing(d: Db, l: Listing, names: Seq<Seq<Datum>>, n: nat) -> Seq<Seq<Datum>>
    decreases n,
{
    if n == 0 {
        Seq::empty()
    } else {
        let before = listing(d, l, names, (n - 1) as nat);
        match table_of(d, name_in(names[n - 1])) {
            Some(t) => before + rows_for(l, t.def),
            None => before,
        }
    }
}

/// What is shown of each key column of an index.
pub open spec fn key_rows(columns: Seq<ColumnModel>, x: IndexModel) -> Seq<Seq<Datum>> {
    Seq::new(
        x.key_columns.len(),
        |i: int|
            seq![
                Datum::Int32(i as i32),
                Datum::Varchar(
                    if x.key_columns[i] < columns.len() {
                        columns[x.key_columns[i] as int].name
                    } else {
                        Seq::empty()
                    },
                ),
                Datum::Varchar(x.name),
            ],
    )
}

/// What is shown of the key columns of the first `n` indexes.
pub open spec fn all_key_rows(def: TableModel, n: nat) -> Seq<Seq<Datum>>
    decreases n,
{
    if n == 0 {
        Seq::empty()
    } else {
        all_key_rows(def, (n - 1) as nat) + key_rows(def.columns, def.indexes[n - 1])
    }
}

/// What is shown of each index of a table.
pub open spec fn index_list_rows(def: TableModel) -> Seq<Seq<Datum>> {
    Seq::new(
        def.indexes.len(),
        |i: int|
            seq![
                Datum::Int32(i as i32),
                Datum::Varchar(def.indexes[i].name),
                Datum::Varchar(names_at(def.columns, def.indexes[i].key_columns)),
                Datum::Boolean(def.indexes[i].unique),
                Datum::Varchar(def.indexes[i].index_type),
            ],
    )
}

/// What is asked of one table.
#[derive(Debug, Clone, Copy, PartialEq, Eq, Structural)]
pub enum Detail {
    TableInfo,
    IndexInfo,
    IndexList,
}

/// The rows about one table.
pub open spec fn detail_rows(q: Detail, def: TableModel) -> Seq<Seq<Datum>> {
    match q {
        Detail::TableInfo => info_rows(def.columns),
        Detail::IndexInfo => all_key_rows(def, def.indexes.len()),
        Detail::IndexList => index_list_rows(def),
    }
}

/// The columns of the rows about one table.
pub open spec fn detail_columns(q: Detail) -> Seq<Seq<char>> {
    match q {
        Detail::TableInfo => seq!["cid"@, "name"@, "type"@, "notnull"@, "dflt_value"@, "pk"@],
        Detail::IndexInfo => seq!["seqno"@, "name"@, "index_name"@],
        Detail::IndexList => seq!["seq"@, "name"@, "key_columns"@, "unique"@, "type"@],
    }
}

/// The error where no table is named.
pub open spec fn detail_fault(q: Detail) -> Fault {
    match q {
        Detail::TableInfo => Fault::Parse("PRAGMA table_info requires table name"@),
        Detail::IndexInfo => Fault::Parse("PRAGMA index_info requires table name"@),
        Detail::IndexList => Fault::Parse("PRAGMA index_list requires table name"@),
    }
}

/// The columns of a listing.
pub open spec fn listing_columns(l: Listing) -> Seq<Seq<char>> {
    match l {
        Listing::Tables => seq![
            "table_name"@,
            "table_type"@,
            "row_count"@,
            "column_count"@,
            "primary_key"@,
            "has_ttl"@,
        ],
        Listing::Columns => seq![
            "table_name"@,
            "column_name"@,
            "ordinal_position"@,
            "data_type"@,
            "nullable"@,
            "is_primary_key"@,
            "auto_increment"@,
        ],
        Listing::Indexes => seq![
            "table_name"@,
            "index_name"@,
            "index_type"@,
            "key_columns"@,
            "included_columns"@,
            "unique"@,
        ],
    }
}

/// The answer about one table.
pub open spec fn detailed(d: Db, q: Detail, arg: Option<Seq<char>>) -> Result<Query, Fault> {
    match arg {
        None => Err(detail_fault(q)),
        Some(name) => match table_of(d, name) {
            None => Err(Fault::TableNotFound(name)),
            Some(t) => Ok(listed(detail_columns(q), detail_rows(q, t.def))),
        },
    }
}

/// The answer about every table.
pub open spec fn catalogued(d: Db, l: Listing) -> Query {
    let names = table_list(d);
    listed(listing_columns(l), listing(d, l, names, names.len()))
}

/// The flush mode that a journal mode stands for.
pub open spec fn journal_flush(s: Seq<char>) -> Option<WalFlushMode> {
    if s == "wal"@ {
        Some(WalFlushMode::Sync)
    } else if s == "delete"@ || s == "truncate"@ || s == "persist"@ {
        Some(WalFlushMode::Periodic)
    } else if s == "memory"@ || s == "off"@ {
        Some(WalFlushMode::BufferFull)
    } else {
        None
    }
}

/// The journal mode that stands for a flush mode.
pub open spec fn journal_name(m: WalFlushMode) -> Seq<char> {
    match m {
        WalFlushMode::Sync => "wal"@,
        WalFlushMode::Periodic => "delete"@,
        WalFlushMode::BufferFull => "off"@,
    }
}

/// The database with another flush mode.
pub open spec fn with_flush(d: Db, m: WalFlushMode) -> Db {
    Db { config: Config { wal_flush_mode: m, ..d.config }, ..d }
}

/// The reading or setting of the journal mode.
pub open spec fn journaled(d: Db, arg: Option<Seq<char>>) -> (Result<Query, Fault>, Db) {
    match arg {
        None => (
            Ok(
                single(
                    "journal_mode"@,
                    Datum::Varchar(journal_name(d.config.wal_flush_mode)),
                    0,
                ),
            ),
            d,
        ),
        Some(a) => match journal_flush(lower_text(a)) {
            None => (Err(Fault::Parse("unknown journal_mode: "@ + a)), d),
            Some(m) => (
                Ok(single("journal_mode"@, Datum::Varchar(upper_text(a)), 0)),
                with_flush(d, m),
            ),
        },
    }
}

/// The flush mode that a level stands for.
pub open spec fn level_flush(s: Seq<char>) -> Option<WalFlushMode> {
    if s == "0"@ || s == "off"@ {
        Some(WalFlushMode::BufferFull)
    } else if s == "1"@ || s == "normal"@ {
        Some(WalFlushMode::Periodic)
    } else if s == "2"@ || s == "full"@ {
        Some(WalFlushMode::Sync)
    } else {
        None
    }
}

/// The level that stands for a flush mode.
pub open spec fn level_name(m: WalFlushMode) -> Seq<char> {
    match m {
        WalFlushMode::Sync => "2"@,
        WalFlushMode::Periodic => "1"@,
        WalFlushMode::BufferFull => "0"@,
    }
}

/// The reading or setting of the level of synchronization.
pub open spec fn synchronized(d: Db, arg: Option<Seq<char>>) -> (Result<Query, Fault>, Db) {
    match arg {
        None => (
            Ok(single("synchronous"@, Datum::Varchar(level_name(d.config.wal_flush_mode)), 0)),
            d,
        ),
        Some(a) => match level_flush(lower_text(a)) {
            None => (Err(Fault::Parse("unknown synchronous level: "@ + a)), d),
            Some(m) => (
                Ok(single("synchronous"@, Datum::Varchar(level_name(m)), 0)),
                with_flush(d, m),
            ),
        },
    }
}

/// The magnitude of a number of kilobytes in bytes.
pub open spec fn kilobytes(kb: int) -> usize {
    ((if kb >= 0 {
        kb
    } else {
        -kb
    }) as usize).wrapping_mul(1024)
}

/// The reading or setting of the size of the cache in kilobytes.
pub open spec fn cached(d: Db, arg: Option<Seq<char>>) -> (Result<Query, Fault>, Db) {
    match arg {
        None => (
            Ok(single("cache_size"@, Datum::Int64((d.cache_bytes / 1024) as i64), 0)),
            d,
        ),
        Some(a) => match int_text(a, i64::MIN as int, i64::MAX as int) {
            None => (Err(Fault::Parse("invalid cache_size: "@ + a)), d),
            Some(kb) => (
                Ok(single("cache_size"@, Datum::Int64(kb as i64), 0)),
                Db { cache_bytes: kilobytes(kb), ..d },
            ),
        },
    }
}

/// The number of blocks in a file.
pub open spec fn pages(d: Db, file_bytes: u64) -> u64 {
    if d.config.block_size > 0 {
        file_bytes / (d.config.block_size as u64)
    } else {
        0
    }
}

/// The reading or setting of a property. A property that is not known is
/// left alone.
pub open spec fn pragma(
    d: Db,
    name: Seq<char>,
    arg: Option<Seq<char>>,
    file_bytes: u64,
) -> (Result<Query, Fault>, Db) {
    let n = lower_text(name);
    if n == "table_info"@ {
        (detailed(d, Detail::TableInfo, arg), d)
    } else if n == "database_list"@ {
        (
            Ok(
                listed(
                    seq!["seq"@, "name"@, "file"@],
                    seq![seq![Datum::Int32(0), Datum::Varchar("main"@), Datum::Varchar(d.path)]],
                ),
            ),
            d,
        )
    } else if n == "information_schema_tables"@ || n == "tables"@ {
        (Ok(catalogued(d, Listing::Tables)), d)
    } else if n == "information_schema_columns"@ || n == "columns"@ {
        (Ok(catalogued(d, Listing::Columns)), d)
    } else if n == "information_schema_indexes"@ || n == "indexes"@ {
        (Ok(catalogued(d, Listing::Indexes)), d)
    } else if n == "index_info"@ {
        (detailed(d, Detail::IndexInfo, arg), d)
    } else if n == "index_list"@ {
        (detailed(d, Detail::IndexList, arg), d)
    } else if n == "journal_mode"@ {
        journaled(d, arg)
    } else if n == "synchronous"@ {
        synchronized(d, arg)
    } else if n == "cache_size"@ {
        cached(d, arg)
    } else if n == "page_size"@ {
        (Ok(single("page_size"@, Datum::Int64(d.config.block_size as i64), 0)), d)
    } else if n == "page_count"@ {
        (Ok(single("page_count"@, Datum::Int64(pages(d, file_bytes) as i64), 0)), d)
    } else {
        (Ok(status("PRAGMA "@ + name + " ok"@)), d)
    }
}

/// The names as a list of strings.
fn strings(names: &[&str]) -> (r: Vec<String>)
    ensures
        r.deep_view() == Seq::new(names@.len(), |i: int| names@[i]@),
{
    let mut out: Vec<String> = Vec::new();
    let mut i: usize = 0;
    while i < names.len()
        invariant
            i <= names.len(),
            out.deep_view() == Seq::new(i as nat, |k: int| names@[k]@),
        decreases names.len() - i,
    {
        let ghost before = out.deep_view();
        out.push(names[i].to_owned());
        assert(out.deep_view() =~= before.push(names@[i as int]@));
        i += 1;
        assert(out.deep_view() =~= Seq::new(i as nat, |k: int| names@[k]@));
    }
    out
}

/// A column's name, or the empty one.
fn name_of(columns: &Vec<ColumnDef>, at: usize) -> (r: String)
    ensures
        r@ == (if at < columns.deep_view().len() {
            columns.deep_view()[at as int].name
        } else {
            Seq::empty()
        }),
{
    if at < columns.len() {
        assert(columns.deep_view()[at as int] == columns[at as int].deep_view());
        columns[at].name.clone()
    } else {
        String::new()
    }
}

/// The names of columns by position, joined.
fn join_names(columns: &Vec<ColumnDef>, at: &Vec<usize>) -> (r: String)
    ensures
        r@ == names_at(columns.deep_view(), at@),
{
    let ghost m = Seq::new(
        at@.len(),
        |i: int|
            if at@[i] < columns.deep_view().len() {
                columns.deep_view()[at@[i] as int].name
            } else {
                Seq::empty()
            },
    );
    let mut out: Vec<String> = Vec::new();
    let mut i: usize = 0;
    while i < at.len()
        invariant
            i <= at.len(),
            m == Seq::new(
                at@.len(),
                |i: int|
                    if at@[i] < columns.deep_view().len() {
                        columns.deep_view()[at@[i] as int].name
                    } else {
                        Seq::empty()
                    },
            ),
            out.deep_view() == m.subrange(0, i as int),
        decreases at.len() - i,
    {
        let s = name_of(columns, at[i]);
        let ghost before = out.deep_view();
        out.push(s);
        assert(out.deep_view() =~= before.push(s@));
        i += 1;
        assert(out.deep_view() =~= m.subrange(0, i as int));
    }
    assert(out.deep_view() =~= m);
    join_text(&out, ", ")
}

/// What is shown of each column of a table.
fn list_info(def: &TableDef) -> (r: Vec<Vec<Value>>)
    ensures
        r.deep_view() == info_rows(def.deep_view().columns),
{
    let ghost m = info_rows(def.deep_view().columns);
    let mut out: Vec<Vec<Value>> = Vec::new();
    let mut i: usize = 0;
    while i < def.columns.len()
        invariant
            i <= def.columns.len(),
            m == info_rows(def.deep_view().columns),
            out.deep_view() == m.subrange(0, i as int),
        decreases def.columns.len() - i,
    {
        let c = &def.columns[i];
        assert(def.deep_view().columns[i as int] == c.deep_view());
        let row = vec![
            Value::Int32(i as i32),
            Value::Varchar(c.name.clone()),
            Value::Varchar(c.data_type.to_string()),
            Value::Boolean(!c.nullable),
            Value::Null,
            Value::Boolean(c.is_primary_key),
        ];
        assert(row.deep_view() =~= m[i as int]);
        let ghost before = out.deep_view();
        out.push(row);
        assert(out.deep_view() =~= before.push(row.deep_view()));
        i += 1;
        assert(out.deep_view() =~= m.subrange(0, i as int));
    }
    assert(out.deep_view() =~= m);
    out
}

/// What is shown of each column of a named table.
fn list_columns(def: &TableDef) -> (r: Vec<Vec<Value>>)
    ensures
        r.deep_view() == column_rows(def.deep_view()),
{
    let ghost m = column_rows(def.deep_view());
    let mut out: Vec<Vec<Value>> = Vec::new();
    let mut i: usize = 0;
    while i < def.columns.len()
        invariant
            i <= def.columns.len(),
            m == column_rows(def.deep_view()),
            out.deep_view() == m.subrange(0, i as int),
        decreases def.columns.len() - i,
    {
        let c = &def.columns[i];
        assert(def.deep_view().columns[i as int] == c.deep_view());
        let row = vec![
            Value::Varchar(def.name.clone()),
            Value::Varchar(c.name.clone()),
            Value::Int32(i as i32),
            Value::Varchar(c.data_type.to_string()),
            Value::Boolean(c.nullable),
            Value::Boolean(c.is_primary_key),
            Value::Boolean(c.auto_increment),
        ];
        assert(row.deep_view() =~= m[i as int]);
        let ghost before = out.deep_view();
        out.push(row);
        assert(out.deep_view() =~= before.push(row.deep_view()));
        i += 1;
        assert(out.deep_view() =~= m.subrange(0, i as int));
    }
    assert(out.deep_view() =~= m);
    out
}

/// What is shown of each index of a named table.
fn list_indexes(def: &TableDef) -> (r: Vec<Vec<Value>>)
    ensures
        r.deep_view() == index_rows(def.deep_view()),
{
    let ghost m = index_rows(def.deep_view());
    let mut out: Vec<Vec<Value>> = Vec::new();
    let mut i: usize = 0;
    while i < def.indexes.len()
        invariant
            i <= def.indexes.len(),
            m == index_rows(def.deep_view()),
            out.deep_view() == m.subrange(0, i as int),
        decreases def.indexes.len() - i,
    {
        let x = &def.indexes[i];
        assert(def.deep_view().indexes[i as int] == x.deep_view());
        let row = vec![
            Value::Varchar(def.name.clone()),
            Value::Varchar(x.name.clone()),
            Value::Varchar(x.index_type.clone()),
            Value::Varchar(join_names(&def.columns, &x.key_columns)),
            Value::Varchar(join_names(&def.columns, &x.included_columns)),
            Value::Boolean(x.unique),
        ];
        assert(row.deep_view() =~= m[i as int]);
        let ghost before = out.deep_view();
        out.push(row);
        assert(out.deep_view() =~= before.push(row.deep_view()));
        i += 1;
        assert(out.deep_view() =~= m.subrange(0, i as int));
    }
    assert(out.deep_view() =~= m);
    out
}

/// What is shown of each index of a table.
fn list_index_list(def: &TableDef) -> (r: Vec<Vec<Value>>)
    ensures
        r.deep_view() == index_list_rows(def.deep_view()),
{
    let ghost m = index_list_rows(def.deep_view());
    let mut out: Vec<Vec<Value>> = Vec::new();
    let mut i: usize = 0;
    while i < def.indexes.len()
        invariant
            i <= def.indexes.len(),
            m == index_list_rows(def.deep_view()),
            out.deep_view() == m.subrange(0, i as int),
        decreases def.indexes.len() - i,
    {
        let x = &def.indexes[i];
        assert(def.deep_view().indexes[i as int] == x.deep_view());
        let row = vec![
            Value::Int32(i as i32),
            Value::Varchar(x.name.clone()),
            Value::Varchar(join_names(&def.columns, &x.key_columns)),
            Value::Boolean(x.unique),
            Value::Varchar(x.index_type.clone()),
        ];
        assert(row.deep_view() =~= m[i as int]);
        let ghost before = out.deep_view();
        out.push(row);
        assert(out.deep_view() =~= before.push(row.deep_view()));
        i += 1;
        assert(out.deep_view() =~= m.subrange(0, i as int));
    }
    assert(out.deep_view() =~= m);
    out
}

/// What is shown of each key column of an index.
fn list_keys(columns: &Vec<ColumnDef>, x: &IndexDef) -> (r: Vec<Vec<Value>>)
    ensures
        r.deep_view() == key_rows(columns.deep_view(), x.deep_view()),
{
    let ghost m = key_rows(columns.deep_view(), x.deep_view());
    let mut out: Vec<Vec<Value>> = Vec::new();
    let mut i: usize = 0;
    while i < x.key_columns.len()
        invariant
            i <= x.key_columns.len(),
            m == key_rows(columns.deep_view(), x.deep_view()),
            out.deep_view() == m.subrange(0, i as int),
        decreases x.key_columns.len() - i,
    {
        let row = vec![
            Value::Int32(i as i32),
            Value::Varchar(name_of(columns, x.key_columns[i])),
            Value::Varchar(x.name.clone()),
        ];
        assert(row.deep_view() =~= m[i as int]);
        let ghost before = out.deep_view();
        out.push(row);
        assert(out.deep_view() =~= before.push(row.deep_view()));
        i += 1;
        assert(out.deep_view() =~= m.subrange(0, i as int));
    }
    assert(out.deep_view() =~= m);
    out
}

/// Adds rows behind others.
fn extend_rows(out: &mut Vec<Vec<Value>>, more: Vec<Vec<Value>>)
    ensures
        final(out).deep_view() == old(out).deep_view() + more.deep_view(),
{
    let mut more = more;
    let ghost (a, b) = (out@, more@);
    let ghost (x, y) = (out.deep_view(), more.deep_view());
    out.append(&mut more);
    assert(out@ == a + b);
    assert(out.deep_view() =~= x + y);
}

/// What is shown of the key columns of all indexes of a table.
fn list_all_keys(def: &TableDef) -> (r: Vec<Vec<Value>>)
    ensures
        r.deep_view() == all_key_rows(def.deep_view(), def.deep_view().indexes.len()),
{
    let ghost d = def.deep_view();
    let mut out: Vec<Vec<Value>> = Vec::new();
    assert(out.deep_view() =~= Seq::empty());
    let mut i: usize = 0;
    while i < def.indexes.len()
        invariant
            d == def.deep_view(),
            i <= def.indexes.len(),
            out.deep_view() == all_key_rows(d, i as nat),
        decreases def.indexes.len() - i,
    {
        assert(d.indexes[i as int] == def.indexes[i as int].deep_view());
        let more = list_keys(&def.columns, &def.indexes[i]);
        extend_rows(&mut out, more);
        i += 1;
    }
    out
}

/// The position of the primary key as a developer reads it.
fn show_key(key: Option<usize>) -> (r: String)
    ensures
        r@ == key_text(pos(key)),
{
    match key {
        Some(i) => {
            let n = i64_text((i as i32) as i64);
            join3("Some(", n.as_str(), ")")
        },
        None => "None".to_owned(),
    }
}

/// The rows of a listing for one table.
fn list_rows_for(l: Listing, def: &TableDef) -> (r: Vec<Vec<Value>>)
    ensures
        r.deep_view() == rows_for(l, def.deep_view()),
{
    match l {
        Listing::Tables => {
            let row = vec![
                Value::Varchar(def.name.clone()),
                Value::Varchar("BASE TABLE".to_owned()),
                Value::Int64(def.row_count as i64),
                Value::Int32(def.columns.len() as i32),
                Value::Varchar(show_key(def.primary_key_index())),
                Value::Boolean(def.ttl_seconds.is_some()),
            ];
            assert(row.deep_view() =~= table_row(def.deep_view()));
            let rows = vec![row];
            assert(rows.deep_view() =~= seq![table_row(def.deep_view())]);
            rows
        },
        Listing::Columns => list_columns(def),
        Listing::Indexes => list_indexes(def),
    }
}

/// The names of the tables in order.
fn sorted_names(db: &Database) -> (r: Vec<Vec<Value>>)
    ensures
        r.deep_view() == table_list(db.deep_view()),
{
    let ghost d = db.deep_view();
    let ghost m = name_rows(d);
    let mut rows: Vec<Vec<Value>> = Vec::new();
    let mut i: usize = 0;
    while i < db.tables.len()
        invariant
            d == db.deep_view(),
            m == name_rows(d),
            i <= db.tables.len(),
            rows.deep_view() == m.subrange(0, i as int),
        decreases db.tables.len() - i,
    {
        assert(d.tables[i as int] == db.tables[i as int].deep_view());
        let row = vec![Value::Varchar(db.tables[i].def.name.clone())];
        assert(row.deep_view() =~= m[i as int]);
        let ghost before = rows.deep_view();
        rows.push(row);
        assert(rows.deep_view() =~= before.push(row.deep_view()));
        i += 1;
        assert(rows.deep_view() =~= m.subrange(0, i as int));
    }
    assert(rows.deep_view() =~= m);
    let keys = vec![SortKey { column_index: 0, direction: SortDirection::Asc }];
    assert(keys@ =~= seq![SortKey { column_index: 0, direction: SortDirection::Asc }]);
    sort_keyed(&rows, &keys)
}

/// The rows of a listing for every table.
fn list_all(db: &Database, l: Listing) -> (r: Vec<Vec<Value>>)
    requires
        db.wf(),
    ensures
        r.deep_view() == listing(
            db.deep_view(),
            l,
            table_list(db.deep_view()),
            table_list(db.deep_view()).len(),
        ),
{
    let ghost d = db.deep_view();
    let names = sorted_names(db);
    let ghost all = names.deep_view();
    let mut out: Vec<Vec<Value>> = Vec::new();
    assert(out.deep_view() =~= Seq::empty());
    let mut i: usize = 0;
    while i < names.len()
        invariant
            db.wf(),
            d == db.deep_view(),
            all == names.deep_view(),
            all == table_list(d),
            i <= names.len(),
            out.deep_view() == listing(d, l, all, i as nat),
        decreases names.len() - i,
    {
        assert(all[i as int] == names[i as int].deep_view());
        proof {
            lemma_listed_names(d, i as int);
        }
        assert(all[i as int][0] == names[i as int][0].deep_view());
        if let Value::Varchar(s) = &names[i][0] {
            if let Some(t) = db.get_table(s.as_str()) {
                let more = list_rows_for(l, &t.def);
                extend_rows(&mut out, more);
            }
        }
        i += 1;
    }
    out
}

/// The list of names holds names.
proof fn lemma_listed_names(d: Db, i: int)
    requires
        d.tables.len() <= usize::MAX,
        0 <= i < table_list(d).len(),
    ensures
        table_list(d)[i].len() == 1,
        table_list(d)[i][0] is Varchar,
{
    let keys = seq![SortKey { column_index: 0, direction: SortDirection::Asc }];
    let ord = |a: Seq<Datum>, b: Seq<Datum>| row_order(a, b, keys, 0);
    let rows = name_rows(d);
    law_sort_permutes(rows, ord, 0, rows.len() as int);
    let p = sorted_positions(rows, ord, 0, rows.len() as int);
    assert(0 <= p[i] < rows.len());
}

/// The answer about one table.
fn detail(db: &Database, q: Detail, arg: &Option<String>) -> (r: Result<
    QueryResult,
    EngramDbError,
>)
    requires
        db.wf(),
    ensures
        match (
            r,
            detailed(db.deep_view(), q, opt_text(*arg)),
        ) {
            (Ok(x), Ok(m)) => x.deep_view() == m,
            (Err(e), Err(f)) => e.deep_view() == f,
            _ => false,
        },
{
    let name = match arg {
        Some(n) => n,
        None => {
            let text = match q {
                Detail::TableInfo => "PRAGMA table_info requires table name",
                Detail::IndexInfo => "PRAGMA index_info requires table name",
                Detail::IndexList => "PRAGMA index_list requires table name",
            };
            return Err(EngramDbError::Parse(text.to_owned()));
        },
    };
    let t = match db.get_table(name.as_str()) {
        Some(t) => t,
        None => {
            return Err(EngramDbError::TableNotFound(name.clone()));
        },
    };
    let (columns, rows) = match q {
        Detail::TableInfo => (
            strings(&["cid", "name", "type", "notnull", "dflt_value", "pk"]),
            list_info(&t.def),
        ),
        Detail::IndexInfo => (
            strings(&["seqno", "name", "index_name"]),
            list_all_keys(&t.def),
        ),
        Detail::IndexList => (
            strings(&["seq", "name", "key_columns", "unique", "type"]),
            list_index_list(&t.def),
        ),
    };
    assert(columns.deep_view() =~= detail_columns(q));
    Ok(QueryResult { columns, rows, rows_affected: 0 })
}

/// The answer about every table.
fn catalogue(db: &Database, l: Listing) -> (r: QueryResult)
    requires
        db.wf(),
    ensures
        r.deep_view() == catalogued(db.deep_view(), l),
{
    let columns = match l {
        Listing::Tables => strings(
            &["table_name", "table_type", "row_count", "column_count", "primary_key", "has_ttl"],
        ),
        Listing::Columns => strings(
            &[
                "table_name",
                "column_name",
                "ordinal_position",
                "data_type",
                "nullable",
                "is_primary_key",
                "auto_increment",
            ],
        ),
        Listing::Indexes => strings(
            &[
                "table_name",
                "index_name",
                "index_type",
                "key_columns",
                "included_columns",
                "unique",
            ],
        ),
    };
    assert(columns.deep_view() =~= listing_columns(l));
    let rows = list_all(db, l);
    QueryResult { columns, rows, rows_affected: 0 }
}

/// Reads or sets the journal mode.
fn journal_mode(db: &mut Database, arg: &Option<String>) -> (r: Result<QueryResult, EngramDbError>)
    requires
        old(db).wf(),
    ensures
        final(db).wf(),
        answered(
            r,
            final(db).deep_view(),
            journaled(old(db).deep_view(), opt_text(*arg)),
        ),
{
    match arg {
        None => {
            let name = match db.config.wal_flush_mode {
                WalFlushMode::Sync => "wal",
                WalFlushMode::Periodic => "delete",
                WalFlushMode::BufferFull => "off",
            };
            Ok(one_value("journal_mode", Value::Varchar(name.to_owned()), 0))
        },
        Some(a) => {
            let low = to_lower(a.as_str());
            let l = low.as_str();
            let mode: WalFlushMode = if same_text(l, "wal") {
                WalFlushMode::Sync
            } else if same_text(l, "delete") || same_text(l, "truncate") || same_text(
                l,
                "persist",
            ) {
                WalFlushMode::Periodic
            } else if same_text(l, "memory") || same_text(l, "off") {
                WalFlushMode::BufferFull
            } else {
                return Err(EngramDbError::Parse(join2("unknown journal_mode: ", a.as_str())));
            };
            db.set_wal_flush_mode(mode);
            let up = to_upper(a.as_str());
            Ok(one_value("journal_mode", Value::Varchar(up), 0))
        },
    }
}

/// The level that stands for a flush mode.
fn level(m: WalFlushMode) -> (r: &'static str)
    ensures
        r@ == level_name(m),
{
    match m {
        WalFlushMode::Sync => "2",
        WalFlushMode::Periodic => "1",
        WalFlushMode::BufferFull => "0",
    }
}

/// Reads or sets the level of synchronization.
fn synchronous(db: &mut Database, arg: &Option<String>) -> (r: Result<QueryResult, EngramDbError>)
    requires
        old(db).wf(),
    ensures
        final(db).wf(),
        answered(
            r,
            final(db).deep_view(),
            synchronized(old(db).deep_view(), opt_text(*arg)),
        ),
{
    match arg {
        None => {
            let name = level(db.config.wal_flush_mode);
            Ok(one_value("synchronous", Value::Varchar(name.to_owned()), 0))
        },
        Some(a) => {
            let low = to_lower(a.as_str());
            let l = low.as_str();
            let mode: WalFlushMode = if same_text(l, "0") || same_text(l, "off") {
                WalFlushMode::BufferFull
            } else if same_text(l, "1") || same_text(l, "normal") {
                WalFlushMode::Periodic
            } else if same_text(l, "2") || same_text(l, "full") {
                WalFlushMode::Sync
            } else {
                return Err(
                    EngramDbError::Parse(join2("unknown synchronous level: ", a.as_str())),
                );
            };
            db.set_wal_flush_mode(mode);
            Ok(one_value("synchronous", Value::Varchar(level(mode).to_owned()), 0))
        },
    }
}

/// Reads or sets the size of the cache.
fn cache_size(db: &mut Database, arg: &Option<String>) -> (r: Result<QueryResult, EngramDbError>)
    requires
        old(db).wf(),
    ensures
        final(db).wf(),
        answered(
            r,
            final(db).deep_view(),
            cached(old(db).deep_view(), opt_text(*arg)),
        ),
{
    match arg {
        None => Ok(one_value("cache_size", Value::Int64((db.cache_bytes / 1024) as i64), 0)),
        Some(a) => match parse_int(a.as_str(), i64::MIN as i128, i64::MAX as i128) {
            None => Err(EngramDbError::Parse(join2("invalid cache_size: ", a.as_str()))),
            Some(kb) => {
                assert(i64::MIN <= kb <= i64::MAX);
                let size: i128 = if kb >= 0 {
                    kb
                } else {
                    0 - kb
                };
                db.cache_bytes = (size as usize).wrapping_mul(1024);
                Ok(one_value("cache_size", Value::Int64(kb as i64), 0))
            },
        },
    }
}

/// Reads or sets a property of the database, whose file has the given size.
pub fn execute(db: &mut Database, stmt: &PragmaStmt, file_bytes: u64) -> (r: Result<
    QueryResult,
    EngramDbError,
>)
    requires
        old(db).wf(),
    ensures
        final(db).wf(),
        answered(
            r,
            final(db).deep_view(),
            pragma(
                old(db).deep_view(),
                stmt.deep_view().0,
                stmt.deep_view().1,
                file_bytes,
            ),
        ),
{
    let low = to_lower(stmt.name.as_str());
    let n = low.as_str();
    if same_text(n, "table_info") {
        detail(db, Detail::TableInfo, &stmt.arg)
    } else if same_text(n, "database_list") {
        let columns = strings(&["seq", "name", "file"]);
        assert(columns.deep_view() =~= seq!["seq"@, "name"@, "file"@]);
        let row = vec![
            Value::Int32(0),
            Value::Varchar("main".to_owned()),
            Value::Varchar(db.path.clone()),
        ];
        let ghost m = seq![Datum::Int32(0), Datum::Varchar("main"@), Datum::Varchar(db.path@)];
        assert(row.deep_view() =~= m);
        let rows = vec![row];
        assert(rows.deep_view() =~= seq![m]);
        Ok(QueryResult { columns, rows, rows_affected: 0 })
    } else if same_text(n, "information_schema_tables") || same_text(n, "tables") {
        Ok(catalogue(db, Listing::Tables))
    } else if same_text(n, "information_schema_columns") || same_text(n, "columns") {
        Ok(catalogue(db, Listing::Columns))
    } else if same_text(n, "information_schema_indexes") || same_text(n, "indexes") {
        Ok(catalogue(db, Listing::Indexes))
    } else if same_text(n, "index_info") {
        detail(db, Detail::IndexInfo, &stmt.arg)
    } else if same_text(n, "index_list") {
        detail(db, Detail::IndexList, &stmt.arg)
    } else if same_text(n, "journal_mode") {
        journal_mode(db, &stmt.arg)
    } else if same_text(n, "synchronous") {
        synchronous(db, &stmt.arg)
    } else if same_text(n, "cache_size") {
        cache_size(db, &stmt.arg)
    } else if same_text(n, "page_size") {
        Ok(one_value("page_size", Value::Int64(db.config.block_size as i64), 0))
    } else if same_text(n, "page_count") {
        let count: u64 = if db.config.block_size > 0 {
            file_bytes / (db.config.block_size as u64)
        } else {
            0
        };
        Ok(one_value("page_count", Value::Int64(count as i64), 0))
    } else {
        Ok(status_result(join3("PRAGMA ", stmt.name.as_str(), " ok")))
    }
}

} // verus!
