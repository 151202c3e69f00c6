//! What statements about tables and settings do, and what can be read of it.
use vstd::prelude::*;

use crate::common::error::Fault;
use crate::common::types::{name_index, pk_index, ColumnModel, TableModel};
use crate::executor::expression::number_laws::law_integer_read;
use crate::executor::operators::alter_table::altered;
use crate::executor::operators::pragma::{detail_rows, kilobytes, pragma, Detail};
use crate::executor::statements::{options_set, truncated, vector_indexed, VectorOptions};
use crate::executor::upsert::{deciding, known_columns};
use crate::executor::upsert_laws::{lemma_named, stands_at, stands_nowhere};
use crate::query::{single, Query};
use crate::sql::ast::Alteration;
use crate::storage::database::{self, named, table_of, Db};
use crate::storage::database_laws::same_but;
use crate::storage::table::{live, Tbl};
use crate::text::{dec_int, lower_text};
use crate::value::Datum;

verus! {

/// Names that are spelt apart.
proof fn lemma_spelt()
    ensures
        "synchronous"@ != "journal_mode"@,
        "journal_mode"@ != "table_info"@,
        "journal_mode"@ != "database_list"@,
        "journal_mode"@ != "information_schema_tables"@,
        "journal_mode"@ != "tables"@,
        "journal_mode"@ != "information_schema_columns"@,
        "journal_mode"@ != "columns"@,
        "journal_mode"@ != "information_schema_indexes"@,
        "journal_mode"@ != "indexes"@,
        "journal_mode"@ != "index_info"@,
        "journal_mode"@ != "index_list"@,
        "synchronous"@ != "table_info"@,
        "synchronous"@ != "database_list"@,
        "synchronous"@ != "information_schema_tables"@,
        "synchronous"@ != "tables"@,
        "synchronous"@ != "information_schema_columns"@,
        "synchronous"@ != "columns"@,
        "synchronous"@ != "information_schema_indexes"@,
        "synchronous"@ != "indexes"@,
        "synchronous"@ != "index_info"@,
        "synchronous"@ != "index_list"@,
        "synchronous"@ != "journal_mode"@,
        "cache_size"@ != "table_info"@,
        "cache_size"@ != "database_list"@,
        "cache_size"@ != "information_schema_tables"@,
        "cache_size"@ != "tables"@,
        "cache_size"@ != "information_schema_columns"@,
        "cache_size"@ != "columns"@,
        "cache_size"@ != "information_schema_indexes"@,
        "cache_size"@ != "indexes"@,
        "cache_size"@ != "index_info"@,
        "cache_size"@ != "index_list"@,
        "cache_size"@ != "journal_mode"@,
        "cache_size"@ != "synchronous"@,
        "page_size"@ != "table_info"@,
        "page_size"@ != "database_list"@,
        "page_size"@ != "information_schema_tables"@,
        "page_size"@ != "tables"@,
        "page_size"@ != "information_schema_columns"@,
        "page_size"@ != "columns"@,
        "page_size"@ != "information_schema_indexes"@,
        "page_size"@ != "indexes"@,
        "page_size"@ != "index_info"@,
        "page_size"@ != "index_list"@,
        "page_size"@ != "journal_mode"@,
        "page_size"@ != "synchronous"@,
        "page_size"@ != "cache_size"@,
        "page_count"@ != "table_info"@,
        "page_count"@ != "database_list"@,
        "page_count"@ != "information_schema_tables"@,
        "page_count"@ != "tables"@,
        "page_count"@ != "information_schema_columns"@,
        "page_count"@ != "columns"@,
        "page_count"@ != "information_schema_indexes"@,
        "page_count"@ != "indexes"@,
        "page_count"@ != "index_info"@,
        "page_count"@ != "index_list"@,
        "page_count"@ != "journal_mode"@,
        "page_count"@ != "synchronous"@,
        "page_count"@ != "cache_size"@,
        "page_count"@ != "page_size"@,
        "off"@ != "0"@,
        "normal"@ != "0"@,
        "normal"@ != "off"@,
        "normal"@ != "1"@,
        "1"@ != "0"@,
        "1"@ != "off"@,
        "2"@ != "0"@,
        "2"@ != "off"@,
        "2"@ != "1"@,
        "2"@ != "normal"@,
        "full"@ != "0"@,
        "full"@ != "off"@,
        "full"@ != "1"@,
        "full"@ != "normal"@,
        "delete"@ != "wal"@,
        "truncate"@ != "wal"@,
        "persist"@ != "wal"@,
        "memory"@ != "wal"@,
        "off"@ != "wal"@,
        "memory"@ != "delete"@,
        "memory"@ != "truncate"@,
        "memory"@ != "persist"@,
        "off"@ != "delete"@,
        "off"@ != "truncate"@,
        "off"@ != "persist"@,
{
    reveal_strlit("table_info");
    reveal_strlit("database_list");
    reveal_strlit("information_schema_tables");
    reveal_strlit("tables");
    reveal_strlit("information_schema_columns");
    reveal_strlit("columns");
    reveal_strlit("information_schema_indexes");
    reveal_strlit("indexes");
    reveal_strlit("index_info");
    reveal_strlit("index_list");
    reveal_strlit("journal_mode");
    reveal_strlit("synchronous");
    reveal_strlit("cache_size");
    reveal_strlit("page_size");
    reveal_strlit("page_count");
    reveal_strlit("0");
    reveal_strlit("off");
    reveal_strlit("1");
    reveal_strlit("normal");
    reveal_strlit("2");
    reveal_strlit("full");
    reveal_strlit("wal");
    reveal_strlit("delete");
    reveal_strlit("truncate");
    reveal_strlit("persist");
    reveal_strlit("memory");
    assert("0"@.len() == 1 && "0"@[0] == '0');
    assert("1"@.len() == 1 && "1"@[0] == '1');
    assert("2"@.len() == 1 && "2"@[0] == '2');
    assert("off"@.len() == 3 && "off"@[0] == 'o');
    assert("wal"@.len() == 3 && "wal"@[0] == 'w');
    assert("full"@.len() == 4);
    assert("tables"@.len() == 6 && "tables"@[0] == 't');
    assert("normal"@.len() == 6 && "normal"@[0] == 'n');
    assert("delete"@.len() == 6 && "delete"@[0] == 'd');
    assert("memory"@.len() == 6 && "memory"@[0] == 'm');
    assert("columns"@.len() == 7 && "columns"@[0] == 'c');
    assert("indexes"@.len() == 7 && "indexes"@[0] == 'i');
    assert("persist"@.len() == 7 && "persist"@[0] == 'p');
    assert("truncate"@.len() == 8);
    assert("page_size"@.len() == 9);
    assert("table_info"@.len() == 10 && "table_info"@[0] == 't' && "table_info"@[6] == 'i');
    assert("index_info"@.len() == 10 && "index_info"@[0] == 'i' && "index_info"@[6] == 'i');
    assert("index_list"@.len() == 10 && "index_list"@[0] == 'i' && "index_list"@[6] == 'l');
    assert("cache_size"@.len() == 10 && "cache_size"@[0] == 'c' && "cache_size"@[6] == 's');
    assert("page_count"@.len() == 10 && "page_count"@[0] == 'p' && "page_count"@[6] == 'o');
    assert("synchronous"@.len() == 11);
    assert("journal_mode"@.len() == 12);
    assert("database_list"@.len() == 13);
    assert("information_schema_tables"@.len() == 25);
    assert("information_schema_columns"@.len() == 26 && "information_schema_columns"@[19] == 'c');
    assert("information_schema_indexes"@.len() == 26 && "information_schema_indexes"@[19] == 'i');
}

/// A setting that was made is read: a level of synchronization, a journal mode, and the
/// size of the cache, of which the sign is dropped.
pub proof fn law_settings(d: Db, name: Seq<char>, arg: Seq<char>, kb: int, bytes: u64)
    ensures
        lower_text(name) == "synchronous"@ ==> {
            let a = lower_text(arg);
            let u = pragma(d, name, Some(arg), bytes).1;
            let level = |s: Seq<char>|
                pragma(u, name, None, bytes) == (
                    Ok::<Query, Fault>(single("synchronous"@, Datum::Varchar(s), 0)),
                    u,
                );
            &&& a == "0"@ || a == "off"@ ==> level("0"@)
            &&& a == "1"@ || a == "normal"@ ==> level("1"@)
            &&& a == "2"@ || a == "full"@ ==> level("2"@)
            &&& pragma(d, name, Some(arg), bytes).0 is Err ==> u == d
        },
        lower_text(name) == "journal_mode"@ ==> {
            let a = lower_text(arg);
            let u = pragma(d, name, Some(arg), bytes).1;
            let mode = |s: Seq<char>|
                pragma(u, name, None, bytes) == (
                    Ok::<Query, Fault>(single("journal_mode"@, Datum::Varchar(s), 0)),
                    u,
                );
            &&& a == "wal"@ ==> mode("wal"@)
            &&& a == "delete"@ || a == "truncate"@ || a == "persist"@ ==> mode("delete"@)
            &&& a == "memory"@ || a == "off"@ ==> mode("off"@)
            &&& pragma(d, name, Some(arg), bytes).0 is Err ==> u == d
        },
        lower_text(name) == "cache_size"@ && -0x20_0000 <= kb <= 0x20_0000 ==> {
            let u = pragma(d, name, Some(dec_int(kb)), bytes).1;
            pragma(u, name, None, bytes) == (
                Ok::<Query, Fault>(
                    single(
                        "cache_size"@,
                        Datum::Int64(
                            (if kb < 0 {
                                -kb
                            } else {
                                kb
                            }) as i64,
                        ),
                        0,
                    ),
                ),
                u,
            )
        },
{
    lemma_spelt();
    if -0x20_0000 <= kb <= 0x20_0000 {
        law_integer_read(kb, i64::MIN as int, i64::MAX as int);
        let m = (if kb >= 0 {
            kb
        } else {
            -kb
        }) as usize;
        assert(m * 1024 <= usize::MAX);
        assert((m * 1024) % (usize::MAX + 1) == m * 1024) by {
            vstd::arithmetic::div_mod::lemma_small_mod(
                (m * 1024) as nat,
                (usize::MAX + 1) as nat,
            );
        }
        assert(m.wrapping_mul(1024) == m * 1024);
        assert(kilobytes(kb) == m * 1024);
    }
}

/// The size of a page is the block size, and a file has as many pages as blocks that it
/// fills.
pub proof fn law_pages(d: Db, name: Seq<char>, bytes: u64, n: int)
    requires
        0 < d.config.block_size <= i64::MAX,
    ensures
        lower_text(name) == "page_size"@ ==> pragma(d, name, None, bytes).0 == Ok::<
            Query,
            Fault,
        >(single("page_size"@, Datum::Int64(d.config.block_size as i64), 0)),
        lower_text(name) == "page_count"@ && 0 <= n <= i64::MAX && n * d.config.block_size <= bytes
            && bytes < (n + 1) * d.config.block_size ==> pragma(d, name, None, bytes).0 == Ok::<
            Query,
            Fault,
        >(single("page_count"@, Datum::Int64(n as i64), 0)),
        lower_text(name) == "page_count"@ || lower_text(name) == "page_size"@ ==> pragma(
            d,
            name,
            None,
            bytes,
        ).1 == d,
{
    lemma_spelt();
    let b = d.config.block_size as int;
    if 0 <= n && n * d.config.block_size <= bytes && bytes < (n + 1) * d.config.block_size {
        assert(bytes as int / b == n) by (nonlinear_arith)
            requires
                n * b <= bytes as int,
                (bytes as int) < (n + 1) * b,
                b > 0,
                n >= 0,
        ;
    }
}

/// What is told of a table names its columns in their order, and says of each whether it
/// forbids NULL and whether it makes the primary key.
pub proof fn law_table_info(def: TableModel, i: int)
    requires
        0 <= i < def.columns.len() <= i32::MAX,
    ensures
        ({
            let rows = detail_rows(Detail::TableInfo, def);
            &&& rows.len() == def.columns.len()
            &&& rows[i].len() == 6
            &&& rows[i][0] == Datum::Int32(i as i32)
            &&& rows[i][1] == Datum::Varchar(def.columns[i].name)
            &&& rows[i][3] matches Datum::Boolean(b) && b != def.columns[i].nullable
            &&& rows[i][5] == Datum::Boolean(def.columns[i].is_primary_key)
        }),
{
}

/// A change of a table changes its definition and leaves its rows and all other tables: a
/// new column is the last one, a column that is dropped is gone from between its
/// neighbours, and a column with another name is otherwise as it was.
pub proof fn law_alter_columns(
    d: Db,
    table: Seq<char>,
    c: ColumnModel,
    a: Seq<char>,
    b: Seq<char>,
    k: int,
    j: int,
)
    requires
        named(d, table) == Some(k),
        stands_at(d.tables[k].def.columns, a, j),
    ensures
        ({
            let t = d.tables[k];
            let n = t.def.columns.len() as int;
            let add = altered(d, table, Alteration::AddColumn(c));
            let drop = altered(d, table, Alteration::DropColumn(a));
            let name = altered(d, table, Alteration::RenameColumn(a, b));
            &&& add.0 is Ok && drop.0 is Ok && name.0 is Ok
            &&& same_but(d, add.1, k) && same_but(d, drop.1, k) && same_but(d, name.1, k)
            &&& add.1.tables[k].slots == t.slots && drop.1.tables[k].slots == t.slots
                && name.1.tables[k].slots == t.slots
            &&& add.1.tables[k].def == TableModel { columns: add.1.tables[k].def.columns, ..t.def }
            &&& add.1.tables[k].def.columns == t.def.columns + seq![c]
            &&& drop.1.tables[k].def == TableModel {
                columns: drop.1.tables[k].def.columns,
                ..t.def
            }
            &&& drop.1.tables[k].def.columns == t.def.columns.subrange(0, j)
                + t.def.columns.subrange(j + 1, n)
            &&& name.1.tables[k].def == TableModel {
                columns: name.1.tables[k].def.columns,
                ..t.def
            }
            &&& name.1.tables[k].def.columns.len() == n
            &&& name.1.tables[k].def.columns[j] == ColumnModel { name: b, ..t.def.columns[j] }
            &&& forall|i: int|
                0 <= i < n && i != j ==> #[trigger] name.1.tables[k].def.columns[i]
                    == t.def.columns[i]
        }),
{
    let t = d.tables[k];
    database::lemma_named(d.tables, table, 0);
    lemma_named(t.def.columns, a);
    let p = name_index(t.def.columns, a);
    if let Some(i) = p {
        if i < j {
            assert(t.def.columns[i].name != a);
        }
        if j < i {
            assert(t.def.columns[j].name != a);
        }
    }
    assert(p == Some(j));
    let n = t.def.columns.len() as int;
    assert(t.def.columns.push(c) =~= t.def.columns + seq![c]);
    assert(t.def.columns.remove(j) =~= t.def.columns.subrange(0, j) + t.def.columns.subrange(
        j + 1,
        n,
    ));
}

/// A column that is not there cannot be dropped or get another name, and nothing changes.
pub proof fn law_no_such_column(
    d: Db,
    table: Seq<char>,
    a: Seq<char>,
    b: Seq<char>,
    k: int,
)
    requires
        named(d, table) == Some(k),
        stands_nowhere(d.tables[k].def.columns, a),
    ensures
        altered(d, table, Alteration::DropColumn(a)) == (
            Err::<Query, Fault>(Fault::ColumnNotFound(a)),
            d,
        ),
        altered(d, table, Alteration::RenameColumn(a, b)) == (
            Err::<Query, Fault>(Fault::ColumnNotFound(a)),
            d,
        ),
{
    lemma_named(d.tables[k].def.columns, a);
}

/// A table that is truncated has no rows, keeps its definition, and goes on with the
/// numbers that it gives out. The others stay.
pub proof fn law_truncate(d: Db, table: Seq<char>, k: int)
    requires
        named(d, table) == Some(k),
    ensures
        truncated(d, table).0 is Ok,
        same_but(d, truncated(d, table).1, k),
        ({
            let (t, u) = (d.tables[k], truncated(d, table).1.tables[k]);
            &&& live(u.slots, u.slots.len()).len() == 0
            &&& u.def == TableModel { row_count: 0, ..t.def }
        }),
{
    database::lemma_named(d.tables, table, 0);
}

/// The columns that tell the rows of an upsert apart are those that it names, in its
/// order; where it names none of the table, the primary key.
pub proof fn law_deciding(columns: Seq<ColumnModel>, names: Seq<Seq<char>>)
    requires
        columns.len() <= usize::MAX,
    ensures
        (forall|i: int| 0 <= i < names.len() ==> stands_nowhere(columns, #[trigger] names[i])) ==> (
        match pk_index(columns) {
            Some(c) => deciding(columns, names) == seq![c as usize],
            None => deciding(columns, names).len() == 0,
        }),
        (forall|i: int| 0 <= i < names.len() ==> !stands_nowhere(columns, #[trigger] names[i]))
            && names.len() > 0 ==> deciding(columns, names).len() == names.len() && forall|i: int|
            0 <= i < names.len() ==> stands_at(
                columns,
                #[trigger] names[i],
                deciding(columns, names)[i] as int,
            ),
{
    lemma_known(columns, names, names.len());
}

proof fn lemma_known(columns: Seq<ColumnModel>, names: Seq<Seq<char>>, n: nat)
    requires
        n <= names.len(),
        columns.len() <= usize::MAX,
    ensures
        (forall|i: int| 0 <= i < n ==> stands_nowhere(columns, #[trigger] names[i])) ==> known_columns(
            columns,
            names,
            n,
        ).len() == 0,
        (forall|i: int| 0 <= i < n ==> !stands_nowhere(columns, #[trigger] names[i])) ==> {
            let k = known_columns(columns, names, n);
            k.len() == n && forall|i: int|
                0 <= i < n ==> stands_at(columns, #[trigger] names[i], k[i] as int)
        },
    decreases n,
{
    if n > 0 {
        lemma_known(columns, names, (n - 1) as nat);
        lemma_named(columns, names[n - 1]);
        if forall|i: int| 0 <= i < n ==> stands_nowhere(columns, #[trigger] names[i]) {
            assert(stands_nowhere(columns, names[n - 1]));
            lemma_one_place(columns, names[n - 1]);
        }
        if forall|i: int| 0 <= i < n ==> !stands_nowhere(columns, #[trigger] names[i]) {
            assert(!stands_nowhere(columns, names[n - 1]));
            let (before, k) = (
                known_columns(columns, names, (n - 1) as nat),
                known_columns(columns, names, n),
            );
            assert forall|i: int| 0 <= i < n implies stands_at(
                columns,
                #[trigger] names[i],
                k[i] as int,
            ) by {
                if i < n - 1 {
                    assert(k[i] == before[i]);
                }
            }
        }
    }
}

proof fn lemma_one_place(columns: Seq<ColumnModel>, name: Seq<char>)
    requires
        stands_nowhere(columns, name),
    ensures
        forall|p: int| !#[trigger] stands_at(columns, name, p),
{
    assert forall|p: int| !#[trigger] stands_at(columns, name, p) by {
        if 0 <= p < columns.len() {
            assert(columns[p].name != name);
        }
    }
}

/// An option of a vector index sets what it names and leaves the other settings: a later
/// one takes the place of an earlier one.
pub proof fn law_vector_option(
    options: Seq<(Seq<char>, Seq<char>)>,
    s: VectorOptions,
    n: usize,
    key: Seq<char>,
    val: Seq<char>,
)
    requires
        options_set(options, options.len()) == Ok::<VectorOptions, Fault>(s),
        key != "m"@ && key != "ef_construction"@ && key != "metric"@,
    ensures
        ({
            let o = options.push(("m"@, dec_int(n as int)));
            options_set(o, o.len()) matches Ok(r) && r.m == n && r.ef_construction
                == s.ef_construction && r.metric == s.metric
        }),
        ({
            let o = options.push(("ef_construction"@, dec_int(n as int)));
            options_set(o, o.len()) matches Ok(r) && r.ef_construction == n && r.m == s.m
                && r.metric == s.metric
        }),
        ({
            let o = options.push((key, val));
            options_set(o, o.len()) == Ok::<VectorOptions, Fault>(s)
        }),
{
    reveal_strlit("m");
    reveal_strlit("ef_construction");
    reveal_strlit("metric");
    assert("m"@.len() == 1 && "metric"@.len() == 6 && "ef_construction"@.len() == 15);
    law_integer_read(n as int, 0, usize::MAX as int);
    let a = options.push(("m"@, dec_int(n as int)));
    let b = options.push(("ef_construction"@, dec_int(n as int)));
    let c = options.push((key, val));
    lemma_options_front(options, a, options.len());
    lemma_options_front(options, b, options.len());
    lemma_options_front(options, c, options.len());
}

proof fn lemma_options_front(
    a: Seq<(Seq<char>, Seq<char>)>,
    b: Seq<(Seq<char>, Seq<char>)>,
    n: nat,
)
    requires
        n <= a.len() <= b.len(),
        forall|i: int| 0 <= i < a.len() ==> a[i] == b[i],
    ensures
        options_set(a, n) == options_set(b, n),
    decreases n,
{
    if n > 0 {
        lemma_options_front(a, b, (n - 1) as nat);
    }
}

/// A vector index is made on the first column that it is asked for, with the settings of
/// its options, behind those that there are; nothing else changes.
pub proof fn law_vector_index(
    d: Db,
    table: Seq<char>,
    index: Seq<char>,
    keys: Seq<usize>,
    options: Seq<(Seq<char>, Seq<char>)>,
    s: VectorOptions,
    t: Tbl,
)
    requires
        options_set(options, options.len()) == Ok::<VectorOptions, Fault>(s),
        table_of(d, table) == Some(t),
        keys.len() > 0 && keys[0] < t.def.columns.len(),
    ensures
        ({
            let (r, u) = vector_indexed(d, table, index, keys, options);
            let n = d.vector_indexes.len() as int;
            &&& r is Ok
            &&& u == Db { vector_indexes: u.vector_indexes, ..d }
            &&& u.vector_indexes.len() == n + 1
            &&& forall|i: int| 0 <= i < n ==> #[trigger] u.vector_indexes[i] == d.vector_indexes[i]
            &&& u.vector_indexes[n].table_name == table
            &&& u.vector_indexes[n].index_name == index
            &&& u.vector_indexes[n].column_name == t.def.columns[keys[0] as int].name
            &&& u.vector_indexes[n].metric == s.metric
            &&& u.vector_indexes[n].m == s.m
            &&& u.vector_indexes[n].ef_construction == s.ef_construction
        }),
{
}

} // verus!
