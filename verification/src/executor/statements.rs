//! Statements that change the database.
use vstd::prelude::*;

use crate::common::config::IsolationLevel;
use crate::common::error::{EngramDbError, Fault};
use crate::common::types::{opt_text, IndexModel, TableDef, TableModel};
use crate::executor::env::{answers, oracle, Answer, Ask, Question, Reply};
use crate::executor::operators::alter_table::answered;
use crate::executor::operators::insert;
use crate::executor::operators::insert::{flush_txn_buffer, flushed, inserted_all};
use crate::executor::upsert::{
    opt_items, returned_names, returned_row, returning_names, returning_row,
};
use crate::query::{one_value, single, status, status_result, Query, QueryResult};
use crate::sql::ast::{Item, SelectItem};
use crate::storage::database::{
    named, table_of, with_index, with_new_table, with_table, Database, Db, DistanceMetric,
    VectorIndexDef, VectorIndexModel,
};
use crate::storage::table::{empty_table, Table, Tbl};
use crate::storage::txn::{begun, closed, committed, released, returned, saved};
use crate::text::{
    dec, digit, int_text, join2, join3, lower_text, parse_int, same_text, to_lower, u64_text, usize_text,
};
use crate::value::Datum;
use crate::Value;

verus! {

/// The creation of a table.
pub open spec fn created(d: Db, def: TableModel) -> (Result<Query, Fault>, Db) {
    match with_new_table(d, def) {
        Err(f) => (Err(f), d),
        Ok(u) => (Ok(status("Table '"@ + def.name + "' created"@)), u),
    }
}

/// The settings of a vector index.
#[derive(Debug, Clone, Copy, PartialEq, Eq, Structural)]
pub struct VectorOptions {
    pub metric: DistanceMetric,
    pub m: usize,
    pub ef_construction: usize,
}

/// The metric of that name.
pub open spec fn metric_named(s: Seq<char>) -> Option<DistanceMetric> {
    if s == "l2"@ || s == "l2_distance"@ {
        Some(DistanceMetric::L2)
    } else if s == "cosine"@ || s == "cosine_similarity"@ {
        Some(DistanceMetric::Cosine)
    } else if s == "ip"@ || s == "inner_product"@ {
        Some(DistanceMetric::InnerProduct)
    } else {
        None
    }
}

/// The name of a metric.
pub open spec fn metric_name(m: DistanceMetric) -> Seq<char> {
    match m {
        DistanceMetric::L2 => "L2"@,
        DistanceMetric::Cosine => "Cosine"@,
        DistanceMetric::InnerProduct => "InnerProduct"@,
    }
}

/// The settings after one option. Options that are not known are ignored.
pub open spec fn option_set(s: VectorOptions, key: Seq<char>, val: Seq<char>) -> Result<
    VectorOptions,
    Fault,
> {
    if key == "metric"@ {
        match metric_named(lower_text(val)) {
            Some(metric) => Ok(VectorOptions { metric, ..s }),
            None => Err(Fault::Parse("unknown metric: "@ + val)),
        }
    } else if key == "m"@ {
        match int_text(val, 0, usize::MAX as int) {
            Some(m) => Ok(VectorOptions { m: m as usize, ..s }),
            None => Err(Fault::Parse("invalid m: "@ + val)),
        }
    } else if key == "ef_construction"@ {
        match int_text(val, 0, usize::MAX as int) {
            Some(n) => Ok(VectorOptions { ef_construction: n as usize, ..s }),
            None => Err(Fault::Parse("invalid ef_construction: "@ + val)),
        }
    } else {
        Ok(s)
    }
}

/// The settings after the first `n` options.
pub open spec fn options_set(options: Seq<(Seq<char>, Seq<char>)>, n: nat) -> Result<
    VectorOptions,
    Fault,
>
    decreases n,
{
    if n == 0 {
        Ok(VectorOptions { metric: DistanceMetric::L2, m: 16, ef_construction: 100 })
    } else {
        match options_set(options, (n - 1) as nat) {
            Err(f) => Err(f),
            Ok(s) => option_set(s, options[n - 1].0, options[n - 1].1),
        }
    }
}

/// The creation of a vector index.
pub open spec fn vector_indexed(
    d: Db,
    table: Seq<char>,
    index: Seq<char>,
    keys: Seq<usize>,
    options: Seq<(Seq<char>, Seq<char>)>,
) -> (Result<Query, Fault>, Db) {
    match options_set(options, options.len()) {
        Err(f) => (Err(f), d),
        Ok(s) => match table_of(d, table) {
            None => (Err(Fault::TableNotFound(table)), d),
            Some(t) => {
                let column = if keys.len() > 0 && keys[0] < t.def.columns.len() {
                    t.def.columns[keys[0] as int].name
                } else {
                    Seq::empty()
                };
                let x = VectorIndexModel {
                    table_name: table,
                    index_name: index,
                    column_name: column,
                    metric: s.metric,
                    m: s.m,
                    ef_construction: s.ef_construction,
                };
                (
                    Ok(
                        status(
                            "Vector index '"@ + index + "' created on '"@ + table + "' (metric="@
                                + metric_name(s.metric) + ", m="@ + dec(s.m as nat)
                                + ", ef_construction="@ + dec(s.ef_construction as nat) + ")"@,
                        ),
                    ),
                    Db { vector_indexes: d.vector_indexes.push(x), ..d },
                )
            },
        },
    }
}

/// The creation of an index.
pub open spec fn index_created(
    d: Db,
    table: Seq<char>,
    index: Seq<char>,
    keys: Seq<usize>,
    included: Seq<usize>,
    unique: bool,
    using: Option<Seq<char>>,
    options: Seq<(Seq<char>, Seq<char>)>,
) -> (Result<Query, Fault>, Db) {
    match using {
        Some(u) => if lower_text(u) == "hnsw"@ {
            vector_indexed(d, table, index, keys, options)
        } else {
            (Err(Fault::Parse("unsupported index type: "@ + u)), d)
        },
        None => match with_index(
            d,
            table,
            IndexModel {
                name: index,
                key_columns: keys,
                included_columns: included,
                unique,
                index_type: "skiplist"@,
            },
        ) {
            Err(f) => (Err(f), d),
            Ok(u) => (
                Ok(
                    status(
                        "Index '"@ + index + "' created on '"@ + table + "' ("@ + dec(keys.len())
                            + " key, "@ + dec(included.len()) + " included)"@,
                    ),
                ),
                u,
            ),
        },
    }
}

/// What items give of the `n` rows from a slot on.
pub open spec fn returned_from(
    o: spec_fn(Question) -> Answer,
    t: Tbl,
    items: Seq<Item>,
    base: int,
    n: nat,
) -> Result<Seq<Seq<Datum>>, Fault>
    decreases n,
{
    if n == 0 {
        Ok(Seq::empty())
    } else {
        let k = base + n - 1;
        match returned_from(o, t, items, base, (n - 1) as nat) {
            Err(f) => Err(f),
            Ok(done) => if k < t.slots.len() && t.slots[k] is Some {
                match returned_row(o, items, t.slots[k]->0, t.def.columns, items.len()) {
                    Err(f) => Err(f),
                    Ok(row) => Ok(done.push(row)),
                }
            } else {
                Err(
                    Fault::Internal(
                        "RETURNING: row_id "@ + dec(k as nat) + " not found after insert"@,
                    ),
                )
            },
        }
    }
}

/// The insertion of rows, and what it gives back. Where it gives rows back,
/// they are written at once.
pub open spec fn inserted_returning(
    o: spec_fn(Question) -> Answer,
    d: Db,
    name: Seq<char>,
    rows: Seq<Seq<Datum>>,
    items: Option<Seq<Item>>,
) -> (Result<Query, Fault>, Db) {
    match items {
        None => {
            let a = inserted_all(o, d, name, rows, false);
            match a.0 {
                Err(f) => (Err(f), a.1),
                Ok(n) => (Ok(single("rows_inserted"@, Datum::Int64(n as i64), n)), a.1),
            }
        },
        Some(list) => match table_of(d, name) {
            None => (Err(Fault::TableNotFound(name)), d),
            Some(before) => {
                let a = inserted_all(o, d, name, rows, true);
                match a.0 {
                    Err(f) => (Err(f), a.1),
                    Ok(n) => match table_of(a.1, name) {
                        None => (Err(Fault::TableNotFound(name)), a.1),
                        Some(t) => match returned_from(
                            o,
                            t,
                            list,
                            before.slots.len() as int,
                            rows.len(),
                        ) {
                            Err(f) => (Err(f), a.1),
                            Ok(out) => (
                                Ok(
                                    Query {
                                        columns: returned_names(list),
                                        rows: out,
                                        rows_affected: n,
                                    },
                                ),
                                a.1,
                            ),
                        },
                    },
                }
            },
        },
    }
}

/// The start of a transaction. What an earlier one left is dropped.
pub open spec fn begin_txn(d: Db) -> (Result<Query, Fault>, Db) {
    let b = begun(d.txns);
    (
        Ok(status("BEGIN (txn="@ + dec(b.1 as nat) + ")"@)),
        Db { txns: b.0, buffer: Seq::empty(), current: Some(b.1), ..d },
    )
}

/// The database after its buffer was written.
pub open spec fn buffer_written(o: spec_fn(Question) -> Answer, d: Db) -> (Option<Fault>, Db) {
    flushed(o, Db { buffer: Seq::empty(), ..d }, d.buffer, d.buffer.len())
}

/// The commit of the open transaction.
pub open spec fn commit_txn(o: spec_fn(Question) -> Answer, d: Db) -> (Result<Query, Fault>, Db) {
    match d.current {
        None => (Err(Fault::Internal("No active transaction to COMMIT"@)), d),
        Some(id) => {
            let w = buffer_written(o, d);
            match w.0 {
                Some(f) => (Err(f), w.1),
                None => match committed(w.1.txns, id) {
                    Err(f) => (Err(f), w.1),
                    Ok(c) => (
                        Ok(status("COMMIT"@)),
                        Db { txns: c.0, buffer: Seq::empty(), current: None, ..w.1 },
                    ),
                },
            }
        },
    }
}

/// The rollback of the open transaction.
pub open spec fn rollback_txn(d: Db) -> (Result<Query, Fault>, Db) {
    match d.current {
        None => (Err(Fault::Internal("No active transaction to ROLLBACK"@)), d),
        Some(id) => match closed(d.txns, id) {
            Err(f) => (Err(f), d),
            Ok(t) => (
                Ok(status("ROLLBACK"@)),
                Db { txns: t, buffer: Seq::empty(), current: None, ..d },
            ),
        },
    }
}

/// The setting of a savepoint.
pub open spec fn set_savepoint(o: spec_fn(Question) -> Answer, d: Db, name: Seq<char>) -> (
    Result<Query, Fault>,
    Db,
) {
    match d.current {
        None => (Err(Fault::Internal("No active transaction for SAVEPOINT"@)), d),
        Some(id) => {
            let w = buffer_written(o, d);
            match w.0 {
                Some(f) => (Err(f), w.1),
                None => match saved(w.1.txns, id, name) {
                    Err(f) => (Err(f), w.1),
                    Ok(t) => (Ok(status("SAVEPOINT "@ + name)), Db { txns: t, ..w.1 }),
                },
            }
        },
    }
}

/// The release of a savepoint.
pub open spec fn release(d: Db, name: Seq<char>) -> (Result<Query, Fault>, Db) {
    match d.current {
        None => (Err(Fault::Internal("No active transaction for RELEASE SAVEPOINT"@)), d),
        Some(id) => match released(d.txns, id, name) {
            Err(f) => (Err(f), d),
            Ok(t) => (Ok(status("RELEASE SAVEPOINT "@ + name)), Db { txns: t, ..d }),
        },
    }
}

/// The return to a savepoint. What was collected since is dropped.
pub open spec fn return_to(d: Db, name: Seq<char>) -> (Result<Query, Fault>, Db) {
    match d.current {
        None => (Err(Fault::Internal("No active transaction for ROLLBACK TO SAVEPOINT"@)), d),
        Some(id) => {
            let e = Db { buffer: Seq::empty(), ..d };
            match returned(e.txns, id, name) {
                Err(f) => (Err(f), e),
                Ok(t) => (Ok(status("ROLLBACK TO SAVEPOINT "@ + name)), Db { txns: t, ..e }),
            }
        },
    }
}

/// The taking of statistics of a table.
pub open spec fn analyzed(d: Db, name: Seq<char>) -> (Result<Query, Fault>, Db) {
    match table_of(d, name) {
        None => (Err(Fault::TableNotFound(name)), d),
        Some(_) => (
            Ok(status("ANALYZE "@ + name + " ok"@)),
            Db { analyzed: d.analyzed.push(name), ..d },
        ),
    }
}

/// The removal of all rows of a table.
pub open spec fn truncated(d: Db, name: Seq<char>) -> (Result<Query, Fault>, Db) {
    match named(d, name) {
        None => (Err(Fault::TableNotFound(name)), d),
        Some(k) => (
            Ok(status("TRUNCATE "@ + name)),
            with_table(d, k, empty_table(d.tables[k].def)),
        ),
    }
}

/// Creates a table.
pub fn create_table(db: &mut Database, def: TableDef) -> (r: Result<QueryResult, EngramDbError>)
    requires
        old(db).wf(),
    ensures
        final(db).wf(),
        answered(r, final(db).deep_view(), created(old(db).deep_view(), def.deep_view())),
{
    let text = join3("Table '", def.name.as_str(), "' created");
    match db.create_table(def) {
        Ok(_) => Ok(status_result(text)),
        Err(e) => Err(e),
    }
}

/// The settings after one option.
fn set_option(s: VectorOptions, key: &str, val: &str) -> (r: Result<VectorOptions, EngramDbError>)
    ensures
        match (r, option_set(s, key@, val@)) {
            (Ok(a), Ok(b)) => a == b,
            (Err(e), Err(f)) => e.deep_view() == f,
            _ => false,
        },
{
    let mut s = s;
    if same_text(key, "metric") {
        let low = to_lower(val);
        let l = low.as_str();
        if same_text(l, "l2") || same_text(l, "l2_distance") {
            s.metric = DistanceMetric::L2;
        } else if same_text(l, "cosine") || same_text(l, "cosine_similarity") {
            s.metric = DistanceMetric::Cosine;
        } else if same_text(l, "ip") || same_text(l, "inner_product") {
            s.metric = DistanceMetric::InnerProduct;
        } else {
            return Err(EngramDbError::Parse(join2("unknown metric: ", val)));
        }
        Ok(s)
    } else if same_text(key, "m") {
        match parse_int(val, 0, usize::MAX as i128) {
            Some(n) => {
                s.m = n as usize;
                Ok(s)
            },
            None => Err(EngramDbError::Parse(join2("invalid m: ", val))),
        }
    } else if same_text(key, "ef_construction") {
        match parse_int(val, 0, usize::MAX as i128) {
            Some(n) => {
                s.ef_construction = n as usize;
                Ok(s)
            },
            None => Err(EngramDbError::Parse(join2("invalid ef_construction: ", val))),
        }
    } else {
        Ok(s)
    }
}

/// The settings of a vector index.
fn read_options(options: &Vec<(String, String)>) -> (r: Result<VectorOptions, EngramDbError>)
    ensures
        match (r, options_set(options.deep_view(), options.deep_view().len())) {
            (Ok(a), Ok(b)) => a == b,
            (Err(e), Err(f)) => e.deep_view() == f,
            _ => false,
        },
{
    let ghost all = options.deep_view();
    let mut s = VectorOptions { metric: DistanceMetric::L2, m: 16, ef_construction: 100 };
    let mut i: usize = 0;
    while i < options.len()
        invariant
            all == options.deep_view(),
            i <= options.len(),
            options_set(all, i as nat) == Ok::<VectorOptions, Fault>(s),
        decreases options.len() - i,
    {
        assert(all[i as int] == options[i as int].deep_view());
        match set_option(s, options[i].0.as_str(), options[i].1.as_str()) {
            Ok(t) => {
                s = t;
            },
            Err(e) => {
                proof {
                    lemma_options_fail(all, (i + 1) as nat, all.len());
                }
                return Err(e);
            },
        }
        i += 1;
    }
    Ok(s)
}

/// An error among the first options is the error of all.
proof fn lemma_options_fail(options: Seq<(Seq<char>, Seq<char>)>, k: nat, n: nat)
    requires
        k <= n,
        options_set(options, k) is Err,
    ensures
        options_set(options, n) == options_set(options, k),
    decreases n - k,
{
    if k < n {
        lemma_options_fail(options, k, (n - 1) as nat);
    }
}

/// Creates a vector index.
fn create_vector_index(
    db: &mut Database,
    table_name: &str,
    index_name: &str,
    key_columns: &Vec<usize>,
    options: &Vec<(String, String)>,
) -> (r: Result<QueryResult, EngramDbError>)
    requires
        old(db).wf(),
    ensures
        final(db).wf(),
        answered(
            r,
            final(db).deep_view(),
            vector_indexed(
                old(db).deep_view(),
                table_name@,
                index_name@,
                key_columns@,
                options.deep_view(),
            ),
        ),
{
    let s = match read_options(options) {
        Ok(s) => s,
        Err(e) => {
            return Err(e);
        },
    };
    let k: usize = match db.find_table(table_name) {
        Some(k) => k,
        None => {
            return Err(EngramDbError::TableNotFound(table_name.to_owned()));
        },
    };
    let column = if key_columns.len() > 0 && key_columns[0] < db.tables[k].def.columns.len() {
        assert(db.deep_view().tables[k as int].def.columns[key_columns@[0] as int]
            == db.tables[k as int].def.columns[key_columns@[0] as int].deep_view());
        db.tables[k].def.columns[key_columns[0]].name.clone()
    } else {
        String::new()
    };
    let x = VectorIndexDef {
        table_name: table_name.to_owned(),
        index_name: index_name.to_owned(),
        column_name: column,
        metric: s.metric,
        m: s.m,
        ef_construction: s.ef_construction,
    };
    db.create_vector_index(x);
    let metric = match s.metric {
        DistanceMetric::L2 => "L2",
        DistanceMetric::Cosine => "Cosine",
        DistanceMetric::InnerProduct => "InnerProduct",
    };
    let m = usize_text(s.m);
    let ef = usize_text(s.ef_construction);
    let a = join3("Vector index '", index_name, "' created on '");
    let b = join3(a.as_str(), table_name, "' (metric=");
    let c = join3(b.as_str(), metric, ", m=");
    let d = join3(c.as_str(), m.as_str(), ", ef_construction=");
    Ok(status_result(join3(d.as_str(), ef.as_str(), ")")))
}

/// Creates an index.
pub fn create_index(
    db: &mut Database,
    table_name: &str,
    index_name: &str,
    key_columns: &Vec<usize>,
    included_columns: &Vec<usize>,
    unique: bool,
    using: &Option<String>,
    with_options: &Vec<(String, String)>,
) -> (r: Result<QueryResult, EngramDbError>)
    requires
        old(db).wf(),
    ensures
        final(db).wf(),
        answered(
            r,
            final(db).deep_view(),
            index_created(
                old(db).deep_view(),
                table_name@,
                index_name@,
                key_columns@,
                included_columns@,
                unique,
                opt_text(*using),
                with_options.deep_view(),
            ),
        ),
{
    match using {
        Some(u) => {
            let low = to_lower(u.as_str());
            if same_text(low.as_str(), "hnsw") {
                create_vector_index(db, table_name, index_name, key_columns, with_options)
            } else {
                Err(EngramDbError::Parse(join2("unsupported index type: ", u.as_str())))
            }
        },
        None => match db.create_index(
            table_name,
            index_name,
            key_columns,
            included_columns,
            unique,
        ) {
            Err(e) => Err(e),
            Ok(_) => {
                let n = usize_text(key_columns.len());
                let m = usize_text(included_columns.len());
                let a = join3("Index '", index_name, "' created on '");
                let b = join3(a.as_str(), table_name, "' (");
                let c = join3(b.as_str(), n.as_str(), " key, ");
                Ok(status_result(join3(c.as_str(), m.as_str(), " included)")))
            },
        },
    }
}

/// Decimal text of a sum.
fn sum_text(a: usize, b: usize) -> (r: String)
    ensures
        r@ == dec((a + b) as nat),
{
    let v: u128 = a as u128 + b as u128;
    if v < 10 {
        return u64_text(v as u64);
    }
    let mut s = u64_text((v / 10) as u64);
    s.push(digit((v % 10) as u64));
    s
}

/// What items give of the rows from a slot on.
fn returning_from<E: Fn(Ask) -> Reply>(
    t: &Table,
    items: &Vec<SelectItem>,
    base: usize,
    n: usize,
    env: &E,
) -> (r: Result<Vec<Vec<Value>>, EngramDbError>)
    requires
        answers(*env),
    ensures
        match (
            r,
            returned_from(
                oracle(*env),
                t.deep_view(),
                items.deep_view(),
                base as int,
                n as nat,
            ),
        ) {
            (Ok(v), Ok(m)) => v.deep_view() == m,
            (Err(e), Err(f)) => e.deep_view() == f,
            _ => false,
        },
{
    let ghost o = oracle(*env);
    let ghost m = t.deep_view();
    let ghost list = items.deep_view();
    let mut out: Vec<Vec<Value>> = Vec::new();
    assert(out.deep_view() =~= Seq::empty());
    let mut i: usize = 0;
    while i < n
        invariant
            answers(*env),
            o == oracle(*env),
            m == t.deep_view(),
            list == items.deep_view(),
            i <= n,
            returned_from(o, m, list, base as int, i as nat) == Ok::<Seq<Seq<Datum>>, Fault>(
                out.deep_view(),
            ),
        decreases n - i,
    {
        let mut failed: Option<EngramDbError> = None;
        let mut there: bool = false;
        if base < t.rows.len() && i < t.rows.len() - base {
            let k: usize = base + i;
            assert(m.slots[k as int] == t.rows[k as int].deep_view());
            if let Some(row) = &t.rows[k] {
                there = true;
                match returning_row(items, row, &t.def, env) {
                    Ok(v) => {
                        let ghost before = out.deep_view();
                        out.push(v);
                        assert(out.deep_view() =~= before.push(v.deep_view()));
                    },
                    Err(e) => {
                        failed = Some(e);
                    },
                }
            }
        }
        if !there {
            let s = sum_text(base, i);
            failed = Some(
                EngramDbError::Internal(
                    join3("RETURNING: row_id ", s.as_str(), " not found after insert"),
                ),
            );
        }
        if let Some(e) = failed {
            proof {
                lemma_returned_from_fails(
                    o,
                    m,
                    list,
                    base as int,
                    (i + 1) as nat,
                    n as nat,
                );
            }
            return Err(e);
        }
        i += 1;
    }
    Ok(out)
}

/// An error among the first rows is the error of all.
proof fn lemma_returned_from_fails(
    o: spec_fn(Question) -> Answer,
    t: Tbl,
    items: Seq<Item>,
    base: int,
    k: nat,
    n: nat,
)
    requires
        k <= n,
        returned_from(o, t, items, base, k) is Err,
    ensures
        returned_from(o, t, items, base, n) == returned_from(o, t, items, base, k),
    decreases n - k,
{
    if k < n {
        lemma_returned_from_fails(o, t, items, base, k, (n - 1) as nat);
    }
}

/// Inserts rows, and gives back what is asked for.
pub fn insert_returning<E: Fn(Ask) -> Reply>(
    db: &mut Database,
    table_name: &str,
    rows: Vec<Vec<Value>>,
    returning: &Option<Vec<SelectItem>>,
    env: &E,
) -> (r: Result<QueryResult, EngramDbError>)
    requires
        answers(*env),
        old(db).wf(),
    ensures
        final(db).wf(),
        answered(
            r,
            final(db).deep_view(),
            inserted_returning(
                oracle(*env),
                old(db).deep_view(),
                table_name@,
                rows.deep_view(),
                opt_items(*returning),
            ),
        ),
{
    let items = match returning {
        None => {
            return match insert::execute(db, table_name, rows, false, env) {
                Err(e) => Err(e),
                Ok(n) => Ok(one_value("rows_inserted", Value::Int64(n as i64), n)),
            };
        },
        Some(v) => v,
    };
    let base: usize = match db.find_table(table_name) {
        None => {
            return Err(EngramDbError::TableNotFound(table_name.to_owned()));
        },
        Some(k) => db.tables[k].rows.len(),
    };
    let count: usize = rows.len();
    let n: u64 = match insert::execute(db, table_name, rows, true, env) {
        Err(e) => {
            return Err(e);
        },
        Ok(n) => n,
    };
    match db.find_table(table_name) {
        None => Err(EngramDbError::TableNotFound(table_name.to_owned())),
        Some(k) => match returning_from(&db.tables[k], items, base, count, env) {
            Err(e) => Err(e),
            Ok(out) => Ok(
                QueryResult { columns: returning_names(items), rows: out, rows_affected: n },
            ),
        },
    }
}

/// Starts a transaction.
pub fn begin_transaction(db: &mut Database) -> (r: Result<QueryResult, EngramDbError>)
    requires
        old(db).wf(),
    ensures
        final(db).wf(),
        answered(r, final(db).deep_view(), begin_txn(old(db).deep_view())),
{
    let ghost d = db.deep_view();
    let id: u64 = db.txns.begin(IsolationLevel::SnapshotIsolation);
    db.discard_txn_buffer();
    db.current = Some(id);
    assert(db.deep_view() =~= begin_txn(d).1);
    let n = u64_text(id);
    Ok(status_result(join3("BEGIN (txn=", n.as_str(), ")")))
}

/// Commits the open transaction.
pub fn commit<E: Fn(Ask) -> Reply>(db: &mut Database, env: &E) -> (r: Result<
    QueryResult,
    EngramDbError,
>)
    requires
        answers(*env),
        old(db).wf(),
    ensures
        final(db).wf(),
        answered(r, final(db).deep_view(), commit_txn(oracle(*env), old(db).deep_view())),
{
    let ghost d = db.deep_view();
    let id: u64 = match db.current {
        None => {
            return Err(EngramDbError::Internal("No active transaction to COMMIT".to_owned()));
        },
        Some(id) => id,
    };
    match flush_txn_buffer(db, env) {
        Err(e) => {
            return Err(e);
        },
        Ok(_) => {},
    }
    let ghost w = db.deep_view();
    match db.txns.commit(id) {
        Err(e) => {
            assert(db.deep_view() =~= w);
            return Err(e);
        },
        Ok(_) => {},
    }
    db.discard_txn_buffer();
    db.current = None;
    assert(db.deep_view() =~= commit_txn(oracle(*env), d).1);
    Ok(status_result("COMMIT".to_owned()))
}

/// Rolls the open transaction back.
pub fn rollback(db: &mut Database) -> (r: Result<QueryResult, EngramDbError>)
    requires
        old(db).wf(),
    ensures
        final(db).wf(),
        answered(r, final(db).deep_view(), rollback_txn(old(db).deep_view())),
{
    let ghost d = db.deep_view();
    let id: u64 = match db.current {
        None => {
            return Err(EngramDbError::Internal("No active transaction to ROLLBACK".to_owned()));
        },
        Some(id) => id,
    };
    match db.txns.rollback(id) {
        Err(e) => {
            assert(db.deep_view() =~= d);
            return Err(e);
        },
        Ok(_) => {},
    }
    db.discard_txn_buffer();
    db.current = None;
    assert(db.deep_view() =~= rollback_txn(d).1);
    Ok(status_result("ROLLBACK".to_owned()))
}

/// Sets a savepoint.
pub fn savepoint<E: Fn(Ask) -> Reply>(db: &mut Database, name: &str, env: &E) -> (r: Result<
    QueryResult,
    EngramDbError,
>)
    requires
        answers(*env),
        old(db).wf(),
    ensures
        final(db).wf(),
        answered(
            r,
            final(db).deep_view(),
            set_savepoint(oracle(*env), old(db).deep_view(), name@),
        ),
{
    let ghost d = db.deep_view();
    let id: u64 = match db.current {
        None => {
            return Err(
                EngramDbError::Internal("No active transaction for SAVEPOINT".to_owned()),
            );
        },
        Some(id) => id,
    };
    match flush_txn_buffer(db, env) {
        Err(e) => {
            return Err(e);
        },
        Ok(_) => {},
    }
    let ghost w = db.deep_view();
    match db.txns.savepoint(id, name) {
        Err(e) => {
            assert(db.deep_view() =~= w);
            Err(e)
        },
        Ok(_) => {
            assert(db.deep_view() =~= set_savepoint(oracle(*env), d, name@).1);
            Ok(status_result(join2("SAVEPOINT ", name)))
        },
    }
}

/// Releases a savepoint.
pub fn release_savepoint(db: &mut Database, name: &str) -> (r: Result<QueryResult, EngramDbError>)
    requires
        old(db).wf(),
    ensures
        final(db).wf(),
        answered(r, final(db).deep_view(), release(old(db).deep_view(), name@)),
{
    let ghost d = db.deep_view();
    let id: u64 = match db.current {
        None => {
            return Err(
                EngramDbError::Internal("No active transaction for RELEASE SAVEPOINT".to_owned()),
            );
        },
        Some(id) => id,
    };
    match db.txns.release_savepoint(id, name) {
        Err(e) => {
            assert(db.deep_view() =~= d);
            Err(e)
        },
        Ok(_) => {
            assert(db.deep_view() =~= release(d, name@).1);
            Ok(status_result(join2("RELEASE SAVEPOINT ", name)))
        },
    }
}

/// Returns to a savepoint.
pub fn rollback_to_savepoint(db: &mut Database, name: &str) -> (r: Result<
    QueryResult,
    EngramDbError,
>)
    requires
        old(db).wf(),
    ensures
        final(db).wf(),
        answered(r, final(db).deep_view(), return_to(old(db).deep_view(), name@)),
{
    let ghost d = db.deep_view();
    let id: u64 = match db.current {
        None => {
            return Err(
                EngramDbError::Internal(
                    "No active transaction for ROLLBACK TO SAVEPOINT".to_owned(),
                ),
            );
        },
        Some(id) => id,
    };
    db.discard_txn_buffer();
    let ghost w = db.deep_view();
    match db.txns.rollback_to_savepoint(id, name) {
        Err(e) => {
            assert(db.deep_view() =~= w);
            Err(e)
        },
        Ok(_) => {
            assert(db.deep_view() =~= return_to(d, name@).1);
            Ok(status_result(join2("ROLLBACK TO SAVEPOINT ", name)))
        },
    }
}

/// Takes statistics of a table.
pub fn analyze(db: &mut Database, table_name: &str) -> (r: Result<QueryResult, EngramDbError>)
    requires
        old(db).wf(),
    ensures
        final(db).wf(),
        answered(r, final(db).deep_view(), analyzed(old(db).deep_view(), table_name@)),
{
    if db.find_table(table_name).is_none() {
        return Err(EngramDbError::TableNotFound(table_name.to_owned()));
    }
    db.note_analyzed(table_name);
    Ok(status_result(join3("ANALYZE ", table_name, " ok")))
}

/// Removes all rows of a table.
pub fn truncate_table(db: &mut Database, table_name: &str) -> (r: Result<
    QueryResult,
    EngramDbError,
>)
    requires
        old(db).wf(),
    ensures
        final(db).wf(),
        answered(r, final(db).deep_view(), truncated(old(db).deep_view(), table_name@)),
{
    let k: usize = match db.find_table(table_name) {
        Some(k) => k,
        None => {
            return Err(EngramDbError::TableNotFound(table_name.to_owned()));
        },
    };
    let mut t = db.take_table(k);
    t.truncate();
    db.put_table(k, t);
    Ok(status_result(join2("TRUNCATE ", table_name)))
}

} // verus!
