//! The execution of plans.
use vstd::prelude::*;

use crate::common::error::{EngramDbError, Fault};
use crate::common::types::{name_index, opt_text, TableDef};
use crate::executor::columnar::{
    aggregate_chunks, aggregate_names, aggregated_all, can_chunk, chunked, name_aggregates,
    names_picked, on_the_way, pick_names, pushed, pushed_predicate, steady, told_chunked,
    try_execute_chunks, Named,
};
use crate::executor::env::{answers, elapsed_us, oracle, Answer, Ask, Question, Reply};
use crate::executor::explain::{blanks, format_plan_tree, tree};
use crate::executor::framing::{
    frame, framed, lemma_regular, rows_in, straight, straighten, unframe,
};
use crate::executor::lookup::{
    covered, found_key, index_only_scan, index_range_scan, index_scan, looked_up, opt_value,
    primary_key_lookup, ranged, searched, vector_search, Neighbor,
};
use crate::executor::operators::alter_table;
use crate::executor::operators::alter_table::{altered, answered};
use crate::executor::operators::delete;
use crate::executor::operators::delete::{can_delete, deleted, opt_calm, opt_expr};
use crate::executor::operators::hash_join::{cell_of, read_cell};
use crate::executor::operators::insert;
use crate::executor::operators::insert::{inserted_all, inserted_columns};
use crate::executor::operators::pragma;
use crate::executor::operators::pragma::pragma as pragma_model;
use crate::executor::operators::sort;
use crate::executor::operators::sort::sorted_chunks;
use crate::executor::operators::table_scan::{scan_rows, scanned, PredicateOp};
use crate::executor::operators::update;
use crate::executor::operators::update::{can_update, sets_calm, updated_rows};
use crate::executor::physical_plan::{
    opt_names, plan_model, AggregateExpr, PhysicalPlan, Plan, SortKey, WindowFunctionExpr,
};
use crate::executor::relational::{
    aggregate_query, aggregate_result, cross_query, cross_results, distinct_query,
    distinct_result, can_filter_query, can_project_query, filter_query, filter_result,
    gives_query, join_query, join_results, limit_query, limit_result, project_query,
    project_result, sort_query, sort_result, union_query, union_results, told_query,
    window_query, window_result,
};
use crate::executor::statements::{
    analyze, analyzed, begin_transaction, begin_txn, commit, commit_txn, create_index, create_table,
    created, index_created, insert_returning, inserted_returning, release, release_savepoint,
    return_to, rollback, rollback_to_savepoint, rollback_txn, savepoint, set_savepoint,
    truncate_table, truncated,
};
use crate::executor::subquery::{resolve_subqueries_in_plan, resolved};
use crate::executor::upsert::{execute_upsert, known_columns, opt_items, upserted};
use crate::executor::vector::{chunks_wf, DataChunk};
use crate::query::{listed, one_value, single, status, status_result, Query, QueryResult};
use crate::sql::ast::Expression;
use crate::storage::database::{table_of, with_new_table, Database, Db};
use crate::storage::table::all_columns;
use crate::text::{dec, dec_int, i64_text, join2, join3, u64_text, usize_text};
use crate::value::Datum;
use crate::Value;

verus! {

/// What an execution is given beside the database: the results of the
/// subqueries, the rows near the vector that is searched for, and the size of
/// the database's file.
#[derive(Debug)]
pub struct Inputs {
    pub subqueries: Vec<QueryResult>,
    pub neighbors: Vec<Neighbor>,
    pub file_bytes: u64,
}

/// The model of [`Inputs`].
#[verifier::ext_equal]
pub struct Given {
    pub subqueries: Seq<Query>,
    pub neighbors: Seq<(u32, u32)>,
    pub file_bytes: u64,
}

impl DeepView for Inputs {
    type V = Given;

    open spec fn deep_view(&self) -> Given {
        Given {
            subqueries: self.subqueries.deep_view(),
            neighbors: self.neighbors.deep_view(),
            file_bytes: self.file_bytes,
        }
    }
}

impl Inputs {
    /// No results of subqueries, no near rows, and no file.
    pub fn none() -> (r: Self)
        ensures
            r.deep_view() == (Given {
                subqueries: Seq::empty(),
                neighbors: Seq::empty(),
                file_bytes: 0,
            }),
    {
        let r = Inputs { subqueries: Vec::new(), neighbors: Vec::new(), file_bytes: 0 };
        assert(r.deep_view().subqueries =~= Seq::empty());
        assert(r.deep_view().neighbors =~= Seq::empty());
        r
    }
}

/// A count of changed rows under a name.
pub open spec fn counted_as(name: Seq<char>, m: (Result<u64, Fault>, Db)) -> (
    Result<Query, Fault>,
    Db,
) {
    match m.0 {
        Err(f) => (Err(f), m.1),
        Ok(n) => (Ok(single(name, Datum::Int64(n as i64), n)), m.1),
    }
}

/// The execution of a plan that reads no other plan.
pub open spec fn ran_leaf(
    o: spec_fn(Question) -> Answer,
    p: PhysicalPlan,
    g: Given,
    d: Db,
) -> (Result<Query, Fault>, Db) {
    match p {
        PhysicalPlan::TableScan { table_name, column_indices } => match table_of(d, table_name@) {
            None => (Err(Fault::TableNotFound(table_name@)), d),
            Some(t) => (
                Ok(
                    listed(
                        names_picked(t.def.columns, column_indices@),
                        scanned(t, column_indices@, None),
                    ),
                ),
                d,
            ),
        },
        PhysicalPlan::IndexOnlyScan {
            table_name,
            index_name,
            key_value,
            output_column_indices,
            output_col_map,
        } => (
            covered(
                d,
                table_name@,
                index_name@,
                key_value.deep_view(),
                output_column_indices@,
                output_col_map@,
            ),
            d,
        ),
        PhysicalPlan::IndexScan { table_name, index_name, key_value, output_column_indices } => (
            looked_up(
                d,
                table_name@,
                index_name@,
                key_value.deep_view(),
                output_column_indices@,
            ),
            d,
        ),
        PhysicalPlan::IndexRangeScan {
            table_name,
            index_name,
            low,
            low_inclusive,
            high,
            high_inclusive,
            output_column_indices,
        } => (
            ranged(
                d,
                table_name@,
                index_name@,
                opt_value(low),
                low_inclusive,
                opt_value(high),
                high_inclusive,
                output_column_indices@,
            ),
            d,
        ),
        PhysicalPlan::Insert { table_name, rows, returning, on_conflict } => match on_conflict {
            Some(c) => upserted(
                o,
                d,
                table_name@,
                rows.deep_view(),
                c.deep_view(),
                opt_items(returning),
            ),
            None => inserted_returning(
                o,
                d,
                table_name@,
                rows.deep_view(),
                opt_items(returning),
            ),
        },
        PhysicalPlan::InsertColumns { table_name, columns } => counted_as(
            "rows_inserted"@,
            inserted_columns(o, d, table_name@, columns.deep_view()),
        ),
        PhysicalPlan::CreateTable { table_def } => created(d, table_def.deep_view()),
        PhysicalPlan::CreateIndex {
            table_name,
            index_name,
            key_columns,
            included_columns,
            unique,
            using,
            with_options,
        } => index_created(
            d,
            table_name@,
            index_name@,
            key_columns@,
            included_columns@,
            unique,
            opt_text(using),
            with_options.deep_view(),
        ),
        PhysicalPlan::Delete { table_name, condition } => counted_as(
            "rows_deleted"@,
            deleted(o, d, table_name@, opt_expr(condition)),
        ),
        PhysicalPlan::Update { table_name, assignments, condition } => counted_as(
            "rows_updated"@,
            updated_rows(o, d, table_name@, assignments.deep_view(), opt_expr(condition)),
        ),
        PhysicalPlan::Analyze { table_name, .. } => analyzed(d, table_name@),
        PhysicalPlan::CreateMaterializedView { view_name, .. } => (
            Ok(status("Materialized view '"@ + view_name@ + "' created"@)),
            d,
        ),
        PhysicalPlan::RefreshMaterializedView { view_name, .. } => (
            Ok(status("Materialized view '"@ + view_name@ + "' refreshed"@)),
            d,
        ),
        PhysicalPlan::DropMaterializedView { view_name, .. } => (
            Ok(status("Materialized view '"@ + view_name@ + "' dropped"@)),
            d,
        ),
        PhysicalPlan::CountStar { output_name, count } => (
            Ok(single(output_name@, Datum::Int64(count), 0)),
            d,
        ),
        PhysicalPlan::PrimaryKeyLookup { table_name, pk_value, output_column_indices } => (
            found_key(d, table_name@, pk_value.deep_view(), output_column_indices@),
            d,
        ),
        PhysicalPlan::BeginTransaction => begin_txn(d),
        PhysicalPlan::Commit => commit_txn(o, d),
        PhysicalPlan::Rollback => rollback_txn(d),
        PhysicalPlan::Savepoint { name } => set_savepoint(o, d, name@),
        PhysicalPlan::ReleaseSavepoint { name } => release(d, name@),
        PhysicalPlan::RollbackToSavepoint { name } => return_to(d, name@),
        PhysicalPlan::VectorSearch { table_name, index_name, .. } => (
            searched(d, table_name@, index_name@, g.neighbors),
            d,
        ),
        PhysicalPlan::AlterTable(s) => altered(d, s.deep_view().0, s.deep_view().1),
        PhysicalPlan::TruncateTable { table_name } => truncated(d, table_name@),
        PhysicalPlan::Pragma(s) => pragma_model(
            d,
            s.deep_view().0,
            s.deep_view().1,
            g.file_bytes,
        ),
        _ => (Ok(listed(Seq::empty(), Seq::empty())), d),
    }
}

/// The scan of a table with a comparison in the place of a condition. A column
/// that the table lacks is an error where there is a row to compare.
#[verifier::opaque]
pub open spec fn scanned_where(
    d: Db,
    table: Seq<char>,
    at: Seq<usize>,
    p: (Seq<char>, PredicateOp, Datum),
) -> Result<Query, Fault> {
    match table_of(d, table) {
        None => Err(Fault::TableNotFound(table)),
        Some(t) => {
            let names = names_picked(t.def.columns, at);
            match name_index(t.def.columns, p.0) {
                Some(k) => Ok(listed(names, scanned(t, at, Some((k as usize, p.1, p.2))))),
                None => if scanned(t, at, None).len() == 0 {
                    Ok(listed(names, Seq::empty()))
                } else {
                    Err(Fault::ColumnNotFound(p.0))
                },
            }
        },
    }
}

/// The rows as wide as the first.
pub open spec fn evened(rows: Seq<Seq<Datum>>) -> Seq<Seq<Datum>> {
    Seq::new(
        rows.len(),
        |i: int| Seq::new(rows[0].len(), |j: int| cell_of(rows[i], j)),
    )
}

/// The creation of a table from the rows of a plan.
pub open spec fn filled_table(
    o: spec_fn(Question) -> Answer,
    d: Db,
    name: Seq<char>,
    q: Query,
) -> (Result<Query, Fault>, Db) {
    let a = inserted_all(o, d, name, evened(q.rows), false);
    match a.0 {
        Err(f) => (Err(f), a.1),
        Ok(n) => (
            Ok(
                single(
                    "status"@,
                    Datum::Varchar(
                        "Table '"@ + name + "' created with "@ + dec(n as nat) + " rows"@,
                    ),
                    n,
                ),
            ),
            a.1,
        ),
    }
}

/// The positions from 0 on.
pub open spec fn from_zero(n: nat) -> Seq<usize> {
    Seq::new(n, |i: int| i as usize)
}

/// A row of `width` cells into which the first `n` cells of another are put.
pub open spec fn spread(row: Seq<Datum>, map: Seq<usize>, width: nat, n: nat) -> Seq<Datum>
    decreases n,
{
    if n == 0 {
        Seq::new(width, |j: int| Datum::Null)
    } else {
        let before = spread(row, map, width, (n - 1) as nat);
        if n - 1 < row.len() && map[n - 1] < width {
            before.update(map[n - 1] as int, row[n - 1])
        } else {
            before
        }
    }
}

/// The insertion of the rows of a plan.
pub open spec fn inserted_from(
    o: spec_fn(Question) -> Answer,
    d: Db,
    name: Seq<char>,
    columns: Option<Seq<Seq<char>>>,
    q: Query,
) -> (Result<Query, Fault>, Db) {
    match table_of(d, name) {
        None => (Err(Fault::TableNotFound(name)), d),
        Some(t) => {
            let width = t.def.columns.len();
            let map = match columns {
                Some(names) => known_columns(t.def.columns, names, names.len()),
                None => from_zero(
                    if q.rows.len() > 0 {
                        q.rows[0].len()
                    } else {
                        width
                    },
                ),
            };
            counted_as(
                "rows_inserted"@,
                inserted_all(
                    o,
                    d,
                    name,
                    Seq::new(q.rows.len(), |i: int| spread(q.rows[i], map, width, map.len())),
                    false,
                ),
            )
        },
    }
}

/// A plan and what its execution took, as text.
pub open spec fn analysis(o: spec_fn(Question) -> Answer, q: Query, plan: Seq<char>) -> Query {
    single(
        "QUERY PLAN"@,
        Datum::Varchar(
            "Execution Time: "@ + dec_int(o(Question::Elapsed)->Moment_0 as int)
                + " us\nTotal Rows: "@ + dec(q.rows.len()) + "\n\nPlan:\n"@ + plan,
        ),
        0,
    )
}

/// The execution of a plan without subqueries.
pub open spec fn ran(o: spec_fn(Question) -> Answer, p: Plan, g: Given, d: Db) -> (
    Result<Query, Fault>,
    Db,
)
    decreases p,
{
    match p {
        Plan::Leaf(x) => ran_leaf(o, x, g, d),
        Plan::Filter(x, e) => match (*x, pushed(e)) {
            (
                Plan::Leaf(PhysicalPlan::TableScan { table_name, column_indices }),
                Some(c),
            ) => (scanned_where(d, table_name@, column_indices@, c), d),
            _ => {
                let a = ran(o, *x, g, d);
                match a.0 {
                    Err(f) => (Err(f), a.1),
                    Ok(q) => (filter_query(o, q, e), a.1),
                }
            },
        },
        Plan::Projection(x, es, names) => {
            let a = ran(o, *x, g, d);
            match a.0 {
                Err(f) => (Err(f), a.1),
                Ok(q) => (project_query(o, q, es, names), a.1),
            }
        },
        Plan::Aggregate(x, by, aggs) => match chunked(o, *x, d) {
            Err(f) => (Err(f), d),
            Ok(Some(c)) => (
                Ok(
                    listed(
                        aggregate_names(c.0, by, aggs),
                        rows_in(aggregated_all(o, straight(c.1), by, aggs)),
                    ),
                ),
                d,
            ),
            Ok(None) => {
                let a = ran(o, *x, g, d);
                match a.0 {
                    Err(f) => (Err(f), a.1),
                    Ok(q) => (Ok(aggregate_query(o, q, by, aggs)), a.1),
                }
            },
        },
        Plan::Sort(x, keys, limit) => match chunked(o, *x, d) {
            Err(f) => (Err(f), d),
            Ok(Some(c)) => (
                Ok(listed(c.0, rows_in(sorted_chunks(straight(c.1), keys, limit)))),
                d,
            ),
            Ok(None) => {
                let a = ran(o, *x, g, d);
                match a.0 {
                    Err(f) => (Err(f), a.1),
                    Ok(q) => (Ok(sort_query(q, keys, limit)), a.1),
                }
            },
        },
        Plan::Limit(x, n) => {
            let a = ran(o, *x, g, d);
            match a.0 {
                Err(f) => (Err(f), a.1),
                Ok(q) => (Ok(limit_query(q, n)), a.1),
            }
        },
        Plan::Window(x, f, names) => {
            let a = ran(o, *x, g, d);
            match a.0 {
                Err(e) => (Err(e), a.1),
                Ok(q) => (Ok(window_query(o, q, f, names)), a.1),
            }
        },
        Plan::Distinct(x) => {
            let a = ran(o, *x, g, d);
            match a.0 {
                Err(f) => (Err(f), a.1),
                Ok(q) => (Ok(distinct_query(q)), a.1),
            }
        },
        Plan::SubqueryScan(x) => ran(o, *x, g, d),
        Plan::HashJoin(l, r, t, lk, rk) => {
            let a = ran(o, *l, g, d);
            match a.0 {
                Err(f) => (Err(f), a.1),
                Ok(x) => {
                    let b = ran(o, *r, g, a.1);
                    match b.0 {
                        Err(f) => (Err(f), b.1),
                        Ok(y) => (Ok(join_query(x, y, t, lk, rk)), b.1),
                    }
                },
            }
        },
        Plan::CrossJoin(l, r) => {
            let a = ran(o, *l, g, d);
            match a.0 {
                Err(f) => (Err(f), a.1),
                Ok(x) => {
                    let b = ran(o, *r, g, a.1);
                    match b.0 {
                        Err(f) => (Err(f), b.1),
                        Ok(y) => (Ok(cross_query(x, y)), b.1),
                    }
                },
            }
        },
        Plan::SetUnion(op, l, r) => {
            let a = ran(o, *l, g, d);
            match a.0 {
                Err(f) => (Err(f), a.1),
                Ok(x) => {
                    let b = ran(o, *r, g, a.1);
                    match b.0 {
                        Err(f) => (Err(f), b.1),
                        Ok(y) => (union_query(o, op, x, y), b.1),
                    }
                },
            }
        },
        Plan::CreateTableAs(def, x) => match with_new_table(d, def) {
            Err(f) => (Err(f), d),
            Ok(e) => {
                let a = ran(o, *x, g, e);
                match a.0 {
                    Err(f) => (Err(f), a.1),
                    Ok(q) => filled_table(o, a.1, def.name, q),
                }
            },
        },
        Plan::InsertSelect(name, columns, x) => {
            let a = ran(o, *x, g, d);
            match a.0 {
                Err(f) => (Err(f), a.1),
                Ok(q) => inserted_from(o, a.1, name, columns, q),
            }
        },
        Plan::Explain(analyze, x) => {
            let text = tree(*x, blanks(0));
            if analyze {
                let a = ran(o, *x, g, d);
                match a.0 {
                    Err(f) => (Err(f), a.1),
                    Ok(q) => (Ok(analysis(o, q, text)), a.1),
                }
            } else {
                (Ok(single("QUERY PLAN"@, Datum::Varchar(text), 0)), d)
            }
        },
    }
}

/// How an execution ended: its result, or the error, and the database after it.
pub type Outcome = (Result<Query, Fault>, Db);

/// How an execution ended on the way to the end of another.
pub open spec fn reached(a: Outcome) -> bool {
    true
}

/// Whether a plan that reads no other plan can end so: as [`ran_leaf`] says,
/// with numbers in place of the calls of RANDOM.
pub open spec fn can_run_leaf(
    o: spec_fn(Question) -> Answer,
    p: PhysicalPlan,
    g: Given,
    d: Db,
    m: Outcome,
) -> bool {
    match p {
        PhysicalPlan::Delete { table_name, condition } => exists|n: (Result<u64, Fault>, Db)| #[trigger]
            can_delete(o, d, table_name@, opt_expr(condition), n) && m == counted_as(
                "rows_deleted"@,
                n,
            ),
        PhysicalPlan::Update { table_name, assignments, condition } => exists|
            n: (Result<u64, Fault>, Db),
        | #[trigger]
            can_update(
                o,
                d,
                table_name@,
                assignments.deep_view(),
                opt_expr(condition),
                n,
            ) && m == counted_as("rows_updated"@, n),
        _ => m == ran_leaf(o, p, g, d),
    }
}

/// The end of a plan that goes on with the result of another.
pub open spec fn onward(a: Outcome, f: spec_fn(Query) -> Result<Query, Fault>) -> Outcome {
    match a.0 {
        Err(x) => (Err(x), a.1),
        Ok(q) => (f(q), a.1),
    }
}

/// Whether a plan without subqueries can end so: as [`ran`] says, with numbers
/// in place of the calls of RANDOM.
pub open spec fn can_run(
    o: spec_fn(Question) -> Answer,
    p: Plan,
    g: Given,
    d: Db,
    m: Outcome,
) -> bool
    decreases p,
{
    match p {
        Plan::Leaf(x) => can_run_leaf(o, x, g, d, m),
        Plan::Filter(x, e) => match (*x, pushed(e)) {
            (
                Plan::Leaf(PhysicalPlan::TableScan { table_name, column_indices }),
                Some(c),
            ) => m == (scanned_where(d, table_name@, column_indices@, c), d),
            _ => exists|a: Outcome| #[trigger]
                reached(a) && can_run(o, *x, g, d, a) && m.1 == a.1 && match a.0 {
                    Err(f) => m.0 == Err::<Query, Fault>(f),
                    Ok(q) => can_filter_query(o, q, e, m.0),
                },
        },
        Plan::Projection(x, es, names) => exists|a: Outcome| #[trigger]
            reached(a) && can_run(o, *x, g, d, a) && m.1 == a.1 && match a.0 {
                Err(f) => m.0 == Err::<Query, Fault>(f),
                Ok(q) => can_project_query(o, q, es, names, m.0),
            },
        Plan::Aggregate(x, by, aggs) => exists|c: Named| #[trigger]
            on_the_way(c) && can_chunk(o, *x, d, c) && match c {
                Err(f) => m == (Err::<Query, Fault>(f), d),
                Ok(Some(c)) => m == (
                    Ok::<Query, Fault>(
                        listed(
                            aggregate_names(c.0, by, aggs),
                            rows_in(aggregated_all(o, straight(c.1), by, aggs)),
                        ),
                    ),
                    d,
                ),
                Ok(None) => exists|a: Outcome| #[trigger]
                    reached(a) && can_run(o, *x, g, d, a) && m == onward(
                        a,
                        |q: Query| Ok(aggregate_query(o, q, by, aggs)),
                    ),
            },
        Plan::Sort(x, keys, limit) => exists|c: Named| #[trigger]
            on_the_way(c) && can_chunk(o, *x, d, c) && match c {
                Err(f) => m == (Err::<Query, Fault>(f), d),
                Ok(Some(c)) => m == (
                    Ok::<Query, Fault>(
                        listed(c.0, rows_in(sorted_chunks(straight(c.1), keys, limit))),
                    ),
                    d,
                ),
                Ok(None) => exists|a: Outcome| #[trigger]
                    reached(a) && can_run(o, *x, g, d, a) && m == onward(
                        a,
                        |q: Query| Ok(sort_query(q, keys, limit)),
                    ),
            },
        Plan::Limit(x, n) => exists|a: Outcome| #[trigger]
            reached(a) && can_run(o, *x, g, d, a) && m == onward(
                a,
                |q: Query| Ok(limit_query(q, n)),
            ),
        Plan::Window(x, f, names) => exists|a: Outcome| #[trigger]
            reached(a) && can_run(o, *x, g, d, a) && m == onward(
                a,
                |q: Query| Ok(window_query(o, q, f, names)),
            ),
        Plan::Distinct(x) => exists|a: Outcome| #[trigger]
            reached(a) && can_run(o, *x, g, d, a) && m == onward(
                a,
                |q: Query| Ok(distinct_query(q)),
            ),
        Plan::SubqueryScan(x) => can_run(o, *x, g, d, m),
        Plan::HashJoin(l, r, t, lk, rk) => exists|a: Outcome| #[trigger]
            reached(a) && can_run(o, *l, g, d, a) && match a.0 {
                Err(_) => m == a,
                Ok(x) => exists|b: Outcome| #[trigger]
                    reached(b) && can_run(o, *r, g, a.1, b) && m == onward(
                        b,
                        |y: Query| Ok(join_query(x, y, t, lk, rk)),
                    ),
            },
        Plan::CrossJoin(l, r) => exists|a: Outcome| #[trigger]
            reached(a) && can_run(o, *l, g, d, a) && match a.0 {
                Err(_) => m == a,
                Ok(x) => exists|b: Outcome| #[trigger]
                    reached(b) && can_run(o, *r, g, a.1, b) && m == onward(
                        b,
                        |y: Query| Ok(cross_query(x, y)),
                    ),
            },
        Plan::SetUnion(op, l, r) => exists|a: Outcome| #[trigger]
            reached(a) && can_run(o, *l, g, d, a) && match a.0 {
                Err(_) => m == a,
                Ok(x) => exists|b: Outcome| #[trigger]
                    reached(b) && can_run(o, *r, g, a.1, b) && m == onward(
                        b,
                        |y: Query| union_query(o, op, x, y),
                    ),
            },
        Plan::CreateTableAs(def, x) => match with_new_table(d, def) {
            Err(f) => m == (Err::<Query, Fault>(f), d),
            Ok(e) => exists|a: Outcome| #[trigger]
                reached(a) && can_run(o, *x, g, e, a) && match a.0 {
                    Err(_) => m == a,
                    Ok(q) => m == filled_table(o, a.1, def.name, q),
                },
        },
        Plan::InsertSelect(name, columns, x) => exists|a: Outcome| #[trigger]
            reached(a) && can_run(o, *x, g, d, a) && match a.0 {
                Err(_) => m == a,
                Ok(q) => m == inserted_from(o, a.1, name, columns, q),
            },
        Plan::Explain(analyze, x) => if analyze {
            exists|a: Outcome| #[trigger]
                reached(a) && can_run(o, *x, g, d, a) && m == onward(
                    a,
                    |q: Query| Ok(analysis(o, q, tree(*x, blanks(0)))),
                )
        } else {
            m == ran(o, p, g, d)
        },
    }
}

/// The rows of batches.
pub fn debug_chunks_to_rows(chunks: &Vec<DataChunk>) -> (r: Vec<Vec<Value>>)
    requires
        chunks_wf(chunks@),
    ensures
        r.deep_view() == rows_in(chunks.deep_view()),
{
    unframe(chunks)
}

/// The batches of rows.
pub fn rows_to_chunks(rows: &Vec<Vec<Value>>) -> (r: Vec<DataChunk>)
    ensures
        chunks_wf(r@),
        r.deep_view() == framed(rows.deep_view()),
{
    frame(rows)
}

/// A count of changed rows under a name.
fn count_result(name: &str, n: u64) -> (r: QueryResult)
    ensures
        r.deep_view() == single(name@, Datum::Int64(n as i64), n),
{
    one_value(name, Value::Int64(n as i64), n)
}

/// Scans a table.
fn run_scan(db: &Database, table_name: &str, column_indices: &Vec<usize>) -> (r: Result<
    QueryResult,
    EngramDbError,
>)
    requires
        db.wf(),
    ensures
        gives_query(
            r,
            match table_of(db.deep_view(), table_name@) {
                None => Err(Fault::TableNotFound(table_name@)),
                Some(t) => Ok(
                    listed(
                        names_picked(t.def.columns, column_indices@),
                        scanned(t, column_indices@, None),
                    ),
                ),
            },
        ),
{
    match db.get_table(table_name) {
        None => Err(EngramDbError::TableNotFound(table_name.to_owned())),
        Some(t) => Ok(
            QueryResult {
                columns: pick_names(&t.def.columns, column_indices),
                rows: scan_rows(t, column_indices, &None),
                rows_affected: 0,
            },
        ),
    }
}

/// Scans a table with a comparison in the place of a condition.
fn run_scan_where(
    db: &Database,
    table_name: &str,
    column_indices: &Vec<usize>,
    predicate: (String, PredicateOp, Value),
) -> (r: Result<QueryResult, EngramDbError>)
    requires
        db.wf(),
    ensures
        gives_query(
            r,
            scanned_where(
                db.deep_view(),
                table_name@,
                column_indices@,
                (predicate.0@, predicate.1, predicate.2.deep_view()),
            ),
        ),
{
    proof {
        reveal(scanned_where);
    }
    match db.get_table(table_name) {
        None => Err(EngramDbError::TableNotFound(table_name.to_owned())),
        Some(t) => {
            let (skip, known): (Option<(usize, PredicateOp, Value)>, bool) =
                match t.def.column_index(predicate.0.as_str()) {
                Some(k) => (Some((k, predicate.1, predicate.2)), true),
                None => (None, false),
            };
            let rows = scan_rows(t, column_indices, &skip);
            if !known && rows.len() > 0 {
                return Err(EngramDbError::ColumnNotFound(predicate.0));
            }
            assert(rows.len() == 0 ==> rows.deep_view() =~= Seq::empty());
            Ok(
                QueryResult {
                    columns: pick_names(&t.def.columns, column_indices),
                    rows,
                    rows_affected: 0,
                },
            )
        },
    }
}

/// Executes a plan that reads a table by key.
fn run_lookup(plan: &PhysicalPlan, inputs: &Inputs, db: &Database) -> (r: Option<
    Result<QueryResult, EngramDbError>,
>)
    requires
        db.wf(),
    ensures
        r matches Some(x) ==> forall|o: spec_fn(Question) -> Answer|
            #[trigger] ran_leaf(o, *plan, inputs.deep_view(), db.deep_view()).1 == db.deep_view()
                && gives_query(x, ran_leaf(o, *plan, inputs.deep_view(), db.deep_view()).0),
        r is None <==> !(plan is TableScan || plan is IndexOnlyScan || plan is IndexScan
            || plan is IndexRangeScan || plan is PrimaryKeyLookup || plan is VectorSearch),
{
    match plan {
        PhysicalPlan::TableScan { table_name, column_indices } => Some(
            run_scan(db, table_name.as_str(), column_indices),
        ),
        PhysicalPlan::IndexOnlyScan {
            table_name,
            index_name,
            key_value,
            output_column_indices,
            output_col_map,
        } => Some(
            index_only_scan(
                db,
                table_name.as_str(),
                index_name.as_str(),
                key_value,
                output_column_indices,
                output_col_map,
            ),
        ),
        PhysicalPlan::IndexScan { table_name, index_name, key_value, output_column_indices } => Some(
            index_scan(
                db,
                table_name.as_str(),
                index_name.as_str(),
                key_value,
                output_column_indices,
            ),
        ),
        PhysicalPlan::IndexRangeScan {
            table_name,
            index_name,
            low,
            low_inclusive,
            high,
            high_inclusive,
            output_column_indices,
        } => Some(
            index_range_scan(
                db,
                table_name.as_str(),
                index_name.as_str(),
                low,
                *low_inclusive,
                high,
                *high_inclusive,
                output_column_indices,
            ),
        ),
        PhysicalPlan::PrimaryKeyLookup { table_name, pk_value, output_column_indices } => Some(
            primary_key_lookup(db, table_name.as_str(), pk_value, output_column_indices),
        ),
        PhysicalPlan::VectorSearch { table_name, index_name, query_vector: _, k: _ } => Some(
            vector_search(db, table_name.as_str(), index_name.as_str(), &inputs.neighbors),
        ),
        _ => None,
    }
}

/// Deletes rows, and gives their number.
fn run_delete<E: Fn(Ask) -> Reply>(
    db: &mut Database,
    table_name: &str,
    condition: &Option<Expression>,
    env: &E,
) -> (r: Result<QueryResult, EngramDbError>)
    requires
        answers(*env),
        old(db).wf(),
    ensures
        final(db).wf(),
        opt_calm(opt_expr(*condition)) ==> answered(
            r,
            final(db).deep_view(),
            counted_as(
                "rows_deleted"@,
                deleted(oracle(*env), old(db).deep_view(), table_name@, opt_expr(*condition)),
            ),
        ),
        exists|n: (Result<u64, Fault>, Db)| #[trigger]
            can_delete(
                oracle(*env),
                old(db).deep_view(),
                table_name@,
                opt_expr(*condition),
                n,
            ) && (told_query(r), final(db).deep_view()) == counted_as("rows_deleted"@, n),
{
    match delete::execute(db, table_name, condition, env) {
        Err(e) => Err(e),
        Ok(n) => Ok(count_result("rows_deleted", n as u64)),
    }
}

/// Updates rows, and gives their number.
fn run_update<E: Fn(Ask) -> Reply>(
    db: &mut Database,
    table_name: &str,
    assignments: &Vec<(usize, Expression)>,
    condition: &Option<Expression>,
    env: &E,
) -> (r: Result<QueryResult, EngramDbError>)
    requires
        answers(*env),
        old(db).wf(),
    ensures
        final(db).wf(),
        opt_calm(opt_expr(*condition)) && sets_calm(assignments.deep_view()) ==> answered(
            r,
            final(db).deep_view(),
            counted_as(
                "rows_updated"@,
                updated_rows(
                    oracle(*env),
                    old(db).deep_view(),
                    table_name@,
                    assignments.deep_view(),
                    opt_expr(*condition),
                ),
            ),
        ),
        exists|n: (Result<u64, Fault>, Db)| #[trigger]
            can_update(
                oracle(*env),
                old(db).deep_view(),
                table_name@,
                assignments.deep_view(),
                opt_expr(*condition),
                n,
            ) && (told_query(r), final(db).deep_view()) == counted_as("rows_updated"@, n),
{
    match update::execute(db, table_name, assignments, condition, env) {
        Err(e) => Err(e),
        Ok(n) => Ok(count_result("rows_updated", n as u64)),
    }
}

/// Executes a plan that reads no other plan.
#[verifier::spinoff_prover]
#[verifier::rlimit(40)]
fn run_leaf<E: Fn(Ask) -> Reply>(
    plan: PhysicalPlan,
    inputs: &Inputs,
    db: &mut Database,
    env: &E,
) -> (r: Result<QueryResult, EngramDbError>)
    requires
        answers(*env),
        old(db).wf(),
    ensures
        final(db).wf(),
        steady(Plan::Leaf(plan)) ==> answered(
            r,
            final(db).deep_view(),
            ran_leaf(oracle(*env), plan, inputs.deep_view(), old(db).deep_view()),
        ),
        can_run_leaf(
            oracle(*env),
            plan,
            inputs.deep_view(),
            old(db).deep_view(),
            (told_query(r), final(db).deep_view()),
        ),
{
    if let Some(r) = run_lookup(&plan, inputs, db) {
        proof {
            let m = ran_leaf(oracle(*env), plan, inputs.deep_view(), db.deep_view());
            assert(m.1 == db.deep_view());
        }
        return r;
    }
    match plan {
        PhysicalPlan::Insert { table_name, rows, returning, on_conflict } => match on_conflict {
            Some(c) => execute_upsert(db, table_name.as_str(), &rows, &c, &returning, env),
            None => insert_returning(db, table_name.as_str(), rows, &returning, env),
        },
        PhysicalPlan::InsertColumns { table_name, columns } => match insert::execute_columns(
            db,
            table_name.as_str(),
            &columns,
            env,
        ) {
            Err(e) => Err(e),
            Ok(n) => Ok(count_result("rows_inserted", n)),
        },
        PhysicalPlan::CreateTable { table_def } => create_table(db, table_def),
        PhysicalPlan::CreateIndex {
            table_name,
            index_name,
            key_columns,
            included_columns,
            unique,
            using,
            with_options,
        } => create_index(
            db,
            table_name.as_str(),
            index_name.as_str(),
            &key_columns,
            &included_columns,
            unique,
            &using,
            &with_options,
        ),
        PhysicalPlan::Delete { table_name, condition } => run_delete(
            db,
            table_name.as_str(),
            &condition,
            env,
        ),
        PhysicalPlan::Update { table_name, assignments, condition } => run_update(
            db,
            table_name.as_str(),
            &assignments,
            &condition,
            env,
        ),
        PhysicalPlan::Analyze { table_name, column_indices: _ } => analyze(
            db,
            table_name.as_str(),
        ),
        PhysicalPlan::CreateMaterializedView { view_name, .. } => Ok(
            status_result(join3("Materialized view '", view_name.as_str(), "' created")),
        ),
        PhysicalPlan::RefreshMaterializedView { view_name, .. } => Ok(
            status_result(join3("Materialized view '", view_name.as_str(), "' refreshed")),
        ),
        PhysicalPlan::DropMaterializedView { view_name, .. } => Ok(
            status_result(join3("Materialized view '", view_name.as_str(), "' dropped")),
        ),
        PhysicalPlan::CountStar { output_name, count } => Ok(
            one_value(output_name.as_str(), Value::Int64(count), 0),
        ),
        PhysicalPlan::BeginTransaction => begin_transaction(db),
        PhysicalPlan::Commit => commit(db, env),
        PhysicalPlan::Rollback => rollback(db),
        PhysicalPlan::Savepoint { name } => savepoint(db, name.as_str(), env),
        PhysicalPlan::ReleaseSavepoint { name } => release_savepoint(db, name.as_str()),
        PhysicalPlan::RollbackToSavepoint { name } => rollback_to_savepoint(db, name.as_str()),
        PhysicalPlan::AlterTable(s) => alter_table::execute(db, &s),
        PhysicalPlan::TruncateTable { table_name } => truncate_table(db, table_name.as_str()),
        PhysicalPlan::Pragma(s) => pragma::execute(db, &s, inputs.file_bytes),
        _ => {
            let r = QueryResult { columns: Vec::new(), rows: Vec::new(), rows_affected: 0 };
            assert(r.deep_view().columns =~= Seq::empty());
            assert(r.deep_view().rows =~= Seq::empty());
            Ok(r)
        },
    }
}

/// The rows as wide as the first.
fn even_rows(rows: &Vec<Vec<Value>>) -> (r: Vec<Vec<Value>>)
    ensures
        r.deep_view() == evened(rows.deep_view()),
{
    let ghost all = rows.deep_view();
    let ghost m = evened(all);
    let mut out: Vec<Vec<Value>> = Vec::new();
    let mut i: usize = 0;
    while i < rows.len()
        invariant
            all == rows.deep_view(),
            m == evened(all),
            i <= rows.len(),
            out.deep_view() == m.subrange(0, i as int),
        decreases rows.len() - i,
    {
        assert(all[i as int] == rows[i as int].deep_view());
        assert(all[0] == rows[0].deep_view());
        let n: usize = rows[0].len();
        let mut row: Vec<Value> = Vec::new();
        let mut j: usize = 0;
        while j < n
            invariant
                i < rows.len(),
                i < m.len(),
                n == m[i as int].len(),
                all[i as int] == rows[i as int].deep_view(),
                m[i as int] == Seq::new(all[0].len(), |j: int| cell_of(all[i as int], j)),
                j <= n,
                row.deep_view() == m[i as int].subrange(0, j as int),
            decreases n - j,
        {
            let v = read_cell(&rows[i], j);
            let ghost before = row.deep_view();
            row.push(v);
            assert(row.deep_view() =~= before.push(v.deep_view()));
            j += 1;
            assert(row.deep_view() =~= m[i as int].subrange(0, j as int));
        }
        assert(row.deep_view() =~= m[i as int]);
        let ghost before = out.deep_view();
        out.push(row);
        assert(out.deep_view() =~= before.push(row.deep_view()));
        i += 1;
        assert(out.deep_view() =~= m.subrange(0, i as int));
    }
    assert(out.deep_view() =~= m);
    out
}

/// Fills a new table with the rows of a plan.
fn fill_table<E: Fn(Ask) -> Reply>(db: &mut Database, name: &str, q: &QueryResult, env: &E) -> (r:
    Result<QueryResult, EngramDbError>)
    requires
        answers(*env),
        old(db).wf(),
    ensures
        final(db).wf(),
        answered(
            r,
            final(db).deep_view(),
            filled_table(oracle(*env), old(db).deep_view(), name@, q.deep_view()),
        ),
{
    let rows = even_rows(&q.rows);
    match insert::execute(db, name, rows, false, env) {
        Err(e) => Err(e),
        Ok(n) => {
            let a = join3("Table '", name, "' created with ");
            let s = u64_text(n);
            let text = join3(a.as_str(), s.as_str(), " rows");
            Ok(one_value("status", Value::Varchar(text), n))
        },
    }
}

/// Puts the cells of a row into a wider or narrower one.
fn spread_row(row: &Vec<Value>, map: &Vec<usize>, width: usize) -> (r: Vec<Value>)
    ensures
        r.deep_view() == spread(row.deep_view(), map@, width as nat, map@.len()),
{
    let ghost cells = row.deep_view();
    let mut out: Vec<Value> = Vec::new();
    let mut j: usize = 0;
    while j < width
        invariant
            j <= width,
            out.deep_view() == Seq::new(j as nat, |k: int| Datum::Null),
        decreases width - j,
    {
        let ghost before = out.deep_view();
        out.push(Value::Null);
        assert(out.deep_view() =~= before.push(Datum::Null));
        j += 1;
        assert(out.deep_view() =~= Seq::new(j as nat, |k: int| Datum::Null));
    }
    assert(out.deep_view() =~= spread(cells, map@, width as nat, 0));
    let mut i: usize = 0;
    while i < map.len()
        invariant
            cells == row.deep_view(),
            out.len() == width,
            i <= map.len(),
            out.deep_view() == spread(cells, map@, width as nat, i as nat),
        decreases map.len() - i,
    {
        if i < row.len() && map[i] < width {
            assert(cells[i as int] == row[i as int].deep_view());
            let v = row[i].clone();
            let ghost before = out.deep_view();
            let ghost d = v.deep_view();
            out.set(map[i], v);
            assert(out.deep_view() =~= before.update(map@[i as int] as int, d));
        }
        i += 1;
    }
    out
}

/// The columns that the rows of a plan are put into.
fn find_targets(def: &TableDef, columns: &Option<Vec<String>>, rows: &Vec<Vec<Value>>) -> (r: Vec<
    usize,
>)
    ensures
        r@ == (match opt_names(*columns) {
            Some(names) => known_columns(def.deep_view().columns, names, names.len()),
            None => from_zero(
                if rows.deep_view().len() > 0 {
                    rows.deep_view()[0].len()
                } else {
                    def.deep_view().columns.len()
                },
            ),
        }),
{
    match columns {
        Some(names) => {
            let ghost all = names.deep_view();
            let ghost cols = def.deep_view().columns;
            let mut out: Vec<usize> = Vec::new();
            let mut i: usize = 0;
            while i < names.len()
                invariant
                    all == names.deep_view(),
                    cols == def.deep_view().columns,
                    i <= names.len(),
                    out@ == known_columns(cols, all, i as nat),
                decreases names.len() - i,
            {
                assert(all[i as int] == names[i as int]@);
                if let Some(c) = def.column_index(names[i].as_str()) {
                    out.push(c);
                }
                i += 1;
            }
            out
        },
        None => {
            let n: usize = if rows.len() > 0 {
                assert(rows.deep_view()[0] == rows[0].deep_view());
                rows[0].len()
            } else {
                def.columns.len()
            };
            all_columns(n)
        },
    }
}

/// Inserts the rows of a plan.
fn insert_from<E: Fn(Ask) -> Reply>(
    db: &mut Database,
    name: &str,
    columns: &Option<Vec<String>>,
    q: &QueryResult,
    env: &E,
) -> (r: Result<QueryResult, EngramDbError>)
    requires
        answers(*env),
        old(db).wf(),
    ensures
        final(db).wf(),
        answered(
            r,
            final(db).deep_view(),
            inserted_from(
                oracle(*env),
                old(db).deep_view(),
                name@,
                opt_names(*columns),
                q.deep_view(),
            ),
        ),
{
    let k: usize = match db.find_table(name) {
        None => {
            return Err(EngramDbError::TableNotFound(name.to_owned()));
        },
        Some(k) => k,
    };
    let width: usize = db.tables[k].def.columns.len();
    let map = find_targets(&db.tables[k].def, columns, &q.rows);
    let ghost all = q.rows.deep_view();
    let ghost m = Seq::new(all.len(), |i: int| spread(all[i], map@, width as nat, map@.len()));
    let mut rows: Vec<Vec<Value>> = Vec::new();
    let mut i: usize = 0;
    while i < q.rows.len()
        invariant
            all == q.rows.deep_view(),
            m == Seq::new(all.len(), |i: int| spread(all[i], map@, width as nat, map@.len())),
            i <= q.rows.len(),
            rows.deep_view() == m.subrange(0, i as int),
        decreases q.rows.len() - i,
    {
        assert(all[i as int] == q.rows[i as int].deep_view());
        let row = spread_row(&q.rows[i], &map, width);
        let ghost before = rows.deep_view();
        rows.push(row);
        assert(rows.deep_view() =~= before.push(row.deep_view()));
        i += 1;
        assert(rows.deep_view() =~= m.subrange(0, i as int));
    }
    assert(rows.deep_view() =~= m);
    match insert::execute(db, name, rows, false, env) {
        Err(e) => Err(e),
        Ok(n) => Ok(count_result("rows_inserted", n)),
    }
}

/// Shows a plan and what its execution took.
fn show_analysis<E: Fn(Ask) -> Reply>(q: &QueryResult, plan: &str, env: &E) -> (r: QueryResult)
    requires
        answers(*env),
    ensures
        r.deep_view() == analysis(oracle(*env), q.deep_view(), plan@),
{
    let t = i64_text(elapsed_us(env));
    let n = usize_text(q.rows.len());
    let a = join3("Execution Time: ", t.as_str(), " us\nTotal Rows: ");
    let b = join3(a.as_str(), n.as_str(), "\n\nPlan:\n");
    let text = join2(b.as_str(), plan);
    one_value("QUERY PLAN", Value::Varchar(text), 0)
}

/// Aggregates named batches.
fn aggregate_named<E: Fn(Ask) -> Reply>(
    c: (Vec<String>, Vec<DataChunk>),
    group_by: &Vec<usize>,
    aggregates: &Vec<AggregateExpr>,
    env: &E,
) -> (r: QueryResult)
    requires
        answers(*env),
        chunks_wf(c.1@),
    ensures
        r.deep_view() == listed(
            aggregate_names(c.0.deep_view(), group_by@, aggregates@),
            rows_in(
                aggregated_all(oracle(*env), straight(c.1.deep_view()), group_by@, aggregates@),
            ),
        ),
{
    let s = straighten(&c.1);
    let cs = aggregate_chunks(&s, group_by, aggregates, env);
    QueryResult {
        columns: name_aggregates(&c.0, group_by, aggregates),
        rows: unframe(&cs),
        rows_affected: 0,
    }
}

/// Sorts named batches.
fn sort_named(
    c: (Vec<String>, Vec<DataChunk>),
    sort_keys: &Vec<SortKey>,
    limit: Option<usize>,
) -> (r: QueryResult)
    requires
        chunks_wf(c.1@),
    ensures
        r.deep_view() == listed(
            c.0.deep_view(),
            rows_in(sorted_chunks(straight(c.1.deep_view()), sort_keys@, limit)),
        ),
{
    let s = straighten(&c.1);
    proof {
        lemma_regular(s.deep_view());
    }
    let cs = sort::sort_batches(&s, sort_keys, limit);
    QueryResult { columns: c.0, rows: unframe(&cs), rows_affected: 0 }
}

/// Whether an execution of a plan without subqueries ended as it can, and as
/// the model says where no number is drawn.
pub open spec fn ends(
    o: spec_fn(Question) -> Answer,
    p: Plan,
    g: Given,
    d: Db,
    r: Result<QueryResult, EngramDbError>,
    after: Db,
) -> bool {
    &&& steady(p) ==> answered(r, after, ran(o, p, g, d))
    &&& can_run(o, p, g, d, (told_query(r), after))
}

/// Executes a plan and filters its rows.
fn run_filter<E: Fn(Ask) -> Reply>(
    input: Box<PhysicalPlan>,
    condition: Expression,
    inputs: &Inputs,
    db: &mut Database,
    env: &E,
) -> (r: Result<QueryResult, EngramDbError>)
    requires
        answers(*env),
        old(db).wf(),
    ensures
        final(db).wf(),
        ends(
            oracle(*env),
            Plan::Filter(Box::new(input.deep_view()), condition.deep_view()),
            inputs.deep_view(),
            old(db).deep_view(),
            r,
            final(db).deep_view(),
        ),
    decreases input, 1int,
{
    if let PhysicalPlan::TableScan { table_name, column_indices } = &*input {
        if let Some(p) = pushed_predicate(&condition) {
            assert(plan_model(*input) == Plan::Leaf(*input));
            return run_scan_where(db, table_name.as_str(), column_indices, p);
        }
    }
    let a = run(*input, inputs, db, env);
    assert(reached((told_query(a), db.deep_view())));
    match a {
        Err(e) => Err(e),
        Ok(q) => filter_result(q, &condition, env),
    }
}

/// Executes a plan and projects its rows.
fn run_projection<E: Fn(Ask) -> Reply>(
    input: Box<PhysicalPlan>,
    expressions: Vec<Expression>,
    column_names: Vec<String>,
    inputs: &Inputs,
    db: &mut Database,
    env: &E,
) -> (r: Result<QueryResult, EngramDbError>)
    requires
        answers(*env),
        old(db).wf(),
    ensures
        final(db).wf(),
        ends(
            oracle(*env),
            Plan::Projection(
                Box::new(input.deep_view()),
                expressions.deep_view(),
                column_names.deep_view(),
            ),
            inputs.deep_view(),
            old(db).deep_view(),
            r,
            final(db).deep_view(),
        ),
    decreases input, 1int,
{
    let a = run(*input, inputs, db, env);
    assert(reached((told_query(a), db.deep_view())));
    match a {
        Err(e) => Err(e),
        Ok(q) => project_result(q, &expressions, column_names, env),
    }
}

/// Executes a plan and aggregates its rows.
fn run_aggregate<E: Fn(Ask) -> Reply>(
    input: Box<PhysicalPlan>,
    group_by: Vec<usize>,
    aggregates: Vec<AggregateExpr>,
    inputs: &Inputs,
    db: &mut Database,
    env: &E,
) -> (r: Result<QueryResult, EngramDbError>)
    requires
        answers(*env),
        old(db).wf(),
    ensures
        final(db).wf(),
        ends(
            oracle(*env),
            Plan::Aggregate(Box::new(input.deep_view()), group_by@, aggregates@),
            inputs.deep_view(),
            old(db).deep_view(),
            r,
            final(db).deep_view(),
        ),
    decreases input, 1int,
{
    let read = try_execute_chunks(&input, db, env);
    assert(on_the_way(told_chunked(read)));
    match read {
        Err(e) => Err(e),
        Ok(Some(c)) => Ok(aggregate_named(c, &group_by, &aggregates, env)),
        Ok(None) => {
            let a = run(*input, inputs, db, env);
            assert(reached((told_query(a), db.deep_view())));
            match a {
                Err(e) => Err(e),
                Ok(q) => Ok(aggregate_result(q, &group_by, &aggregates, env)),
            }
        },
    }
}

/// Executes a plan and sorts its rows.
fn run_sort<E: Fn(Ask) -> Reply>(
    input: Box<PhysicalPlan>,
    sort_keys: Vec<SortKey>,
    limit: Option<usize>,
    inputs: &Inputs,
    db: &mut Database,
    env: &E,
) -> (r: Result<QueryResult, EngramDbError>)
    requires
        answers(*env),
        old(db).wf(),
    ensures
        final(db).wf(),
        ends(
            oracle(*env),
            Plan::Sort(Box::new(input.deep_view()), sort_keys@, limit),
            inputs.deep_view(),
            old(db).deep_view(),
            r,
            final(db).deep_view(),
        ),
    decreases input, 1int,
{
    let read = try_execute_chunks(&input, db, env);
    assert(on_the_way(told_chunked(read)));
    match read {
        Err(e) => Err(e),
        Ok(Some(c)) => Ok(sort_named(c, &sort_keys, limit)),
        Ok(None) => {
            let a = run(*input, inputs, db, env);
            assert(reached((told_query(a), db.deep_view())));
            match a {
                Err(e) => Err(e),
                Ok(q) => Ok(sort_result(q, &sort_keys, limit)),
            }
        },
    }
}

/// Executes a plan and takes its first rows.
fn run_limit<E: Fn(Ask) -> Reply>(
    input: Box<PhysicalPlan>,
    limit: usize,
    inputs: &Inputs,
    db: &mut Database,
    env: &E,
) -> (r: Result<QueryResult, EngramDbError>)
    requires
        answers(*env),
        old(db).wf(),
    ensures
        final(db).wf(),
        ends(
            oracle(*env),
            Plan::Limit(Box::new(input.deep_view()), limit),
            inputs.deep_view(),
            old(db).deep_view(),
            r,
            final(db).deep_view(),
        ),
    decreases input, 1int,
{
    let a = run(*input, inputs, db, env);
    assert(reached((told_query(a), db.deep_view())));
    match a {
        Err(e) => Err(e),
        Ok(q) => Ok(limit_result(q, limit)),
    }
}

/// Executes a plan and adds window functions over its rows.
fn run_window<E: Fn(Ask) -> Reply>(
    input: Box<PhysicalPlan>,
    window_functions: Vec<WindowFunctionExpr>,
    column_names: Vec<String>,
    inputs: &Inputs,
    db: &mut Database,
    env: &E,
) -> (r: Result<QueryResult, EngramDbError>)
    requires
        answers(*env),
        old(db).wf(),
    ensures
        final(db).wf(),
        ends(
            oracle(*env),
            Plan::Window(Box::new(input.deep_view()), window_functions@, column_names.deep_view()),
            inputs.deep_view(),
            old(db).deep_view(),
            r,
            final(db).deep_view(),
        ),
    decreases input, 1int,
{
    let a = run(*input, inputs, db, env);
    assert(reached((told_query(a), db.deep_view())));
    match a {
        Err(e) => Err(e),
        Ok(q) => Ok(window_result(q, &window_functions, &column_names, env)),
    }
}

/// Executes a plan and leaves out equal rows.
fn run_distinct<E: Fn(Ask) -> Reply>(
    input: Box<PhysicalPlan>,
    inputs: &Inputs,
    db: &mut Database,
    env: &E,
) -> (r: Result<QueryResult, EngramDbError>)
    requires
        answers(*env),
        old(db).wf(),
    ensures
        final(db).wf(),
        ends(
            oracle(*env),
            Plan::Distinct(Box::new(input.deep_view())),
            inputs.deep_view(),
            old(db).deep_view(),
            r,
            final(db).deep_view(),
        ),
    decreases input, 1int,
{
    let a = run(*input, inputs, db, env);
    assert(reached((told_query(a), db.deep_view())));
    match a {
        Err(e) => Err(e),
        Ok(q) => Ok(distinct_result(q)),
    }
}

/// Creates a table from the rows of a plan.
fn run_create_as<E: Fn(Ask) -> Reply>(
    table_def: TableDef,
    source: Box<PhysicalPlan>,
    inputs: &Inputs,
    db: &mut Database,
    env: &E,
) -> (r: Result<QueryResult, EngramDbError>)
    requires
        answers(*env),
        old(db).wf(),
    ensures
        final(db).wf(),
        ends(
            oracle(*env),
            Plan::CreateTableAs(
                table_def.deep_view(),
                Box::new(source.deep_view()),
            ),
            inputs.deep_view(),
            old(db).deep_view(),
            r,
            final(db).deep_view(),
        ),
    decreases source, 1int,
{
    let name = table_def.name.clone();
    match db.create_table(table_def) {
        Err(e) => Err(e),
        Ok(_) => {
            let a = run(*source, inputs, db, env);
            assert(reached((told_query(a), db.deep_view())));
            match a {
                Err(e) => Err(e),
                Ok(q) => fill_table(db, name.as_str(), &q, env),
            }
        },
    }
}

/// Inserts the rows of a plan.
fn run_insert_select<E: Fn(Ask) -> Reply>(
    table_name: String,
    columns: Option<Vec<String>>,
    source: Box<PhysicalPlan>,
    inputs: &Inputs,
    db: &mut Database,
    env: &E,
) -> (r: Result<QueryResult, EngramDbError>)
    requires
        answers(*env),
        old(db).wf(),
    ensures
        final(db).wf(),
        ends(
            oracle(*env),
            Plan::InsertSelect(
                table_name@,
                opt_names(columns),
                Box::new(source.deep_view()),
            ),
            inputs.deep_view(),
            old(db).deep_view(),
            r,
            final(db).deep_view(),
        ),
    decreases source, 1int,
{
    let a = run(*source, inputs, db, env);
    assert(reached((told_query(a), db.deep_view())));
    match a {
        Err(e) => Err(e),
        Ok(q) => insert_from(db, table_name.as_str(), &columns, &q, env),
    }
}

/// Shows a plan, and what its execution took where it is analyzed.
fn run_explain<E: Fn(Ask) -> Reply>(
    analyze: bool,
    input: Box<PhysicalPlan>,
    inputs: &Inputs,
    db: &mut Database,
    env: &E,
) -> (r: Result<QueryResult, EngramDbError>)
    requires
        answers(*env),
        old(db).wf(),
    ensures
        final(db).wf(),
        ends(
            oracle(*env),
            Plan::Explain(analyze, Box::new(input.deep_view())),
            inputs.deep_view(),
            old(db).deep_view(),
            r,
            final(db).deep_view(),
        ),
    decreases input, 1int,
{
    let text = format_plan_tree(&input, 0);
    if analyze {
        let a = run(*input, inputs, db, env);
        assert(reached((told_query(a), db.deep_view())));
        match a {
            Err(e) => Err(e),
            Ok(q) => Ok(show_analysis(&q, text.as_str(), env)),
        }
    } else {
        Ok(one_value("QUERY PLAN", Value::Varchar(text), 0))
    }
}

/// Executes a plan without subqueries.
#[verifier::spinoff_prover]
#[verifier::rlimit(60)]
fn run<E: Fn(Ask) -> Reply>(
    plan: PhysicalPlan,
    inputs: &Inputs,
    db: &mut Database,
    env: &E,
) -> (r: Result<QueryResult, EngramDbError>)
    requires
        answers(*env),
        old(db).wf(),
    ensures
        final(db).wf(),
        ends(
            oracle(*env),
            plan.deep_view(),
            inputs.deep_view(),
            old(db).deep_view(),
            r,
            final(db).deep_view(),
        ),
    decreases plan, 0int,
{
    match plan {
        PhysicalPlan::Filter { input, condition } => run_filter(input, condition, inputs, db, env),
        PhysicalPlan::Projection { input, expressions, column_names } => run_projection(
            input,
            expressions,
            column_names,
            inputs,
            db,
            env,
        ),
        PhysicalPlan::Aggregate { input, group_by, aggregates } => run_aggregate(
            input,
            group_by,
            aggregates,
            inputs,
            db,
            env,
        ),
        PhysicalPlan::Sort { input, sort_keys, limit } => run_sort(
            input,
            sort_keys,
            limit,
            inputs,
            db,
            env,
        ),
        PhysicalPlan::Limit { input, limit } => run_limit(input, limit, inputs, db, env),
        PhysicalPlan::Window { input, window_functions, column_names } => run_window(
            input,
            window_functions,
            column_names,
            inputs,
            db,
            env,
        ),
        PhysicalPlan::Distinct { input } => run_distinct(input, inputs, db, env),
        PhysicalPlan::SubqueryScan { plan: input } => run(*input, inputs, db, env),
        PhysicalPlan::HashJoin { left, right, join_type, left_keys, right_keys } => {
            let a = run(*left, inputs, db, env);
            assert(reached((told_query(a), db.deep_view())));
            match a {
                Err(e) => Err(e),
                Ok(x) => {
                    let b = run(*right, inputs, db, env);
                    assert(reached((told_query(b), db.deep_view())));
                    match b {
                        Err(e) => Err(e),
                        Ok(y) => Ok(join_results(x, y, join_type, &left_keys, &right_keys)),
                    }
                },
            }
        },
        PhysicalPlan::CrossJoin { left, right } => {
            let a = run(*left, inputs, db, env);
            assert(reached((told_query(a), db.deep_view())));
            match a {
                Err(e) => Err(e),
                Ok(x) => {
                    let b = run(*right, inputs, db, env);
                    assert(reached((told_query(b), db.deep_view())));
                    match b {
                        Err(e) => Err(e),
                        Ok(y) => Ok(cross_results(x, y)),
                    }
                },
            }
        },
        PhysicalPlan::SetUnion { op, left, right } => {
            let a = run(*left, inputs, db, env);
            assert(reached((told_query(a), db.deep_view())));
            match a {
                Err(e) => Err(e),
                Ok(x) => {
                    let b = run(*right, inputs, db, env);
                    assert(reached((told_query(b), db.deep_view())));
                    match b {
                        Err(e) => Err(e),
                        Ok(y) => union_results(op, x, y, env),
                    }
                },
            }
        },
        PhysicalPlan::CreateTableAs { table_def, source } => run_create_as(
            table_def,
            source,
            inputs,
            db,
            env,
        ),
        PhysicalPlan::InsertSelect { table_name, columns, source } => run_insert_select(
            table_name,
            columns,
            source,
            inputs,
            db,
            env,
        ),
        PhysicalPlan::Explain { analyze, plan: input } => run_explain(
            analyze,
            input,
            inputs,
            db,
            env,
        ),
        other => {
            assert(plan_model(other) == Plan::Leaf(other));
            run_leaf(other, inputs, db, env)
        },
    }
}

/// Executes a plan. The results of its subqueries are among the inputs.
pub fn execute<E: Fn(Ask) -> Reply>(
    plan: PhysicalPlan,
    inputs: &Inputs,
    db: &mut Database,
    env: &E,
) -> (r: Result<QueryResult, EngramDbError>)
    requires
        answers(*env),
        old(db).wf(),
    ensures
        final(db).wf(),
        steady(resolved(inputs.deep_view().subqueries, plan.deep_view())) ==> answered(
            r,
            final(db).deep_view(),
            ran(
                oracle(*env),
                resolved(inputs.deep_view().subqueries, plan.deep_view()),
                inputs.deep_view(),
                old(db).deep_view(),
            ),
        ),
        can_run(
            oracle(*env),
            resolved(inputs.deep_view().subqueries, plan.deep_view()),
            inputs.deep_view(),
            old(db).deep_view(),
            (told_query(r), final(db).deep_view()),
        ),
{
    let p = resolve_subqueries_in_plan(plan, &inputs.subqueries);
    run(p, inputs, db, env)
}

} // verus!
