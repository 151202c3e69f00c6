//! What holds of transactions, and of plans that only read.
use vstd::prelude::*;

use crate::common::error::Fault;
use crate::executor::env::{Answer, Question};
use crate::executor::executor::{ran, ran_leaf, Given};
use crate::executor::operators::insert::{
    applied, batchable, excluded, flushed, inserted_all, inserted_txn, ticked,
};
use crate::executor::physical_plan::{
    AggregateExpr, JoinType, PhysicalPlan, Plan, SetUnionOp, SortKey, WindowFunctionExpr,
};
use crate::executor::statements::{begin_txn, commit_txn, rollback_txn};
use crate::sql::ast::Expr;
use crate::storage::database::{named, pending_from, queued, table_of, waiting_rows, Db};
use crate::storage::txn::{open_at, row_inserts, Op};
use crate::value::Datum;

verus! {

/// Whether a transaction collects rows for a table, and so few of them that
/// they are not written before it ends.
pub open spec fn collects(d: Db, name: Seq<char>, rows: Seq<Seq<Datum>>) -> bool {
    &&& d.config.enable_transaction
    &&& d.txns.ready
    &&& d.config.txn_batch_enabled
    &&& rows.len() < d.config.txn_batch_rows
    &&& table_of(d, name) matches Some(t) && !excluded(t.def) && (batchable(t.def)
        || !d.config.txn_batch_bypass_constraint_tables)
}

/// What the insertion into a new transaction does: the rows wait, or they are
/// refused.
proof fn lemma_collected(
    o: spec_fn(Question) -> Answer,
    d: Db,
    name: Seq<char>,
    rows: Seq<Seq<Datum>>,
)
    requires
        collects(d, name, rows),
    ensures
        ({
            let b = begin_txn(d).1;
            let i = inserted_all(o, b, name, rows, false);
            &&& i.0 is Ok ==> i.1 == Db { buffer: seq![(name, rows)], ..b }
            &&& i.0 is Err ==> i.1 == b
            &&& open_at(b.txns.open, b.current->0, b.txns.open.len()) is Some
        }),
{
    let b = begin_txn(d).1;
    assert(table_of(b, name) == table_of(d, name));
    assert(pending_from(b.buffer, name, 0) is None);
    let q = queued(b.buffer, name, rows);
    assert(q =~= seq![(name, rows)]);
    assert(waiting_rows(q, 1) == waiting_rows(q, 0) + rows.len());
    assert(b.txns.open.last().id == b.current->0);
}

/// A rollback leaves nothing of what a transaction collected.
pub proof fn law_rollback_discards(
    o: spec_fn(Question) -> Answer,
    d: Db,
    name: Seq<char>,
    rows: Seq<Seq<Datum>>,
)
    requires
        collects(d, name, rows),
    ensures
        ({
            let i = inserted_all(o, begin_txn(d).1, name, rows, false).1;
            let r = rollback_txn(i);
            &&& r.0 is Ok
            &&& r.1.tables == d.tables
            &&& r.1.buffer.len() == 0
            &&& r.1.current is None
        }),
{
    lemma_collected(o, d, name, rows);
}

/// Writes change tables and nothing else.
proof fn lemma_applied_keeps(d: Db, ops: Seq<Op>, n: nat)
    ensures
        applied(d, ops, n).0 == (Db { tables: applied(d, ops, n).0.tables, ..d }),
    decreases n,
{
    if n > 0 {
        lemma_applied_keeps(d, ops, (n - 1) as nat);
    }
}

/// A commit writes what the transaction collected, and fails where that
/// cannot be written.
pub proof fn law_commit_writes(
    o: spec_fn(Question) -> Answer,
    d: Db,
    name: Seq<char>,
    rows: Seq<Seq<Datum>>,
)
    requires
        collects(d, name, rows),
        rows.len() > 0,
        inserted_all(o, begin_txn(d).1, name, rows, false).0 is Ok,
    ensures
        ({
            let i = inserted_all(o, begin_txn(d).1, name, rows, false).1;
            let w = inserted_txn(o, begin_txn(d).1, name, rows);
            &&& i.tables == d.tables
            &&& commit_txn(o, i).0 is Ok <==> w.0 is Ok
            &&& commit_txn(o, i).1.tables == w.1.tables
        }),
{
    lemma_collected(o, d, name, rows);
    let b = begin_txn(d).1;
    let i = inserted_all(o, b, name, rows, false).1;
    assert(Db { buffer: Seq::empty(), ..i } =~= b);
    let p = seq![(name, rows)];
    assert(flushed(o, b, p, 0) == (None::<Fault>, b));
    let w = inserted_txn(o, b, name, rows);
    assert(flushed(o, b, p, 1).1 == w.1);
    let k = named(b, name)->0;
    let ops = row_inserts(
        k as u32,
        b.tables[k].def.row_count,
        rows,
    );
    lemma_applied_keeps(Db { txns: ticked(b.txns), ..b }, ops, ops.len());
    assert(w.1.txns.open == b.txns.open);
}

/// Whether a plan only reads.
pub open spec fn only_reads(p: Plan) -> bool
    decreases p,
{
    match p {
        Plan::Leaf(x) => match x {
            PhysicalPlan::TableScan { .. } => true,
            PhysicalPlan::IndexOnlyScan { .. } => true,
            PhysicalPlan::IndexScan { .. } => true,
            PhysicalPlan::IndexRangeScan { .. } => true,
            PhysicalPlan::CountStar { .. } => true,
            PhysicalPlan::PrimaryKeyLookup { .. } => true,
            PhysicalPlan::VectorSearch { .. } => true,
            _ => false,
        },
        Plan::Filter(x, _) => only_reads(*x),
        Plan::Projection(x, _, _) => only_reads(*x),
        Plan::Aggregate(x, _, _) => only_reads(*x),
        Plan::Sort(x, _, _) => only_reads(*x),
        Plan::Limit(x, _) => only_reads(*x),
        Plan::Window(x, _, _) => only_reads(*x),
        Plan::Distinct(x) => only_reads(*x),
        Plan::SubqueryScan(x) => only_reads(*x),
        Plan::HashJoin(l, r, _, _, _) => only_reads(*l) && only_reads(*r),
        Plan::CrossJoin(l, r) => only_reads(*l) && only_reads(*r),
        Plan::SetUnion(_, l, r) => only_reads(*l) && only_reads(*r),
        Plan::CreateTableAs(_, _) => false,
        Plan::InsertSelect(_, _, _) => false,
        Plan::Explain(analyze, x) => !analyze || only_reads(*x),
    }
}

proof fn lemma_filter_reads(
    o: spec_fn(Question) -> Answer,
    x: Box<Plan>,
    e: Expr,
    g: Given,
    d: Db,
)
    requires
        ran(o, *x, g, d).1 == d,
    ensures
        ran(o, Plan::Filter(x, e), g, d).1 == d,
{
}

proof fn lemma_projection_reads(
    o: spec_fn(Question) -> Answer,
    x: Box<Plan>,
    es: Seq<Expr>,
    names: Seq<Seq<char>>,
    g: Given,
    d: Db,
)
    requires
        ran(o, *x, g, d).1 == d,
    ensures
        ran(o, Plan::Projection(x, es, names), g, d).1 == d,
{
}

proof fn lemma_aggregate_reads(
    o: spec_fn(Question) -> Answer,
    x: Box<Plan>,
    by: Seq<usize>,
    a: Seq<AggregateExpr>,
    g: Given,
    d: Db,
)
    requires
        ran(o, *x, g, d).1 == d,
    ensures
        ran(o, Plan::Aggregate(x, by, a), g, d).1 == d,
{
}

proof fn lemma_sort_reads(
    o: spec_fn(Question) -> Answer,
    x: Box<Plan>,
    keys: Seq<SortKey>,
    limit: Option<usize>,
    g: Given,
    d: Db,
)
    requires
        ran(o, *x, g, d).1 == d,
    ensures
        ran(o, Plan::Sort(x, keys, limit), g, d).1 == d,
{
}

proof fn lemma_limit_reads(
    o: spec_fn(Question) -> Answer,
    x: Box<Plan>,
    n: usize,
    g: Given,
    d: Db,
)
    requires
        ran(o, *x, g, d).1 == d,
    ensures
        ran(o, Plan::Limit(x, n), g, d).1 == d,
{
}

proof fn lemma_window_reads(
    o: spec_fn(Question) -> Answer,
    x: Box<Plan>,
    f: Seq<WindowFunctionExpr>,
    names: Seq<Seq<char>>,
    g: Given,
    d: Db,
)
    requires
        ran(o, *x, g, d).1 == d,
    ensures
        ran(o, Plan::Window(x, f, names), g, d).1 == d,
{
}

proof fn lemma_distinct_reads(
    o: spec_fn(Question) -> Answer,
    x: Box<Plan>,
    g: Given,
    d: Db,
)
    requires
        ran(o, *x, g, d).1 == d,
    ensures
        ran(o, Plan::Distinct(x), g, d).1 == d,
{
}

proof fn lemma_scan_reads(
    o: spec_fn(Question) -> Answer,
    x: Box<Plan>,
    g: Given,
    d: Db,
)
    requires
        ran(o, *x, g, d).1 == d,
    ensures
        ran(o, Plan::SubqueryScan(x), g, d).1 == d,
{
}

proof fn lemma_join_reads(
    o: spec_fn(Question) -> Answer,
    l: Box<Plan>,
    r: Box<Plan>,
    t: JoinType,
    a: Seq<usize>,
    b: Seq<usize>,
    g: Given,
    d: Db,
)
    requires
        ran(o, *l, g, d).1 == d,
        ran(o, *r, g, d).1 == d,
    ensures
        ran(o, Plan::HashJoin(l, r, t, a, b), g, d).1 == d,
{
}

proof fn lemma_cross_reads(
    o: spec_fn(Question) -> Answer,
    l: Box<Plan>,
    r: Box<Plan>,
    g: Given,
    d: Db,
)
    requires
        ran(o, *l, g, d).1 == d,
        ran(o, *r, g, d).1 == d,
    ensures
        ran(o, Plan::CrossJoin(l, r), g, d).1 == d,
{
}

proof fn lemma_union_reads(
    o: spec_fn(Question) -> Answer,
    l: Box<Plan>,
    r: Box<Plan>,
    op: SetUnionOp,
    g: Given,
    d: Db,
)
    requires
        ran(o, *l, g, d).1 == d,
        ran(o, *r, g, d).1 == d,
    ensures
        ran(o, Plan::SetUnion(op, l, r), g, d).1 == d,
{
}

proof fn lemma_leaf_reads(o: spec_fn(Question) -> Answer, x: PhysicalPlan, g: Given, d: Db)
    requires
        only_reads(Plan::Leaf(x)),
    ensures
        ran_leaf(o, x, g, d).1 == d,
{
}

proof fn lemma_explain_reads(
    o: spec_fn(Question) -> Answer,
    analyze: bool,
    x: Box<Plan>,
    g: Given,
    d: Db,
)
    requires
        !analyze || ran(o, *x, g, d).1 == d,
    ensures
        ran(o, Plan::Explain(analyze, x), g, d).1 == d,
{
}

/// A plan that only reads leaves the database as it was, and so does the
/// explanation of any plan.
pub proof fn law_reads_change_nothing(o: spec_fn(Question) -> Answer, p: Plan, g: Given, d: Db)
    requires
        only_reads(p),
    ensures
        ran(o, p, g, d).1 == d,
    decreases p,
{
    match p {
        Plan::Leaf(x) => {
            lemma_leaf_reads(o, x, g, d);
        },
        Plan::Filter(x, e) => {
            law_reads_change_nothing(o, *x, g, d);
            lemma_filter_reads(o, x, e, g, d);
        },
        Plan::Projection(x, es, names) => {
            law_reads_change_nothing(o, *x, g, d);
            lemma_projection_reads(o, x, es, names, g, d);
        },
        Plan::Aggregate(x, by, a) => {
            law_reads_change_nothing(o, *x, g, d);
            lemma_aggregate_reads(o, x, by, a, g, d);
        },
        Plan::Sort(x, keys, limit) => {
            law_reads_change_nothing(o, *x, g, d);
            lemma_sort_reads(o, x, keys, limit, g, d);
        },
        Plan::Limit(x, n) => {
            law_reads_change_nothing(o, *x, g, d);
            lemma_limit_reads(o, x, n, g, d);
        },
        Plan::Window(x, f, names) => {
            law_reads_change_nothing(o, *x, g, d);
            lemma_window_reads(o, x, f, names, g, d);
        },
        Plan::Distinct(x) => {
            law_reads_change_nothing(o, *x, g, d);
            lemma_distinct_reads(o, x, g, d);
        },
        Plan::SubqueryScan(x) => {
            law_reads_change_nothing(o, *x, g, d);
            lemma_scan_reads(o, x, g, d);
        },
        Plan::HashJoin(l, r, t, a, b) => {
            law_reads_change_nothing(o, *l, g, d);
            law_reads_change_nothing(o, *r, g, d);
            lemma_join_reads(o, l, r, t, a, b, g, d);
        },
        Plan::CrossJoin(l, r) => {
            law_reads_change_nothing(o, *l, g, d);
            law_reads_change_nothing(o, *r, g, d);
            lemma_cross_reads(o, l, r, g, d);
        },
        Plan::SetUnion(op, l, r) => {
            law_reads_change_nothing(o, *l, g, d);
            law_reads_change_nothing(o, *r, g, d);
            lemma_union_reads(o, l, r, op, g, d);
        },
        Plan::CreateTableAs(_, _) => {},
        Plan::InsertSelect(_, _, _) => {},
        Plan::Explain(analyze, x) => {
            if analyze {
                law_reads_change_nothing(o, *x, g, d);
            }
            lemma_explain_reads(o, analyze, x, g, d);
        },
    }
}

} // verus!
