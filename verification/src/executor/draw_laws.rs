//! What can come out where no number is drawn: what the models say, and nothing
//! else.
use vstd::prelude::*;

use crate::common::error::Fault;
use crate::common::types::name_index;
use crate::executor::columnar::{
    aggregate_names, aggregated_all, aggregated_from, can_chunk, can_filter_from,
    can_filter_named, can_push, chunked, limited_from, named_in, names_picked, on_the_way,
    only_columns, picked_from, pushed, pushed_scan, scanned_at, sorted_from, steady, united,
    Named,
};
use crate::executor::env::{Answer, Question};
use crate::executor::executor::{
    analysis, can_run, can_run_leaf, counted_as, filled_table, inserted_from, onward, ran, ran_leaf,
    reached, Given, Outcome,
};
use crate::executor::explain::{blanks, tree};
use crate::executor::expression::draws::{all_drawn, drawn, lemma_calm_drawn};
use crate::executor::expression::eval::{all_calm, calm};
use crate::executor::framing::{framed, rows_in, straight};
use crate::executor::operators::delete::{
    and_deletion, can_choose, can_delete, column_names, deleted, deletions, meets, opt_calm,
    opt_drawn, opt_expr, ran_writes,
};
use crate::executor::operators::filter::{and_left, can_filter, filtered, filtered_all};
use crate::executor::operators::projection::{can_project, projected, projected_all};
use crate::executor::operators::table_scan::{scanned, PredicateOp};
use crate::executor::operators::update::{
    and_change, can_change, can_update, changed_row, changes, sets_calm, sets_drawn, updated_rows,
};
use crate::executor::physical_plan::{PhysicalPlan, Plan, SetUnionOp};
use crate::executor::operators::sort::sorted_chunks;
use crate::executor::relational::{
    aggregate_query, can_filter_query, can_project_query, cross_query, distinct_query,
    filter_query, join_query, limit_query, listed_in, places, project_query, sort_query,
    union_query, window_query,
};
use crate::executor::vector::Chunk;
use crate::query::{listed, Query};
use crate::sql::ast::Expr;
use crate::storage::database::{named, table_of, with_new_table, Db};
use crate::storage::table::live;
use crate::storage::txn::Op;
use crate::value::Datum;

verus! {

/// Nothing is drawn in a list without RANDOM.
proof fn lemma_list_calm(list: Seq<Expr>, ps: Seq<Expr>)
    requires
        all_calm(list),
        all_drawn(list, ps),
    ensures
        ps == list,
{
    assert forall|i: int| 0 <= i < list.len() implies list[i] == ps[i] by {
        lemma_calm_drawn(list[i], ps[i]);
    }
    assert(ps =~= list);
}

/// A calm condition filters in one way.
proof fn lemma_filter_one(
    o: spec_fn(Question) -> Answer,
    cs: Seq<Chunk>,
    e: Expr,
    names: Seq<Seq<char>>,
    r: Result<Seq<Chunk>, Fault>,
)
    requires
        calm(e),
        can_filter(o, cs, e, names, r),
    ensures
        r == filtered_all(o, cs, e, names),
    decreases cs.len(),
{
    if cs.len() > 0 {
        let (done, p) = choose|done: Result<Seq<Chunk>, Fault>, p: Expr|
            can_filter(o, cs.drop_last(), e, names, done) && drawn(e, p) && r
                == #[trigger] and_left(done, filtered(o, cs.last(), p, names));
        lemma_calm_drawn(e, p);
        lemma_filter_one(o, cs.drop_last(), e, names, done);
    }
}

/// Calm expressions project in one way.
proof fn lemma_project_one(
    o: spec_fn(Question) -> Answer,
    cs: Seq<Chunk>,
    es: Seq<Expr>,
    names: Seq<Seq<char>>,
    r: Result<Seq<Chunk>, Fault>,
)
    requires
        all_calm(es),
        can_project(o, cs, es, names, r),
    ensures
        r == projected_all(o, cs, es, names),
    decreases cs.len(),
{
    if cs.len() > 0 {
        let (done, ps) = choose|done: Result<Seq<Chunk>, Fault>, ps: Seq<Expr>|
            can_project(o, cs.drop_last(), es, names, done) && all_drawn(es, ps) && r
                == #[trigger] and_left(done, projected(o, cs.last(), ps, names));
        lemma_list_calm(es, ps);
        lemma_project_one(o, cs.drop_last(), es, names, done);
    }
}

/// Nothing is drawn in an optional condition without RANDOM.
proof fn lemma_opt_calm(e: Option<Expr>, p: Option<Expr>)
    requires
        opt_calm(e),
        opt_drawn(e, p),
    ensures
        p == e,
{
    if let (Some(x), Some(y)) = (e, p) {
        lemma_calm_drawn(x, y);
    }
}

/// A calm condition chooses in one way.
proof fn lemma_choose_one(
    o: spec_fn(Question) -> Answer,
    table: u32,
    rows: Seq<(u64, Seq<Datum>)>,
    cond: Option<Expr>,
    names: Seq<Seq<char>>,
    n: nat,
    r: Result<Seq<Op>, Fault>,
)
    requires
        opt_calm(cond),
        can_choose(o, table, rows, cond, names, n, r),
    ensures
        r == deletions(o, table, rows, cond, names, n),
    decreases n,
{
    if n > 0 {
        let (done, p) = choose|done: Result<Seq<Op>, Fault>, p: Option<Expr>|
            can_choose(o, table, rows, cond, names, (n - 1) as nat, done) && opt_drawn(cond, p)
                && r == #[trigger] and_deletion(
                done,
                table,
                rows[n - 1].0,
                meets(o, rows[n - 1].1, p, names),
            );
        lemma_opt_calm(cond, p);
        lemma_choose_one(o, table, rows, cond, names, (n - 1) as nat, done);
    }
}

/// Calm assignments under a calm condition change rows in one way.
proof fn lemma_change_one(
    o: spec_fn(Question) -> Answer,
    table: u32,
    rows: Seq<(u64, Seq<Datum>)>,
    sets: Seq<(usize, Expr)>,
    cond: Option<Expr>,
    names: Seq<Seq<char>>,
    n: nat,
    r: Result<Seq<Op>, Fault>,
)
    requires
        opt_calm(cond),
        sets_calm(sets),
        can_change(o, table, rows, sets, cond, names, n, r),
    ensures
        r == changes(o, table, rows, sets, cond, names, n),
    decreases n,
{
    if n > 0 {
        let (done, ps, p) = choose|
            done: Result<Seq<Op>, Fault>,
            ps: Seq<(usize, Expr)>,
            p: Option<Expr>,
        |
            can_change(o, table, rows, sets, cond, names, (n - 1) as nat, done) && sets_drawn(
                sets,
                ps,
            ) && opt_drawn(cond, p) && r == #[trigger] and_change(
                done,
                table,
                rows[n - 1].0,
                changed_row(o, rows[n - 1].1, ps, p, names),
            );
        lemma_opt_calm(cond, p);
        assert forall|i: int| 0 <= i < sets.len() implies sets[i] == ps[i] by {
            assert(calm(sets[i].1));
            lemma_calm_drawn(sets[i].1, ps[i].1);
        }
        assert(ps =~= sets);
        lemma_change_one(o, table, rows, sets, cond, names, (n - 1) as nat, done);
    }
}

/// A calm deletion ends in one way.
proof fn lemma_delete_one(
    o: spec_fn(Question) -> Answer,
    d: Db,
    name: Seq<char>,
    cond: Option<Expr>,
    m: (Result<u64, Fault>, Db),
)
    requires
        opt_calm(cond),
        can_delete(o, d, name, cond, m),
    ensures
        m == deleted(o, d, name, cond),
{
    if let Some(k) = named(d, name) {
        let t = d.tables[k];
        let rows = live(t.slots, t.slots.len());
        let names = column_names(t.def.columns);
        if t.def.columns.len() > 0 {
            let ops = choose|ops: Result<Seq<Op>, Fault>| #[trigger]
                can_choose(o, k as u32, rows, cond, names, rows.len(), ops) && m == (match ops {
                    Err(f) => (Err(f), d),
                    Ok(ops) => ran_writes(d, ops),
                });
            lemma_choose_one(o, k as u32, rows, cond, names, rows.len(), ops);
        }
    }
}

/// A calm update ends in one way.
proof fn lemma_update_one(
    o: spec_fn(Question) -> Answer,
    d: Db,
    name: Seq<char>,
    sets: Seq<(usize, Expr)>,
    cond: Option<Expr>,
    m: (Result<u64, Fault>, Db),
)
    requires
        opt_calm(cond),
        sets_calm(sets),
        can_update(o, d, name, sets, cond, m),
    ensures
        m == updated_rows(o, d, name, sets, cond),
{
    if let Some(k) = named(d, name) {
        let t = d.tables[k];
        let rows = live(t.slots, t.slots.len());
        let names = column_names(t.def.columns);
        if exists|ops: Result<Seq<Op>, Fault>| #[trigger]
            can_change(o, k as u32, rows, sets, cond, names, rows.len(), ops) && m == (match ops {
                Err(f) => (Err(f), d),
                Ok(ops) => ran_writes(d, ops),
            }) {
            let ops = choose|ops: Result<Seq<Op>, Fault>| #[trigger]
                can_change(o, k as u32, rows, sets, cond, names, rows.len(), ops) && m == (
                match ops {
                    Err(f) => (Err(f), d),
                    Ok(ops) => ran_writes(d, ops),
                });
            lemma_change_one(o, k as u32, rows, sets, cond, names, rows.len(), ops);
        }
    }
}

/// A calm condition filters named batches in one way.
proof fn lemma_named_one(
    o: spec_fn(Question) -> Answer,
    cs: Seq<Chunk>,
    e: Expr,
    names: Seq<Seq<char>>,
    r: Named,
)
    requires
        calm(e),
        can_filter_named(o, cs, e, names, r),
    ensures
        r == named_in(names, filtered_all(o, cs, e, names)),
{
    let kept = choose|kept: Result<Seq<Chunk>, Fault>| #[trigger]
        can_filter(o, cs, e, names, kept) && r == named_in(names, kept);
    lemma_filter_one(o, cs, e, names, kept);
}

/// What a plan gives batch by batch.
proof fn lemma_chunk_one(o: spec_fn(Question) -> Answer, p: Plan, d: Db, r: Named)
    requires
        steady(p),
        can_chunk(o, p, d, r),
    ensures
        r == chunked(o, p, d),
    decreases p,
{
    match p {
        Plan::Projection(x, es, names) => {
            if only_columns(es) {
                let c = choose|c: Named| #[trigger]
                    on_the_way(c) && can_chunk(o, *x, d, c) && r == picked_from(c, es, names);
                lemma_chunk_one(o, *x, d, c);
            }
        },
        Plan::Filter(x, e) => {
            match (*x, pushed(e)) {
                (
                    Plan::Leaf(PhysicalPlan::TableScan { table_name, column_indices }),
                    Some(q),
                ) => lemma_push_one(o, d, table_name@, column_indices@, q, e, r),
                _ => {
                    let c = choose|c: Named| #[trigger]
                        on_the_way(c) && can_chunk(o, *x, d, c) && can_filter_from(o, c, e, r);
                    lemma_chunk_one(o, *x, d, c);
                    if let Ok(Some(c)) = c {
                        lemma_named_one(
                            o,
                            straight(c.1),
                            e,
                            c.0,
                            r,
                        );
                    }
                },
            }
        },
        Plan::Sort(x, keys, limit) => {
            let c = choose|c: Named| #[trigger]
                on_the_way(c) && can_chunk(o, *x, d, c) && r
                    == sorted_from(c, keys, limit);
            lemma_chunk_one(o, *x, d, c);
        },
        Plan::Limit(x, n) => {
            let c = choose|c: Named| #[trigger]
                on_the_way(c) && can_chunk(o, *x, d, c) && r
                    == limited_from(c, n);
            lemma_chunk_one(o, *x, d, c);
        },
        Plan::Aggregate(x, g, a) => {
            let c = choose|c: Named| #[trigger]
                on_the_way(c) && can_chunk(o, *x, d, c) && r
                    == aggregated_from(o, c, g, a);
            lemma_chunk_one(o, *x, d, c);
        },
        Plan::SetUnion(op, x, y) => {
            if op == SetUnionOp::UnionAll {
                let a = choose|a: Named| #[trigger]
                    on_the_way(a) && can_chunk(o, *x, d, a) && match a {
                        Ok(Some(_)) => exists|b: Named| #[trigger]
                            on_the_way(b) && can_chunk(o, *y, d, b) && r
                                == united(o, a, b),
                        _ => r == a,
                    };
                lemma_chunk_one(o, *x, d, a);
                if let Ok(Some(_)) = a {
                    let b = choose|b: Named| #[trigger]
                        on_the_way(b) && can_chunk(o, *y, d, b) && r
                            == united(o, a, b);
                    lemma_chunk_one(o, *y, d, b);
                }
            }
        },
        Plan::SubqueryScan(x) => lemma_chunk_one(o, *x, d, r),
        _ => {},
    }
}

/// What a scan with a comparison in the place of a condition gives.
proof fn lemma_push_one(
    o: spec_fn(Question) -> Answer,
    d: Db,
    table: Seq<char>,
    at: Seq<usize>,
    p: (Seq<char>, PredicateOp, Datum),
    e: Expr,
    r: Named,
)
    requires
        calm(e),
        can_push(o, d, table, at, p, e, r),
    ensures
        r == (match pushed_scan(o, d, table, at, p, e) {
            Err(f) => Err(f),
            Ok(c) => Ok(Some(c)),
        }),
{
    if let Some(t) = table_of(d, table) {
        let names = names_picked(t.def.columns, at);
        let c = name_index(t.def.columns, p.0);
        let skip = match c {
            Some(k) => Some((k as usize, p.1, p.2)),
            None => None,
        };
        let chunks = framed(scanned(t, at, skip));
        if !scanned_at(at, c) {
            lemma_named_one(o, chunks, e, names, r);
        }
    }
}

/// A calm condition filters a result in one way.
proof fn lemma_filter_query_one(
    o: spec_fn(Question) -> Answer,
    q: Query,
    e: Expr,
    r: Result<Query, Fault>,
)
    requires
        calm(e),
        can_filter_query(o, q, e, r),
    ensures
        r == filter_query(o, q, e),
{
    let cs = choose|cs: Result<Seq<Chunk>, Fault>| #[trigger]
        can_filter(o, framed(q.rows), e, q.columns, cs) && r == listed_in(q.columns, cs);
    lemma_filter_one(o, framed(q.rows), e, q.columns, cs);
}

/// Calm expressions project a result in one way.
proof fn lemma_project_query_one(
    o: spec_fn(Question) -> Answer,
    q: Query,
    es: Seq<Expr>,
    names: Seq<Seq<char>>,
    r: Result<Query, Fault>,
)
    requires
        all_calm(es),
        can_project_query(o, q, es, names, r),
    ensures
        r == project_query(o, q, es, names),
{
    if !(q.rows.len() > 0 && places(q.columns, es, es.len()) is Some) {
        let cs = choose|cs: Result<Seq<Chunk>, Fault>| #[trigger]
            can_project(o, framed(q.rows), es, q.columns, cs) && r == listed_in(names, cs);
        lemma_project_one(o, framed(q.rows), es, q.columns, cs);
    }
}

/// A plan that reads no other plan, and draws no number, ends in one way.
proof fn lemma_leaf_one(
    o: spec_fn(Question) -> Answer,
    p: PhysicalPlan,
    g: Given,
    d: Db,
    m: Outcome,
)
    requires
        steady(Plan::Leaf(p)),
        can_run_leaf(o, p, g, d, m),
    ensures
        m == ran_leaf(o, p, g, d),
{
    match p {
        PhysicalPlan::Delete { table_name, condition } => {
            let n = choose|n: (Result<u64, Fault>, Db)| #[trigger]
                can_delete(o, d, table_name@, opt_expr(condition), n) && m == counted_as(
                    "rows_deleted"@,
                    n,
                );
            lemma_delete_one(o, d, table_name@, opt_expr(condition), n);
        },
        PhysicalPlan::Update { table_name, assignments, condition } => {
            let sets = assignments.deep_view();
            let n = choose|n: (Result<u64, Fault>, Db)| #[trigger]
                can_update(o, d, table_name@, sets, opt_expr(condition), n) && m == counted_as(
                    "rows_updated"@,
                    n,
                );
            lemma_update_one(o, d, table_name@, sets, opt_expr(condition), n);
        },
        _ => {},
    }
}

/// A plan that calls RANDOM nowhere ends in one way only: as the model says.
#[verifier::spinoff_prover]
#[verifier::rlimit(40)]
pub proof fn law_steady_ends_one(
    o: spec_fn(Question) -> Answer,
    p: Plan,
    g: Given,
    d: Db,
    m: Outcome,
)
    requires
        steady(p),
        can_run(o, p, g, d, m),
    ensures
        m == ran(o, p, g, d),
    decreases p,
{
    match p {
        Plan::Leaf(x) => lemma_leaf_one(o, x, g, d, m),
        Plan::Filter(x, e) => {
            match (*x, pushed(e)) {
                (Plan::Leaf(PhysicalPlan::TableScan { .. }), Some(_)) => {},
                _ => {
                    let a = choose|a: Outcome| #[trigger]
                        reached(a) && can_run(o, *x, g, d, a) && m.1 == a.1 && match a.0 {
                            Err(f) => m.0 == Err::<Query, Fault>(f),
                            Ok(q) => can_filter_query(o, q, e, m.0),
                        };
                    law_steady_ends_one(o, *x, g, d, a);
                    if let Ok(q) = a.0 {
                        lemma_filter_query_one(o, q, e, m.0);
                    }
                },
            }
        },
        Plan::Projection(x, es, names) => {
            let a = choose|a: Outcome| #[trigger]
                reached(a) && can_run(o, *x, g, d, a) && m.1 == a.1 && match a.0 {
                    Err(f) => m.0 == Err::<Query, Fault>(f),
                    Ok(q) => can_project_query(o, q, es, names, m.0),
                };
            law_steady_ends_one(o, *x, g, d, a);
            if let Ok(q) = a.0 {
                lemma_project_query_one(o, q, es, names, m.0);
            }
        },
        Plan::Aggregate(x, by, aggs) => {
            let c = choose|c: Named| #[trigger]
                on_the_way(c) && can_chunk(o, *x, d, c) && match c {
                    Err(f) => m == (Err::<Query, Fault>(f), d),
                    Ok(Some(c)) => m == (
                        Ok::<Query, Fault>(
                            listed(
                                aggregate_names(c.0, by, aggs),
                                rows_in(aggregated_all(o, straight(c.1), by, aggs)),
                            ),
                        ),
                        d,
                    ),
                    Ok(None) => exists|a: Outcome| #[trigger]
                        reached(a) && can_run(o, *x, g, d, a) && m == onward(
                            a,
                            |q: Query| Ok(aggregate_query(o, q, by, aggs)),
                        ),
                };
            lemma_chunk_one(o, *x, d, c);
            if let Ok(None) = c {
                let a = choose|a: Outcome| #[trigger]
                    reached(a) && can_run(o, *x, g, d, a) && m == onward(
                            a,
                            |q: Query| Ok(aggregate_query(o, q, by, aggs)),
                        );
                law_steady_ends_one(o, *x, g, d, a);
            }
        },
        Plan::Sort(x, keys, limit) => {
            let c = choose|c: Named| #[trigger]
                on_the_way(c) && can_chunk(o, *x, d, c) && match c {
                    Err(f) => m == (Err::<Query, Fault>(f), d),
                    Ok(Some(c)) => m == (
                        Ok::<Query, Fault>(
                            listed(c.0, rows_in(sorted_chunks(straight(c.1), keys, limit))),
                        ),
                        d,
                    ),
                    Ok(None) => exists|a: Outcome| #[trigger]
                        reached(a) && can_run(o, *x, g, d, a) && m == onward(
                            a,
                            |q: Query| Ok(sort_query(q, keys, limit)),
                        ),
                };
            lemma_chunk_one(o, *x, d, c);
            if let Ok(None) = c {
                let a = choose|a: Outcome| #[trigger]
                    reached(a) && can_run(o, *x, g, d, a) && m == onward(
                            a,
                            |q: Query| Ok(sort_query(q, keys, limit)),
                        );
                law_steady_ends_one(o, *x, g, d, a);
            }
        },
        Plan::Limit(x, n) => {
            let a = choose|a: Outcome| #[trigger]
                reached(a) && can_run(o, *x, g, d, a) && m == onward(a, |q: Query| Ok(limit_query(q, n)));
            law_steady_ends_one(o, *x, g, d, a);
        },
        Plan::Window(x, f, names) => {
            let a = choose|a: Outcome| #[trigger]
                reached(a) && can_run(o, *x, g, d, a) && m == onward(
                    a,
                    |q: Query| Ok(window_query(o, q, f, names)),
                );
            law_steady_ends_one(o, *x, g, d, a);
        },
        Plan::Distinct(x) => {
            let a = choose|a: Outcome| #[trigger]
                reached(a) && can_run(o, *x, g, d, a) && m == onward(a, |q: Query| Ok(distinct_query(q)));
            law_steady_ends_one(o, *x, g, d, a);
        },
        Plan::SubqueryScan(x) => law_steady_ends_one(o, *x, g, d, m),
        Plan::HashJoin(l, r, t, lk, rk) => {
            let a = choose|a: Outcome| #[trigger]
                reached(a) && can_run(o, *l, g, d, a) && match a.0 {
                    Err(_) => m == a,
                    Ok(x) => exists|b: Outcome| #[trigger]
                        reached(b) && can_run(o, *r, g, a.1, b) && m == onward(
                            b,
                            |y: Query| Ok(join_query(x, y, t, lk, rk)),
                        ),
                };
            law_steady_ends_one(o, *l, g, d, a);
            if let Ok(x) = a.0 {
                let b = choose|b: Outcome| #[trigger]
                    reached(b) && can_run(o, *r, g, a.1, b) && m == onward(
                        b,
                        |y: Query| Ok(join_query(x, y, t, lk, rk)),
                    );
                law_steady_ends_one(o, *r, g, a.1, b);
            }
        },
        Plan::CrossJoin(l, r) => {
            let a = choose|a: Outcome| #[trigger]
                reached(a) && can_run(o, *l, g, d, a) && match a.0 {
                    Err(_) => m == a,
                    Ok(x) => exists|b: Outcome| #[trigger]
                        reached(b) && can_run(o, *r, g, a.1, b) && m == onward(
                            b,
                            |y: Query| Ok(cross_query(x, y)),
                        ),
                };
            law_steady_ends_one(o, *l, g, d, a);
            if let Ok(x) = a.0 {
                let b = choose|b: Outcome| #[trigger]
                    reached(b) && can_run(o, *r, g, a.1, b) && m == onward(
                        b,
                        |y: Query| Ok(cross_query(x, y)),
                    );
                law_steady_ends_one(o, *r, g, a.1, b);
            }
        },
        Plan::SetUnion(op, l, r) => {
            let a = choose|a: Outcome| #[trigger]
                reached(a) && can_run(o, *l, g, d, a) && match a.0 {
                    Err(_) => m == a,
                    Ok(x) => exists|b: Outcome| #[trigger]
                        reached(b) && can_run(o, *r, g, a.1, b) && m == onward(
                            b,
                            |y: Query| union_query(o, op, x, y),
                        ),
                };
            law_steady_ends_one(o, *l, g, d, a);
            if let Ok(x) = a.0 {
                let b = choose|b: Outcome| #[trigger]
                    reached(b) && can_run(o, *r, g, a.1, b) && m == onward(
                        b,
                        |y: Query| union_query(o, op, x, y),
                    );
                law_steady_ends_one(o, *r, g, a.1, b);
            }
        },
        Plan::CreateTableAs(def, x) => {
            if let Ok(e) = with_new_table(d, def) {
                let a = choose|a: Outcome| #[trigger]
                    reached(a) && can_run(o, *x, g, e, a) && match a.0 {
                        Err(_) => m == a,
                        Ok(q) => m == filled_table(o, a.1, def.name, q),
                    };
                law_steady_ends_one(o, *x, g, e, a);
            }
        },
        Plan::InsertSelect(name, columns, x) => {
            let a = choose|a: Outcome| #[trigger]
                reached(a) && can_run(o, *x, g, d, a) && match a.0 {
                    Err(_) => m == a,
                    Ok(q) => m == inserted_from(o, a.1, name, columns, q),
                };
            law_steady_ends_one(o, *x, g, d, a);
        },
        Plan::Explain(analyze, x) => {
            if analyze {
                let a = choose|a: Outcome| #[trigger]
                    reached(a) && can_run(o, *x, g, d, a) && m == onward(
                        a,
                        |q: Query| Ok(analysis(o, q, tree(*x, blanks(0)))),
                    );
                law_steady_ends_one(o, *x, g, d, a);
            }
        },
    }
}

} // verus!
