//! What plans do with the results of the plans that they read.
use vstd::prelude::*;

use crate::common::error::{EngramDbError, Fault};
use crate::executor::columnar::{
    aggregate_chunks, aggregate_names, aggregated_all, name_aggregates, union_error, union_fault,
};
use crate::executor::env::{answers, oracle, Answer, Ask, Question, Reply};
use crate::executor::expression::eval::{all_calm, calm, find_name, name_at};
use crate::executor::framing::{frame, framed, lemma_regular, rows_in, unframe};
use crate::executor::key_index::{row_position, KeyIndex};
use crate::executor::operators::aggregate::{add_distinct, added};
use crate::executor::operators::filter;
use crate::executor::operators::filter::{can_filter, filtered_all, told_chunks};
use crate::executor::operators::hash_join;
use crate::executor::operators::hash_join::joined;
use crate::executor::operators::projection;
use crate::executor::operators::projection::{can_project, projected_all};
use crate::executor::operators::sort;
use crate::executor::operators::sort::sorted_chunks;
use crate::executor::operators::window;
use crate::executor::operators::window::windowed;
use crate::executor::physical_plan::{
    AggregateExpr, JoinType, SetUnionOp, SortKey, WindowFunctionExpr,
};
use crate::executor::vector::Chunk;
use crate::query::{listed, Query, QueryResult};
use crate::sql::ast::{Expr, Expression};
use crate::storage::table::{pick_cells, picked};
use crate::storage::txn::front;
use crate::value::{clone_row, Datum};
use crate::Value;

verus! {

/// The rows of a result in which a condition is true.
pub open spec fn filter_query(o: spec_fn(Question) -> Answer, q: Query, e: Expr) -> Result<
    Query,
    Fault,
> {
    match filtered_all(o, framed(q.rows), e, q.columns) {
        Ok(cs) => Ok(listed(q.columns, rows_in(cs))),
        Err(f) => Err(f),
    }
}

/// Rows in batches under names, or the error.
pub open spec fn listed_in(names: Seq<Seq<char>>, cs: Result<Seq<Chunk>, Fault>) -> Result<
    Query,
    Fault,
> {
    match cs {
        Ok(cs) => Ok(listed(names, rows_in(cs))),
        Err(f) => Err(f),
    }
}

/// Whether a result can be filtered to another: as [`filter_query`] says, with
/// numbers in place of the calls of RANDOM.
pub open spec fn can_filter_query(
    o: spec_fn(Question) -> Answer,
    q: Query,
    e: Expr,
    r: Result<Query, Fault>,
) -> bool {
    exists|cs: Result<Seq<Chunk>, Fault>| #[trigger]
        can_filter(o, framed(q.rows), e, q.columns, cs) && r == listed_in(q.columns, cs)
}

/// The positions of the columns that the first `n` references name, where
/// all of them name one.
pub open spec fn places(columns: Seq<Seq<char>>, es: Seq<Expr>, n: nat) -> Option<Seq<usize>>
    decreases n,
{
    if n == 0 {
        Some(Seq::empty())
    } else {
        match (places(columns, es, (n - 1) as nat), es[n - 1]) {
            (Some(done), Expr::ColumnRef(_, c)) => match name_at(columns, c, 0) {
                Some(i) => Some(done.push(i as usize)),
                None => None,
            },
            _ => None,
        }
    }
}

/// The values of expressions on the rows of a result. References to columns
/// are read off the rows.
pub open spec fn project_query(
    o: spec_fn(Question) -> Answer,
    q: Query,
    es: Seq<Expr>,
    names: Seq<Seq<char>>,
) -> Result<Query, Fault> {
    match (q.rows.len() > 0, places(q.columns, es, es.len())) {
        (true, Some(at)) => Ok(
            listed(names, Seq::new(q.rows.len(), |i: int| picked(q.rows[i], at))),
        ),
        _ => match projected_all(o, framed(q.rows), es, q.columns) {
            Ok(cs) => Ok(listed(names, rows_in(cs))),
            Err(f) => Err(f),
        },
    }
}

/// Whether a result can be projected to another: as [`project_query`] says,
/// with numbers in place of the calls of RANDOM.
pub open spec fn can_project_query(
    o: spec_fn(Question) -> Answer,
    q: Query,
    es: Seq<Expr>,
    names: Seq<Seq<char>>,
    r: Result<Query, Fault>,
) -> bool {
    if q.rows.len() > 0 && places(q.columns, es, es.len()) is Some {
        r == project_query(o, q, es, names)
    } else {
        exists|cs: Result<Seq<Chunk>, Fault>| #[trigger]
            can_project(o, framed(q.rows), es, q.columns, cs) && r == listed_in(names, cs)
    }
}

/// Two results joined on equal keys.
pub open spec fn join_query(l: Query, r: Query, t: JoinType, a: Seq<usize>, b: Seq<usize>) -> Query {
    listed(l.columns + r.columns, rows_in(joined(framed(l.rows), framed(r.rows), a, b, t)))
}

/// A row with each of the first `n` rows behind it.
pub open spec fn paired(row: Seq<Datum>, rows: Seq<Seq<Datum>>) -> Seq<Seq<Datum>> {
    Seq::new(rows.len(), |i: int| row + rows[i])
}

/// Each of the first `n` rows with each of the others behind it.
pub open spec fn crossed(l: Seq<Seq<Datum>>, r: Seq<Seq<Datum>>, n: nat) -> Seq<Seq<Datum>>
    decreases n,
{
    if n == 0 {
        Seq::empty()
    } else {
        crossed(l, r, (n - 1) as nat) + paired(l[n - 1], r)
    }
}

/// The pairs of the rows of two results.
pub open spec fn cross_query(l: Query, r: Query) -> Query {
    listed(l.columns + r.columns, crossed(l.rows, r.rows, l.rows.len()))
}

/// A result aggregated.
pub open spec fn aggregate_query(
    o: spec_fn(Question) -> Answer,
    q: Query,
    g: Seq<usize>,
    a: Seq<AggregateExpr>,
) -> Query {
    listed(
        aggregate_names(q.columns, g, a),
        rows_in(aggregated_all(o, framed(q.rows), g, a)),
    )
}

/// A result sorted.
pub open spec fn sort_query(q: Query, keys: Seq<SortKey>, limit: Option<usize>) -> Query {
    listed(q.columns, rows_in(sorted_chunks(framed(q.rows), keys, limit)))
}

/// The first rows of a result.
pub open spec fn limit_query(q: Query, n: usize) -> Query {
    listed(q.columns, front(q.rows, n as int))
}

/// The first `n` rows, each once, in the order in which they first occur.
pub open spec fn unique_rows(rows: Seq<Seq<Datum>>, n: nat) -> Seq<Seq<Datum>>
    decreases n,
{
    if n == 0 {
        Seq::empty()
    } else {
        added(unique_rows(rows, (n - 1) as nat), rows[n - 1])
    }
}

/// A result without repeated rows.
pub open spec fn distinct_query(q: Query) -> Query {
    listed(q.columns, unique_rows(q.rows, q.rows.len()))
}

/// Those of the first `n` rows that are among others, or those that are not.
pub open spec fn kept_rows(
    rows: Seq<Seq<Datum>>,
    others: Seq<Seq<Datum>>,
    wanted: bool,
    n: nat,
) -> Seq<Seq<Datum>>
    decreases n,
{
    if n == 0 {
        Seq::empty()
    } else {
        let before = kept_rows(rows, others, wanted, (n - 1) as nat);
        if (row_position(others, rows[n - 1], 0) is Some) == wanted {
            before.push(rows[n - 1])
        } else {
            before
        }
    }
}

/// The rows of two results put together. Only a union that keeps all rows
/// keeps repeated ones.
pub open spec fn united(op: SetUnionOp, l: Seq<Seq<Datum>>, r: Seq<Seq<Datum>>) -> Seq<
    Seq<Datum>,
> {
    match op {
        SetUnionOp::UnionAll => l + r,
        SetUnionOp::Union => unique_rows(l + r, (l + r).len()),
        SetUnionOp::Intersect => {
            let k = kept_rows(l, r, true, l.len());
            unique_rows(k, k.len())
        },
        SetUnionOp::Except => {
            let k = kept_rows(l, r, false, l.len());
            unique_rows(k, k.len())
        },
    }
}

/// Two results put together; their columns have to have the same names.
pub open spec fn union_query(
    o: spec_fn(Question) -> Answer,
    op: SetUnionOp,
    l: Query,
    r: Query,
) -> Result<Query, Fault> {
    if l.columns != r.columns {
        Err(union_fault(o, l.columns, r.columns))
    } else {
        Ok(listed(l.columns, united(op, l.rows, r.rows)))
    }
}

/// A result with the values of window functions.
pub open spec fn window_query(
    o: spec_fn(Question) -> Answer,
    q: Query,
    f: Seq<WindowFunctionExpr>,
    names: Seq<Seq<char>>,
) -> Query {
    listed(
        q.columns + Seq::new(f.len(), |i: int| f[i].output_name@),
        rows_in(windowed(o, framed(q.rows), f, names)),
    )
}

/// Whether a result is what the model says.
pub open spec fn gives_query(r: Result<QueryResult, EngramDbError>, m: Result<Query, Fault>) -> bool {
    match (r, m) {
        (Ok(q), Ok(x)) => q.deep_view() == x,
        (Err(e), Err(f)) => e.deep_view() == f,
        _ => false,
    }
}

/// The model of a result.
pub open spec fn told_query(r: Result<QueryResult, EngramDbError>) -> Result<Query, Fault> {
    match r {
        Ok(q) => Ok(q.deep_view()),
        Err(e) => Err(e.deep_view()),
    }
}

/// Filters a result.
pub fn filter_result<E: Fn(Ask) -> Reply>(q: QueryResult, condition: &Expression, env: &E) -> (r:
    Result<QueryResult, EngramDbError>)
    requires
        answers(*env),
    ensures
        calm(condition.deep_view()) ==> gives_query(
            r,
            filter_query(oracle(*env), q.deep_view(), condition.deep_view()),
        ),
        can_filter_query(
            oracle(*env),
            q.deep_view(),
            condition.deep_view(),
            told_query(r),
        ),
{
    let chunks = frame(&q.rows);
    let kept = filter::execute(&chunks, condition, &q.columns, env);
    assert(can_filter(
        oracle(*env),
        framed(q.rows.deep_view()),
        condition.deep_view(),
        q.columns.deep_view(),
        told_chunks(kept),
    ));
    match kept {
        Ok(cs) => Ok(QueryResult { columns: q.columns, rows: unframe(&cs), rows_affected: 0 }),
        Err(e) => Err(e),
    }
}

/// The positions of the columns that references name.
fn find_places(columns: &Vec<String>, es: &Vec<Expression>) -> (r: Option<Vec<usize>>)
    ensures
        match (r, places(columns.deep_view(), es.deep_view(), es.deep_view().len())) {
            (Some(v), Some(m)) => v@ == m,
            (None, None) => true,
            _ => false,
        },
{
    let ghost cols = columns.deep_view();
    let ghost all = es.deep_view();
    let mut out: Vec<usize> = Vec::new();
    let mut i: usize = 0;
    while i < es.len()
        invariant
            cols == columns.deep_view(),
            all == es.deep_view(),
            i <= es.len(),
            places(cols, all, i as nat) == Some(out@),
        decreases es.len() - i,
    {
        assert(all[i as int] == es[i as int].deep_view());
        let found: Option<usize> = match &es[i] {
            Expression::ColumnRef { table: _, column } => find_name(columns, column.as_str()),
            _ => None,
        };
        match found {
            Some(k) => {
                out.push(k);
            },
            None => {
                proof {
                    lemma_places_fail(cols, all, (i + 1) as nat, all.len());
                }
                return None;
            },
        }
        i += 1;
    }
    Some(out)
}

/// A reference without a column leaves all without places.
proof fn lemma_places_fail(columns: Seq<Seq<char>>, es: Seq<Expr>, k: nat, n: nat)
    requires
        k <= n,
        places(columns, es, k) is None,
    ensures
        places(columns, es, n) is None,
    decreases n - k,
{
    if k < n {
        lemma_places_fail(columns, es, k, (n - 1) as nat);
    }
}

/// Some columns of rows.
pub fn pick_rows(rows: &Vec<Vec<Value>>, at: &Vec<usize>) -> (r: Vec<Vec<Value>>)
    ensures
        r.deep_view() == Seq::new(
            rows.deep_view().len(),
            |i: int| picked(rows.deep_view()[i], at@),
        ),
{
    let ghost all = rows.deep_view();
    let ghost m = Seq::new(all.len(), |i: int| picked(all[i], at@));
    let mut out: Vec<Vec<Value>> = Vec::new();
    let mut i: usize = 0;
    while i < rows.len()
        invariant
            all == rows.deep_view(),
            m == Seq::new(all.len(), |i: int| picked(all[i], at@)),
            i <= rows.len(),
            out.deep_view() == m.subrange(0, i as int),
        decreases rows.len() - i,
    {
        assert(all[i as int] == rows[i as int].deep_view());
        let row = pick_cells(&rows[i], at);
        let ghost before = out.deep_view();
        out.push(row);
        assert(out.deep_view() =~= before.push(row.deep_view()));
        i += 1;
        assert(out.deep_view() =~= m.subrange(0, i as int));
    }
    assert(out.deep_view() =~= m);
    out
}

/// Projects a result.
pub fn project_result<E: Fn(Ask) -> Reply>(
    q: QueryResult,
    expressions: &Vec<Expression>,
    column_names: Vec<String>,
    env: &E,
) -> (r: Result<QueryResult, EngramDbError>)
    requires
        answers(*env),
    ensures
        all_calm(expressions.deep_view()) ==> gives_query(
            r,
            project_query(
                oracle(*env),
                q.deep_view(),
                expressions.deep_view(),
                column_names.deep_view(),
            ),
        ),
        can_project_query(
            oracle(*env),
            q.deep_view(),
            expressions.deep_view(),
            column_names.deep_view(),
            told_query(r),
        ),
{
    if q.rows.len() > 0 {
        if let Some(at) = find_places(&q.columns, expressions) {
            return Ok(
                QueryResult {
                    columns: column_names,
                    rows: pick_rows(&q.rows, &at),
                    rows_affected: 0,
                },
            );
        }
    }
    let chunks = frame(&q.rows);
    let made = projection::execute(&chunks, expressions, &q.columns, env);
    assert(can_project(
        oracle(*env),
        framed(q.rows.deep_view()),
        expressions.deep_view(),
        q.columns.deep_view(),
        told_chunks(made),
    ));
    match made {
        Ok(cs) => Ok(QueryResult { columns: column_names, rows: unframe(&cs), rows_affected: 0 }),
        Err(e) => Err(e),
    }
}

/// Names behind names.
fn append_names(a: Vec<String>, b: Vec<String>) -> (r: Vec<String>)
    ensures
        r.deep_view() == a.deep_view() + b.deep_view(),
{
    let mut out = a;
    let mut more = b;
    let ghost (x, y) = (out@, more@);
    let ghost (u, v) = (out.deep_view(), more.deep_view());
    out.append(&mut more);
    assert(out@ == x + y);
    assert(out.deep_view() =~= u + v);
    out
}

/// Joins two results on equal keys.
pub fn join_results(
    l: QueryResult,
    r: QueryResult,
    join_type: JoinType,
    left_keys: &Vec<usize>,
    right_keys: &Vec<usize>,
) -> (q: QueryResult)
    ensures
        q.deep_view() == join_query(
            l.deep_view(),
            r.deep_view(),
            join_type,
            left_keys@,
            right_keys@,
        ),
{
    let a = frame(&l.rows);
    let b = frame(&r.rows);
    let cs = hash_join::join_batches(&a, &b, left_keys, right_keys, join_type);
    QueryResult {
        columns: append_names(l.columns, r.columns),
        rows: unframe(&cs),
        rows_affected: 0,
    }
}

/// Pairs the rows of two results.
pub fn cross_results(l: QueryResult, r: QueryResult) -> (q: QueryResult)
    ensures
        q.deep_view() == cross_query(l.deep_view(), r.deep_view()),
{
    let ghost (a, b) = (l.rows.deep_view(), r.rows.deep_view());
    let mut rows: Vec<Vec<Value>> = Vec::new();
    assert(rows.deep_view() =~= Seq::empty());
    let mut i: usize = 0;
    while i < l.rows.len()
        invariant
            a == l.rows.deep_view(),
            b == r.rows.deep_view(),
            i <= l.rows.len(),
            rows.deep_view() == crossed(a, b, i as nat),
        decreases l.rows.len() - i,
    {
        assert(a[i as int] == l.rows[i as int].deep_view());
        let ghost start = rows.deep_view();
        let ghost m = paired(a[i as int], b);
        let mut j: usize = 0;
        assert(start + m.subrange(0, 0) =~= start);
        while j < r.rows.len()
            invariant
                b == r.rows.deep_view(),
                i < l.rows.len(),
                a[i as int] == l.rows[i as int].deep_view(),
                m == paired(a[i as int], b),
                j <= r.rows.len(),
                rows.deep_view() == start + m.subrange(0, j as int),
            decreases r.rows.len() - j,
        {
            assert(b[j as int] == r.rows[j as int].deep_view());
            let mut row = clone_row(&l.rows[i]);
            let mut more = clone_row(&r.rows[j]);
            let ghost (x, y) = (row@, more@);
            let ghost (u, v) = (row.deep_view(), more.deep_view());
            row.append(&mut more);
            assert(row@ == x + y);
            assert(row.deep_view() =~= u + v);
            let ghost before = rows.deep_view();
            rows.push(row);
            assert(rows.deep_view() =~= before.push(u + v));
            j += 1;
            assert(rows.deep_view() =~= start + m.subrange(0, j as int));
        }
        assert(m.subrange(0, j as int) =~= m);
        i += 1;
    }
    QueryResult { columns: append_names(l.columns, r.columns), rows, rows_affected: 0 }
}

/// Aggregates a result.
pub fn aggregate_result<E: Fn(Ask) -> Reply>(
    q: QueryResult,
    group_by: &Vec<usize>,
    aggregates: &Vec<AggregateExpr>,
    env: &E,
) -> (r: QueryResult)
    requires
        answers(*env),
    ensures
        r.deep_view() == aggregate_query(
            oracle(*env),
            q.deep_view(),
            group_by@,
            aggregates@,
        ),
{
    let chunks = frame(&q.rows);
    let cs = aggregate_chunks(&chunks, group_by, aggregates, env);
    QueryResult {
        columns: name_aggregates(&q.columns, group_by, aggregates),
        rows: unframe(&cs),
        rows_affected: 0,
    }
}

/// Sorts a result.
pub fn sort_result(q: QueryResult, sort_keys: &Vec<SortKey>, limit: Option<usize>) -> (r:
    QueryResult)
    ensures
        r.deep_view() == sort_query(q.deep_view(), sort_keys@, limit),
{
    let chunks = frame(&q.rows);
    proof {
        lemma_regular(chunks.deep_view());
    }
    let cs = sort::sort_batches(&chunks, sort_keys, limit);
    QueryResult { columns: q.columns, rows: unframe(&cs), rows_affected: 0 }
}

/// Keeps the first rows of a result.
pub fn limit_result(q: QueryResult, limit: usize) -> (r: QueryResult)
    ensures
        r.deep_view() == limit_query(q.deep_view(), limit),
{
    let mut rows = q.rows;
    let ghost all = rows.deep_view();
    if limit <= rows.len() {
        rows.truncate(limit);
    }
    assert(rows.deep_view() =~= front(all, limit as int));
    QueryResult { columns: q.columns, rows, rows_affected: 0 }
}

/// The rows, each once.
fn dedup_rows(rows: &Vec<Vec<Value>>) -> (r: Vec<Vec<Value>>)
    ensures
        r.deep_view() == unique_rows(rows.deep_view(), rows.deep_view().len()),
{
    let ghost all = rows.deep_view();
    let mut seen = KeyIndex::new();
    let mut i: usize = 0;
    while i < rows.len()
        invariant
            all == rows.deep_view(),
            seen.wf(),
            i <= rows.len(),
            seen@ == unique_rows(all, i as nat),
        decreases rows.len() - i,
    {
        assert(all[i as int] == rows[i as int].deep_view());
        let row = clone_row(&rows[i]);
        add_distinct(&mut seen, row);
        i += 1;
    }
    let ghost m = seen@;
    let mut out: Vec<Vec<Value>> = Vec::new();
    let mut k: usize = 0;
    while k < seen.len()
        invariant
            m == seen@,
            k <= m.len(),
            out.deep_view() == m.subrange(0, k as int),
        decreases m.len() - k,
    {
        let row = clone_row(seen.row(k));
        let ghost before = out.deep_view();
        out.push(row);
        assert(out.deep_view() =~= before.push(row.deep_view()));
        k += 1;
        assert(out.deep_view() =~= m.subrange(0, k as int));
    }
    assert(out.deep_view() =~= m);
    out
}

/// Leaves repeated rows out of a result.
pub fn distinct_result(q: QueryResult) -> (r: QueryResult)
    ensures
        r.deep_view() == distinct_query(q.deep_view()),
{
    let rows = dedup_rows(&q.rows);
    QueryResult { columns: q.columns, rows, rows_affected: 0 }
}

/// Those rows that are among others, or those that are not.
fn keep_rows(rows: &Vec<Vec<Value>>, others: &Vec<Vec<Value>>, wanted: bool) -> (r: Vec<
    Vec<Value>,
>)
    ensures
        r.deep_view() == kept_rows(
            rows.deep_view(),
            others.deep_view(),
            wanted,
            rows.deep_view().len(),
        ),
{
    let ghost all = rows.deep_view();
    let ghost rest = others.deep_view();
    let mut index = KeyIndex::new();
    let mut k: usize = 0;
    assert(rest.subrange(0, 0) =~= Seq::<Seq<Datum>>::empty());
    while k < others.len()
        invariant
            rest == others.deep_view(),
            index.wf(),
            k <= others.len(),
            index@ == rest.subrange(0, k as int),
        decreases others.len() - k,
    {
        assert(rest[k as int] == others[k as int].deep_view());
        let row = clone_row(&others[k]);
        index.push(row);
        k += 1;
        assert(index@ =~= rest.subrange(0, k as int));
    }
    assert(index@ =~= rest);
    let mut out: Vec<Vec<Value>> = Vec::new();
    assert(out.deep_view() =~= Seq::empty());
    let mut i: usize = 0;
    while i < rows.len()
        invariant
            all == rows.deep_view(),
            index.wf(),
            index@ == rest,
            i <= rows.len(),
            out.deep_view() == kept_rows(all, rest, wanted, i as nat),
        decreases rows.len() - i,
    {
        assert(all[i as int] == rows[i as int].deep_view());
        let there: bool = index.find(&rows[i]).is_some();
        if there == wanted {
            let row = clone_row(&rows[i]);
            let ghost before = out.deep_view();
            out.push(row);
            assert(out.deep_view() =~= before.push(row.deep_view()));
        }
        i += 1;
    }
    out
}

/// Whether two lists of names are equal.
fn same_names(a: &Vec<String>, b: &Vec<String>) -> (r: bool)
    ensures
        r == (a.deep_view() == b.deep_view()),
{
    let ghost (x, y) = (a.deep_view(), b.deep_view());
    if a.len() != b.len() {
        assert(x.len() != y.len());
        return false;
    }
    let mut i: usize = 0;
    while i < a.len()
        invariant
            x == a.deep_view(),
            y == b.deep_view(),
            a.len() == b.len(),
            i <= a.len(),
            forall|k: int| 0 <= k < i ==> x[k] == y[k],
        decreases a.len() - i,
    {
        assert(x[i as int] == a[i as int]@);
        assert(y[i as int] == b[i as int]@);
        if !crate::text::same_text(a[i].as_str(), b[i].as_str()) {
            assert(x[i as int] != y[i as int]);
            return false;
        }
        i += 1;
    }
    assert(x =~= y);
    true
}

/// Rows behind rows.
fn append_rows(a: Vec<Vec<Value>>, b: Vec<Vec<Value>>) -> (r: Vec<Vec<Value>>)
    ensures
        r.deep_view() == a.deep_view() + b.deep_view(),
{
    let mut out = a;
    let mut more = b;
    let ghost (x, y) = (out@, more@);
    let ghost (u, v) = (out.deep_view(), more.deep_view());
    out.append(&mut more);
    assert(out@ == x + y);
    assert(out.deep_view() =~= u + v);
    out
}

/// Puts two results together.
pub fn union_results<E: Fn(Ask) -> Reply>(
    op: SetUnionOp,
    l: QueryResult,
    r: QueryResult,
    env: &E,
) -> (q: Result<QueryResult, EngramDbError>)
    requires
        answers(*env),
    ensures
        gives_query(q, union_query(oracle(*env), op, l.deep_view(), r.deep_view())),
{
    if !same_names(&l.columns, &r.columns) {
        return Err(union_error(l.columns, r.columns, env));
    }
    let rows = match op {
        SetUnionOp::UnionAll => append_rows(l.rows, r.rows),
        SetUnionOp::Union => {
            let all = append_rows(l.rows, r.rows);
            dedup_rows(&all)
        },
        SetUnionOp::Intersect => {
            let kept = keep_rows(&l.rows, &r.rows, true);
            dedup_rows(&kept)
        },
        SetUnionOp::Except => {
            let kept = keep_rows(&l.rows, &r.rows, false);
            dedup_rows(&kept)
        },
    };
    Ok(QueryResult { columns: l.columns, rows, rows_affected: 0 })
}

/// Adds the values of window functions to a result.
pub fn window_result<E: Fn(Ask) -> Reply>(
    q: QueryResult,
    window_functions: &Vec<WindowFunctionExpr>,
    column_names: &Vec<String>,
    env: &E,
) -> (r: QueryResult)
    requires
        answers(*env),
    ensures
        r.deep_view() == window_query(
            oracle(*env),
            q.deep_view(),
            window_functions@,
            column_names.deep_view(),
        ),
{
    let chunks = frame(&q.rows);
    proof {
        lemma_regular(chunks.deep_view());
    }
    let cs = window::window_batches(&chunks, window_functions, column_names, env);
    let ghost m = Seq::new(window_functions@.len(), |i: int| window_functions@[i].output_name@);
    let mut names: Vec<String> = Vec::new();
    let mut i: usize = 0;
    while i < window_functions.len()
        invariant
            m == Seq::new(
                window_functions@.len(),
                |i: int| window_functions@[i].output_name@,
            ),
            i <= window_functions.len(),
            names.deep_view() == m.subrange(0, i as int),
        decreases window_functions.len() - i,
    {
        let ghost before = names.deep_view();
        names.push(window_functions[i].output_name.clone());
        assert(names.deep_view() =~= before.push(m[i as int]));
        i += 1;
        assert(names.deep_view() =~= m.subrange(0, i as int));
    }
    assert(names.deep_view() =~= m);
    QueryResult { columns: append_names(q.columns, names), rows: unframe(&cs), rows_affected: 0 }
}

} // verus!
