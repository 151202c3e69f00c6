//! The execution of plans that only read, batch by batch.
use vstd::prelude::*;

use crate::common::error::{EngramDbError, Fault};
use crate::common::types::{name_index, opt_text, pos, ColumnDef, ColumnModel};
use crate::executor::env::{answers, oracle, put_text, text_in, Answer, Ask, Question, Reply};
use crate::executor::explain::{aggregate_name, func_name};
use crate::executor::expression::eval::{all_calm, calm};
use crate::executor::framing::{frame, framed, lemma_regular, straight, straighten};
use crate::executor::operators::aggregate;
use crate::executor::operators::aggregate::{aggregated_chunk, grouped_result};
use crate::executor::operators::delete::{opt_calm, opt_expr};
use crate::executor::operators::filter;
use crate::executor::operators::filter::{all_aligned, can_filter, filtered_all, told_chunks};
use crate::executor::operators::sort;
use crate::executor::operators::sort::sorted_chunks;
use crate::executor::operators::table_scan::{scan_rows, scanned, PredicateOp};
use crate::executor::operators::update::sets_calm;
use crate::executor::physical_plan::{
    plan_model, AggregateExpr, AggregateFunc, PhysicalPlan, Plan, SetUnionOp, SortKey,
};
use crate::executor::vector::{chunks_wf, Chunk, Column, DataChunk, Vector};
use crate::sql::ast::{expr_model, BinaryOperator, Expr, Expression};
use crate::storage::database::{table_of, Database, Db};
use crate::storage::txn::front;
use crate::text::{dec, join2, join3, same_text, usize_text};
use crate::value::Datum;
use crate::Value;

verus! {

/// The names of columns by position. A position behind the last column has
/// the empty name.
pub open spec fn names_picked(columns: Seq<ColumnModel>, at: Seq<usize>) -> Seq<Seq<char>> {
    Seq::new(
        at.len(),
        |i: int|
            if at[i] < columns.len() {
                columns[at[i] as int].name
            } else {
                Seq::empty()
            },
    )
}

/// The comparison that an operator makes, where a scan can make it.
pub open spec fn predicate_of(op: BinaryOperator) -> Option<PredicateOp> {
    match op {
        BinaryOperator::Eq => Some(PredicateOp::Eq),
        BinaryOperator::Lt => Some(PredicateOp::Lt),
        BinaryOperator::LtEq => Some(PredicateOp::LtEq),
        BinaryOperator::Gt => Some(PredicateOp::Gt),
        BinaryOperator::GtEq => Some(PredicateOp::GtEq),
        _ => None,
    }
}

/// The column, the comparison and the literal of a condition that compares
/// a column with a literal, on whichever side they stand.
pub open spec fn skip_predicate(e: Expr) -> Option<(Seq<char>, PredicateOp, Datum)> {
    match e {
        Expr::Binary(l, op, r) => match predicate_of(op) {
            None => None,
            Some(p) => match (*l, *r) {
                (Expr::ColumnRef(_, c), Expr::Literal(d)) => Some((c, p, d)),
                (Expr::Literal(d), Expr::ColumnRef(_, c)) => Some((c, p, d)),
                _ => None,
            },
        },
        _ => None,
    }
}

/// Whether the left side of a condition is a column.
pub open spec fn column_first(e: Expr) -> bool {
    e matches Expr::Binary(l, _, _) && *l is ColumnRef
}

/// The comparison that a scan can make in the place of a condition: one whose
/// left side is the column.
pub open spec fn pushed(e: Expr) -> Option<(Seq<char>, PredicateOp, Datum)> {
    if column_first(e) {
        skip_predicate(e)
    } else {
        None
    }
}

/// The first column from `i` on of that name, with or without its table.
pub open spec fn input_from(
    columns: Seq<Seq<char>>,
    table: Option<Seq<char>>,
    column: Seq<char>,
    i: int,
) -> Option<int>
    decreases columns.len() - i,
{
    let prefixed = match table {
        Some(t) => t + "."@ + column,
        None => Seq::empty(),
    };
    if i < 0 || i >= columns.len() {
        None
    } else if columns[i] == column || columns[i] == prefixed {
        Some(i)
    } else {
        input_from(columns, table, column, i + 1)
    }
}

/// The positions of the columns that the first `n` references name.
pub open spec fn inputs_of(columns: Seq<Seq<char>>, es: Seq<Expr>, n: nat) -> Result<
    Seq<usize>,
    Fault,
>
    decreases n,
{
    if n == 0 {
        Ok(Seq::empty())
    } else {
        match inputs_of(columns, es, (n - 1) as nat) {
            Err(f) => Err(f),
            Ok(done) => match es[n - 1] {
                Expr::ColumnRef(t, c) => match input_from(columns, t, c, 0) {
                    Some(i) => Ok(done.push(i as usize)),
                    None => Err(Fault::Parse("unknown column: "@ + c)),
                },
                _ => Ok(done),
            },
        }
    }
}

/// Whether all expressions are references to columns.
pub open spec fn only_columns(es: Seq<Expr>) -> bool {
    forall|i: int| 0 <= i < es.len() ==> #[trigger] es[i] is ColumnRef
}

/// Some columns of a batch; NULL where there is no such column.
pub open spec fn picked_chunk(c: Chunk, at: Seq<usize>) -> Chunk {
    Chunk {
        columns: Seq::new(
            at.len(),
            |j: int|
                if at[j] < c.columns.len() {
                    c.columns[at[j] as int]
                } else {
                    Column::Constant(Datum::Null, c.count)
                },
        ),
        count: c.count,
    }
}

/// The first `n` rows of a column.
pub open spec fn front_column(c: Column, n: nat) -> Column {
    match c {
        Column::Constant(d, _) => Column::Constant(d, n),
        Column::Flat(s) => Column::Flat(front(s, n as int)),
    }
}

/// The first `n` rows of a batch, or all of a smaller one.
pub open spec fn front_chunk(c: Chunk, n: nat) -> Chunk {
    let k = if n < c.count {
        n
    } else {
        c.count
    };
    Chunk { columns: Seq::new(c.columns.len(), |j: int| front_column(c.columns[j], k)), count: k }
}

/// The first `n` rows of the batches from `i` on.
pub open spec fn limited(cs: Seq<Chunk>, n: nat, i: int) -> Seq<Chunk>
    decreases cs.len() - i,
{
    if n == 0 || i < 0 || i >= cs.len() {
        Seq::empty()
    } else {
        let c = front_chunk(cs[i], n);
        seq![c] + limited(cs, (n - c.count) as nat, i + 1)
    }
}

/// Aggregates as triples.
pub open spec fn triples(a: Seq<AggregateExpr>) -> Seq<(AggregateFunc, usize, bool)> {
    Seq::new(a.len(), |i: int| (a[i].func, a[i].input, a[i].distinct))
}

/// Batches aggregated, in groups where there are columns to group by.
pub open spec fn aggregated_all(
    o: spec_fn(Question) -> Answer,
    cs: Seq<Chunk>,
    group_by: Seq<usize>,
    a: Seq<AggregateExpr>,
) -> Seq<Chunk> {
    if group_by.len() == 0 {
        seq![aggregated_chunk(o, cs, triples(a))]
    } else {
        grouped_result(o, cs, group_by, triples(a))
    }
}

/// The names of the columns that groups and aggregates make.
pub open spec fn aggregate_names(
    columns: Seq<Seq<char>>,
    group_by: Seq<usize>,
    a: Seq<AggregateExpr>,
) -> Seq<Seq<char>> {
    Seq::new(
        group_by.len(),
        |i: int|
            if group_by[i] < columns.len() {
                columns[group_by[i] as int]
            } else {
                "group_"@ + dec(group_by[i] as nat)
            },
    ) + Seq::new(
        a.len(),
        |i: int| func_name(a[i].func) + "("@ + dec(a[i].input as nat) + ")"@,
    )
}

/// The error of a union whose sides have other columns.
pub open spec fn union_fault(
    o: spec_fn(Question) -> Answer,
    a: Seq<Seq<char>>,
    b: Seq<Seq<char>>,
) -> Fault {
    Fault::Parse(
        "UNION columns mismatch: "@ + text_in(o(Question::DebugNames(a))) + " vs "@ + text_in(
            o(Question::DebugNames(b)),
        ),
    )
}

/// The position of a column in a scan.
pub open spec fn scanned_at(at: Seq<usize>, c: Option<int>) -> bool {
    c matches Some(k) && exists|i: int| 0 <= i < at.len() && #[trigger] at[i] == k
}

/// The scan of a table with a comparison in the place of a condition. Where
/// the column is not read, the condition is tested above the scan.
pub open spec fn pushed_scan(
    o: spec_fn(Question) -> Answer,
    d: Db,
    table: Seq<char>,
    at: Seq<usize>,
    p: (Seq<char>, PredicateOp, Datum),
    e: Expr,
) -> Result<(Seq<Seq<char>>, Seq<Chunk>), Fault> {
    match table_of(d, table) {
        None => Err(Fault::TableNotFound(table)),
        Some(t) => {
            let names = names_picked(t.def.columns, at);
            let c = name_index(t.def.columns, p.0);
            let skip = match c {
                Some(k) => Some((k as usize, p.1, p.2)),
                None => None,
            };
            let chunks = framed(scanned(t, at, skip));
            if scanned_at(at, c) {
                Ok((names, chunks))
            } else {
                match filtered_all(o, chunks, e, names) {
                    Ok(cs) => Ok((names, cs)),
                    Err(f) => Err(f),
                }
            }
        },
    }
}

/// The named batches that a plan gives, nothing where it is not executed batch
/// by batch, or the error.
pub type Named = Result<Option<(Seq<Seq<char>>, Seq<Chunk>)>, Fault>;

/// Named batches from batches, or the error.
pub open spec fn named_in(names: Seq<Seq<char>>, cs: Result<Seq<Chunk>, Fault>) -> Named {
    match cs {
        Err(f) => Err(f),
        Ok(cs) => Ok(Some((names, cs))),
    }
}

/// Some columns of batches, under new names.
pub open spec fn picked_from(c: Named, es: Seq<Expr>, names: Seq<Seq<char>>) -> Named {
    match c {
        Ok(Some(c)) => match inputs_of(c.0, es, es.len()) {
            Err(f) => Err(f),
            Ok(at) => Ok(Some((names, Seq::new(c.1.len(), |k: int| picked_chunk(c.1[k], at))))),
        },
        _ => c,
    }
}

/// Batches filtered.
pub open spec fn filtered_from(o: spec_fn(Question) -> Answer, c: Named, e: Expr) -> Named {
    match c {
        Ok(Some(c)) => named_in(c.0, filtered_all(o, straight(c.1), e, c.0)),
        _ => c,
    }
}

/// Batches sorted.
pub open spec fn sorted_from(c: Named, keys: Seq<SortKey>, limit: Option<usize>) -> Named {
    match c {
        Ok(Some(c)) => Ok(Some((c.0, sorted_chunks(straight(c.1), keys, limit)))),
        _ => c,
    }
}

/// The first rows of batches.
pub open spec fn limited_from(c: Named, n: usize) -> Named {
    match c {
        Ok(Some(c)) => Ok(Some((c.0, limited(c.1, n as nat, 0)))),
        _ => c,
    }
}

/// Batches aggregated.
pub open spec fn aggregated_from(
    o: spec_fn(Question) -> Answer,
    c: Named,
    g: Seq<usize>,
    a: Seq<AggregateExpr>,
) -> Named {
    match c {
        Ok(Some(c)) => Ok(
            Some((aggregate_names(c.0, g, a), aggregated_all(o, straight(c.1), g, a))),
        ),
        _ => c,
    }
}

/// Batches behind batches.
pub open spec fn united(o: spec_fn(Question) -> Answer, a: Named, b: Named) -> Named {
    match (a, b) {
        (Ok(Some(a)), Ok(Some(b))) => if a.0.len() != b.0.len() {
            Err(union_fault(o, a.0, b.0))
        } else {
            Ok(Some((a.0, a.1 + b.1)))
        },
        (Ok(Some(_)), _) => b,
        _ => a,
    }
}

/// The named batches that a plan gives, where it can be executed batch by
/// batch.
pub open spec fn chunked(o: spec_fn(Question) -> Answer, p: Plan, d: Db) -> Named
    decreases p,
{
    match p {
        Plan::Leaf(x) => match x {
            PhysicalPlan::TableScan { table_name, column_indices } => match table_of(
                d,
                table_name@,
            ) {
                None => Err(Fault::TableNotFound(table_name@)),
                Some(t) => Ok(
                    Some(
                        (
                            names_picked(t.def.columns, column_indices@),
                            framed(scanned(t, column_indices@, None)),
                        ),
                    ),
                ),
            },
            PhysicalPlan::CountStar { output_name, count } => Ok(
                Some(
                    (
                        seq![output_name@],
                        seq![
                            Chunk {
                                columns: seq![Column::Constant(Datum::Int64(count), 1)],
                                count: 1,
                            },
                        ],
                    ),
                ),
            ),
            _ => Ok(None),
        },
        Plan::Projection(x, es, names) => if !only_columns(es) {
            Ok(None)
        } else {
            picked_from(chunked(o, *x, d), es, names)
        },
        Plan::Filter(x, e) => match (*x, pushed(e)) {
            (
                Plan::Leaf(PhysicalPlan::TableScan { table_name, column_indices }),
                Some(q),
            ) => match pushed_scan(o, d, table_name@, column_indices@, q, e) {
                Err(f) => Err(f),
                Ok(c) => Ok(Some(c)),
            },
            _ => filtered_from(o, chunked(o, *x, d), e),
        },
        Plan::Sort(x, keys, limit) => sorted_from(chunked(o, *x, d), keys, limit),
        Plan::Limit(x, n) => limited_from(chunked(o, *x, d), n),
        Plan::Aggregate(x, g, a) => aggregated_from(o, chunked(o, *x, d), g, a),
        Plan::SetUnion(op, l, r) => if op != SetUnionOp::UnionAll {
            Ok(None)
        } else {
            united(o, chunked(o, *l, d), chunked(o, *r, d))
        },
        Plan::SubqueryScan(x) => chunked(o, *x, d),
        _ => Ok(None),
    }
}

/// What a plan gave on the way to the result of another.
pub open spec fn on_the_way(c: Named) -> bool {
    true
}

/// Whether batches can be filtered to a result under names, with numbers in
/// place of the calls of RANDOM.
pub open spec fn can_filter_named(
    o: spec_fn(Question) -> Answer,
    cs: Seq<Chunk>,
    e: Expr,
    names: Seq<Seq<char>>,
    r: Named,
) -> bool {
    exists|kept: Result<Seq<Chunk>, Fault>| #[trigger]
        can_filter(o, cs, e, names, kept) && r == named_in(names, kept)
}

/// Whether named batches can be filtered to a result, with numbers in place of
/// the calls of RANDOM.
pub open spec fn can_filter_from(
    o: spec_fn(Question) -> Answer,
    c: Named,
    e: Expr,
    r: Named,
) -> bool {
    match c {
        Ok(Some(c)) => can_filter_named(o, straight(c.1), e, c.0, r),
        _ => r == c,
    }
}

/// Whether a scan with a comparison in the place of a condition can give named
/// batches: as [`pushed_scan`] says, with numbers in place of the calls of
/// RANDOM.
pub open spec fn can_push(
    o: spec_fn(Question) -> Answer,
    d: Db,
    table: Seq<char>,
    at: Seq<usize>,
    p: (Seq<char>, PredicateOp, Datum),
    e: Expr,
    r: Named,
) -> bool {
    match table_of(d, table) {
        None => r == Err::<Option<(Seq<Seq<char>>, Seq<Chunk>)>, Fault>(
            Fault::TableNotFound(table),
        ),
        Some(t) => {
            let names = names_picked(t.def.columns, at);
            let c = name_index(t.def.columns, p.0);
            let skip = match c {
                Some(k) => Some((k as usize, p.1, p.2)),
                None => None,
            };
            let chunks = framed(scanned(t, at, skip));
            if scanned_at(at, c) {
                r == named_in(names, Ok(chunks))
            } else {
                can_filter_named(o, chunks, e, names, r)
            }
        },
    }
}

/// Whether a plan can give named batches: as [`chunked`] says, with numbers in
/// place of the calls of RANDOM.
pub open spec fn can_chunk(o: spec_fn(Question) -> Answer, p: Plan, d: Db, r: Named) -> bool
    decreases p,
{
    match p {
        Plan::Projection(x, es, names) => if !only_columns(es) {
            r == chunked(o, p, d)
        } else {
            exists|c: Named| #[trigger]
                on_the_way(c) && can_chunk(o, *x, d, c) && r == picked_from(c, es, names)
        },
        Plan::Filter(x, e) => match (*x, pushed(e)) {
            (
                Plan::Leaf(PhysicalPlan::TableScan { table_name, column_indices }),
                Some(q),
            ) => can_push(o, d, table_name@, column_indices@, q, e, r),
            _ => exists|c: Named| #[trigger]
                on_the_way(c) && can_chunk(o, *x, d, c) && can_filter_from(o, c, e, r),
        },
        Plan::Sort(x, keys, limit) => exists|c: Named| #[trigger]
            on_the_way(c) && can_chunk(o, *x, d, c) && r == sorted_from(c, keys, limit),
        Plan::Limit(x, n) => exists|c: Named| #[trigger]
            on_the_way(c) && can_chunk(o, *x, d, c) && r == limited_from(c, n),
        Plan::Aggregate(x, g, a) => exists|c: Named| #[trigger]
            on_the_way(c) && can_chunk(o, *x, d, c) && r == aggregated_from(o, c, g, a),
        Plan::SetUnion(op, x, y) => if op != SetUnionOp::UnionAll {
            r == chunked(o, p, d)
        } else {
            exists|a: Named| #[trigger]
                on_the_way(a) && can_chunk(o, *x, d, a) && match a {
                    Ok(Some(_)) => exists|b: Named| #[trigger]
                        on_the_way(b) && can_chunk(o, *y, d, b) && r == united(o, a, b),
                    _ => r == a,
                }
        },
        Plan::SubqueryScan(x) => can_chunk(o, *x, d, r),
        _ => r == chunked(o, p, d),
    }
}

/// Whether the expressions of a plan give equal results on equal rows.
pub open spec fn steady(p: Plan) -> bool
    decreases p,
{
    match p {
        Plan::Leaf(PhysicalPlan::Delete { condition, .. }) => opt_calm(opt_expr(condition)),
        Plan::Leaf(PhysicalPlan::Update { assignments, condition, .. }) => opt_calm(
            opt_expr(condition),
        ) && sets_calm(assignments.deep_view()),
        Plan::Leaf(_) => true,
        Plan::Filter(x, e) => calm(e) && steady(*x),
        Plan::Projection(x, es, _) => all_calm(es) && steady(*x),
        Plan::Aggregate(x, _, _) => steady(*x),
        Plan::Sort(x, _, _) => steady(*x),
        Plan::Limit(x, _) => steady(*x),
        Plan::Window(x, _, _) => steady(*x),
        Plan::Distinct(x) => steady(*x),
        Plan::SubqueryScan(x) => steady(*x),
        Plan::HashJoin(l, r, _, _, _) => steady(*l) && steady(*r),
        Plan::CrossJoin(l, r) => steady(*l) && steady(*r),
        Plan::SetUnion(_, l, r) => steady(*l) && steady(*r),
        Plan::CreateTableAs(_, x) => steady(*x),
        Plan::InsertSelect(_, _, x) => steady(*x),
        Plan::Explain(_, x) => steady(*x),
    }
}

/// The names of columns by position.
pub fn pick_names(columns: &Vec<ColumnDef>, at: &Vec<usize>) -> (r: Vec<String>)
    ensures
        r.deep_view() == names_picked(columns.deep_view(), at@),
{
    let ghost m = names_picked(columns.deep_view(), at@);
    let mut out: Vec<String> = Vec::new();
    let mut i: usize = 0;
    while i < at.len()
        invariant
            i <= at.len(),
            m == names_picked(columns.deep_view(), at@),
            out.deep_view() == m.subrange(0, i as int),
        decreases at.len() - i,
    {
        let s = if at[i] < columns.len() {
            assert(columns.deep_view()[at@[i as int] as int]
                == columns[at@[i as int] as int].deep_view());
            columns[at[i]].name.clone()
        } else {
            String::new()
        };
        let ghost before = out.deep_view();
        out.push(s);
        assert(out.deep_view() =~= before.push(s@));
        i += 1;
        assert(out.deep_view() =~= m.subrange(0, i as int));
    }
    assert(out.deep_view() =~= m);
    out
}

/// Reads a condition as the comparison of a column with a literal.
pub fn extract_skip_predicate(condition: &Expression) -> (r: Option<(String, PredicateOp, Value)>)
    ensures
        match (r, skip_predicate(condition.deep_view())) {
            (Some(x), Some(y)) => x.0@ == y.0 && x.1 == y.1 && x.2.deep_view() == y.2,
            (None, None) => true,
            _ => false,
        },
{
    proof {
        reveal_with_fuel(expr_model, 2);
    }
    match condition {
        Expression::BinaryOp { left, op, right } => {
            let p: PredicateOp = match op {
                BinaryOperator::Eq => PredicateOp::Eq,
                BinaryOperator::Lt => PredicateOp::Lt,
                BinaryOperator::LtEq => PredicateOp::LtEq,
                BinaryOperator::Gt => PredicateOp::Gt,
                BinaryOperator::GtEq => PredicateOp::GtEq,
                _ => {
                    return None;
                },
            };
            match (&**left, &**right) {
                (Expression::ColumnRef { table: _, column }, Expression::Literal(v)) => Some(
                    (column.clone(), p, v.clone()),
                ),
                (Expression::Literal(v), Expression::ColumnRef { table: _, column }) => Some(
                    (column.clone(), p, v.clone()),
                ),
                _ => None,
            }
        },
        _ => None,
    }
}

/// The comparison that a scan can make in the place of a condition.
pub fn pushed_predicate(condition: &Expression) -> (r: Option<(String, PredicateOp, Value)>)
    ensures
        match (r, pushed(condition.deep_view())) {
            (Some(x), Some(y)) => x.0@ == y.0 && x.1 == y.1 && x.2.deep_view() == y.2,
            (None, None) => true,
            _ => false,
        },
{
    proof {
        reveal_with_fuel(expr_model, 2);
    }
    match condition {
        Expression::BinaryOp { left, op: _, right: _ } => match &**left {
            Expression::ColumnRef { .. } => extract_skip_predicate(condition),
            _ => None,
        },
        _ => None,
    }
}

/// The position of the column that a reference names.
fn find_input(columns: &Vec<String>, table: &Option<String>, column: &String) -> (r: Option<usize>)
    ensures
        pos(r) == input_from(columns.deep_view(), opt_text(*table), column@, 0),
{
    let ghost all = columns.deep_view();
    let ghost t = opt_text(*table);
    let prefixed = match table {
        Some(t) => join3(t.as_str(), ".", column.as_str()),
        None => String::new(),
    };
    let mut i: usize = 0;
    while i < columns.len()
        invariant
            all == columns.deep_view(),
            t == opt_text(*table),
            prefixed@ == (match t {
                Some(x) => x + "."@ + column@,
                None => Seq::empty(),
            }),
            i <= columns.len(),
            input_from(all, t, column@, 0) == input_from(all, t, column@, i as int),
        decreases columns.len() - i,
    {
        assert(all[i as int] == columns[i as int]@);
        if same_text(columns[i].as_str(), column.as_str()) || same_text(
            columns[i].as_str(),
            prefixed.as_str(),
        ) {
            return Some(i);
        }
        i += 1;
    }
    None
}

/// The positions of the columns that references name.
fn find_inputs(columns: &Vec<String>, es: &Vec<Expression>) -> (r: Result<
    Vec<usize>,
    EngramDbError,
>)
    ensures
        match (
            r,
            inputs_of(columns.deep_view(), es.deep_view(), es.deep_view().len()),
        ) {
            (Ok(v), Ok(m)) => v@ == m,
            (Err(e), Err(f)) => e.deep_view() == f,
            _ => false,
        },
{
    let ghost cols = columns.deep_view();
    let ghost all = es.deep_view();
    let mut out: Vec<usize> = Vec::new();
    let mut i: usize = 0;
    while i < es.len()
        invariant
            cols == columns.deep_view(),
            all == es.deep_view(),
            i <= es.len(),
            inputs_of(cols, all, i as nat) == Ok::<Seq<usize>, Fault>(out@),
        decreases es.len() - i,
    {
        assert(all[i as int] == es[i as int].deep_view());
        if let Expression::ColumnRef { table, column } = &es[i] {
            match find_input(columns, table, column) {
                Some(k) => {
                    out.push(k);
                },
                None => {
                    proof {
                        lemma_inputs_fail(cols, all, (i + 1) as nat, all.len());
                    }
                    return Err(EngramDbError::Parse(join2("unknown column: ", column.as_str())));
                },
            }
        }
        i += 1;
    }
    Ok(out)
}

/// An error among the first references is the error of all.
proof fn lemma_inputs_fail(columns: Seq<Seq<char>>, es: Seq<Expr>, k: nat, n: nat)
    requires
        k <= n,
        inputs_of(columns, es, k) is Err,
    ensures
        inputs_of(columns, es, n) == inputs_of(columns, es, k),
    decreases n - k,
{
    if k < n {
        lemma_inputs_fail(columns, es, k, (n - 1) as nat);
    }
}

/// Whether all expressions are references to columns.
pub fn are_columns(es: &Vec<Expression>) -> (r: bool)
    ensures
        r == only_columns(es.deep_view()),
{
    let ghost all = es.deep_view();
    let mut i: usize = 0;
    while i < es.len()
        invariant
            all == es.deep_view(),
            i <= es.len(),
            forall|k: int| 0 <= k < i ==> #[trigger] all[k] is ColumnRef,
        decreases es.len() - i,
    {
        assert(all[i as int] == es[i as int].deep_view());
        match &es[i] {
            Expression::ColumnRef { .. } => {},
            _ => {
                assert(!(all[i as int] is ColumnRef));
                return false;
            },
        }
        i += 1;
    }
    true
}

/// Some columns of a batch.
fn pick_chunk(c: &DataChunk, at: &Vec<usize>) -> (r: DataChunk)
    requires
        c.wf(),
    ensures
        r.wf(),
        r.deep_view() == picked_chunk(c.deep_view(), at@),
{
    let ghost m = picked_chunk(c.deep_view(), at@);
    let mut columns: Vec<Vector> = Vec::new();
    let mut j: usize = 0;
    while j < at.len()
        invariant
            c.wf(),
            m == picked_chunk(c.deep_view(), at@),
            j <= at.len(),
            columns.len() == j,
            forall|k: int|
                0 <= k < j ==> (#[trigger] columns[k]).deep_view() == m.columns[k]
                    && columns[k].wf(),
        decreases at.len() - j,
    {
        let v = if at[j] < c.columns.len() {
            assert(c.deep_view().columns[at@[j as int] as int]
                == c.columns[at@[j as int] as int].deep_view());
            c.columns[at[j]].clone()
        } else {
            Vector::Constant(Value::Null, c.count)
        };
        columns.push(v);
        j += 1;
    }
    assert(columns.deep_view() =~= m.columns);
    DataChunk { columns, count: c.count }
}

/// Some columns of batches.
fn pick_chunks(cs: &Vec<DataChunk>, at: &Vec<usize>) -> (r: Vec<DataChunk>)
    requires
        chunks_wf(cs@),
    ensures
        chunks_wf(r@),
        r.deep_view() == Seq::new(
            cs.deep_view().len(),
            |k: int| picked_chunk(cs.deep_view()[k], at@),
        ),
{
    let ghost v = cs.deep_view();
    let mut out: Vec<DataChunk> = Vec::new();
    let mut k: usize = 0;
    while k < cs.len()
        invariant
            chunks_wf(cs@),
            v == cs.deep_view(),
            k <= cs.len(),
            out.len() == k,
            forall|i: int|
                0 <= i < k ==> (#[trigger] out[i]).deep_view() == picked_chunk(v[i], at@)
                    && out[i].wf(),
        decreases cs.len() - k,
    {
        assert(cs[k as int].wf());
        assert(v[k as int] == cs[k as int].deep_view());
        let c = pick_chunk(&cs[k], at);
        out.push(c);
        k += 1;
    }
    assert(out.deep_view() =~= Seq::new(v.len(), |k: int| picked_chunk(v[k], at@)));
    out
}

/// The first `n` rows of a column.
fn truncate_column(c: &Vector, n: usize) -> (r: Vector)
    requires
        c.wf(),
    ensures
        r.wf(),
        r.deep_view() == front_column(c.deep_view(), n as nat),
{
    match c {
        Vector::Constant(v, _) => Vector::Constant(v.clone(), n),
        Vector::Flat(_) => {
            let mut rows = c.to_flat();
            let ghost all = rows.deep_view();
            if n <= rows.len() {
                rows.truncate(n);
            }
            assert(rows.deep_view() =~= front(all, n as int));
            Vector::Flat(rows)
        },
        Vector::Typed(d) => {
            if n <= d.len() {
                let r = d.take_front(n);
                assert(r.deep_view() =~= front(d.deep_view(), n as int));
                Vector::Typed(r)
            } else {
                c.clone()
            }
        },
    }
}

/// The first `n` rows of a batch, or all of a smaller one.
pub fn truncate_chunk(chunk: &DataChunk, n: usize) -> (r: DataChunk)
    requires
        chunk.wf(),
    ensures
        r.wf(),
        r.deep_view() == front_chunk(chunk.deep_view(), n as nat),
{
    let k: usize = if n < chunk.count {
        n
    } else {
        chunk.count
    };
    let ghost m = front_chunk(chunk.deep_view(), n as nat);
    let mut columns: Vec<Vector> = Vec::new();
    let mut j: usize = 0;
    while j < chunk.columns.len()
        invariant
            chunk.wf(),
            k == m.count,
            m == front_chunk(chunk.deep_view(), n as nat),
            j <= chunk.columns.len(),
            columns.len() == j,
            forall|i: int|
                0 <= i < j ==> (#[trigger] columns[i]).deep_view() == m.columns[i]
                    && columns[i].wf(),
        decreases chunk.columns.len() - j,
    {
        assert(chunk.deep_view().columns[j as int] == chunk.columns[j as int].deep_view());
        let c = truncate_column(&chunk.columns[j], k);
        columns.push(c);
        j += 1;
    }
    assert(columns.deep_view() =~= m.columns);
    DataChunk { columns, count: k }
}

/// The first `n` rows of batches.
fn limit_chunks(cs: &Vec<DataChunk>, n: usize) -> (r: Vec<DataChunk>)
    requires
        chunks_wf(cs@),
    ensures
        chunks_wf(r@),
        r.deep_view() == limited(cs.deep_view(), n as nat, 0),
{
    let ghost v = cs.deep_view();
    let ghost m = limited(v, n as nat, 0);
    let mut remaining: usize = n;
    let mut out: Vec<DataChunk> = Vec::new();
    let mut i: usize = 0;
    assert(out.deep_view() + m =~= m);
    while i < cs.len() && remaining > 0
        invariant
            chunks_wf(cs@),
            v == cs.deep_view(),
            i <= cs.len(),
            chunks_wf(out@),
            out.deep_view() + limited(v, remaining as nat, i as int) == m,
        decreases cs.len() - i,
    {
        assert(cs[i as int].wf());
        assert(v[i as int] == cs[i as int].deep_view());
        let c = truncate_chunk(&cs[i], remaining);
        let ghost before = out.deep_view();
        let ghost d = c.deep_view();
        let taken: usize = c.count;
        let ghost rest = limited(v, (remaining - taken) as nat, i + 1);
        assert(limited(v, remaining as nat, i as int) == seq![d] + rest);
        out.push(c);
        assert(out.deep_view() =~= before.push(d));
        assert(out.deep_view() + rest =~= before + (seq![d] + rest));
        remaining -= taken;
        i += 1;
    }
    assert(out.deep_view() + Seq::empty() =~= out.deep_view());
    out
}

/// Aggregates as triples.
fn make_triples(a: &Vec<AggregateExpr>) -> (r: Vec<(AggregateFunc, usize, bool)>)
    ensures
        r@ == triples(a@),
{
    let mut out: Vec<(AggregateFunc, usize, bool)> = Vec::new();
    let mut i: usize = 0;
    while i < a.len()
        invariant
            i <= a.len(),
            out@ == triples(a@).subrange(0, i as int),
        decreases a.len() - i,
    {
        out.push((a[i].func, a[i].input, a[i].distinct));
        i += 1;
        assert(out@ =~= triples(a@).subrange(0, i as int));
    }
    assert(out@ =~= triples(a@));
    out
}

/// Aggregates batches, in groups where there are columns to group by.
pub fn aggregate_chunks<E: Fn(Ask) -> Reply>(
    cs: &Vec<DataChunk>,
    group_by: &Vec<usize>,
    aggregates: &Vec<AggregateExpr>,
    env: &E,
) -> (r: Vec<DataChunk>)
    requires
        answers(*env),
        chunks_wf(cs@),
        all_aligned(cs.deep_view()),
    ensures
        chunks_wf(r@),
        r.deep_view() == aggregated_all(oracle(*env), cs.deep_view(), group_by@, aggregates@),
{
    let funcs = make_triples(aggregates);
    if group_by.len() == 0 {
        aggregate::aggregate_batches(cs, &funcs, env)
    } else {
        aggregate::group_batches(cs, group_by, &funcs, env)
    }
}

/// The names of the columns that groups and aggregates make.
pub fn name_aggregates(
    columns: &Vec<String>,
    group_by: &Vec<usize>,
    aggregates: &Vec<AggregateExpr>,
) -> (r: Vec<String>)
    ensures
        r.deep_view() == aggregate_names(columns.deep_view(), group_by@, aggregates@),
{
    let ghost m = aggregate_names(columns.deep_view(), group_by@, aggregates@);
    let mut out: Vec<String> = Vec::new();
    let mut i: usize = 0;
    while i < group_by.len()
        invariant
            m == aggregate_names(columns.deep_view(), group_by@, aggregates@),
            i <= group_by.len(),
            out.deep_view() == m.subrange(0, i as int),
        decreases group_by.len() - i,
    {
        let s = if group_by[i] < columns.len() {
            assert(columns.deep_view()[group_by@[i as int] as int]
                == columns[group_by@[i as int] as int]@);
            columns[group_by[i]].clone()
        } else {
            let n = usize_text(group_by[i]);
            join2("group_", n.as_str())
        };
        assert(s@ == m[i as int]);
        let ghost before = out.deep_view();
        out.push(s);
        assert(out.deep_view() =~= before.push(s@));
        i += 1;
        assert(out.deep_view() =~= m.subrange(0, i as int));
    }
    let mut j: usize = 0;
    while j < aggregates.len()
        invariant
            m == aggregate_names(columns.deep_view(), group_by@, aggregates@),
            j <= aggregates.len(),
            out.deep_view() == m.subrange(0, group_by.len() + j),
        decreases aggregates.len() - j,
    {
        let n = usize_text(aggregates[j].input);
        let head = join2(aggregate_name(aggregates[j].func), "(");
        let s = join3(head.as_str(), n.as_str(), ")");
        assert(s@ == m[group_by.len() + j]);
        let ghost before = out.deep_view();
        out.push(s);
        assert(out.deep_view() =~= before.push(s@));
        j += 1;
        assert(out.deep_view() =~= m.subrange(0, group_by.len() + j));
    }
    assert(out.deep_view() =~= m);
    out
}

/// The error of a union whose sides have other columns.
pub fn union_error<E: Fn(Ask) -> Reply>(a: Vec<String>, b: Vec<String>, env: &E) -> (r:
    EngramDbError)
    requires
        answers(*env),
    ensures
        r.deep_view() == union_fault(oracle(*env), a.deep_view(), b.deep_view()),
{
    let x = put_text(env, Ask::DebugNames(a));
    let y = put_text(env, Ask::DebugNames(b));
    let head = join3("UNION columns mismatch: ", x.as_str(), " vs ");
    EngramDbError::Parse(join2(head.as_str(), y.as_str()))
}

/// Whether a scan reads a column.
pub fn reads_column(at: &Vec<usize>, c: Option<usize>) -> (r: bool)
    ensures
        r == scanned_at(at@, pos(c)),
{
    match c {
        None => false,
        Some(k) => {
            let mut i: usize = 0;
            while i < at.len()
                invariant
                    c == Some(k),
                    i <= at.len(),
                    forall|j: int| 0 <= j < i ==> #[trigger] at@[j] != k,
                decreases at.len() - i,
            {
                if at[i] == k {
                    assert(at@[i as int] == k);
                    return true;
                }
                i += 1;
            }
            false
        },
    }
}

/// Whether named batches, or the error, are what the model says.
pub open spec fn gives_named(
    r: Result<(Vec<String>, Vec<DataChunk>), EngramDbError>,
    m: Result<(Seq<Seq<char>>, Seq<Chunk>), Fault>,
) -> bool {
    match (r, m) {
        (Ok(x), Ok(y)) => x.0.deep_view() == y.0 && x.1.deep_view() == y.1,
        (Err(e), Err(f)) => e.deep_view() == f,
        _ => false,
    }
}

/// Scans a table with a comparison in the place of a condition.
fn scan_pushed<E: Fn(Ask) -> Reply>(
    db: &Database,
    table_name: &str,
    column_indices: &Vec<usize>,
    predicate: (String, PredicateOp, Value),
    condition: &Expression,
    env: &E,
) -> (r: Result<(Vec<String>, Vec<DataChunk>), EngramDbError>)
    requires
        answers(*env),
        db.wf(),
    ensures
        r matches Ok(x) ==> chunks_wf(x.1@),
        calm(condition.deep_view()) ==> gives_named(
            r,
            pushed_scan(
                oracle(*env),
                db.deep_view(),
                table_name@,
                column_indices@,
                (predicate.0@, predicate.1, predicate.2.deep_view()),
                condition.deep_view(),
            ),
        ),
        can_push(
            oracle(*env),
            db.deep_view(),
            table_name@,
            column_indices@,
            (predicate.0@, predicate.1, predicate.2.deep_view()),
            condition.deep_view(),
            match r {
                Ok(x) => Ok(Some((x.0.deep_view(), x.1.deep_view()))),
                Err(e) => Err(e.deep_view()),
            },
        ),
{
    let t = match db.get_table(table_name) {
        Some(t) => t,
        None => {
            return Err(EngramDbError::TableNotFound(table_name.to_owned()));
        },
    };
    let names = pick_names(&t.def.columns, column_indices);
    let at: Option<usize> = t.def.column_index(predicate.0.as_str());
    let reads = reads_column(column_indices, at);
    let skip: Option<(usize, PredicateOp, Value)> = match at {
        Some(k) => Some((k, predicate.1, predicate.2)),
        None => None,
    };
    let rows = scan_rows(t, column_indices, &skip);
    let chunks = frame(&rows);
    if reads {
        return Ok((names, chunks));
    }
    let kept = filter::execute(&chunks, condition, &names, env);
    assert(can_filter_named(
        oracle(*env),
        chunks.deep_view(),
        condition.deep_view(),
        names.deep_view(),
        named_in(names.deep_view(), told_chunks(kept)),
    ));
    match kept {
        Ok(cs) => Ok((names, cs)),
        Err(e) => Err(e),
    }
}

/// The model of named batches.
pub open spec fn told_chunked(
    r: Result<Option<(Vec<String>, Vec<DataChunk>)>, EngramDbError>,
) -> Result<Option<(Seq<Seq<char>>, Seq<Chunk>)>, Fault> {
    match r {
        Ok(Some(x)) => Ok(Some((x.0.deep_view(), x.1.deep_view()))),
        Ok(None) => Ok(None),
        Err(e) => Err(e.deep_view()),
    }
}

/// Whether the batches of a result are well formed.
pub open spec fn sound_chunked(
    r: Result<Option<(Vec<String>, Vec<DataChunk>)>, EngramDbError>,
) -> bool {
    r matches Ok(Some(x)) ==> chunks_wf(x.1@)
}

/// Picks some columns of batches, under new names.
fn pick_read(
    read: Result<Option<(Vec<String>, Vec<DataChunk>)>, EngramDbError>,
    expressions: &Vec<Expression>,
    column_names: &Vec<String>,
) -> (r: Result<Option<(Vec<String>, Vec<DataChunk>)>, EngramDbError>)
    requires
        sound_chunked(read),
        only_columns(expressions.deep_view()),
    ensures
        sound_chunked(r),
        told_chunked(r) == picked_from(
            told_chunked(read),
            expressions.deep_view(),
            column_names.deep_view(),
        ),
{
    match read {
        Err(e) => Err(e),
        Ok(None) => Ok(None),
        Ok(Some(c)) => match find_inputs(&c.0, expressions) {
            Err(e) => Err(e),
            Ok(at) => Ok(Some((copy_names(column_names), pick_chunks(&c.1, &at)))),
        },
    }
}

/// Filters batches.
fn filter_read<E: Fn(Ask) -> Reply>(
    read: Result<Option<(Vec<String>, Vec<DataChunk>)>, EngramDbError>,
    condition: &Expression,
    env: &E,
) -> (r: Result<Option<(Vec<String>, Vec<DataChunk>)>, EngramDbError>)
    requires
        answers(*env),
        sound_chunked(read),
    ensures
        sound_chunked(r),
        calm(condition.deep_view()) ==> told_chunked(r) == filtered_from(
            oracle(*env),
            told_chunked(read),
            condition.deep_view(),
        ),
        can_filter_from(
            oracle(*env),
            told_chunked(read),
            condition.deep_view(),
            told_chunked(r),
        ),
{
    match read {
        Err(e) => Err(e),
        Ok(None) => Ok(None),
        Ok(Some(c)) => {
            let s = straighten(&c.1);
            let kept = filter::execute(&s, condition, &c.0, env);
            assert(can_filter_named(
                oracle(*env),
                s.deep_view(),
                condition.deep_view(),
                c.0.deep_view(),
                named_in(c.0.deep_view(), told_chunks(kept)),
            ));
            match kept {
                Err(e) => Err(e),
                Ok(cs) => Ok(Some((c.0, cs))),
            }
        },
    }
}

/// Sorts batches.
fn sort_read(
    read: Result<Option<(Vec<String>, Vec<DataChunk>)>, EngramDbError>,
    sort_keys: &Vec<SortKey>,
    limit: Option<usize>,
) -> (r: Result<Option<(Vec<String>, Vec<DataChunk>)>, EngramDbError>)
    requires
        sound_chunked(read),
    ensures
        sound_chunked(r),
        told_chunked(r) == sorted_from(told_chunked(read), sort_keys@, limit),
{
    match read {
        Err(e) => Err(e),
        Ok(None) => Ok(None),
        Ok(Some(c)) => {
            let s = straighten(&c.1);
            proof {
                lemma_regular(s.deep_view());
            }
            Ok(Some((c.0, sort::sort_batches(&s, sort_keys, limit))))
        },
    }
}

/// Takes the first rows of batches.
fn limit_read(
    read: Result<Option<(Vec<String>, Vec<DataChunk>)>, EngramDbError>,
    limit: usize,
) -> (r: Result<Option<(Vec<String>, Vec<DataChunk>)>, EngramDbError>)
    requires
        sound_chunked(read),
    ensures
        sound_chunked(r),
        told_chunked(r) == limited_from(told_chunked(read), limit),
{
    match read {
        Err(e) => Err(e),
        Ok(None) => Ok(None),
        Ok(Some(c)) => Ok(Some((c.0, limit_chunks(&c.1, limit)))),
    }
}

/// Aggregates batches.
fn aggregate_read<E: Fn(Ask) -> Reply>(
    read: Result<Option<(Vec<String>, Vec<DataChunk>)>, EngramDbError>,
    group_by: &Vec<usize>,
    aggregates: &Vec<AggregateExpr>,
    env: &E,
) -> (r: Result<Option<(Vec<String>, Vec<DataChunk>)>, EngramDbError>)
    requires
        answers(*env),
        sound_chunked(read),
    ensures
        sound_chunked(r),
        told_chunked(r) == aggregated_from(
            oracle(*env),
            told_chunked(read),
            group_by@,
            aggregates@,
        ),
{
    match read {
        Err(e) => Err(e),
        Ok(None) => Ok(None),
        Ok(Some(c)) => {
            let s = straighten(&c.1);
            let cs = aggregate_chunks(&s, group_by, aggregates, env);
            Ok(Some((name_aggregates(&c.0, group_by, aggregates), cs)))
        },
    }
}

/// Puts batches behind batches.
fn unite_read<E: Fn(Ask) -> Reply>(
    a: (Vec<String>, Vec<DataChunk>),
    second: Result<Option<(Vec<String>, Vec<DataChunk>)>, EngramDbError>,
    env: &E,
) -> (r: Result<Option<(Vec<String>, Vec<DataChunk>)>, EngramDbError>)
    requires
        answers(*env),
        chunks_wf(a.1@),
        sound_chunked(second),
    ensures
        sound_chunked(r),
        told_chunked(r) == united(
            oracle(*env),
            Ok(Some((a.0.deep_view(), a.1.deep_view()))),
            told_chunked(second),
        ),
{
    let b = match second {
        Err(e) => {
            return Err(e);
        },
        Ok(None) => {
            return Ok(None);
        },
        Ok(Some(b)) => b,
    };
    if a.0.len() != b.0.len() {
        return Err(union_error(a.0, b.0, env));
    }
    let (names, mut cs) = a;
    let mut more = b.1;
    let ghost (x, y) = (cs@, more@);
    let ghost (u, v) = (cs.deep_view(), more.deep_view());
    cs.append(&mut more);
    assert(cs@ == x + y);
    assert(cs.deep_view() =~= u + v);
    assert(chunks_wf(cs@));
    Ok(Some((names, cs)))
}

/// Executes a plan batch by batch, where that is possible.
pub fn try_execute_chunks<E: Fn(Ask) -> Reply>(plan: &PhysicalPlan, db: &Database, env: &E) -> (r:
    Result<Option<(Vec<String>, Vec<DataChunk>)>, EngramDbError>)
    requires
        answers(*env),
        db.wf(),
    ensures
        sound_chunked(r),
        steady(plan.deep_view()) ==> told_chunked(r) == chunked(
            oracle(*env),
            plan.deep_view(),
            db.deep_view(),
        ),
        can_chunk(oracle(*env), plan.deep_view(), db.deep_view(), told_chunked(r)),
    decreases plan,
{
    match plan {
        PhysicalPlan::TableScan { table_name, column_indices } => match db.get_table(
            table_name.as_str(),
        ) {
            None => Err(EngramDbError::TableNotFound(table_name.clone())),
            Some(t) => {
                let names = pick_names(&t.def.columns, column_indices);
                let rows = scan_rows(t, column_indices, &None);
                Ok(Some((names, frame(&rows))))
            },
        },
        PhysicalPlan::Projection { input, expressions, column_names } => {
            if !are_columns(expressions) {
                return Ok(None);
            }
            let read = try_execute_chunks(input, db, env);
            assert(on_the_way(told_chunked(read)));
            pick_read(read, expressions, column_names)
        },
        PhysicalPlan::Filter { input, condition } => {
            if let PhysicalPlan::TableScan { table_name, column_indices } = &**input {
                if let Some(p) = pushed_predicate(condition) {
                    assert(plan_model(**input) == Plan::Leaf(**input));
                    return match scan_pushed(
                        db,
                        table_name.as_str(),
                        column_indices,
                        p,
                        condition,
                        env,
                    ) {
                        Err(e) => Err(e),
                        Ok(c) => Ok(Some(c)),
                    };
                }
            }
            let read = try_execute_chunks(input, db, env);
            assert(on_the_way(told_chunked(read)));
            filter_read(read, condition, env)
        },
        PhysicalPlan::Sort { input, sort_keys, limit } => {
            let read = try_execute_chunks(input, db, env);
            assert(on_the_way(told_chunked(read)));
            sort_read(read, sort_keys, *limit)
        },
        PhysicalPlan::Limit { input, limit } => {
            let read = try_execute_chunks(input, db, env);
            assert(on_the_way(told_chunked(read)));
            limit_read(read, *limit)
        },
        PhysicalPlan::Aggregate { input, group_by, aggregates } => {
            let read = try_execute_chunks(input, db, env);
            assert(on_the_way(told_chunked(read)));
            aggregate_read(read, group_by, aggregates, env)
        },
        PhysicalPlan::CountStar { output_name, count } => {
            let mut names: Vec<String> = Vec::new();
            names.push(output_name.clone());
            assert(names.deep_view() =~= seq![output_name@]);
            let mut columns: Vec<Vector> = Vec::new();
            columns.push(Vector::Constant(Value::Int64(*count), 1));
            assert(columns.deep_view() =~= seq![Column::Constant(Datum::Int64(*count), 1)]);
            let c = DataChunk { columns, count: 1 };
            let mut chunks: Vec<DataChunk> = Vec::new();
            chunks.push(c);
            assert(chunks.deep_view() =~= seq![c.deep_view()]);
            Ok(Some((names, chunks)))
        },
        PhysicalPlan::SetUnion { op, left, right } => {
            if *op != SetUnionOp::UnionAll {
                return Ok(None);
            }
            let first = try_execute_chunks(left, db, env);
            assert(on_the_way(told_chunked(first)));
            match first {
                Err(e) => Err(e),
                Ok(None) => Ok(None),
                Ok(Some(a)) => {
                    let second = try_execute_chunks(right, db, env);
                    assert(on_the_way(told_chunked(second)));
                    unite_read(a, second, env)
                },
            }
        },
        PhysicalPlan::SubqueryScan { plan: input } => try_execute_chunks(input, db, env),
        _ => Ok(None),
    }
}

/// Copies names.
pub fn copy_names(names: &Vec<String>) -> (r: Vec<String>)
    ensures
        r.deep_view() == names.deep_view(),
{
    let mut out: Vec<String> = Vec::new();
    let mut i: usize = 0;
    while i < names.len()
        invariant
            i <= names.len(),
            out.deep_view() == names.deep_view().subrange(0, i as int),
        decreases names.len() - i,
    {
        let ghost before = out.deep_view();
        out.push(names[i].clone());
        assert(out.deep_view() =~= before.push(names[i as int]@));
        i += 1;
        assert(out.deep_view() =~= names.deep_view().subrange(0, i as int));
    }
    assert(out.deep_view() =~= names.deep_view());
    out
}

} // verus!
