//! Table scans.
use vstd::prelude::*;

use crate::common::error::{EngramDbError, Fault};
use crate::executor::expression::eval::{find_name, name_at};
use crate::executor::expression::ops::{compared, eval_compare};
use crate::executor::framing::{frame, framed, regular};
use crate::executor::operators::filter::gives_chunks;
use crate::executor::operators::hash_join::{cell_of, read_cell};
use crate::executor::vector::{chunks_wf, Chunk, DataChunk};
use crate::sql::ast::{expr_model, BinaryOperator, Expr, Expression};
use crate::storage::database::{table_of, Database, Db};
use crate::storage::table::{live, pick_cells, picked_rows, Table, Tbl};
use crate::value::Datum;
use crate::Value;

verus! {

/// The comparisons that a scan can make.
#[derive(Debug, Clone, Copy, PartialEq, Eq, Structural)]
pub enum PredicateOp {
    Eq,
    Lt,
    LtEq,
    Gt,
    GtEq,
}

/// The operator of a comparison.
pub open spec fn operator_of(op: PredicateOp) -> BinaryOperator {
    match op {
        PredicateOp::Eq => BinaryOperator::Eq,
        PredicateOp::Lt => BinaryOperator::Lt,
        PredicateOp::LtEq => BinaryOperator::LtEq,
        PredicateOp::Gt => BinaryOperator::Gt,
        PredicateOp::GtEq => BinaryOperator::GtEq,
    }
}

/// Whether a row passes a comparison of one of its columns.
pub open spec fn passes(row: Seq<Datum>, skip: Option<(usize, PredicateOp, Datum)>) -> bool {
    match skip {
        None => true,
        Some(p) => compared(cell_of(row, p.0 as int), operator_of(p.1), p.2) == Datum::Boolean(
            true,
        ),
    }
}

/// The rows among the first `n` that pass.
pub open spec fn passing(
    rows: Seq<(u64, Seq<Datum>)>,
    skip: Option<(usize, PredicateOp, Datum)>,
    n: nat,
) -> Seq<(u64, Seq<Datum>)>
    decreases n,
{
    if n == 0 {
        Seq::empty()
    } else {
        let before = passing(rows, skip, (n - 1) as nat);
        if passes(rows[n - 1].1, skip) {
            before.push(rows[n - 1])
        } else {
            before
        }
    }
}

/// Some columns of the live rows that pass a comparison.
pub open spec fn scanned(
    t: Tbl,
    columns: Seq<usize>,
    skip: Option<(usize, PredicateOp, Datum)>,
) -> Seq<Seq<Datum>> {
    let rows = live(t.slots, t.slots.len());
    picked_rows(passing(rows, skip, rows.len()), columns)
}

/// The model of a comparison.
pub open spec fn skip_model(s: Option<(usize, PredicateOp, Value)>) -> Option<
    (usize, PredicateOp, Datum),
> {
    match s {
        Some(p) => Some((p.0, p.1, p.2.deep_view())),
        None => None,
    }
}

/// The operator of a comparison.
pub fn predicate_operator(op: PredicateOp) -> (r: BinaryOperator)
    ensures
        r == operator_of(op),
{
    match op {
        PredicateOp::Eq => BinaryOperator::Eq,
        PredicateOp::Lt => BinaryOperator::Lt,
        PredicateOp::LtEq => BinaryOperator::LtEq,
        PredicateOp::Gt => BinaryOperator::Gt,
        PredicateOp::GtEq => BinaryOperator::GtEq,
    }
}

/// Some columns of the live rows that pass a comparison.
pub fn scan_rows(t: &Table, columns: &Vec<usize>, skip: &Option<(usize, PredicateOp, Value)>) -> (r:
    Vec<Vec<Value>>)
    requires
        t.wf(),
    ensures
        r.deep_view() == scanned(t.deep_view(), columns@, skip_model(*skip)),
{
    let all = t.collect_mutable_rows();
    let ghost rows = all.deep_view();
    let ghost p = skip_model(*skip);
    let mut out: Vec<Vec<Value>> = Vec::new();
    assert(out.deep_view() =~= picked_rows(passing(rows, p, 0), columns@));
    let mut i: usize = 0;
    while i < all.len()
        invariant
            i <= all.len(),
            rows == all.deep_view(),
            p == skip_model(*skip),
            out.deep_view() == picked_rows(passing(rows, p, i as nat), columns@),
        decreases all.len() - i,
    {
        assert(rows[i as int] == all[i as int].deep_view());
        let keep: bool = match skip {
            None => true,
            Some(s) => {
                let cell = read_cell(&all[i].1, s.0);
                match eval_compare(&cell, predicate_operator(s.1), &s.2) {
                    Value::Boolean(b) => b,
                    _ => false,
                }
            },
        };
        if keep {
            let row = pick_cells(&all[i].1, columns);
            let ghost before = out.deep_view();
            out.push(row);
            assert(out.deep_view() =~= before.push(row.deep_view()));
            assert(out.deep_view() =~= picked_rows(passing(rows, p, (i + 1) as nat), columns@));
        }
        i += 1;
    }
    out
}

/// A scan of a table.
pub open spec fn table_chunks(d: Db, name: Seq<char>, columns: Seq<usize>) -> Result<
    Seq<Chunk>,
    Fault,
> {
    match table_of(d, name) {
        Some(t) => Ok(framed(scanned(t, columns, None))),
        None => Err(Fault::TableNotFound(name)),
    }
}

/// Scans some columns of a table.
pub fn execute(db: &Database, table_name: &str, column_indices: &Vec<usize>) -> (r: Result<
    Vec<DataChunk>,
    EngramDbError,
>)
    requires
        db.wf(),
    ensures
        gives_chunks(r, table_chunks(db.deep_view(), table_name@, column_indices@)),
        r matches Ok(v) ==> chunks_wf(v@) && regular(v.deep_view()),
{
    match db.get_table(table_name) {
        Some(t) => {
            let rows = scan_rows(t, column_indices, &None);
            Ok(frame(&rows))
        },
        None => Err(EngramDbError::TableNotFound(table_name.to_owned())),
    }
}

/// Scans some columns of a table of which a filter is known. All rows are
/// read; the filter is left to the operator above.
pub fn execute_with_filter_pushdown(
    db: &Database,
    table_name: &str,
    column_indices: &Vec<usize>,
    filter_expr: &Expression,
    column_names: &Vec<String>,
) -> (r: Result<Vec<DataChunk>, EngramDbError>)
    requires
        db.wf(),
    ensures
        gives_chunks(r, table_chunks(db.deep_view(), table_name@, column_indices@)),
        r matches Ok(v) ==> chunks_wf(v@) && regular(v.deep_view()),
{
    execute(db, table_name, column_indices)
}

/// The comparison of a column with a literal that a filter is made of.
pub open spec fn filter_info(e: Expr, names: Seq<Seq<char>>) -> Option<
    (int, BinaryOperator, Datum),
> {
    match e {
        Expr::Binary(l, op, r) => match (*l, *r) {
            (Expr::ColumnRef(_, column), Expr::Literal(d)) => match name_at(names, column, 0) {
                Some(i) => Some((i, op, d)),
                None => None,
            },
            _ => None,
        },
        _ => None,
    }
}

/// Reads a filter as the comparison of a column with a literal.
pub fn extract_filter_info(expr: &Expression, column_names: &Vec<String>) -> (r: Option<
    (usize, BinaryOperator, Value),
>)
    ensures
        match (r, filter_info(expr.deep_view(), column_names.deep_view())) {
            (Some(x), Some(y)) => x.0 == y.0 && x.1 == y.1 && x.2.deep_view() == y.2,
            (None, None) => true,
            _ => false,
        },
{
    proof {
        reveal_with_fuel(expr_model, 2);
    }
    match expr {
        Expression::BinaryOp { left, op, right } => match (&**left, &**right) {
            (
                Expression::ColumnRef { table: _, column },
                Expression::Literal(v),
            ) => match find_name(column_names, column.as_str()) {
                Some(i) => Some((i, *op, v.clone())),
                None => None,
            },
            _ => None,
        },
        _ => None,
    }
}

/// How many groups of rows there are, and how many of them a scan between two
/// values can leave out. Rows are not grouped.
pub fn estimate_skipping(
    db: &Database,
    table_name: &str,
    col_idx: usize,
    low: &Value,
    high: &Value,
) -> (r: Result<(usize, usize), EngramDbError>)
    ensures
        r is Ok,
        r->Ok_0 == (0usize, 0usize),
{
    Ok((0, 0))
}

/// A scan without a comparison reads every live row.
pub proof fn law_scan_reads_all(t: Tbl, columns: Seq<usize>)
    ensures
        scanned(t, columns, None) == picked_rows(live(t.slots, t.slots.len()), columns),
{
    let rows = live(t.slots, t.slots.len());
    lemma_passing_all(rows, rows.len());
    assert(rows.subrange(0, rows.len() as int) =~= rows);
}

proof fn lemma_passing_all(rows: Seq<(u64, Seq<Datum>)>, n: nat)
    requires
        n <= rows.len(),
    ensures
        passing(rows, None, n) == rows.subrange(0, n as int),
    decreases n,
{
    if n > 0 {
        lemma_passing_all(rows, (n - 1) as nat);
        assert(rows.subrange(0, n as int) =~= rows.subrange(0, n - 1).push(rows[n - 1]));
    } else {
        assert(rows.subrange(0, 0) =~= Seq::empty());
    }
}

} // verus!
