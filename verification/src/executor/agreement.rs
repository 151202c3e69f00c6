//! Plans that are executed batch by batch give the rows that they give row by
//! row.
use vstd::prelude::*;

use crate::common::error::Fault;
use crate::common::types::{lemma_first_from, name_index, ColumnModel};
use crate::executor::columnar::{
    aggregated_all, chunked, front_chunk, inputs_of, limited, names_picked, picked_chunk,
    pushed, pushed_scan, scanned_at, triples,
};
use crate::executor::env::{Answer, Question};
use crate::executor::executor::{ran, scanned_where, Given};
use crate::executor::expression::batch_laws::{alike, law_eval_by_rows, RowPair};
use crate::executor::expression::cell_laws::{
    law_eval_by_cells, results_same, same_cells, tells_no_constants,
};
use crate::executor::expression::eval::{eval, law_selection, true_rows};
use crate::executor::framing::{
    filled_rows, framed, law_frame_roundtrip, lemma_regular, regular, rows_in, straight, width,
};
use crate::executor::key_index::row_position;
use crate::executor::operators::aggregate::{
    aggregated, aggregated_chunk, any_distinct, distinct_group_rows, group_key, group_rows,
    grouped_chunks, met_chunk, met_chunks, DistinctGroups,
};
use crate::executor::operators::filter::{
    all_aligned, filtered, filtered_all, law_filter_rows, lemma_select_aligned,
};
use crate::executor::operators::group_laws::{law_group_is_met, law_groups};
use crate::executor::operators::hash_join::cut_chunk;
use crate::executor::operators::sort::{ordered, row_order, sorted_chunks, trimmed};
use crate::executor::operators::table_scan::{
    law_scan_reads_all, passing, scanned, PredicateOp,
};
use crate::executor::physical_plan::{
    AggregateExpr, AggregateFunc, PhysicalPlan, Plan, SetUnionOp, SortKey,
};
use crate::executor::pushdown::{lemma_all_fail, lemma_no_name};
use crate::executor::relational::places;
use crate::executor::sorting::{law_sort_permutes, sorted_positions, sorted_rows};
use crate::executor::vector::{
    aligned, batch, batches, col_at, col_len, law_chunk_roundtrip, lemma_batch_bounds,
    lemma_rectangular_fits, rectangular, row_of, rows_of, rows_of_all, Chunk, Column, VECTOR_SIZE,
};
use crate::query::{listed, Query};
use crate::sql::ast::Expr;
use crate::storage::database::{table_of, Db};
use crate::storage::table::{live, picked, Tbl};
use crate::storage::txn::front;
use crate::value::Datum;

verus! {

/// Whether no column of a batch is a constant.
pub open spec fn spread(c: Chunk) -> bool {
    forall|j: int| 0 <= j < c.columns.len() ==> #[trigger] c.columns[j] is Flat
}

/// Whether batches hold no constants.
pub open spec fn free_of_constants(cs: Seq<Chunk>) -> bool {
    forall|k: int| 0 <= k < cs.len() ==> spread(#[trigger] cs[k])
}

/// Whether the rows of each batch can be counted.
pub open spec fn countable(cs: Seq<Chunk>) -> bool {
    forall|k: int| 0 <= k < cs.len() ==> (#[trigger] cs[k]).count <= usize::MAX
}

/// Whether a condition has a value on rows of a width.
pub open spec fn has_value(
    o: spec_fn(Question) -> Answer,
    e: Expr,
    names: Seq<Seq<char>>,
    w: nat,
) -> bool {
    eval(o, e, cut_chunk(Seq::empty(), w), names) is Ok
}

/// Whether a condition that has a value on batches has one on their rows: the
/// batches hold no constants, the condition does not tell constants apart, there
/// are no rows, or it has a value on them anyhow.
pub open spec fn sees_rows(
    o: spec_fn(Question) -> Answer,
    e: Expr,
    names: Seq<Seq<char>>,
    cs: Seq<Chunk>,
) -> bool {
    ||| free_of_constants(cs)
    ||| tells_no_constants(e)
    ||| rows_of_all(cs).len() == 0
    ||| has_value(o, e, names, cs[0].columns.len())
}

/// As [`sees_rows`], of one batch.
spec fn sees_row(
    o: spec_fn(Question) -> Answer,
    e: Expr,
    names: Seq<Seq<char>>,
    c: Chunk,
) -> bool {
    spread(c) || tells_no_constants(e) || c.count == 0 || has_value(o, e, names, c.columns.len())
}

/// Whether a condition is true of a row.
pub open spec fn holds(
    o: spec_fn(Question) -> Answer,
    e: Expr,
    names: Seq<Seq<char>>,
    row: Seq<Datum>,
) -> bool {
    eval(o, e, cut_chunk(seq![row], row.len()), names) matches Ok(b) && col_at(b, 0)
        == Datum::Boolean(true)
}

/// The rows among the first `n` of which a condition is true.
pub open spec fn kept_where(
    o: spec_fn(Question) -> Answer,
    e: Expr,
    names: Seq<Seq<char>>,
    rows: Seq<Seq<Datum>>,
    n: nat,
) -> Seq<Seq<Datum>>
    decreases n,
{
    if n == 0 {
        Seq::empty()
    } else {
        let before = kept_where(o, e, names, rows, (n - 1) as nat);
        if holds(o, e, names, rows[n - 1]) {
            before.push(rows[n - 1])
        } else {
            before
        }
    }
}

/// A condition has the same value in rows of two batches that are the same.
proof fn lemma_same_rows(
    o: spec_fn(Question) -> Answer,
    e: Expr,
    c: Chunk,
    d: Chunk,
    names: Seq<Seq<char>>,
    p: RowPair,
)
    requires
        aligned(c),
        aligned(d),
        c.count == p.n,
        d.count == p.m,
        c.columns.len() == d.columns.len(),
        0 <= p.i < p.n && 0 <= p.j < p.m ==> row_of(c, p.i) == row_of(d, p.j),
    ensures
        results_same(
            eval(o, e, c, names),
            eval(o, e, d, names),
            p,
            spread(c) && spread(d) || tells_no_constants(e),
        ),
{
    assert forall|k: int|
        #![trigger c.columns[k]]
        #![trigger d.columns[k]]
        0 <= k < c.columns.len() implies same_cells(c.columns[k], d.columns[k], p) by {
        assert(col_len(c.columns[k]) == c.count && col_len(d.columns[k]) == d.count);
        if 0 <= p.i < p.n && 0 <= p.j < p.m {
            assert(row_of(c, p.i)[k] == row_of(d, p.j)[k]);
        }
    }
    law_eval_by_cells(o, e, c, d, names, p);
    if spread(c) && spread(d) {
        assert forall|k: int|
            #![trigger c.columns[k]]
            #![trigger d.columns[k]]
            0 <= k < c.columns.len() implies alike(c.columns[k], d.columns[k], p) by {
            assert(same_cells(c.columns[k], d.columns[k], p));
            assert(c.columns[k] is Flat && d.columns[k] is Flat);
        }
        law_eval_by_rows(o, e, c, d, names, p);
    }
}

/// A row by itself.
proof fn lemma_by_itself(row: Seq<Datum>)
    ensures
        ({
            let d = cut_chunk(seq![row], row.len());
            aligned(d) && spread(d) && d.count == 1 && d.columns.len() == row.len() && row_of(d, 0)
                == row
        }),
{
    let d = cut_chunk(seq![row], row.len());
    assert(row_of(d, 0) =~= row);
}

/// A condition that has a value on rows of a width has one on batches of rows.
proof fn lemma_has_value(
    o: spec_fn(Question) -> Answer,
    e: Expr,
    names: Seq<Seq<char>>,
    d: Chunk,
)
    requires
        aligned(d),
        spread(d),
    ensures
        has_value(o, e, names, d.columns.len()) == eval(o, e, d, names) is Ok,
{
    let c = cut_chunk(Seq::empty(), d.columns.len());
    lemma_same_rows(o, e, c, d, names, RowPair { n: 0, i: -1, m: d.count, j: -1 });
}

/// The rows that are selected among the first `n` are those that are kept.
proof fn lemma_selected(
    o: spec_fn(Question) -> Answer,
    e: Expr,
    names: Seq<Seq<char>>,
    c: Chunk,
    b: Column,
    n: nat,
)
    requires
        aligned(c),
        sees_row(o, e, names, c),
        n <= c.count <= usize::MAX,
        eval(o, e, c, names) == Ok::<Column, Fault>(b),
    ensures
        Seq::new(true_rows(b, n).len(), |i: int| row_of(c, true_rows(b, n)[i] as int))
            == kept_where(o, e, names, rows_of(c), n),
    decreases n,
{
    if n > 0 {
        lemma_selected(o, e, names, c, b, (n - 1) as nat);
        let i = n - 1;
        let row = row_of(c, i);
        lemma_by_itself(row);
        lemma_has_value(o, e, names, cut_chunk(seq![row], row.len()));
        lemma_same_rows(
            o,
            e,
            c,
            cut_chunk(seq![row], row.len()),
            names,
            RowPair { n: c.count, i, m: 1, j: 0 },
        );
        assert(rows_of(c)[i] == row);
        assert((col_at(b, i) == Datum::Boolean(true)) == holds(o, e, names, row));
    }
    assert(Seq::new(true_rows(b, n).len(), |i: int| row_of(c, true_rows(b, n)[i] as int))
        =~= kept_where(o, e, names, rows_of(c), n));
}

/// A batch that is filtered has the rows that are kept.
proof fn lemma_filter_one(
    o: spec_fn(Question) -> Answer,
    e: Expr,
    names: Seq<Seq<char>>,
    c: Chunk,
)
    requires
        aligned(c),
        sees_row(o, e, names, c),
        c.count <= usize::MAX,
        filtered(o, c, e, names) is Ok,
    ensures
        ({
            let f = filtered(o, c, e, names)->Ok_0;
            &&& aligned(f)
            &&& f.columns.len() == c.columns.len()
            &&& f.count <= c.count
            &&& rows_of(f) == kept_where(o, e, names, rows_of(c), c.count)
        }),
{
    let b = eval(o, e, c, names)->Ok_0;
    let f = filtered(o, c, e, names)->Ok_0;
    lemma_selected(o, e, names, c, b, c.count);
    law_filter_rows(o, c, e, names);
    law_selection(b, c.count);
    lemma_kept_len(o, e, names, rows_of(c), c.count);
    assert(rows_of(f).len() == f.count);
}

proof fn lemma_kept_len(
    o: spec_fn(Question) -> Answer,
    e: Expr,
    names: Seq<Seq<char>>,
    rows: Seq<Seq<Datum>>,
    n: nat,
)
    ensures
        kept_where(o, e, names, rows, n).len() <= n,
    decreases n,
{
    if n > 0 {
        lemma_kept_len(o, e, names, rows, (n - 1) as nat);
    }
}

/// Rows are kept part by part.
proof fn lemma_kept_parts(
    o: spec_fn(Question) -> Answer,
    e: Expr,
    names: Seq<Seq<char>>,
    a: Seq<Seq<Datum>>,
    b: Seq<Seq<Datum>>,
    n: nat,
)
    requires
        n <= b.len(),
    ensures
        kept_where(o, e, names, a + b, a.len() + n) == kept_where(o, e, names, a, a.len())
            + kept_where(o, e, names, b, n),
    decreases n,
{
    if n > 0 {
        lemma_kept_parts(o, e, names, a, b, (n - 1) as nat);
        assert((a + b)[a.len() + n - 1] == b[n - 1]);
        assert((a.len() + n - 1) as nat == a.len() + (n - 1) as nat);
    } else {
        lemma_kept_front(o, e, names, a, b, a.len());
    }
    assert(kept_where(o, e, names, a + b, a.len() + n) =~= kept_where(o, e, names, a, a.len())
        + kept_where(o, e, names, b, n));
}

proof fn lemma_kept_front(
    o: spec_fn(Question) -> Answer,
    e: Expr,
    names: Seq<Seq<char>>,
    a: Seq<Seq<Datum>>,
    b: Seq<Seq<Datum>>,
    n: nat,
)
    requires
        n <= a.len(),
    ensures
        kept_where(o, e, names, a + b, n) == kept_where(o, e, names, a, n),
    decreases n,
{
    if n > 0 {
        lemma_kept_front(o, e, names, a, b, (n - 1) as nat);
        assert((a + b)[n - 1] == a[n - 1]);
    }
}

/// Batches that are filtered have the rows that are kept.
proof fn lemma_filter_each(
    o: spec_fn(Question) -> Answer,
    e: Expr,
    names: Seq<Seq<char>>,
    cs: Seq<Chunk>,
    w: nat,
)
    requires
        regular(cs),
        countable(cs),
        sees_rows(o, e, names, cs),
        forall|k: int| 0 <= k < cs.len() ==> (#[trigger] cs[k]).columns.len() == w,
        filtered_all(o, cs, e, names) is Ok,
    ensures
        ({
            let fs = filtered_all(o, cs, e, names)->Ok_0;
            &&& regular(fs)
            &&& forall|k: int| 0 <= k < fs.len() ==> (#[trigger] fs[k]).columns.len() == w
            &&& rows_of_all(fs) == kept_where(
                o,
                e,
                names,
                rows_of_all(cs),
                rows_of_all(cs).len(),
            )
        }),
    decreases cs.len(),
{
    if cs.len() > 0 {
        let front = cs.drop_last();
        let c = cs.last();
        assert(c == cs[cs.len() - 1]);
        assert forall|k: int| 0 <= k < front.len() implies #[trigger] front[k] == cs[k] by {}
        assert forall|k: int| 0 <= k < front.len() implies aligned(#[trigger] front[k])
            && front[k].count <= usize::MAX && front[k].columns.len() == w by {
            assert(aligned(cs[k]));
        }
        let (a, b) = (rows_of_all(front), rows_of(c));
        assert(rows_of_all(cs) == a + b);
        lemma_filter_each(o, e, names, front, w);
        assert(aligned(c));
        lemma_filter_one(o, e, names, c);
        let done = filtered_all(o, front, e, names)->Ok_0;
        let f = filtered(o, c, e, names)->Ok_0;
        let fs = filtered_all(o, cs, e, names)->Ok_0;
        lemma_kept_parts(o, e, names, a, b, b.len());
        if f.count == 0 {
            assert(rows_of(f) =~= Seq::empty());
            assert(rows_of_all(done) =~= rows_of_all(done) + rows_of(f));
        } else {
            assert(fs == done.push(f));
            assert(fs.drop_last() =~= done);
            assert forall|k: int| 0 <= k < fs.len() implies aligned(#[trigger] fs[k])
                && fs[k].columns.len() == w by {
                if k < done.len() {
                    assert(fs[k] == done[k]);
                    assert(aligned(done[k]));
                }
            }
        }
    }
}

/// A condition that has a value on a batch has one on batches of rows of as many
/// columns.
proof fn lemma_filter_succeeds(
    o: spec_fn(Question) -> Answer,
    e: Expr,
    names: Seq<Seq<char>>,
    c: Chunk,
    ds: Seq<Chunk>,
)
    requires
        aligned(c),
        spread(c) || tells_no_constants(e) || has_value(o, e, names, c.columns.len()),
        eval(o, e, c, names) is Ok,
        forall|k: int|
            0 <= k < ds.len() ==> aligned(#[trigger] ds[k]) && spread(ds[k])
                && ds[k].columns.len() == c.columns.len(),
    ensures
        filtered_all(o, ds, e, names) is Ok,
    decreases ds.len(),
{
    if ds.len() > 0 {
        let front = ds.drop_last();
        assert forall|k: int| 0 <= k < front.len() implies aligned(#[trigger] front[k]) && spread(
            front[k],
        ) && front[k].columns.len() == c.columns.len() by {
            assert(front[k] == ds[k]);
        }
        lemma_filter_succeeds(o, e, names, c, front);
        let d = ds.last();
        assert(d == ds[ds.len() - 1]);
        lemma_has_value(o, e, names, d);
        lemma_same_rows(o, e, c, d, names, RowPair { n: c.count, i: -1, m: d.count, j: -1 });
    }
}

/// Rows in batches are regular, hold no constants, and can be counted.
proof fn lemma_framed(rows: Seq<Seq<Datum>>)
    ensures
        regular(framed(rows)),
        free_of_constants(framed(rows)),
        countable(framed(rows)),
        forall|k: int|
            0 <= k < framed(rows).len() ==> (#[trigger] framed(rows)[k]).columns.len() == width(
                rows,
            ),
{
    let ds = framed(rows);
    assert forall|k: int| 0 <= k < ds.len() implies aligned(#[trigger] ds[k]) && spread(ds[k])
        && ds[k].columns.len() == width(rows) && ds[k].count <= usize::MAX by {
        let b = batch(rows, k);
        assert(ds[k] == cut_chunk(b, width(rows)));
        assert(b.len() <= VECTOR_SIZE);
    }
}

/// Filtering batches gives the rows that filtering the same rows in other
/// batches gives.
pub proof fn law_filter_any_batches(
    o: spec_fn(Question) -> Answer,
    e: Expr,
    names: Seq<Seq<char>>,
    cs: Seq<Chunk>,
)
    requires
        regular(cs),
        countable(cs),
        sees_rows(o, e, names, cs),
        filtered_all(o, cs, e, names) is Ok,
    ensures
        ({
            let gs = filtered_all(o, framed(rows_of_all(cs)), e, names);
            gs is Ok && rows_in(gs->Ok_0) == rows_in(filtered_all(o, cs, e, names)->Ok_0)
        }),
{
    let rows = rows_of_all(cs);
    let ds = framed(rows);
    let w = if cs.len() == 0 {
        0
    } else {
        cs[0].columns.len()
    };
    lemma_filter_each(o, e, names, cs, w);
    lemma_regular(cs);
    law_frame_roundtrip(rows);
    if rows.len() > 0 {
        assert(cs.len() > 0) by {
            if cs.len() == 0 {
                assert(rows =~= Seq::empty());
            }
        }
        assert(rows[0].len() == w);
    }
    lemma_framed(rows);
    if ds.len() > 0 {
        assert(rows.len() > 0);
        let c = cs[0];
        assert(aligned(c));
        lemma_first_ok(o, e, names, cs);
        lemma_filter_succeeds(o, e, names, c, ds);
    } else {
        assert(ds =~= Seq::empty());
    }
    lemma_filter_each(o, e, names, ds, w);
    assert(rows_of_all(ds) == rows);
}

proof fn lemma_first_ok(
    o: spec_fn(Question) -> Answer,
    e: Expr,
    names: Seq<Seq<char>>,
    cs: Seq<Chunk>,
)
    requires
        cs.len() > 0,
        filtered_all(o, cs, e, names) is Ok,
    ensures
        eval(o, e, cs[0], names) is Ok,
    decreases cs.len(),
{
    if cs.len() > 1 {
        lemma_first_ok(o, e, names, cs.drop_last());
        assert(cs.drop_last()[0] == cs[0]);
    } else {
        assert(cs.last() == cs[0]);
    }
}

/// Whether the rows of batches have as many columns as other batches.
pub open spec fn as_wide(a: Seq<Chunk>, b: Seq<Chunk>) -> bool {
    a.len() > 0 && rows_in(b).len() > 0 ==> a[0].columns.len() == b[0].columns.len()
}

/// Whether references that name columns without their tables read from rows what
/// stands at the given positions.
pub open spec fn read_from(
    names: Seq<Seq<char>>,
    es: Seq<Expr>,
    at: Seq<usize>,
    rows: Seq<Seq<Datum>>,
) -> bool {
    rows.len() > 0 ==> (places(names, es, es.len()) matches Some(to) && forall|i: int|
        0 <= i < rows.len() ==> picked(#[trigger] rows[i], to) == picked(rows[i], at))
}

/// Whether a scan of a table makes a comparison where a condition makes it: the
/// scan reads the column, or no column that it reads has the name, or the rows
/// that pass are those of which the condition is true.
pub open spec fn compares_once(
    o: spec_fn(Question) -> Answer,
    t: Tbl,
    at: Seq<usize>,
    p: (Seq<char>, PredicateOp, Datum),
    e: Expr,
) -> bool {
    let names = names_picked(t.def.columns, at);
    let k = name_index(t.def.columns, p.0);
    let skip = match k {
        Some(k) => Some((k as usize, p.1, p.2)),
        None => None,
    };
    let rows = scanned(t, at, skip);
    ||| scanned_at(at, k)
    ||| !names.contains(p.0)
    ||| rows.len() == 0
    ||| k is Some && kept_where(o, e, names, rows, rows.len()) == rows
}

/// Whether a plan reads its columns one way only. The references of a projection
/// read the same columns without their tables, a condition that has a value on
/// batches has one on their rows, and a comparison that a scan makes is not made
/// on another column of that name. The sides of a union have the same names, and
/// rows with as many columns. Rows that are sorted can be counted.
pub open spec fn plain(o: spec_fn(Question) -> Answer, p: Plan, d: Db) -> bool
    decreases p,
{
    match p {
        Plan::Projection(x, es, _) => plain(o, *x, d) && (chunked(o, *x, d) matches Ok(Some(c))
            ==> (inputs_of(c.0, es, es.len()) matches Ok(at) ==> read_from(
            c.0,
            es,
            at,
            rows_in(c.1),
        ))),
        Plan::Filter(x, e) => match (*x, pushed(e)) {
            (
                Plan::Leaf(PhysicalPlan::TableScan { table_name, column_indices }),
                Some(q),
            ) => table_of(d, table_name@) matches Some(t) ==> compares_once(
                o,
                t,
                column_indices@,
                q,
                e,
            ),
            _ => plain(o, *x, d) && (chunked(o, *x, d) matches Ok(Some(c)) ==> sees_rows(
                o,
                e,
                c.0,
                straight(c.1),
            )),
        },
        Plan::Sort(x, _, _) => chunked(o, *x, d) matches Ok(Some(c)) ==> rows_in(c.1).len()
            <= usize::MAX,
        Plan::Limit(x, _) => plain(o, *x, d),
        Plan::SetUnion(_, l, r) => plain(o, *l, d) && plain(o, *r, d) && (match (
            chunked(o, *l, d),
            chunked(o, *r, d),
        ) {
            (Ok(Some(a)), Ok(Some(b))) => a.0 == b.0 && as_wide(a.1, b.1),
            _ => true,
        }),
        Plan::SubqueryScan(x) => plain(o, *x, d),
        _ => true,
    }
}

// Batches that plans give are even.

/// Whether the columns of batches are as long as their batches, and batches with
/// rows have as many columns as the first.
spec fn even(cs: Seq<Chunk>) -> bool {
    forall|k: int|
        0 <= k < cs.len() ==> aligned(#[trigger] cs[k]) && (cs[k].count > 0
            ==> cs[k].columns.len() == cs[0].columns.len())
}

/// Batches that have the same rows one by one have them together.
proof fn lemma_rows_each(a: Seq<Chunk>, b: Seq<Chunk>)
    requires
        a.len() == b.len(),
        forall|k: int| 0 <= k < a.len() ==> rows_of(#[trigger] a[k]) == rows_of(b[k]),
    ensures
        rows_of_all(a) == rows_of_all(b),
    decreases a.len(),
{
    if a.len() > 0 {
        let (x, y) = (a.drop_last(), b.drop_last());
        assert forall|k: int| 0 <= k < x.len() implies rows_of(#[trigger] x[k]) == rows_of(
            y[k],
        ) by {
            assert(x[k] == a[k] && y[k] == b[k]);
        }
        lemma_rows_each(x, y);
        assert(rows_of(a[a.len() - 1]) == rows_of(b[b.len() - 1]));
    }
}

/// Even batches keep their rows.
proof fn lemma_even(cs: Seq<Chunk>)
    requires
        even(cs),
    ensures
        rows_in(cs) == rows_of_all(cs),
{
    if !regular(cs) {
        let s = straight(cs);
        assert forall|k: int| 0 <= k < s.len() implies rows_of(#[trigger] s[k]) == rows_of(
            cs[k],
        ) by {
            let c = cs[k];
            assert(aligned(c));
            assert forall|i: int| 0 <= i < c.count implies #[trigger] rows_of(s[k])[i]
                == rows_of(c)[i] by {
                assert forall|j: int| 0 <= j < c.columns.len() implies rows_of(s[k])[i][j]
                    == rows_of(c)[i][j] by {
                    assert(col_len(c.columns[j]) == c.count);
                    assert(filled_rows(c)[i][j] == col_at(c.columns[j], i));
                }
                assert(rows_of(s[k])[i] =~= rows_of(c)[i]);
            }
            assert(rows_of(s[k]) =~= rows_of(c));
        }
        lemma_rows_each(s, cs);
    }
}

/// A batch with rows is among batches with rows.
proof fn lemma_some_rows(cs: Seq<Chunk>, k: int)
    requires
        0 <= k < cs.len(),
        cs[k].count > 0,
    ensures
        rows_of_all(cs).len() > 0,
    decreases cs.len(),
{
    if k < cs.len() - 1 {
        assert(cs.drop_last()[k] == cs[k]);
        lemma_some_rows(cs.drop_last(), k);
    } else {
        assert(cs.last() == cs[k]);
        assert(rows_of(cs[k]).len() == cs[k].count);
    }
}

/// Straight batches are regular.
proof fn lemma_straight(cs: Seq<Chunk>)
    ensures
        regular(straight(cs)),
{
    if !regular(cs) {
        let s = straight(cs);
        assert forall|k: int| 0 <= k < s.len() implies aligned(#[trigger] s[k])
            && s[k].columns.len() == s[0].columns.len() by {}
    }
}

/// Batches of rows of one length are regular.
pub proof fn lemma_batches_regular(rows: Seq<Seq<Datum>>)
    requires
        rectangular(rows),
    ensures
        regular(batches(rows)),
{
    let cs = batches(rows);
    lemma_rectangular_fits(rows);
    assert forall|k: int| 0 <= k < cs.len() implies aligned(#[trigger] cs[k])
        && cs[k].columns.len() == cs[0].columns.len() by {
        law_chunk_roundtrip(batch(rows, k));
        lemma_batch_bounds(rows, k);
        lemma_batch_bounds(rows, 0);
        assert(batch(rows, k)[0] == rows[k * VECTOR_SIZE]);
        assert(batch(rows, 0)[0] == rows[0]);
    }
}

proof fn lemma_filtered_regular(
    o: spec_fn(Question) -> Answer,
    e: Expr,
    names: Seq<Seq<char>>,
    cs: Seq<Chunk>,
    w: nat,
)
    requires
        regular(cs),
        forall|k: int| 0 <= k < cs.len() ==> (#[trigger] cs[k]).columns.len() == w,
    ensures
        filtered_all(o, cs, e, names) matches Ok(fs) ==> regular(fs) && forall|k: int|
            0 <= k < fs.len() ==> (#[trigger] fs[k]).columns.len() == w,
    decreases cs.len(),
{
    if cs.len() > 0 {
        let before = cs.drop_last();
        let c = cs.last();
        assert(before + seq![c] =~= cs);
        lemma_regular_parts(before, seq![c]);
        assert forall|k: int| 0 <= k < before.len() implies (#[trigger] before[k]).columns.len()
            == w by {
            assert(before[k] == cs[k]);
        }
        lemma_filtered_regular(o, e, names, before, w);
        assert(c == cs[cs.len() - 1]);
        assert(aligned(c));
        if let (Ok(done), Ok(f)) = (
            filtered_all(o, before, e, names),
            filtered(o, c, e, names),
        ) {
            let b = eval(o, e, c, names)->Ok_0;
            lemma_select_aligned(c, true_rows(b, c.count));
            let fs = done.push(f);
            assert forall|k: int| 0 <= k < fs.len() implies aligned(#[trigger] fs[k])
                && fs[k].columns.len() == w by {
                if k < done.len() {
                    assert(fs[k] == done[k]);
                    assert(aligned(done[k]));
                }
            }
        }
    }
}

proof fn lemma_sorted_regular(cs: Seq<Chunk>, keys: Seq<SortKey>, limit: Option<usize>)
    requires
        regular(cs),
        rows_of_all(cs).len() <= usize::MAX,
    ensures
        regular(sorted_chunks(cs, keys, limit)),
{
    let rows = rows_of_all(cs);
    if !(cs.len() == 0 || keys.len() == 0 || rows.len() <= 1) {
        let w = cs[0].columns.len();
        let ord = |a: Seq<Datum>, b: Seq<Datum>| row_order(a, b, keys, 0);
        lemma_regular(cs);
        law_sort_permutes(rows, ord, 0, rows.len() as int);
        let p = sorted_positions(rows, ord, 0, rows.len() as int);
        let all = sorted_rows(rows, ord);
        let some = ordered(rows, keys, limit);
        let cut = trimmed(some, w);
        assert forall|i: int| 0 <= i < all.len() implies (#[trigger] all[i]).len() == w by {
            assert(all[i] == rows[p[i] as int]);
        }
        assert forall|i: int| 0 <= i < cut.len() implies (#[trigger] cut[i]).len() == w by {
            assert(some[i] == all[i]);
        }
        lemma_batches_regular(cut);
    }
}

proof fn lemma_keys_wide(
    o: spec_fn(Question) -> Answer,
    cs: Seq<Chunk>,
    cols: Seq<usize>,
    aggs: Seq<(AggregateFunc, usize, bool)>,
    i: int,
)
    requires
        0 <= i < grouped_chunks(o, cs, cols, aggs, cs.len() as int).keys.len(),
    ensures
        grouped_chunks(o, cs, cols, aggs, cs.len() as int).keys[i].len() == cols.len(),
        grouped_chunks(o, cs, cols, aggs, cs.len() as int).states[i].len() == aggs.len(),
{
    let n = cs.len() as int;
    let g = grouped_chunks(o, cs, cols, aggs, n);
    let key = g.keys[i];
    law_groups(o, cs, cols, aggs, key, n);
    law_group_is_met(o, cs, cols, aggs, key, n);
    if row_position(g.keys, key, 0) is None {
        lemma_no_row(g.keys, key, 0, i);
    }
    let (k, r) = choose|k: int, r: int|
        0 <= k < n && 0 <= r < cs[k].count && #[trigger] group_key(cs[k], cols, r) == key;
    assert(group_key(cs[k], cols, r).len() == cols.len());
    assert(g.states[i].len() == aggs.len());
}

/// A row that is there has a position.
proof fn lemma_no_row(rows: Seq<Seq<Datum>>, row: Seq<Datum>, j: int, i: int)
    requires
        0 <= j <= i < rows.len(),
        rows[i] == row,
    ensures
        row_position(rows, row, j) is Some,
    decreases i - j,
{
    if j < i {
        lemma_no_row(rows, row, j + 1, i);
    }
}

proof fn lemma_met_wide(
    g: DistinctGroups,
    c: Chunk,
    cols: Seq<usize>,
    aggs: Seq<(AggregateFunc, usize, bool)>,
    n: int,
)
    requires
        forall|i: int| 0 <= i < g.keys.len() ==> (#[trigger] g.keys[i]).len() == cols.len(),
    ensures
        forall|i: int|
            0 <= i < met_chunk(g, c, cols, aggs, n).keys.len() ==> (#[trigger] met_chunk(
                g,
                c,
                cols,
                aggs,
                n,
            ).keys[i]).len() == cols.len(),
    decreases n,
{
    if n > 0 {
        lemma_met_wide(g, c, cols, aggs, n - 1);
        let before = met_chunk(g, c, cols, aggs, n - 1).keys;
        let after = met_chunk(g, c, cols, aggs, n).keys;
        assert forall|i: int| 0 <= i < after.len() implies (#[trigger] after[i]).len()
            == cols.len() by {
            if i < before.len() {
                assert(after[i] == before[i]);
            }
        }
    }
}

proof fn lemma_all_met_wide(
    cs: Seq<Chunk>,
    cols: Seq<usize>,
    aggs: Seq<(AggregateFunc, usize, bool)>,
    n: int,
)
    ensures
        forall|i: int|
            0 <= i < met_chunks(cs, cols, aggs, n).keys.len() ==> (#[trigger] met_chunks(
                cs,
                cols,
                aggs,
                n,
            ).keys[i]).len() == cols.len(),
    decreases n,
{
    if n > 0 {
        lemma_all_met_wide(cs, cols, aggs, n - 1);
        lemma_met_wide(
            met_chunks(cs, cols, aggs, n - 1),
            cs[n - 1],
            cols,
            aggs,
            cs[n - 1].count as int,
        );
    }
}

proof fn lemma_aggregated_regular(
    o: spec_fn(Question) -> Answer,
    cs: Seq<Chunk>,
    by: Seq<usize>,
    a: Seq<AggregateExpr>,
)
    ensures
        regular(aggregated_all(o, cs, by, a)),
{
    let aggs = triples(a);
    if by.len() == 0 {
        let c = aggregated_chunk(o, cs, aggs);
        if cs.len() > 0 {
            law_chunk_roundtrip(seq![Seq::new(aggs.len(), |j: int| aggregated(o, cs, aggs[j]))]);
        }
        assert(aligned(c));
        let all = seq![c];
        assert forall|k: int| 0 <= k < all.len() implies aligned(#[trigger] all[k])
            && all[k].columns.len() == all[0].columns.len() by {
            assert(all[k] == c);
        }
    } else if cs.len() > 0 {
        let w = by.len() + aggs.len();
        if any_distinct(aggs) {
            let g = met_chunks(cs, by, aggs, cs.len() as int);
            let rows = distinct_group_rows(o, g, aggs);
            lemma_all_met_wide(cs, by, aggs, cs.len() as int);
            assert forall|i: int| 0 <= i < rows.len() implies (#[trigger] rows[i]).len() == w by {
                assert(g.keys[i].len() == by.len());
            }
            lemma_batches_regular(rows);
        } else {
            let g = grouped_chunks(o, cs, by, aggs, cs.len() as int);
            let rows = group_rows(o, g);
            assert forall|i: int| 0 <= i < rows.len() implies (#[trigger] rows[i]).len() == w by {
                lemma_keys_wide(o, cs, by, aggs, i);
            }
            lemma_batches_regular(rows);
        }
    }
}

/// Even batches whose rows are as wide are even together.
proof fn lemma_even_add(a: Seq<Chunk>, b: Seq<Chunk>)
    requires
        even(a),
        even(b),
        as_wide(a, b),
    ensures
        even(a + b),
{
    let all = a + b;
    lemma_even(b);
    assert forall|k: int| 0 <= k < all.len() implies aligned(#[trigger] all[k]) && (all[k].count > 0
        ==> all[k].columns.len() == all[0].columns.len()) by {
        if k < a.len() {
            assert(all[k] == a[k] && all[0] == a[0]);
            assert(aligned(a[k]));
        } else {
            let j = k - a.len();
            assert(all[k] == b[j]);
            assert(aligned(b[j]));
            if b[j].count > 0 {
                lemma_some_rows(b, j);
            }
            if a.len() > 0 {
                assert(all[0] == a[0]);
            } else {
                assert(all[0] == b[0]);
            }
        }
    }
}

/// The batches that a plan gives are even.
proof fn lemma_chunked_even(o: spec_fn(Question) -> Answer, p: Plan, d: Db)
    requires
        plain(o, p, d),
    ensures
        chunked(o, p, d) matches Ok(Some(c)) ==> even(c.1),
    decreases p,
{
    if let Ok(Some(c)) = chunked(o, p, d) {
        match p {
            Plan::Projection(x, es, names) => {
                lemma_chunked_even(o, *x, d);
                let a = chunked(o, *x, d)->Ok_0->0;
                lemma_picked_rows(a.1, inputs_of(a.0, es, es.len())->Ok_0);
            },
            Plan::Filter(x, e) => {
                let s = match (*x, pushed(e)) {
                    (
                        Plan::Leaf(PhysicalPlan::TableScan { table_name, column_indices }),
                        Some(q),
                    ) => {
                        let t = table_of(d, table_name@)->0;
                        let skip = match name_index(t.def.columns, q.0) {
                            Some(k) => Some((k as usize, q.1, q.2)),
                            None => None,
                        };
                        framed(scanned(t, column_indices@, skip))
                    },
                    _ => straight((chunked(o, *x, d)->Ok_0->0).1),
                };
                lemma_straight((chunked(o, *x, d)->Ok_0->0).1);
                assert(regular(s));
                lemma_filtered_regular(o, e, c.0, s, if s.len() == 0 {
                    0
                } else {
                    s[0].columns.len()
                });
            },
            Plan::Sort(x, keys, limit) => {
                let a = chunked(o, *x, d)->Ok_0->0;
                lemma_straight(a.1);
                lemma_sorted_regular(straight(a.1), keys, limit);
            },
            Plan::Limit(x, n) => {
                lemma_chunked_even(o, *x, d);
                lemma_limited((chunked(o, *x, d)->Ok_0->0).1, n as nat, 0);
            },
            Plan::Aggregate(x, by, a) => {
                lemma_aggregated_regular(o, straight((chunked(o, *x, d)->Ok_0->0).1), by, a);
            },
            Plan::SetUnion(op, l, r) => {
                lemma_chunked_even(o, *l, d);
                lemma_chunked_even(o, *r, d);
                lemma_even_add(
                    (chunked(o, *l, d)->Ok_0->0).1,
                    (chunked(o, *r, d)->Ok_0->0).1,
                );
            },
            Plan::SubqueryScan(x) => lemma_chunked_even(o, *x, d),
            _ => {},
        }
    }
}

/// No more rows are true than there are.
proof fn lemma_true_count(b: Column, n: nat)
    ensures
        true_rows(b, n).len() <= n,
    decreases n,
{
    if n > 0 {
        lemma_true_count(b, (n - 1) as nat);
    }
}

proof fn lemma_filtered_countable(
    o: spec_fn(Question) -> Answer,
    e: Expr,
    names: Seq<Seq<char>>,
    cs: Seq<Chunk>,
)
    requires
        countable(cs),
    ensures
        filtered_all(o, cs, e, names) matches Ok(fs) ==> countable(fs),
    decreases cs.len(),
{
    if cs.len() > 0 {
        let before = cs.drop_last();
        let c = cs.last();
        assert(c == cs[cs.len() - 1]);
        assert(countable(before)) by {
            assert forall|k: int| 0 <= k < before.len() implies (#[trigger] before[k]).count
                <= usize::MAX by {
                assert(before[k] == cs[k]);
            }
        }
        lemma_filtered_countable(o, e, names, before);
        if let Ok(b) = eval(o, e, c, names) {
            lemma_true_count(b, c.count);
        }
    }
}

proof fn lemma_limited_countable(cs: Seq<Chunk>, n: nat, i: int)
    requires
        countable(cs),
        0 <= i,
    ensures
        countable(limited(cs, n, i)),
    decreases cs.len() - i,
{
    if n > 0 && i < cs.len() {
        let f = front_chunk(cs[i], n);
        let rest = limited(cs, (n - f.count) as nat, i + 1);
        lemma_limited_countable(cs, (n - f.count) as nat, i + 1);
        let all = seq![f] + rest;
        assert forall|k: int| 0 <= k < all.len() implies (#[trigger] all[k]).count
            <= usize::MAX by {
            if k > 0 {
                assert(all[k] == rest[k - 1]);
            }
        }
    }
}

/// Batches have no more rows one by one than together.
proof fn lemma_rows_countable(cs: Seq<Chunk>)
    requires
        rows_of_all(cs).len() <= usize::MAX,
    ensures
        countable(cs),
    decreases cs.len(),
{
    if cs.len() > 0 {
        let before = cs.drop_last();
        lemma_rows_countable(before);
        assert forall|k: int| 0 <= k < cs.len() implies (#[trigger] cs[k]).count
            <= usize::MAX by {
            if k < before.len() {
                assert(before[k] == cs[k]);
            } else {
                assert(cs[k] == cs.last());
            }
        }
    }
}

/// Batches of rows can be counted.
proof fn lemma_batches_countable(rows: Seq<Seq<Datum>>)
    ensures
        countable(batches(rows)),
        countable(framed(rows)),
{
    assert forall|k: int| 0 <= k < batches(rows).len() implies (#[trigger] batches(
        rows,
    )[k]).count <= usize::MAX by {
        assert(batch(rows, k).len() <= VECTOR_SIZE);
    }
    assert forall|k: int| 0 <= k < framed(rows).len() implies (#[trigger] framed(rows)[k]).count
        <= usize::MAX by {
        assert(batch(rows, k).len() <= VECTOR_SIZE);
    }
}

/// Straight batches can be counted where the batches can.
proof fn lemma_straight_countable(cs: Seq<Chunk>)
    requires
        countable(cs),
    ensures
        countable(straight(cs)),
{
    let s = straight(cs);
    assert forall|k: int| 0 <= k < s.len() implies (#[trigger] s[k]).count <= usize::MAX by {
        assert(s[k].count == cs[k].count);
    }
}

/// The rows of the batches that a plan gives can be counted.
proof fn lemma_countable(o: spec_fn(Question) -> Answer, p: Plan, d: Db)
    requires
        plain(o, p, d),
    ensures
        chunked(o, p, d) matches Ok(Some(c)) ==> countable(c.1) && countable(straight(c.1)),
    decreases p,
{
    if let Ok(Some(c)) = chunked(o, p, d) {
        match p {
            Plan::Leaf(PhysicalPlan::TableScan { table_name, column_indices }) => {
                lemma_batches_countable(
                    scanned(table_of(d, table_name@)->0, column_indices@, None),
                );
            },
            Plan::Projection(x, es, names) => {
                lemma_countable(o, *x, d);
                let a = chunked(o, *x, d)->Ok_0->0;
                assert forall|k: int| 0 <= k < c.1.len() implies (#[trigger] c.1[k]).count
                    <= usize::MAX by {
                    assert(a.1[k].count <= usize::MAX);
                }
            },
            Plan::Filter(x, e) => match (*x, pushed(e)) {
                (
                    Plan::Leaf(PhysicalPlan::TableScan { table_name, column_indices }),
                    Some(q),
                ) => {
                    let t = table_of(d, table_name@)->0;
                    let skip = match name_index(t.def.columns, q.0) {
                        Some(k) => Some((k as usize, q.1, q.2)),
                        None => None,
                    };
                    let rows = scanned(t, column_indices@, skip);
                    lemma_batches_countable(rows);
                    lemma_filtered_countable(o, e, c.0, framed(rows));
                },
                _ => {
                    lemma_countable(o, *x, d);
                    lemma_filtered_countable(
                        o,
                        e,
                        c.0,
                        straight((chunked(o, *x, d)->Ok_0->0).1),
                    );
                },
            },
            Plan::Sort(x, keys, limit) => {
                let s = straight((chunked(o, *x, d)->Ok_0->0).1);
                lemma_rows_countable(s);
                if s.len() > 0 {
                    lemma_batches_countable(
                        trimmed(ordered(rows_of_all(s), keys, limit), s[0].columns.len()),
                    );
                }
            },
            Plan::Limit(x, n) => {
                lemma_countable(o, *x, d);
                lemma_limited_countable((chunked(o, *x, d)->Ok_0->0).1, n as nat, 0);
            },
            Plan::Aggregate(x, by, a) => {
                let cs = straight((chunked(o, *x, d)->Ok_0->0).1);
                let aggs = triples(a);
                lemma_batches_countable(
                    distinct_group_rows(o, met_chunks(cs, by, aggs, cs.len() as int), aggs),
                );
                lemma_batches_countable(
                    group_rows(o, grouped_chunks(o, cs, by, aggs, cs.len() as int)),
                );
            },
            Plan::SetUnion(op, l, r) => {
                lemma_countable(o, *l, d);
                lemma_countable(o, *r, d);
                let (a, b) = (chunked(o, *l, d)->Ok_0->0, chunked(o, *r, d)->Ok_0->0);
                assert forall|k: int| 0 <= k < c.1.len() implies (#[trigger] c.1[k]).count
                    <= usize::MAX by {
                    if k < a.1.len() {
                        assert(c.1[k] == a.1[k]);
                    } else {
                        assert(c.1[k] == b.1[k - a.1.len()]);
                    }
                }
            },
            Plan::SubqueryScan(x) => lemma_countable(o, *x, d),
            _ => {},
        }
        assert(countable(c.1));
        lemma_straight_countable(c.1);
    }
}

/// The rows of batches behind batches.
pub proof fn lemma_rows_add(a: Seq<Chunk>, b: Seq<Chunk>)
    ensures
        rows_of_all(a + b) == rows_of_all(a) + rows_of_all(b),
    decreases b.len(),
{
    if b.len() > 0 {
        lemma_rows_add(a, b.drop_last());
        assert((a + b).drop_last() =~= a + b.drop_last());
        assert((a + b).last() == b.last());
        assert(rows_of_all(a + b) =~= rows_of_all(a) + rows_of_all(b));
    } else {
        assert(a + b =~= a);
        assert(rows_of_all(a + b) =~= rows_of_all(a) + rows_of_all(b));
    }
}

/// Batches that are regular together are regular.
proof fn lemma_regular_parts(a: Seq<Chunk>, b: Seq<Chunk>)
    requires
        regular(a + b),
    ensures
        regular(a),
        regular(b),
{
    let all = a + b;
    assert forall|k: int| 0 <= k < a.len() implies aligned(#[trigger] a[k]) && a[k].columns.len()
        == a[0].columns.len() by {
        assert(all[k] == a[k] && all[0] == a[0]);
        assert(aligned(all[k]));
    }
    assert forall|k: int| 0 <= k < b.len() implies aligned(#[trigger] b[k]) && b[k].columns.len()
        == b[0].columns.len() by {
        assert(all[a.len() + k] == b[k] && all[a.len() as int] == b[0]);
        assert(aligned(all[a.len() + k]));
    }
}

/// The rows of the first rows of batches from `i` on.
proof fn lemma_limited(cs: Seq<Chunk>, n: nat, i: int)
    requires
        even(cs),
        0 <= i <= cs.len(),
    ensures
        forall|k: int|
            0 <= k < limited(cs, n, i).len() ==> aligned(#[trigger] limited(cs, n, i)[k]) && (
            limited(cs, n, i)[k].count > 0 ==> limited(cs, n, i)[k].columns.len()
                == cs[0].columns.len()),
        i == 0 ==> even(limited(cs, n, i)),
        rows_of_all(limited(cs, n, i)) == front(
            rows_of_all(cs.subrange(i, cs.len() as int)),
            n as int,
        ),
    decreases cs.len() - i,
{
    let tail = cs.subrange(i, cs.len() as int);
    let rows = rows_of_all(tail);
    let lim = limited(cs, n, i);
    if i >= cs.len() {
        assert(tail =~= Seq::empty());
        assert(front(rows, n as int) =~= Seq::empty());
    } else if n == 0 {
        assert(front(rows, 0) =~= Seq::empty());
    } else {
        let f = front_chunk(cs[i], n);
        let rest = limited(cs, (n - f.count) as nat, i + 1);
        let behind = cs.subrange(i + 1, cs.len() as int);
        lemma_limited(cs, (n - f.count) as nat, i + 1);
        assert(tail =~= seq![cs[i]] + behind);
        lemma_rows_add(seq![cs[i]], behind);
        lemma_rows_add(seq![f], rest);
        lemma_rows_one(cs[i]);
        lemma_rows_one(f);
        assert(aligned(cs[i]));
        assert(aligned(f)) by {
            assert forall|j: int| 0 <= j < f.columns.len() implies col_len(
                #[trigger] f.columns[j],
            ) == f.count by {
                assert(col_len(cs[i].columns[j]) == cs[i].count);
            }
        }
        assert(rows_of(f) =~= rows_of(cs[i]).subrange(0, f.count as int)) by {
            assert forall|r: int| 0 <= r < f.count implies #[trigger] rows_of(f)[r] == rows_of(
                cs[i],
            )[r] by {
                assert(rows_of(f)[r] =~= rows_of(cs[i])[r]) by {
                    assert forall|j: int| 0 <= j < f.columns.len() implies rows_of(f)[r][j]
                        == rows_of(cs[i])[r][j] by {
                        assert(col_len(cs[i].columns[j]) == cs[i].count);
                    }
                }
            }
        }
        assert forall|k: int| 0 <= k < lim.len() implies aligned(#[trigger] lim[k]) && (
        lim[k].count > 0 ==> lim[k].columns.len() == cs[0].columns.len()) by {
            if k > 0 {
                assert(lim[k] == rest[k - 1]);
                assert(aligned(rest[k - 1]));
            } else {
                assert(lim[0] == f);
            }
        }
        if i == 0 {
            assert(lim[0] == f);
        }
        let more = rows_of_all(behind);
        assert(rows == rows_of(cs[i]) + more);
        if n < cs[i].count {
            assert((n - f.count) as nat == 0);
            assert(rest =~= Seq::empty());
            assert(rows_of_all(lim) =~= rows_of(f));
            assert(front(rows, n as int) =~= rows_of(f));
        } else {
            assert(rows_of(f) =~= rows_of(cs[i]));
            assert(rows_of_all(lim) =~= rows_of(cs[i]) + front(more, n - cs[i].count));
            assert(front(rows, n as int) =~= rows_of(cs[i]) + front(more, n - cs[i].count));
        }
    }
}

/// The rows of one batch.
proof fn lemma_rows_one(c: Chunk)
    ensures
        rows_of_all(seq![c]) == rows_of(c),
{
    let cs = seq![c];
    assert(cs.drop_last() =~= Seq::empty());
    assert(rows_of_all(cs.drop_last()) =~= Seq::empty());
    assert(cs.last() == c);
    assert(rows_of_all(cs) =~= rows_of(c));
}

/// The rows of some columns of batches.
proof fn lemma_picked_rows(cs: Seq<Chunk>, at: Seq<usize>)
    requires
        all_aligned(cs),
    ensures
        ({
            let ps = Seq::new(cs.len(), |k: int| picked_chunk(cs[k], at));
            let rows = rows_of_all(cs);
            &&& regular(ps)
            &&& rows_of_all(ps) == Seq::new(rows.len(), |i: int| picked(rows[i], at))
        }),
    decreases cs.len(),
{
    let ps = Seq::new(cs.len(), |k: int| picked_chunk(cs[k], at));
    let rows = rows_of_all(cs);
    assert forall|k: int| 0 <= k < ps.len() implies aligned(#[trigger] ps[k])
        && ps[k].columns.len() == ps[0].columns.len() by {
        assert(aligned(cs[k]));
        let c = picked_chunk(cs[k], at);
        assert forall|j: int| 0 <= j < c.columns.len() implies col_len(
            #[trigger] c.columns[j],
        ) == c.count by {
            if at[j] < cs[k].columns.len() {
                assert(col_len(cs[k].columns[at[j] as int])
                    == cs[k].count);
            }
        }
    }
    if cs.len() > 0 {
        let before = cs.drop_last();
        assert forall|k: int| 0 <= k < before.len() implies aligned(#[trigger] before[k]) by {
            assert(before[k] == cs[k]);
        }
        assert(aligned(cs[cs.len() - 1]));
        lemma_picked_rows(before, at);
        let qs = Seq::new(before.len(), |k: int| picked_chunk(before[k], at));
        assert(ps.drop_last() =~= qs);
        let c = cs.last();
        let q = picked_chunk(c, at);
        assert(ps.last() == q);
        let (a, b) = (rows_of_all(before), rows_of(c));
        assert(rows == a + b);
        let want = Seq::new(rows.len(), |i: int| picked(rows[i], at));
        assert forall|i: int| 0 <= i < want.len() implies rows_of_all(ps)[i] == want[i] by {
            if i < a.len() {
                assert(rows[i] == a[i]);
            } else {
                let r = i - a.len();
                assert(rows[i] == b[r]);
                assert(rows_of(q)[r] =~= picked(b[r], at));
            }
        }
        assert(rows_of_all(ps) =~= want);
    } else {
        assert(ps =~= Seq::empty());
        assert(rows_of_all(ps) =~= Seq::new(rows.len(), |i: int| picked(rows[i], at)));
    }
}

/// A scan with a comparison gives the same rows both ways.
proof fn lemma_pushed(
    o: spec_fn(Question) -> Answer,
    d: Db,
    table: Seq<char>,
    at: Seq<usize>,
    e: Expr,
)
    requires
        pushed(e) is Some,
        pushed_scan(o, d, table, at, pushed(e)->0, e) is Ok,
        table_of(d, table) matches Some(t) ==> compares_once(o, t, at, pushed(e)->0, e),
    ensures
        ({
            let c = pushed_scan(o, d, table, at, pushed(e)->0, e)->Ok_0;
            scanned_where(d, table, at, pushed(e)->0) == Ok::<Query, Fault>(
                listed(c.0, rows_in(c.1)),
            )
        }),
{
    reveal(scanned_where);
    let t = table_of(d, table)->0;
    let columns = t.def.columns;
    let (name, p, v) = pushed(e)->0;
    let names = names_picked(columns, at);
    let k = name_index(columns, name);
    lemma_first_from(columns, |c: ColumnModel| c.name == name, 0);
    let skip = match k {
        Some(k) => Some((k as usize, p, v)),
        None => None,
    };
    let rows = scanned(t, at, skip);
    assert(rectangular(rows)) by {
        let passed = passing(live(t.slots, t.slots.len()), skip, live(t.slots, t.slots.len()).len());
        assert forall|x: int| 0 <= x < rows.len() implies (#[trigger] rows[x]).len() == at.len() by {
            assert(rows[x] == picked(passed[x].1, at));
        }
    }
    law_frame_roundtrip(rows);
    if !scanned_at(at, k) {
        let cs = framed(rows);
        if rows.len() > 0 && names.contains(name) {
            lemma_framed(rows);
            lemma_filter_each(o, e, names, cs, rows[0].len());
        } else if rows.len() > 0 {
            assert forall|i: int| 0 <= i < names.len() implies names[i] != name by {
                assert(names.contains(names[i]));
            }
            lemma_no_name(names, name, 0);
            let l = *(e->Binary_0);
            assert forall|x: int| 0 <= x < cs.len() implies eval(o, e, #[trigger] cs[x], names)
                == Err::<Column, Fault>(Fault::ColumnNotFound(name)) by {
                assert(eval(o, l, cs[x], names) == Err::<Column, Fault>(
                    Fault::ColumnNotFound(name),
                ));
            }
            lemma_all_fail(o, cs, e, names, Fault::ColumnNotFound(name));
        } else {
            assert(cs =~= Seq::empty());
            assert(rows_in(Seq::empty()) =~= Seq::empty());
            assert(rows =~= Seq::empty());
        }
    }
}

/// Whether a plan gives the same row by row as batch by batch.
spec fn agrees(o: spec_fn(Question) -> Answer, p: Plan, g: Given, d: Db) -> bool {
    chunked(o, p, d) matches Ok(Some(c)) ==> ran(o, p, g, d) == (
        Ok::<Query, Fault>(listed(c.0, rows_in(c.1))),
        d,
    )
}

proof fn lemma_leaf(o: spec_fn(Question) -> Answer, x: PhysicalPlan, g: Given, d: Db)
    ensures
        agrees(o, Plan::Leaf(x), g, d),
{
    match x {
        PhysicalPlan::TableScan { table_name, column_indices } => {
            if let Some(t) = table_of(d, table_name@) {
                let at = column_indices@;
                let rows = scanned(t, at, None);
                assert(rectangular(rows)) by {
                    law_scan_reads_all(t, at);
                    let all = live(t.slots, t.slots.len());
                    assert forall|x: int| 0 <= x < rows.len() implies (#[trigger] rows[x]).len()
                        == at.len() by {
                        assert(rows[x] == picked(all[x].1, at));
                    }
                }
                law_frame_roundtrip(rows);
            }
        },
        PhysicalPlan::CountStar { output_name, count } => {
            let c = chunked(o, Plan::Leaf(x), d)->Ok_0->0;
            let f = c.1[0];
            assert(c.1 =~= seq![f]);
            assert(regular(c.1));
            lemma_rows_one(f);
            assert(rows_of(f) =~= seq![seq![Datum::Int64(count)]]) by {
                assert(rows_of(f)[0] =~= seq![Datum::Int64(count)]);
            }
        },
        _ => {},
    }
}

proof fn lemma_projection(
    o: spec_fn(Question) -> Answer,
    x: Plan,
    es: Seq<Expr>,
    names: Seq<Seq<char>>,
    g: Given,
    d: Db,
)
    requires
        agrees(o, x, g, d),
        plain(o, Plan::Projection(Box::new(x), es, names), d),
    ensures
        agrees(o, Plan::Projection(Box::new(x), es, names), g, d),
{
    let p = Plan::Projection(Box::new(x), es, names);
    if let Ok(Some(c)) = chunked(o, p, d) {
        let a = chunked(o, x, d)->Ok_0->0;
        lemma_chunked_even(o, x, d);
        let at = inputs_of(a.0, es, es.len())->Ok_0;
        let rows = rows_of_all(a.1);
        lemma_picked_rows(a.1, at);
        lemma_even(a.1);
        assert(rows_in(c.1) == Seq::new(rows.len(), |i: int| picked(rows[i], at)));
        if rows.len() == 0 {
            assert(framed(rows) =~= Seq::empty());
            assert(rows_in(Seq::empty()) =~= Seq::empty());
            assert(rows_in(c.1) =~= Seq::empty());
        } else {
            let to = places(a.0, es, es.len())->0;
            assert(Seq::new(rows.len(), |i: int| picked(rows[i], to)) =~= rows_in(c.1));
        }
    }
}

proof fn lemma_filter(
    o: spec_fn(Question) -> Answer,
    x: Plan,
    e: Expr,
    g: Given,
    d: Db,
)
    requires
        agrees(o, x, g, d),
        plain(o, Plan::Filter(Box::new(x), e), d),
    ensures
        agrees(o, Plan::Filter(Box::new(x), e), g, d),
{
    let p = Plan::Filter(Box::new(x), e);
    if let Ok(Some(c)) = chunked(o, p, d) {
        match (x, pushed(e)) {
            (
                Plan::Leaf(PhysicalPlan::TableScan { table_name, column_indices }),
                Some(_),
            ) => {
                lemma_pushed(o, d, table_name@, column_indices@, e);
            },
            _ => {
                let a = chunked(o, x, d)->Ok_0->0;
                lemma_straight(a.1);
                lemma_countable(o, x, d);
                law_filter_any_batches(o, e, a.0, straight(a.1));
            },
        }
    }
}

proof fn lemma_limit(o: spec_fn(Question) -> Answer, x: Plan, n: usize, g: Given, d: Db)
    requires
        agrees(o, x, g, d),
        plain(o, Plan::Limit(Box::new(x), n), d),
    ensures
        agrees(o, Plan::Limit(Box::new(x), n), g, d),
{
    if let Ok(Some(c)) = chunked(o, Plan::Limit(Box::new(x), n), d) {
        let a = chunked(o, x, d)->Ok_0->0;
        lemma_chunked_even(o, x, d);
        lemma_limited(a.1, n as nat, 0);
        lemma_even(a.1);
        lemma_even(c.1);
        assert(a.1.subrange(0, a.1.len() as int) =~= a.1);
    }
}

proof fn lemma_union(
    o: spec_fn(Question) -> Answer,
    op: SetUnionOp,
    l: Plan,
    r: Plan,
    g: Given,
    d: Db,
)
    requires
        agrees(o, l, g, d),
        agrees(o, r, g, d),
        plain(o, Plan::SetUnion(op, Box::new(l), Box::new(r)), d),
    ensures
        agrees(o, Plan::SetUnion(op, Box::new(l), Box::new(r)), g, d),
{
    if let Ok(Some(c)) = chunked(o, Plan::SetUnion(op, Box::new(l), Box::new(r)), d) {
        let (a, b) = (chunked(o, l, d)->Ok_0->0, chunked(o, r, d)->Ok_0->0);
        lemma_chunked_even(o, l, d);
        lemma_chunked_even(o, r, d);
        lemma_even_add(a.1, b.1);
        lemma_even(a.1);
        lemma_even(b.1);
        lemma_even(c.1);
        lemma_rows_add(a.1, b.1);
    }
}

proof fn lemma_agrees(o: spec_fn(Question) -> Answer, p: Plan, g: Given, d: Db)
    requires
        plain(o, p, d),
    ensures
        agrees(o, p, g, d),
    decreases p,
{
    match p {
        Plan::Leaf(x) => lemma_leaf(o, x, g, d),
        Plan::Projection(x, es, names) => {
            lemma_agrees(o, *x, g, d);
            lemma_projection(o, *x, es, names, g, d);
        },
        Plan::Filter(x, e) => {
            match (*x, pushed(e)) {
                (Plan::Leaf(PhysicalPlan::TableScan { .. }), Some(_)) => {
                    lemma_leaf(o, x->Leaf_0, g, d);
                },
                _ => lemma_agrees(o, *x, g, d),
            }
            lemma_filter(o, *x, e, g, d);
        },
        Plan::Limit(x, n) => {
            lemma_agrees(o, *x, g, d);
            lemma_limit(o, *x, n, g, d);
        },
        Plan::SetUnion(op, l, r) => {
            lemma_agrees(o, *l, g, d);
            lemma_agrees(o, *r, g, d);
            lemma_union(o, op, *l, *r, g, d);
        },
        Plan::SubqueryScan(x) => lemma_agrees(o, *x, g, d),
        _ => {},
    }
}

/// A plan that is executed batch by batch gives the names and the rows, in
/// their order, that it gives row by row, and leaves the database as it is.
pub proof fn law_batches_as_rows(o: spec_fn(Question) -> Answer, p: Plan, g: Given, d: Db)
    requires
        plain(o, p, d),
        chunked(o, p, d) matches Ok(Some(_)),
    ensures
        ({
            let c = chunked(o, p, d)->Ok_0->0;
            ran(o, p, g, d) == (Ok::<Query, Fault>(listed(c.0, rows_in(c.1))), d)
        }),
{
    lemma_agrees(o, p, g, d);
}

} // verus!
