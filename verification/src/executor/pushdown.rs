//! A comparison made by a scan, and the same comparison made above it.
use vstd::prelude::*;

use crate::common::error::Fault;
use crate::common::types::{lemma_first_from, name_index, ColumnModel};
use crate::executor::columnar::{names_picked, pushed, pushed_scan, scanned_at};
use crate::executor::env::{Answer, Question};
use crate::executor::expression::eval::{eval, name_at, true_rows};
use crate::executor::expression::ops::{binary, compared};
use crate::executor::executor::scanned_where;
use crate::executor::framing::{framed, law_frame_roundtrip, rows_in, straight, width};
use crate::executor::operators::filter::{all_aligned, filtered, filtered_all, law_filter_rows};
use crate::executor::operators::hash_join::{cell_of, cut_chunk};
use crate::executor::operators::table_scan::{
    law_scan_reads_all, operator_of, passes, passing, scanned, PredicateOp,
};
use crate::executor::relational::filter_query;
use crate::executor::vector::{
    aligned, batch, batch_count, rectangular, row_of, rows_of, rows_of_all, Chunk, Column,
    VECTOR_SIZE,
};
use crate::query::listed;
use crate::sql::ast::{BinaryOperator, Expr};
use crate::storage::database::{table_of, Db};
use crate::storage::table::{live, picked, picked_rows};
use crate::value::Datum;

verus! {

/// The rows among the first `n` whose column `j` passes a comparison.
pub open spec fn kept(
    rows: Seq<Seq<Datum>>,
    j: int,
    op: BinaryOperator,
    d: Datum,
    n: nat,
) -> Seq<Seq<Datum>>
    decreases n,
{
    if n == 0 {
        Seq::empty()
    } else {
        let before = kept(rows, j, op, d, (n - 1) as nat);
        if compared(cell_of(rows[n - 1], j), op, d) == Datum::Boolean(true) {
            before.push(rows[n - 1])
        } else {
            before
        }
    }
}

/// Picking columns from the rows that pass is keeping those of the picked
/// rows that pass.
proof fn lemma_passing_picked(
    rows: Seq<(u64, Seq<Datum>)>,
    at: Seq<usize>,
    j: int,
    p: PredicateOp,
    d: Datum,
    n: nat,
)
    requires
        0 <= j < at.len(),
        n <= rows.len(),
    ensures
        picked_rows(passing(rows, Some((at[j], p, d)), n), at) == kept(
            picked_rows(rows, at),
            j,
            operator_of(p),
            d,
            n,
        ),
    decreases n,
{
    let skip = Some((at[j], p, d));
    let all = picked_rows(rows, at);
    if n > 0 {
        lemma_passing_picked(rows, at, j, p, d, (n - 1) as nat);
        let before = passing(rows, skip, (n - 1) as nat);
        let row = rows[n - 1];
        assert(all[n - 1] == picked(row.1, at));
        assert(all[n - 1][j] == cell_of(row.1, at[j] as int));
        if passes(row.1, skip) {
            assert(picked_rows(before.push(row), at) =~= picked_rows(before, at).push(all[n - 1]));
        }
    }
    assert(picked_rows(passing(rows, skip, n), at) =~= kept(all, j, operator_of(p), d, n));
}

/// Rows are kept part by part.
proof fn lemma_kept_parts(
    rows: Seq<Seq<Datum>>,
    part: Seq<Seq<Datum>>,
    a: nat,
    j: int,
    op: BinaryOperator,
    d: Datum,
    n: nat,
)
    requires
        n <= part.len(),
        a + n <= rows.len(),
        forall|i: int| 0 <= i < n ==> (#[trigger] part[i]) == rows[a + i],
    ensures
        kept(rows, j, op, d, a + n) == kept(rows, j, op, d, a) + kept(part, j, op, d, n),
    decreases n,
{
    if n > 0 {
        lemma_kept_parts(rows, part, a, j, op, d, (n - 1) as nat);
        assert(part[n - 1] == rows[a + n - 1]);
        assert((a + n - 1) as nat == a + (n - 1) as nat);
    }
    assert(kept(rows, j, op, d, a + n) =~= kept(rows, j, op, d, a) + kept(part, j, op, d, n));
}

/// The rows that a column of truth values selects are those that are kept.
proof fn lemma_selected(
    rows: Seq<Seq<Datum>>,
    b: Column,
    j: int,
    op: BinaryOperator,
    d: Datum,
    n: nat,
)
    requires
        n <= rows.len() <= usize::MAX,
        b matches Column::Flat(s) && s.len() == rows.len() && forall|i: int|
            0 <= i < s.len() ==> (#[trigger] s[i]) == compared(cell_of(rows[i], j), op, d),
    ensures
        Seq::new(true_rows(b, n).len(), |i: int| rows[true_rows(b, n)[i] as int]) == kept(
            rows,
            j,
            op,
            d,
            n,
        ),
    decreases n,
{
    let s = b->Flat_0;
    if n > 0 {
        lemma_selected(rows, b, j, op, d, (n - 1) as nat);
        assert(s[n - 1] == compared(cell_of(rows[n - 1], j), op, d));
    }
    assert(Seq::new(true_rows(b, n).len(), |i: int| rows[true_rows(b, n)[i] as int]) =~= kept(
        rows,
        j,
        op,
        d,
        n,
    ));
}

/// Whether a condition compares the column in position `j` with a literal.
pub open spec fn compares(
    e: Expr,
    names: Seq<Seq<char>>,
    j: int,
    op: BinaryOperator,
    d: Datum,
) -> bool {
    &&& e matches Expr::Binary(l, x, r) && x == op && *r == Expr::Literal(d) && (
    *l matches Expr::ColumnRef(_, name) && name_at(names, name, 0) == Some(j))
    &&& op == BinaryOperator::Eq || op == BinaryOperator::Lt || op == BinaryOperator::LtEq || op
        == BinaryOperator::Gt || op == BinaryOperator::GtEq
}

/// A batch filtered by a comparison has the rows that are kept.
proof fn lemma_filter_one(
    o: spec_fn(Question) -> Answer,
    rows: Seq<Seq<Datum>>,
    w: nat,
    e: Expr,
    names: Seq<Seq<char>>,
    j: int,
    op: BinaryOperator,
    d: Datum,
)
    requires
        rows.len() <= usize::MAX,
        0 <= j < w,
        forall|i: int| 0 <= i < rows.len() ==> (#[trigger] rows[i]).len() == w,
        compares(e, names, j, op, d),
    ensures
        ({
            let f = filtered(o, cut_chunk(rows, w), e, names);
            &&& f is Ok
            &&& aligned(f->Ok_0)
            &&& f->Ok_0.columns.len() == w
            &&& rows_of(f->Ok_0) == kept(rows, j, op, d, rows.len())
        }),
{
    let c = cut_chunk(rows, w);
    let (l, r) = (*(e->Binary_0), *(e->Binary_2));
    assert(eval(o, l, c, names) == Ok::<Column, Fault>(c.columns[j]));
    assert(eval(o, r, c, names) == Ok::<Column, Fault>(Column::Constant(d, c.count)));
    let b = eval(o, e, c, names)->Ok_0;
    let s = b->Flat_0;
    assert forall|i: int| 0 <= i < s.len() implies (#[trigger] s[i]) == compared(
        cell_of(rows[i], j),
        op,
        d,
    ) by {
        assert(s[i] == binary(o, cell_of(rows[i], j), op, d));
    }
    lemma_selected(rows, b, j, op, d, rows.len());
    law_filter_rows(o, c, e, names);
    let sel = true_rows(b, c.count);
    crate::executor::expression::eval::law_selection(b, c.count);
    assert(Seq::new(sel.len(), |i: int| row_of(c, sel[i] as int)) =~= Seq::new(
        sel.len(),
        |i: int| rows[sel[i] as int],
    )) by {
        assert forall|i: int| 0 <= i < sel.len() implies row_of(c, #[trigger] sel[i] as int)
            == rows[sel[i] as int] by {
            assert(row_of(c, sel[i] as int) =~= rows[sel[i] as int]);
        }
    }
}

/// The first `n` batches filtered by a comparison have the rows that are kept.
proof fn lemma_filter_front(
    o: spec_fn(Question) -> Answer,
    rows: Seq<Seq<Datum>>,
    e: Expr,
    names: Seq<Seq<char>>,
    j: int,
    op: BinaryOperator,
    d: Datum,
    n: int,
)
    requires
        rectangular(rows),
        0 <= n <= batch_count(rows.len()),
        rows.len() > 0 ==> 0 <= j < width(rows),
        compares(e, names, j, op, d),
    ensures
        ({
            let f = filtered_all(o, framed(rows).subrange(0, n), e, names);
            &&& f is Ok
            &&& all_aligned(f->Ok_0)
            &&& forall|k: int|
                0 <= k < f->Ok_0.len() ==> (#[trigger] f->Ok_0[k]).columns.len() == width(rows)
            &&& rows_of_all(f->Ok_0) == kept(
                rows,
                j,
                op,
                d,
                if n * VECTOR_SIZE <= rows.len() {
                    (n * VECTOR_SIZE) as nat
                } else {
                    rows.len()
                },
            )
        }),
    decreases n,
{
    let cs = framed(rows);
    if n > 0 {
        lemma_filter_front(o, rows, e, names, j, op, d, n - 1);
        let part = cs.subrange(0, n);
        assert(part.drop_last() =~= cs.subrange(0, n - 1));
        assert(part.last() == cs[n - 1]);
        let b = batch(rows, n - 1);
        let a = ((n - 1) * VECTOR_SIZE) as nat;
        assert(a <= rows.len());
        assert forall|i: int| 0 <= i < b.len() implies (#[trigger] b[i]).len() == width(rows)
            && b[i] == rows[a + i] by {
            assert(b[i] == rows[a + i]);
        }
        lemma_filter_one(o, b, width(rows), e, names, j, op, d);
        lemma_kept_parts(rows, b, a, j, op, d, b.len());
        let done = filtered_all(o, cs.subrange(0, n - 1), e, names)->Ok_0;
        let g = filtered(o, cs[n - 1], e, names)->Ok_0;
        assert(rows_of(g).len() == g.count);
        if g.count > 0 {
            let next = done.push(g);
            assert(next.drop_last() =~= done);
            assert(filtered_all(o, part, e, names)->Ok_0 == next);
        } else {
            assert(kept(b, j, op, d, b.len()) =~= Seq::empty());
            assert(rows_of_all(done) =~= rows_of_all(done) + Seq::<Seq<Datum>>::empty());
        }
    }
}

/// The first column of a name is found where there is one.
proof fn lemma_name_at(names: Seq<Seq<char>>, name: Seq<char>, i: int, k: int)
    requires
        0 <= i <= k < names.len(),
        names[k] == name,
    ensures
        name_at(names, name, i) matches Some(j) && i <= j <= k && names[j] == name,
    decreases k - i,
{
    if names[i] != name {
        lemma_name_at(names, name, i + 1, k);
    }
}

/// A comparison that a scan makes in the place of a condition leaves just the
/// rows that the condition leaves: no row is missed, and none is too much.
pub proof fn law_pushed_scan(
    o: spec_fn(Question) -> Answer,
    db: Db,
    table: Seq<char>,
    at: Seq<usize>,
    e: Expr,
)
    requires
        table_of(db, table) is Some,
        pushed(e) is Some,
        ({
            let columns = table_of(db, table)->0.def.columns;
            &&& scanned_at(at, name_index(columns, (pushed(e)->0).0))
            &&& forall|i: int| 0 <= i < at.len() ==> (#[trigger] at[i]) < columns.len()
            &&& forall|a: int, b: int|
                0 <= a < b < columns.len() ==> (#[trigger] columns[a]).name != (
                #[trigger] columns[b]).name
        }),
    ensures
        ({
            let t = table_of(db, table)->0;
            let names = names_picked(t.def.columns, at);
            let p = pushed_scan(o, db, table, at, pushed(e)->0, e);
            let f = filtered_all(o, framed(scanned(t, at, None)), e, names);
            &&& p is Ok
            &&& f is Ok
            &&& p->Ok_0.0 == names
            &&& rows_in(p->Ok_0.1) == rows_in(f->Ok_0)
        }),
{
    let t = table_of(db, table)->0;
    let columns = t.def.columns;
    let names = names_picked(columns, at);
    let (name, p, d) = pushed(e)->0;
    let k = name_index(columns, name)->0;
    lemma_first_from(columns, |c: ColumnModel| c.name == name, 0);
    let i = choose|i: int| 0 <= i < at.len() && #[trigger] at[i] == k;
    assert(names[i] == name);
    lemma_name_at(names, name, 0, i);
    let j = name_at(names, name, 0)->0;
    assert(at[j] < columns.len());
    assert(columns[at[j] as int].name == name);
    assert(at[j] == k);
    let op = operator_of(p);
    assert(compares(e, names, j, op, d));
    let rows = live(t.slots, t.slots.len());
    let all = scanned(t, at, None);
    law_scan_reads_all(t, at);
    assert(all == picked_rows(rows, at));
    assert(rectangular(all)) by {
        assert forall|x: int| 0 <= x < all.len() implies (#[trigger] all[x]).len() == at.len() by {
            assert(all[x] == picked(rows[x].1, at));
        }
    }
    if all.len() > 0 {
        assert(all[0] == picked(rows[0].1, at));
    }
    lemma_filter_front(o, all, e, names, j, op, d, batch_count(all.len()) as int);
    assert(framed(all).subrange(0, batch_count(all.len()) as int) =~= framed(all));
    let f = filtered_all(o, framed(all), e, names)->Ok_0;
    assert(straight(f) == f);
    assert(rows_of_all(f) == kept(all, j, op, d, all.len())) by {
        assert(batch_count(all.len()) * VECTOR_SIZE >= all.len());
    }
    lemma_passing_picked(rows, at, j, p, d, rows.len());
    let less = scanned(t, at, Some((k as usize, p, d)));
    assert(less == kept(all, j, op, d, all.len()));
    assert(rectangular(less)) by {
        let passed = passing(rows, Some((k as usize, p, d)), rows.len());
        assert forall|x: int| 0 <= x < less.len() implies (#[trigger] less[x]).len() == at.len() by {
            assert(less[x] == picked(passed[x].1, at));
        }
    }
    law_frame_roundtrip(less);
}

/// A filter on a scan, executed as a scan with a comparison, gives what the
/// filter gives on all rows of the scan.
pub proof fn law_filtered_scan(
    o: spec_fn(Question) -> Answer,
    db: Db,
    table: Seq<char>,
    at: Seq<usize>,
    e: Expr,
)
    requires
        table_of(db, table) is Some,
        pushed(e) is Some,
        ({
            let columns = table_of(db, table)->0.def.columns;
            &&& scanned_at(at, name_index(columns, (pushed(e)->0).0))
            &&& forall|i: int| 0 <= i < at.len() ==> (#[trigger] at[i]) < columns.len()
            &&& forall|a: int, b: int|
                0 <= a < b < columns.len() ==> (#[trigger] columns[a]).name != (
                #[trigger] columns[b]).name
        }),
    ensures
        ({
            let t = table_of(db, table)->0;
            let q = listed(names_picked(t.def.columns, at), scanned(t, at, None));
            scanned_where(db, table, at, pushed(e)->0) == filter_query(o, q, e)
        }),
{
    reveal(scanned_where);
    law_pushed_scan(o, db, table, at, e);
    let t = table_of(db, table)->0;
    let (name, p, d) = pushed(e)->0;
    let k = name_index(t.def.columns, name)->0;
    let less = scanned(t, at, Some((k as usize, p, d)));
    let passed = passing(
        live(t.slots, t.slots.len()),
        Some((k as usize, p, d)),
        live(t.slots, t.slots.len()).len(),
    );
    assert forall|x: int| 0 <= x < less.len() implies (#[trigger] less[x]).len() == at.len() by {
        assert(less[x] == picked(passed[x].1, at));
    }
    law_frame_roundtrip(less);
}

/// A name that no column has is not found.
pub proof fn lemma_no_name(names: Seq<Seq<char>>, name: Seq<char>, i: int)
    requires
        0 <= i,
        forall|k: int| 0 <= k < names.len() ==> names[k] != name,
    ensures
        name_at(names, name, i) is None,
    decreases names.len() - i,
{
    if i < names.len() {
        lemma_no_name(names, name, i + 1);
    }
}

/// A condition that fails on every batch fails on batches.
pub proof fn lemma_all_fail(
    o: spec_fn(Question) -> Answer,
    cs: Seq<Chunk>,
    e: Expr,
    names: Seq<Seq<char>>,
    f: Fault,
)
    requires
        cs.len() > 0,
        forall|k: int| 0 <= k < cs.len() ==> eval(o, e, #[trigger] cs[k], names) == Err::<
            Column,
            Fault,
        >(f),
    ensures
        filtered_all(o, cs, e, names) == Err::<Seq<Chunk>, Fault>(f),
    decreases cs.len(),
{
    assert(eval(o, e, cs[cs.len() - 1], names) == Err::<Column, Fault>(f));
    if cs.len() > 1 {
        assert forall|k: int| 0 <= k < cs.len() - 1 implies eval(
            o,
            e,
            #[trigger] cs.drop_last()[k],
            names,
        ) == Err::<Column, Fault>(f) by {
            assert(cs.drop_last()[k] == cs[k]);
        }
        lemma_all_fail(o, cs.drop_last(), e, names, f);
    } else {
        assert(filtered_all(o, cs.drop_last(), e, names) is Ok);
    }
}

/// A filter on a scan by a column that the table lacks, executed as a scan
/// with a comparison, gives what the filter gives on all rows of the scan: the
/// column is not found, but where there is no row.
pub proof fn law_unknown_column(
    o: spec_fn(Question) -> Answer,
    db: Db,
    table: Seq<char>,
    at: Seq<usize>,
    e: Expr,
)
    requires
        table_of(db, table) is Some,
        pushed(e) is Some,
        ({
            let columns = table_of(db, table)->0.def.columns;
            &&& name_index(columns, (pushed(e)->0).0) is None
            &&& forall|i: int| 0 <= i < at.len() ==> (#[trigger] at[i]) < columns.len()
        }),
    ensures
        ({
            let t = table_of(db, table)->0;
            let q = listed(names_picked(t.def.columns, at), scanned(t, at, None));
            scanned_where(db, table, at, pushed(e)->0) == filter_query(o, q, e)
        }),
{
    reveal(scanned_where);
    let t = table_of(db, table)->0;
    let columns = t.def.columns;
    let names = names_picked(columns, at);
    let (name, p, d) = pushed(e)->0;
    let rows = scanned(t, at, None);
    lemma_first_from(columns, |c: ColumnModel| c.name == name, 0);
    assert forall|k: int| 0 <= k < names.len() implies names[k] != name by {
        assert(at[k] < columns.len());
        assert(columns[at[k] as int].name == names[k]);
    }
    lemma_no_name(names, name, 0);
    let cs = framed(rows);
    if rows.len() > 0 {
        let l = *(e->Binary_0);
        assert forall|k: int| 0 <= k < cs.len() implies eval(o, e, #[trigger] cs[k], names) == Err::<
            Column,
            Fault,
        >(Fault::ColumnNotFound(name)) by {
            assert(eval(o, l, cs[k], names) == Err::<Column, Fault>(Fault::ColumnNotFound(name)));
        }
        lemma_all_fail(o, cs, e, names, Fault::ColumnNotFound(name));
    } else {
        assert(cs =~= Seq::empty());
        assert(filtered_all(o, cs, e, names) == Ok::<
            Seq<Chunk>,
            Fault,
        >(Seq::empty()));
        assert(rows_in(Seq::empty()) =~= Seq::empty());
    }
}

} // verus!
