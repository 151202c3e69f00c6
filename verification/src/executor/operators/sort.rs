//! Sorting of batches by several columns.
use vstd::prelude::*;

use crate::common::error::EngramDbError;
use crate::common::value_cmp::{
    law_order_flips, law_order_transitive, mixed, nan_free, order_values, value_order,
};
use crate::executor::physical_plan::{SortDirection, SortKey};
use crate::executor::sorting::{
    in_order, law_sort_permutes, law_sort_sorts, sort_rows_by, sorted_positions,
    sorted_rows,
};
use crate::executor::vector::{
    all_cover, batches, chunks_wf, flatten_to_rows, from_rows_batched, lemma_rectangular_fits,
    rows_of_all, Chunk, DataChunk,
};
use crate::value::{clone_row, Datum};
use crate::Value;

verus! {

/// The order of two rows by the keys from `k` on: the first key on which they
/// differ decides. NULL goes first, or last where the key descends. A key whose
/// column a row lacks decides nothing.
pub open spec fn row_order(a: Seq<Datum>, b: Seq<Datum>, keys: Seq<SortKey>, k: int) -> int
    decreases keys.len() - k,
{
    if k < 0 || k >= keys.len() {
        0
    } else {
        let i = keys[k].column_index as int;
        let c = if i < a.len() && i < b.len() {
            value_order(a[i], b[i])
        } else {
            0
        };
        if c == 0 {
            row_order(a, b, keys, k + 1)
        } else if keys[k].direction == SortDirection::Asc {
            c
        } else {
            -c
        }
    }
}

/// Compares two rows by sort keys.
pub fn order_rows(a: &Vec<Value>, b: &Vec<Value>, keys: &Vec<SortKey>) -> (r: i8)
    ensures
        r == row_order(a.deep_view(), b.deep_view(), keys@, 0),
        -1 <= r <= 1,
{
    let ghost (x, y) = (a.deep_view(), b.deep_view());
    let mut k: usize = 0;
    while k < keys.len()
        invariant
            x == a.deep_view(),
            y == b.deep_view(),
            k <= keys.len(),
            row_order(x, y, keys@, 0) == row_order(x, y, keys@, k as int),
        decreases keys.len() - k,
    {
        let i: usize = keys[k].column_index;
        if i < a.len() && i < b.len() {
            assert(x[i as int] == a[i as int].deep_view() && y[i as int] == b[i as int].deep_view());
            let c: i8 = order_values(&a[i], &b[i]);
            if c != 0 {
                return if keys[k].direction == SortDirection::Asc {
                    c
                } else {
                    -c
                };
            }
        }
        k += 1;
    }
    0
}

/// The rows in order, the first `limit` of them where there is a limit.
pub open spec fn ordered(
    rows: Seq<Seq<Datum>>,
    keys: Seq<SortKey>,
    limit: Option<usize>,
) -> Seq<Seq<Datum>> {
    let all = sorted_rows(rows, |a: Seq<Datum>, b: Seq<Datum>| row_order(a, b, keys, 0));
    match limit {
        Some(n) => if n < all.len() {
            all.subrange(0, n as int)
        } else {
            all
        },
        None => all,
    }
}

/// Rows cut to a width.
pub open spec fn trimmed(rows: Seq<Seq<Datum>>, width: nat) -> Seq<Seq<Datum>> {
    Seq::new(
        rows.len(),
        |i: int|
            if rows[i].len() <= width {
                rows[i]
            } else {
                rows[i].subrange(0, width as int)
            },
    )
}

/// Whether every row reaches all columns of the first batch.
pub open spec fn first_narrowest(cs: Seq<Chunk>) -> bool {
    forall|i: int|
        0 <= i < rows_of_all(cs).len() ==> (#[trigger] rows_of_all(cs)[i]).len()
            >= cs[0].columns.len()
}

/// Batches sorted, with the columns of the first batch. Without keys, or with
/// at most one row, they stay as they are.
pub open spec fn sorted_chunks(
    cs: Seq<Chunk>,
    keys: Seq<SortKey>,
    limit: Option<usize>,
) -> Seq<Chunk> {
    let rows = rows_of_all(cs);
    if cs.len() == 0 || keys.len() == 0 || rows.len() <= 1 {
        cs
    } else {
        batches(trimmed(ordered(rows, keys, limit), cs[0].columns.len()))
    }
}

fn take_rows(rows: Vec<Vec<Value>>, n: usize) -> (r: Vec<Vec<Value>>)
    ensures
        r.deep_view() == if n < rows.len() {
            rows.deep_view().subrange(0, n as int)
        } else {
            rows.deep_view()
        },
{
    let mut rows = rows;
    let ghost all = rows.deep_view();
    if n < rows.len() {
        rows.truncate(n);
        assert(rows.deep_view() =~= all.subrange(0, n as int));
    }
    rows
}

fn trim_rows(rows: Vec<Vec<Value>>, width: usize) -> (r: Vec<Vec<Value>>)
    ensures
        r.deep_view() == trimmed(rows.deep_view(), width as nat),
{
    let ghost all = rows.deep_view();
    let mut out: Vec<Vec<Value>> = Vec::new();
    let mut i: usize = 0;
    while i < rows.len()
        invariant
            all == rows.deep_view(),
            i <= rows.len(),
            out.deep_view() == trimmed(all, width as nat).subrange(0, i as int),
        decreases rows.len() - i,
    {
        let mut row = clone_row(&rows[i]);
        let ghost was = row.deep_view();
        assert(was == all[i as int]);
        if row.len() > width {
            row.truncate(width);
            assert(row.deep_view() =~= was.subrange(0, width as int));
        }
        let ghost before = out.deep_view();
        out.push(row);
        assert(out.deep_view() =~= before.push(row.deep_view()));
        i += 1;
        assert(out.deep_view() =~= trimmed(all, width as nat).subrange(0, i as int));
    }
    assert(out.deep_view() =~= trimmed(all, width as nat));
    out
}

/// Copies batches.
pub fn clone_chunks(cs: &Vec<DataChunk>) -> (r: Vec<DataChunk>)
    ensures
        r.deep_view() == cs.deep_view(),
        chunks_wf(cs@) ==> chunks_wf(r@),
{
    let mut out: Vec<DataChunk> = Vec::new();
    let mut i: usize = 0;
    while i < cs.len()
        invariant
            i <= cs.len(),
            out.len() == i,
            forall|k: int| 0 <= k < i ==> (#[trigger] out[k]).deep_view() == cs[k].deep_view(),
            chunks_wf(cs@) ==> chunks_wf(out@),
        decreases cs.len() - i,
    {
        assert(chunks_wf(cs@) ==> cs[i as int].wf());
        out.push(cs[i].clone());
        i += 1;
    }
    assert(out.deep_view() =~= cs.deep_view());
    out
}

/// Sorts batches by several columns, and keeps the first `limit` rows where
/// there is a limit. Rows that the keys do not tell apart keep their order.
pub fn sort_batches(
    input: &Vec<DataChunk>,
    sort_keys: &Vec<SortKey>,
    limit: Option<usize>,
) -> (r: Vec<DataChunk>)
    requires
        chunks_wf(input@),
        all_cover(input.deep_view()),
        first_narrowest(input.deep_view()),
    ensures
        chunks_wf(r@),
        r.deep_view() == sorted_chunks(input.deep_view(), sort_keys@, limit),
{
    if input.len() == 0 || sort_keys.len() == 0 {
        return clone_chunks(input);
    }
    let rows = flatten_to_rows(input.as_slice());
    let slice = input.as_slice();
    assert(slice.deep_view() =~= input.deep_view());
    let ghost view = rows.deep_view();
    if rows.len() <= 1 {
        return clone_chunks(input);
    }
    let ghost ord = |a: Seq<Datum>, b: Seq<Datum>| row_order(a, b, sort_keys@, 0);
    let sorted = sort_keyed(&rows, sort_keys);
    let ghost width = input.deep_view()[0].columns.len();
    proof {
        law_sort_permutes(view, ord, 0, view.len() as int);
        let p = sorted_positions(view, ord, 0, view.len() as int);
        assert forall|i: int| 0 <= i < sorted.deep_view().len() implies (
        #[trigger] sorted.deep_view()[i]).len() >= width by {
            assert(sorted.deep_view()[i] == view[p[i] as int]);
        }
    }
    let ghost sorted_view = sorted.deep_view();
    let kept = match limit {
        Some(n) => take_rows(sorted, n),
        None => sorted,
    };
    let ghost kept_view = kept.deep_view();
    assert(input.deep_view()[0] == input[0].deep_view());
    let kept = trim_rows(kept, input[0].columns.len());
    proof {
        assert(kept_view == ordered(view, sort_keys@, limit));
        assert forall|i: int| 0 <= i < kept.deep_view().len() implies (
        #[trigger] kept.deep_view()[i]).len() == width by {
            assert(kept_view[i] == sorted_view[i]);
        }
        lemma_rectangular_fits(kept.deep_view());
    }
    let slice = kept.as_slice();
    assert(slice.deep_view() =~= kept.deep_view());
    from_rows_batched(slice)
}

/// Sorts rows by several columns.
pub fn sort_keyed(rows: &Vec<Vec<Value>>, keys: &Vec<SortKey>) -> (r: Vec<Vec<Value>>)
    ensures
        r.deep_view() == sorted_rows(
            rows.deep_view(),
            |a: Seq<Datum>, b: Seq<Datum>| row_order(a, b, keys@, 0),
        ),
{
    let g = |a: &Vec<Value>, b: &Vec<Value>| -> (c: i8)
        ensures
            c == row_order(a.deep_view(), b.deep_view(), keys@, 0),
        { order_rows(a, b, keys) };
    sort_rows_by(
        rows,
        g,
        Ghost(|a: Seq<Datum>, b: Seq<Datum>| row_order(a, b, keys@, 0)),
    )
}

/// Whether no value that a key compares is a NaN, or one of two numbers of
/// which one is an integer and the other is not.
pub open spec fn comparable(rows: Seq<Seq<Datum>>, keys: Seq<SortKey>) -> bool {
    &&& forall|i: int, k: int|
        #![trigger rows[i], keys[k]]
        0 <= i < rows.len() && 0 <= k < keys.len() ==> keys[k].column_index < rows[i].len()
            && nan_free(rows[i][keys[k].column_index as int])
    &&& forall|i: int, j: int, k: int|
        #![trigger rows[i], rows[j], keys[k]]
        0 <= i < rows.len() && 0 <= j < rows.len() && 0 <= k < keys.len() ==> !mixed(
            rows[i][keys[k].column_index as int],
            rows[j][keys[k].column_index as int],
        )
}

proof fn lemma_row_order_flips(a: Seq<Datum>, b: Seq<Datum>, keys: Seq<SortKey>, k: int)
    ensures
        row_order(a, b, keys, k) == -row_order(b, a, keys, k),
    decreases keys.len() - k,
{
    if 0 <= k < keys.len() {
        let i = keys[k].column_index as int;
        if i < a.len() && i < b.len() {
            law_order_flips(a[i], b[i]);
        }
        lemma_row_order_flips(a, b, keys, k + 1);
    }
}

proof fn lemma_value_trans(a: Datum, b: Datum, c: Datum)
    requires
        nan_free(a),
        nan_free(b),
        nan_free(c),
        !mixed(a, b),
        !mixed(b, a),
        !mixed(b, c),
        !mixed(c, b),
        !mixed(a, c),
        !mixed(c, a),
        value_order(a, b) <= 0,
        value_order(b, c) <= 0,
    ensures
        value_order(a, c) <= 0,
        value_order(a, c) == 0 ==> value_order(a, b) == 0 && value_order(b, c) == 0,
{
    law_order_transitive(a, b, c);
    law_order_flips(a, b);
    law_order_flips(b, c);
    law_order_flips(a, c);
    if value_order(a, c) == 0 {
        law_order_transitive(b, c, a);
        law_order_transitive(c, a, b);
    }
}

proof fn lemma_row_order_trans(
    rows: Seq<Seq<Datum>>,
    keys: Seq<SortKey>,
    x: int,
    y: int,
    z: int,
    k: int,
)
    requires
        comparable(rows, keys),
        0 <= x < rows.len(),
        0 <= y < rows.len(),
        0 <= z < rows.len(),
        0 <= k,
        row_order(rows[x], rows[y], keys, k) <= 0,
        row_order(rows[y], rows[z], keys, k) <= 0,
    ensures
        row_order(rows[x], rows[z], keys, k) <= 0,
        row_order(rows[x], rows[z], keys, k) == 0 ==> row_order(rows[x], rows[y], keys, k) == 0
            && row_order(rows[y], rows[z], keys, k) == 0,
    decreases keys.len() - k,
{
    if k < keys.len() {
        let i = keys[k].column_index as int;
        let (a, b, c) = (rows[x][i], rows[y][i], rows[z][i]);
        assert(nan_free(a) && nan_free(b) && nan_free(c));
        assert(!mixed(a, b) && !mixed(b, c) && !mixed(a, c));
        assert(!mixed(b, a) && !mixed(c, b) && !mixed(c, a));
        law_order_flips(a, b);
        law_order_flips(b, c);
        law_order_flips(a, c);
        if value_order(a, b) <= 0 && value_order(b, c) <= 0 {
            lemma_value_trans(a, b, c);
        }
        if value_order(c, b) <= 0 && value_order(b, a) <= 0 {
            lemma_value_trans(c, b, a);
        }
        if value_order(a, b) == 0 && value_order(b, c) == 0 {
            lemma_row_order_trans(rows, keys, x, y, z, k + 1);
        }
    }
}

/// Sorting by keys sorts: where the values compared are numbers without NaN
/// and not mixed, no row stands behind one that goes after it, and rows that
/// the keys do not tell apart stand in the order in which they came.
pub proof fn law_rows_sorted(rows: Seq<Seq<Datum>>, keys: Seq<SortKey>)
    requires
        comparable(rows, keys),
        rows.len() <= usize::MAX,
    ensures
        ({
            let ord = |a: Seq<Datum>, b: Seq<Datum>| row_order(a, b, keys, 0);
            in_order(rows, ord, sorted_positions(rows, ord, 0, rows.len() as int))
        }),
{
    let ord = |a: Seq<Datum>, b: Seq<Datum>| row_order(a, b, keys, 0);
    assert forall|i: int, j: int|
        #![trigger ord(rows[i], rows[j])]
        0 <= i < rows.len() && 0 <= j < rows.len() implies (ord(rows[i], rows[j]) <= 0 <==> ord(
        rows[j],
        rows[i],
    ) >= 0) by {
        lemma_row_order_flips(rows[i], rows[j], keys, 0);
    }
    assert forall|i: int, j: int, k: int|
        #![trigger ord(rows[i], rows[j]), ord(rows[j], rows[k])]
        0 <= i < rows.len() && 0 <= j < rows.len() && 0 <= k < rows.len() && ord(rows[i], rows[j])
            <= 0 && ord(rows[j], rows[k]) <= 0 implies ord(rows[i], rows[k]) <= 0 && (ord(
        rows[i],
        rows[k],
    ) == 0 ==> ord(rows[i], rows[j]) == 0 && ord(rows[j], rows[k]) == 0) by {
        lemma_row_order_trans(rows, keys, i, j, k, 0);
    }
    law_sort_sorts(rows, ord, 0, rows.len() as int);
}

/// Sorts batches, as [`sort_batches`] does. Nothing can fail.
pub fn execute(input: &Vec<DataChunk>, sort_keys: &Vec<SortKey>, limit: Option<usize>) -> (r:
    Result<Vec<DataChunk>, EngramDbError>)
    requires
        chunks_wf(input@),
        all_cover(input.deep_view()),
        first_narrowest(input.deep_view()),
    ensures
        r is Ok,
        chunks_wf(r->Ok_0@),
        r->Ok_0.deep_view() == sorted_chunks(input.deep_view(), sort_keys@, limit),
{
    Ok(sort_batches(input, sort_keys, limit))
}

} // verus!
