//! Rows as batches, and batches as rows.
use vstd::prelude::*;

use crate::executor::operators::filter::all_aligned;
use crate::executor::operators::hash_join::{cut_chunk, cut_rows, flat_rows, lemma_aligned_cover};
use crate::executor::operators::sort::clone_chunks;
use crate::executor::vector::{
    aligned, all_cover, batch, batch_count, chunks_wf, col_at, col_len, rectangular, rows_of,
    rows_of_all, Chunk, DataChunk, VECTOR_SIZE,
};
use crate::value::Datum;
use crate::Value;

verus! {

/// Whether all batches have the same columns, each as long as its batch.
pub open spec fn regular(cs: Seq<Chunk>) -> bool {
    &&& all_aligned(cs)
    &&& forall|k: int| 0 <= k < cs.len() ==> (#[trigger] cs[k]).columns.len() == cs[0].columns.len()
}

/// The rows of a batch, with NULL where a column is too short.
pub open spec fn filled_rows(c: Chunk) -> Seq<Seq<Datum>> {
    Seq::new(
        c.count,
        |i: int|
            Seq::new(
                c.columns.len(),
                |j: int|
                    if i < col_len(c.columns[j]) {
                        col_at(c.columns[j], i)
                    } else {
                        Datum::Null
                    },
            ),
    )
}

/// Regular batches. Those that are regular stay as they are; others get the
/// columns of the first, filled up with NULL.
pub open spec fn straight(cs: Seq<Chunk>) -> Seq<Chunk> {
    if regular(cs) {
        cs
    } else {
        Seq::new(cs.len(), |k: int| cut_chunk(filled_rows(cs[k]), cs[0].columns.len()))
    }
}

/// The width of rows, which is that of the first.
pub open spec fn width(rows: Seq<Seq<Datum>>) -> nat {
    if rows.len() == 0 {
        0
    } else {
        rows[0].len()
    }
}

/// The batches of rows. Rows that are shorter than the first are filled up
/// with NULL, and what is beyond it is cut.
pub open spec fn framed(rows: Seq<Seq<Datum>>) -> Seq<Chunk> {
    Seq::new(batch_count(rows.len()), |k: int| cut_chunk(batch(rows, k), width(rows)))
}

/// The rows of batches.
pub open spec fn rows_in(cs: Seq<Chunk>) -> Seq<Seq<Datum>> {
    rows_of_all(straight(cs))
}

/// The rows of regular batches are of one length.
pub proof fn lemma_regular(cs: Seq<Chunk>)
    requires
        regular(cs),
    ensures
        all_cover(cs),
        rectangular(rows_of_all(cs)),
        forall|i: int|
            0 <= i < rows_of_all(cs).len() ==> (#[trigger] rows_of_all(cs)[i]).len()
                == cs[0].columns.len(),
    decreases cs.len(),
{
    lemma_aligned_cover(cs);
    if cs.len() > 0 {
        let front = cs.drop_last();
        assert(regular(front)) by {
            assert forall|k: int| 0 <= k < front.len() implies aligned(#[trigger] front[k]) by {
                assert(front[k] == cs[k]);
            }
            assert forall|k: int| 0 <= k < front.len() implies (#[trigger] front[k]).columns.len()
                == front[0].columns.len() by {
                assert(front[k] == cs[k]);
                assert(front[0] == cs[0]);
            }
        }
        lemma_regular(front);
        let (a, b) = (rows_of_all(front), rows_of(cs.last()));
        let all = rows_of_all(cs);
        assert(cs.last() == cs[cs.len() - 1]);
        assert forall|i: int| 0 <= i < all.len() implies (#[trigger] all[i]).len()
            == cs[0].columns.len() by {
            if i < a.len() {
                assert(all[i] == a[i]);
                assert(front[0] == cs[0]);
            } else {
                assert(all[i] == b[i - a.len()]);
            }
        }
    }
}

/// Whether batches are regular.
fn check_regular(cs: &Vec<DataChunk>) -> (r: bool)
    requires
        chunks_wf(cs@),
    ensures
        r == regular(cs.deep_view()),
{
    let ghost v = cs.deep_view();
    let mut k: usize = 0;
    while k < cs.len()
        invariant
            chunks_wf(cs@),
            v == cs.deep_view(),
            k <= cs.len(),
            forall|i: int| 0 <= i < k ==> aligned(#[trigger] v[i]) && v[i].columns.len()
                == v[0].columns.len(),
        decreases cs.len() - k,
    {
        assert(cs[k as int].wf());
        assert(v[k as int] == cs[k as int].deep_view());
        assert(v[0] == cs[0].deep_view());
        if cs[k].columns.len() != cs[0].columns.len() {
            return false;
        }
        let mut j: usize = 0;
        while j < cs[k].columns.len()
            invariant
                chunks_wf(cs@),
                cs[k as int].wf(),
                v == cs.deep_view(),
                k < cs.len(),
                v[k as int] == cs[k as int].deep_view(),
                j <= cs[k as int].columns.len(),
                forall|i: int|
                    0 <= i < j ==> col_len(#[trigger] v[k as int].columns[i]) == v[k as int].count,
            decreases cs[k as int].columns.len() - j,
        {
            assert(v[k as int].columns[j as int] == cs[k as int].columns[j as int].deep_view());
            if cs[k].columns[j].len() != cs[k].count {
                assert(!aligned(v[k as int]));
                return false;
            }
            j += 1;
        }
        k += 1;
    }
    true
}

/// The rows of a batch, with NULL where a column is too short.
fn fill_rows(c: &DataChunk) -> (r: Vec<Vec<Value>>)
    requires
        c.wf(),
    ensures
        r.deep_view() == filled_rows(c.deep_view()),
{
    let ghost m = filled_rows(c.deep_view());
    let mut out: Vec<Vec<Value>> = Vec::new();
    let mut i: usize = 0;
    while i < c.count
        invariant
            c.wf(),
            m == filled_rows(c.deep_view()),
            i <= c.count,
            out.deep_view() == m.subrange(0, i as int),
        decreases c.count - i,
    {
        let mut row: Vec<Value> = Vec::new();
        let mut j: usize = 0;
        while j < c.columns.len()
            invariant
                c.wf(),
                m == filled_rows(c.deep_view()),
                i < c.count,
                j <= c.columns.len(),
                row.deep_view() == m[i as int].subrange(0, j as int),
            decreases c.columns.len() - j,
        {
            assert(c.deep_view().columns[j as int] == c.columns[j as int].deep_view());
            let v = if i < c.columns[j].len() {
                c.columns[j].get(i)
            } else {
                Value::Null
            };
            let ghost before = row.deep_view();
            row.push(v);
            assert(row.deep_view() =~= before.push(v.deep_view()));
            j += 1;
            assert(row.deep_view() =~= m[i as int].subrange(0, j as int));
        }
        assert(row.deep_view() =~= m[i as int]);
        let ghost before = out.deep_view();
        out.push(row);
        assert(out.deep_view() =~= before.push(row.deep_view()));
        i += 1;
        assert(out.deep_view() =~= m.subrange(0, i as int));
    }
    assert(out.deep_view() =~= m);
    out
}

/// Makes batches regular.
pub fn straighten(cs: &Vec<DataChunk>) -> (r: Vec<DataChunk>)
    requires
        chunks_wf(cs@),
    ensures
        chunks_wf(r@),
        regular(r.deep_view()),
        r.deep_view() == straight(cs.deep_view()),
{
    if check_regular(cs) {
        return clone_chunks(cs);
    }
    let ghost v = cs.deep_view();
    let ghost m = straight(v);
    if cs.len() == 0 {
        assert(regular(v));
        return clone_chunks(cs);
    }
    let cols: usize = cs[0].columns.len();
    assert(v[0] == cs[0].deep_view());
    let mut out: Vec<DataChunk> = Vec::new();
    let mut k: usize = 0;
    while k < cs.len()
        invariant
            chunks_wf(cs@),
            v == cs.deep_view(),
            !regular(v),
            m == straight(v),
            cols == v[0].columns.len(),
            k <= cs.len(),
            out.len() == k,
            forall|i: int|
                0 <= i < k ==> (#[trigger] out[i]).deep_view() == m[i] && out[i].wf(),
        decreases cs.len() - k,
    {
        assert(cs[k as int].wf());
        assert(v[k as int] == cs[k as int].deep_view());
        let rows = fill_rows(&cs[k]);
        let c = cut_rows(&rows, 0, rows.len(), cols);
        assert(rows.deep_view().subrange(0, rows.len() as int) =~= rows.deep_view());
        out.push(c);
        k += 1;
    }
    assert(out.deep_view() =~= m);
    out
}

/// The batches of rows.
pub fn frame(rows: &Vec<Vec<Value>>) -> (r: Vec<DataChunk>)
    ensures
        chunks_wf(r@),
        regular(r.deep_view()),
        r.deep_view() == framed(rows.deep_view()),
{
    let ghost rv = rows.deep_view();
    let ghost want = framed(rv);
    let cols: usize = if rows.len() == 0 {
        0
    } else {
        assert(rv[0] == rows[0].deep_view());
        rows[0].len()
    };
    let mut out: Vec<DataChunk> = Vec::new();
    let mut start: usize = 0;
    let ghost mut k: int = 0;
    while start < rows.len()
        invariant
            rv == rows.deep_view(),
            want == framed(rv),
            cols == width(rv),
            start <= rows.len(),
            k == out.len(),
            start < rows.len() ==> start == k * VECTOR_SIZE && k < want.len(),
            start == rows.len() ==> k == want.len(),
            0 <= k <= want.len(),
            forall|i: int|
                0 <= i < k ==> (#[trigger] out[i]).deep_view() == want[i] && out[i].wf(),
        decreases rows.len() - start,
    {
        let end: usize = if rows.len() - start <= VECTOR_SIZE {
            rows.len()
        } else {
            start + VECTOR_SIZE
        };
        let c = cut_rows(rows, start, end, cols);
        assert(c.deep_view() == want[k]);
        out.push(c);
        start = end;
        proof {
            k = k + 1;
        }
    }
    assert(out.deep_view() =~= want);
    out
}

/// The rows of batches.
pub fn unframe(cs: &Vec<DataChunk>) -> (r: Vec<Vec<Value>>)
    requires
        chunks_wf(cs@),
    ensures
        r.deep_view() == rows_in(cs.deep_view()),
{
    let s = straighten(cs);
    proof {
        lemma_regular(s.deep_view());
    }
    flat_rows(&s)
}

/// Turning rows of one length into batches and back changes nothing.
pub proof fn law_frame_roundtrip(rows: Seq<Seq<Datum>>)
    requires
        rectangular(rows),
    ensures
        rows_in(framed(rows)) == rows,
{
    let cs = framed(rows);
    assert(regular(cs));
    lemma_frame_front(rows, batch_count(rows.len()) as int);
}

/// The first batches hold the first rows.
proof fn lemma_frame_front(rows: Seq<Seq<Datum>>, n: int)
    requires
        rectangular(rows),
        0 <= n <= batch_count(rows.len()),
    ensures
        rows_of_all(framed(rows).subrange(0, n)) == rows.subrange(
            0,
            if n * VECTOR_SIZE <= rows.len() {
                n * VECTOR_SIZE
            } else {
                rows.len() as int
            },
        ),
        framed(rows).subrange(0, batch_count(rows.len()) as int) == framed(rows),
        n == batch_count(rows.len()) ==> rows_of_all(framed(rows)) == rows,
    decreases n,
{
    let cs = framed(rows);
    assert(cs.subrange(0, batch_count(rows.len()) as int) =~= cs);
    if n > 0 {
        lemma_frame_front(rows, n - 1);
        let part = cs.subrange(0, n);
        assert(part.drop_last() =~= cs.subrange(0, n - 1));
        assert(part.last() == cs[n - 1]);
        let b = batch(rows, n - 1);
        assert(rows_of(cs[n - 1]) =~= b) by {
            assert forall|i: int| 0 <= i < b.len() implies #[trigger] rows_of(cs[n - 1])[i]
                =~= b[i] by {
                assert(b[i] == rows[(n - 1) * VECTOR_SIZE + i]);
            }
        }
    }
    if n == batch_count(rows.len()) {
        assert(rows.subrange(0, rows.len() as int) =~= rows);
    }
}

} // verus!
