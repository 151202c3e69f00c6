//! What the joins of two results give.
use vstd::prelude::*;

use crate::executor::agreement::{lemma_batches_regular, lemma_rows_add};
use crate::executor::framing::{framed, law_frame_roundtrip, regular, rows_in};
use crate::executor::key_index::lemma_equal_sound;
use crate::executor::operators::hash_join::{
    behind_nulls, cut_chunk, cut_chunks, hits, join_key, join_keys, joined_one, joined_rows,
    matched_rows, nulls, swapped, swapped_all, Widths, SEMI_BATCH,
};
use crate::executor::operators::join_laws::{
    from_row, law_join_pairs, law_outer_join_keeps, law_outer_join_rows, lemma_hits, matches_row,
    pair_of,
};
use crate::executor::physical_plan::JoinType;
use crate::executor::relational::join_query;
use crate::executor::vector::{
    aligned, batch, batches, col_len, law_batches_roundtrip, lemma_batch_bounds, rectangular,
    rows_of, rows_of_all, Chunk, VECTOR_SIZE,
};
use crate::query::Query;
use crate::value::Datum;

verus! {

/// Whether two rows have the same values in their key columns, one by one, and no NULL.
pub open spec fn keys_meet(x: Seq<Datum>, y: Seq<Datum>, a: Seq<usize>, b: Seq<usize>) -> bool {
    &&& a.len() == b.len()
    &&& forall|k: int|
        #![trigger a[k]]
        #![trigger b[k]]
        0 <= k < a.len() ==> a[k] < x.len() && b[k] < y.len() && x[a[k] as int] == y[b[k] as int]
            && x[a[k] as int] != Datum::Null
}

/// Rows match where their keys meet.
pub proof fn law_match(x: Seq<Datum>, y: Seq<Datum>, a: Seq<usize>, b: Seq<usize>)
    ensures
        matches_row(x, y, a, b) <==> keys_meet(x, y, a, b),
        keys_meet(x, y, a, b) <==> keys_meet(y, x, b, a),
{
    let (p, q) = (join_key(x, a), join_key(y, b));
    if matches_row(x, y, a, b) {
        assert forall|k: int|
            #![trigger a[k]]
            #![trigger b[k]]
            0 <= k < a.len() implies a[k] < x.len() && b[k] < y.len() && x[a[k] as int]
            == y[b[k] as int] && x[a[k] as int] != Datum::Null by {
            assert(p[k] == q[k]);
            assert(p[k] != Datum::Null);
        }
    }
    if keys_meet(x, y, a, b) {
        assert forall|k: int| 0 <= k < p.len() implies p[k] == q[k] && #[trigger] p[k]
            != Datum::Null by {
            assert(a[k] < x.len());
        }
        assert(p =~= q);
    }
    if keys_meet(y, x, b, a) {
        assert forall|k: int|
            #![trigger a[k]]
            #![trigger b[k]]
            0 <= k < a.len() implies a[k] < x.len() && b[k] < y.len() && x[a[k] as int]
            == y[b[k] as int] && x[a[k] as int] != Datum::Null by {}
    }
}

/// Whether a row is a row of the left side with one of the right side behind it that its
/// keys meet.
pub open spec fn is_pair(
    l: Seq<Seq<Datum>>,
    r: Seq<Seq<Datum>>,
    a: Seq<usize>,
    b: Seq<usize>,
    x: Seq<Datum>,
) -> bool {
    exists|i: int, j: int|
        0 <= i < l.len() && 0 <= j < r.len() && #[trigger] keys_meet(l[i], r[j], a, b) && x == l[i]
            + r[j]
}

/// Whether the keys of a row meet those of one of the rows.
pub open spec fn meets_some(
    row: Seq<Datum>,
    others: Seq<Seq<Datum>>,
    a: Seq<usize>,
    b: Seq<usize>,
) -> bool {
    exists|j: int| 0 <= j < others.len() && keys_meet(row, #[trigger] others[j], a, b)
}

/// Whether a row is a row of the left side that meets none of the right side, with NULLs
/// behind it.
pub open spec fn left_alone(
    l: Seq<Seq<Datum>>,
    r: Seq<Seq<Datum>>,
    a: Seq<usize>,
    b: Seq<usize>,
    x: Seq<Datum>,
) -> bool {
    exists|i: int|
        0 <= i < l.len() && !meets_some(#[trigger] l[i], r, a, b) && x == l[i] + nulls(r[0].len())
}

/// Whether a row is a row of the right side that meets none of the left side, with NULLs
/// before it.
pub open spec fn right_alone(
    l: Seq<Seq<Datum>>,
    r: Seq<Seq<Datum>>,
    a: Seq<usize>,
    b: Seq<usize>,
    x: Seq<Datum>,
) -> bool {
    exists|j: int|
        0 <= j < r.len() && !meets_some(#[trigger] r[j], l, b, a) && x == nulls(l[0].len()) + r[j]
}

/// Whether all rows are of a width.
pub open spec fn wide_as(rows: Seq<Seq<Datum>>, w: nat) -> bool {
    forall|i: int| 0 <= i < rows.len() ==> (#[trigger] rows[i]).len() == w
}

proof fn lemma_back(rows: Seq<Seq<Datum>>, w: nat)
    requires
        wide_as(rows, w),
    ensures
        rows_of_all(batches(rows)) == rows,
        regular(batches(rows)),
        forall|k: int|
            0 <= k < batches(rows).len() ==> (#[trigger] batches(rows)[k]).columns.len() == w,
{
    assert(rectangular(rows));
    law_batches_roundtrip(rows);
    lemma_batches_regular(rows);
    assert forall|k: int| 0 <= k < batches(rows).len() implies (
    #[trigger] batches(rows)[k]).columns.len() == w by {
        lemma_batch_bounds(rows, k);
        let b = batch(rows, k);
        assert(b[0] == rows[k * VECTOR_SIZE]);
    }
}

/// Rows with their first `n` cells moved behind the others.
pub open spec fn turned(rows: Seq<Seq<Datum>>, n: nat) -> Seq<Seq<Datum>> {
    Seq::new(
        rows.len(),
        |i: int| rows[i].subrange(n as int, rows[i].len() as int) + rows[i].subrange(0, n as int),
    )
}

proof fn lemma_turned(cs: Seq<Chunk>, n: nat, w: nat)
    requires
        n <= w,
        regular(cs),
        forall|k: int| 0 <= k < cs.len() ==> (#[trigger] cs[k]).columns.len() == w,
    ensures
        rows_of_all(swapped_all(cs, n)) == turned(rows_of_all(cs), n),
        regular(swapped_all(cs, n)),
    decreases cs.len(),
{
    let s = swapped_all(cs, n);
    assert forall|k: int| 0 <= k < s.len() implies aligned(
        #[trigger] s[k],
    ) && s[k].columns.len() == w by {
        let c = cs[k];
        assert(aligned(c));
        assert forall|j: int| 0 <= j < s[k].columns.len() implies col_len(
            #[trigger] s[k].columns[j],
        ) == s[k].count by {
            if n < w {
                if j < w - n {
                    assert(s[k].columns[j] == c.columns[j + n]);
                } else {
                    assert(s[k].columns[j] == c.columns[j - (w - n)]);
                }
            }
        }
    }
    if cs.len() > 0 {
        let front = cs.drop_last();
        assert forall|k: int| 0 <= k < front.len() implies aligned(
            #[trigger] front[k],
        ) && front[k].columns.len() == w by {
            assert(front[k] == cs[k]);
        }
        lemma_turned(front, n, w);
        assert(s.drop_last() =~= swapped_all(front, n));
        let c = cs.last();
        assert(c == cs[cs.len() - 1]);
        assert(s.last() == swapped(c, n));
        let (a, b) = (rows_of(c), rows_of(swapped(c, n)));
        assert forall|i: int| 0 <= i < a.len() implies #[trigger] b[i] == turned(a, n)[i] by {
            assert(b[i] =~= turned(a, n)[i]);
        }
        assert(b =~= turned(a, n));
        assert(rows_of_all(s) =~= turned(rows_of_all(cs), n));
    } else {
        assert(rows_of_all(s) =~= turned(rows_of_all(cs), n));
    }
}

proof fn lemma_cut(rows: Seq<Seq<Datum>>, w: nat, m: int)
    requires
        wide_as(rows, w),
        0 <= m <= cut_chunks(rows, w).len(),
    ensures
        rows_of_all(cut_chunks(rows, w).subrange(0, m)) == rows.subrange(
            0,
            if m * SEMI_BATCH <= rows.len() {
                m * SEMI_BATCH
            } else {
                rows.len() as int
            },
        ),
    decreases m,
{
    let all = cut_chunks(rows, w);
    let part = all.subrange(0, m);
    if m == 0 {
        assert(part =~= Seq::empty());
        assert(rows.subrange(0, 0) =~= Seq::empty());
    } else {
        lemma_cut(rows, w, m - 1);
        assert(part.drop_last() =~= all.subrange(0, m - 1));
        assert(part.last() == all[m - 1]);
        let (lo, hi) = (
            (m - 1) * SEMI_BATCH,
            if m * SEMI_BATCH <= rows.len() {
                m * SEMI_BATCH
            } else {
                rows.len() as int
            },
        );
        assert(0 <= lo <= hi <= rows.len());
        let some = rows.subrange(lo, hi);
        let c = cut_chunk(some, w);
        assert(all[m - 1] == c);
        assert forall|i: int| 0 <= i < some.len() implies #[trigger] rows_of(c)[i] == some[i] by {
            assert(some[i] == rows[lo + i]);
            assert(rows_of(c)[i] =~= some[i]);
        }
        assert(rows_of(c) =~= some);
        assert(rows.subrange(0, lo) + some =~= rows.subrange(0, hi));
    }
}

proof fn lemma_cut_all(rows: Seq<Seq<Datum>>, w: nat)
    requires
        wide_as(rows, w),
    ensures
        rows_in(cut_chunks(rows, w)) == rows,
{
    let all = cut_chunks(rows, w);
    lemma_cut(rows, w, all.len() as int);
    assert(all.subrange(0, all.len() as int) =~= all);
    assert(rows.subrange(0, rows.len() as int) =~= rows);
    assert(regular(all));
}

/// The rows that are wanted.
proof fn lemma_matched(
    rows: Seq<Seq<Datum>>,
    others: Seq<Seq<Datum>>,
    a: Seq<usize>,
    b: Seq<usize>,
    wanted: bool,
    n: int,
    x: Seq<Datum>,
)
    requires
        0 <= n <= rows.len(),
        others.len() <= usize::MAX,
    ensures
        matched_rows(rows, a, join_keys(others, b), wanted, n).contains(x) <==> exists|i: int|
            0 <= i < n && x == #[trigger] rows[i] && meets_some(rows[i], others, a, b) == wanted,
        forall|i: int|
            0 <= i < matched_rows(rows, a, join_keys(others, b), wanted, n).len() ==> rows.contains(
                #[trigger] matched_rows(rows, a, join_keys(others, b), wanted, n)[i],
            ),
    decreases n,
{
    if n > 0 {
        lemma_matched(rows, others, a, b, wanted, n - 1, x);
        let keys = join_keys(others, b);
        let row = rows[n - 1];
        let found = hits(keys, join_key(row, a));
        assert((found.len() > 0) == meets_some(row, others, a, b)) by {
            if found.len() > 0 {
                lemma_equal_sound(keys, join_key(row, a), keys.len() as int);
                let j = found[0] as int;
                assert(found.contains(j as usize));
                lemma_hits(others, b, row, a, j);
                law_match(row, others[j], a, b);
                assert(keys_meet(row, others[j], a, b));
            }
            if meets_some(row, others, a, b) {
                let j = choose|j: int|
                    0 <= j < others.len() && keys_meet(row, #[trigger] others[j], a, b);
                law_match(row, others[j], a, b);
                lemma_hits(others, b, row, a, j);
            }
        }
        let (before, after) = (
            matched_rows(rows, a, keys, wanted, n - 1),
            matched_rows(rows, a, keys, wanted, n),
        );
        assert(rows.contains(row));
        if (found.len() > 0) == wanted {
            assert(after == before.push(row));
            if x == row {
                assert(after[after.len() - 1] == x);
            }
            if before.contains(x) {
                let k = before.index_of(x);
                assert(after[k] == x);
            }
        }
        if after.contains(x) && !before.contains(x) {
            let k = after.index_of(x);
            if k < before.len() {
                assert(before[k] == x);
            }
        }
    }
}

/// The rows of one side in the order of the other.
proof fn lemma_widths(l: Seq<Seq<Datum>>, r: Seq<Seq<Datum>>, lw: nat, rw: nat)
    requires
        wide_as(l, lw),
        wide_as(r, rw),
    ensures
        forall|i: int, j: int|
            0 <= i < l.len() && 0 <= j < r.len() ==> #[trigger] pair_of(
                l[i],
                r[j],
                Widths { probe: lw, build: rw },
            ) == l[i] + r[j],
        forall|i: int| 0 <= i < l.len() ==> #[trigger] l[i].subrange(0, lw as int) == l[i],
{
    let w = Widths { probe: lw, build: rw };
    assert forall|i: int, j: int| 0 <= i < l.len() && 0 <= j < r.len() implies #[trigger] pair_of(
        l[i],
        r[j],
        w,
    ) == l[i] + r[j] by {
        assert(pair_of(l[i], r[j], w) =~= l[i] + r[j]);
    }
    assert forall|i: int| 0 <= i < l.len() implies #[trigger] l[i].subrange(0, lw as int)
        == l[i] by {
        assert(l[i].subrange(0, lw as int) =~= l[i]);
    }
}

/// What a probing side gives, inner or outer.
proof fn lemma_probe(
    l: Seq<Seq<Datum>>,
    r: Seq<Seq<Datum>>,
    a: Seq<usize>,
    b: Seq<usize>,
    lw: nat,
    rw: nat,
    outer: bool,
    x: Seq<Datum>,
)
    requires
        wide_as(l, lw),
        wide_as(r, rw),
        r.len() > 0,
        r.len() <= usize::MAX,
    ensures
        ({
            let w = Widths { probe: lw, build: rw };
            let out = joined_rows(l, r, a, b, w, outer, l.len() as int);
            &&& out.contains(x) <==> is_pair(l, r, a, b, x) || outer && left_alone(l, r, a, b, x)
            &&& wide_as(out, lw + rw)
        }),
{
    let w = Widths { probe: lw, build: rw };
    let out = joined_rows(l, r, a, b, w, outer, l.len() as int);
    lemma_widths(l, r, lw, rw);
    lemma_probe_width(l, r, a, b, w, outer, l.len() as int);
    if outer {
        if out.contains(x) {
            law_outer_join_rows(l, r, a, b, w, x);
            let i = choose|i: int| 0 <= i < l.len() && #[trigger] from_row(l[i], r, a, b, w, x);
            if exists|j: int|
                0 <= j < r.len() && #[trigger] matches_row(l[i], r[j], a, b) && x == pair_of(
                    l[i],
                    r[j],
                    w,
                ) {
                let j = choose|j: int|
                    0 <= j < r.len() && #[trigger] matches_row(l[i], r[j], a, b) && x == pair_of(
                        l[i],
                        r[j],
                        w,
                    );
                law_match(l[i], r[j], a, b);
                assert(keys_meet(l[i], r[j], a, b));
            } else {
                assert(!meets_some(l[i], r, a, b)) by {
                    if meets_some(l[i], r, a, b) {
                        let j = choose|j: int|
                            0 <= j < r.len() && keys_meet(l[i], #[trigger] r[j], a, b);
                        law_match(l[i], r[j], a, b);
                        assert(matches_row(l[i], r[j], a, b));
                    }
                }
                assert(l[i].subrange(0, lw as int) == l[i]);
            }
        }
        if is_pair(l, r, a, b, x) {
            let (i, j) = choose|i: int, j: int|
                0 <= i < l.len() && 0 <= j < r.len() && #[trigger] keys_meet(l[i], r[j], a, b) && x
                    == l[i] + r[j];
            law_match(l[i], r[j], a, b);
            law_outer_join_keeps(l, r, a, b, w, i);
            assert(matches_row(l[i], r[j], a, b));
            assert(pair_of(l[i], r[j], w) == x);
        }
        if left_alone(l, r, a, b, x) {
            let i = choose|i: int|
                0 <= i < l.len() && !meets_some(#[trigger] l[i], r, a, b) && x == l[i] + nulls(
                    r[0].len(),
                );
            law_outer_join_keeps(l, r, a, b, w, i);
            assert forall|j: int| 0 <= j < r.len() implies !#[trigger] matches_row(
                l[i],
                r[j],
                a,
                b,
            ) by {
                law_match(l[i], r[j], a, b);
            }
            assert(l[i].subrange(0, lw as int) == l[i]);
        }
    } else {
        law_join_pairs(l, r, a, b, w, x);
        if out.contains(x) {
            let (i, j) = choose|i: int, j: int|
                0 <= i < l.len() && 0 <= j < r.len() && #[trigger] matches_row(l[i], r[j], a, b)
                    && x == pair_of(l[i], r[j], w);
            law_match(l[i], r[j], a, b);
            assert(keys_meet(l[i], r[j], a, b));
        }
        if is_pair(l, r, a, b, x) {
            let (i, j) = choose|i: int, j: int|
                0 <= i < l.len() && 0 <= j < r.len() && #[trigger] keys_meet(l[i], r[j], a, b) && x
                    == l[i] + r[j];
            law_match(l[i], r[j], a, b);
            assert(matches_row(l[i], r[j], a, b));
            assert(pair_of(l[i], r[j], w) == x);
        }
    }
}

proof fn lemma_probe_width(
    l: Seq<Seq<Datum>>,
    r: Seq<Seq<Datum>>,
    a: Seq<usize>,
    b: Seq<usize>,
    w: Widths,
    outer: bool,
    n: int,
)
    requires
        0 <= n <= l.len(),
        wide_as(l, w.probe),
        wide_as(r, w.build),
        r.len() <= usize::MAX,
    ensures
        wide_as(joined_rows(l, r, a, b, w, outer, n), w.probe + w.build),
    decreases n,
{
    if n > 0 {
        lemma_probe_width(l, r, a, b, w, outer, n - 1);
        let keys = join_keys(r, b);
        let key = join_key(l[n - 1], a);
        let found = hits(keys, key);
        lemma_equal_sound(keys, key, keys.len() as int);
        let one = joined_one(l[n - 1], r, found, w, outer);
        assert forall|i: int| 0 <= i < one.len() implies (#[trigger] one[i]).len() == w.probe
            + w.build by {
            if !(outer && found.len() == 0) {
                assert(found[i] < r.len());
                assert(r[found[i] as int].len() == w.build);
            }
        }
        let before = joined_rows(l, r, a, b, w, outer, n - 1);
        let all = joined_rows(l, r, a, b, w, outer, n);
        assert forall|i: int| 0 <= i < all.len() implies (#[trigger] all[i]).len() == w.probe
            + w.build by {
            if i < before.len() {
                assert(all[i] == before[i]);
            } else {
                assert(all[i] == one[i - before.len()]);
            }
        }
    }
}

/// A row that is turned twice is as it was.
proof fn lemma_turn_back(rows: Seq<Seq<Datum>>, n: nat, m: nat, x: Seq<Datum>)
    requires
        wide_as(rows, n + m),
    ensures
        turned(rows, n).contains(x) <==> x.len() == n + m && rows.contains(
            x.subrange(m as int, (n + m) as int) + x.subrange(0, m as int),
        ),
{
    let t = turned(rows, n);
    if t.contains(x) {
        let k = t.index_of(x);
        let y = rows[k];
        assert(y.len() == n + m);
        assert(x.subrange(m as int, (n + m) as int) + x.subrange(0, m as int) =~= y);
        assert(rows.contains(y));
    }
    if x.len() == n + m {
        let y = x.subrange(m as int, (n + m) as int) + x.subrange(0, m as int);
        if rows.contains(y) {
            let k = rows.index_of(y);
            assert(t[k] =~= x);
            assert(t.contains(x));
        }
    }
}

/// Pairs and lone rows of the exchanged sides, turned.
proof fn lemma_exchanged(
    l: Seq<Seq<Datum>>,
    r: Seq<Seq<Datum>>,
    a: Seq<usize>,
    b: Seq<usize>,
    lw: nat,
    rw: nat,
    x: Seq<Datum>,
)
    requires
        wide_as(l, lw),
        wide_as(r, rw),
        l.len() > 0,
        r.len() > 0,
    ensures
        ({
            let y = x.subrange(lw as int, (rw + lw) as int) + x.subrange(0, lw as int);
            &&& x.len() == rw + lw && is_pair(r, l, b, a, y) <==> is_pair(l, r, a, b, x)
            &&& x.len() == rw + lw && left_alone(r, l, b, a, y) <==> right_alone(l, r, a, b, x)
        }),
{
    let y = x.subrange(lw as int, (rw + lw) as int) + x.subrange(0, lw as int);
    if x.len() == rw + lw && is_pair(r, l, b, a, y) {
        let (j, i) = choose|j: int, i: int|
            0 <= j < r.len() && 0 <= i < l.len() && #[trigger] keys_meet(r[j], l[i], b, a) && y
                == r[j] + l[i];
        law_match(l[i], r[j], a, b);
        assert(r[j].len() == rw && l[i].len() == lw);
        assert(y.subrange(0, rw as int) =~= r[j]);
        assert(y.subrange(0, rw as int) =~= x.subrange(lw as int, (rw + lw) as int));
        assert(y.subrange(rw as int, (rw + lw) as int) =~= l[i]);
        assert(y.subrange(rw as int, (rw + lw) as int) =~= x.subrange(0, lw as int));
        assert(x =~= l[i] + r[j]);
        assert(keys_meet(l[i], r[j], a, b));
    }
    if is_pair(l, r, a, b, x) {
        let (i, j) = choose|i: int, j: int|
            0 <= i < l.len() && 0 <= j < r.len() && #[trigger] keys_meet(l[i], r[j], a, b) && x
                == l[i] + r[j];
        law_match(l[i], r[j], a, b);
        assert(r[j].len() == rw && l[i].len() == lw);
        assert(y =~= r[j] + l[i]);
        assert(keys_meet(r[j], l[i], b, a));
    }
    if x.len() == rw + lw && left_alone(r, l, b, a, y) {
        let j = choose|j: int|
            0 <= j < r.len() && !meets_some(#[trigger] r[j], l, b, a) && y == r[j] + nulls(
                l[0].len(),
            );
        assert(r[j].len() == rw && l[0].len() == lw);
        assert(y.subrange(0, rw as int) =~= r[j]);
        assert(y.subrange(0, rw as int) =~= x.subrange(lw as int, (rw + lw) as int));
        assert(y.subrange(rw as int, (rw + lw) as int) =~= nulls(lw));
        assert(y.subrange(rw as int, (rw + lw) as int) =~= x.subrange(0, lw as int));
        assert(x =~= nulls(lw) + r[j]);
    }
    if right_alone(l, r, a, b, x) {
        let j = choose|j: int|
            0 <= j < r.len() && !meets_some(#[trigger] r[j], l, b, a) && x == nulls(l[0].len())
                + r[j];
        assert(r[j].len() == rw && l[0].len() == lw);
        assert(y =~= r[j] + nulls(lw));
    }
}

/// The joins of two results that have rows. The inner join has the pairs of rows whose
/// keys meet, with the columns of the left side first. The left, the right and the full
/// join have besides the rows of the left, the right and both sides that meet none, with
/// NULLs for the other side. The semi join has the rows of the left side that meet one of
/// the right side, and the anti join the others.
pub proof fn law_join(
    l: Query,
    r: Query,
    t: JoinType,
    a: Seq<usize>,
    b: Seq<usize>,
    x: Seq<Datum>,
)
    requires
        rectangular(l.rows),
        rectangular(r.rows),
        0 < l.rows.len() <= usize::MAX,
        0 < r.rows.len() <= usize::MAX,
    ensures
        join_query(l, r, t, a, b).columns == l.columns + r.columns,
        join_query(l, r, t, a, b).rows.contains(x) <==> match t {
            JoinType::Inner => is_pair(l.rows, r.rows, a, b, x),
            JoinType::Left => is_pair(l.rows, r.rows, a, b, x) || left_alone(
                l.rows,
                r.rows,
                a,
                b,
                x,
            ),
            JoinType::Right => is_pair(l.rows, r.rows, a, b, x) || right_alone(
                l.rows,
                r.rows,
                a,
                b,
                x,
            ),
            JoinType::Full => is_pair(l.rows, r.rows, a, b, x) || left_alone(
                l.rows,
                r.rows,
                a,
                b,
                x,
            ) || right_alone(l.rows, r.rows, a, b, x),
            JoinType::Semi => l.rows.contains(x) && meets_some(x, r.rows, a, b),
            JoinType::Anti => l.rows.contains(x) && !meets_some(x, r.rows, a, b),
        },
{
    let (p, q) = (l.rows, r.rows);
    let (lw, rw) = (p[0].len(), q[0].len());
    let (cl, cr) = (framed(p), framed(q));
    law_frame_roundtrip(p);
    law_frame_roundtrip(q);
    assert(regular(cl) && regular(cr));
    assert(rows_of_all(cl) == p && rows_of_all(cr) == q);
    assert(cl.len() > 0 && cr.len() > 0);
    assert(cl[0].columns.len() == lw && cr[0].columns.len() == rw);
    let w = Widths { probe: lw, build: rw };
    let v = Widths { probe: rw, build: lw };
    let (m, n) = (p.len() as int, q.len() as int);
    match t {
        JoinType::Inner => {
            if n <= m {
                let out = joined_rows(p, q, a, b, w, false, m);
                lemma_probe(p, q, a, b, lw, rw, false, x);
                lemma_back(out, lw + rw);
            } else {
                lemma_right(p, q, a, b, lw, rw, false, x);
            }
        },
        JoinType::Left => {
            let out = joined_rows(p, q, a, b, w, true, m);
            lemma_probe(p, q, a, b, lw, rw, true, x);
            lemma_back(out, lw + rw);
        },
        JoinType::Right => {
            lemma_right(p, q, a, b, lw, rw, true, x);
        },
        JoinType::Full => {
            lemma_full(p, q, a, b, lw, rw, x);
        },
        JoinType::Semi => {
            let out = matched_rows(p, a, join_keys(q, b), true, m);
            lemma_matched(p, q, a, b, true, m, x);
            assert(wide_as(out, lw));
            lemma_cut_all(out, lw);
        },
        JoinType::Anti => {
            let out = matched_rows(p, a, join_keys(q, b), false, m);
            lemma_matched(p, q, a, b, false, m, x);
            assert(wide_as(out, lw));
            lemma_cut_all(out, lw);
        },
    }
}

proof fn lemma_right(
    p: Seq<Seq<Datum>>,
    q: Seq<Seq<Datum>>,
    a: Seq<usize>,
    b: Seq<usize>,
    lw: nat,
    rw: nat,
    outer: bool,
    x: Seq<Datum>,
)
    requires
        wide_as(p, lw),
        wide_as(q, rw),
        0 < p.len() <= usize::MAX,
        0 < q.len() <= usize::MAX,
    ensures
        ({
            let v = Widths { probe: rw, build: lw };
            let out = joined_rows(q, p, b, a, v, outer, q.len() as int);
            rows_in(swapped_all(batches(out), rw)).contains(x) <==> is_pair(p, q, a, b, x) || outer
                && right_alone(p, q, a, b, x)
        }),
{
    let v = Widths { probe: rw, build: lw };
    let out = joined_rows(q, p, b, a, v, outer, q.len() as int);
    let y = x.subrange(lw as int, (rw + lw) as int) + x.subrange(0, lw as int);
    lemma_probe(q, p, b, a, rw, lw, outer, y);
    lemma_back(out, rw + lw);
    lemma_turned(batches(out), rw, rw + lw);
    lemma_turn_back(out, rw, lw, x);
    lemma_exchanged(p, q, a, b, lw, rw, x);
}

proof fn lemma_full(
    p: Seq<Seq<Datum>>,
    q: Seq<Seq<Datum>>,
    a: Seq<usize>,
    b: Seq<usize>,
    lw: nat,
    rw: nat,
    x: Seq<Datum>,
)
    requires
        wide_as(p, lw),
        wide_as(q, rw),
        0 < p.len() <= usize::MAX,
        0 < q.len() <= usize::MAX,
    ensures
        ({
            let w = Widths { probe: lw, build: rw };
            let out = joined_rows(p, q, a, b, w, true, p.len() as int);
            let rest = behind_nulls(
                matched_rows(q, b, join_keys(p, a), false, q.len() as int),
                lw,
                rw,
            );
            rows_in(batches(out) + batches(rest)).contains(x) <==> is_pair(p, q, a, b, x)
                || left_alone(p, q, a, b, x) || right_alone(p, q, a, b, x)
        }),
{
    let w = Widths { probe: lw, build: rw };
    let out = joined_rows(p, q, a, b, w, true, p.len() as int);
    let lone = matched_rows(q, b, join_keys(p, a), false, q.len() as int);
    let rest = behind_nulls(lone, lw, rw);
    lemma_probe(p, q, a, b, lw, rw, true, x);
    lemma_back(out, lw + rw);
    let y = x.subrange(lw as int, x.len() as int);
    lemma_matched(q, p, b, a, false, q.len() as int, y);
    assert(wide_as(lone, rw));
    assert(wide_as(rest, lw + rw));
    lemma_back(rest, lw + rw);
    let (c, d) = (batches(out), batches(rest));
    assert(regular(c + d));
    lemma_rows_add(c, d);
    assert(rest.contains(x) <==> right_alone(p, q, a, b, x)) by {
        if rest.contains(x) {
            let k = rest.index_of(x);
            assert(lone[k].len() == rw);
            assert(lone[k].subrange(0, rw as int) =~= lone[k]);
            assert(x == nulls(lw) + lone[k]);
            assert(y =~= lone[k]);
            assert(lone.contains(y));
            let j = choose|j: int|
                0 <= j < q.len() && y == #[trigger] q[j] && meets_some(q[j], p, b, a) == false;
            assert(!meets_some(q[j], p, b, a) && x == nulls(p[0].len()) + q[j]);
        }
        if right_alone(p, q, a, b, x) {
            let j = choose|j: int|
                0 <= j < q.len() && !meets_some(#[trigger] q[j], p, b, a) && x == nulls(p[0].len())
                    + q[j];
            assert(q[j].len() == rw && p[0].len() == lw);
            assert(y =~= q[j]);
            assert(lone.contains(y));
            let k = lone.index_of(y);
            assert(lone[k].subrange(0, rw as int) =~= lone[k]);
            assert(rest[k] == x);
        }
    }
    let all = out + rest;
    assert(all.contains(x) <==> out.contains(x) || rest.contains(x)) by {
        if out.contains(x) {
            let k = out.index_of(x);
            assert(all[k] == x);
        }
        if rest.contains(x) {
            let k = rest.index_of(x);
            assert(all[out.len() + k] == x);
        }
        if all.contains(x) {
            let k = all.index_of(x);
            if k < out.len() {
                assert(out[k] == x);
            } else {
                assert(rest[k - out.len()] == x);
            }
        }
    }
}

} // verus!
