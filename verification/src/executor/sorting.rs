//! Stable sorting of rows by positions.
use vstd::prelude::*;

use crate::value::{clone_row, Datum};
use crate::Value;

verus! {

/// An order of rows: negative where the first goes before the second, positive
/// where it goes behind, 0 where either may go first.
pub open spec fn merge(
    rows: Seq<Seq<Datum>>,
    ord: spec_fn(Seq<Datum>, Seq<Datum>) -> int,
    x: Seq<usize>,
    y: Seq<usize>,
) -> Seq<usize>
    decreases x.len() + y.len(),
{
    if x.len() == 0 {
        y
    } else if y.len() == 0 {
        x
    } else if ord(rows[x[0] as int], rows[y[0] as int]) <= 0 {
        seq![x[0]] + merge(rows, ord, x.drop_first(), y)
    } else {
        seq![y[0]] + merge(rows, ord, x, y.drop_first())
    }
}

/// The positions from `lo` to `hi` in the order of their rows. Rows of which
/// either may go first keep their order.
pub open spec fn sorted_positions(
    rows: Seq<Seq<Datum>>,
    ord: spec_fn(Seq<Datum>, Seq<Datum>) -> int,
    lo: int,
    hi: int,
) -> Seq<usize>
    decreases hi - lo,
{
    if hi <= lo {
        Seq::empty()
    } else if hi == lo + 1 {
        seq![lo as usize]
    } else {
        let mid = (lo + hi) / 2;
        merge(
            rows,
            ord,
            sorted_positions(rows, ord, lo, mid),
            sorted_positions(rows, ord, mid, hi),
        )
    }
}

/// The rows at the given positions.
pub open spec fn rows_at(rows: Seq<Seq<Datum>>, p: Seq<usize>) -> Seq<Seq<Datum>> {
    Seq::new(p.len(), |i: int| rows[p[i] as int])
}

/// Rows sorted; rows of which either may go first keep their order.
pub open spec fn sorted_rows(
    rows: Seq<Seq<Datum>>,
    ord: spec_fn(Seq<Datum>, Seq<Datum>) -> int,
) -> Seq<Seq<Datum>> {
    rows_at(rows, sorted_positions(rows, ord, 0, rows.len() as int))
}

/// Whether an order is consistent on rows: opposite when its operands are
/// exchanged, and transitive.
pub open spec fn consistent(
    rows: Seq<Seq<Datum>>,
    ord: spec_fn(Seq<Datum>, Seq<Datum>) -> int,
) -> bool {
    &&& forall|i: int, j: int|
        #![trigger ord(rows[i], rows[j])]
        0 <= i < rows.len() && 0 <= j < rows.len() ==> (ord(rows[i], rows[j]) <= 0 <==> ord(
            rows[j],
            rows[i],
        ) >= 0)
    &&& forall|i: int, j: int, k: int|
        #![trigger ord(rows[i], rows[j]), ord(rows[j], rows[k])]
        0 <= i < rows.len() && 0 <= j < rows.len() && 0 <= k < rows.len() && ord(rows[i], rows[j])
            <= 0 && ord(rows[j], rows[k]) <= 0 ==> ord(rows[i], rows[k]) <= 0 && (ord(
            rows[i],
            rows[k],
        ) == 0 ==> ord(rows[i], rows[j]) == 0 && ord(rows[j], rows[k]) == 0)
}

/// Whether position `a` goes before position `b`: by the order of their rows,
/// or by the positions where either row may go first.
pub open spec fn goes_before(
    rows: Seq<Seq<Datum>>,
    ord: spec_fn(Seq<Datum>, Seq<Datum>) -> int,
    a: usize,
    b: usize,
) -> bool {
    let c = ord(rows[a as int], rows[b as int]);
    c < 0 || (c == 0 && a < b)
}

/// Whether positions are in order.
pub open spec fn in_order(
    rows: Seq<Seq<Datum>>,
    ord: spec_fn(Seq<Datum>, Seq<Datum>) -> int,
    p: Seq<usize>,
) -> bool {
    forall|i: int, j: int| 0 <= i < j < p.len() ==> goes_before(rows, ord, p[i], p[j])
}

/// The positions from `lo` to `hi`.
pub open spec fn span(lo: int, hi: int) -> Seq<usize> {
    Seq::new((hi - lo) as nat, |i: int| (lo + i) as usize)
}

proof fn lemma_merge_multiset(
    rows: Seq<Seq<Datum>>,
    ord: spec_fn(Seq<Datum>, Seq<Datum>) -> int,
    x: Seq<usize>,
    y: Seq<usize>,
)
    ensures
        merge(rows, ord, x, y).to_multiset() == (x + y).to_multiset(),
        merge(rows, ord, x, y).len() == x.len() + y.len(),
    decreases x.len() + y.len(),
{
    broadcast use vstd::seq_lib::group_to_multiset_ensures;

    vstd::seq_lib::lemma_multiset_commutative(x, y);
    if x.len() == 0 {
        assert(x + y =~= y);
    } else if y.len() == 0 {
        assert(x + y =~= x);
    } else if ord(rows[x[0] as int], rows[y[0] as int]) <= 0 {
        let t = x.drop_first();
        lemma_merge_multiset(rows, ord, t, y);
        let rest = merge(rows, ord, t, y);
        vstd::seq_lib::lemma_multiset_commutative(seq![x[0]], rest);
        vstd::seq_lib::lemma_multiset_commutative(seq![x[0]], t + y);
        assert(x + y =~= seq![x[0]] + (t + y));
    } else {
        let t = y.drop_first();
        lemma_merge_multiset(rows, ord, x, t);
        let rest = merge(rows, ord, x, t);
        vstd::seq_lib::lemma_multiset_commutative(seq![y[0]], rest);
        vstd::seq_lib::lemma_multiset_commutative(x, t);
        vstd::seq_lib::lemma_multiset_commutative(seq![y[0]], t);
        assert(y =~= seq![y[0]] + t);
        assert((x + y).to_multiset() =~= seq![y[0]].to_multiset().add((x + t).to_multiset()));
    }
}

/// Sorting permutes: the sorted positions are the positions, each once.
pub proof fn law_sort_permutes(
    rows: Seq<Seq<Datum>>,
    ord: spec_fn(Seq<Datum>, Seq<Datum>) -> int,
    lo: int,
    hi: int,
)
    requires
        0 <= lo <= hi <= usize::MAX,
    ensures
        sorted_positions(rows, ord, lo, hi).to_multiset() == span(lo, hi).to_multiset(),
        sorted_positions(rows, ord, lo, hi).len() == hi - lo,
        forall|i: int|
            0 <= i < hi - lo ==> lo <= #[trigger] sorted_positions(rows, ord, lo, hi)[i] < hi,
    decreases hi - lo,
{
    broadcast use vstd::seq_lib::group_to_multiset_ensures;

    let s = sorted_positions(rows, ord, lo, hi);
    if hi <= lo {
        assert(span(lo, hi) =~= Seq::<usize>::empty());
    } else if hi == lo + 1 {
        assert(span(lo, hi) =~= seq![lo as usize]);
    } else {
        let mid = (lo + hi) / 2;
        law_sort_permutes(rows, ord, lo, mid);
        law_sort_permutes(rows, ord, mid, hi);
        let (x, y) = (sorted_positions(rows, ord, lo, mid), sorted_positions(rows, ord, mid, hi));
        lemma_merge_multiset(rows, ord, x, y);
        vstd::seq_lib::lemma_multiset_commutative(x, y);
        vstd::seq_lib::lemma_multiset_commutative(span(lo, mid), span(mid, hi));
        assert(span(lo, mid) + span(mid, hi) =~= span(lo, hi));
    }
    assert forall|i: int| 0 <= i < hi - lo implies lo <= #[trigger] s[i] < hi by {
        assert(s.to_multiset().count(s[i]) > 0);
        assert(span(lo, hi).to_multiset().count(s[i]) > 0);
        assert(span(lo, hi).contains(s[i]));
    }
}

proof fn lemma_merge_parts(
    rows: Seq<Seq<Datum>>,
    ord: spec_fn(Seq<Datum>, Seq<Datum>) -> int,
    x: Seq<usize>,
    y: Seq<usize>,
)
    ensures
        forall|i: int|
            0 <= i < merge(rows, ord, x, y).len() ==> x.contains(
                #[trigger] merge(rows, ord, x, y)[i],
            ) || y.contains(merge(rows, ord, x, y)[i]),
    decreases x.len() + y.len(),
{
    let m = merge(rows, ord, x, y);
    if x.len() == 0 {
        assert forall|i: int| 0 <= i < m.len() implies y.contains(#[trigger] m[i]) by {
            assert(y[i] == m[i]);
        }
    } else if y.len() == 0 {
        assert forall|i: int| 0 <= i < m.len() implies x.contains(#[trigger] m[i]) by {
            assert(x[i] == m[i]);
        }
    } else if ord(rows[x[0] as int], rows[y[0] as int]) <= 0 {
        let t = x.drop_first();
        lemma_merge_parts(rows, ord, t, y);
        let rest = merge(rows, ord, t, y);
        assert forall|i: int| 0 <= i < m.len() implies x.contains(#[trigger] m[i]) || y.contains(
            m[i],
        ) by {
            if i == 0 {
                assert(x[0] == m[0]);
            } else {
                assert(m[i] == rest[i - 1]);
                if t.contains(m[i]) {
                    let k = choose|k: int| 0 <= k < t.len() && t[k] == m[i];
                    assert(x[k + 1] == m[i]);
                }
            }
        }
    } else {
        let t = y.drop_first();
        lemma_merge_parts(rows, ord, x, t);
        let rest = merge(rows, ord, x, t);
        assert forall|i: int| 0 <= i < m.len() implies x.contains(#[trigger] m[i]) || y.contains(
            m[i],
        ) by {
            if i == 0 {
                assert(y[0] == m[0]);
            } else {
                assert(m[i] == rest[i - 1]);
                if t.contains(m[i]) {
                    let k = choose|k: int| 0 <= k < t.len() && t[k] == m[i];
                    assert(y[k + 1] == m[i]);
                }
            }
        }
    }
}

/// Going before is transitive.
proof fn lemma_before(
    rows: Seq<Seq<Datum>>,
    ord: spec_fn(Seq<Datum>, Seq<Datum>) -> int,
    a: usize,
    b: usize,
    c: usize,
)
    requires
        consistent(rows, ord),
        a < rows.len(),
        b < rows.len(),
        c < rows.len(),
        goes_before(rows, ord, a, b),
        goes_before(rows, ord, b, c),
    ensures
        goes_before(rows, ord, a, c),
{
    assert(ord(rows[a as int], rows[b as int]) <= 0);
    assert(ord(rows[b as int], rows[c as int]) <= 0);
}

proof fn lemma_merge_order(
    rows: Seq<Seq<Datum>>,
    ord: spec_fn(Seq<Datum>, Seq<Datum>) -> int,
    x: Seq<usize>,
    y: Seq<usize>,
)
    requires
        consistent(rows, ord),
        in_order(rows, ord, x),
        in_order(rows, ord, y),
        forall|i: int| 0 <= i < x.len() ==> (#[trigger] x[i]) < rows.len(),
        forall|i: int| 0 <= i < y.len() ==> (#[trigger] y[i]) < rows.len(),
        forall|i: int, j: int| 0 <= i < x.len() && 0 <= j < y.len() ==> x[i] < y[j],
    ensures
        in_order(rows, ord, merge(rows, ord, x, y)),
    decreases x.len() + y.len(),
{
    let m = merge(rows, ord, x, y);
    if x.len() > 0 && y.len() > 0 {
        let first = ord(rows[x[0] as int], rows[y[0] as int]) <= 0;
        let (t, u) = if first {
            (x.drop_first(), y)
        } else {
            (x, y.drop_first())
        };
        lemma_merge_order(rows, ord, t, u);
        lemma_merge_parts(rows, ord, t, u);
        let rest = merge(rows, ord, t, u);
        let h = if first {
            x[0]
        } else {
            y[0]
        };
        if !first {
            assert(ord(rows[y[0] as int], rows[x[0] as int]) < 0) by {
                assert(ord(rows[x[0] as int], rows[y[0] as int]) > 0);
            }
        }
        assert forall|i: int, j: int| 0 <= i < j < m.len() implies goes_before(
            rows,
            ord,
            m[i],
            m[j],
        ) by {
            assert(m[j] == rest[j - 1]);
            if i > 0 {
                assert(m[i] == rest[i - 1]);
            } else {
                assert(m[0] == h);
                if t.contains(m[j]) {
                    let k = choose|k: int| 0 <= k < t.len() && t[k] == m[j];
                    if first {
                        assert(x[k + 1] == m[j]);
                    } else {
                        assert(x[k] == m[j]);
                        if k > 0 {
                            lemma_before(rows, ord, y[0], x[0], x[k]);
                        }
                    }
                } else {
                    let k = choose|k: int| 0 <= k < u.len() && u[k] == m[j];
                    if first {
                        assert(y[k] == m[j]);
                        assert(goes_before(rows, ord, x[0], y[0]));
                        if k > 0 {
                            lemma_before(rows, ord, x[0], y[0], y[k]);
                        }
                    } else {
                        assert(y[k + 1] == m[j]);
                    }
                }
            }
        }
    }
}

/// Sorting sorts, and is stable: in the sorted positions, those whose rows
/// order them differently stand by that order, the others by their position.
pub proof fn law_sort_sorts(
    rows: Seq<Seq<Datum>>,
    ord: spec_fn(Seq<Datum>, Seq<Datum>) -> int,
    lo: int,
    hi: int,
)
    requires
        consistent(rows, ord),
        0 <= lo <= hi <= rows.len() <= usize::MAX,
    ensures
        in_order(rows, ord, sorted_positions(rows, ord, lo, hi)),
    decreases hi - lo,
{
    if hi > lo + 1 {
        let mid = (lo + hi) / 2;
        law_sort_sorts(rows, ord, lo, mid);
        law_sort_sorts(rows, ord, mid, hi);
        law_sort_permutes(rows, ord, lo, mid);
        law_sort_permutes(rows, ord, mid, hi);
        let (x, y) = (sorted_positions(rows, ord, lo, mid), sorted_positions(rows, ord, mid, hi));
        assert forall|i: int, j: int| 0 <= i < x.len() && 0 <= j < y.len() implies x[i] < y[j] by {
            assert(x[i] < mid && mid <= y[j]);
        }
        lemma_merge_order(rows, ord, x, y);
    }
}

fn merge_positions<G: Fn(&Vec<Value>, &Vec<Value>) -> i8>(
    rows: &Vec<Vec<Value>>,
    x: &Vec<usize>,
    y: &Vec<usize>,
    g: &G,
    Ghost(ord): Ghost<spec_fn(Seq<Datum>, Seq<Datum>) -> int>,
) -> (r: Vec<usize>)
    requires
        forall|a: &Vec<Value>, b: &Vec<Value>| #[trigger] call_requires(*g, (a, b)),
        forall|a: &Vec<Value>, b: &Vec<Value>, c: i8| #[trigger]
            call_ensures(*g, (a, b), c) ==> c == ord(a.deep_view(), b.deep_view()),
        forall|i: int| 0 <= i < x.len() ==> (#[trigger] x[i]) < rows.len(),
        forall|i: int| 0 <= i < y.len() ==> (#[trigger] y[i]) < rows.len(),
    ensures
        r@ == merge(rows.deep_view(), ord, x@, y@),
{
    let ghost view = rows.deep_view();
    let mut out: Vec<usize> = Vec::new();
    let mut i: usize = 0;
    let mut j: usize = 0;
    let ghost want = merge(view, ord, x@, y@);
    proof {
        assert(x@.subrange(0, x.len() as int) =~= x@);
        assert(y@.subrange(0, y.len() as int) =~= y@);
        assert(out@ + want =~= want);
    }
    while i < x.len() && j < y.len()
        invariant
            forall|a: &Vec<Value>, b: &Vec<Value>| #[trigger] call_requires(*g, (a, b)),
            forall|a: &Vec<Value>, b: &Vec<Value>, c: i8| #[trigger]
                call_ensures(*g, (a, b), c) ==> c == ord(a.deep_view(), b.deep_view()),
            forall|i: int| 0 <= i < x.len() ==> (#[trigger] x[i]) < rows.len(),
            forall|i: int| 0 <= i < y.len() ==> (#[trigger] y[i]) < rows.len(),
            view == rows.deep_view(),
            i <= x.len(),
            j <= y.len(),
            out@ + merge(
                view,
                ord,
                x@.subrange(i as int, x.len() as int),
                y@.subrange(j as int, y.len() as int),
            ) == want,
        decreases x.len() - i + y.len() - j,
    {
        let ghost xs = x@.subrange(i as int, x.len() as int);
        let ghost ys = y@.subrange(j as int, y.len() as int);
        let ghost before = out@;
        let a: usize = x[i];
        let b: usize = y[j];
        assert(x[i as int] < rows.len() && y[j as int] < rows.len());
        assert(view[a as int] == rows[a as int].deep_view());
        assert(view[b as int] == rows[b as int].deep_view());
        assert(xs[0] == a && ys[0] == b);
        let c: i8 = g(&rows[a], &rows[b]);
        if c <= 0 {
            out.push(a);
            i += 1;
            assert(xs.drop_first() =~= x@.subrange(i as int, x.len() as int));
            let ghost rest = merge(view, ord, xs.drop_first(), ys);
            assert(out@ + rest =~= before + (seq![a] + rest));
        } else {
            out.push(b);
            j += 1;
            assert(ys.drop_first() =~= y@.subrange(j as int, y.len() as int));
            let ghost rest = merge(view, ord, xs, ys.drop_first());
            assert(out@ + rest =~= before + (seq![b] + rest));
        }
    }
    let ghost head = out@;
    let ghost (i0, j0) = (i, j);
    let ghost tail = merge(
        view,
        ord,
        x@.subrange(i as int, x.len() as int),
        y@.subrange(j as int, y.len() as int),
    );
    while i < x.len()
        invariant
            i0 <= i <= x.len(),
            out@ == head + x@.subrange(i0 as int, i as int),
        decreases x.len() - i,
    {
        out.push(x[i]);
        i += 1;
        assert(out@ =~= head + x@.subrange(i0 as int, i as int));
    }
    let ghost mid = out@;
    while j < y.len()
        invariant
            j0 <= j <= y.len(),
            out@ == mid + y@.subrange(j0 as int, j as int),
        decreases y.len() - j,
    {
        out.push(y[j]);
        j += 1;
        assert(out@ =~= mid + y@.subrange(j0 as int, j as int));
    }
    proof {
        let xs = x@.subrange(i0 as int, x.len() as int);
        let ys = y@.subrange(j0 as int, y.len() as int);
        if xs.len() == 0 {
            assert(tail == ys);
        } else {
            assert(ys.len() == 0);
            assert(tail == xs);
        }
        assert(out@ =~= head + xs + ys);
        assert(out@ =~= want);
    }
    out
}

fn sort_span<G: Fn(&Vec<Value>, &Vec<Value>) -> i8>(
    rows: &Vec<Vec<Value>>,
    lo: usize,
    hi: usize,
    g: &G,
    Ghost(ord): Ghost<spec_fn(Seq<Datum>, Seq<Datum>) -> int>,
) -> (r: Vec<usize>)
    requires
        forall|a: &Vec<Value>, b: &Vec<Value>| #[trigger] call_requires(*g, (a, b)),
        forall|a: &Vec<Value>, b: &Vec<Value>, c: i8| #[trigger]
            call_ensures(*g, (a, b), c) ==> c == ord(a.deep_view(), b.deep_view()),
        lo <= hi <= rows.len(),
    ensures
        r@ == sorted_positions(rows.deep_view(), ord, lo as int, hi as int),
    decreases hi - lo,
{
    let mut out: Vec<usize> = Vec::new();
    if hi - lo == 0 {
        assert(out@ =~= Seq::<usize>::empty());
        return out;
    }
    if hi - lo == 1 {
        out.push(lo);
        assert(out@ =~= seq![lo]);
        return out;
    }
    let mid: usize = lo + (hi - lo) / 2;
    assert(mid as int == (lo + hi) / 2);
    let x = sort_span(rows, lo, mid, g, Ghost(ord));
    let y = sort_span(rows, mid, hi, g, Ghost(ord));
    proof {
        law_sort_permutes(rows.deep_view(), ord, lo as int, mid as int);
        law_sort_permutes(rows.deep_view(), ord, mid as int, hi as int);
    }
    merge_positions(rows, &x, &y, g, Ghost(ord))
}

/// Sorts rows by `g`, which computes `ord`; rows of which either may go first
/// keep their order.
pub fn sort_rows_by<G: Fn(&Vec<Value>, &Vec<Value>) -> i8>(
    rows: &Vec<Vec<Value>>,
    g: G,
    Ghost(ord): Ghost<spec_fn(Seq<Datum>, Seq<Datum>) -> int>,
) -> (r: Vec<Vec<Value>>)
    requires
        forall|a: &Vec<Value>, b: &Vec<Value>| #[trigger] call_requires(g, (a, b)),
        forall|a: &Vec<Value>, b: &Vec<Value>, c: i8| #[trigger]
            call_ensures(g, (a, b), c) ==> c == ord(a.deep_view(), b.deep_view()),
    ensures
        r.deep_view() == sorted_rows(rows.deep_view(), ord),
{
    let ghost view = rows.deep_view();
    let order = sort_span(rows, 0, rows.len(), &g, Ghost(ord));
    proof {
        law_sort_permutes(view, ord, 0, rows.len() as int);
    }
    let mut out: Vec<Vec<Value>> = Vec::new();
    let mut i: usize = 0;
    while i < order.len()
        invariant
            view == rows.deep_view(),
            forall|k: int| 0 <= k < order.len() ==> (#[trigger] order[k]) < rows.len(),
            i <= order.len(),
            out.len() == i,
            forall|k: int|
                0 <= k < i ==> (#[trigger] out[k]).deep_view() == view[order[k] as int],
        decreases order.len() - i,
    {
        let p: usize = order[i];
        assert(view[p as int] == rows[p as int].deep_view());
        let row = clone_row(&rows[p]);
        out.push(row);
        i += 1;
    }
    assert(out.deep_view() =~= rows_at(view, order@));
    out
}

} // verus!
