//! What holds of joins and of sets of rows.
use vstd::prelude::*;

use crate::executor::key_index::{
    equal_positions, lemma_equal_sound, row_position,
};
use crate::executor::operators::hash_join::{
    has_null, hits, join_key, join_keys, joined_one, joined_rows, matched_rows, nulls, Widths,
};
use crate::executor::relational::{crossed, kept_rows, paired, unique_rows, united};
use crate::executor::physical_plan::SetUnionOp;
use crate::value::Datum;

verus! {

/// Whether the keys of two rows are equal and hold no NULL.
pub open spec fn matches_row(
    row: Seq<Datum>,
    other: Seq<Datum>,
    a: Seq<usize>,
    b: Seq<usize>,
) -> bool {
    join_key(row, a) == join_key(other, b) && !has_null(join_key(row, a))
}

/// Every row with an equal key is among the positions.
proof fn lemma_equal_complete(rows: Seq<Seq<Datum>>, key: Seq<Datum>, n: int, p: int)
    requires
        0 <= p < n <= rows.len() <= usize::MAX,
        rows[p] == key,
    ensures
        equal_positions(rows, key, n).contains(p as usize),
    decreases n,
{
    let after = equal_positions(rows, key, n);
    if p == n - 1 {
        assert(after[after.len() - 1] == p as usize);
    } else {
        lemma_equal_complete(rows, key, n - 1, p);
        let before = equal_positions(rows, key, n - 1);
        let k = choose|k: int| 0 <= k < before.len() && before[k] == p as usize;
        assert(after[k] == p as usize);
    }
}

/// The rows that a row hits are those that it matches.
pub proof fn lemma_hits(
    build: Seq<Seq<Datum>>,
    bk: Seq<usize>,
    row: Seq<Datum>,
    pk: Seq<usize>,
    j: int,
)
    requires
        build.len() <= usize::MAX,
        0 <= j < build.len(),
    ensures
        hits(join_keys(build, bk), join_key(row, pk)).contains(j as usize) == matches_row(
            row,
            build[j],
            pk,
            bk,
        ),
{
    let keys = join_keys(build, bk);
    let key = join_key(row, pk);
    lemma_equal_sound(keys, key, keys.len() as int);
    let found = equal_positions(keys, key, keys.len() as int);
    if keys[j] == key {
        lemma_equal_complete(keys, key, keys.len() as int, j);
    } else if found.contains(j as usize) {
        let k = choose|k: int| 0 <= k < found.len() && found[k] == j as usize;
        assert(keys[found[k] as int] == key);
    }
}

/// A row of an inner join: the columns of two rows.
pub open spec fn pair_of(row: Seq<Datum>, other: Seq<Datum>, w: Widths) -> Seq<Datum> {
    row.subrange(0, w.probe as int) + other.subrange(0, w.build as int)
}

/// A join on equal keys has the pairs of the rows that match, and, apart from
/// the rows that an outer join fills with NULLs, no others.
pub proof fn law_join_pairs(
    probe: Seq<Seq<Datum>>,
    build: Seq<Seq<Datum>>,
    pk: Seq<usize>,
    bk: Seq<usize>,
    w: Widths,
    x: Seq<Datum>,
)
    requires
        build.len() <= usize::MAX,
    ensures
        joined_rows(probe, build, pk, bk, w, false, probe.len() as int).contains(x) <==> exists|
            i: int,
            j: int,
        |
            0 <= i < probe.len() && 0 <= j < build.len() && #[trigger] matches_row(
                probe[i],
                build[j],
                pk,
                bk,
            ) && x == pair_of(probe[i], build[j], w),
{
    lemma_inner(probe, build, pk, bk, w, x, probe.len() as int);
}

proof fn lemma_inner(
    probe: Seq<Seq<Datum>>,
    build: Seq<Seq<Datum>>,
    pk: Seq<usize>,
    bk: Seq<usize>,
    w: Widths,
    x: Seq<Datum>,
    n: int,
)
    requires
        build.len() <= usize::MAX,
        0 <= n <= probe.len(),
    ensures
        joined_rows(probe, build, pk, bk, w, false, n).contains(x) <==> exists|i: int, j: int|
            0 <= i < n && 0 <= j < build.len() && #[trigger] matches_row(
                probe[i],
                build[j],
                pk,
                bk,
            ) && x == pair_of(probe[i], build[j], w),
    decreases n,
{
    if n > 0 {
        lemma_inner(probe, build, pk, bk, w, x, n - 1);
        let row = probe[n - 1];
        let found = hits(join_keys(build, bk), join_key(row, pk));
        let one = joined_one(row, build, found, w, false);
        let before = joined_rows(probe, build, pk, bk, w, false, n - 1);
        let all = joined_rows(probe, build, pk, bk, w, false, n);
        assert(all == before + one);
        if all.contains(x) {
            let k = choose|k: int| 0 <= k < all.len() && all[k] == x;
            if k < before.len() {
                assert(before[k] == x);
            } else {
                assert(one[k - before.len()] == x);
                let j = found[k - before.len()] as int;
                lemma_equal_sound(
                    join_keys(build, bk),
                    join_key(row, pk),
                    join_keys(build, bk).len() as int,
                );
                assert(found.contains(j as usize));
                lemma_hits(build, bk, row, pk, j);
                assert(matches_row(probe[n - 1], build[j], pk, bk));
            }
        }
        if exists|i: int, j: int|
            0 <= i < n && 0 <= j < build.len() && #[trigger] matches_row(
                probe[i],
                build[j],
                pk,
                bk,
            ) && x == pair_of(probe[i], build[j], w) {
            let (i, j) = choose|i: int, j: int|
                0 <= i < n && 0 <= j < build.len() && #[trigger] matches_row(
                    probe[i],
                    build[j],
                    pk,
                    bk,
                ) && x == pair_of(probe[i], build[j], w);
            if i < n - 1 {
                let k = choose|k: int| 0 <= k < before.len() && before[k] == x;
                assert(all[k] == x);
            } else {
                lemma_hits(build, bk, row, pk, j);
                let k = choose|k: int| 0 <= k < found.len() && found[k] == j as usize;
                assert(one[k] == x);
                assert(all[before.len() + k] == x);
            }
        }
    }
}

/// An outer join has for every row the pairs with the rows that it matches,
/// or, where it matches none, the row filled with NULLs.
pub proof fn law_outer_join_keeps(
    probe: Seq<Seq<Datum>>,
    build: Seq<Seq<Datum>>,
    pk: Seq<usize>,
    bk: Seq<usize>,
    w: Widths,
    i: int,
)
    requires
        build.len() <= usize::MAX,
        0 <= i < probe.len(),
    ensures
        forall|j: int|
            0 <= j < build.len() && #[trigger] matches_row(probe[i], build[j], pk, bk)
                ==> joined_rows(probe, build, pk, bk, w, true, probe.len() as int).contains(
                pair_of(probe[i], build[j], w),
            ),
        (forall|j: int|
            0 <= j < build.len() ==> !#[trigger] matches_row(probe[i], build[j], pk, bk))
            ==> joined_rows(probe, build, pk, bk, w, true, probe.len() as int).contains(
            probe[i].subrange(0, w.probe as int) + nulls(w.build),
        ),
{
    let found = hits(join_keys(build, bk), join_key(probe[i], pk));
    let one = joined_one(probe[i], build, found, w, true);
    let all = joined_rows(probe, build, pk, bk, w, true, probe.len() as int);
    assert forall|j: int|
        0 <= j < build.len() && #[trigger] matches_row(probe[i], build[j], pk, bk) implies all.contains(
    pair_of(probe[i], build[j], w)) by {
        lemma_hits(build, bk, probe[i], pk, j);
        let k = choose|k: int| 0 <= k < found.len() && found[k] == j as usize;
        assert(one[k] == pair_of(probe[i], build[j], w));
        lemma_part(probe, build, pk, bk, w, true, i, k, probe.len() as int);
    }
    if forall|j: int|
        0 <= j < build.len() ==> !#[trigger] matches_row(probe[i], build[j], pk, bk) {
        if found.len() > 0 {
            let j = found[0] as int;
            lemma_equal_sound(
                join_keys(build, bk),
                join_key(probe[i], pk),
                join_keys(build, bk).len() as int,
            );
            assert(found.contains(j as usize));
            lemma_hits(build, bk, probe[i], pk, j);
            assert(!matches_row(probe[i], build[j], pk, bk));
        }
        assert(one[0] == probe[i].subrange(0, w.probe as int) + nulls(w.build));
        lemma_part(probe, build, pk, bk, w, true, i, 0, probe.len() as int);
    }
}

/// What one row gives is in what all of them give.
proof fn lemma_part(
    probe: Seq<Seq<Datum>>,
    build: Seq<Seq<Datum>>,
    pk: Seq<usize>,
    bk: Seq<usize>,
    w: Widths,
    outer: bool,
    i: int,
    k: int,
    n: int,
)
    requires
        0 <= i < n <= probe.len(),
        0 <= k < joined_one(
            probe[i],
            build,
            hits(join_keys(build, bk), join_key(probe[i], pk)),
            w,
            outer,
        ).len(),
    ensures
        joined_rows(probe, build, pk, bk, w, outer, n).contains(
            joined_one(
                probe[i],
                build,
                hits(join_keys(build, bk), join_key(probe[i], pk)),
                w,
                outer,
            )[k],
        ),
    decreases n,
{
    let one = joined_one(
        probe[i],
        build,
        hits(join_keys(build, bk), join_key(probe[i], pk)),
        w,
        outer,
    );
    let before = joined_rows(probe, build, pk, bk, w, outer, n - 1);
    let all = joined_rows(probe, build, pk, bk, w, outer, n);
    if i == n - 1 {
        assert(all[before.len() + k] == one[k]);
    } else {
        lemma_part(probe, build, pk, bk, w, outer, i, k, n - 1);
        let p = choose|p: int| 0 <= p < before.len() && before[p] == one[k];
        assert(all[p] == one[k]);
    }
}

/// A row of an outer join is a pair of rows that match, or a row that matches
/// nothing, filled with NULLs.
pub proof fn law_outer_join_rows(
    probe: Seq<Seq<Datum>>,
    build: Seq<Seq<Datum>>,
    pk: Seq<usize>,
    bk: Seq<usize>,
    w: Widths,
    x: Seq<Datum>,
)
    requires
        build.len() <= usize::MAX,
        joined_rows(probe, build, pk, bk, w, true, probe.len() as int).contains(x),
    ensures
        exists|i: int|
            0 <= i < probe.len() && #[trigger] from_row(probe[i], build, pk, bk, w, x),
{
    lemma_outer_rows(probe, build, pk, bk, w, x, probe.len() as int);
}

/// Whether a row of an outer join comes from a row of the side that it keeps.
pub open spec fn from_row(
    row: Seq<Datum>,
    build: Seq<Seq<Datum>>,
    pk: Seq<usize>,
    bk: Seq<usize>,
    w: Widths,
    x: Seq<Datum>,
) -> bool {
    ||| exists|j: int|
        0 <= j < build.len() && #[trigger] matches_row(row, build[j], pk, bk) && x == pair_of(
            row,
            build[j],
            w,
        )
    ||| (forall|j: int| 0 <= j < build.len() ==> !#[trigger] matches_row(row, build[j], pk, bk))
        && x == row.subrange(0, w.probe as int) + nulls(w.build)
}

proof fn lemma_outer_rows(
    probe: Seq<Seq<Datum>>,
    build: Seq<Seq<Datum>>,
    pk: Seq<usize>,
    bk: Seq<usize>,
    w: Widths,
    x: Seq<Datum>,
    n: int,
)
    requires
        build.len() <= usize::MAX,
        0 <= n <= probe.len(),
        joined_rows(probe, build, pk, bk, w, true, n).contains(x),
    ensures
        exists|i: int|
            0 <= i < probe.len() && #[trigger] from_row(probe[i], build, pk, bk, w, x),
    decreases n,
{
    if n > 0 {
        let row = probe[n - 1];
        let found = hits(join_keys(build, bk), join_key(row, pk));
        let one = joined_one(row, build, found, w, true);
        let before = joined_rows(probe, build, pk, bk, w, true, n - 1);
        let all = joined_rows(probe, build, pk, bk, w, true, n);
        let k = choose|k: int| 0 <= k < all.len() && all[k] == x;
        if k < before.len() {
            assert(before[k] == x);
            lemma_outer_rows(probe, build, pk, bk, w, x, n - 1);
        } else {
            assert(one[k - before.len()] == x);
            lemma_equal_sound(
                join_keys(build, bk),
                join_key(row, pk),
                join_keys(build, bk).len() as int,
            );
            if found.len() > 0 {
                let j = found[k - before.len()] as int;
                assert(found.contains(j as usize));
                lemma_hits(build, bk, row, pk, j);
                assert(matches_row(row, build[j], pk, bk));
            } else {
                assert forall|j: int| 0 <= j < build.len() implies !#[trigger] matches_row(
                    row,
                    build[j],
                    pk,
                    bk,
                ) by {
                    lemma_hits(build, bk, row, pk, j);
                }
            }
            assert(from_row(probe[n - 1], build, pk, bk, w, x));
        }
    }
}

/// Every row is in the semi join or in the anti join, as often as it occurs,
/// and in one of the two only.
pub proof fn law_semi_and_anti(
    rows: Seq<Seq<Datum>>,
    cols: Seq<usize>,
    keys: Seq<Seq<Datum>>,
    n: int,
)
    requires
        0 <= n <= rows.len(),
    ensures
        matched_rows(rows, cols, keys, true, n).to_multiset().add(
            matched_rows(rows, cols, keys, false, n).to_multiset(),
        ) == rows.subrange(0, n).to_multiset(),
        forall|x: Seq<Datum>|
            !(matched_rows(rows, cols, keys, true, n).contains(x) && matched_rows(
                rows,
                cols,
                keys,
                false,
                n,
            ).contains(x)),
    decreases n,
{
    broadcast use vstd::seq_lib::group_to_multiset_ensures;

    let (s, a) = (
        matched_rows(rows, cols, keys, true, n),
        matched_rows(rows, cols, keys, false, n),
    );
    if n > 0 {
        law_semi_and_anti(rows, cols, keys, n - 1);
        let (s0, a0) = (
            matched_rows(rows, cols, keys, true, n - 1),
            matched_rows(rows, cols, keys, false, n - 1),
        );
        let front = rows.subrange(0, n - 1);
        assert(rows.subrange(0, n) =~= front.push(rows[n - 1]));
        assert(s.to_multiset().add(a.to_multiset()) =~= s0.to_multiset().add(
            a0.to_multiset(),
        ).insert(rows[n - 1]));
    } else {
        assert(rows.subrange(0, 0) =~= Seq::<Seq<Datum>>::empty());
        assert(s.to_multiset().add(a.to_multiset()) =~= rows.subrange(0, 0).to_multiset());
    }
    lemma_matched(rows, cols, keys, true, n);
    lemma_matched(rows, cols, keys, false, n);
}

/// The rows of a semi join match a key, those of an anti join do not.
proof fn lemma_matched(
    rows: Seq<Seq<Datum>>,
    cols: Seq<usize>,
    keys: Seq<Seq<Datum>>,
    wanted: bool,
    n: int,
)
    requires
        0 <= n <= rows.len(),
    ensures
        forall|x: Seq<Datum>| #[trigger]
            matched_rows(rows, cols, keys, wanted, n).contains(x) ==> (hits(
                keys,
                join_key(x, cols),
            ).len() > 0) == wanted,
    decreases n,
{
    if n > 0 {
        lemma_matched(rows, cols, keys, wanted, n - 1);
        let before = matched_rows(rows, cols, keys, wanted, n - 1);
        let all = matched_rows(rows, cols, keys, wanted, n);
        assert forall|x: Seq<Datum>| #[trigger] all.contains(x) implies (hits(
            keys,
            join_key(x, cols),
        ).len() > 0) == wanted by {
            let k = choose|k: int| 0 <= k < all.len() && all[k] == x;
            if k < before.len() {
                assert(before[k] == x);
                assert(before.contains(x));
            }
        }
    }
}

/// A cross join has as many rows as there are pairs.
pub proof fn law_cross_counts(l: Seq<Seq<Datum>>, r: Seq<Seq<Datum>>, n: nat)
    requires
        n <= l.len(),
    ensures
        crossed(l, r, n).len() == n * r.len(),
    decreases n,
{
    if n > 0 {
        law_cross_counts(l, r, (n - 1) as nat);
        assert(n * r.len() == (n - 1) * r.len() + r.len()) by (nonlinear_arith)
            requires
                n > 0,
        ;
        assert(paired(l[n - 1], r).len() == r.len());
    }
}

/// Whether a row is among rows is whether it has a position there.
proof fn lemma_position_contains(rows: Seq<Seq<Datum>>, x: Seq<Datum>, i: int)
    requires
        0 <= i <= rows.len(),
    ensures
        row_position(rows, x, i) is Some <==> exists|k: int|
            i <= k < rows.len() && #[trigger] rows[k] == x,
    decreases rows.len() - i,
{
    if i < rows.len() {
        lemma_position_contains(rows, x, i + 1);
        if rows[i] != x && exists|k: int| i <= k < rows.len() && #[trigger] rows[k] == x {
            let k = choose|k: int| i <= k < rows.len() && #[trigger] rows[k] == x;
            assert(i + 1 <= k < rows.len() && rows[k] == x);
        }
    }
}

/// Without repeats the rows are the same, each once.
pub proof fn law_unique_rows(rows: Seq<Seq<Datum>>, n: nat)
    requires
        n <= rows.len(),
    ensures
        unique_rows(rows, n).no_duplicates(),
        forall|x: Seq<Datum>| #[trigger]
            unique_rows(rows, n).contains(x) <==> rows.subrange(0, n as int).contains(x),
    decreases n,
{
    if n > 0 {
        law_unique_rows(rows, (n - 1) as nat);
        let before = unique_rows(rows, (n - 1) as nat);
        let all = unique_rows(rows, n);
        let row = rows[n - 1];
        let (f0, f) = (rows.subrange(0, n - 1), rows.subrange(0, n as int));
        assert(f =~= f0.push(row));
        lemma_position_contains(before, row, 0);
        let known = row_position(before, row, 0) is Some;
        assert(known == before.contains(row));
        assert(all == if known {
            before
        } else {
            before.push(row)
        });
        assert forall|x: Seq<Datum>| #[trigger] all.contains(x) <==> f.contains(x) by {
            if all.contains(x) {
                let k = choose|k: int| 0 <= k < all.len() && all[k] == x;
                if k < before.len() {
                    assert(before.contains(x));
                    let p = choose|p: int| 0 <= p < f0.len() && f0[p] == x;
                    assert(f[p] == x);
                } else {
                    assert(f[n - 1] == x);
                }
            }
            if f.contains(x) {
                let p = choose|p: int| 0 <= p < f.len() && f[p] == x;
                if p < n - 1 {
                    assert(f0[p] == x);
                    assert(before.contains(x));
                    let k = choose|k: int| 0 <= k < before.len() && before[k] == x;
                    assert(all[k] == x);
                } else if known {
                    let k = choose|k: int| 0 <= k < before.len() && before[k] == x;
                    assert(all[k] == x);
                } else {
                    assert(all[before.len() as int] == x);
                }
            }
        }
        assert forall|a: int, b: int|
            0 <= a < all.len() && 0 <= b < all.len() && a != b implies all[a] != all[b] by {
            if a < before.len() && b < before.len() {
                assert(before[a] != before[b]);
            } else if !known {
                if a < before.len() {
                    assert(before[a] == all[a]);
                } else {
                    assert(before[b] == all[b]);
                }
            }
        }
    }
}

/// Which rows are kept.
proof fn lemma_kept(rows: Seq<Seq<Datum>>, others: Seq<Seq<Datum>>, wanted: bool, n: nat)
    requires
        n <= rows.len(),
    ensures
        forall|x: Seq<Datum>| #[trigger]
            kept_rows(rows, others, wanted, n).contains(x) <==> rows.subrange(
                0,
                n as int,
            ).contains(x) && others.contains(x) == wanted,
    decreases n,
{
    if n > 0 {
        lemma_kept(rows, others, wanted, (n - 1) as nat);
        let before = kept_rows(rows, others, wanted, (n - 1) as nat);
        let all = kept_rows(rows, others, wanted, n);
        let row = rows[n - 1];
        let (f0, f) = (rows.subrange(0, n - 1), rows.subrange(0, n as int));
        assert(f =~= f0.push(row));
        lemma_position_contains(others, row, 0);
        assert((row_position(others, row, 0) is Some) == others.contains(row));
        assert forall|x: Seq<Datum>| #[trigger] all.contains(x) <==> f.contains(x)
            && others.contains(x) == wanted by {
            if all.contains(x) {
                let k = choose|k: int| 0 <= k < all.len() && all[k] == x;
                if k < before.len() {
                    assert(before[k] == x);
                    assert(before.contains(x));
                    let p = choose|p: int| 0 <= p < f0.len() && f0[p] == x;
                    assert(f[p] == x);
                } else {
                    assert(f[n - 1] == x);
                }
            }
            if f.contains(x) && others.contains(x) == wanted {
                let p = choose|p: int| 0 <= p < f.len() && f[p] == x;
                if p < n - 1 {
                    assert(f0[p] == x);
                    assert(before.contains(x));
                    let k = choose|k: int| 0 <= k < before.len() && before[k] == x;
                    assert(all[k] == x);
                } else {
                    assert(all[before.len() as int] == x);
                }
            }
        }
    }
}

/// UNION, INTERSECT and EXCEPT are the operations on sets: no row occurs
/// twice, and a row is in the result as it is in the two sides.
pub proof fn law_set_operations(op: SetUnionOp, l: Seq<Seq<Datum>>, r: Seq<Seq<Datum>>)
    ensures
        !(op is UnionAll) ==> united(op, l, r).no_duplicates(),
        forall|x: Seq<Datum>| #[trigger]
            united(op, l, r).contains(x) <==> match op {
                SetUnionOp::UnionAll => l.contains(x) || r.contains(x),
                SetUnionOp::Union => l.contains(x) || r.contains(x),
                SetUnionOp::Intersect => l.contains(x) && r.contains(x),
                SetUnionOp::Except => l.contains(x) && !r.contains(x),
            },
{
    let both = l + r;
    assert forall|x: Seq<Datum>| #[trigger] both.contains(x) <==> l.contains(x) || r.contains(
        x,
    ) by {
        if both.contains(x) {
            let k = choose|k: int| 0 <= k < both.len() && both[k] == x;
            if k < l.len() {
                assert(l[k] == x);
            } else {
                assert(r[k - l.len()] == x);
            }
        }
        if l.contains(x) {
            let k = choose|k: int| 0 <= k < l.len() && l[k] == x;
            assert(both[k] == x);
        }
        if r.contains(x) {
            let k = choose|k: int| 0 <= k < r.len() && r[k] == x;
            assert(both[l.len() + k] == x);
        }
    }
    law_unique_rows(both, both.len());
    assert(both.subrange(0, both.len() as int) =~= both);
    assert(l.subrange(0, l.len() as int) =~= l);
    let (i, e) = (kept_rows(l, r, true, l.len()), kept_rows(l, r, false, l.len()));
    lemma_kept(l, r, true, l.len());
    lemma_kept(l, r, false, l.len());
    law_unique_rows(i, i.len());
    law_unique_rows(e, e.len());
    assert(i.subrange(0, i.len() as int) =~= i);
    assert(e.subrange(0, e.len() as int) =~= e);
}

} // verus!
