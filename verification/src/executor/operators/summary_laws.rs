//! What aggregates say of the values that they take.
use vstd::prelude::*;

use crate::common::value_cmp::{
    law_order_flips, law_order_reflexive, law_order_transitive, value_order,
};
use crate::executor::env::{Answer, Question};
use crate::executor::exact::{amounts, exact, held, stands};
use crate::executor::key_index::row_position;
use crate::executor::operators::aggregate::{
    added, aggregated, aggregated_chunk, distinct_chunks, distinct_rows, finished, fresh,
    merged_chunks, taken_rows, taken_values, AggState,
};
use crate::executor::operators::aggregate_laws::{
    agree, each_agree, law_merge_parts, taken_each, value_in,
};
use crate::executor::physical_plan::AggregateFunc;
use crate::executor::vector::{col_at, law_chunk_roundtrip, rows_of, Chunk, Column};
use crate::float::int_to_f64;
use crate::value::Datum;

verus! {

/// The result of an aggregate function of values.
pub open spec fn summary(
    o: spec_fn(Question) -> Answer,
    f: AggregateFunc,
    xs: Seq<Datum>,
) -> Datum {
    finished(o, taken_each(o, fresh(f), xs, xs.len() as int))
}

/// The values that are not NULL.
pub open spec fn present(xs: Seq<Datum>) -> Seq<Datum> {
    xs.filter(|d: Datum| d != Datum::Null)
}

proof fn lemma_count(o: spec_fn(Question) -> Answer, xs: Seq<Datum>, n: int)
    requires
        0 <= n <= xs.len(),
        xs.len() <= i64::MAX,
    ensures
        taken_each(o, fresh(AggregateFunc::Count), xs, n) == AggState::Count(
            present(xs.subrange(0, n)).len() as i64,
        ),
        present(xs.subrange(0, n)).len() <= n,
    decreases n,
{
    reveal(Seq::filter);
    let front = xs.subrange(0, n);
    if n > 0 {
        lemma_count(o, xs, n - 1);
        assert(front.drop_last() =~= xs.subrange(0, n - 1));
        assert(front.last() == xs[n - 1]);
    } else {
        assert(front =~= Seq::empty());
    }
}

/// COUNT of values is the number of those that are not NULL.
pub proof fn law_count(o: spec_fn(Question) -> Answer, xs: Seq<Datum>)
    requires
        xs.len() <= i64::MAX,
    ensures
        summary(o, AggregateFunc::Count, xs) matches Datum::Int64(n) && n == present(xs).len(),
{
    lemma_count(o, xs, xs.len() as int);
    assert(xs.subrange(0, xs.len() as int) =~= xs);
}

/// Whether a value is among the first `n`, is not NULL, and none of them that is not
/// NULL orders before it (or behind it).
pub open spec fn outermost(xs: Seq<Datum>, n: int, d: Datum, least: bool) -> bool {
    &&& d != Datum::Null
    &&& exists|i: int| 0 <= i < n && #[trigger] xs[i] == d
    &&& forall|j: int|
        0 <= j < n && #[trigger] xs[j] != Datum::Null ==> if least {
            value_order(d, xs[j]) <= 0
        } else {
            value_order(d, xs[j]) >= 0
        }
}

proof fn lemma_extreme(
    o: spec_fn(Question) -> Answer,
    f: AggregateFunc,
    xs: Seq<Datum>,
    n: int,
)
    requires
        f is Min || f is Max,
        each_agree(xs),
        0 <= n <= xs.len(),
    ensures
        ({
            let s = taken_each(o, fresh(f), xs, n);
            &&& f is Min ==> s is Min
            &&& f is Max ==> s is Max
            &&& value_in(s) is None <==> forall|j: int| 0 <= j < n ==> #[trigger] xs[j]
                == Datum::Null
            &&& value_in(s) matches Some(d) ==> outermost(xs, n, d, f is Min)
        }),
    decreases n,
{
    if n > 0 {
        lemma_extreme(o, f, xs, n - 1);
        let s = taken_each(o, fresh(f), xs, n - 1);
        let t = taken_each(o, fresh(f), xs, n);
        let x = xs[n - 1];
        law_order_reflexive(x);
        if x != Datum::Null {
            assert(value_in(t) is Some);
            let d = value_in(t)->0;
            if let Some(m) = value_in(s) {
                let i = choose|i: int| 0 <= i < n - 1 && #[trigger] xs[i] == m;
                law_order_flips(m, x);
                law_order_reflexive(m);
                assert forall|j: int| 0 <= j < n && #[trigger] xs[j] != Datum::Null implies if f is Min {
                    value_order(d, xs[j]) <= 0
                } else {
                    value_order(d, xs[j]) >= 0
                } by {
                    if j < n - 1 && d == x {
                        assert(agree(xs[i], x));
                        assert(agree(xs[i], xs[j]));
                        assert(agree(x, xs[j]));
                        law_order_flips(xs[j], m);
                        law_order_flips(xs[j], x);
                        if f is Min {
                            law_order_transitive(x, m, xs[j]);
                        } else {
                            law_order_transitive(xs[j], m, x);
                        }
                    }
                }
                if d == x {
                    assert(xs[n - 1] == d);
                } else {
                    assert(d == m && xs[i] == d);
                }
            } else {
                assert(d == x);
                assert(xs[n - 1] == d);
                assert forall|j: int| 0 <= j < n && #[trigger] xs[j] != Datum::Null implies if f is Min {
                    value_order(d, xs[j]) <= 0
                } else {
                    value_order(d, xs[j]) >= 0
                } by {}
            }
        } else {
            if let Some(m) = value_in(s) {
                let i = choose|i: int| 0 <= i < n - 1 && #[trigger] xs[i] == m;
                assert(xs[i] == m);
            } else {
                assert forall|j: int| 0 <= j < n implies #[trigger] xs[j] == Datum::Null by {}
            }
        }
    }
}

/// MIN and MAX of values are one of them that is not NULL, and that none orders
/// before, or behind; NULL where all are. The order has to be transitive on them.
pub proof fn law_extremes(o: spec_fn(Question) -> Answer, xs: Seq<Datum>)
    requires
        each_agree(xs),
    ensures
        (forall|j: int| 0 <= j < xs.len() ==> #[trigger] xs[j] == Datum::Null) ==> summary(
            o,
            AggregateFunc::Min,
            xs,
        ) == Datum::Null && summary(o, AggregateFunc::Max, xs) == Datum::Null,
        (exists|j: int| 0 <= j < xs.len() && #[trigger] xs[j] != Datum::Null) ==> outermost(
            xs,
            xs.len() as int,
            summary(o, AggregateFunc::Min, xs),
            true,
        ) && outermost(xs, xs.len() as int, summary(o, AggregateFunc::Max, xs), false),
{
    lemma_extreme(o, AggregateFunc::Min, xs, xs.len() as int);
    lemma_extreme(o, AggregateFunc::Max, xs, xs.len() as int);
}

/// Whether values are these numbers, or none.
pub open spec fn counted_as(
    val: spec_fn(u64) -> real,
    xs: Seq<Datum>,
    rs: Seq<Option<real>>,
) -> bool {
    xs.len() == rs.len() && forall|i: int|
        0 <= i < xs.len() ==> match #[trigger] rs[i] {
            Some(r) => amounts(val, xs[i], r),
            None => !(xs[i] is Int32 || xs[i] is Int64 || xs[i] is Timestamp || xs[i] is Float32
                || xs[i] is Float64),
        }
}

/// The sum of the first `n` numbers.
pub open spec fn total(rs: Seq<Option<real>>, n: int) -> real
    decreases n,
{
    if n <= 0 {
        0 as real
    } else {
        total(rs, n - 1) + match rs[n - 1] {
            Some(r) => r,
            None => 0 as real,
        }
    }
}

/// How many of the first `n` are numbers.
pub open spec fn amount(rs: Seq<Option<real>>, n: int) -> nat
    decreases n,
{
    if n <= 0 {
        0
    } else {
        amount(rs, n - 1) + if rs[n - 1] is Some {
            1nat
        } else {
            0
        }
    }
}

proof fn lemma_sum(
    o: spec_fn(Question) -> Answer,
    val: spec_fn(u64) -> real,
    xs: Seq<Datum>,
    rs: Seq<Option<real>>,
    n: int,
)
    requires
        exact(o, val),
        counted_as(val, xs, rs),
        forall|k: int| 0 <= k <= xs.len() ==> held(val, #[trigger] total(rs, k)),
        xs.len() <= i64::MAX,
        0 <= n <= xs.len(),
    ensures
        taken_each(o, fresh(AggregateFunc::Sum), xs, n) matches AggState::Sum(z, has) && stands(
            val,
            z,
            total(rs, n),
        ) && has == (amount(rs, n) > 0),
        taken_each(o, fresh(AggregateFunc::Avg), xs, n) matches AggState::Avg(z, k) && stands(
            val,
            z,
            total(rs, n),
        ) && k == amount(rs, n),
        amount(rs, n) <= n,
    decreases n,
{
    if n > 0 {
        lemma_sum(o, val, xs, rs, n - 1);
        assert(held(val, total(rs, n)));
        assert(match rs[n - 1] {
            Some(r) => amounts(val, xs[n - 1], r),
            None => true,
        });
    }
}

/// SUM of values, in an exact environment, is the sum of those that are numbers, and
/// AVG is the number that times their count gives that sum; both are NULL where none
/// is a number.
pub proof fn law_sum(
    o: spec_fn(Question) -> Answer,
    val: spec_fn(u64) -> real,
    xs: Seq<Datum>,
    rs: Seq<Option<real>>,
    mean: real,
)
    requires
        exact(o, val),
        counted_as(val, xs, rs),
        forall|k: int| 0 <= k <= xs.len() ==> held(val, #[trigger] total(rs, k)),
        xs.len() <= i64::MAX,
        stands(
            val,
            int_to_f64(amount(rs, xs.len() as int) as int),
            amount(rs, xs.len() as int) as int as real,
        ),
        held(val, mean),
        mean * (amount(rs, xs.len() as int) as int as real) == total(rs, xs.len() as int),
    ensures
        amount(rs, xs.len() as int) == 0 ==> summary(o, AggregateFunc::Sum, xs) == Datum::Null
            && summary(o, AggregateFunc::Avg, xs) == Datum::Null,
        amount(rs, xs.len() as int) > 0 ==> (summary(
            o,
            AggregateFunc::Sum,
            xs,
        ) matches Datum::Float64(z) && stands(val, z, total(rs, xs.len() as int))),
        amount(rs, xs.len() as int) > 0 ==> (summary(
            o,
            AggregateFunc::Avg,
            xs,
        ) matches Datum::Float64(z) && stands(val, z, mean)),
{
    lemma_sum(o, val, xs, rs, xs.len() as int);
    let b = choose|b: u64| #[trigger] stands(val, b, mean);
    assert(val(b) == mean);
}

/// The values of a column of batches, in their order. A batch without the column has
/// none.
pub open spec fn column_of(cs: Seq<Chunk>, col: usize, n: int) -> Seq<Datum>
    decreases n,
{
    if n <= 0 {
        Seq::empty()
    } else {
        column_of(cs, col, n - 1) + if col < cs[n - 1].columns.len() {
            Seq::new(cs[n - 1].count, |i: int| col_at(cs[n - 1].columns[col as int], i))
        } else {
            Seq::empty()
        }
    }
}

proof fn lemma_rows_each(
    o: spec_fn(Question) -> Answer,
    s: AggState,
    c: Column,
    xs: Seq<Datum>,
    n: int,
)
    requires
        0 <= n <= xs.len(),
        forall|i: int| 0 <= i < xs.len() ==> #[trigger] xs[i] == col_at(c, i),
    ensures
        taken_rows(o, s, c, n) == taken_each(o, s, xs, n),
    decreases n,
{
    if n > 0 {
        lemma_rows_each(o, s, c, xs, n - 1);
    }
}

proof fn lemma_batches(
    o: spec_fn(Question) -> Answer,
    cs: Seq<Chunk>,
    f: AggregateFunc,
    col: usize,
    n: int,
)
    requires
        0 <= n <= cs.len(),
        f is Count || f is Min || f is Max,
        f is Min || f is Max ==> each_agree(column_of(cs, col, n)),
    ensures
        merged_chunks(o, cs, f, col, n) == taken_each(
            o,
            fresh(f),
            column_of(cs, col, n),
            column_of(cs, col, n).len() as int,
        ),
    decreases n,
{
    if n > 0 {
        let before = column_of(cs, col, n - 1);
        let c = cs[n - 1];
        let xs = if col < c.columns.len() {
            Seq::new(c.count, |i: int| col_at(c.columns[col as int], i))
        } else {
            Seq::empty()
        };
        assert(column_of(cs, col, n) == before + xs);
        if f is Min || f is Max {
            assert forall|i: int, j: int|
                0 <= i < before.len() && 0 <= j
                    < before.len() implies agree(
                #[trigger] before[i],
                #[trigger] before[j],
            ) by {
                assert((before + xs)[i] == before[i] && (before + xs)[j] == before[j]);
            }
        }
        lemma_batches(o, cs, f, col, n - 1);
        if col < c.columns.len() {
            lemma_rows_each(o, fresh(f), c.columns[col as int], xs, xs.len() as int);
        }
        law_merge_parts(o, f, before, xs);
    }
}

/// COUNT, MIN and MAX over batches are those of the values in all of them, however
/// the rows are split.
pub proof fn law_aggregate_batches(
    o: spec_fn(Question) -> Answer,
    cs: Seq<Chunk>,
    f: AggregateFunc,
    col: usize,
)
    requires
        f is Count || f is Min || f is Max,
        f is Min || f is Max ==> each_agree(column_of(cs, col, cs.len() as int)),
    ensures
        aggregated(o, cs, (f, col, false)) == summary(o, f, column_of(cs, col, cs.len() as int)),
{
    lemma_batches(o, cs, f, col, cs.len() as int);
}

/// The numbers of one batch behind those before.
proof fn lemma_total_add(a: Seq<Option<real>>, b: Seq<Option<real>>, n: int)
    requires
        0 <= n <= b.len(),
    ensures
        total(a + b, a.len() + n) == total(a, a.len() as int) + total(b, n),
        amount(a + b, a.len() + n) == amount(a, a.len() as int) + amount(b, n),
    decreases n,
{
    if n > 0 {
        lemma_total_add(a, b, n - 1);
        assert((a + b)[a.len() + n - 1] == b[n - 1]);
    } else {
        lemma_total_front(a, b, a.len() as int);
    }
}

proof fn lemma_total_front(a: Seq<Option<real>>, b: Seq<Option<real>>, n: int)
    requires
        0 <= n <= a.len(),
    ensures
        total(a + b, n) == total(a, n),
        amount(a + b, n) == amount(a, n),
    decreases n,
{
    if n > 0 {
        lemma_total_front(a, b, n - 1);
    }
}

/// Whether doubles hold every sum of numbers that follow each other.
pub open spec fn sums_held(val: spec_fn(u64) -> real, rs: Seq<Option<real>>) -> bool {
    forall|i: int, j: int|
        0 <= i <= j <= rs.len() ==> held(val, #[trigger] total(rs.subrange(i, j), j - i))
}

proof fn lemma_sum_batches(
    o: spec_fn(Question) -> Answer,
    val: spec_fn(u64) -> real,
    cs: Seq<Chunk>,
    col: usize,
    rs: Seq<Option<real>>,
    n: int,
)
    requires
        exact(o, val),
        0 <= n <= cs.len(),
        column_of(cs, col, n).len() <= rs.len(),
        rs.len() <= i64::MAX,
        counted_as(val, column_of(cs, col, n), rs.subrange(0, column_of(cs, col, n).len() as int)),
        sums_held(val, rs),
    ensures
        ({
            let k = column_of(cs, col, n).len() as int;
            &&& merged_chunks(o, cs, AggregateFunc::Sum, col, n) matches AggState::Sum(z, has)
                && stands(val, z, total(rs, k)) && has == (amount(rs, k) > 0)
            &&& merged_chunks(o, cs, AggregateFunc::Avg, col, n) matches AggState::Avg(z, m)
                && stands(val, z, total(rs, k)) && m == amount(rs, k)
            &&& amount(rs, k) <= k
        }),
    decreases n,
{
    if n > 0 {
        let before = column_of(cs, col, n - 1);
        let c = cs[n - 1];
        let xs = if col < c.columns.len() {
            Seq::new(c.count, |i: int| col_at(c.columns[col as int], i))
        } else {
            Seq::empty()
        };
        let all = before + xs;
        assert(column_of(cs, col, n) == all);
        let (i, j) = (before.len() as int, all.len() as int);
        let ra = rs.subrange(0, i);
        let rb = rs.subrange(i, j);
        assert(rs.subrange(0, j) =~= ra + rb);
        assert(counted_as(val, before, ra)) by {
            assert forall|k: int| 0 <= k < before.len() implies match #[trigger] ra[k] {
                Some(r) => amounts(val, before[k], r),
                None => !(before[k] is Int32 || before[k] is Int64 || before[k] is Timestamp
                    || before[k] is Float32 || before[k] is Float64),
            } by {
                assert(rs.subrange(0, j)[k] == ra[k] && all[k] == before[k]);
            }
        }
        assert(counted_as(val, xs, rb)) by {
            assert forall|k: int| 0 <= k < xs.len() implies match #[trigger] rb[k] {
                Some(r) => amounts(val, xs[k], r),
                None => !(xs[k] is Int32 || xs[k] is Int64 || xs[k] is Timestamp || xs[k] is Float32
                    || xs[k] is Float64),
            } by {
                assert(rs.subrange(0, j)[i + k] == rb[k] && all[i + k] == xs[k]);
            }
        }
        lemma_sum_batches(o, val, cs, col, rs, n - 1);
        assert forall|k: int| 0 <= k <= xs.len() implies held(val, #[trigger] total(rb, k)) by {
            assert(held(val, total(rs.subrange(i, i + k), (i + k) - i)));
            lemma_total_front(rs.subrange(i, i + k), rs.subrange(i + k, j), k);
            assert(rb =~= rs.subrange(i, i + k) + rs.subrange(i + k, j));
        }
        lemma_sum(o, val, xs, rb, xs.len() as int);
        lemma_total_add(ra, rb, rb.len() as int);
        let rest = rs.subrange(j, rs.len() as int);
        lemma_total_front(ra + rb, rest, j);
        lemma_total_front(ra, rb + rest, i);
        assert((ra + rb) + rest =~= rs && ra + (rb + rest) =~= rs);
        assert(held(val, total(rs, j))) by {
            assert(held(val, total(rs.subrange(0, j), j - 0)));
        }
        assert(total(rs, j) == total(rs, i) + total(rb, rb.len() as int));
        if col < c.columns.len() {
            lemma_rows_each(
                o,
                fresh(AggregateFunc::Sum),
                c.columns[col as int],
                xs,
                xs.len() as int,
            );
            lemma_rows_each(
                o,
                fresh(AggregateFunc::Avg),
                c.columns[col as int],
                xs,
                xs.len() as int,
            );
        }
    }
}

/// SUM and AVG over batches, in an exact environment, are those of the numbers in all
/// of them, however the rows are split.
pub proof fn law_sum_batches(
    o: spec_fn(Question) -> Answer,
    val: spec_fn(u64) -> real,
    cs: Seq<Chunk>,
    col: usize,
    rs: Seq<Option<real>>,
    mean: real,
)
    requires
        exact(o, val),
        counted_as(val, column_of(cs, col, cs.len() as int), rs),
        sums_held(val, rs),
        rs.len() <= i64::MAX,
        stands(
            val,
            int_to_f64(amount(rs, rs.len() as int) as int),
            amount(rs, rs.len() as int) as int as real,
        ),
        held(val, mean),
        mean * (amount(rs, rs.len() as int) as int as real) == total(rs, rs.len() as int),
    ensures
        amount(rs, rs.len() as int) == 0 ==> aggregated(o, cs, (AggregateFunc::Sum, col, false))
            == Datum::Null && aggregated(o, cs, (AggregateFunc::Avg, col, false)) == Datum::Null,
        amount(rs, rs.len() as int) > 0 ==> (aggregated(
            o,
            cs,
            (AggregateFunc::Sum, col, false),
        ) matches Datum::Float64(z) && stands(val, z, total(rs, rs.len() as int))),
        amount(rs, rs.len() as int) > 0 ==> (aggregated(
            o,
            cs,
            (AggregateFunc::Avg, col, false),
        ) matches Datum::Float64(z) && stands(val, z, mean)),
{
    assert(rs.subrange(0, rs.len() as int) =~= rs);
    lemma_sum_batches(o, val, cs, col, rs, cs.len() as int);
    let b = choose|b: u64| #[trigger] stands(val, b, mean);
    assert(val(b) == mean);
}

/// Whether values are those of others that are not NULL, each once.
pub open spec fn once_each(us: Seq<Datum>, xs: Seq<Datum>) -> bool {
    us.no_duplicates() && forall|x: Datum| #[trigger]
        us.contains(x) <==> xs.contains(x) && x != Datum::Null
}

/// Whether rows have one value each, those of a list.
spec fn rows_of_one(rows: Seq<Seq<Datum>>, us: Seq<Datum>) -> bool {
    rows.len() == us.len() && forall|i: int| 0 <= i < rows.len() ==> #[trigger] rows[i] == seq![us[i]]
}

proof fn lemma_one_position(rows: Seq<Seq<Datum>>, us: Seq<Datum>, x: Datum, i: int)
    requires
        rows_of_one(rows, us),
        0 <= i,
    ensures
        row_position(rows, seq![x], i) is Some <==> exists|k: int|
            i <= k < us.len() && #[trigger] us[k] == x,
    decreases rows.len() - i,
{
    if i < rows.len() {
        lemma_one_position(rows, us, x, i + 1);
        assert(rows[i] == seq![us[i]]);
        if us[i] != x {
            assert(seq![us[i]][0] != seq![x][0]);
            if exists|k: int| i <= k < us.len() && #[trigger] us[k] == x {
                let k = choose|k: int| i <= k < us.len() && #[trigger] us[k] == x;
                assert(i + 1 <= k && us[k] == x);
            }
        }
    }
}

/// One more value among values each once.
proof fn lemma_once_more(
    rows: Seq<Seq<Datum>>,
    us: Seq<Datum>,
    xs: Seq<Datum>,
    x: Datum,
) -> (vs: Seq<Datum>)
    requires
        rows_of_one(rows, us),
        once_each(us, xs),
    ensures
        once_each(vs, xs.push(x)),
        rows_of_one(
            if x == Datum::Null {
                rows
            } else {
                added(rows, seq![x])
            },
            vs,
        ),
{
    let all = xs.push(x);
    assert forall|y: Datum| #[trigger] all.contains(y) <==> xs.contains(y) || y == x by {
        if xs.contains(y) {
            let k = xs.index_of(y);
            assert(all[k] == y);
        }
        if y == x {
            assert(all[xs.len() as int] == y);
        }
        if all.contains(y) {
            let k = all.index_of(y);
            if k < xs.len() {
                assert(xs[k] == y);
            }
        }
    }
    lemma_one_position(rows, us, x, 0);
    if x == Datum::Null || row_position(rows, seq![x], 0) is Some {
        if x != Datum::Null {
            let k = choose|k: int| 0 <= k < us.len() && #[trigger] us[k] == x;
            assert(us.contains(x));
        }
        us
    } else {
        let vs = us.push(x);
        assert(!us.contains(x));
        assert forall|y: Datum| #[trigger] vs.contains(y) <==> us.contains(y) || y == x by {
            if us.contains(y) {
                let k = us.index_of(y);
                assert(vs[k] == y);
            }
            if y == x {
                assert(vs[us.len() as int] == y);
            }
            if vs.contains(y) {
                let k = vs.index_of(y);
                if k < us.len() {
                    assert(us[k] == y);
                }
            }
        }
        vs
    }
}

proof fn lemma_once_column(
    rows: Seq<Seq<Datum>>,
    us: Seq<Datum>,
    before: Seq<Datum>,
    c: Column,
    n: int,
) -> (vs: Seq<Datum>)
    requires
        rows_of_one(rows, us),
        once_each(us, before),
        0 <= n,
    ensures
        rows_of_one(distinct_rows(rows, c, n), vs),
        once_each(vs, before + Seq::new(n as nat, |i: int| col_at(c, i))),
    decreases n,
{
    let xs = Seq::new(n as nat, |i: int| col_at(c, i));
    if n <= 0 {
        assert(before + xs =~= before);
        us
    } else {
        let ys = Seq::new((n - 1) as nat, |i: int| col_at(c, i));
        let vs = lemma_once_column(rows, us, before, c, n - 1);
        assert((before + ys).push(col_at(c, n - 1)) =~= before + xs);
        lemma_once_more(distinct_rows(rows, c, n - 1), vs, before + ys, col_at(c, n - 1))
    }
}

proof fn lemma_once_batches(cs: Seq<Chunk>, col: usize, n: int) -> (us: Seq<Datum>)
    requires
        0 <= n <= cs.len(),
    ensures
        rows_of_one(distinct_chunks(cs, col, n), us),
        once_each(us, column_of(cs, col, n)),
    decreases n,
{
    if n <= 0 {
        Seq::empty()
    } else {
        let us = lemma_once_batches(cs, col, n - 1);
        let c = cs[n - 1];
        if col < c.columns.len() {
            lemma_once_column(
                distinct_chunks(cs, col, n - 1),
                us,
                column_of(cs, col, n - 1),
                c.columns[col as int],
                c.count as int,
            )
        } else {
            assert(column_of(cs, col, n) =~= column_of(cs, col, n - 1));
            us
        }
    }
}

proof fn lemma_values_each(
    o: spec_fn(Question) -> Answer,
    f: AggregateFunc,
    rows: Seq<Seq<Datum>>,
    us: Seq<Datum>,
    n: int,
)
    requires
        rows_of_one(rows, us),
        0 <= n <= rows.len(),
    ensures
        taken_values(o, f, rows, n) == taken_each(o, fresh(f), us, n),
    decreases n,
{
    if n > 0 {
        lemma_values_each(o, f, rows, us, n - 1);
        assert(rows[n - 1] == seq![us[n - 1]]);
    }
}

/// A distinct aggregate is the aggregate of the values that there are, each taken once.
pub proof fn law_distinct_aggregate(
    o: spec_fn(Question) -> Answer,
    cs: Seq<Chunk>,
    f: AggregateFunc,
    col: usize,
) -> (us: Seq<Datum>)
    ensures
        once_each(us, column_of(cs, col, cs.len() as int)),
        aggregated(o, cs, (f, col, true)) == summary(o, f, us),
{
    let us = lemma_once_batches(cs, col, cs.len() as int);
    let rows = distinct_chunks(cs, col, cs.len() as int);
    lemma_values_each(o, f, rows, us, rows.len() as int);
    us
}

/// The results of aggregates without groups are one row, each in its place.
pub proof fn law_aggregate_row(
    o: spec_fn(Question) -> Answer,
    cs: Seq<Chunk>,
    aggs: Seq<(AggregateFunc, usize, bool)>,
    j: int,
)
    requires
        0 <= j < aggs.len(),
        cs.len() > 0,
    ensures
        rows_of(aggregated_chunk(o, cs, aggs)).len() == 1,
        rows_of(aggregated_chunk(o, cs, aggs))[0].len() == aggs.len(),
        rows_of(aggregated_chunk(o, cs, aggs))[0][j] == aggregated(o, cs, aggs[j]),
{
    let row = Seq::new(aggs.len(), |j: int| aggregated(o, cs, aggs[j]));
    law_chunk_roundtrip(seq![row]);
    assert(seq![row][0] == row);
}

} // verus!
