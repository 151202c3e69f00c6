//! In which order partial states can be put together.
use vstd::prelude::*;

use crate::common::value_cmp::{
    law_order_flips, law_order_transitive, mixed, nan_free, value_order, widened,
};
use crate::executor::env::{arith2, Answer, FloatOp, Question};
use crate::executor::operators::aggregate::{
    finished, fresh, greater, lesser, merged, taken, taken_rows, AggState,
};
use crate::executor::physical_plan::AggregateFunc;
use crate::executor::vector::{col_at, Column};
use crate::value::Datum;

verus! {

/// Whether two states are of one function.
pub open spec fn alike(a: AggState, b: AggState) -> bool {
    match (a, b) {
        (AggState::Count(_), AggState::Count(_)) => true,
        (AggState::Sum(_, _), AggState::Sum(_, _)) => true,
        (AggState::Avg(_, _), AggState::Avg(_, _)) => true,
        (AggState::Min(_), AggState::Min(_)) => true,
        (AggState::Max(_), AggState::Max(_)) => true,
        _ => false,
    }
}

/// Whether two optional values stand at one place of the order.
pub open spec fn level(a: Option<Datum>, b: Option<Datum>) -> bool {
    match (a, b) {
        (Some(x), Some(y)) => value_order(x, y) == 0,
        (None, None) => true,
        _ => false,
    }
}

/// The sum that a state holds.
pub open spec fn sum_in(a: AggState) -> u64 {
    match a {
        AggState::Sum(x, _) => x,
        AggState::Avg(x, _) => x,
        _ => 0,
    }
}

/// The value that a state holds.
pub open spec fn value_in(a: AggState) -> Option<Datum> {
    match a {
        AggState::Min(m) => m,
        AggState::Max(m) => m,
        _ => None,
    }
}

/// Whether the order is transitive on the values of two states: no NaN takes
/// part, and no integer meets a float.
pub open spec fn comparable(a: AggState, b: AggState) -> bool {
    match (value_in(a), value_in(b)) {
        (Some(x), Some(y)) => nan_free(x) && nan_free(y) && !mixed(x, y) && !mixed(y, x),
        _ => true,
    }
}

/// States of one function can be put together in either order. Counts come out
/// equal, sums where the addition of the two gives one result, and of minima and
/// maxima the place in the order.
pub proof fn law_merge_commutes(o: spec_fn(Question) -> Answer, a: AggState, b: AggState)
    requires
        alike(a, b),
    ensures
        a is Count ==> merged(o, a, b) == merged(o, b, a),
        (a is Sum || a is Avg) && arith2(o, FloatOp::Add, sum_in(a), sum_in(b)) == arith2(
            o,
            FloatOp::Add,
            sum_in(b),
            sum_in(a),
        ) ==> merged(o, a, b) == merged(o, b, a),
        a is Min || a is Max ==> alike(merged(o, a, b), merged(o, b, a)) && level(
            value_in(merged(o, a, b)),
            value_in(merged(o, b, a)),
        ),
{
    match (value_in(a), value_in(b)) {
        (Some(x), Some(y)) => {
            law_order_flips(x, y);
            law_order_flips(x, x);
            law_order_flips(y, y);
        },
        (Some(x), None) => law_order_flips(x, x),
        (None, Some(y)) => law_order_flips(y, y),
        (None, None) => {},
    }
}

/// Of three values the first of the least comes out, however they are grouped.
proof fn lemma_least_of_three(x: Datum, y: Datum, z: Datum)
    requires
        nan_free(x) && nan_free(y) && nan_free(z),
        !mixed(x, y) && !mixed(y, x) && !mixed(y, z) && !mixed(z, y) && !mixed(x, z) && !mixed(
            z,
            x,
        ),
    ensures
        lesser(lesser(Some(x), y), z) == lesser(Some(x), lesser(Some(y), z)->0),
        greater(greater(Some(x), y), z) == greater(Some(x), greater(Some(y), z)->0),
{
    law_order_flips(x, y);
    law_order_flips(y, z);
    law_order_flips(x, z);
    if value_order(x, y) <= 0 && value_order(y, z) <= 0 {
        law_order_transitive(x, y, z);
    }
    if value_order(z, y) <= 0 && value_order(y, x) <= 0 {
        law_order_transitive(z, y, x);
    }
    if value_order(y, x) <= 0 && value_order(x, z) <= 0 {
        law_order_transitive(y, x, z);
    }
    if value_order(z, x) <= 0 && value_order(x, y) <= 0 {
        law_order_transitive(z, x, y);
    }
    if value_order(x, z) <= 0 && value_order(z, y) <= 0 {
        law_order_transitive(x, z, y);
    }
    if value_order(y, z) <= 0 && value_order(z, x) <= 0 {
        law_order_transitive(y, z, x);
    }
}

/// States of one function can be grouped in either way: counts, minima and
/// maxima, and sums where the addition of the three can be.
pub proof fn law_merge_associates(
    o: spec_fn(Question) -> Answer,
    a: AggState,
    b: AggState,
    c: AggState,
)
    requires
        alike(a, b),
        alike(b, c),
        comparable(a, b),
        comparable(b, c),
        comparable(a, c),
        a is Sum || a is Avg ==> arith2(
            o,
            FloatOp::Add,
            arith2(o, FloatOp::Add, sum_in(a), sum_in(b)),
            sum_in(c),
        ) == arith2(
            o,
            FloatOp::Add,
            sum_in(a),
            arith2(o, FloatOp::Add, sum_in(b), sum_in(c)),
        ),
    ensures
        merged(o, merged(o, a, b), c) == merged(o, a, merged(o, b, c)),
{
    match (value_in(a), value_in(b), value_in(c)) {
        (Some(x), Some(y), Some(z)) => lemma_least_of_three(x, y, z),
        _ => {},
    }
}

/// Whether the order is transitive on two values.
pub open spec fn agree(x: Datum, y: Datum) -> bool {
    nan_free(x) && nan_free(y) && !mixed(x, y) && !mixed(y, x)
}

/// Whether the order is transitive on the first `n` values of a column and the
/// value of a state.
pub open spec fn all_agree(s: AggState, c: Column, n: int) -> bool {
    &&& forall|i: int, j: int|
        0 <= i < n && 0 <= j < n ==> agree(#[trigger] col_at(c, i), #[trigger] col_at(c, j))
    &&& value_in(s) matches Some(x) ==> forall|i: int|
        0 <= i < n ==> agree(x, #[trigger] col_at(c, i))
}

/// A minimum or maximum is one of the values.
proof fn lemma_one_of(o: spec_fn(Question) -> Answer, f: AggregateFunc, c: Column, n: int)
    requires
        0 <= n,
    ensures
        ({
            let t = taken_rows(o, fresh(f), c, n);
            alike(t, fresh(f)) && (value_in(t) matches Some(y) ==> exists|i: int|
                0 <= i < n && y == #[trigger] col_at(c, i))
        }),
    decreases n,
{
    if n > 0 {
        lemma_one_of(o, f, c, n - 1);
        let t = taken_rows(o, fresh(f), c, n);
        if let Some(y) = value_in(t) {
            if y != col_at(c, n - 1) {
                let i = choose|i: int| 0 <= i < n - 1 && y == #[trigger] col_at(c, i);
                assert(y == col_at(c, i));
            }
        }
    }
}

/// What a batch gives by itself, put to a state, is what the batch makes of the
/// state: counts always, minima and maxima where the order is transitive.
pub proof fn law_batch_by_itself(
    o: spec_fn(Question) -> Answer,
    f: AggregateFunc,
    s: AggState,
    c: Column,
    n: int,
)
    requires
        0 <= n,
        alike(s, fresh(f)),
        f is Count || (f is Min || f is Max) && all_agree(s, c, n),
    ensures
        merged(o, s, taken_rows(o, fresh(f), c, n)) == taken_rows(o, s, c, n),
    decreases n,
{
    if n > 0 {
        law_batch_by_itself(o, f, s, c, n - 1);
        lemma_one_of(o, f, c, n - 1);
        let t = taken_rows(o, fresh(f), c, n - 1);
        let d = col_at(c, n - 1);
        if let (Some(x), Some(y)) = (value_in(s), value_in(t)) {
            let i = choose|i: int| 0 <= i < n - 1 && y == #[trigger] col_at(c, i);
            assert(agree(x, col_at(c, i)) && agree(x, d) && agree(col_at(c, i), d));
            lemma_least_of_three(x, y, d);
        }
    }
}

/// The state after the first `n` values.
pub open spec fn taken_each(
    o: spec_fn(Question) -> Answer,
    s: AggState,
    xs: Seq<Datum>,
    n: int,
) -> AggState
    decreases n,
{
    if n <= 0 {
        s
    } else {
        taken(o, taken_each(o, s, xs, n - 1), xs[n - 1])
    }
}

/// Whether the order is transitive on values.
pub open spec fn each_agree(xs: Seq<Datum>) -> bool {
    forall|i: int, j: int|
        0 <= i < xs.len() && 0 <= j < xs.len() ==> agree(#[trigger] xs[i], #[trigger] xs[j])
}

/// The values of one part and of a part behind it, up to value `n` of that.
proof fn lemma_taken_front(
    o: spec_fn(Question) -> Answer,
    s: AggState,
    xs: Seq<Datum>,
    ys: Seq<Datum>,
    n: int,
)
    requires
        0 <= n <= xs.len(),
    ensures
        taken_each(o, s, xs + ys, n) == taken_each(o, s, xs, n),
    decreases n,
{
    if n > 0 {
        lemma_taken_front(o, s, xs, ys, n - 1);
    }
}

/// The state of a function stays one of it, and the least or greatest of
/// values is one of them.
proof fn lemma_each_one_of(
    o: spec_fn(Question) -> Answer,
    f: AggregateFunc,
    xs: Seq<Datum>,
    n: int,
)
    requires
        0 <= n <= xs.len(),
    ensures
        ({
            let t = taken_each(o, fresh(f), xs, n);
            alike(t, fresh(f)) && (value_in(t) matches Some(y) ==> exists|i: int|
                0 <= i < n && y == #[trigger] xs[i])
        }),
    decreases n,
{
    if n > 0 {
        lemma_each_one_of(o, f, xs, n - 1);
        let t = taken_each(o, fresh(f), xs, n);
        if let Some(y) = value_in(t) {
            if y != xs[n - 1] {
                let i = choose|i: int| 0 <= i < n - 1 && y == #[trigger] xs[i];
                assert(y == xs[i]);
            }
        }
    }
}

/// Whether a state is that of a sum or an average with the same flag or count
/// as another.
pub open spec fn same_but_sum(a: AggState, b: AggState) -> bool {
    match (a, b) {
        (AggState::Sum(_, h), AggState::Sum(_, k)) => h == k,
        (AggState::Avg(_, m), AggState::Avg(_, n)) => m == n,
        _ => false,
    }
}

/// Whether the sums of a state and of the first values of a part, with the
/// next of them, are the same however they are grouped, and the first sum is
/// kept by 0.
pub open spec fn sums_associate(
    o: spec_fn(Question) -> Answer,
    a: AggState,
    f: AggregateFunc,
    ys: Seq<Datum>,
) -> bool {
    &&& arith2(o, FloatOp::Add, sum_in(a), 0) == sum_in(a)
    &&& forall|i: int, b: u64|
        #![trigger arith2(o, FloatOp::Add, sum_in(taken_each(o, fresh(f), ys, i)), b)]
        0 <= i < ys.len() ==> arith2(
            o,
            FloatOp::Add,
            arith2(o, FloatOp::Add, sum_in(a), sum_in(taken_each(o, fresh(f), ys, i))),
            b,
        ) == arith2(
            o,
            FloatOp::Add,
            sum_in(a),
            arith2(o, FloatOp::Add, sum_in(taken_each(o, fresh(f), ys, i)), b),
        )
}

/// The values of a second part up to value `n`, taken behind a first, and by
/// themselves and put together.
proof fn lemma_parts(
    o: spec_fn(Question) -> Answer,
    f: AggregateFunc,
    xs: Seq<Datum>,
    ys: Seq<Datum>,
    n: int,
)
    requires
        0 <= n <= ys.len(),
        f is Min || f is Max ==> each_agree(xs + ys),
    ensures
        ({
            let a = taken_each(o, fresh(f), xs, xs.len() as int);
            let m = merged(o, a, taken_each(o, fresh(f), ys, n));
            let all = taken_each(o, fresh(f), xs + ys, xs.len() + n);
            &&& f is Count || f is Min || f is Max ==> m == all
            &&& f is Sum || f is Avg ==> same_but_sum(m, all)
            &&& (f is Sum || f is Avg) && sums_associate(o, a, f, ys) ==> m == all
        }),
    decreases n,
{
    let a = taken_each(o, fresh(f), xs, xs.len() as int);
    lemma_each_one_of(o, f, xs, xs.len() as int);
    if n == 0 {
        lemma_taken_front(o, fresh(f), xs, ys, xs.len() as int);
    } else {
        lemma_parts(o, f, xs, ys, n - 1);
        lemma_each_one_of(o, f, ys, n - 1);
        let all = xs + ys;
        let t = taken_each(o, fresh(f), ys, n - 1);
        let d = ys[n - 1];
        assert(all[xs.len() + n - 1] == d);
        if let Some(b) = widened(d) {
            let w = sum_in(taken_each(o, fresh(f), ys, n - 1));
            if sums_associate(o, a, f, ys) {
                assert(arith2(o, FloatOp::Add, arith2(o, FloatOp::Add, sum_in(a), w), b) == arith2(
                    o,
                    FloatOp::Add,
                    sum_in(a),
                    arith2(o, FloatOp::Add, w, b),
                ));
            }
        }
        let so_far = taken_each(o, fresh(f), all, xs.len() + n - 1);
        assert(taken_each(o, fresh(f), all, xs.len() + n) == taken(o, so_far, d));
        assert(taken_each(o, fresh(f), ys, n) == taken(o, t, d));
        if f is Min || f is Max {
            if let (Some(x), Some(y)) = (value_in(a), value_in(t)) {
                let i = choose|i: int| 0 <= i < xs.len() && x == #[trigger] xs[i];
                let j = choose|j: int| 0 <= j < n - 1 && y == #[trigger] ys[j];
                assert(x == all[i] && y == all[xs.len() + j]);
                assert(agree(x, y) && agree(x, d) && agree(y, d));
                lemma_least_of_three(x, y, d);
            }
        }
    }
}

/// Values that are taken in two parts, whose states are put together, give
/// what all of them give in turn: counts always, minima and maxima where the
/// order is transitive on the values. Sums and averages have as many values
/// either way, and are the same where the addition of the sums can be grouped
/// in either way.
pub proof fn law_merge_parts(
    o: spec_fn(Question) -> Answer,
    f: AggregateFunc,
    xs: Seq<Datum>,
    ys: Seq<Datum>,
)
    requires
        f is Min || f is Max ==> each_agree(xs + ys),
    ensures
        ({
            let a = taken_each(o, fresh(f), xs, xs.len() as int);
            let b = taken_each(o, fresh(f), ys, ys.len() as int);
            let all = taken_each(o, fresh(f), xs + ys, (xs + ys).len() as int);
            &&& f is Count || f is Min || f is Max ==> merged(o, a, b) == all
            &&& f is Sum || f is Avg ==> same_but_sum(merged(o, a, b), all)
            &&& (f is Sum || f is Avg) && sums_associate(o, a, f, ys) ==> finished(
                o,
                merged(o, a, b),
            ) == finished(o, all)
        }),
{
    lemma_parts(o, f, xs, ys, ys.len() as int);
}

/// A state to which that of another function is put stays as it is.
pub proof fn law_merge_unlike(o: spec_fn(Question) -> Answer, a: AggState, b: AggState)
    requires
        !alike(a, b),
    ensures
        merged(o, a, b) == a,
{
}

/// A sum or an average to which a fresh state is put has as many values as
/// before, and is the same where adding 0 keeps its sum.
pub proof fn law_merge_fresh_sum(o: spec_fn(Question) -> Answer, f: AggregateFunc, a: AggState)
    requires
        f is Sum || f is Avg,
        alike(a, fresh(f)),
    ensures
        same_but_sum(merged(o, a, fresh(f)), a),
        arith2(o, FloatOp::Add, sum_in(a), 0) == sum_in(a) ==> merged(o, a, fresh(f)) == a,
{
}

} // verus!
