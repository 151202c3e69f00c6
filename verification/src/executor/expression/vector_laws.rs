//! What the functions of vectors give.
use vstd::prelude::*;

use crate::executor::env::{arith2, Answer, FloatOp, Question};
use crate::executor::exact::{exact, finite64, held, stands};
use crate::executor::expression::numeric::{
    components, cosine, distance_squared, dot, l2_distance, norm,
};
use crate::float::{int_to_f64, widen32, SIGN64};
use crate::value::Datum;

verus! {

/// Whether a vector has these numbers: one for each component, in their order.
pub open spec fn made_of(val: spec_fn(u64) -> real, d: Datum, x: Seq<real>) -> bool {
    match d {
        Datum::Vector(v) => v.len() == x.len() && forall|i: int|
            0 <= i < v.len() ==> stands(val, widen32(#[trigger] v[i]), x[i]),
        Datum::VectorInt8(v) => v.len() == x.len() && forall|i: int|
            0 <= i < v.len() ==> stands(val, int_to_f64(#[trigger] v[i] as int), x[i]),
        _ => false,
    }
}

/// The inner product of the first `n` numbers.
pub open spec fn inner(x: Seq<real>, y: Seq<real>, n: int) -> real
    decreases n,
{
    if n <= 0 {
        0 as real
    } else {
        inner(x, y, n - 1) + x[n - 1] * y[n - 1]
    }
}

/// The differences of numbers.
pub open spec fn apart_by(x: Seq<real>, y: Seq<real>) -> Seq<real> {
    Seq::new(x.len(), |i: int| x[i] - y[i])
}

/// Whether doubles hold the products of numbers, and their sums so far.
pub open spec fn inner_held(val: spec_fn(u64) -> real, x: Seq<real>, y: Seq<real>) -> bool {
    forall|k: int|
        #![trigger x[k]]
        #![trigger y[k]]
        0 <= k < x.len() ==> held(val, x[k] * y[k]) && held(val, inner(x, y, k + 1))
}

/// The doubles of components stand for the numbers of the vector.
proof fn lemma_components(val: spec_fn(u64) -> real, d: Datum, x: Seq<real>)
    requires
        made_of(val, d, x),
    ensures
        components(d) is Some,
        components(d)->0.len() == x.len(),
        forall|i: int| 0 <= i < x.len() ==> stands(val, #[trigger] components(d)->0[i], x[i]),
{
    let c = components(d)->0;
    assert forall|i: int| 0 <= i < x.len() implies stands(val, #[trigger] c[i], x[i]) by {
        match d {
            Datum::Vector(v) => assert(c[i] == widen32(v[i])),
            Datum::VectorInt8(v) => assert(c[i] == int_to_f64(v[i] as int)),
            _ => {},
        }
    }
}

proof fn lemma_dot(
    o: spec_fn(Question) -> Answer,
    val: spec_fn(u64) -> real,
    a: Seq<u64>,
    b: Seq<u64>,
    x: Seq<real>,
    y: Seq<real>,
    n: int,
)
    requires
        exact(o, val),
        a.len() == x.len() == b.len() == y.len(),
        forall|i: int| 0 <= i < x.len() ==> stands(val, #[trigger] a[i], x[i]),
        forall|i: int| 0 <= i < y.len() ==> stands(val, #[trigger] b[i], y[i]),
        inner_held(val, x, y),
        0 <= n <= x.len(),
    ensures
        stands(val, dot(o, a, b, n), inner(x, y, n)),
    decreases n,
{
    if n > 0 {
        lemma_dot(o, val, a, b, x, y, n - 1);
        let k = n - 1;
        assert(stands(val, a[k], x[k]) && stands(val, b[k], y[k]));
        assert(held(val, x[k] * y[k]) && held(val, inner(x, y, k + 1)));
        let p = arith2(o, FloatOp::Mul, a[k], b[k]);
        assert(stands(val, p, x[k] * y[k]));
        assert(inner(x, y, n) == val(dot(o, a, b, k)) + val(p));
    }
}

/// VECTOR_NORM, in an exact environment, is the length of the vector: the number,
/// not negative, whose square is the sum of the squares of the components.
pub proof fn law_norm(
    o: spec_fn(Question) -> Answer,
    val: spec_fn(u64) -> real,
    d: Datum,
    x: Seq<real>,
    len: real,
)
    requires
        exact(o, val),
        made_of(val, d, x),
        inner_held(val, x, x),
        held(val, len),
        len >= 0 as real,
        len * len == inner(x, x, x.len() as int),
    ensures
        norm(o, d) matches Datum::Float64(r) && stands(val, r, len),
{
    lemma_components(val, d, x);
    let c = components(d)->0;
    lemma_dot(o, val, c, c, x, x, x.len() as int);
    let b = choose|b: u64| #[trigger] stands(val, b, len);
    assert(val(b) == len);
}

/// VECTOR_COSINE_SIMILARITY, in an exact environment, is the number that times the
/// lengths of the vectors gives their inner product.
pub proof fn law_cosine(
    o: spec_fn(Question) -> Answer,
    val: spec_fn(u64) -> real,
    a: Datum,
    b: Datum,
    x: Seq<real>,
    y: Seq<real>,
    lx: real,
    ly: real,
    s: real,
)
    requires
        exact(o, val),
        val(SIGN64) == 0 as real,
        made_of(val, a, x),
        made_of(val, b, y),
        x.len() == y.len(),
        x.len() > 0,
        inner_held(val, x, y),
        inner_held(val, x, x),
        inner_held(val, y, y),
        held(val, lx) && lx > 0 as real && lx * lx == inner(x, x, x.len() as int),
        held(val, ly) && ly > 0 as real && ly * ly == inner(y, y, y.len() as int),
        held(val, lx * ly),
        held(val, s) && s * (lx * ly) == inner(x, y, x.len() as int),
    ensures
        cosine(o, a, b) matches Datum::Float64(r) && stands(val, r, s),
{
    let n = x.len() as int;
    lemma_components(val, a, x);
    lemma_components(val, b, y);
    let (ca, cb) = (components(a)->0, components(b)->0);
    lemma_dot(o, val, ca, cb, x, y, n);
    lemma_dot(o, val, ca, ca, x, x, n);
    lemma_dot(o, val, cb, cb, y, y, n);
    let (p, q, t) = (
        choose|w: u64| #[trigger] stands(val, w, lx),
        choose|w: u64| #[trigger] stands(val, w, ly),
        choose|w: u64| #[trigger] stands(val, w, s),
    );
    assert(val(p) == lx && val(q) == ly && val(t) == s);
    assert(lx * lx > 0 as real) by (nonlinear_arith)
        requires
            lx > 0 as real,
    ;
    assert(ly * ly > 0 as real) by (nonlinear_arith)
        requires
            ly > 0 as real,
    ;
    assert(lx * ly > 0 as real) by (nonlinear_arith)
        requires
            lx > 0 as real,
            ly > 0 as real,
    ;
}

/// Vectors of which one has no length have similarity 0, and vectors of unlike or no
/// dimension have none. A distance asks for like dimensions too.
pub proof fn law_no_direction(
    o: spec_fn(Question) -> Answer,
    val: spec_fn(u64) -> real,
    a: Datum,
    b: Datum,
    x: Seq<real>,
    y: Seq<real>,
)
    requires
        exact(o, val),
        forall|w: u64| finite64(w) && #[trigger] val(w) == 0 as real ==> w == 0 || w == SIGN64,
        made_of(val, a, x),
        made_of(val, b, y),
        inner_held(val, x, x),
    ensures
        x.len() == y.len() && x.len() > 0 && inner(x, x, x.len() as int) == 0 as real ==> cosine(
            o,
            a,
            b,
        ) == Datum::Float64(0) && cosine(o, b, a) == Datum::Float64(0),
        x.len() != y.len() || x.len() == 0 ==> cosine(o, a, b) == Datum::Null,
        x.len() != y.len() ==> l2_distance(o, a, b) == Datum::Null,
{
    lemma_components(val, a, x);
    lemma_components(val, b, y);
    let c = components(a)->0;
    lemma_dot(o, val, c, c, x, x, x.len() as int);
    assert(val(dot(o, c, c, x.len() as int)) == inner(x, x, x.len() as int));
}

/// Whether the order of factors does not matter to an environment.
pub open spec fn commutes(o: spec_fn(Question) -> Answer) -> bool {
    forall|x: u64, y: u64| #[trigger]
        arith2(o, FloatOp::Mul, x, y) == arith2(o, FloatOp::Mul, y, x)
}

/// The similarity of two vectors does not depend on their order, where the order of
/// factors does not matter.
pub proof fn law_cosine_symmetric(o: spec_fn(Question) -> Answer, a: Datum, b: Datum)
    requires
        commutes(o),
    ensures
        cosine(o, a, b) == cosine(o, b, a),
{
    if let (Some(x), Some(y)) = (components(a), components(b)) {
        if x.len() == y.len() {
            lemma_dot_commutes(o, x, y, x.len() as int);
        }
    }
}

proof fn lemma_dot_commutes(o: spec_fn(Question) -> Answer, x: Seq<u64>, y: Seq<u64>, n: int)
    requires
        commutes(o),
    ensures
        dot(o, x, y, n) == dot(o, y, x, n),
    decreases n,
{
    if n > 0 {
        lemma_dot_commutes(o, x, y, n - 1);
        assert(arith2(o, FloatOp::Mul, x[n - 1], y[n - 1]) == arith2(
            o,
            FloatOp::Mul,
            y[n - 1],
            x[n - 1],
        ));
    }
}

/// VECTOR_L2_DISTANCE, in an exact environment, is the length of the difference of
/// the vectors: the number, not negative, whose square is the sum of the squares of
/// the differences.
pub proof fn law_distance(
    o: spec_fn(Question) -> Answer,
    val: spec_fn(u64) -> real,
    a: Datum,
    b: Datum,
    x: Seq<real>,
    y: Seq<real>,
    len: real,
)
    requires
        exact(o, val),
        made_of(val, a, x),
        made_of(val, b, y),
        x.len() == y.len(),
        forall|k: int| 0 <= k < x.len() ==> held(val, #[trigger] apart_by(x, y)[k]),
        inner_held(val, apart_by(x, y), apart_by(x, y)),
        held(val, len),
        len >= 0 as real,
        len * len == inner(apart_by(x, y), apart_by(x, y), x.len() as int),
    ensures
        l2_distance(o, a, b) matches Datum::Float64(r) && stands(val, r, len),
{
    lemma_components(val, a, x);
    lemma_components(val, b, y);
    lemma_squares(o, val, components(a)->0, components(b)->0, x, y, x.len() as int);
    let w = choose|w: u64| #[trigger] stands(val, w, len);
    assert(val(w) == len);
}

proof fn lemma_squares(
    o: spec_fn(Question) -> Answer,
    val: spec_fn(u64) -> real,
    a: Seq<u64>,
    b: Seq<u64>,
    x: Seq<real>,
    y: Seq<real>,
    n: int,
)
    requires
        exact(o, val),
        a.len() == x.len() == b.len() == y.len(),
        forall|i: int| 0 <= i < x.len() ==> stands(val, #[trigger] a[i], x[i]),
        forall|i: int| 0 <= i < y.len() ==> stands(val, #[trigger] b[i], y[i]),
        forall|k: int| 0 <= k < x.len() ==> held(val, #[trigger] apart_by(x, y)[k]),
        inner_held(val, apart_by(x, y), apart_by(x, y)),
        0 <= n <= x.len(),
    ensures
        stands(val, distance_squared(o, a, b, n), inner(apart_by(x, y), apart_by(x, y), n)),
    decreases n,
{
    if n > 0 {
        lemma_squares(o, val, a, b, x, y, n - 1);
        let k = n - 1;
        let z = apart_by(x, y);
        assert(stands(val, a[k], x[k]) && stands(val, b[k], y[k]));
        assert(z[k] == x[k] - y[k]);
        assert(held(val, z[k]) && held(val, z[k] * z[k]) && held(val, inner(z, z, k + 1)));
        let d = arith2(o, FloatOp::Sub, a[k], b[k]);
        assert(stands(val, d, z[k]));
        let p = arith2(o, FloatOp::Mul, d, d);
        assert(stands(val, p, z[k] * z[k]));
        assert(inner(z, z, n) == val(distance_squared(o, a, b, k)) + val(p));
    }
}

} // verus!
