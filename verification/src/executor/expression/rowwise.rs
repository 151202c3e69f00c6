//! Applying a function of values to whole columns, row by row.
use vstd::prelude::*;

use crate::executor::vector::{col_at, col_len, Column, Vector};
use crate::value::Datum;
use crate::Value;

verus! {

/// The column of `f` applied to each row; a constant column stays constant.
pub open spec fn map_column(c: Column, f: spec_fn(Datum) -> Datum) -> Column {
    match c {
        Column::Constant(v, n) => Column::Constant(f(v), n),
        Column::Flat(s) => Column::Flat(Seq::new(s.len(), |i: int| f(s[i]))),
    }
}

/// The column of `f` applied to each row, one value per row.
pub open spec fn each1(c: Column, f: spec_fn(Datum) -> Datum) -> Column {
    Column::Flat(Seq::new(col_len(c), |i: int| f(col_at(c, i))))
}

/// The column of `f` applied to the rows of two columns of one length.
pub open spec fn each2(a: Column, b: Column, f: spec_fn(Datum, Datum) -> Datum) -> Column {
    Column::Flat(Seq::new(col_len(a), |i: int| f(col_at(a, i), col_at(b, i))))
}

/// As [`each2`], but two constants make a constant.
pub open spec fn zip_columns(a: Column, b: Column, f: spec_fn(Datum, Datum) -> Datum) -> Column {
    match (a, b) {
        (Column::Constant(x, n), Column::Constant(y, _)) => Column::Constant(f(x, y), n),
        _ => each2(a, b, f),
    }
}

/// The column of `f` applied to the rows of three columns of one length.
pub open spec fn each3(
    a: Column,
    b: Column,
    c: Column,
    f: spec_fn(Datum, Datum, Datum) -> Datum,
) -> Column {
    Column::Flat(Seq::new(col_len(a), |i: int| f(col_at(a, i), col_at(b, i), col_at(c, i))))
}

/// Applies `g`, which computes `f`, to each row.
pub fn apply_each1<G: Fn(&Value) -> Value>(
    v: &Vector,
    g: G,
    Ghost(f): Ghost<spec_fn(Datum) -> Datum>,
) -> (r: Vector)
    requires
        v.wf(),
        forall|x: &Value| #[trigger] call_requires(g, (x,)),
        forall|x: &Value, y: Value| #[trigger]
            call_ensures(g, (x,), y) ==> y.deep_view() == f(x.deep_view()),
    ensures
        r.wf(),
        r.deep_view() == each1(v.deep_view(), f),
{
    let n: usize = v.len();
    let ghost c = v.deep_view();
    let mut out: Vec<Value> = Vec::new();
    let mut i: usize = 0;
    while i < n
        invariant
            v.wf(),
            c == v.deep_view(),
            n == col_len(c),
            i <= n,
            out.len() == i,
            forall|x: &Value| #[trigger] call_requires(g, (x,)),
            forall|x: &Value, y: Value| #[trigger]
                call_ensures(g, (x,), y) ==> y.deep_view() == f(x.deep_view()),
            forall|k: int| 0 <= k < i ==> (#[trigger] out[k]).deep_view() == f(col_at(c, k)),
        decreases n - i,
    {
        let x = v.get(i);
        out.push(g(&x));
        i += 1;
    }
    assert(out.deep_view() =~= each1(c, f)->Flat_0);
    Vector::Flat(out)
}

/// Applies `g`, which computes `f`, to each row; a constant stays constant.
pub fn apply_map<G: Fn(&Value) -> Value>(
    v: &Vector,
    g: G,
    Ghost(f): Ghost<spec_fn(Datum) -> Datum>,
) -> (r: Vector)
    requires
        v.wf(),
        forall|x: &Value| #[trigger] call_requires(g, (x,)),
        forall|x: &Value, y: Value| #[trigger]
            call_ensures(g, (x,), y) ==> y.deep_view() == f(x.deep_view()),
    ensures
        r.wf(),
        r.deep_view() == map_column(v.deep_view(), f),
{
    if let Vector::Constant(x, n) = v {
        return Vector::Constant(g(x), *n);
    }
    let r = apply_each1(v, g, Ghost(f));
    assert(r.deep_view()->Flat_0 =~= map_column(v.deep_view(), f)->Flat_0);
    r
}

/// Applies `g`, which computes `f`, to the rows of two vectors.
pub fn apply_each2<G: Fn(&Value, &Value) -> Value>(
    a: &Vector,
    b: &Vector,
    g: G,
    Ghost(f): Ghost<spec_fn(Datum, Datum) -> Datum>,
) -> (r: Vector)
    requires
        a.wf(),
        b.wf(),
        col_len(a.deep_view()) == col_len(b.deep_view()),
        forall|x: &Value, y: &Value| #[trigger] call_requires(g, (x, y)),
        forall|x: &Value, y: &Value, z: Value| #[trigger]
            call_ensures(g, (x, y), z) ==> z.deep_view() == f(x.deep_view(), y.deep_view()),
    ensures
        r.wf(),
        r.deep_view() == each2(a.deep_view(), b.deep_view(), f),
{
    let n: usize = a.len();
    let ghost c = a.deep_view();
    let ghost d = b.deep_view();
    let mut out: Vec<Value> = Vec::new();
    let mut i: usize = 0;
    while i < n
        invariant
            a.wf(),
            b.wf(),
            c == a.deep_view(),
            d == b.deep_view(),
            n == col_len(c),
            n == col_len(d),
            i <= n,
            out.len() == i,
            forall|x: &Value, y: &Value| #[trigger] call_requires(g, (x, y)),
            forall|x: &Value, y: &Value, z: Value| #[trigger]
                call_ensures(g, (x, y), z) ==> z.deep_view() == f(x.deep_view(), y.deep_view()),
            forall|k: int|
                0 <= k < i ==> (#[trigger] out[k]).deep_view() == f(col_at(c, k), col_at(d, k)),
        decreases n - i,
    {
        let x = a.get(i);
        let y = b.get(i);
        out.push(g(&x, &y));
        i += 1;
    }
    assert(out.deep_view() =~= each2(c, d, f)->Flat_0);
    Vector::Flat(out)
}

/// As [`apply_each2`], but two constants make a constant.
pub fn apply_zip<G: Fn(&Value, &Value) -> Value>(
    a: &Vector,
    b: &Vector,
    g: G,
    Ghost(f): Ghost<spec_fn(Datum, Datum) -> Datum>,
) -> (r: Vector)
    requires
        a.wf(),
        b.wf(),
        col_len(a.deep_view()) == col_len(b.deep_view()),
        forall|x: &Value, y: &Value| #[trigger] call_requires(g, (x, y)),
        forall|x: &Value, y: &Value, z: Value| #[trigger]
            call_ensures(g, (x, y), z) ==> z.deep_view() == f(x.deep_view(), y.deep_view()),
    ensures
        r.wf(),
        r.deep_view() == zip_columns(a.deep_view(), b.deep_view(), f),
{
    match (a, b) {
        (Vector::Constant(x, n), Vector::Constant(y, _)) => Vector::Constant(g(x, y), *n),
        _ => apply_each2(a, b, g, Ghost(f)),
    }
}

/// Applies `g`, which computes `f`, to the rows of three vectors.
pub fn apply_each3<G: Fn(&Value, &Value, &Value) -> Value>(
    a: &Vector,
    b: &Vector,
    c: &Vector,
    g: G,
    Ghost(f): Ghost<spec_fn(Datum, Datum, Datum) -> Datum>,
) -> (r: Vector)
    requires
        a.wf(),
        b.wf(),
        c.wf(),
        col_len(a.deep_view()) == col_len(b.deep_view()),
        col_len(a.deep_view()) == col_len(c.deep_view()),
        forall|x: &Value, y: &Value, z: &Value| #[trigger] call_requires(g, (x, y, z)),
        forall|x: &Value, y: &Value, z: &Value, w: Value| #[trigger]
            call_ensures(g, (x, y, z), w) ==> w.deep_view() == f(
                x.deep_view(),
                y.deep_view(),
                z.deep_view(),
            ),
    ensures
        r.wf(),
        r.deep_view() == each3(a.deep_view(), b.deep_view(), c.deep_view(), f),
{
    let n: usize = a.len();
    let ghost p = a.deep_view();
    let ghost q = b.deep_view();
    let ghost s = c.deep_view();
    let mut out: Vec<Value> = Vec::new();
    let mut i: usize = 0;
    while i < n
        invariant
            a.wf(),
            b.wf(),
            c.wf(),
            p == a.deep_view(),
            q == b.deep_view(),
            s == c.deep_view(),
            n == col_len(p),
            n == col_len(q),
            n == col_len(s),
            i <= n,
            out.len() == i,
            forall|x: &Value, y: &Value, z: &Value| #[trigger] call_requires(g, (x, y, z)),
            forall|x: &Value, y: &Value, z: &Value, w: Value| #[trigger]
                call_ensures(g, (x, y, z), w) ==> w.deep_view() == f(
                    x.deep_view(),
                    y.deep_view(),
                    z.deep_view(),
                ),
            forall|k: int|
                0 <= k < i ==> (#[trigger] out[k]).deep_view() == f(
                    col_at(p, k),
                    col_at(q, k),
                    col_at(s, k),
                ),
        decreases n - i,
    {
        let x = a.get(i);
        let y = b.get(i);
        let z = c.get(i);
        out.push(g(&x, &y, &z));
        i += 1;
    }
    assert(out.deep_view() =~= each3(p, q, s, f)->Flat_0);
    Vector::Flat(out)
}

} // verus!
