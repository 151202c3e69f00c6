//! Functions on numbers and on vectors of numbers.
use vstd::prelude::*;

use crate::common::value_cmp::{whole, widened};
use crate::executor::env::{
    answers, arith1, arith2, float1, float2, number, oracle, ten_to, Answer, Ask, FloatOp, Question,
    Reply,
};
use crate::executor::expression::ops::is_zero64;
use crate::executor::expression::rowwise::{apply_each1, apply_each2, apply_map, apply_zip};
use crate::executor::expression::rowwise::{each1, each2, map_column, zip_columns};
use crate::executor::vector::{col_len, Vector};
use crate::float::{
    f32_widen, f64_is_whole, f64_saturate, i64_widen, int_to_f64, is_whole64, saturated, widen32,
    F64, SIGN64,
};
use crate::value::Datum;
use crate::Value;

verus! {

/// A double without its sign.
pub open spec fn magnitude(b: u64) -> u64 {
    if b >= SIGN64 {
        (b - SIGN64) as u64
    } else {
        b
    }
}

/// ABS: an integer or a double without its sign. The smallest integer of 64
/// bits stays as it is.
pub open spec fn abs_datum(d: Datum) -> Datum {
    match (whole(d), widened(d)) {
        (Some(i), _) => Datum::Int64(
            if i >= 0 || i == i64::MIN {
                i as i64
            } else {
                (-i) as i64
            },
        ),
        (None, Some(b)) => Datum::Float64(magnitude(b)),
        _ => Datum::Null,
    }
}

/// ABS of a value.
pub fn abs_value(v: &Value) -> (r: Value)
    ensures
        r.deep_view() == abs_datum(v.deep_view()),
{
    if let Some(i) = v.as_i64() {
        return Value::Int64(
            if i >= 0 || i == i64::MIN {
                i
            } else {
                -i
            },
        );
    }
    match v.as_f64() {
        Some(f) => Value::Float64(
            F64 {
                bits: if f.bits >= SIGN64 {
                    f.bits - SIGN64
                } else {
                    f.bits
                },
            },
        ),
        None => Value::Null,
    }
}

/// ABS of a column.
pub fn eval_abs(vec: &Vector) -> (r: Vector)
    requires
        vec.wf(),
    ensures
        r.wf(),
        r.deep_view() == map_column(vec.deep_view(), |d: Datum| abs_datum(d)),
{
    let g = |x: &Value| -> (z: Value)
        ensures
            z.deep_view() == abs_datum(x.deep_view()),
        { abs_value(x) };
    apply_map(vec, g, Ghost(|d: Datum| abs_datum(d)))
}

/// ROUND: a number times a power of ten, rounded, and divided by that power.
pub open spec fn round_datum(o: spec_fn(Question) -> Answer, d: Datum, decimals: i32) -> Datum {
    match widened(d) {
        Some(b) => {
            let factor = number(o(Question::TenTo(decimals)));
            let scaled = arith2(o, FloatOp::Mul, b, factor);
            Datum::Float64(arith2(o, FloatOp::Div, arith1(o, FloatOp::Round, scaled), factor))
        },
        None => Datum::Null,
    }
}

/// ROUND of a value.
pub fn round_value<E: Fn(Ask) -> Reply>(v: &Value, decimals: i32, env: &E) -> (r: Value)
    requires
        answers(*env),
    ensures
        r.deep_view() == round_datum(oracle(*env), v.deep_view(), decimals),
{
    match v.as_f64() {
        Some(f) => {
            let factor = ten_to(env, decimals);
            let scaled = float2(env, FloatOp::Mul, f, factor);
            let rounded = float1(env, FloatOp::Round, scaled);
            Value::Float64(float2(env, FloatOp::Div, rounded, factor))
        },
        None => Value::Null,
    }
}

/// ROUND of a column.
pub fn eval_round<E: Fn(Ask) -> Reply>(vec: &Vector, decimals: i32, env: &E) -> (r: Vector)
    requires
        answers(*env),
        vec.wf(),
    ensures
        r.wf(),
        r.deep_view() == map_column(
            vec.deep_view(),
            |d: Datum| round_datum(oracle(*env), d, decimals),
        ),
{
    let g = |x: &Value| -> (z: Value)
        ensures
            z.deep_view() == round_datum(oracle(*env), x.deep_view(), decimals),
        { round_value(x, decimals, env) };
    apply_map(vec, g, Ghost(|d: Datum| round_datum(oracle(*env), d, decimals)))
}

/// The double that an integer or a floating-point value stands for.
/// Timestamps stand for none.
pub open spec fn plain_number(d: Datum) -> Option<u64> {
    match d {
        Datum::Int32(x) => Some(int_to_f64(x as int)),
        Datum::Int64(x) => Some(int_to_f64(x as int)),
        Datum::Float32(b) => Some(widen32(b)),
        Datum::Float64(b) => Some(b),
        _ => None,
    }
}

fn read_number(v: &Value) -> (r: Option<F64>)
    ensures
        match r {
            Some(x) => plain_number(v.deep_view()) == Some(x.bits),
            None => plain_number(v.deep_view()) is None,
        },
{
    match v {
        Value::Int32(x) => Some(i64_widen(*x as i64)),
        Value::Int64(x) => Some(i64_widen(*x)),
        Value::Float32(x) => Some(f32_widen(*x)),
        Value::Float64(x) => Some(*x),
        _ => None,
    }
}

/// A double as a value: an integer where it is whole and fits 64 bits.
pub open spec fn narrowed(b: u64) -> Datum {
    if is_whole64(b) {
        Datum::Int64(saturated(b, i64::MIN as int, i64::MAX as int) as i64)
    } else {
        Datum::Float64(b)
    }
}

fn narrow(x: F64) -> (r: Value)
    ensures
        r.deep_view() == narrowed(x.bits),
{
    if f64_is_whole(x) {
        Value::Int64(f64_saturate(x, i64::MIN, i64::MAX))
    } else {
        Value::Float64(x)
    }
}

/// A function of one number.
pub open spec fn numeric1(o: spec_fn(Question) -> Answer, op: FloatOp, d: Datum) -> Datum {
    match plain_number(d) {
        Some(b) => narrowed(arith1(o, op, b)),
        None => Datum::Null,
    }
}

/// A function of one number on a column.
pub fn eval_unary_numeric<E: Fn(Ask) -> Reply>(vec: &Vector, op: FloatOp, env: &E) -> (r: Vector)
    requires
        answers(*env),
        vec.wf(),
    ensures
        r.wf(),
        r.deep_view() == each1(vec.deep_view(), |d: Datum| numeric1(oracle(*env), op, d)),
{
    let g = |x: &Value| -> (z: Value)
        ensures
            z.deep_view() == numeric1(oracle(*env), op, x.deep_view()),
        {
            match read_number(x) {
                Some(f) => narrow(float1(env, op, f)),
                None => Value::Null,
            }
        };
    apply_each1(vec, g, Ghost(|d: Datum| numeric1(oracle(*env), op, d)))
}

/// A function of two numbers.
pub open spec fn numeric2(o: spec_fn(Question) -> Answer, op: FloatOp, a: Datum, b: Datum) -> Datum {
    match (plain_number(a), plain_number(b)) {
        (Some(x), Some(y)) => narrowed(arith2(o, op, x, y)),
        _ => Datum::Null,
    }
}

/// A function of two numbers on columns.
pub fn eval_binary_numeric<E: Fn(Ask) -> Reply>(
    a_vec: &Vector,
    b_vec: &Vector,
    op: FloatOp,
    env: &E,
) -> (r: Vector)
    requires
        answers(*env),
        a_vec.wf(),
        b_vec.wf(),
        col_len(a_vec.deep_view()) == col_len(b_vec.deep_view()),
    ensures
        r.wf(),
        r.deep_view() == each2(
            a_vec.deep_view(),
            b_vec.deep_view(),
            |a: Datum, b: Datum| numeric2(oracle(*env), op, a, b),
        ),
{
    let g = |x: &Value, y: &Value| -> (z: Value)
        ensures
            z.deep_view() == numeric2(oracle(*env), op, x.deep_view(), y.deep_view()),
        {
            match (read_number(x), read_number(y)) {
                (Some(f), Some(h)) => narrow(float2(env, op, f, h)),
                _ => Value::Null,
            }
        };
    apply_each2(a_vec, b_vec, g, Ghost(|a: Datum, b: Datum| numeric2(oracle(*env), op, a, b)))
}

/// MOD: the remainder, never negative, of two integers of one type; NULL for
/// a zero divisor.
pub open spec fn mod_datum(a: Datum, b: Datum) -> Datum {
    match (a, b) {
        (Datum::Int64(x), Datum::Int64(y)) => if y == 0 {
            Datum::Null
        } else {
            Datum::Int64((x as int % y as int) as i64)
        },
        (Datum::Int32(x), Datum::Int32(y)) => if y == 0 {
            Datum::Null
        } else {
            Datum::Int32((x as int % y as int) as i32)
        },
        _ => Datum::Null,
    }
}

fn euclid(x: i64, y: i64) -> (r: i64)
    requires
        y != 0,
    ensures
        r == x as int % y as int,
        0 <= r < if y < 0 { -(y as int) } else { y as int },
{
    let d: i128 = if y < 0 {
        -(y as i128)
    } else {
        y as i128
    };
    let a: i128 = if x < 0 {
        -(x as i128)
    } else {
        x as i128
    };
    let m: i128 = a % d;
    proof {
        let (xi, yi, di, q) = (x as int, y as int, d as int, a as int / d as int);
        assert(a as int == di * q + m as int) by (nonlinear_arith)
            requires
                m as int == a as int % di,
                q == a as int / di,
                di > 0,
        ;
        if x < 0 {
            if m == 0 {
                assert(xi == yi * (if yi < 0 { q } else { -q }) + 0) by (nonlinear_arith)
                    requires
                        -xi == di * q,
                        di == if yi < 0 { -yi } else { yi },
                ;
                lemma_remainder(xi, yi, if yi < 0 { q } else { -q }, 0);
            } else {
                assert(xi == yi * (if yi < 0 { q + 1 } else { -q - 1 }) + (di - m))
                    by (nonlinear_arith)
                    requires
                        -xi == di * q + m,
                        di == if yi < 0 { -yi } else { yi },
                ;
                lemma_remainder(xi, yi, if yi < 0 { q + 1 } else { -q - 1 }, di - m);
            }
        } else {
            assert(xi == yi * (if yi < 0 { -q } else { q }) + m) by (nonlinear_arith)
                requires
                    xi == di * q + m,
                    di == if yi < 0 { -yi } else { yi },
            ;
            lemma_remainder(xi, yi, if yi < 0 { -q } else { q }, m as int);
        }
    }
    let r: i128 = if x < 0 && m != 0 {
        d - m
    } else {
        m
    };
    r as i64
}

/// A quotient with a remainder in range gives the Euclidean remainder.
proof fn lemma_remainder(x: int, y: int, q: int, r: int)
    requires
        y != 0,
        x == y * q + r,
        0 <= r < if y < 0 { -y } else { y },
    ensures
        x % y == r,
{
    let d = x - y * (x / y);
    assert(d == x % y && 0 <= x % y < (if y < 0 { -y } else { y })) by (nonlinear_arith)
        requires
            y != 0,
            d == x - y * (x / y),
    ;
    assert(x % y == r) by (nonlinear_arith)
        requires
            x == y * q + r,
            x % y == x - y * (x / y),
            0 <= r < (if y < 0 { -y } else { y }),
            0 <= x % y < (if y < 0 { -y } else { y }),
            y != 0,
    ;
}

/// MOD of values.
pub fn mod_value(a: &Value, b: &Value) -> (r: Value)
    ensures
        r.deep_view() == mod_datum(a.deep_view(), b.deep_view()),
{
    match (a, b) {
        (Value::Int64(x), Value::Int64(y)) => if *y == 0 {
            Value::Null
        } else {
            Value::Int64(euclid(*x, *y))
        },
        (Value::Int32(x), Value::Int32(y)) => if *y == 0 {
            Value::Null
        } else {
            Value::Int32(euclid(*x as i64, *y as i64) as i32)
        },
        _ => Value::Null,
    }
}

/// MOD of columns.
pub fn eval_mod(a: &Vector, b: &Vector) -> (r: Vector)
    requires
        a.wf(),
        b.wf(),
        col_len(a.deep_view()) == col_len(b.deep_view()),
    ensures
        r.wf(),
        r.deep_view() == each2(a.deep_view(), b.deep_view(), |x: Datum, y: Datum| mod_datum(x, y)),
{
    let g = |x: &Value, y: &Value| -> (z: Value)
        ensures
            z.deep_view() == mod_datum(x.deep_view(), y.deep_view()),
        { mod_value(x, y) };
    apply_each2(a, b, g, Ghost(|x: Datum, y: Datum| mod_datum(x, y)))
}

/// The numbers of a vector value, as doubles.
pub open spec fn components(d: Datum) -> Option<Seq<u64>> {
    match d {
        Datum::Vector(v) => Some(Seq::new(v.len(), |i: int| widen32(v[i]))),
        Datum::VectorInt8(v) => Some(Seq::new(v.len(), |i: int| int_to_f64(v[i] as int))),
        _ => None,
    }
}

fn read_vector(v: &Value) -> (r: Option<Vec<F64>>)
    ensures
        match r {
            Some(x) => components(v.deep_view()) == Some(x.deep_view()),
            None => components(v.deep_view()) is None,
        },
{
    match v {
        Value::Vector(x) => {
            let mut out: Vec<F64> = Vec::new();
            let mut i: usize = 0;
            while i < x.len()
                invariant
                    i <= x.len(),
                    out.len() == i,
                    forall|k: int| 0 <= k < i ==> (#[trigger] out[k]).bits == widen32(x[k].bits),
                decreases x.len() - i,
            {
                out.push(f32_widen(x[i]));
                i += 1;
            }
            assert(out.deep_view() =~= components(v.deep_view())->0);
            Some(out)
        },
        Value::VectorInt8(x) => {
            let mut out: Vec<F64> = Vec::new();
            let mut i: usize = 0;
            while i < x.len()
                invariant
                    i <= x.len(),
                    out.len() == i,
                    forall|k: int|
                        0 <= k < i ==> (#[trigger] out[k]).bits == int_to_f64(x[k] as int),
                decreases x.len() - i,
            {
                out.push(i64_widen(x[i] as i64));
                i += 1;
            }
            assert(out.deep_view() =~= components(v.deep_view())->0);
            Some(out)
        },
        _ => None,
    }
}

/// The sum of the products of the first `n` components, added up from left to
/// right.
pub open spec fn dot(o: spec_fn(Question) -> Answer, a: Seq<u64>, b: Seq<u64>, n: int) -> u64
    decreases n,
{
    if n <= 0 {
        0
    } else {
        arith2(o, FloatOp::Add, dot(o, a, b, n - 1), arith2(o, FloatOp::Mul, a[n - 1], b[n - 1]))
    }
}

/// The sum of the squared differences of the first `n` components.
pub open spec fn distance_squared(
    o: spec_fn(Question) -> Answer,
    a: Seq<u64>,
    b: Seq<u64>,
    n: int,
) -> u64
    decreases n,
{
    if n <= 0 {
        0
    } else {
        let d = arith2(o, FloatOp::Sub, a[n - 1], b[n - 1]);
        arith2(
            o,
            FloatOp::Add,
            distance_squared(o, a, b, n - 1),
            arith2(o, FloatOp::Mul, d, d),
        )
    }
}

/// The Euclidean distance of two vectors of one length.
pub open spec fn l2_distance(o: spec_fn(Question) -> Answer, a: Datum, b: Datum) -> Datum {
    match (components(a), components(b)) {
        (Some(x), Some(y)) => if x.len() != y.len() {
            Datum::Null
        } else {
            Datum::Float64(arith1(o, FloatOp::Sqrt, distance_squared(o, x, y, x.len() as int)))
        },
        _ => Datum::Null,
    }
}

/// The Euclidean distance of two vectors.
pub fn vector_l2_distance<E: Fn(Ask) -> Reply>(a: &Value, b: &Value, env: &E) -> (r: Value)
    requires
        answers(*env),
    ensures
        r.deep_view() == l2_distance(oracle(*env), a.deep_view(), b.deep_view()),
{
    match (read_vector(a), read_vector(b)) {
        (Some(x), Some(y)) => {
            let ghost o = oracle(*env);
            let ghost xs = x.deep_view();
            let ghost ys = y.deep_view();
            if x.len() != y.len() {
                return Value::Null;
            }
            let mut sum = F64 { bits: 0 };
            let mut i: usize = 0;
            while i < x.len()
                invariant
                    answers(*env),
                    o == oracle(*env),
                    xs == x.deep_view(),
                    ys == y.deep_view(),
                    x.len() == y.len(),
                    i <= x.len(),
                    sum.bits == distance_squared(o, xs, ys, i as int),
                decreases x.len() - i,
            {
                let d = float2(env, FloatOp::Sub, x[i], y[i]);
                sum = float2(env, FloatOp::Add, sum, float2(env, FloatOp::Mul, d, d));
                i += 1;
            }
            Value::Float64(float1(env, FloatOp::Sqrt, sum))
        },
        _ => Value::Null,
    }
}

/// The sum of products of two vectors, added up from left to right.
fn dot_product<E: Fn(Ask) -> Reply>(x: &Vec<F64>, y: &Vec<F64>, env: &E) -> (r: F64)
    requires
        answers(*env),
        x.len() == y.len(),
    ensures
        r.bits == dot(oracle(*env), x.deep_view(), y.deep_view(), x.len() as int),
{
    let ghost o = oracle(*env);
    let ghost xs = x.deep_view();
    let ghost ys = y.deep_view();
    let mut sum = F64 { bits: 0 };
    let mut i: usize = 0;
    while i < x.len()
        invariant
            answers(*env),
            o == oracle(*env),
            xs == x.deep_view(),
            ys == y.deep_view(),
            x.len() == y.len(),
            i <= x.len(),
            sum.bits == dot(o, xs, ys, i as int),
        decreases x.len() - i,
    {
        sum = float2(env, FloatOp::Add, sum, float2(env, FloatOp::Mul, x[i], y[i]));
        i += 1;
    }
    sum
}

/// The cosine of the angle between two vectors of one length: 0 where one has
/// no length, and NULL for vectors without components.
pub open spec fn cosine(o: spec_fn(Question) -> Answer, a: Datum, b: Datum) -> Datum {
    match (components(a), components(b)) {
        (Some(x), Some(y)) => if x.len() != y.len() || x.len() == 0 {
            Datum::Null
        } else {
            let n = x.len() as int;
            let (xx, yy) = (dot(o, x, x, n), dot(o, y, y, n));
            Datum::Float64(
                if is_zero64(xx) || is_zero64(yy) {
                    0
                } else {
                    arith2(
                        o,
                        FloatOp::Div,
                        dot(o, x, y, n),
                        arith2(
                            o,
                            FloatOp::Mul,
                            arith1(o, FloatOp::Sqrt, xx),
                            arith1(o, FloatOp::Sqrt, yy),
                        ),
                    )
                },
            )
        },
        _ => Datum::Null,
    }
}

/// The cosine of the angle between two vectors.
pub fn vector_cosine_sim<E: Fn(Ask) -> Reply>(a: &Value, b: &Value, env: &E) -> (r: Value)
    requires
        answers(*env),
    ensures
        r.deep_view() == cosine(oracle(*env), a.deep_view(), b.deep_view()),
{
    match (read_vector(a), read_vector(b)) {
        (Some(x), Some(y)) => {
            if x.len() != y.len() || x.len() == 0 {
                return Value::Null;
            }
            let xy = dot_product(&x, &y, env);
            let xx = dot_product(&x, &x, env);
            let yy = dot_product(&y, &y, env);
            if xx.bits == 0 || xx.bits == SIGN64 || yy.bits == 0 || yy.bits == SIGN64 {
                return Value::Float64(F64 { bits: 0 });
            }
            let lx = float1(env, FloatOp::Sqrt, xx);
            let ly = float1(env, FloatOp::Sqrt, yy);
            Value::Float64(float2(env, FloatOp::Div, xy, float2(env, FloatOp::Mul, lx, ly)))
        },
        _ => Value::Null,
    }
}

/// The length of a vector.
pub open spec fn norm(o: spec_fn(Question) -> Answer, d: Datum) -> Datum {
    match components(d) {
        Some(x) => Datum::Float64(arith1(o, FloatOp::Sqrt, dot(o, x, x, x.len() as int))),
        None => Datum::Null,
    }
}

/// The length of a vector.
pub fn vector_norm_value<E: Fn(Ask) -> Reply>(v: &Value, env: &E) -> (r: Value)
    requires
        answers(*env),
    ensures
        r.deep_view() == norm(oracle(*env), v.deep_view()),
{
    match read_vector(v) {
        Some(x) => {
            let xx = dot_product(&x, &x, env);
            Value::Float64(float1(env, FloatOp::Sqrt, xx))
        },
        None => Value::Null,
    }
}

/// The distances of the vectors of two columns.
pub fn eval_vector_distance<E: Fn(Ask) -> Reply>(v1: &Vector, v2: &Vector, env: &E) -> (r: Vector)
    requires
        answers(*env),
        v1.wf(),
        v2.wf(),
        col_len(v1.deep_view()) == col_len(v2.deep_view()),
    ensures
        r.wf(),
        r.deep_view() == zip_columns(
            v1.deep_view(),
            v2.deep_view(),
            |a: Datum, b: Datum| l2_distance(oracle(*env), a, b),
        ),
{
    let g = |x: &Value, y: &Value| -> (z: Value)
        ensures
            z.deep_view() == l2_distance(oracle(*env), x.deep_view(), y.deep_view()),
        { vector_l2_distance(x, y, env) };
    apply_zip(v1, v2, g, Ghost(|a: Datum, b: Datum| l2_distance(oracle(*env), a, b)))
}

/// The cosines of the angles between the vectors of two columns.
pub fn eval_vector_cosine_similarity<E: Fn(Ask) -> Reply>(
    v1: &Vector,
    v2: &Vector,
    env: &E,
) -> (r: Vector)
    requires
        answers(*env),
        v1.wf(),
        v2.wf(),
        col_len(v1.deep_view()) == col_len(v2.deep_view()),
    ensures
        r.wf(),
        r.deep_view() == zip_columns(
            v1.deep_view(),
            v2.deep_view(),
            |a: Datum, b: Datum| cosine(oracle(*env), a, b),
        ),
{
    let g = |x: &Value, y: &Value| -> (z: Value)
        ensures
            z.deep_view() == cosine(oracle(*env), x.deep_view(), y.deep_view()),
        { vector_cosine_sim(x, y, env) };
    apply_zip(v1, v2, g, Ghost(|a: Datum, b: Datum| cosine(oracle(*env), a, b)))
}

/// The lengths of the vectors of a column.
pub fn eval_vector_norm<E: Fn(Ask) -> Reply>(v: &Vector, env: &E) -> (r: Vector)
    requires
        answers(*env),
        v.wf(),
    ensures
        r.wf(),
        r.deep_view() == map_column(v.deep_view(), |d: Datum| norm(oracle(*env), d)),
{
    let g = |x: &Value| -> (z: Value)
        ensures
            z.deep_view() == norm(oracle(*env), x.deep_view()),
        { vector_norm_value(x, env) };
    apply_map(v, g, Ghost(|d: Datum| norm(oracle(*env), d)))
}

} // verus!
