//! Environments whose arithmetic is exact wherever a double can hold the result.
use vstd::prelude::*;

use crate::executor::env::{arith1, arith2, Answer, FloatOp, Question};
use crate::float::{int_to_f64, widen32, INF64, SIGN64};
use crate::value::Datum;

verus! {

/// Whether the bits are those of a finite double.
pub open spec fn finite64(b: u64) -> bool {
    (b as int) % (SIGN64 as int) < (INF64 as int)
}

/// Whether a double stands for a number.
pub open spec fn stands(val: spec_fn(u64) -> real, b: u64, r: real) -> bool {
    finite64(b) && val(b) == r
}

/// Whether some double stands for a number.
pub open spec fn held(val: spec_fn(u64) -> real, r: real) -> bool {
    exists|b: u64| #[trigger] stands(val, b, r)
}

/// Whether the operations of an environment give the sum, the difference, the
/// product, the quotient and the root of what doubles stand for, wherever a
/// double stands for it.
pub open spec fn exact(o: spec_fn(Question) -> Answer, val: spec_fn(u64) -> real) -> bool {
    &&& stands(val, 0, 0 as real)
    &&& forall|x: u64, y: u64|
        finite64(x) && finite64(y) && held(val, val(x) + val(y)) ==> stands(
            val,
            #[trigger] arith2(o, FloatOp::Add, x, y),
            val(x) + val(y),
        )
    &&& forall|x: u64, y: u64|
        finite64(x) && finite64(y) && held(val, val(x) - val(y)) ==> stands(
            val,
            #[trigger] arith2(o, FloatOp::Sub, x, y),
            val(x) - val(y),
        )
    &&& forall|x: u64, y: u64|
        finite64(x) && finite64(y) && held(val, val(x) * val(y)) ==> stands(
            val,
            #[trigger] arith2(o, FloatOp::Mul, x, y),
            val(x) * val(y),
        )
    &&& forall|x: u64, y: u64, q: u64|
        finite64(x) && finite64(y) && finite64(q) && val(y) != 0 as real && val(q) * val(y)
            == val(x) ==> stands(
            val,
            #[trigger] arith2(o, FloatOp::Div, x, y),
            #[trigger] val(q),
        )
    &&& forall|x: u64, r: u64|
        finite64(x) && finite64(r) && val(r) >= 0 as real && val(r) * val(r) == val(x) ==> stands(
            val,
            #[trigger] arith1(o, FloatOp::Sqrt, x),
            #[trigger] val(r),
        )
}

/// Whether a value is a number that stands for another.
pub open spec fn amounts(val: spec_fn(u64) -> real, d: Datum, r: real) -> bool {
    match d {
        Datum::Int32(x) => stands(val, int_to_f64(x as int), r),
        Datum::Int64(x) => stands(val, int_to_f64(x as int), r),
        Datum::Timestamp(x) => stands(val, int_to_f64(x as int), r),
        Datum::Float32(b) => stands(val, widen32(b), r),
        Datum::Float64(b) => stands(val, b, r),
        _ => false,
    }
}

/// Whether a value is a whole number that stands for an integer.
pub open spec fn denotes(d: Datum, x: int) -> bool {
    match d {
        Datum::Int32(v) => v == x,
        Datum::Int64(v) => v == x,
        Datum::Timestamp(v) => v == x,
        _ => false,
    }
}

/// Whether 64 bits hold an integer.
pub open spec fn fits64(x: int) -> bool {
    i64::MIN <= x <= i64::MAX
}

} // verus!
