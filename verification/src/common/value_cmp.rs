//! The canonical order of values: NULL-aware and across types.
//!
//! - NULL is smallest, and equal to NULL.
//! - Values of one type compare by value. A NaN compares equal to everything;
//!   text and blobs compare lexicographically; vectors compare by length
//!   first, then element by element.
//! - Integers and timestamps compare as 64-bit integers. Where a float takes
//!   part, both sides compare as doubles.
//! - Unrelated types compare by the rank of their type.
use std::cmp::Ordering;
use vstd::prelude::*;

use crate::float::{
    f32_order, f64_order, f32_widen, i64_widen, int_to_f64, is_nan32, is_nan64, order32, order64,
    sign, widen32, F32, F64,
};
use crate::text::to_chars;
use crate::value::Datum;
use crate::Value;

verus! {

/// The rank of a value's type among unrelated types.
pub open spec fn rank(d: Datum) -> int {
    match d {
        Datum::Null => 0,
        Datum::Boolean(_) => 1,
        Datum::Int32(_) | Datum::Int64(_) | Datum::Timestamp(_) => 2,
        Datum::Float32(_) | Datum::Float64(_) => 3,
        Datum::Varchar(_) => 4,
        Datum::Json(_) => 5,
        Datum::Vector(_) => 6,
        Datum::VectorInt8(_) => 7,
        Datum::Blob(_) => 8,
    }
}

/// The integer that an integer or timestamp value stands for.
pub open spec fn whole(d: Datum) -> Option<int> {
    match d {
        Datum::Int32(x) => Some(x as int),
        Datum::Int64(x) => Some(x as int),
        Datum::Timestamp(x) => Some(x as int),
        _ => None,
    }
}

/// The bits of the double that a numeric value widens to.
pub open spec fn widened(d: Datum) -> Option<u64> {
    match d {
        Datum::Int32(x) => Some(int_to_f64(x as int)),
        Datum::Int64(x) => Some(int_to_f64(x as int)),
        Datum::Timestamp(x) => Some(int_to_f64(x as int)),
        Datum::Float32(b) => Some(widen32(b)),
        Datum::Float64(b) => Some(b),
        _ => None,
    }
}

/// Lexicographic order of two texts from position `i` on.
pub open spec fn text_order(a: Seq<char>, b: Seq<char>, i: int) -> int
    decreases a.len() - i,
{
    if i >= a.len() || i >= b.len() {
        sign(a.len() - b.len())
    } else if a[i] != b[i] {
        sign(a[i] as int - b[i] as int)
    } else {
        text_order(a, b, i + 1)
    }
}

/// Lexicographic order of two byte strings from position `i` on.
pub open spec fn bytes_order(a: Seq<u8>, b: Seq<u8>, i: int) -> int
    decreases a.len() - i,
{
    if i >= a.len() || i >= b.len() {
        sign(a.len() - b.len())
    } else if a[i] != b[i] {
        sign(a[i] - b[i])
    } else {
        bytes_order(a, b, i + 1)
    }
}

/// The order of two single precision vectors of one length from `i` on.
pub open spec fn vector_order(a: Seq<u32>, b: Seq<u32>, i: int) -> int
    decreases a.len() - i,
{
    if i >= a.len() || i >= b.len() {
        0
    } else if order32(a[i], b[i]) != 0 {
        order32(a[i], b[i])
    } else {
        vector_order(a, b, i + 1)
    }
}

/// The order of two byte vectors of one length from `i` on.
pub open spec fn vector_i8_order(a: Seq<i8>, b: Seq<i8>, i: int) -> int
    decreases a.len() - i,
{
    if i >= a.len() || i >= b.len() {
        0
    } else if a[i] != b[i] {
        sign(a[i] - b[i])
    } else {
        vector_i8_order(a, b, i + 1)
    }
}

/// The order of two values of one type, as -1, 0 or 1; of values of unlike
/// types, the order of the types' ranks.
pub open spec fn same_type_order(a: Datum, b: Datum) -> int {
    match (a, b) {
        (Datum::Boolean(x), Datum::Boolean(y)) => if x == y {
            0
        } else if y {
            -1
        } else {
            1
        },
        (Datum::Int32(x), Datum::Int32(y)) => sign(x - y),
        (Datum::Int64(x), Datum::Int64(y)) => sign(x - y),
        (Datum::Timestamp(x), Datum::Timestamp(y)) => sign(x - y),
        (Datum::Float32(x), Datum::Float32(y)) => order32(x, y),
        (Datum::Float64(x), Datum::Float64(y)) => order64(x, y),
        (Datum::Varchar(x), Datum::Varchar(y)) => text_order(x, y, 0),
        (Datum::Json(x), Datum::Json(y)) => text_order(x, y, 0),
        (Datum::Vector(x), Datum::Vector(y)) => if x.len() != y.len() {
            sign(x.len() - y.len())
        } else {
            vector_order(x, y, 0)
        },
        (Datum::VectorInt8(x), Datum::VectorInt8(y)) => if x.len() != y.len() {
            sign(x.len() - y.len())
        } else {
            vector_i8_order(x, y, 0)
        },
        (Datum::Blob(x), Datum::Blob(y)) => bytes_order(x, y, 0),
        _ => sign(rank(a) - rank(b)),
    }
}

/// Whether two values are of one type.
pub open spec fn same_type(a: Datum, b: Datum) -> bool {
    match (a, b) {
        (Datum::Null, Datum::Null) => true,
        (Datum::Boolean(_), Datum::Boolean(_)) => true,
        (Datum::Int32(_), Datum::Int32(_)) => true,
        (Datum::Int64(_), Datum::Int64(_)) => true,
        (Datum::Timestamp(_), Datum::Timestamp(_)) => true,
        (Datum::Float32(_), Datum::Float32(_)) => true,
        (Datum::Float64(_), Datum::Float64(_)) => true,
        (Datum::Varchar(_), Datum::Varchar(_)) => true,
        (Datum::Json(_), Datum::Json(_)) => true,
        (Datum::Vector(_), Datum::Vector(_)) => true,
        (Datum::VectorInt8(_), Datum::VectorInt8(_)) => true,
        (Datum::Blob(_), Datum::Blob(_)) => true,
        _ => false,
    }
}

/// The canonical order of two values, as -1, 0 or 1.
pub open spec fn value_order(a: Datum, b: Datum) -> int {
    if a == Datum::Null || b == Datum::Null {
        sign((if a == Datum::Null { 0int } else { 1int }) - (if b == Datum::Null { 0int } else { 1 }))
    } else if same_type(a, b) {
        same_type_order(a, b)
    } else if whole(a) is Some && whole(b) is Some {
        sign(whole(a)->0 - whole(b)->0)
    } else if widened(a) is Some && widened(b) is Some {
        order64(widened(a)->0, widened(b)->0)
    } else {
        sign(rank(a) - rank(b))
    }
}

fn type_rank(v: &Value) -> (r: u8)
    ensures
        r == rank(v.deep_view()),
{
    match v {
        Value::Null => 0,
        Value::Boolean(_) => 1,
        Value::Int32(_) | Value::Int64(_) | Value::Timestamp(_) => 2,
        Value::Float32(_) | Value::Float64(_) => 3,
        Value::Varchar(_) => 4,
        Value::Json(_) => 5,
        Value::Vector(_) => 6,
        Value::VectorInt8(_) => 7,
        Value::Blob(_) => 8,
    }
}

/// A number as a 64-bit integer, where it is one, and as a double.
pub fn numeric_widen(v: &Value) -> (r: Option<(Option<i64>, F64)>)
    ensures
        match r {
            Some((i, f)) => widened(v.deep_view()) == Some(f.bits) && match i {
                Some(x) => whole(v.deep_view()) == Some(x as int),
                None => whole(v.deep_view()) is None,
            },
            None => widened(v.deep_view()) is None,
        },
{
    match v {
        Value::Int32(x) => Some((Some(*x as i64), i64_widen(*x as i64))),
        Value::Int64(x) => Some((Some(*x), i64_widen(*x))),
        Value::Timestamp(x) => Some((Some(*x), i64_widen(*x))),
        Value::Float32(x) => Some((None, f32_widen(*x))),
        Value::Float64(x) => Some((None, *x)),
        _ => None,
    }
}

fn i64_order(x: i64, y: i64) -> (r: i8)
    ensures
        r == sign(x - y),
{
    if x < y {
        -1
    } else if x > y {
        1
    } else {
        0
    }
}

fn size_order(x: usize, y: usize) -> (r: i8)
    ensures
        r == sign(x - y),
{
    if x < y {
        -1
    } else if x > y {
        1
    } else {
        0
    }
}

/// Orders two texts lexicographically.
pub fn order_text(a: &str, b: &str) -> (r: i8)
    ensures
        r == text_order(a@, b@, 0),
{
    let x = to_chars(a);
    let y = to_chars(b);
    let mut i: usize = 0;
    while i < x.len() && i < y.len()
        invariant
            i <= x.len(),
            i <= y.len(),
            x@ == a@,
            y@ == b@,
            text_order(a@, b@, 0) == text_order(a@, b@, i as int),
        decreases x.len() - i,
    {
        if x[i] < y[i] {
            return -1;
        }
        if x[i] > y[i] {
            return 1;
        }
        i += 1;
    }
    size_order(x.len(), y.len())
}

fn order_bytes(x: &Vec<u8>, y: &Vec<u8>) -> (r: i8)
    ensures
        r == bytes_order(x@, y@, 0),
{
    let mut i: usize = 0;
    while i < x.len() && i < y.len()
        invariant
            i <= x.len(),
            i <= y.len(),
            bytes_order(x@, y@, 0) == bytes_order(x@, y@, i as int),
        decreases x.len() - i,
    {
        if x[i] < y[i] {
            return -1;
        }
        if x[i] > y[i] {
            return 1;
        }
        i += 1;
    }
    size_order(x.len(), y.len())
}

fn order_vector(x: &Vec<F32>, y: &Vec<F32>) -> (r: i8)
    requires
        x.len() == y.len(),
    ensures
        r == vector_order(x.deep_view(), y.deep_view(), 0),
{
    let mut i: usize = 0;
    let ghost a = x.deep_view();
    let ghost b = y.deep_view();
    while i < x.len()
        invariant
            i <= x.len(),
            x.len() == y.len(),
            a == x.deep_view(),
            b == y.deep_view(),
            vector_order(a, b, 0) == vector_order(a, b, i as int),
        decreases x.len() - i,
    {
        let o = f32_order(x[i], y[i]);
        if o != 0 {
            return o;
        }
        i += 1;
    }
    0
}

fn order_vector_i8(x: &Vec<i8>, y: &Vec<i8>) -> (r: i8)
    requires
        x.len() == y.len(),
    ensures
        r == vector_i8_order(x@, y@, 0),
{
    let mut i: usize = 0;
    while i < x.len()
        invariant
            i <= x.len(),
            x.len() == y.len(),
            vector_i8_order(x@, y@, 0) == vector_i8_order(x@, y@, i as int),
        decreases x.len() - i,
    {
        if x[i] < y[i] {
            return -1;
        }
        if x[i] > y[i] {
            return 1;
        }
        i += 1;
    }
    0
}

/// Orders two values of one type; values of unlike types by their ranks.
pub fn order_same_type(a: &Value, b: &Value) -> (r: i8)
    ensures
        r == same_type_order(a.deep_view(), b.deep_view()),
{
    match (a, b) {
        (Value::Boolean(x), Value::Boolean(y)) => if *x == *y {
            0
        } else if *y {
            -1
        } else {
            1
        },
        (Value::Int32(x), Value::Int32(y)) => i64_order(*x as i64, *y as i64),
        (Value::Int64(x), Value::Int64(y)) => i64_order(*x, *y),
        (Value::Timestamp(x), Value::Timestamp(y)) => i64_order(*x, *y),
        (Value::Float32(x), Value::Float32(y)) => f32_order(*x, *y),
        (Value::Float64(x), Value::Float64(y)) => f64_order(*x, *y),
        (Value::Varchar(x), Value::Varchar(y)) => order_text(x.as_str(), y.as_str()),
        (Value::Json(x), Value::Json(y)) => order_text(x.as_str(), y.as_str()),
        (Value::Vector(x), Value::Vector(y)) => if x.len() != y.len() {
            size_order(x.len(), y.len())
        } else {
            order_vector(x, y)
        },
        (Value::VectorInt8(x), Value::VectorInt8(y)) => if x.len() != y.len() {
            size_order(x.len(), y.len())
        } else {
            order_vector_i8(x, y)
        },
        (Value::Blob(x), Value::Blob(y)) => order_bytes(x, y),
        _ => i64_order(type_rank(a) as i64, type_rank(b) as i64),
    }
}

/// Whether two values are of one type.
pub fn is_same_type(a: &Value, b: &Value) -> (r: bool)
    ensures
        r == same_type(a.deep_view(), b.deep_view()),
{
    match (a, b) {
        (Value::Null, Value::Null) => true,
        (Value::Boolean(_), Value::Boolean(_)) => true,
        (Value::Int32(_), Value::Int32(_)) => true,
        (Value::Int64(_), Value::Int64(_)) => true,
        (Value::Timestamp(_), Value::Timestamp(_)) => true,
        (Value::Float32(_), Value::Float32(_)) => true,
        (Value::Float64(_), Value::Float64(_)) => true,
        (Value::Varchar(_), Value::Varchar(_)) => true,
        (Value::Json(_), Value::Json(_)) => true,
        (Value::Vector(_), Value::Vector(_)) => true,
        (Value::VectorInt8(_), Value::VectorInt8(_)) => true,
        (Value::Blob(_), Value::Blob(_)) => true,
        _ => false,
    }
}

/// The canonical order of two values, as -1, 0 or 1.
pub fn order_values(a: &Value, b: &Value) -> (r: i8)
    ensures
        r == value_order(a.deep_view(), b.deep_view()),
        -1 <= r <= 1,
{
    proof {
        lemma_order_range(a.deep_view(), b.deep_view());
    }
    if a.is_null() {
        return if b.is_null() {
            0
        } else {
            -1
        };
    }
    if b.is_null() {
        return 1;
    }
    if is_same_type(a, b) {
        return order_same_type(a, b);
    }
    match (numeric_widen(a), numeric_widen(b)) {
        (Some((Some(x), _)), Some((Some(y), _))) => i64_order(x, y),
        (Some((_, x)), Some((_, y))) => f64_order(x, y),
        _ => i64_order(type_rank(a) as i64, type_rank(b) as i64),
    }
}

/// Orders are -1, 0 or 1.
proof fn lemma_order_range(a: Datum, b: Datum)
    ensures
        -1 <= value_order(a, b) <= 1,
{
    match (a, b) {
        (Datum::Varchar(x), Datum::Varchar(y)) => {
            lemma_text_order_range(x, y, 0);
        },
        (Datum::Json(x), Datum::Json(y)) => {
            lemma_text_order_range(x, y, 0);
        },
        (Datum::Vector(x), Datum::Vector(y)) => {
            lemma_vector_order_range(x, y, 0);
        },
        (Datum::VectorInt8(x), Datum::VectorInt8(y)) => {
            lemma_vector_i8_order_range(x, y, 0);
        },
        (Datum::Blob(x), Datum::Blob(y)) => {
            lemma_bytes_order_range(x, y, 0);
        },
        _ => {},
    }
}

proof fn lemma_text_order_range(a: Seq<char>, b: Seq<char>, i: int)
    ensures
        -1 <= text_order(a, b, i) <= 1,
    decreases a.len() - i,
{
    if i < a.len() && i < b.len() && a[i] == b[i] {
        lemma_text_order_range(a, b, i + 1);
    }
}

proof fn lemma_bytes_order_range(a: Seq<u8>, b: Seq<u8>, i: int)
    ensures
        -1 <= bytes_order(a, b, i) <= 1,
    decreases a.len() - i,
{
    if i < a.len() && i < b.len() && a[i] == b[i] {
        lemma_bytes_order_range(a, b, i + 1);
    }
}

proof fn lemma_vector_order_range(a: Seq<u32>, b: Seq<u32>, i: int)
    ensures
        -1 <= vector_order(a, b, i) <= 1,
    decreases a.len() - i,
{
    if i < a.len() && i < b.len() {
        lemma_vector_order_range(a, b, i + 1);
    }
}

proof fn lemma_vector_i8_order_range(a: Seq<i8>, b: Seq<i8>, i: int)
    ensures
        -1 <= vector_i8_order(a, b, i) <= 1,
    decreases a.len() - i,
{
    if i < a.len() && i < b.len() {
        lemma_vector_i8_order_range(a, b, i + 1);
    }
}

proof fn lemma_text_order_flip(a: Seq<char>, b: Seq<char>, i: int)
    ensures
        -1 <= text_order(a, b, i) <= 1,
        text_order(a, b, i) == -text_order(b, a, i),
    decreases a.len() - i,
{
    if i < a.len() && i < b.len() && a[i] == b[i] {
        lemma_text_order_flip(a, b, i + 1);
    }
}

proof fn lemma_bytes_order_flip(a: Seq<u8>, b: Seq<u8>, i: int)
    ensures
        -1 <= bytes_order(a, b, i) <= 1,
        bytes_order(a, b, i) == -bytes_order(b, a, i),
    decreases a.len() - i,
{
    if i < a.len() && i < b.len() && a[i] == b[i] {
        lemma_bytes_order_flip(a, b, i + 1);
    }
}

proof fn lemma_vector_order_flip(a: Seq<u32>, b: Seq<u32>, i: int)
    ensures
        -1 <= vector_order(a, b, i) <= 1,
        vector_order(a, b, i) == -vector_order(b, a, i),
    decreases a.len() - i,
{
    if i < a.len() && i < b.len() && order32(a[i], b[i]) == 0 {
        lemma_vector_order_flip(a, b, i + 1);
    }
}

proof fn lemma_vector_i8_order_flip(a: Seq<i8>, b: Seq<i8>, i: int)
    ensures
        -1 <= vector_i8_order(a, b, i) <= 1,
        vector_i8_order(a, b, i) == -vector_i8_order(b, a, i),
    decreases a.len() - i,
{
    if i < a.len() && i < b.len() && a[i] == b[i] {
        lemma_vector_i8_order_flip(a, b, i + 1);
    }
}

/// Exchanging the two sides of a comparison reverses the outcome; every
/// outcome is -1, 0 or 1.
pub proof fn law_order_flips(a: Datum, b: Datum)
    ensures
        -1 <= value_order(a, b) <= 1,
        value_order(a, b) == -value_order(b, a),
{
    match (a, b) {
        (Datum::Varchar(x), Datum::Varchar(y)) => {
            lemma_text_order_flip(x, y, 0);
        },
        (Datum::Json(x), Datum::Json(y)) => {
            lemma_text_order_flip(x, y, 0);
        },
        (Datum::Vector(x), Datum::Vector(y)) => {
            lemma_vector_order_flip(x, y, 0);
        },
        (Datum::VectorInt8(x), Datum::VectorInt8(y)) => {
            lemma_vector_i8_order_flip(x, y, 0);
        },
        (Datum::Blob(x), Datum::Blob(y)) => {
            lemma_bytes_order_flip(x, y, 0);
        },
        _ => {},
    }
}

/// Every value is equal to itself.
pub proof fn law_order_reflexive(a: Datum)
    ensures
        value_order(a, a) == 0,
{
    law_order_flips(a, a);
}

/// NULL orders before every other value.
pub proof fn law_null_is_smallest(a: Datum)
    requires
        a != Datum::Null,
    ensures
        value_order(Datum::Null, a) == -1,
        value_order(a, Datum::Null) == 1,
{
}

/// Whether no NaN occurs in the value.
pub open spec fn nan_free(d: Datum) -> bool {
    match d {
        Datum::Float32(b) => !is_nan32(b),
        Datum::Float64(b) => !is_nan64(b),
        Datum::Vector(v) => forall|i: int| 0 <= i < v.len() ==> !is_nan32(#[trigger] v[i]),
        _ => true,
    }
}

proof fn lemma_text_order_trans(a: Seq<char>, b: Seq<char>, c: Seq<char>, i: int)
    requires
        text_order(a, b, i) <= 0,
        text_order(b, c, i) <= 0,
        i <= a.len(),
        i <= b.len(),
        i <= c.len(),
    ensures
        text_order(a, c, i) <= 0,
    decreases a.len() - i,
{
    if i < a.len() && i < b.len() && i < c.len() && a[i] == b[i] && b[i] == c[i] {
        lemma_text_order_trans(a, b, c, i + 1);
    }
}

proof fn lemma_bytes_order_trans(a: Seq<u8>, b: Seq<u8>, c: Seq<u8>, i: int)
    requires
        bytes_order(a, b, i) <= 0,
        bytes_order(b, c, i) <= 0,
        i <= a.len(),
        i <= b.len(),
        i <= c.len(),
    ensures
        bytes_order(a, c, i) <= 0,
    decreases a.len() - i,
{
    if i < a.len() && i < b.len() && i < c.len() && a[i] == b[i] && b[i] == c[i] {
        lemma_bytes_order_trans(a, b, c, i + 1);
    }
}

proof fn lemma_vector_order_trans(a: Seq<u32>, b: Seq<u32>, c: Seq<u32>, i: int)
    requires
        vector_order(a, b, i) <= 0,
        vector_order(b, c, i) <= 0,
        a.len() == b.len() == c.len(),
        forall|j: int| 0 <= j < a.len() ==> !is_nan32(#[trigger] a[j]),
        forall|j: int| 0 <= j < b.len() ==> !is_nan32(#[trigger] b[j]),
        forall|j: int| 0 <= j < c.len() ==> !is_nan32(#[trigger] c[j]),
        0 <= i <= a.len(),
    ensures
        vector_order(a, c, i) <= 0,
    decreases a.len() - i,
{
    if i < a.len() {
        assert(!is_nan32(a[i]) && !is_nan32(b[i]) && !is_nan32(c[i]));
        if order32(a[i], b[i]) == 0 && order32(b[i], c[i]) == 0 {
            lemma_vector_order_trans(a, b, c, i + 1);
        }
    }
}

proof fn lemma_vector_i8_order_trans(a: Seq<i8>, b: Seq<i8>, c: Seq<i8>, i: int)
    requires
        vector_i8_order(a, b, i) <= 0,
        vector_i8_order(b, c, i) <= 0,
        a.len() == b.len() == c.len(),
        i <= a.len(),
    ensures
        vector_i8_order(a, c, i) <= 0,
    decreases a.len() - i,
{
    if i < a.len() && a[i] == b[i] && b[i] == c[i] {
        lemma_vector_i8_order_trans(a, b, c, i + 1);
    }
}

/// Whether a comparison between the two goes through widening an integer to
/// a double, which can round.
pub open spec fn mixed(a: Datum, b: Datum) -> bool {
    whole(a) is Some && widened(b) is Some && whole(b) is None
}

/// The order is transitive where no NaN takes part and integers do not meet
/// floats. (A NaN is equal to everything, and a large integer is equal to
/// every integer that rounds to the same double.)
pub proof fn law_order_transitive(a: Datum, b: Datum, c: Datum)
    requires
        nan_free(a),
        nan_free(b),
        nan_free(c),
        !mixed(a, b),
        !mixed(b, a),
        !mixed(b, c),
        !mixed(c, b),
        !mixed(a, c),
        !mixed(c, a),
        value_order(a, b) <= 0,
        value_order(b, c) <= 0,
    ensures
        value_order(a, c) <= 0,
{
    match (a, b, c) {
        (Datum::Varchar(x), Datum::Varchar(y), Datum::Varchar(z)) => {
            lemma_text_order_trans(x, y, z, 0);
        },
        (Datum::Json(x), Datum::Json(y), Datum::Json(z)) => {
            lemma_text_order_trans(x, y, z, 0);
        },
        (Datum::Vector(x), Datum::Vector(y), Datum::Vector(z)) => {
            if x.len() == y.len() && y.len() == z.len() {
                lemma_vector_order_trans(x, y, z, 0);
            }
        },
        (Datum::VectorInt8(x), Datum::VectorInt8(y), Datum::VectorInt8(z)) => {
            if x.len() == y.len() && y.len() == z.len() {
                lemma_vector_i8_order_trans(x, y, z, 0);
            }
        },
        (Datum::Blob(x), Datum::Blob(y), Datum::Blob(z)) => {
            lemma_bytes_order_trans(x, y, z, 0);
        },
        (Datum::Float32(x), Datum::Float32(y), Datum::Float64(z)) => {
            crate::float::lemma_widen_keeps_order(x, y);
        },
        (Datum::Float64(x), Datum::Float32(y), Datum::Float32(z)) => {
            crate::float::lemma_widen_keeps_order(y, z);
        },
        (Datum::Float32(x), Datum::Float64(y), Datum::Float32(z)) => {
            crate::float::lemma_widen_keeps_order(x, z);
        },
        (Datum::Float32(x), Datum::Float64(y), Datum::Float64(z)) => {
            crate::float::lemma_widen_keeps_order(x, x);
        },
        (Datum::Float64(x), Datum::Float32(y), Datum::Float64(z)) => {
            crate::float::lemma_widen_keeps_order(y, y);
        },
        (Datum::Float64(x), Datum::Float64(y), Datum::Float32(z)) => {
            crate::float::lemma_widen_keeps_order(z, z);
        },
        _ => {},
    }
}

/// The canonical order of two values.
pub fn total_cmp(a: &Value, b: &Value) -> (r: Ordering)
    ensures
        r == Ordering::Less <==> value_order(a.deep_view(), b.deep_view()) == -1,
        r == Ordering::Equal <==> value_order(a.deep_view(), b.deep_view()) == 0,
        r == Ordering::Greater <==> value_order(a.deep_view(), b.deep_view()) == 1,
{
    let o = order_values(a, b);
    proof {
        law_order_flips(a.deep_view(), b.deep_view());
    }
    if o < 0 {
        Ordering::Less
    } else if o > 0 {
        Ordering::Greater
    } else {
        Ordering::Equal
    }
}

/// Canonical equality: NULL equals NULL and nothing else; other values are
/// equal when neither orders before the other.
pub fn total_eq(a: &Value, b: &Value) -> (r: bool)
    ensures
        r == (value_order(a.deep_view(), b.deep_view()) == 0),
{
    order_values(a, b) == 0
}

} // verus!
