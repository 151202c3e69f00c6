//! The dynamically typed value of the engine.
use vstd::prelude::*;

use crate::common::value_cmp::{numeric_widen, whole, widened};
use crate::float::{F32, F64};

verus! {

/// A value of a row. Floating-point numbers are held by their bits.
#[derive(Debug, PartialEq, Eq, Hash)]
pub enum Value {
    Null,
    Boolean(bool),
    Int32(i32),
    Int64(i64),
    Float32(F32),
    Float64(F64),
    Varchar(String),
    Json(String),
    Vector(Vec<F32>),
    VectorInt8(Vec<i8>),
    Blob(Vec<u8>),
    Timestamp(i64),
}

/// The model of a [`Value`].
#[verifier::ext_equal]
pub enum Datum {
    Null,
    Boolean(bool),
    Int32(i32),
    Int64(i64),
    Float32(u32),
    Float64(u64),
    Varchar(Seq<char>),
    Json(Seq<char>),
    Vector(Seq<u32>),
    VectorInt8(Seq<i8>),
    Blob(Seq<u8>),
    Timestamp(i64),
}

impl DeepView for Value {
    type V = Datum;

    open spec fn deep_view(&self) -> Datum {
        match self {
            Value::Null => Datum::Null,
            Value::Boolean(b) => Datum::Boolean(*b),
            Value::Int32(x) => Datum::Int32(*x),
            Value::Int64(x) => Datum::Int64(*x),
            Value::Float32(x) => Datum::Float32(x.bits),
            Value::Float64(x) => Datum::Float64(x.bits),
            Value::Varchar(s) => Datum::Varchar(s@),
            Value::Json(s) => Datum::Json(s@),
            Value::Vector(v) => Datum::Vector(v.deep_view()),
            Value::VectorInt8(v) => Datum::VectorInt8(v@),
            Value::Blob(v) => Datum::Blob(v@),
            Value::Timestamp(x) => Datum::Timestamp(*x),
        }
    }
}

/// Copies a byte string.
pub fn copy_bytes(v: &Vec<u8>) -> (r: Vec<u8>)
    ensures
        r@ == v@,
{
    let w = v.clone();
    assert(w@ =~= v@);
    w
}

/// Copies a vector of bytes.
pub fn copy_i8(v: &Vec<i8>) -> (r: Vec<i8>)
    ensures
        r@ == v@,
{
    let w = v.clone();
    assert(w@ =~= v@);
    w
}

/// Copies a vector of single precision numbers.
pub fn copy_vector(v: &Vec<F32>) -> (r: Vec<F32>)
    ensures
        r@ == v@,
        r.deep_view() == v.deep_view(),
{
    let w = v.clone();
    assert(w@ =~= v@);
    w
}

impl Clone for Value {
    fn clone(&self) -> (r: Self)
        ensures
            r.deep_view() == self.deep_view(),
    {
        match self {
            Value::Null => Value::Null,
            Value::Boolean(b) => Value::Boolean(*b),
            Value::Int32(x) => Value::Int32(*x),
            Value::Int64(x) => Value::Int64(*x),
            Value::Float32(x) => Value::Float32(*x),
            Value::Float64(x) => Value::Float64(*x),
            Value::Varchar(s) => Value::Varchar(s.clone()),
            Value::Json(s) => Value::Json(s.clone()),
            Value::Vector(v) => Value::Vector(copy_vector(v)),
            Value::VectorInt8(v) => Value::VectorInt8(copy_i8(v)),
            Value::Blob(v) => Value::Blob(copy_bytes(v)),
            Value::Timestamp(x) => Value::Timestamp(*x),
        }
    }
}

/// Copies a row.
pub fn clone_row(row: &Vec<Value>) -> (r: Vec<Value>)
    ensures
        r.deep_view() == row.deep_view(),
{
    let r = row.clone();
    assert(r.deep_view() =~= row.deep_view());
    r
}

/// Copies a table of rows.
pub fn clone_rows(rows: &Vec<Vec<Value>>) -> (r: Vec<Vec<Value>>)
    ensures
        r.deep_view() == rows.deep_view(),
{
    let mut out: Vec<Vec<Value>> = Vec::new();
    let mut i: usize = 0;
    while i < rows.len()
        invariant
            i <= rows.len(),
            out.deep_view() == rows.deep_view().subrange(0, i as int),
        decreases rows.len() - i,
    {
        let row = clone_row(&rows[i]);
        let ghost before = out.deep_view();
        out.push(row);
        assert(out.deep_view() =~= before.push(rows[i as int].deep_view()));
        assert(out.deep_view() =~= rows.deep_view().subrange(0, i as int + 1));
        i += 1;
    }
    assert(out.deep_view() =~= rows.deep_view());
    out
}

/// The text of a text or JSON value.
pub open spec fn text_of(d: Datum) -> Option<Seq<char>> {
    match d {
        Datum::Varchar(s) => Some(s),
        Datum::Json(s) => Some(s),
        _ => None,
    }
}

/// Whether two vectors of single precision numbers hold the same bits.
fn same_vector(a: &Vec<F32>, b: &Vec<F32>) -> (r: bool)
    ensures
        r == (a.deep_view() == b.deep_view()),
{
    let ghost x = a.deep_view();
    let ghost y = b.deep_view();
    if a.len() != b.len() {
        assert(x.len() != y.len());
        return false;
    }
    let mut i: usize = 0;
    while i < a.len()
        invariant
            i <= a.len(),
            a.len() == b.len(),
            x == a.deep_view(),
            y == b.deep_view(),
            forall|k: int| 0 <= k < i ==> x[k] == y[k],
        decreases a.len() - i,
    {
        if a[i].bits != b[i].bits {
            assert(x[i as int] != y[i as int]);
            return false;
        }
        i += 1;
    }
    assert(x =~= y);
    true
}

fn same_i8(a: &Vec<i8>, b: &Vec<i8>) -> (r: bool)
    ensures
        r == (a@ == b@),
{
    if a.len() != b.len() {
        return false;
    }
    let mut i: usize = 0;
    while i < a.len()
        invariant
            i <= a.len(),
            a.len() == b.len(),
            forall|k: int| 0 <= k < i ==> a[k] == b[k],
        decreases a.len() - i,
    {
        if a[i] != b[i] {
            assert(a@[i as int] != b@[i as int]);
            return false;
        }
        i += 1;
    }
    assert(a@ =~= b@);
    true
}

fn same_bytes(a: &Vec<u8>, b: &Vec<u8>) -> (r: bool)
    ensures
        r == (a@ == b@),
{
    if a.len() != b.len() {
        return false;
    }
    let mut i: usize = 0;
    while i < a.len()
        invariant
            i <= a.len(),
            a.len() == b.len(),
            forall|k: int| 0 <= k < i ==> a[k] == b[k],
        decreases a.len() - i,
    {
        if a[i] != b[i] {
            assert(a@[i as int] != b@[i as int]);
            return false;
        }
        i += 1;
    }
    assert(a@ =~= b@);
    true
}

/// Whether two values are of one type and hold the same.
pub fn same_value(a: &Value, b: &Value) -> (r: bool)
    ensures
        r == (a.deep_view() == b.deep_view()),
{
    match (a, b) {
        (Value::Null, Value::Null) => true,
        (Value::Boolean(x), Value::Boolean(y)) => *x == *y,
        (Value::Int32(x), Value::Int32(y)) => *x == *y,
        (Value::Int64(x), Value::Int64(y)) => *x == *y,
        (Value::Float32(x), Value::Float32(y)) => x.bits == y.bits,
        (Value::Float64(x), Value::Float64(y)) => x.bits == y.bits,
        (Value::Varchar(x), Value::Varchar(y)) => *x == *y,
        (Value::Json(x), Value::Json(y)) => *x == *y,
        (Value::Vector(x), Value::Vector(y)) => same_vector(x, y),
        (Value::VectorInt8(x), Value::VectorInt8(y)) => same_i8(x, y),
        (Value::Blob(x), Value::Blob(y)) => same_bytes(x, y),
        (Value::Timestamp(x), Value::Timestamp(y)) => *x == *y,
        _ => false,
    }
}

/// Whether two rows hold the same values.
pub fn same_row(a: &Vec<Value>, b: &Vec<Value>) -> (r: bool)
    ensures
        r == (a.deep_view() == b.deep_view()),
{
    let ghost x = a.deep_view();
    let ghost y = b.deep_view();
    if a.len() != b.len() {
        assert(x.len() != y.len());
        return false;
    }
    let mut i: usize = 0;
    while i < a.len()
        invariant
            i <= a.len(),
            a.len() == b.len(),
            x == a.deep_view(),
            y == b.deep_view(),
            forall|k: int| 0 <= k < i ==> x[k] == y[k],
        decreases a.len() - i,
    {
        assert(x[i as int] == a[i as int].deep_view());
        assert(y[i as int] == b[i as int].deep_view());
        if !same_value(&a[i], &b[i]) {
            return false;
        }
        i += 1;
    }
    assert(x =~= y);
    true
}

impl Value {
    /// The value as a 64-bit integer, for integers and timestamps.
    pub fn as_i64(&self) -> (r: Option<i64>)
        ensures
            match r {
                Some(x) => whole(self.deep_view()) == Some(x as int),
                None => whole(self.deep_view()) is None,
            },
    {
        match self {
            Value::Int32(x) => Some(*x as i64),
            Value::Int64(x) => Some(*x),
            Value::Timestamp(x) => Some(*x),
            _ => None,
        }
    }

    /// The value as a double, for numbers and timestamps.
    pub fn as_f64(&self) -> (r: Option<F64>)
        ensures
            match r {
                Some(x) => widened(self.deep_view()) == Some(x.bits),
                None => widened(self.deep_view()) is None,
            },
    {
        match numeric_widen(self) {
            Some((_, f)) => Some(f),
            None => None,
        }
    }

    /// The text of a text or JSON value.
    pub fn as_str(&self) -> (r: Option<&str>)
        ensures
            match r {
                Some(s) => text_of(self.deep_view()) == Some(s@),
                None => text_of(self.deep_view()) is None,
            },
    {
        match self {
            Value::Varchar(s) => Some(s.as_str()),
            Value::Json(s) => Some(s.as_str()),
            _ => None,
        }
    }

    /// Whether the value is NULL.
    pub fn is_null(&self) -> (r: bool)
        ensures
            r == (self.deep_view() == Datum::Null),
    {
        matches!(self, Value::Null)
    }
}

} // verus!
