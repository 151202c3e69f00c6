//! Arrow arrays.
use vstd::prelude::*;

use crate::common::tokenizer::byte_len;
use crate::datafusion_ext::types::ArrowType;
use crate::float::F64;
use crate::value::Datum;

verus! {

/// An array of the `arrow_array` crate. The proofs speak of it by
/// [`array_cells`] and [`array_kind`] only.
#[verifier::external_body]
#[derive(Debug)]
pub struct ArrowArray {
    pub array: arrow_array::ArrayRef,
}

/// The values of an array, with NULL for those that are missing.
pub uninterp spec fn array_cells(a: ArrowArray) -> Seq<Datum>;

/// The type of the values of an array.
pub uninterp spec fn array_kind(a: ArrowArray) -> ArrowType;

/// A column of values of one type, each of which may be missing.
#[derive(Debug)]
pub enum ArrowColumn {
    Boolean(Vec<Option<bool>>),
    Int32(Vec<Option<i32>>),
    Int64(Vec<Option<i64>>),
    Float64(Vec<Option<F64>>),
    Utf8(Vec<Option<String>>),
}

/// Truth values, with NULL for those that are missing.
pub open spec fn boolean_cells(v: Seq<Option<bool>>) -> Seq<Datum> {
    Seq::new(
        v.len(),
        |i: int|
            match v[i] {
                Some(b) => Datum::Boolean(b),
                None => Datum::Null,
            },
    )
}

/// Numbers, with NULL for those that are missing.
pub open spec fn int32_cells(v: Seq<Option<i32>>) -> Seq<Datum> {
    Seq::new(
        v.len(),
        |i: int|
            match v[i] {
                Some(x) => Datum::Int32(x),
                None => Datum::Null,
            },
    )
}

/// Numbers, with NULL for those that are missing.
pub open spec fn int64_cells(v: Seq<Option<i64>>) -> Seq<Datum> {
    Seq::new(
        v.len(),
        |i: int|
            match v[i] {
                Some(x) => Datum::Int64(x),
                None => Datum::Null,
            },
    )
}

/// Doubles, with NULL for those that are missing.
pub open spec fn float64_cells(v: Seq<Option<F64>>) -> Seq<Datum> {
    Seq::new(
        v.len(),
        |i: int|
            match v[i] {
                Some(x) => Datum::Float64(x.bits),
                None => Datum::Null,
            },
    )
}

/// Texts, with NULL for those that are missing.
pub open spec fn utf8_cells(v: Seq<Option<String>>) -> Seq<Datum> {
    Seq::new(
        v.len(),
        |i: int|
            match v[i] {
                Some(s) => Datum::Varchar(s@),
                None => Datum::Null,
            },
    )
}

/// The values of a column, with NULL for those that are missing.
pub open spec fn cells_of(c: ArrowColumn) -> Seq<Datum> {
    match c {
        ArrowColumn::Boolean(v) => boolean_cells(v@),
        ArrowColumn::Int32(v) => int32_cells(v@),
        ArrowColumn::Int64(v) => int64_cells(v@),
        ArrowColumn::Float64(v) => float64_cells(v@),
        ArrowColumn::Utf8(v) => utf8_cells(v@),
    }
}

/// The Arrow type of a column of values.
pub open spec fn kind_of(c: ArrowColumn) -> ArrowType {
    match c {
        ArrowColumn::Boolean(_) => ArrowType::Boolean,
        ArrowColumn::Int32(_) => ArrowType::Int32,
        ArrowColumn::Int64(_) => ArrowType::Int64,
        ArrowColumn::Float64(_) => ArrowType::Float64,
        ArrowColumn::Utf8(_) => ArrowType::Utf8,
    }
}

/// The bytes of the first `n` texts.
pub open spec fn text_bytes(cells: Seq<Datum>, n: nat) -> nat
    decreases n,
{
    if n == 0 {
        0
    } else {
        text_bytes(cells, (n - 1) as nat) + match cells[n - 1] {
            Datum::Varchar(s) => byte_len(s),
            _ => 0,
        }
    }
}

/// The most bytes that the texts of an array can have together.
pub const MAX_TEXT_BYTES: u32 = 0x7fff_ffff;

/// Whether the texts fit in one array.
pub open spec fn texts_fit(cells: Seq<Datum>) -> bool {
    text_bytes(cells, cells.len()) <= MAX_TEXT_BYTES
}

/// `BooleanArray::from`, of the `arrow_array` crate: the array has the values
/// in their order, and none where none is given.
#[verifier::external_body]
fn boolean_array(v: Vec<Option<bool>>) -> (r: ArrowArray)
    ensures
        array_kind(r) == ArrowType::Boolean,
        array_cells(r) == boolean_cells(v@),
{
    ArrowArray { array: std::sync::Arc::new(arrow_array::BooleanArray::from(v)) }
}

/// `Int32Array::from`, of the `arrow_array` crate: the array has the values in
/// their order, and none where none is given.
#[verifier::external_body]
fn int32_array(v: Vec<Option<i32>>) -> (r: ArrowArray)
    ensures
        array_kind(r) == ArrowType::Int32,
        array_cells(r) == int32_cells(v@),
{
    ArrowArray { array: std::sync::Arc::new(arrow_array::Int32Array::from(v)) }
}

/// `Int64Array::from`, of the `arrow_array` crate: the array has the values in
/// their order, and none where none is given.
#[verifier::external_body]
fn int64_array(v: Vec<Option<i64>>) -> (r: ArrowArray)
    ensures
        array_kind(r) == ArrowType::Int64,
        array_cells(r) == int64_cells(v@),
{
    ArrowArray { array: std::sync::Arc::new(arrow_array::Int64Array::from(v)) }
}

/// `UInt64Array::from`, of the `arrow_array` crate, on the bits of doubles,
/// and the same buffer read as one of doubles: the array has the values in
/// their order, and none where none is given.
#[verifier::external_body]
fn float64_array(v: Vec<Option<F64>>) -> (r: ArrowArray)
    ensures
        array_kind(r) == ArrowType::Float64,
        array_cells(r) == float64_cells(v@),
{
    let bits: Vec<Option<u64>> = v.iter().map(|x| x.map(|y| y.bits)).collect();
    let data = arrow::array::ArrayData::from(arrow_array::UInt64Array::from(bits));
    let doubles = data.into_builder().data_type(arrow::datatypes::DataType::Float64).build();
    ArrowArray { array: arrow_array::make_array(doubles.unwrap()) }
}

/// `StringArray::from`, of the `arrow_array` crate: the array has the texts in
/// their order, and none where none is given. It counts bytes in 31 bits.
#[verifier::external_body]
fn utf8_array(v: Vec<Option<String>>) -> (r: ArrowArray)
    requires
        texts_fit(utf8_cells(v@)),
    ensures
        array_kind(r) == ArrowType::Utf8,
        array_cells(r) == utf8_cells(v@),
{
    ArrowArray { array: std::sync::Arc::new(arrow_array::StringArray::from(v)) }
}

/// The array of a column.
pub fn to_array(c: ArrowColumn) -> (r: ArrowArray)
    requires
        c is Utf8 ==> texts_fit(cells_of(c)),
    ensures
        array_kind(r) == kind_of(c),
        array_cells(r) == cells_of(c),
{
    match c {
        ArrowColumn::Boolean(v) => boolean_array(v),
        ArrowColumn::Int32(v) => int32_array(v),
        ArrowColumn::Int64(v) => int64_array(v),
        ArrowColumn::Float64(v) => float64_array(v),
        ArrowColumn::Utf8(v) => utf8_array(v),
    }
}

} // verus!
