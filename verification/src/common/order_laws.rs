//! The order of values that are made of parts, and of values of unlike types.
use vstd::prelude::*;

use crate::common::value_cmp::{bytes_order, value_order, vector_i8_order, vector_order};
use crate::float::order32;
use crate::value::Datum;

verus! {

/// Blobs are in the order of the first bytes in which they differ, and one goes
/// before those that it begins.
pub proof fn law_order_blobs(a: Seq<u8>, b: Seq<u8>, k: int)
    requires
        0 <= k <= a.len(),
        k < b.len(),
        forall|j: int| 0 <= j < k ==> a[j] == b[j],
        k == a.len() || a[k] < b[k],
    ensures
        value_order(Datum::Blob(a), Datum::Blob(b)) == -1,
        value_order(Datum::Blob(b), Datum::Blob(a)) == 1,
        value_order(Datum::Blob(a), Datum::Blob(a)) == 0,
{
    lemma_bytes_order(a, b, 0, k);
    lemma_bytes_same(a, 0);
}

proof fn lemma_bytes_order(a: Seq<u8>, b: Seq<u8>, i: int, k: int)
    requires
        0 <= i <= k <= a.len(),
        k < b.len(),
        forall|j: int| 0 <= j < k ==> a[j] == b[j],
        k == a.len() || a[k] < b[k],
    ensures
        bytes_order(a, b, i) == -1,
        bytes_order(b, a, i) == 1,
    decreases k - i,
{
    if i < k {
        assert(a[i] == b[i]);
        lemma_bytes_order(a, b, i + 1, k);
    }
}

proof fn lemma_bytes_same(a: Seq<u8>, i: int)
    requires
        0 <= i <= a.len(),
    ensures
        bytes_order(a, a, i) == 0,
    decreases a.len() - i,
{
    if i < a.len() {
        lemma_bytes_same(a, i + 1);
    }
}

/// Shorter vectors go first; those of one length are in the order of the first
/// components that are not equal, and are equal where there are none.
pub proof fn law_order_vectors(a: Seq<u32>, b: Seq<u32>, k: int)
    requires
        0 <= k <= a.len(),
        a.len() == b.len() ==> forall|j: int| 0 <= j < k ==> #[trigger] order32(a[j], b[j]) == 0,
    ensures
        a.len() < b.len() ==> value_order(Datum::Vector(a), Datum::Vector(b)) == -1,
        a.len() > b.len() ==> value_order(Datum::Vector(a), Datum::Vector(b)) == 1,
        a.len() == b.len() && k == a.len() ==> value_order(Datum::Vector(a), Datum::Vector(b)) == 0,
        a.len() == b.len() && k < a.len() && order32(a[k], b[k]) != 0 ==> value_order(
            Datum::Vector(a),
            Datum::Vector(b),
        ) == order32(a[k], b[k]),
{
    if a.len() == b.len() {
        lemma_vector_order(a, b, 0, k);
    }
}

proof fn lemma_vector_order(a: Seq<u32>, b: Seq<u32>, i: int, k: int)
    requires
        0 <= i <= k <= a.len(),
        a.len() == b.len(),
        forall|j: int| 0 <= j < k ==> #[trigger] order32(a[j], b[j]) == 0,
    ensures
        vector_order(a, b, i) == vector_order(a, b, k),
    decreases k - i,
{
    if i < k {
        assert(order32(a[i], b[i]) == 0);
        lemma_vector_order(a, b, i + 1, k);
    }
}

/// Shorter byte vectors go first; those of one length are in the order of the
/// first components that differ.
pub proof fn law_order_byte_vectors(a: Seq<i8>, b: Seq<i8>, k: int)
    requires
        0 <= k <= a.len(),
        a.len() == b.len() ==> forall|j: int| 0 <= j < k ==> a[j] == b[j],
    ensures
        a.len() < b.len() ==> value_order(Datum::VectorInt8(a), Datum::VectorInt8(b)) == -1,
        a.len() > b.len() ==> value_order(Datum::VectorInt8(a), Datum::VectorInt8(b)) == 1,
        a.len() == b.len() && k == a.len() ==> value_order(
            Datum::VectorInt8(a),
            Datum::VectorInt8(b),
        ) == 0,
        a.len() == b.len() && k < a.len() && a[k] < b[k] ==> value_order(
            Datum::VectorInt8(a),
            Datum::VectorInt8(b),
        ) == -1,
        a.len() == b.len() && k < a.len() && a[k] > b[k] ==> value_order(
            Datum::VectorInt8(a),
            Datum::VectorInt8(b),
        ) == 1,
{
    if a.len() == b.len() {
        lemma_byte_vector_order(a, b, 0, k);
    }
}

proof fn lemma_byte_vector_order(a: Seq<i8>, b: Seq<i8>, i: int, k: int)
    requires
        0 <= i <= k <= a.len(),
        a.len() == b.len(),
        forall|j: int| 0 <= j < k ==> a[j] == b[j],
    ensures
        vector_i8_order(a, b, i) == vector_i8_order(a, b, k),
    decreases k - i,
{
    if i < k {
        lemma_byte_vector_order(a, b, i + 1, k);
    }
}

/// Whether a value is a number or a moment.
pub open spec fn numeric(d: Datum) -> bool {
    d is Int32 || d is Int64 || d is Timestamp || d is Float32 || d is Float64
}

/// Values of unlike types, of which one at least is no number, are in an order
/// that does not depend on what they hold: NULL, truth values, numbers, texts,
/// documents, vectors, byte vectors, blobs.
pub proof fn law_order_types(a: Datum, b: Datum)
    ensures
        a is Null && !(b is Null) ==> value_order(a, b) == -1,
        a is Boolean && (numeric(b) || b is Varchar) ==> value_order(a, b) == -1,
        numeric(a) && b is Varchar ==> value_order(a, b) == -1,
        a is Varchar && b is Json ==> value_order(a, b) == -1,
        a is Json && b is Vector ==> value_order(a, b) == -1,
        a is Vector && b is VectorInt8 ==> value_order(a, b) == -1,
        a is VectorInt8 && b is Blob ==> value_order(a, b) == -1,
{
}

} // verus!
