//! How long rows live, and what a list of values has in common.
use vstd::prelude::*;

use crate::common::column_data::{common_type, ones, type_of, ValueType};
use crate::common::types::outlived;
use crate::value::Datum;

verus! {

/// A row lives for the whole seconds of its lifetime, to the last millisecond
/// of them, and no longer: having outlived it once, it has for good.
pub proof fn law_lifetime(created: int, ttl: int, seconds: int, ms: int)
    requires
        0 <= ms < 1000,
    ensures
        seconds < ttl ==> !outlived(created + seconds * 1000 + ms, created, ttl),
        seconds > ttl ==> outlived(created + seconds * 1000 + ms, created, ttl),
        outlived(created + ttl * 1000 + ms, created, ttl) <==> ms > 0,
{
    assert(seconds < ttl ==> seconds * 1000 + 1000 <= ttl * 1000);
    assert(seconds > ttl ==> seconds * 1000 >= ttl * 1000 + 1000);
}

/// The bits of two lists one behind the other are the bits of both; a list of
/// set bits has as many as it is long, and one of cleared bits none.
pub proof fn law_ones(a: Seq<bool>, b: Seq<bool>, n: int)
    requires
        0 <= n <= b.len(),
    ensures
        ones(a + b, a.len() + n) == ones(a, a.len() as int) + ones(b, n),
        (forall|i: int| 0 <= i < n ==> #[trigger] b[i]) <==> ones(b, n) == n,
        (forall|i: int| 0 <= i < n ==> !#[trigger] b[i]) <==> ones(b, n) == 0,
    decreases n,
{
    if n > 0 {
        law_ones(a, b, n - 1);
        lemma_ones_bound(b, n - 1);
        assert((a + b)[a.len() + n - 1] == b[n - 1]);
    } else {
        lemma_ones_front(a, a + b, a.len() as int);
    }
}

proof fn lemma_ones_bound(b: Seq<bool>, n: int)
    requires
        0 <= n <= b.len(),
    ensures
        0 <= ones(b, n) <= n,
    decreases n,
{
    if n > 0 {
        lemma_ones_bound(b, n - 1);
    }
}

proof fn lemma_ones_front(a: Seq<bool>, b: Seq<bool>, n: int)
    requires
        0 <= n <= a.len() <= b.len(),
        forall|i: int| 0 <= i < a.len() ==> a[i] == b[i],
    ensures
        ones(a, n) == ones(b, n),
    decreases n,
{
    if n > 0 {
        lemma_ones_front(a, b, n - 1);
    }
}

/// Whether a value is of a type.
pub open spec fn is_of(d: Datum, t: ValueType) -> bool {
    match t {
        ValueType::Boolean => d is Boolean,
        ValueType::Int32 => d is Int32,
        ValueType::Int64 => d is Int64,
        ValueType::Float32 => d is Float32,
        ValueType::Float64 => d is Float64,
        ValueType::Varchar => d is Varchar,
        ValueType::Json => d is Json,
        ValueType::Blob => d is Blob,
        ValueType::Vector => d is Vector,
        ValueType::VectorInt8 => d is VectorInt8,
        ValueType::Timestamp => d is Timestamp,
    }
}

/// Values have a type in common when one of them is not NULL and all that are
/// not are of that type.
pub proof fn law_common_type(vals: Seq<Datum>, t: ValueType)
    ensures
        common_type(vals) == Some(t) <==> {
            &&& exists|i: int| 0 <= i < vals.len() && #[trigger] vals[i] != Datum::Null
            &&& forall|i: int|
                0 <= i < vals.len() ==> #[trigger] vals[i] == Datum::Null || is_of(vals[i], t)
        },
{
    assert forall|d: Datum| #[trigger] type_of(d) == Some(t) <==> is_of(d, t) by {}
    if exists|i: int| 0 <= i < vals.len() && vals[i] != Datum::Null {
        let k = choose|i: int| 0 <= i < vals.len() && vals[i] != Datum::Null;
        if common_type(vals) == Some(t) {
            assert(type_of(vals[k]) == Some(t));
            assert forall|i: int| 0 <= i < vals.len() implies #[trigger] vals[i] == Datum::Null
                || is_of(vals[i], t) by {
                if vals[i] != Datum::Null {
                    assert(type_of(vals[i]) == type_of(vals[k]));
                }
            }
        }
        if forall|i: int|
            0 <= i < vals.len() ==> #[trigger] vals[i] == Datum::Null || is_of(vals[i], t) {
            assert(is_of(vals[k], t));
            assert forall|i: int, j: int|
                0 <= i < vals.len() && 0 <= j < vals.len() && vals[i] != Datum::Null && vals[j]
                    != Datum::Null implies type_of(vals[i]) == type_of(vals[j]) by {
                assert(is_of(vals[i], t) && is_of(vals[j], t));
                assert(type_of(vals[i]) == Some(t) && type_of(vals[j]) == Some(t));
            }
        }
    }
}

} // verus!
