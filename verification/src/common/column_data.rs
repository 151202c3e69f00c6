//! Typed columns: one array per column, with a NULL bitmap beside it.
//!
//! All non-NULL values of a typed column share one type, so that reading a
//! row gives back exactly the value that was stored.
use vstd::prelude::*;

use crate::float::{F32, F64};
use crate::value::{copy_bytes, copy_i8, copy_vector, Datum};
use crate::Value;

verus! {

/// One bit per row: a set bit marks a NULL.
#[derive(Debug)]
pub struct BitVec {
    words: Vec<u64>,
    len: usize,
}

/// Bit `b` of a word.
pub open spec fn bit_of(w: u64, b: u64) -> bool {
    (w >> b) & 1 == 1
}

impl View for BitVec {
    type V = Seq<bool>;

    closed spec fn view(&self) -> Seq<bool> {
        Seq::new(self.len as nat, |i: int| bit_of(self.words[i / 64], (i % 64) as u64))
    }
}

/// How many of the first `n` bits are set.
pub open spec fn ones(s: Seq<bool>, n: int) -> int
    decreases n,
{
    if n <= 0 {
        0
    } else {
        ones(s, n - 1) + if s[n - 1] { 1int } else { 0 }
    }
}

/// The count of set bits is at most the number of bits, and positive as soon
/// as one bit is set.
pub proof fn lemma_ones(s: Seq<bool>, n: int)
    requires
        0 <= n <= s.len(),
    ensures
        0 <= ones(s, n) <= n,
        ones(s, n) > 0 <==> exists|i: int| 0 <= i < n && s[i],
    decreases n,
{
    if n > 0 {
        lemma_ones(s, n - 1);
        if ones(s, n) > 0 {
            if s[n - 1] {
                assert(0 <= n - 1 < n && s[n - 1]);
            } else {
                let i = choose|i: int| 0 <= i < n - 1 && s[i];
                assert(0 <= i < n && s[i]);
            }
        }
    }
}

impl BitVec {
    /// Whether there is a word for every bit.
    pub closed spec fn wf(&self) -> bool {
        self.words.len() * 64 >= self.len
    }

    /// `len` bits, all clear.
    pub fn new(len: usize) -> (r: Self)
        ensures
            r.wf(),
            r@ == Seq::new(len as nat, |i: int| false),
    {
        let n: usize = if len % 64 == 0 {
            len / 64
        } else {
            len / 64 + 1
        };
        let mut words: Vec<u64> = Vec::new();
        let mut i: usize = 0;
        while i < n
            invariant
                i <= n,
                words.len() == i,
                forall|k: int| 0 <= k < i ==> words[k] == 0u64,
            decreases n - i,
        {
            words.push(0);
            i += 1;
        }
        let r = BitVec { words, len };
        assert(forall|b: u64| b < 64 ==> !#[trigger] bit_of(0u64, b)) by {
            assert(forall|b: u64| b < 64 ==> (0u64 >> b) & 1 == 0u64) by (bit_vector);
        }
        assert(r@ =~= Seq::new(len as nat, |i: int| false));
        r
    }

    /// `len` bits, all set.
    pub fn all_ones(len: usize) -> (r: Self)
        ensures
            r.wf(),
            r@ == Seq::new(len as nat, |i: int| true),
    {
        let mut bv = Self::new(len);
        let mut i: usize = 0;
        while i < len
            invariant
                i <= len,
                bv.wf(),
                bv@.len() == len,
                forall|k: int| 0 <= k < i ==> bv@[k],
            decreases len - i,
        {
            bv.set(i, true);
            i += 1;
        }
        assert(bv@ =~= Seq::new(len as nat, |i: int| true));
        bv
    }

    /// The number of bits.
    pub fn len(&self) -> (n: usize)
        ensures
            n == self@.len(),
    {
        self.len
    }

    /// Whether there is no bit at all.
    pub fn is_empty(&self) -> (r: bool)
        ensures
            r == (self@.len() == 0),
    {
        self.len == 0
    }

    /// Sets bit `i` to `v`; the other bits stay.
    pub fn set(&mut self, i: usize, v: bool)
        requires
            old(self).wf(),
            i < old(self)@.len(),
        ensures
            final(self).wf(),
            final(self)@ == old(self)@.update(i as int, v),
    {
        let word: usize = i / 64;
        let bit: u64 = (i % 64) as u64;
        let w: u64 = self.words[word];
        let x: u64 = if v {
            w | (1u64 << bit)
        } else {
            w & !(1u64 << bit)
        };
        self.words.set(word, x);
        proof {
            assert(bit_of(x, bit) == v) by {
                if v {
                    assert(((w | (1u64 << bit)) >> bit) & 1 == 1u64) by (bit_vector)
                        requires
                            bit < 64,
                    ;
                } else {
                    assert(((w & !(1u64 << bit)) >> bit) & 1 == 0u64) by (bit_vector)
                        requires
                            bit < 64,
                    ;
                }
            }
            assert forall|b: u64| b < 64 && b != bit implies #[trigger] bit_of(x, b) == bit_of(
                w,
                b,
            ) by {
                if v {
                    assert(((w | (1u64 << bit)) >> b) & 1 == (w >> b) & 1) by (bit_vector)
                        requires
                            bit < 64,
                            b < 64,
                            b != bit,
                    ;
                } else {
                    assert(((w & !(1u64 << bit)) >> b) & 1 == (w >> b) & 1) by (bit_vector)
                        requires
                            bit < 64,
                            b < 64,
                            b != bit,
                    ;
                }
            }
            assert(final(self)@ =~= old(self)@.update(i as int, v)) by {
                assert forall|k: int| 0 <= k < self.len implies self@[k] == old(self)@.update(
                    i as int,
                    v,
                )[k] by {
                    if k / 64 == i as int / 64 && k != i {
                        assert(k % 64 != i as int % 64);
                    }
                }
            }
        }
    }

    /// Reads bit `i`.
    pub fn test(&self, i: usize) -> (r: bool)
        requires
            self.wf(),
            i < self@.len(),
        ensures
            r == self@[i as int],
    {
        (self.words[i / 64] >> ((i % 64) as u64)) & 1 == 1
    }

    /// The number of set bits.
    pub fn count_ones(&self) -> (n: usize)
        requires
            self.wf(),
        ensures
            n == ones(self@, self@.len() as int),
    {
        let mut n: usize = 0;
        let mut i: usize = 0;
        while i < self.len
            invariant
                self.wf(),
                i <= self.len,
                self@.len() == self.len,
                n <= i,
                n == ones(self@, i as int),
            decreases self.len - i,
        {
            if self.test(i) {
                n += 1;
            }
            i += 1;
        }
        n
    }
}

impl Clone for BitVec {
    fn clone(&self) -> (r: Self)
        ensures
            r@ == self@,
            self.wf() ==> r.wf(),
    {
        let words = self.words.clone();
        assert(words@ =~= self.words@);
        let r = BitVec { words, len: self.len };
        assert(r@ =~= self@);
        r
    }
}

/// The values of a column, by type.
#[derive(Debug)]
pub enum ColumnValue {
    Boolean(Vec<bool>),
    Int32(Vec<i32>),
    Int64(Vec<i64>),
    Float32(Vec<F32>),
    Float64(Vec<F64>),
    Varchar(Vec<String>),
    Json(Vec<String>),
    Blob(Vec<Vec<u8>>),
    Vector(Vec<Vec<F32>>),
    VectorInt8(Vec<Vec<i8>>),
    Timestamp(Vec<i64>),
}

/// The value at row `i`.
pub open spec fn cell(v: ColumnValue, i: int) -> Datum {
    match v {
        ColumnValue::Boolean(a) => Datum::Boolean(a[i]),
        ColumnValue::Int32(a) => Datum::Int32(a[i]),
        ColumnValue::Int64(a) => Datum::Int64(a[i]),
        ColumnValue::Float32(a) => Datum::Float32(a[i].bits),
        ColumnValue::Float64(a) => Datum::Float64(a[i].bits),
        ColumnValue::Varchar(a) => Datum::Varchar(a[i]@),
        ColumnValue::Json(a) => Datum::Json(a[i]@),
        ColumnValue::Blob(a) => Datum::Blob(a[i]@),
        ColumnValue::Vector(a) => Datum::Vector(a[i].deep_view()),
        ColumnValue::VectorInt8(a) => Datum::VectorInt8(a[i]@),
        ColumnValue::Timestamp(a) => Datum::Timestamp(a[i]),
    }
}

/// The number of rows.
pub open spec fn cells(v: ColumnValue) -> nat {
    match v {
        ColumnValue::Boolean(a) => a@.len(),
        ColumnValue::Int32(a) => a@.len(),
        ColumnValue::Int64(a) => a@.len(),
        ColumnValue::Float32(a) => a@.len(),
        ColumnValue::Float64(a) => a@.len(),
        ColumnValue::Varchar(a) => a@.len(),
        ColumnValue::Json(a) => a@.len(),
        ColumnValue::Blob(a) => a@.len(),
        ColumnValue::Vector(a) => a@.len(),
        ColumnValue::VectorInt8(a) => a@.len(),
        ColumnValue::Timestamp(a) => a@.len(),
    }
}

/// The type of a column's values.
#[derive(Debug, Clone, Copy, PartialEq, Eq, Structural)]
pub enum ValueType {
    Boolean,
    Int32,
    Int64,
    Float32,
    Float64,
    Varchar,
    Json,
    Blob,
    Vector,
    VectorInt8,
    Timestamp,
}

/// The type of a value; NULL has none.
pub open spec fn type_of(d: Datum) -> Option<ValueType> {
    match d {
        Datum::Null => None,
        Datum::Boolean(_) => Some(ValueType::Boolean),
        Datum::Int32(_) => Some(ValueType::Int32),
        Datum::Int64(_) => Some(ValueType::Int64),
        Datum::Float32(_) => Some(ValueType::Float32),
        Datum::Float64(_) => Some(ValueType::Float64),
        Datum::Varchar(_) => Some(ValueType::Varchar),
        Datum::Json(_) => Some(ValueType::Json),
        Datum::Blob(_) => Some(ValueType::Blob),
        Datum::Vector(_) => Some(ValueType::Vector),
        Datum::VectorInt8(_) => Some(ValueType::VectorInt8),
        Datum::Timestamp(_) => Some(ValueType::Timestamp),
    }
}

/// The type of the values that the array holds.
pub open spec fn array_type(v: ColumnValue) -> ValueType {
    match v {
        ColumnValue::Boolean(_) => ValueType::Boolean,
        ColumnValue::Int32(_) => ValueType::Int32,
        ColumnValue::Int64(_) => ValueType::Int64,
        ColumnValue::Float32(_) => ValueType::Float32,
        ColumnValue::Float64(_) => ValueType::Float64,
        ColumnValue::Varchar(_) => ValueType::Varchar,
        ColumnValue::Json(_) => ValueType::Json,
        ColumnValue::Blob(_) => ValueType::Blob,
        ColumnValue::Vector(_) => ValueType::Vector,
        ColumnValue::VectorInt8(_) => ValueType::VectorInt8,
        ColumnValue::Timestamp(_) => ValueType::Timestamp,
    }
}

/// The type of a value; NULL has none.
pub fn value_type(v: &Value) -> (r: Option<ValueType>)
    ensures
        r == type_of(v.deep_view()),
{
    match v {
        Value::Null => None,
        Value::Boolean(_) => Some(ValueType::Boolean),
        Value::Int32(_) => Some(ValueType::Int32),
        Value::Int64(_) => Some(ValueType::Int64),
        Value::Float32(_) => Some(ValueType::Float32),
        Value::Float64(_) => Some(ValueType::Float64),
        Value::Varchar(_) => Some(ValueType::Varchar),
        Value::Json(_) => Some(ValueType::Json),
        Value::Blob(_) => Some(ValueType::Blob),
        Value::Vector(_) => Some(ValueType::Vector),
        Value::VectorInt8(_) => Some(ValueType::VectorInt8),
        Value::Timestamp(_) => Some(ValueType::Timestamp),
    }
}

impl ColumnValue {
    /// The number of rows.
    pub fn len(&self) -> (n: usize)
        ensures
            n == cells(*self),
    {
        match self {
            ColumnValue::Boolean(v) => v.len(),
            ColumnValue::Int32(v) => v.len(),
            ColumnValue::Int64(v) => v.len(),
            ColumnValue::Float32(v) => v.len(),
            ColumnValue::Float64(v) => v.len(),
            ColumnValue::Varchar(v) => v.len(),
            ColumnValue::Json(v) => v.len(),
            ColumnValue::Blob(v) => v.len(),
            ColumnValue::Vector(v) => v.len(),
            ColumnValue::VectorInt8(v) => v.len(),
            ColumnValue::Timestamp(v) => v.len(),
        }
    }

    /// An array of the given type without rows.
    fn empty(t: ValueType) -> (r: Self)
        ensures
            cells(r) == 0,
            array_type(r) == t,
    {
        match t {
            ValueType::Boolean => ColumnValue::Boolean(Vec::new()),
            ValueType::Int32 => ColumnValue::Int32(Vec::new()),
            ValueType::Int64 => ColumnValue::Int64(Vec::new()),
            ValueType::Float32 => ColumnValue::Float32(Vec::new()),
            ValueType::Float64 => ColumnValue::Float64(Vec::new()),
            ValueType::Varchar => ColumnValue::Varchar(Vec::new()),
            ValueType::Json => ColumnValue::Json(Vec::new()),
            ValueType::Blob => ColumnValue::Blob(Vec::new()),
            ValueType::Vector => ColumnValue::Vector(Vec::new()),
            ValueType::VectorInt8 => ColumnValue::VectorInt8(Vec::new()),
            ValueType::Timestamp => ColumnValue::Timestamp(Vec::new()),
        }
    }

    /// Appends a placeholder for a NULL row.
    fn push_default(&mut self)
        ensures
            cells(*final(self)) == cells(*old(self)) + 1,
            array_type(*final(self)) == array_type(*old(self)),
            forall|i: int|
                0 <= i < cells(*old(self)) ==> cell(*final(self), i) == #[trigger] cell(
                    *old(self),
                    i,
                ),
    {
        match self {
            ColumnValue::Boolean(a) => a.push(false),
            ColumnValue::Int32(a) => a.push(0),
            ColumnValue::Int64(a) => a.push(0),
            ColumnValue::Float32(a) => a.push(F32 { bits: 0 }),
            ColumnValue::Float64(a) => a.push(F64 { bits: 0 }),
            ColumnValue::Varchar(a) => a.push(String::new()),
            ColumnValue::Json(a) => a.push(String::new()),
            ColumnValue::Blob(a) => a.push(Vec::new()),
            ColumnValue::Vector(a) => a.push(Vec::new()),
            ColumnValue::VectorInt8(a) => a.push(Vec::new()),
            ColumnValue::Timestamp(a) => a.push(0),
        }
    }

    /// Appends a value of the array's own type.
    fn push_value(&mut self, v: &Value)
        requires
            type_of(v.deep_view()) == Some(array_type(*old(self))),
        ensures
            cells(*final(self)) == cells(*old(self)) + 1,
            array_type(*final(self)) == array_type(*old(self)),
            cell(*final(self), cells(*old(self)) as int) == v.deep_view(),
            forall|i: int|
                0 <= i < cells(*old(self)) ==> cell(*final(self), i) == #[trigger] cell(
                    *old(self),
                    i,
                ),
    {
        match (self, v) {
            (ColumnValue::Boolean(a), Value::Boolean(x)) => a.push(*x),
            (ColumnValue::Int32(a), Value::Int32(x)) => a.push(*x),
            (ColumnValue::Int64(a), Value::Int64(x)) => a.push(*x),
            (ColumnValue::Float32(a), Value::Float32(x)) => a.push(*x),
            (ColumnValue::Float64(a), Value::Float64(x)) => a.push(*x),
            (ColumnValue::Varchar(a), Value::Varchar(x)) => a.push(x.clone()),
            (ColumnValue::Json(a), Value::Json(x)) => a.push(x.clone()),
            (ColumnValue::Blob(a), Value::Blob(x)) => a.push(copy_bytes(x)),
            (ColumnValue::Vector(a), Value::Vector(x)) => a.push(copy_vector(x)),
            (ColumnValue::VectorInt8(a), Value::VectorInt8(x)) => a.push(copy_i8(x)),
            (ColumnValue::Timestamp(a), Value::Timestamp(x)) => a.push(*x),
            _ => {},
        }
    }

    /// The value at row `i`.
    fn get(&self, i: usize) -> (r: Value)
        requires
            i < cells(*self),
        ensures
            r.deep_view() == cell(*self, i as int),
    {
        match self {
            ColumnValue::Boolean(v) => Value::Boolean(v[i]),
            ColumnValue::Int32(v) => Value::Int32(v[i]),
            ColumnValue::Int64(v) => Value::Int64(v[i]),
            ColumnValue::Float32(v) => Value::Float32(v[i]),
            ColumnValue::Float64(v) => Value::Float64(v[i]),
            ColumnValue::Varchar(v) => Value::Varchar(v[i].clone()),
            ColumnValue::Json(v) => Value::Json(v[i].clone()),
            ColumnValue::Blob(v) => Value::Blob(copy_bytes(&v[i])),
            ColumnValue::Vector(v) => Value::Vector(copy_vector(&v[i])),
            ColumnValue::VectorInt8(v) => Value::VectorInt8(copy_i8(&v[i])),
            ColumnValue::Timestamp(v) => Value::Timestamp(v[i]),
        }
    }
}

/// A column: its values, and which rows are NULL. Without a bitmap no row is.
#[derive(Debug)]
pub struct ColumnData {
    pub values: ColumnValue,
    pub nulls: Option<BitVec>,
}

impl DeepView for ColumnData {
    type V = Seq<Datum>;

    open spec fn deep_view(&self) -> Seq<Datum> {
        Seq::new(
            cells(self.values),
            |i: int|
                if self.nulls is Some && self.nulls->0@[i] {
                    Datum::Null
                } else {
                    cell(self.values, i)
                },
        )
    }
}

/// The type that all non-NULL values of a list share, where there is one.
pub open spec fn common_type(vals: Seq<Datum>) -> Option<ValueType> {
    if (exists|i: int| 0 <= i < vals.len() && vals[i] != Datum::Null) && (forall|i: int, j: int|
        0 <= i < vals.len() && 0 <= j < vals.len() && vals[i] != Datum::Null && vals[j]
            != Datum::Null ==> type_of(vals[i]) == type_of(vals[j])) {
        type_of(vals[choose|i: int| 0 <= i < vals.len() && vals[i] != Datum::Null])
    } else {
        None
    }
}

impl ColumnData {
    /// Whether the bitmap, where there is one, has a bit for every row.
    pub open spec fn wf(&self) -> bool {
        self.nulls is Some ==> {
            &&& self.nulls->0.wf()
            &&& self.nulls->0@.len() == cells(self.values)
        }
    }

    /// The number of rows.
    pub fn len(&self) -> (n: usize)
        ensures
            n == self.deep_view().len(),
    {
        self.values.len()
    }

    /// Whether there is no row.
    pub fn is_empty(&self) -> (r: bool)
        ensures
            r == (self.deep_view().len() == 0),
    {
        self.len() == 0
    }

    /// Whether some row is NULL.
    pub fn has_nulls(&self) -> (r: bool)
        requires
            self.wf(),
        ensures
            r == exists|i: int|
                0 <= i < self.deep_view().len() && self.deep_view()[i] == Datum::Null,
    {
        proof {
            self.lemma_null_rows();
        }
        match &self.nulls {
            Some(n) => {
                proof {
                    lemma_ones(n@, n@.len() as int);
                    if ones(n@, n@.len() as int) > 0 {
                        let i = choose|i: int| 0 <= i < n@.len() && n@[i];
                        assert(self.deep_view()[i] == Datum::Null);
                    }
                }
                n.count_ones() > 0
            },
            None => false,
        }
    }

    /// A row is NULL exactly where the bitmap says so.
    proof fn lemma_null_rows(&self)
        ensures
            forall|i: int|
                0 <= i < self.deep_view().len() ==> (#[trigger] self.deep_view()[i] == Datum::Null
                    <==> self.nulls is Some && self.nulls->0@[i]),
    {
    }

    /// The value at row `i`.
    pub fn get(&self, i: usize) -> (r: Value)
        requires
            self.wf(),
            i < self.deep_view().len(),
        ensures
            r.deep_view() == self.deep_view()[i as int],
    {
        if let Some(nulls) = &self.nulls {
            if nulls.test(i) {
                return Value::Null;
            }
        }
        self.values.get(i)
    }

    /// All values in row order.
    pub fn to_values(&self) -> (r: Vec<Value>)
        requires
            self.wf(),
        ensures
            r.deep_view() == self.deep_view(),
    {
        let mut out: Vec<Value> = Vec::new();
        let n: usize = self.len();
        let mut i: usize = 0;
        while i < n
            invariant
                self.wf(),
                n == self.deep_view().len(),
                i <= n,
                out.deep_view() == self.deep_view().subrange(0, i as int),
            decreases n - i,
        {
            let ghost before = out.deep_view();
            out.push(self.get(i));
            assert(out.deep_view() =~= before.push(self.deep_view()[i as int]));
            assert(out.deep_view() =~= self.deep_view().subrange(0, i as int + 1));
            i += 1;
        }
        assert(out.deep_view() =~= self.deep_view());
        out
    }

    /// Builds a typed column. There is one exactly when some value is not
    /// NULL and all non-NULL values are of one type; it then reads back as
    /// the given values, and carries a bitmap only where a NULL occurs.
    pub fn try_from_values(values: &[Value]) -> (r: Option<ColumnData>)
        ensures
            r is Some <==> common_type(values.deep_view()) is Some,
            r is Some ==> {
                &&& r->0.wf()
                &&& r->0.deep_view() == values.deep_view()
                &&& Some(array_type(r->0.values)) == common_type(values.deep_view())
                &&& r->0.nulls is Some <==> exists|i: int|
                    0 <= i < values.len() && values.deep_view()[i] == Datum::Null
            },
    {
        let ghost all = values.deep_view();
        let mut probe: Option<ValueType> = None;
        let mut has_null = false;
        let ghost mut first: int = 0;
        let mut i: usize = 0;
        while i < values.len()
            invariant
                i <= values.len(),
                all == values.deep_view(),
                has_null <==> exists|k: int| 0 <= k < i && all[k] == Datum::Null,
                probe is None ==> forall|k: int| 0 <= k < i ==> #[trigger] all[k] == Datum::Null,
                probe is Some ==> {
                    &&& 0 <= first < i
                    &&& all[first] != Datum::Null
                    &&& probe == type_of(all[first])
                    &&& forall|k: int|
                        0 <= k < i && #[trigger] all[k] != Datum::Null ==> type_of(all[k]) == probe
                },
            decreases values.len() - i,
        {
            let v = &values[i];
            assert(v.deep_view() == all[i as int]);
            if v.is_null() {
                has_null = true;
                i += 1;
                continue;
            }
            let t = value_type(v);
            match probe {
                None => {
                    proof {
                        first = i as int;
                    }
                    probe = t;
                },
                Some(p) => {
                    if Some(p) != t {
                        assert(type_of(all[first]) != type_of(all[i as int]));
                        return None;
                    }
                },
            }
            i += 1;
        }
        let t: ValueType = match probe {
            Some(t) => t,
            None => {
                return None;
            },
        };
        assert(common_type(all) == Some(t)) by {
            assert(0 <= first < all.len() && all[first] != Datum::Null);
            let c = choose|i: int| 0 <= i < all.len() && all[i] != Datum::Null;
            assert(type_of(all[c]) == type_of(all[first]));
        }
        let mut bits = BitVec::new(values.len());
        let mut array = ColumnValue::empty(t);
        i = 0;
        while i < values.len()
            invariant
                i <= values.len(),
                all == values.deep_view(),
                bits.wf(),
                bits@.len() == values.len(),
                cells(array) == i,
                array_type(array) == t,
                has_null <==> exists|k: int| 0 <= k < all.len() && all[k] == Datum::Null,
                forall|k: int|
                    0 <= k < all.len() && #[trigger] all[k] != Datum::Null ==> type_of(all[k])
                        == Some(t),
                forall|k: int| 0 <= k < i ==> (#[trigger] bits@[k] <==> all[k] == Datum::Null),
                forall|k: int|
                    0 <= k < i && all[k] != Datum::Null ==> #[trigger] cell(array, k) == all[k],
            decreases values.len() - i,
        {
            let v = &values[i];
            assert(v.deep_view() == all[i as int]);
            let ghost before = array;
            if v.is_null() {
                bits.set(i, true);
                array.push_default();
            } else {
                bits.set(i, false);
                array.push_value(v);
            }
            assert forall|k: int| 0 <= k < i + 1 && all[k] != Datum::Null implies #[trigger] cell(
                array,
                k,
            ) == all[k] by {
                if k < i {
                    assert(cell(before, k) == all[k]);
                }
            }
            i += 1;
        }
        let nulls: Option<BitVec> = if has_null {
            Some(bits)
        } else {
            None
        };
        let r = ColumnData { values: array, nulls };
        assert(r.deep_view() =~= all);
        Some(r)
    }

    /// The rows at the given positions, in that order.
    pub fn gather(&self, indices: &Vec<usize>) -> (r: ColumnData)
        requires
            self.wf(),
            forall|i: int| 0 <= i < indices.len() ==> indices[i] < self.deep_view().len(),
        ensures
            r.wf(),
            r.deep_view() == Seq::new(
                indices@.len(),
                |i: int| self.deep_view()[indices[i] as int],
            ),
    {
        let t = self.values.kind();
        let mut bits = BitVec::new(indices.len());
        let mut array = ColumnValue::empty(t);
        let ghost all = self.deep_view();
        let mut i: usize = 0;
        while i < indices.len()
            invariant
                self.wf(),
                all == self.deep_view(),
                i <= indices.len(),
                forall|i: int| 0 <= i < indices.len() ==> indices[i] < all.len(),
                bits.wf(),
                bits@.len() == indices.len(),
                cells(array) == i,
                array_type(array) == t,
                t == array_type(self.values),
                forall|k: int|
                    0 <= k < i ==> (#[trigger] bits@[k] <==> all[indices[k] as int]
                        == Datum::Null),
                forall|k: int|
                    0 <= k < i && all[indices[k] as int] != Datum::Null ==> #[trigger] cell(
                        array,
                        k,
                    ) == all[indices[k] as int],
            decreases indices.len() - i,
        {
            let j: usize = indices[i];
            let v = self.get(j);
            let ghost before = array;
            if v.is_null() {
                bits.set(i, true);
                array.push_default();
            } else {
                assert(v.deep_view() == cell(self.values, j as int));
                bits.set(i, false);
                array.push_value(&v);
            }
            assert forall|k: int| 0 <= k < i + 1 && all[indices[k] as int]
                != Datum::Null implies #[trigger] cell(array, k) == all[indices[k] as int] by {
                if k < i {
                    assert(cell(before, k) == all[indices[k] as int]);
                }
            }
            i += 1;
        }
        let r = ColumnData { values: array, nulls: Some(bits) };
        assert(r.deep_view() =~= Seq::new(indices@.len(), |i: int| all[indices[i] as int]));
        r
    }

    /// The first `n` rows.
    pub fn take_front(&self, n: usize) -> (r: ColumnData)
        requires
            self.wf(),
            n <= self.deep_view().len(),
        ensures
            r.wf(),
            r.deep_view() == self.deep_view().subrange(0, n as int),
    {
        let mut indices: Vec<usize> = Vec::new();
        let mut i: usize = 0;
        while i < n
            invariant
                i <= n,
                indices.len() == i,
                forall|k: int| 0 <= k < i ==> indices[k] == k,
            decreases n - i,
        {
            indices.push(i);
            i += 1;
        }
        let r = self.gather(&indices);
        assert(r.deep_view() =~= self.deep_view().subrange(0, n as int));
        r
    }
}

impl Clone for ColumnData {
    fn clone(&self) -> (r: Self)
        ensures
            r.deep_view() == self.deep_view(),
            self.wf() ==> r.wf(),
    {
        let nulls: Option<BitVec> = match &self.nulls {
            Some(n) => Some(n.clone()),
            None => None,
        };
        let values = self.values.clone();
        let r = ColumnData { values, nulls };
        assert(r.deep_view() =~= self.deep_view());
        r
    }
}

impl Clone for ColumnValue {
    fn clone(&self) -> (r: Self)
        ensures
            cells(r) == cells(*self),
            array_type(r) == array_type(*self),
            forall|i: int| 0 <= i < cells(r) ==> #[trigger] cell(r, i) == cell(*self, i),
    {
        let t = self.kind();
        let mut out = ColumnValue::empty(t);
        let n: usize = self.len();
        let mut i: usize = 0;
        while i < n
            invariant
                n == cells(*self),
                i <= n,
                cells(out) == i,
                array_type(out) == array_type(*self),
                forall|k: int| 0 <= k < i ==> #[trigger] cell(out, k) == cell(*self, k),
            decreases n - i,
        {
            let v = self.get(i);
            let ghost before = out;
            out.push_value(&v);
            assert forall|k: int| 0 <= k < i + 1 implies #[trigger] cell(out, k) == cell(
                *self,
                k,
            ) by {
                if k < i {
                    assert(cell(before, k) == cell(*self, k));
                }
            }
            i += 1;
        }
        out
    }
}

impl ColumnValue {
    fn kind(&self) -> (r: ValueType)
        ensures
            r == array_type(*self),
    {
        match self {
            ColumnValue::Boolean(_) => ValueType::Boolean,
            ColumnValue::Int32(_) => ValueType::Int32,
            ColumnValue::Int64(_) => ValueType::Int64,
            ColumnValue::Float32(_) => ValueType::Float32,
            ColumnValue::Float64(_) => ValueType::Float64,
            ColumnValue::Varchar(_) => ValueType::Varchar,
            ColumnValue::Json(_) => ValueType::Json,
            ColumnValue::Blob(_) => ValueType::Blob,
            ColumnValue::Vector(_) => ValueType::Vector,
            ColumnValue::VectorInt8(_) => ValueType::VectorInt8,
            ColumnValue::Timestamp(_) => ValueType::Timestamp,
        }
    }
}

} // verus!
