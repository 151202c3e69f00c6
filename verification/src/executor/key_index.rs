//! An index from rows of values to their positions.
use vstd::prelude::*;

use crate::table::{table_get, table_insert, table_remove};
use crate::text::to_chars;
use crate::value::{same_row, Datum};
use crate::Value;

verus! {

/// One step of a digest.
pub open spec fn mixed_in(h: u64, x: u64) -> u64 {
    h.wrapping_mul(0x100_0000_01b3).wrapping_add(x)
}

fn mix(h: u64, x: u64) -> (r: u64)
    ensures
        r == mixed_in(h, x),
{
    h.wrapping_mul(0x100_0000_01b3).wrapping_add(x)
}

/// The digest of the first `n` numbers.
pub open spec fn digest_of(s: Seq<u64>, start: u64, n: int) -> u64
    decreases n,
{
    if n <= 0 {
        start
    } else {
        mixed_in(digest_of(s, start, n - 1), s[n - 1])
    }
}

/// The numbers by which a value enters a digest.
pub open spec fn numbers_of(d: Datum) -> Seq<u64> {
    match d {
        Datum::Null => Seq::empty(),
        Datum::Boolean(b) => seq![if b { 1u64 } else { 0u64 }],
        Datum::Int32(x) => seq![x as u64],
        Datum::Int64(x) => seq![x as u64],
        Datum::Float32(b) => seq![b as u64],
        Datum::Float64(b) => seq![b],
        Datum::Varchar(s) => Seq::new(s.len(), |i: int| s[i] as u64),
        Datum::Json(s) => Seq::new(s.len(), |i: int| s[i] as u64),
        Datum::Vector(v) => Seq::new(v.len(), |i: int| v[i] as u64),
        Datum::VectorInt8(v) => Seq::new(v.len(), |i: int| v[i] as u64),
        Datum::Blob(v) => Seq::new(v.len(), |i: int| v[i] as u64),
        Datum::Timestamp(x) => seq![x as u64],
    }
}

/// The digest of a value.
pub open spec fn value_digest(d: Datum) -> u64 {
    let s = numbers_of(d);
    digest_of(s, 0, s.len() as int)
}

/// The digest of a row.
pub open spec fn row_digest(row: Seq<Datum>) -> i64 {
    digest_of(Seq::new(row.len(), |i: int| value_digest(row[i])), 1, row.len() as int) as i64
}

fn read_text(s: &str) -> (r: Vec<u64>)
    ensures
        r@ == Seq::new(s@.len(), |i: int| s@[i] as u64),
{
    let cs = to_chars(s);
    let mut out: Vec<u64> = Vec::new();
    let mut i: usize = 0;
    while i < cs.len()
        invariant
            i <= cs.len(),
            out.len() == i,
            forall|k: int| 0 <= k < i ==> out[k] == cs[k] as u64,
        decreases cs.len() - i,
    {
        out.push(cs[i] as u64);
        i += 1;
    }
    assert(out@ =~= Seq::new(s@.len(), |i: int| s@[i] as u64));
    out
}

fn read_numbers(v: &Value) -> (r: Vec<u64>)
    ensures
        r@ == numbers_of(v.deep_view()),
{
    let mut out: Vec<u64> = Vec::new();
    match v {
        Value::Null => {},
        Value::Boolean(b) => out.push(
            if *b {
                1u64
            } else {
                0u64
            },
        ),
        Value::Int32(x) => out.push(*x as u64),
        Value::Int64(x) => out.push(*x as u64),
        Value::Float32(x) => out.push(x.bits as u64),
        Value::Float64(x) => out.push(x.bits),
        Value::Varchar(s) => {
            out = read_text(s.as_str());
        },
        Value::Json(s) => {
            out = read_text(s.as_str());
        },
        Value::Vector(x) => {
            let mut i: usize = 0;
            while i < x.len()
                invariant
                    i <= x.len(),
                    out.len() == i,
                    forall|k: int| 0 <= k < i ==> out[k] == x[k].bits as u64,
                decreases x.len() - i,
            {
                out.push(x[i].bits as u64);
                i += 1;
            }
        },
        Value::VectorInt8(x) => {
            let mut i: usize = 0;
            while i < x.len()
                invariant
                    i <= x.len(),
                    out.len() == i,
                    forall|k: int| 0 <= k < i ==> out[k] == x[k] as u64,
                decreases x.len() - i,
            {
                out.push(x[i] as u64);
                i += 1;
            }
        },
        Value::Blob(x) => {
            let mut i: usize = 0;
            while i < x.len()
                invariant
                    i <= x.len(),
                    out.len() == i,
                    forall|k: int| 0 <= k < i ==> out[k] == x[k] as u64,
                decreases x.len() - i,
            {
                out.push(x[i] as u64);
                i += 1;
            }
        },
        Value::Timestamp(x) => out.push(*x as u64),
    }
    assert(out@ =~= numbers_of(v.deep_view()));
    out
}

fn digest_numbers(s: &Vec<u64>, start: u64) -> (r: u64)
    ensures
        r == digest_of(s@, start, s.len() as int),
{
    let mut h: u64 = start;
    let mut i: usize = 0;
    while i < s.len()
        invariant
            i <= s.len(),
            h == digest_of(s@, start, i as int),
        decreases s.len() - i,
    {
        h = mix(h, s[i]);
        i += 1;
    }
    h
}

fn digest_row(row: &Vec<Value>) -> (r: i64)
    ensures
        r == row_digest(row.deep_view()),
{
    let mut parts: Vec<u64> = Vec::new();
    let mut i: usize = 0;
    while i < row.len()
        invariant
            i <= row.len(),
            parts.len() == i,
            forall|k: int| 0 <= k < i ==> parts[k] == value_digest(row[k].deep_view()),
        decreases row.len() - i,
    {
        let s = read_numbers(&row[i]);
        parts.push(digest_numbers(&s, 0));
        i += 1;
    }
    assert(parts@ =~= Seq::new(
        row.deep_view().len(),
        |i: int| value_digest(row.deep_view()[i]),
    ));
    digest_numbers(&parts, 1) as i64
}

/// The positions below `n` of the rows equal to `key`, in order.
pub open spec fn equal_positions(rows: Seq<Seq<Datum>>, key: Seq<Datum>, n: int) -> Seq<usize>
    decreases n,
{
    if n <= 0 {
        Seq::empty()
    } else if rows[n - 1] == key {
        equal_positions(rows, key, n - 1).push((n - 1) as usize)
    } else {
        equal_positions(rows, key, n - 1)
    }
}

/// The first position from `i` on of a row equal to `key`.
pub open spec fn row_position(rows: Seq<Seq<Datum>>, key: Seq<Datum>, i: int) -> Option<int>
    decreases rows.len() - i,
{
    if i < 0 || i >= rows.len() {
        None
    } else if rows[i] == key {
        Some(i)
    } else {
        row_position(rows, key, i + 1)
    }
}

/// The positions below `n` of the rows with a digest, in order.
spec fn digest_positions(rows: Seq<Seq<Datum>>, d: i64, n: int) -> Seq<usize>
    decreases n,
{
    if n <= 0 {
        Seq::empty()
    } else if row_digest(rows[n - 1]) == d {
        digest_positions(rows, d, n - 1).push((n - 1) as usize)
    } else {
        digest_positions(rows, d, n - 1)
    }
}

/// The rows of `picked` that are equal to `key`, in order.
spec fn sift(rows: Seq<Seq<Datum>>, key: Seq<Datum>, picked: Seq<usize>) -> Seq<usize>
    decreases picked.len(),
{
    if picked.len() == 0 {
        Seq::empty()
    } else {
        let front = sift(rows, key, picked.drop_last());
        if rows[picked.last() as int] == key {
            front.push(picked.last())
        } else {
            front
        }
    }
}

/// Sifting the rows of a key's digest finds all rows equal to the key.
proof fn lemma_sift(rows: Seq<Seq<Datum>>, key: Seq<Datum>, n: int)
    requires
        0 <= n <= rows.len() <= usize::MAX,
    ensures
        sift(rows, key, digest_positions(rows, row_digest(key), n)) == equal_positions(
            rows,
            key,
            n,
        ),
    decreases n,
{
    if n > 0 {
        lemma_sift(rows, key, n - 1);
        let d = row_digest(key);
        let before = digest_positions(rows, d, n - 1);
        if row_digest(rows[n - 1]) == d {
            let after = digest_positions(rows, d, n);
            assert(after.drop_last() =~= before);
        }
    }
}

/// More rows do not change the positions of the first ones.
proof fn lemma_digest_prefix(rows: Seq<Seq<Datum>>, more: Seq<Seq<Datum>>, d: i64, n: int)
    requires
        0 <= n <= rows.len() <= more.len(),
        forall|i: int| 0 <= i < n ==> rows[i] == more[i],
    ensures
        digest_positions(rows, d, n) == digest_positions(more, d, n),
    decreases n,
{
    if n > 0 {
        lemma_digest_prefix(rows, more, d, n - 1);
    }
}

proof fn lemma_digest_bound(rows: Seq<Seq<Datum>>, d: i64, n: int)
    requires
        0 <= n <= rows.len() <= usize::MAX,
    ensures
        forall|k: int|
            0 <= k < digest_positions(rows, d, n).len() ==> (#[trigger] digest_positions(
                rows,
                d,
                n,
            )[k]) < n,
    decreases n,
{
    if n > 0 {
        lemma_digest_bound(rows, d, n - 1);
        let before = digest_positions(rows, d, n - 1);
        let after = digest_positions(rows, d, n);
        assert forall|k: int| 0 <= k < after.len() implies (#[trigger] after[k]) < n by {
            if k < before.len() {
                assert(after[k] == before[k]);
            }
        }
    }
}

/// The first of the equal positions is the row's position.
pub proof fn lemma_first_position(rows: Seq<Seq<Datum>>, key: Seq<Datum>, n: int)
    requires
        0 <= n <= rows.len() <= usize::MAX,
    ensures
        equal_positions(rows, key, n).len() > 0 ==> {
            let p = equal_positions(rows, key, n)[0] as int;
            0 <= p < n && rows[p] == key && forall|j: int| 0 <= j < p ==> rows[j] != key
        },
        equal_positions(rows, key, n).len() == 0 ==> forall|j: int| 0 <= j < n ==> rows[j] != key,
    decreases n,
{
    if n > 0 {
        lemma_first_position(rows, key, n - 1);
    }
}

/// The first row equal to `key` is at its position.
pub proof fn lemma_position_is(rows: Seq<Seq<Datum>>, key: Seq<Datum>, i: int, p: int)
    requires
        0 <= i <= p < rows.len(),
        rows[p] == key,
        forall|j: int| i <= j < p ==> rows[j] != key,
    ensures
        row_position(rows, key, i) == Some(p),
    decreases p - i,
{
    if i < p {
        lemma_position_is(rows, key, i + 1, p);
    }
}

/// A row that is not there has no position.
pub proof fn lemma_no_position(rows: Seq<Seq<Datum>>, key: Seq<Datum>, i: int)
    requires
        0 <= i,
        forall|j: int| i <= j < rows.len() ==> rows[j] != key,
    ensures
        row_position(rows, key, i) is None,
    decreases rows.len() - i,
{
    if i < rows.len() {
        lemma_no_position(rows, key, i + 1);
    }
}

/// Rows in the order in which they were added, found by their values.
pub struct KeyIndex {
    table: fxhash::FxHashMap<i64, Vec<usize>>,
    rows: Vec<Vec<Value>>,
}

impl View for KeyIndex {
    type V = Seq<Seq<Datum>>;

    closed spec fn view(&self) -> Seq<Seq<Datum>> {
        self.rows.deep_view()
    }
}

impl KeyIndex {
    /// Whether the table holds, for every digest, the positions of its rows.
    pub closed spec fn wf(&self) -> bool {
        forall|d: i64|
            #![trigger self.table@.contains_key(d)]
            if self.table@.contains_key(d) {
                self.table@[d]@ == digest_positions(self@, d, self.rows.len() as int)
            } else {
                digest_positions(self@, d, self.rows.len() as int).len() == 0
            }
    }

    /// An index without rows.
    pub fn new() -> (r: Self)
        ensures
            r.wf(),
            r@ == Seq::<Seq<Datum>>::empty(),
    {
        let r = KeyIndex { table: fxhash::FxHashMap::default(), rows: Vec::new() };
        assert(r@ =~= Seq::<Seq<Datum>>::empty());
        r
    }

    /// The number of rows.
    pub fn len(&self) -> (n: usize)
        ensures
            n == self@.len(),
    {
        self.rows.len()
    }

    /// The row at a position.
    pub fn row(&self, i: usize) -> (r: &Vec<Value>)
        requires
            i < self@.len(),
        ensures
            r.deep_view() == self@[i as int],
    {
        &self.rows[i]
    }

    /// Adds a row at the end.
    pub fn push(&mut self, key: Vec<Value>)
        requires
            old(self).wf(),
        ensures
            final(self).wf(),
            final(self)@ == old(self)@.push(key.deep_view()),
    {
        let ghost before = self@;
        let ghost k = key.deep_view();
        let d: i64 = digest_row(&key);
        let n: usize = self.rows.len();
        let ghost table = self.table@;
        let mut bucket: Vec<usize> = match table_remove(&mut self.table, &d) {
            Some(v) => v,
            None => Vec::new(),
        };
        assert(bucket@ =~= digest_positions(before, d, n as int)) by {
            assert(table.contains_key(d) || !table.contains_key(d));
        }
        bucket.push(n);
        table_insert(&mut self.table, d, bucket);
        self.rows.push(key);
        proof {
            let after = self@;
            assert(after =~= before.push(k));
            assert forall|e: i64| #![trigger self.table@.contains_key(e)] if self.table@.contains_key(
                e,
            ) {
                self.table@[e]@ == digest_positions(after, e, self.rows.len() as int)
            } else {
                digest_positions(after, e, self.rows.len() as int).len() == 0
            } by {
                lemma_digest_prefix(before, after, e, n as int);
                assert(after[n as int] == k);
                if e == d {
                    assert(self.table@[e] == bucket);
                } else {
                    assert(table.contains_key(e) == self.table@.contains_key(e));
                }
            }
        }
    }

    /// The positions of all rows equal to `key`, in order.
    pub fn find_all(&self, key: &Vec<Value>) -> (r: Vec<usize>)
        requires
            self.wf(),
        ensures
            r@ == equal_positions(self@, key.deep_view(), self@.len() as int),
    {
        let ghost rows = self@;
        let ghost k = key.deep_view();
        let d: i64 = digest_row(key);
        let mut out: Vec<usize> = Vec::new();
        let n: usize = self.rows.len();
        proof {
            assert(n == rows.len());
            lemma_sift(rows, k, rows.len() as int);
            lemma_digest_bound(rows, d, rows.len() as int);
        }
        match table_get(&self.table, &d) {
            None => {
                assert(digest_positions(rows, d, rows.len() as int) =~= Seq::<usize>::empty());
            },
            Some(bucket) => {
                let ghost picked = bucket@;
                assert(picked == digest_positions(rows, d, rows.len() as int));
                let mut i: usize = 0;
                assert(picked.subrange(0, 0) =~= Seq::<usize>::empty());
                while i < bucket.len()
                    invariant
                        rows == self@,
                        k == key.deep_view(),
                        picked == bucket@,
                        forall|j: int| 0 <= j < picked.len() ==> (#[trigger] picked[j]) < rows.len(),
                        i <= bucket.len(),
                        out@ == sift(rows, k, picked.subrange(0, i as int)),
                    decreases bucket.len() - i,
                {
                    let p: usize = bucket[i];
                    assert(picked[i as int] < rows.len());
                    let ghost next = picked.subrange(0, i + 1);
                    assert(next.drop_last() =~= picked.subrange(0, i as int));
                    assert(rows[p as int] == self.rows[p as int].deep_view());
                    if same_row(&self.rows[p], key) {
                        out.push(p);
                    }
                    i += 1;
                }
                assert(picked.subrange(0, i as int) =~= picked);
            },
        }
        out
    }

    /// The first position of a row equal to `key`.
    pub fn find(&self, key: &Vec<Value>) -> (r: Option<usize>)
        requires
            self.wf(),
        ensures
            match r {
                Some(i) => i < self@.len() && row_position(self@, key.deep_view(), 0) == Some(
                    i as int,
                ),
                None => row_position(self@, key.deep_view(), 0) is None,
            },
    {
        let all = self.find_all(key);
        let n: usize = self.rows.len();
        proof {
            let (rows, k) = (self@, key.deep_view());
            assert(n == rows.len());
            lemma_first_position(rows, k, rows.len() as int);
            if all.len() > 0 {
                lemma_position_is(rows, k, 0, all[0] as int);
            } else {
                lemma_no_position(rows, k, 0);
            }
        }
        if all.len() > 0 {
            Some(all[0])
        } else {
            None
        }
    }
}

/// A row added at the end is found there, if it was not there before; other
/// rows are found as before.
pub proof fn lemma_position_push(
    rows: Seq<Seq<Datum>>,
    row: Seq<Datum>,
    key: Seq<Datum>,
    i: int,
)
    requires
        0 <= i <= rows.len(),
    ensures
        row_position(rows.push(row), key, i) == match row_position(rows, key, i) {
            Some(p) => Some(p),
            None => if key == row {
                Some(rows.len() as int)
            } else {
                None
            },
        },
    decreases rows.len() - i,
{
    let more = rows.push(row);
    if i < rows.len() {
        assert(more[i] == rows[i]);
        lemma_position_push(rows, row, key, i + 1);
    } else {
        assert(row_position(more, key, i + 1) is None);
    }
}

/// An index of distinct rows.
pub trait RowIndex: Sized {
    /// The rows, in the order in which they were added.
    spec fn rows(&self) -> Seq<Seq<Datum>>;

    /// Whether the index is intact.
    spec fn intact(&self) -> bool;

    /// Whether the index can hold a row.
    spec fn takes(&self, key: Seq<Datum>) -> bool;

    /// The position of a row.
    fn locate(&self, key: &Vec<Value>) -> (r: Option<usize>)
        requires
            self.intact(),
            self.takes(key.deep_view()),
        ensures
            match r {
                Some(i) => i < self.rows().len() && row_position(self.rows(), key.deep_view(), 0)
                    == Some(i as int),
                None => row_position(self.rows(), key.deep_view(), 0) is None,
            },
    ;

    /// Adds a row that is not there.
    fn add_row(&mut self, key: Vec<Value>)
        requires
            old(self).intact(),
            old(self).takes(key.deep_view()),
            row_position(old(self).rows(), key.deep_view(), 0) is None,
        ensures
            final(self).intact(),
            final(self).rows() == old(self).rows().push(key.deep_view()),
            forall|k: Seq<Datum>| #[trigger] final(self).takes(k) == old(self).takes(k),
    ;

    /// The number of rows.
    fn count(&self) -> (n: usize)
        ensures
            n == self.rows().len(),
    ;

    /// The row at a position.
    fn at(&self, i: usize) -> (r: &Vec<Value>)
        requires
            i < self.rows().len(),
        ensures
            r.deep_view() == self.rows()[i as int],
    ;
}

impl RowIndex for KeyIndex {
    open spec fn rows(&self) -> Seq<Seq<Datum>> {
        self@
    }

    open spec fn intact(&self) -> bool {
        self.wf()
    }

    open spec fn takes(&self, key: Seq<Datum>) -> bool {
        true
    }

    fn locate(&self, key: &Vec<Value>) -> (r: Option<usize>) {
        self.find(key)
    }

    fn add_row(&mut self, key: Vec<Value>) {
        self.push(key);
    }

    fn count(&self) -> (n: usize) {
        self.len()
    }

    fn at(&self, i: usize) -> (r: &Vec<Value>) {
        self.row(i)
    }
}

/// The types of values that a 64-bit integer stands for.
#[derive(Debug, Clone, Copy, PartialEq, Eq, Structural)]
pub enum GroupKeyType {
    Int32,
    Int64,
    Boolean,
    Timestamp,
}

/// The type of a value that an integer stands for.
pub open spec fn key_type(d: Datum) -> Option<GroupKeyType> {
    match d {
        Datum::Int32(_) => Some(GroupKeyType::Int32),
        Datum::Int64(_) => Some(GroupKeyType::Int64),
        Datum::Boolean(_) => Some(GroupKeyType::Boolean),
        Datum::Timestamp(_) => Some(GroupKeyType::Timestamp),
        _ => None,
    }
}

/// The integer that stands for a value of a type.
pub open spec fn key_int(d: Datum, t: GroupKeyType) -> Option<i64> {
    match (t, d) {
        (GroupKeyType::Int32, Datum::Int32(x)) => Some(x as i64),
        (GroupKeyType::Int64, Datum::Int64(x)) => Some(x),
        (GroupKeyType::Boolean, Datum::Boolean(b)) => Some(
            if b {
                1i64
            } else {
                0i64
            },
        ),
        (GroupKeyType::Timestamp, Datum::Timestamp(x)) => Some(x),
        _ => None,
    }
}

/// The type of a value that an integer stands for.
pub fn detect_key_type(v: &Value) -> (r: Option<GroupKeyType>)
    ensures
        r == key_type(v.deep_view()),
{
    match v {
        Value::Int32(_) => Some(GroupKeyType::Int32),
        Value::Int64(_) => Some(GroupKeyType::Int64),
        Value::Boolean(_) => Some(GroupKeyType::Boolean),
        Value::Timestamp(_) => Some(GroupKeyType::Timestamp),
        _ => None,
    }
}

/// The integer that stands for a value of a type.
pub fn key_to_i64(v: &Value, t: GroupKeyType) -> (r: Option<i64>)
    ensures
        r == key_int(v.deep_view(), t),
{
    match (t, v) {
        (GroupKeyType::Int32, Value::Int32(x)) => Some(*x as i64),
        (GroupKeyType::Int64, Value::Int64(x)) => Some(*x),
        (GroupKeyType::Boolean, Value::Boolean(b)) => Some(
            if *b {
                1i64
            } else {
                0i64
            },
        ),
        (GroupKeyType::Timestamp, Value::Timestamp(x)) => Some(*x),
        _ => None,
    }
}

/// Rows of one value of a type that integers stand for, or of NULL, found by
/// the integer.
pub struct IntIndex {
    kind: GroupKeyType,
    table: fxhash::FxHashMap<i64, usize>,
    null_at: Option<usize>,
    rows: Vec<Vec<Value>>,
}

impl IntIndex {
    /// The type of the values.
    pub closed spec fn kind(&self) -> GroupKeyType {
        self.kind
    }

    closed spec fn wf(&self) -> bool {
        let rows = self.rows.deep_view();
        &&& forall|d: Datum|
            #![trigger key_int(d, self.kind)]
            key_int(d, self.kind) matches Some(k) ==> row_position(rows, seq![d], 0) == (
            if self.table@.contains_key(k) {
                Some(self.table@[k] as int)
            } else {
                None
            })
        &&& row_position(rows, seq![Datum::Null], 0) == match self.null_at {
            Some(p) => Some(p as int),
            None => None,
        }
    }

    /// An index of values of a type.
    pub fn new(kind: GroupKeyType) -> (r: Self)
        ensures
            r.intact(),
            r.rows() == Seq::<Seq<Datum>>::empty(),
            r.kind() == kind,
    {
        let r = IntIndex {
            kind,
            table: fxhash::FxHashMap::default(),
            null_at: None,
            rows: Vec::new(),
        };
        assert(r.rows.deep_view() =~= Seq::<Seq<Datum>>::empty());
        r
    }
}

proof fn lemma_position_range(rows: Seq<Seq<Datum>>, key: Seq<Datum>, i: int)
    ensures
        row_position(rows, key, i) matches Some(p) ==> i <= p < rows.len(),
    decreases rows.len() - i,
{
    if 0 <= i < rows.len() {
        lemma_position_range(rows, key, i + 1);
    }
}

impl RowIndex for IntIndex {
    closed spec fn rows(&self) -> Seq<Seq<Datum>> {
        self.rows.deep_view()
    }

    closed spec fn intact(&self) -> bool {
        self.wf()
    }

    open spec fn takes(&self, key: Seq<Datum>) -> bool {
        key.len() == 1 && (key[0] == Datum::Null || key_int(key[0], self.kind()) is Some)
    }

    fn locate(&self, key: &Vec<Value>) -> (r: Option<usize>) {
        let ghost k = key.deep_view();
        assert(k =~= seq![k[0]] && k[0] == key[0].deep_view());
        proof {
            lemma_position_range(self.rows.deep_view(), k, 0);
        }
        match key_to_i64(&key[0], self.kind) {
            Some(i) => match table_get(&self.table, &i) {
                Some(p) => Some(*p),
                None => None,
            },
            None => self.null_at,
        }
    }

    fn add_row(&mut self, key: Vec<Value>) {
        let ghost before = self.rows.deep_view();
        let ghost k = key.deep_view();
        let ghost old_table = self.table@;
        assert(k =~= seq![k[0]] && k[0] == key[0].deep_view());
        let n: usize = self.rows.len();
        let code = key_to_i64(&key[0], self.kind);
        self.rows.push(key);
        assert(self.rows.deep_view() =~= before.push(k));
        match code {
            Some(i) => {
                table_insert(&mut self.table, i, n);
            },
            None => {
                self.null_at = Some(n);
            },
        }
        proof {
            assert forall|d: Datum|
                #![trigger key_int(d, self.kind)]
                key_int(d, self.kind) is Some implies row_position(
                self.rows.deep_view(),
                seq![d],
                0,
            ) == (if self.table@.contains_key(key_int(d, self.kind)->0) {
                Some(self.table@[key_int(d, self.kind)->0] as int)
            } else {
                None
            }) by {
                lemma_position_push(before, k, seq![d], 0);
                assert(seq![d] == k <==> d == k[0]) by {
                    assert(seq![d][0] == d);
                }
                if d != k[0] && code is Some {
                    assert(key_int(d, self.kind) != code);
                }
            }
            lemma_position_push(before, k, seq![Datum::Null], 0);
            assert(seq![Datum::Null] == k <==> k[0] == Datum::Null) by {
                assert(seq![Datum::Null][0] == Datum::Null);
            }
        }
    }

    fn count(&self) -> (n: usize) {
        self.rows.len()
    }

    fn at(&self, i: usize) -> (r: &Vec<Value>) {
        &self.rows[i]
    }
}

/// The positions of rows of one value, found by the integer that stands for
/// the value. NULLs are not found.
pub struct IntPositions {
    kind: GroupKeyType,
    table: fxhash::FxHashMap<i64, Vec<usize>>,
    rows: Ghost<Seq<Seq<Datum>>>,
}

impl View for IntPositions {
    type V = Seq<Seq<Datum>>;

    closed spec fn view(&self) -> Seq<Seq<Datum>> {
        self.rows@
    }
}

impl IntPositions {
    /// The type of the values.
    pub closed spec fn kind(&self) -> GroupKeyType {
        self.kind
    }

    /// Whether the table holds, for every value, the positions of its rows.
    pub closed spec fn wf(&self) -> bool {
        forall|d: Datum|
            #![trigger key_int(d, self.kind)]
            key_int(d, self.kind) matches Some(k) ==> equal_positions(
                self@,
                seq![d],
                self@.len() as int,
            ) == (if self.table@.contains_key(k) {
                self.table@[k]@
            } else {
                Seq::empty()
            })
    }

    /// No rows.
    pub fn new(kind: GroupKeyType) -> (r: Self)
        ensures
            r.wf(),
            r.kind() == kind,
            r@ == Seq::<Seq<Datum>>::empty(),
    {
        IntPositions { kind, table: fxhash::FxHashMap::default(), rows: Ghost(Seq::empty()) }
    }

    /// Adds the value of the next row.
    pub fn push(&mut self, v: &Value, position: usize)
        requires
            old(self).wf(),
            position == old(self)@.len(),
            v.deep_view() == Datum::Null || key_int(v.deep_view(), old(self).kind()) is Some,
        ensures
            final(self).wf(),
            final(self).kind() == old(self).kind(),
            final(self)@ == old(self)@.push(seq![v.deep_view()]),
    {
        let ghost before = self@;
        let ghost row = seq![v.deep_view()];
        let ghost table = self.table@;
        let code = key_to_i64(v, self.kind);
        if let Some(k) = code {
            let mut bucket: Vec<usize> = match table_remove(&mut self.table, &k) {
                Some(b) => b,
                None => Vec::new(),
            };
            bucket.push(position);
            table_insert(&mut self.table, k, bucket);
        }
        proof {
            self.rows@ = before.push(row);
            let after = self@;
            assert forall|d: Datum|
                #![trigger key_int(d, self.kind)]
                key_int(d, self.kind) is Some implies equal_positions(
                after,
                seq![d],
                after.len() as int,
            ) == (if self.table@.contains_key(key_int(d, self.kind)->0) {
                self.table@[key_int(d, self.kind)->0]@
            } else {
                Seq::empty()
            }) by {
                lemma_equal_prefix(before, after, seq![d], before.len() as int);
                assert(after[before.len() as int] == row);
                assert(seq![d] == row <==> d == v.deep_view()) by {
                    assert(seq![d][0] == d && row[0] == v.deep_view());
                }
                if d == v.deep_view() {
                    assert(equal_positions(after, seq![d], after.len() as int)
                        =~= equal_positions(before, seq![d], before.len() as int).push(position));
                } else if code is Some {
                    assert(key_int(d, self.kind) != code);
                }
            }
        }
    }

    /// The positions of the rows of a value.
    pub fn find_all(&self, v: &Value) -> (r: Vec<usize>)
        requires
            self.wf(),
            key_int(v.deep_view(), self.kind()) is Some,
        ensures
            r@ == equal_positions(self@, seq![v.deep_view()], self@.len() as int),
    {
        match key_to_i64(v, self.kind) {
            Some(k) => match table_get(&self.table, &k) {
                Some(b) => {
                    let r = b.clone();
                    assert(r@ =~= b@);
                    r
                },
                None => Vec::new(),
            },
            None => Vec::new(),
        }
    }
}

/// More rows do not change the positions of the first ones.
pub proof fn lemma_equal_prefix(
    rows: Seq<Seq<Datum>>,
    more: Seq<Seq<Datum>>,
    key: Seq<Datum>,
    n: int,
)
    requires
        0 <= n <= rows.len(),
        n <= more.len(),
        forall|i: int| 0 <= i < n ==> rows[i] == more[i],
    ensures
        equal_positions(rows, key, n) == equal_positions(more, key, n),
    decreases n,
{
    if n > 0 {
        lemma_equal_prefix(rows, more, key, n - 1);
    }
}

/// The positions found are positions of equal rows.
pub proof fn lemma_equal_sound(rows: Seq<Seq<Datum>>, key: Seq<Datum>, n: int)
    requires
        0 <= n <= rows.len() <= usize::MAX,
    ensures
        forall|k: int|
            0 <= k < equal_positions(rows, key, n).len() ==> (#[trigger] equal_positions(
                rows,
                key,
                n,
            )[k]) < n && rows[equal_positions(rows, key, n)[k] as int] == key,
    decreases n,
{
    if n > 0 {
        lemma_equal_sound(rows, key, n - 1);
        let before = equal_positions(rows, key, n - 1);
        let after = equal_positions(rows, key, n);
        assert forall|k: int| 0 <= k < after.len() implies (#[trigger] after[k]) < n
            && rows[after[k] as int] == key by {
            if k < before.len() {
                assert(after[k] == before[k]);
            }
        }
    }
}

} // verus!
