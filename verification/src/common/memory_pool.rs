//! Pools of vectors that are used again.
//!
//! A pool keeps a limited number of empty vectors with the memory that they
//! hold. A vector that comes back to a full pool is dropped.
use vstd::prelude::*;

use crate::Value;

verus! {

/// `Vec::capacity`. What an allocator gave is not said.
#[verifier::external_body]
fn held<T>(v: &Vec<T>) -> (r: usize) {
    v.capacity()
}

/// `Vec::shrink_to`: lets go of memory and keeps the elements.
#[verifier::external_body]
fn shrink<T>(v: &mut Vec<T>, capacity: usize)
    ensures
        final(v)@ == old(v)@,
{
    v.shrink_to(capacity);
}

/// A pool of vectors.
struct Pool<T> {
    inner: Vec<Vec<T>>,
    capacity: usize,
    unit: usize,
}

impl<T> Pool<T> {
    /// Whether the vectors are empty and not too many.
    spec fn wf(&self) -> bool {
        &&& self.inner.len() <= self.capacity
        &&& forall|i: int| 0 <= i < self.inner.len() ==> (#[trigger] self.inner[i])@.len() == 0
    }

    fn new(capacity: usize, unit: usize) -> (r: Self)
        ensures
            r.wf(),
            r.inner.len() == 0,
            r.capacity == capacity,
    {
        Pool { inner: Vec::new(), capacity, unit }
    }

    fn take(&mut self) -> (r: Vec<T>)
        requires
            old(self).wf(),
        ensures
            final(self).wf(),
            final(self).capacity == old(self).capacity,
            r@.len() == 0,
            final(self).inner.len() == if old(self).inner.len() > 0 {
                old(self).inner.len() - 1
            } else {
                0
            },
    {
        match self.inner.pop() {
            Some(v) => v,
            None => Vec::with_capacity(self.unit),
        }
    }

    fn give_back(&mut self, vec: Vec<T>)
        requires
            old(self).wf(),
        ensures
            final(self).wf(),
            final(self).capacity == old(self).capacity,
            final(self).inner.len() == if old(self).inner.len() < old(self).capacity {
                old(self).inner.len() + 1
            } else {
                old(self).inner.len() as int
            },
    {
        if self.inner.len() < self.capacity {
            let mut vec = vec;
            vec.clear();
            if held(&vec) as u128 > self.unit as u128 * 4 {
                shrink(&mut vec, self.unit);
            }
            self.inner.push(vec);
        }
    }
}

/// A pool of rows of values.
pub struct ValueVecPool {
    pool: Pool<Value>,
}

impl ValueVecPool {
    /// Whether the pool holds empty vectors, and no more than it may.
    pub closed spec fn wf(&self) -> bool {
        self.pool.wf()
    }

    /// How many vectors the pool holds.
    pub closed spec fn count(&self) -> nat {
        self.pool.inner.len() as nat
    }

    /// How many vectors the pool may hold.
    pub closed spec fn limit(&self) -> nat {
        self.pool.capacity as nat
    }

    /// A pool never holds more than it may.
    pub proof fn law_within_limit(&self)
        requires
            self.wf(),
        ensures
            self.count() <= self.limit(),
    {
    }

    /// An empty pool that keeps up to `pool_capacity` vectors, and makes new
    /// ones for `vec_capacity` values.
    pub fn new(pool_capacity: usize, vec_capacity: usize) -> (r: Self)
        ensures
            r.wf(),
            r.count() == 0,
            r.limit() == pool_capacity,
    {
        ValueVecPool { pool: Pool::new(pool_capacity, vec_capacity) }
    }

    /// Takes an empty vector out of the pool; an empty pool makes a new one.
    pub fn take(&mut self) -> (r: Vec<Value>)
        requires
            old(self).wf(),
        ensures
            final(self).wf(),
            final(self).limit() == old(self).limit(),
            r@.len() == 0,
            final(self).count() == if old(self).count() > 0 {
                old(self).count() - 1
            } else {
                0
            },
    {
        self.pool.take()
    }

    /// Gives a vector back. It is emptied, or dropped where the pool is full.
    pub fn give_back(&mut self, vec: Vec<Value>)
        requires
            old(self).wf(),
        ensures
            final(self).wf(),
            final(self).limit() == old(self).limit(),
            final(self).count() == if old(self).count() < old(self).limit() {
                old(self).count() + 1
            } else {
                old(self).count()
            },
    {
        self.pool.give_back(vec);
    }

    /// How many vectors the pool holds.
    pub fn len(&self) -> (r: usize)
        ensures
            r == self.count(),
    {
        self.pool.inner.len()
    }

    /// Whether the pool holds none.
    pub fn is_empty(&self) -> (r: bool)
        ensures
            r == (self.count() == 0),
    {
        self.pool.inner.len() == 0
    }
}

/// A pool of buffers of bytes.
pub struct ByteBufPool {
    pool: Pool<u8>,
}

impl ByteBufPool {
    /// Whether the pool holds empty buffers, and no more than it may.
    pub closed spec fn wf(&self) -> bool {
        self.pool.wf()
    }

    /// How many buffers the pool holds.
    pub closed spec fn count(&self) -> nat {
        self.pool.inner.len() as nat
    }

    /// How many buffers the pool may hold.
    pub closed spec fn limit(&self) -> nat {
        self.pool.capacity as nat
    }

    /// A pool never holds more than it may.
    pub proof fn law_within_limit(&self)
        requires
            self.wf(),
        ensures
            self.count() <= self.limit(),
    {
    }

    /// An empty pool that keeps up to `pool_capacity` buffers, and makes new
    /// ones for `buf_capacity` bytes.
    pub fn new(pool_capacity: usize, buf_capacity: usize) -> (r: Self)
        ensures
            r.wf(),
            r.count() == 0,
            r.limit() == pool_capacity,
    {
        ByteBufPool { pool: Pool::new(pool_capacity, buf_capacity) }
    }

    /// Takes an empty buffer out of the pool; an empty pool makes a new one.
    pub fn take(&mut self) -> (r: Vec<u8>)
        requires
            old(self).wf(),
        ensures
            final(self).wf(),
            final(self).limit() == old(self).limit(),
            r@.len() == 0,
            final(self).count() == if old(self).count() > 0 {
                old(self).count() - 1
            } else {
                0
            },
    {
        self.pool.take()
    }

    /// Gives a buffer back. It is emptied, or dropped where the pool is full.
    pub fn give_back(&mut self, buf: Vec<u8>)
        requires
            old(self).wf(),
        ensures
            final(self).wf(),
            final(self).limit() == old(self).limit(),
            final(self).count() == if old(self).count() < old(self).limit() {
                old(self).count() + 1
            } else {
                old(self).count()
            },
    {
        self.pool.give_back(buf);
    }

    /// How many buffers the pool holds.
    pub fn len(&self) -> (r: usize)
        ensures
            r == self.count(),
    {
        self.pool.inner.len()
    }

    /// Whether the pool holds none.
    pub fn is_empty(&self) -> (r: bool)
        ensures
            r == (self.count() == 0),
    {
        self.pool.inner.len() == 0
    }
}

/// A pool of batches of rows.
pub struct RowBatchPool {
    pool: Pool<Vec<Value>>,
    row_width: usize,
}

impl RowBatchPool {
    /// Whether the pool holds empty batches, and no more than it may.
    pub closed spec fn wf(&self) -> bool {
        self.pool.wf()
    }

    /// How many batches the pool holds.
    pub closed spec fn count(&self) -> nat {
        self.pool.inner.len() as nat
    }

    /// How many batches the pool may hold.
    pub closed spec fn limit(&self) -> nat {
        self.pool.capacity as nat
    }

    /// A pool never holds more than it may.
    pub proof fn law_within_limit(&self)
        requires
            self.wf(),
        ensures
            self.count() <= self.limit(),
    {
    }

    /// An empty pool that keeps up to `pool_capacity` batches, and makes new
    /// ones for `batch_size` rows of `row_width` values.
    pub fn new(pool_capacity: usize, batch_size: usize, row_width: usize) -> (r: Self)
        ensures
            r.wf(),
            r.count() == 0,
            r.limit() == pool_capacity,
    {
        RowBatchPool { pool: Pool::new(pool_capacity, batch_size), row_width }
    }

    /// Takes an empty batch out of the pool; an empty pool makes a new one.
    pub fn take(&mut self) -> (r: Vec<Vec<Value>>)
        requires
            old(self).wf(),
        ensures
            final(self).wf(),
            final(self).limit() == old(self).limit(),
            r@.len() == 0,
            final(self).count() == if old(self).count() > 0 {
                old(self).count() - 1
            } else {
                0
            },
    {
        self.pool.take()
    }

    /// Gives a batch back. It is emptied, or dropped where the pool is full.
    pub fn give_back(&mut self, batch: Vec<Vec<Value>>)
        requires
            old(self).wf(),
        ensures
            final(self).wf(),
            final(self).limit() == old(self).limit(),
            final(self).count() == if old(self).count() < old(self).limit() {
                old(self).count() + 1
            } else {
                old(self).count()
            },
    {
        self.pool.give_back(batch);
    }

    /// How many batches the pool holds.
    pub fn len(&self) -> (r: usize)
        ensures
            r == self.count(),
    {
        self.pool.inner.len()
    }

    /// Whether the pool holds none.
    pub fn is_empty(&self) -> (r: bool)
        ensures
            r == (self.count() == 0),
    {
        self.pool.inner.len() == 0
    }
}

} // verus!
