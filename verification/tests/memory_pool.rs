//! Pools of reusable vectors.
use engramdb::common::memory_pool::{ByteBufPool, RowBatchPool, ValueVecPool};

#[test]
fn test_value_vec_pool() {
    let mut pool = ValueVecPool::new(4, 16);
    assert!(pool.is_empty());

    let v1 = pool.take();
    assert_eq!(v1.capacity(), 16);
    assert_eq!(pool.len(), 0);

    pool.give_back(v1);
    assert_eq!(pool.len(), 1);

    let v2 = pool.take();
    assert_eq!(v2.capacity(), 16);
    assert!(v2.is_empty());
    assert_eq!(pool.len(), 0);
}

#[test]
fn test_value_vec_pool_overflow() {
    let mut pool = ValueVecPool::new(2, 8);
    let v1 = pool.take();
    let v2 = pool.take();
    let v3 = pool.take();

    pool.give_back(v1);
    pool.give_back(v2);
    pool.give_back(v3);

    assert_eq!(pool.len(), 2);
}

#[test]
fn test_byte_buf_pool() {
    let mut pool = ByteBufPool::new(4, 1024);
    let buf = pool.take();
    assert_eq!(buf.capacity(), 1024);
    pool.give_back(buf);
    assert_eq!(pool.len(), 1);
}

#[test]
fn test_row_batch_pool() {
    let mut pool = RowBatchPool::new(2, 1000, 5);
    let batch = pool.take();
    assert_eq!(batch.capacity(), 1000);
    pool.give_back(batch);
    assert_eq!(pool.len(), 1);
}
