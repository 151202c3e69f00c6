//! Database configuration.
use vstd::prelude::*;

use crate::float::F64;

verus! {

/// When the write-ahead log reaches the disk.
#[derive(Debug, Clone, Copy, PartialEq, Eq, Structural)]
pub enum WalFlushMode {
    /// At every commit.
    Sync,
    /// When the buffer is full.
    BufferFull,
    /// When the owner of the database asks for it.
    Periodic,
}

/// What transactions see of each other.
#[derive(Debug, Clone, Copy, PartialEq, Eq, Structural)]
pub enum IsolationLevel {
    ReadUncommitted,
    SnapshotIsolation,
    Serializable,
}

impl Default for IsolationLevel {
    fn default() -> (r: Self)
        ensures
            r == IsolationLevel::SnapshotIsolation,
    {
        IsolationLevel::SnapshotIsolation
    }
}

/// How the payload of the write-ahead log is compressed.
#[derive(Debug, Clone, Copy, PartialEq, Eq, Structural)]
pub enum WalCompression {
    Uncompressed,
    Snappy,
}

/// How a column is compressed.
#[derive(Debug, Clone, Copy, PartialEq, Eq, Structural)]
pub enum CompressionType {
    Uncompressed,
    Rle,
    BitPacking,
    Dictionary,
    For,
    Delta,
    Zstd,
    Gorilla,
    ForBitPack,
    BooleanPack,
    DoubleDelta,
    TokenDelta,
}

/// When, and in which portions, fresh rows are merged into column storage.
#[derive(Debug, Clone, Copy, PartialEq, Eq, Structural)]
pub enum CompactStrategy {
    /// Only when asked for.
    Manual,
    /// All at once, at a number of fresh rows.
    Full { threshold: usize },
    /// `batch_size` rows at a time, at a number of fresh rows.
    Incremental { threshold: usize, batch_size: usize },
    /// At a share of the table's rows, between two bounds.
    Adaptive {
        min_threshold: usize,
        max_threshold: usize,
        pct_of_table: F64,
        batch_size: usize,
    },
}

/// The bits of one tenth in double precision.
pub const ONE_TENTH: u64 = 0x3fb9_9999_9999_999a;

impl CompactStrategy {
    /// The default: a tenth of the table, at least 10,000 rows and at most one
    /// row group, merged one row group at a time.
    pub fn default_adaptive(row_group_size: usize) -> (r: Self)
        ensures
            r == (CompactStrategy::Adaptive {
                min_threshold: 10_000,
                max_threshold: row_group_size,
                pct_of_table: F64 { bits: ONE_TENTH },
                batch_size: row_group_size,
            }),
    {
        CompactStrategy::Adaptive {
            min_threshold: 10_000,
            max_threshold: row_group_size,
            pct_of_table: F64 { bits: ONE_TENTH },
            batch_size: row_group_size,
        }
    }

    /// The manual strategy.
    pub fn manual() -> (r: Self)
        ensures
            r == CompactStrategy::Manual,
    {
        CompactStrategy::Manual
    }

    /// The all-at-once strategy.
    pub fn full(threshold: usize) -> (r: Self)
        ensures
            r == (CompactStrategy::Full { threshold }),
    {
        CompactStrategy::Full { threshold }
    }

    /// The portioned strategy.
    pub fn incremental(threshold: usize, batch_size: usize) -> (r: Self)
        ensures
            r == (CompactStrategy::Incremental { threshold, batch_size }),
    {
        CompactStrategy::Incremental { threshold, batch_size }
    }
}

/// Settings of a database.
#[derive(Debug)]
pub struct Config {
    pub page_size: u32,
    pub block_size: u32,
    pub buffer_pool_size: usize,
    pub row_group_size: u32,
    pub wal_checkpoint_threshold: u64,
    pub wal_flush_mode: WalFlushMode,
    pub wal_buffer_size: usize,
    pub wal_compression: WalCompression,
    /// Commits that share one flush; 0 flushes at every commit.
    pub wal_group_commit_size: usize,
    /// Bytes after which a flush is forced; 0 sets no bound.
    pub wal_group_commit_max_bytes: usize,
    /// Milliseconds after which a commit forces a flush; 0 sets no bound.
    pub wal_group_commit_timeout_ms: u64,
    /// Whether single inserts are collected into batches.
    pub wal_batch_insert: bool,
    pub insert_batch_rows: usize,
    pub insert_batch_bytes: usize,
    pub insert_batch_timeout_ms: u64,
    /// Whether inserts of an explicit transaction are collected.
    pub txn_batch_enabled: bool,
    pub txn_batch_rows: usize,
    /// Whether tables with constraints stay out of that collection.
    pub txn_batch_bypass_constraint_tables: bool,
    pub log_block_rows: usize,
    pub default_compression: CompressionType,
    pub tokenizer_path: Option<String>,
    pub compress_on_persist: bool,
    pub compact_strategy: CompactStrategy,
    pub sync_wal_compact: bool,
    pub sort_compact_by_pk: bool,
    pub primary_index_legacy: bool,
    pub sparse_index_granule_rows: u32,
    /// Whether writes go through transactions.
    pub enable_transaction: bool,
    pub default_isolation_level: IsolationLevel,
}

impl Clone for Config {
    fn clone(&self) -> (r: Self)
        ensures
            r == *self,
    {
        let tokenizer_path: Option<String> = match &self.tokenizer_path {
            Some(p) => Some(p.clone()),
            None => None,
        };
        Config {
            page_size: self.page_size,
            block_size: self.block_size,
            buffer_pool_size: self.buffer_pool_size,
            row_group_size: self.row_group_size,
            wal_checkpoint_threshold: self.wal_checkpoint_threshold,
            wal_flush_mode: self.wal_flush_mode,
            wal_buffer_size: self.wal_buffer_size,
            wal_compression: self.wal_compression,
            wal_group_commit_size: self.wal_group_commit_size,
            wal_group_commit_max_bytes: self.wal_group_commit_max_bytes,
            wal_group_commit_timeout_ms: self.wal_group_commit_timeout_ms,
            wal_batch_insert: self.wal_batch_insert,
            insert_batch_rows: self.insert_batch_rows,
            insert_batch_bytes: self.insert_batch_bytes,
            insert_batch_timeout_ms: self.insert_batch_timeout_ms,
            txn_batch_enabled: self.txn_batch_enabled,
            txn_batch_rows: self.txn_batch_rows,
            txn_batch_bypass_constraint_tables: self.txn_batch_bypass_constraint_tables,
            log_block_rows: self.log_block_rows,
            default_compression: self.default_compression,
            tokenizer_path,
            compress_on_persist: self.compress_on_persist,
            compact_strategy: self.compact_strategy,
            sync_wal_compact: self.sync_wal_compact,
            sort_compact_by_pk: self.sort_compact_by_pk,
            primary_index_legacy: self.primary_index_legacy,
            sparse_index_granule_rows: self.sparse_index_granule_rows,
            enable_transaction: self.enable_transaction,
            default_isolation_level: self.default_isolation_level,
        }
    }
}

/// The configuration that holds where none is given.
pub open spec fn usual_config() -> Config {
    Config {
        page_size: 4096,
        block_size: 262_144,
        buffer_pool_size: 1024,
        row_group_size: 122_880,
        wal_checkpoint_threshold: 16_777_216,
        wal_flush_mode: WalFlushMode::Sync,
        wal_buffer_size: 65536,
        wal_compression: WalCompression::Uncompressed,
        wal_group_commit_size: 16,
        wal_group_commit_max_bytes: 65536,
        wal_group_commit_timeout_ms: 10,
        wal_batch_insert: true,
        insert_batch_rows: 1024,
        insert_batch_bytes: 65536,
        insert_batch_timeout_ms: 10,
        txn_batch_enabled: true,
        txn_batch_rows: 8192,
        txn_batch_bypass_constraint_tables: true,
        log_block_rows: 0,
        default_compression: CompressionType::Uncompressed,
        tokenizer_path: None,
        compress_on_persist: true,
        compact_strategy: CompactStrategy::Adaptive {
            min_threshold: 10_000,
            max_threshold: 122_880,
            pct_of_table: F64 { bits: ONE_TENTH },
            batch_size: 122_880,
        },
        sync_wal_compact: true,
        sort_compact_by_pk: true,
        primary_index_legacy: false,
        sparse_index_granule_rows: 8192,
        enable_transaction: true,
        default_isolation_level: IsolationLevel::SnapshotIsolation,
    }
}

impl Default for Config {
    fn default() -> (r: Self)
        ensures
            r == usual_config(),
    {
        let row_group_size: u32 = 122_880;
        Config {
            page_size: 4096,
            block_size: 262_144,
            buffer_pool_size: 1024,
            row_group_size,
            wal_checkpoint_threshold: 16 * 1024 * 1024,
            wal_flush_mode: WalFlushMode::Sync,
            wal_buffer_size: 65536,
            wal_compression: WalCompression::Uncompressed,
            wal_group_commit_size: 16,
            wal_group_commit_max_bytes: 65536,
            wal_group_commit_timeout_ms: 10,
            wal_batch_insert: true,
            insert_batch_rows: 1024,
            insert_batch_bytes: 65536,
            insert_batch_timeout_ms: 10,
            txn_batch_enabled: true,
            txn_batch_rows: 8192,
            txn_batch_bypass_constraint_tables: true,
            log_block_rows: 0,
            default_compression: CompressionType::Uncompressed,
            tokenizer_path: None,
            compress_on_persist: true,
            compact_strategy: CompactStrategy::default_adaptive(row_group_size as usize),
            sync_wal_compact: true,
            sort_compact_by_pk: true,
            primary_index_legacy: false,
            sparse_index_granule_rows: 8192,
            enable_transaction: true,
            default_isolation_level: IsolationLevel::default(),
        }
    }
}

} // verus!
