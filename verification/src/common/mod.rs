//! Building blocks shared by the storage and execution layers.
pub mod bits;
pub mod column_data;
pub mod config;
pub mod error;
pub mod huffman;
pub mod memory_pool;
pub mod merge_laws;
pub mod order_laws;
pub mod pretokenize;
pub mod token_laws;
pub mod tokenizer;
pub mod type_laws;
pub mod types;
pub mod value_cmp;
pub mod vocab_file;

pub use column_data::{BitVec, ColumnData, ColumnValue};
pub use error::EngramDbError;
pub use types::{ColumnDef, DataType, TableDef};
pub use value_cmp::{total_cmp, total_eq};
