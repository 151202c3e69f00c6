//! EngramDB: the verified core of an embedded analytical database.

pub mod common;
pub mod datafusion_ext;
pub mod executor;
pub mod float;
pub mod float_laws;
pub mod query;
pub mod sql;
pub mod storage;
pub mod table;
pub mod text;
pub mod value;

pub use query::QueryResult;
pub use value::Value;
