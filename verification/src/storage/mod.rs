//! Tables and databases in memory.
pub mod database;
pub mod database_laws;
pub mod row_laws;
pub mod table;
pub mod txn;
