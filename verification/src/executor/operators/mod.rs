//! The operators.
pub mod aggregate;
pub mod aggregate_laws;
pub mod alter_table;
pub mod delete;
pub mod delete_laws;
pub mod filter;
pub mod group_laws;
pub mod group_query_laws;
pub mod hash_join;
pub mod insert;
pub mod insert_laws;
pub mod join_laws;
pub mod join_query_laws;
pub mod pragma;
pub mod projection;
pub mod projection_laws;
pub mod sort;
pub mod summary_laws;
pub mod table_scan;
pub mod update;
pub mod update_laws;
pub mod window;
pub mod window_laws;
pub mod write_laws;
