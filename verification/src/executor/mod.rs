//! The vectorized execution engine.
pub mod agreement;
pub mod columnar;
pub mod draw_laws;
pub mod env;
pub mod exact;
pub mod executor;
pub mod explain;
pub mod expression;
pub mod framing;
pub mod key_index;
pub mod lookup;
pub mod operators;
pub mod physical_plan;
pub mod plan_laws;
pub mod pushdown;
pub mod query_laws;
pub mod relational;
pub mod selection_laws;
pub mod sorting;
pub mod statement_laws;
pub mod statements;
pub mod subquery;
pub mod subquery_laws;
pub mod txn_laws;
pub mod upsert;
pub mod upsert_laws;
pub mod vector;

pub use executor::execute;
