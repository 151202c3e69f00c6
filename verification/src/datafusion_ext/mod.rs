//! Tables as a query engine over Arrow columns sees them.
pub mod array_laws;
pub mod arrays;
pub mod catalog;
pub mod table_provider;
pub mod types;

pub use catalog::EngramDBCatalog;
pub use table_provider::HybridDBTable;
