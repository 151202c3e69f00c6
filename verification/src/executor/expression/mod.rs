//! Vectorized evaluation of expressions.
pub mod batch_laws;
pub mod call_laws;
pub mod cell_laws;
pub mod date_laws;
pub mod dates;
pub mod draws;
pub mod eval;
pub mod functions;
pub mod json;
pub mod json_fn;
pub mod json_laws;
pub mod number_laws;
pub mod numeric;
pub mod operator_laws;
pub mod ops;
pub mod rowwise;
pub mod string_laws;
pub mod strings;
pub mod time_laws;
pub mod vector_laws;

pub use eval::{boolean_to_selection, eval_vectorized};
