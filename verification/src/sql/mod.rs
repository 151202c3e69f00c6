//! The statements that the engine executes.
pub mod ast;
