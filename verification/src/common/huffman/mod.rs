//! Canonical Huffman codes.
//!
//! The table holds the length of the code of every symbol; the codes follow
//! from the lengths. Symbols of equal frequency are told apart by their
//! number, so the same frequencies always give the same codes.
pub mod codes;
pub mod optimal;
pub mod roundtrip;
pub mod stream;
pub mod tree;

pub use codes::{canonical_codes, Code};
pub use stream::{HuffmanDecoder, HuffmanEncoder};
pub use tree::build_lengths;
