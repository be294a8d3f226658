//! What holds of the operations of the library as a whole, stated of their inputs and results.

pub mod contents;
pub mod decoding;
pub mod encoding;
pub mod formats;
pub mod model;
pub mod pieces;
pub mod suppression;
pub mod text;
pub mod tokenizer;
pub mod transcribe;
