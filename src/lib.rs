//! Incremental tokenizer for HTML-like markup arriving in arbitrarily split chunks.
pub mod base;
pub mod errors;
pub mod token;
pub mod lexer;
pub mod model;
pub mod tokenizer;
pub mod transform_stream;
