//! The translation pipeline: scanner, symbol resolution, and encoding.

pub mod compiler;
pub mod expression;
pub mod parser;
pub mod tokenizer;
