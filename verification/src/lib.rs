//! A two-pass assembler for a 16-bit accumulator machine.
//!
//! The pipeline has three verified stages: lexical scanning of the source
//! text into typed tokens, symbol resolution over two registration sweeps
//! (labels first, then variables in first-use order), and encoding of the
//! resolved instruction records into fixed-width binary words.

pub mod binary;
pub mod error;
pub mod parser;
pub mod text;
