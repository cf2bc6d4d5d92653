//! A two-pass assembler for a sixteen-bit machine with eight registers.
//!
//! The first pass reads the lines of a source text, binds the labels and
//! counts the words of each line; the second pass translates each line to
//! its words; the image is the header word, the words of the lines and the
//! literal pool. Each step is stated over the characters of the text and
//! proved.
pub mod assembler;
pub mod cli;
pub mod constant;
pub mod context;
pub mod encoding;
pub mod error;
pub mod grammar;
pub mod laws;
pub mod literal;
pub mod macros;
pub mod number;
pub mod opcode;
pub mod parser;
pub mod program;
pub mod register;
pub mod text;
pub mod token;
