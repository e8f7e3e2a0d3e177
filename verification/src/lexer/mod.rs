//! The tokenizer: token model, character classes, numeric parsing, the
//! scanning grammar and the scanner that implements it.

pub mod error;
pub mod grammar;
pub mod laws;
pub mod lexemes;
pub mod lexer;
pub mod token;
pub mod util;
