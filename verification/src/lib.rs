//! Lexical front end for a JavaScript-like language.
//!
//! The crate turns source text into classified tokens that carry their
//! position. The scanner is specified against a mathematical model of the
//! cursor and of the accumulation buffer (see [`lexer::grammar`]); every
//! executable function is proved to follow that model.

pub mod ast;
pub mod input;
pub mod lexer;
pub mod parser;
