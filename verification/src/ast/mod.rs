//! Syntax tree nodes that a parser builds from tokens.

pub mod expression;
pub mod variable;
