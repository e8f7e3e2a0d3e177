//! The failures of the parser.

use crate::lexer::error::{LexerError, LexerErrorView};
use vstd::prelude::*;

verus! {

/// The ways in which parsing can fail: the scanner failed, a name was
/// declared twice, or a token was found where another was expected.
#[derive(Debug)]
pub enum ParseError {
    LexerError(LexerError),
    AlreadyDeclared(String),
    UnexpectedToken(String),
}

/// Mathematical counterpart of [`ParseError`].
pub enum ParseErrorView {
    LexerError(LexerErrorView),
    AlreadyDeclared(Seq<char>),
    UnexpectedToken(Seq<char>),
}

impl View for ParseError {
    type V = ParseErrorView;

    open spec fn view(&self) -> ParseErrorView {
        match *self {
            ParseError::LexerError(e) => ParseErrorView::LexerError(e@),
            ParseError::AlreadyDeclared(s) => ParseErrorView::AlreadyDeclared(s@),
            ParseError::UnexpectedToken(s) => ParseErrorView::UnexpectedToken(s@),
        }
    }
}

/// View of a result whose error is a [`ParseError`].
pub open spec fn parse_result_view<T>(r: Result<T, ParseError>) -> Result<T, ParseErrorView> {
    match r {
        Ok(v) => Ok(v),
        Err(e) => Err(e@),
    }
}

} // verus!
