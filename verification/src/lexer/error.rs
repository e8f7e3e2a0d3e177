//! The failures of the scanner.

use vstd::prelude::*;

verus! {

/// The ways in which scanning can stop without a token.
///
/// `EOF` is the ordinary end-of-input signal; every other variant reports a
/// malformed lexeme. At most one diagnostic string is carried.
#[derive(Debug)]
pub enum LexerError {
    InvalidUnicodeSequence,
    UnicodeOverfow,
    UnicodeSurrogateCodePoint,
    InvalidHexNumber,
    InvalidOctalNumber,
    IllegalCharacter,
    UnexpectedKeyword(String),
    InvalidString,
    InvalidOctalSeq,
    EOF,
    InvalidBinaryNumber,
    InvalidNumberSeq,
    UnexpectedToken(String),
}

/// Mathematical counterpart of [`LexerError`]: diagnostics are sequences of
/// characters.
pub enum LexerErrorView {
    InvalidUnicodeSequence,
    UnicodeOverfow,
    UnicodeSurrogateCodePoint,
    InvalidHexNumber,
    InvalidOctalNumber,
    IllegalCharacter,
    UnexpectedKeyword(Seq<char>),
    InvalidString,
    InvalidOctalSeq,
    EOF,
    InvalidBinaryNumber,
    InvalidNumberSeq,
    UnexpectedToken(Seq<char>),
}

impl View for LexerError {
    type V = LexerErrorView;

    open spec fn view(&self) -> LexerErrorView {
        match *self {
            LexerError::InvalidUnicodeSequence => LexerErrorView::InvalidUnicodeSequence,
            LexerError::UnicodeOverfow => LexerErrorView::UnicodeOverfow,
            LexerError::UnicodeSurrogateCodePoint => LexerErrorView::UnicodeSurrogateCodePoint,
            LexerError::InvalidHexNumber => LexerErrorView::InvalidHexNumber,
            LexerError::InvalidOctalNumber => LexerErrorView::InvalidOctalNumber,
            LexerError::IllegalCharacter => LexerErrorView::IllegalCharacter,
            LexerError::UnexpectedKeyword(s) => LexerErrorView::UnexpectedKeyword(s@),
            LexerError::InvalidString => LexerErrorView::InvalidString,
            LexerError::InvalidOctalSeq => LexerErrorView::InvalidOctalSeq,
            LexerError::EOF => LexerErrorView::EOF,
            LexerError::InvalidBinaryNumber => LexerErrorView::InvalidBinaryNumber,
            LexerError::InvalidNumberSeq => LexerErrorView::InvalidNumberSeq,
            LexerError::UnexpectedToken(s) => LexerErrorView::UnexpectedToken(s@),
        }
    }
}

} // verus!
