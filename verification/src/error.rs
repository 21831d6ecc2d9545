//! The errors that parsing can end in.

use vstd::prelude::*;

verus! {

/// Why a JSON text is refused.
#[derive(Debug, Clone, PartialEq, Eq)]
pub enum ParseErrorCode {
    InvalidEOF,
    InvalidNumberValue,
    InvalidStringValue,
    ExpectedSomeIdent,
    ExpectedSomeValue,
    ExpectedArrayCommaOrEnd,
    ExpectedObjectCommaOrEnd,
    UnexpectedTrailingCharacters,
    InvalidEscaped(u8),
    InvalidHex(u8),
    UnexpectedEndOfHexEscape,
    ObjectDuplicateKey(String),
    ObjectKeyInvalidNumber,
    ObjectKeyInvalidCharacter,
}

/// An error of this library.
#[derive(Debug, Clone, PartialEq, Eq)]
pub enum Error {
    /// A string with escapes does not decode to UTF-8.
    InvalidUtf8,
    /// A key path is malformed.
    InvalidKeyPath,
    /// The text is malformed; the number is the byte offset at which that was noticed.
    Syntax(ParseErrorCode, usize),
}

/// What an [`Error`] says, with a duplicate key as a sequence of characters.
pub enum ErrorModel {
    InvalidUtf8,
    InvalidKeyPath,
    Syntax(ParseErrorCode, int),
    DuplicateKey(Seq<char>, int),
}

/// How the reading of a text fails: with an error, and at the offset that has been reached by then.
pub struct Refusal {
    pub error: ErrorModel,
    pub stop: int,
}

impl View for Error {
    type V = ErrorModel;

    open spec fn view(&self) -> ErrorModel {
        match *self {
            Error::InvalidUtf8 => ErrorModel::InvalidUtf8,
            Error::InvalidKeyPath => ErrorModel::InvalidKeyPath,
            Error::Syntax(ParseErrorCode::ObjectDuplicateKey(key), pos) => ErrorModel::DuplicateKey(
                key@,
                pos as int,
            ),
            Error::Syntax(code, pos) => ErrorModel::Syntax(code, pos as int),
        }
    }
}

/// A byte offset as far as the machine can report it.
pub open spec fn reported(pos: int) -> int {
    if pos > usize::MAX {
        usize::MAX as int
    } else {
        pos
    }
}

} // verus!
