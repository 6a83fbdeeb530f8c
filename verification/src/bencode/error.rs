//! What can go wrong with bencoded data.
use std::str::Utf8Error;

use vstd::prelude::*;

use crate::decimal::IntErrorKind;

verus! {

/// Errors that can arise while parsing or working with an element.
#[derive(Debug)]
pub enum Error {
    /// A byte string is not valid UTF-8.
    InvalidUtf8(Utf8Error),
    /// A numeral could not be read.
    InvalidInteger(IntErrorKind),
    /// A numeral has a leading zero or is a negative zero.
    InvalidBencodeInteger(String),
    /// An unexpected byte was met, at the given position.
    UnexpectedByte(usize, u8),
    /// The data is nested too deeply.
    DepthLimitExceeded,
    /// The data ends too early.
    UnexpectedEof,
    /// The keys of a dictionary do not rise.
    UnsortedDictKeys,
    /// A key of a dictionary is not a byte string.
    NonStringKey,
    /// An accessor was called on an element of another kind.
    WrongType {
        /// The kind that was expected.
        expected: &'static str,
    },
}

/// The model of an [`Error`].
pub ghost enum Failure {
    InvalidUtf8,
    InvalidInteger(IntErrorKind),
    InvalidBencodeInteger(Seq<char>),
    UnexpectedByte(int, u8),
    DepthLimitExceeded,
    UnexpectedEof,
    UnsortedDictKeys,
    NonStringKey,
    WrongType(Seq<char>),
}

impl View for Error {
    type V = Failure;

    open spec fn view(&self) -> Failure {
        match self {
            Error::InvalidUtf8(_) => Failure::InvalidUtf8,
            Error::InvalidInteger(k) => Failure::InvalidInteger(*k),
            Error::InvalidBencodeInteger(s) => Failure::InvalidBencodeInteger(s@),
            Error::UnexpectedByte(p, b) => Failure::UnexpectedByte(*p as int, *b),
            Error::DepthLimitExceeded => Failure::DepthLimitExceeded,
            Error::UnexpectedEof => Failure::UnexpectedEof,
            Error::UnsortedDictKeys => Failure::UnsortedDictKeys,
            Error::NonStringKey => Failure::NonStringKey,
            Error::WrongType { expected } => Failure::WrongType(expected@),
        }
    }
}

} // verus!
