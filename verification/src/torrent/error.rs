//! What can go wrong when a torrent is read.
use std::str::Utf8Error;

use vstd::prelude::*;

use crate::bencode::error::Failure;
use crate::num::NonZeroU64;

verus! {

/// Errors that can occur when reading a torrent.
#[derive(Debug)]
pub enum Error {
    /// An element is not of the expected kind, or the data is not valid bencode.
    Bencode(crate::bencode::Error),
    /// A path component is not valid UTF-8.
    Utf8(Utf8Error),
    /// A URL is malformed.
    InvalidUrl(url::ParseError),
    /// A mandatory field is missing.
    MissingField(String),
    /// A field has an illegal value, such as a negative file length.
    IllegalFieldValue(&'static str),
    /// The piece length is not a power of two or less than 16 KiB in a v2-only or hybrid torrent.
    IllegalPieceLengthV2(NonZeroU64),
    /// The length of the `pieces` field is not a multiple of 20.
    InvalidPiecesLength,
    /// The `file tree` field is malformed.
    InvalidFileTree,
    /// The v1 fields are incomplete or inconsistent.
    MalformedV1,
    /// The v2 fields are incomplete or inconsistent.
    MalformedV2,
    /// The v1 and v2 fields list different files. Padding files are ignored.
    HybridMismatch,
    /// There are neither v1 nor v2 fields.
    UnrecognizedFormat,
}

/// The model of an [`Error`].
pub ghost enum Rejection {
    Bencode(Failure),
    Utf8,
    InvalidUrl,
    MissingField(Seq<char>),
    IllegalFieldValue(Seq<char>),
    IllegalPieceLengthV2(u64),
    InvalidPiecesLength,
    InvalidFileTree,
    MalformedV1,
    MalformedV2,
    HybridMismatch,
    UnrecognizedFormat,
}

impl View for Error {
    type V = Rejection;

    open spec fn view(&self) -> Rejection {
        match self {
            Error::Bencode(e) => Rejection::Bencode(e@),
            Error::Utf8(_) => Rejection::Utf8,
            Error::InvalidUrl(_) => Rejection::InvalidUrl,
            Error::MissingField(s) => Rejection::MissingField(s@),
            Error::IllegalFieldValue(s) => Rejection::IllegalFieldValue(s@),
            Error::IllegalPieceLengthV2(n) => Rejection::IllegalPieceLengthV2(n@),
            Error::InvalidPiecesLength => Rejection::InvalidPiecesLength,
            Error::InvalidFileTree => Rejection::InvalidFileTree,
            Error::MalformedV1 => Rejection::MalformedV1,
            Error::MalformedV2 => Rejection::MalformedV2,
            Error::HybridMismatch => Rejection::HybridMismatch,
            Error::UnrecognizedFormat => Rejection::UnrecognizedFormat,
        }
    }
}

/// What was read is what was expected, or both were rejected for the same reason.
pub open spec fn same<T: View>(r: Result<T, Error>, expected: Result<T::V, Rejection>) -> bool {
    match (r, expected) {
        (Ok(t), Ok(m)) => t@ == m,
        (Err(e), Err(f)) => e@ == f,
        _ => false,
    }
}

} // verus!
