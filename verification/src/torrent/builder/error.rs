//! What can go wrong when a torrent is built.
use vstd::prelude::*;

use crate::num::NonZeroU64;
use crate::path::{FilePath, Part};

verus! {

/// Errors that can occur when building a torrent.
#[derive(Debug, PartialEq, Eq)]
pub enum Error {
    /// There are no files.
    NoFiles,
    /// The name of a file or directory is not valid UTF-8.
    NonUtf8Name,
    /// A path is neither a file nor a directory.
    UnsupportedFileType(FilePath),
    /// A file is too large for the address space.
    FileTooLarge(u64),
    /// There are more pieces of this length than the address space allows.
    PieceLengthTooSmall(usize),
    /// The piece length is not a power of two or less than 16 KiB in a v2-only or hybrid torrent.
    InvalidPieceLengthV2(NonZeroU64),
    /// The piece length does not fit in the address space.
    PieceLengthTooLarge(NonZeroU64),
}

/// The model of an [`Error`].
pub ghost enum Obstacle {
    NoFiles,
    NonUtf8Name,
    UnsupportedFileType(Seq<Part>),
    FileTooLarge(u64),
    PieceLengthTooSmall(int),
    InvalidPieceLengthV2(u64),
    PieceLengthTooLarge(u64),
}

impl View for Error {
    type V = Obstacle;

    open spec fn view(&self) -> Obstacle {
        match self {
            Error::NoFiles => Obstacle::NoFiles,
            Error::NonUtf8Name => Obstacle::NonUtf8Name,
            Error::UnsupportedFileType(p) => Obstacle::UnsupportedFileType(p@),
            Error::FileTooLarge(n) => Obstacle::FileTooLarge(*n),
            Error::PieceLengthTooSmall(n) => Obstacle::PieceLengthTooSmall(*n as int),
            Error::InvalidPieceLengthV2(n) => Obstacle::InvalidPieceLengthV2(n@),
            Error::PieceLengthTooLarge(n) => Obstacle::PieceLengthTooLarge(n@),
        }
    }
}

} // verus!
