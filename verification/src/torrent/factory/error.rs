//! What can go wrong when a factory builds a torrent.
use vstd::prelude::*;

use crate::num::NonZeroU64;
use crate::path::FilePath;
use crate::torrent::builder;
use crate::torrent::builder::error::Obstacle;

verus! {

/// Errors that can occur when a factory builds a torrent.
#[derive(Debug, PartialEq, Eq)]
pub enum Error {
    /// There are no files.
    NoFiles,
    /// The name of a file or directory is not valid UTF-8.
    NonUtf8Name,
    /// A path is neither a file nor a directory.
    UnsupportedFileType(FilePath),
    /// The piece length does not fit in the address space.
    PieceLengthTooLarge(NonZeroU64),
}

impl View for Error {
    type V = Obstacle;

    open spec fn view(&self) -> Obstacle {
        match self {
            Error::NoFiles => Obstacle::NoFiles,
            Error::NonUtf8Name => Obstacle::NonUtf8Name,
            Error::UnsupportedFileType(p) => Obstacle::UnsupportedFileType(p@),
            Error::PieceLengthTooLarge(n) => Obstacle::PieceLengthTooLarge(n@),
        }
    }
}

/// An obstacle that can stand in the way of a factory.
pub open spec fn concerns_factory(o: Obstacle) -> bool {
    match o {
        Obstacle::NoFiles | Obstacle::NonUtf8Name => true,
        Obstacle::UnsupportedFileType(_) | Obstacle::PieceLengthTooLarge(_) => true,
        _ => false,
    }
}

/// The same error as one of a factory.
pub(crate) fn factory_error(e: builder::Error) -> (r: Error)
    requires
        concerns_factory(e@),
    ensures
        r@ == e@,
{
    match e {
        builder::Error::UnsupportedFileType(p) => Error::UnsupportedFileType(p),
        builder::Error::PieceLengthTooLarge(n) => Error::PieceLengthTooLarge(n),
        builder::Error::NonUtf8Name => Error::NonUtf8Name,
        _ => Error::NoFiles,
    }
}

} // verus!
