//! Errors of this crate as a whole.
use vstd::prelude::*;

verus! {

/// Errors that can occur when raw data is turned into a torrent.
#[derive(Debug)]
pub enum Error {
    /// The data is not valid bencode.
    Bencode(crate::bencode::Error),
    /// The decoded data is not a torrent.
    Torrent(crate::torrent::Error),
}

} // verus!
