//! Parsing and creation of BitTorrent metainfo files.
use vstd::prelude::*;

use crate::bencode::parser::parse_at;
use crate::error::Error;
use crate::torrent::borrow::torrent_borrows;
use crate::torrent::read::torrent_of;

pub mod bencode;
mod chunks;
mod decimal;
pub mod digest;
pub mod error;
mod lex;
pub mod magnet;
pub mod num;
pub mod parse;
pub mod path;
pub mod sorted_map;
pub mod sorting;
mod text;
pub mod torrent;
pub mod web;

pub use bencode::Parser;
pub use torrent::builder::TorrentBuilder;
pub use torrent::Torrent;
pub use web::Url;

verus! {

/// Parses a torrent from raw data.
///
/// The data may go on behind the torrent. The torrent borrows from the data.
///
/// # Errors
///
/// [`Error::Bencode`] if the data does not start with valid bencode, and [`Error::Torrent`] if the
/// decoded structure is not a torrent.
pub fn parse_torrent(data: &[u8]) -> (r: Result<Torrent<'_>, Error>)
    ensures
        match parse_at(data@, 0, 1, 64) {
            Err((f, _)) => r matches Err(Error::Bencode(e)) && e@ == f,
            Ok((v, _)) => match torrent_of(v) {
                Err(f) => r matches Err(Error::Torrent(e)) && e@ == f,
                Ok(t) => r matches Ok(torrent) && torrent@ == t && torrent_borrows(torrent),
            },
        },
{
    match Parser::new(data).parse() {
        Err(e) => Err(Error::Bencode(e)),
        Ok(bencode) => match Torrent::try_from(bencode) {
            Err(e) => Err(Error::Torrent(e)),
            Ok(torrent) => Ok(torrent),
        },
    }
}

} // verus!
