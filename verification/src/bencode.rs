//! Bencode, the encoding of BitTorrent metainfo.
//!
//! The model of an element is a [`Value`]; `encode` says which bytes stand for a value, and
//! `parse_at` says what the parser makes of given bytes.
pub mod element;
pub mod error;
pub mod laws;
pub mod model;
pub mod parser;

pub use crate::decimal::IntErrorKind;
pub use element::Bencode;
pub use error::Error;
pub use parser::Parser;
