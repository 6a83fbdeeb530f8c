//! What is known of a factory at compile time: whether it has files.
pub use crate::torrent::builder::state::{BuilderState, Empty, HasFiles};
