//! Torrent metainfo.
pub mod attr;
pub mod borrow;
pub mod builder;
pub mod convert;
pub mod copy;
pub mod creator;
pub mod error;
pub mod factory;
pub mod fidelity;
pub mod fields;
pub mod files;
pub mod into_owned;
pub mod keys;
pub mod laws;
pub mod model;
pub mod owned;
pub mod paths;
pub mod query;
pub mod read;
pub mod tier;
pub mod tree;
pub mod types;
pub mod write;

pub use attr::{FileInfoAttr, FileInfoAttrFlags};
pub use error::Error;
pub use into_owned::{
    FileInfoBuf, FileLeafBuf, FileModeBuf, FileTreeBuf, FileTreeNodeBuf, InfoBuf, InfoHybridBuf,
    InfoV1Buf, InfoV2Buf, PieceLayersBuf, TorrentBuf, TorrentMetaBuf,
};
pub use types::{
    FileInfo, FileLeaf, FileMode, FileTree, FileTreeNode, Info, InfoHybrid, InfoV1, InfoV2,
    IntoOwned, PieceLayers, Torrent, TorrentMeta, TrackerTier,
};
