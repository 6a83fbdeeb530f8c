//! Torrent metainfo that borrows: its texts, hashes and piece layers are slices of the data that it
//! was read from.
use std::borrow::Cow;

use vstd::prelude::*;

use crate::torrent::read::ParsedInfo;
use crate::torrent::types::{
    FileInfo, FileLeaf, FileMode, FileTree, FileTreeNode, InfoV1, PieceLayers, Torrent, TorrentMeta,
};

verus! {

/// An optional text that borrows.
pub open spec fn text_borrows(s: Option<Cow<'_, str>>) -> bool {
    s matches Some(c) ==> c is Borrowed
}

/// A file information dictionary that borrows.
pub open spec fn file_info_borrows(f: FileInfo<'_>) -> bool {
    &&& text_borrows(f.md5sum)
    &&& forall|i: int| 0 <= i < f.path@.len() ==> (#[trigger] f.path@[i]) is Borrowed
}

/// What the v1 fields say of files, borrowed.
pub open spec fn file_mode_borrows(mode: FileMode<'_>) -> bool {
    match mode {
        FileMode::Single { md5sum, .. } => text_borrows(md5sum),
        FileMode::Multi { files } => forall|i: int|
            0 <= i < files@.len() ==> file_info_borrows(#[trigger] files@[i]),
    }
}

/// V1 fields that borrow.
pub open spec fn v1_borrows(v1: InfoV1<'_>) -> bool {
    v1.pieces is Borrowed && file_mode_borrows(v1.file_mode)
}

/// A file leaf that borrows.
pub open spec fn leaf_borrows(leaf: FileLeaf<'_>) -> bool {
    leaf.pieces_root matches Some(root) ==> root is Borrowed
}

/// A file tree that borrows: its names do, and so does everything in it.
pub open spec fn tree_borrows(tree: FileTree<'_>) -> bool
    decreases tree,
{
    &&& forall|i: int| 0 <= i < tree.0.keys().len() ==> (#[trigger] tree.0.keys()[i]) is Borrowed
    &&& forall|i: int|
        0 <= i < tree.0@.len() ==> {
            proof {
                crate::torrent::types::lemma_node_smaller(tree, i);
            }
            node_borrows((#[trigger] tree.0@[i]).1)
        }
}

/// A node that borrows.
pub open spec fn node_borrows(node: FileTreeNode<'_>) -> bool
    decreases node,
{
    match node {
        FileTreeNode::Directory(tree) => tree_borrows(tree),
        FileTreeNode::File(leaf) => leaf_borrows(leaf),
    }
}

/// Piece layers that borrow.
pub open spec fn layers_borrow(layers: PieceLayers<'_>) -> bool {
    forall|i: int| 0 <= i < layers.0@.len() ==> (#[trigger] layers.0@[i]).1 is Borrowed
}

/// A parsed `info` dictionary that borrows.
pub open spec fn parsed_borrows(parsed: ParsedInfo<'_>) -> bool {
    match parsed {
        ParsedInfo::V1(info) => {
            &&& info.name is Borrowed
            &&& text_borrows(info.source)
            &&& v1_borrows(info.kind)
        },
        ParsedInfo::V2(info) => {
            &&& info.name is Borrowed
            &&& text_borrows(info.source)
            &&& tree_borrows(info.kind.file_tree)
        },
        ParsedInfo::Hybrid(info) => {
            &&& info.name is Borrowed
            &&& text_borrows(info.source)
            &&& v1_borrows(info.kind.v1)
            &&& tree_borrows(info.kind.v2.file_tree)
        },
    }
}

/// Required metainfo that borrows.
pub open spec fn meta_borrows(meta: TorrentMeta<'_>) -> bool {
    match meta {
        TorrentMeta::V1 { info } => parsed_borrows(ParsedInfo::V1(info)),
        TorrentMeta::V2 { info, piece_layers } => parsed_borrows(ParsedInfo::V2(info))
            && layers_borrow(piece_layers),
        TorrentMeta::Hybrid { info, piece_layers } => parsed_borrows(ParsedInfo::Hybrid(info))
            && layers_borrow(piece_layers),
    }
}

/// A torrent that borrows. Its URLs are held in normal form, as texts of their own.
pub open spec fn torrent_borrows(t: Torrent<'_>) -> bool {
    &&& text_borrows(t.comment)
    &&& text_borrows(t.created_by)
    &&& text_borrows(t.encoding)
    &&& meta_borrows(t.meta)
}

} // verus!
