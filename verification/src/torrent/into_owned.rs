//! Torrent metainfo that outlives the data it was read from.
use std::borrow::Cow;

use vstd::prelude::*;

use crate::path::copy_bytes;
use crate::sorted_map::{lemma_with_entry_last, rises, ByteKey, SortedMap};
use crate::sorting::views;
use crate::torrent::types::{
    lemma_directory, lemma_node_smaller, opt_text, texts, FileInfo, FileLeaf, FileMode, FileTree,
    FileTreeNode, Info, InfoHybrid, InfoV1, InfoV2, IntoOwned, PieceLayers, Torrent, TorrentMeta,
};

verus! {

/// Owned version of [`Torrent`].
pub type TorrentBuf = Torrent<'static>;

/// Owned version of [`TorrentMeta`].
pub type TorrentMetaBuf = TorrentMeta<'static>;

/// Owned version of [`PieceLayers`].
pub type PieceLayersBuf = PieceLayers<'static>;

/// Owned version of [`Info`].
pub type InfoBuf<T> = Info<'static, T>;

/// Owned version of [`InfoV1`].
pub type InfoV1Buf = InfoV1<'static>;

/// Owned version of [`InfoV2`].
pub type InfoV2Buf = InfoV2<'static>;

/// Owned version of [`InfoHybrid`].
pub type InfoHybridBuf = InfoHybrid<'static>;

/// Owned version of [`FileMode`].
pub type FileModeBuf = FileMode<'static>;

/// Owned version of [`FileInfo`].
pub type FileInfoBuf = FileInfo<'static>;

/// Owned version of [`FileTree`].
pub type FileTreeBuf = FileTree<'static>;

/// Owned version of [`FileTreeNode`].
pub type FileTreeNodeBuf = FileTreeNode<'static>;

/// Owned version of [`FileLeaf`].
pub type FileLeafBuf = FileLeaf<'static>;

/// An owned string.
pub fn own_text(s: Cow<'_, str>) -> (r: Cow<'static, str>)
    ensures
        r@ == s@,
{
    match s {
        Cow::Borrowed(s) => Cow::Owned(s.to_owned()),
        Cow::Owned(s) => Cow::Owned(s),
    }
}

/// An optional owned string.
fn own_opt_text(s: Option<Cow<'_, str>>) -> (r: Option<Cow<'static, str>>)
    ensures
        opt_text(r) == opt_text(s),
{
    match s {
        Some(c) => Some(own_text(c)),
        None => None,
    }
}

/// Owned bytes.
fn own_bytes(s: Cow<'_, [u8]>) -> (r: Cow<'static, [u8]>)
    ensures
        r@ == s@,
{
    match s {
        Cow::Borrowed(s) => Cow::Owned(copy_bytes(s)),
        Cow::Owned(s) => Cow::Owned(s),
    }
}

/// Owned piece hashes.
fn own_pieces(s: Cow<'_, [[u8; 20]]>) -> (r: Cow<'static, [[u8; 20]]>)
    ensures
        r@ == s@,
{
    match s {
        Cow::Borrowed(s) => {
            let r = vstd::slice::slice_to_vec(s);
            assert(r@ =~= s@);
            Cow::Owned(r)
        },
        Cow::Owned(s) => Cow::Owned(s),
    }
}

impl<'a> IntoOwned for FileLeaf<'a> {
    type Owned = FileLeafBuf;

    fn into_owned(self) -> (r: Self::Owned) {
        FileLeaf {
            length: self.length,
            pieces_root: match self.pieces_root {
                Some(Cow::Borrowed(root)) => Some(Cow::Owned(*root)),
                Some(Cow::Owned(root)) => Some(Cow::Owned(root)),
                None => None,
            },
        }
    }
}

impl<'a> IntoOwned for FileInfo<'a> {
    type Owned = FileInfoBuf;

    fn into_owned(self) -> (r: Self::Owned) {
        let mut path: Vec<Cow<'static, str>> = Vec::with_capacity(self.path.len());
        for c in it: self.path.into_iter()
            invariant
                it.seq() == self.path@,
                path@.len() == it.index(),
                forall|k: int| 0 <= k < path@.len() ==> (#[trigger] path@[k])@ == it.seq()[k]@,
        {
            path.push(own_text(c));
        }
        assert(texts(path@) =~= texts(self.path@));
        FileInfo {
            attr: self.attr,
            length: self.length,
            md5sum: own_opt_text(self.md5sum),
            path,
        }
    }
}

impl<'a> IntoOwned for FileMode<'a> {
    type Owned = FileModeBuf;

    fn into_owned(self) -> (r: Self::Owned) {
        match self {
            FileMode::Single { length, md5sum } => FileMode::Single {
                length,
                md5sum: own_opt_text(md5sum),
            },
            FileMode::Multi { files } => {
                let mut owned: Vec<FileInfoBuf> = Vec::with_capacity(files.len());
                for f in it: files.into_iter()
                    invariant
                        it.seq() == files@,
                        owned@.len() == it.index(),
                        forall|k: int|
                            0 <= k < owned@.len() ==> (#[trigger] owned@[k])@ == it.seq()[k]@,
                {
                    owned.push(f.into_owned());
                }
                assert(views(owned@) =~= views(files@));
                FileMode::Multi { files: owned }
            },
        }
    }
}

impl<'a> IntoOwned for PieceLayers<'a> {
    type Owned = PieceLayersBuf;

    fn into_owned(self) -> (r: Self::Owned) {
        let entries = self.0.into_entries();
        let mut map: SortedMap<[u8; 32], Cow<'static, [u8]>> = SortedMap::new();
        for e in it: entries.into_iter()
            invariant
                it.seq() == entries@,
                entries@.len() == self.0@.len(),
                rises(self.0@),
                forall|i: int|
                    0 <= i < entries@.len() ==> (#[trigger] entries@[i]).0.key_bytes()
                        == self.0@[i].0 && entries@[i].1 == self.0@[i].1,
                map@.len() == it.index(),
                rises(map@),
                forall|k: int|
                    0 <= k < map@.len() ==> (#[trigger] map@[k]).0 == self.0@[k].0 && map@[k].1@
                        == self.0@[k].1@,
        {
            let ghost before = map@;
            let (key, value) = e;
            let value = own_bytes(value);
            map.insert(key, value);
            proof {
                lemma_with_entry_last(before, key@, value);
            }
        }
        let r = PieceLayers(map);
        assert(r@ =~= self@);
        r
    }
}

impl<'a> IntoOwned for FileTree<'a> {
    type Owned = FileTreeBuf;

    fn into_owned(self) -> (r: Self::Owned)
        decreases self, 0int,
    {
        let entries = self.0.into_entries();
        let mut map: SortedMap<Cow<'static, str>, FileTreeNodeBuf> = SortedMap::new();
        for e in it: entries.into_iter()
            invariant
                it.seq() == entries@,
                entries@.len() == self.0@.len(),
                rises(self.0@),
                forall|i: int|
                    0 <= i < entries@.len() ==> (#[trigger] entries@[i]).0.key_bytes()
                        == self.0@[i].0 && entries@[i].1 == self.0@[i].1,
                map@.len() == it.index(),
                rises(map@),
                forall|k: int|
                    0 <= k < map@.len() ==> (#[trigger] map@[k]).0 == self.0@[k].0 && map@[k].1@
                        == self.0@[k].1@,
        {
            let ghost before = map@;
            let (key, node) = e;
            proof {
                lemma_node_smaller(self, it.index() as int);
            }
            let key = own_text(key);
            let node = node.into_owned();
            map.insert(key, node);
            proof {
                lemma_with_entry_last(before, key.key_bytes(), node);
            }
        }
        let r = FileTree(map);
        assert(r@ =~= self@);
        r
    }
}

impl<'a> IntoOwned for FileTreeNode<'a> {
    type Owned = FileTreeNodeBuf;

    fn into_owned(self) -> (r: Self::Owned)
        decreases self, 0int,
    {
        match self {
            FileTreeNode::Directory(dir) => {
                let owned = dir.into_owned();
                proof {
                    lemma_directory(dir);
                    lemma_directory(owned);
                }
                FileTreeNode::Directory(owned)
            },
            FileTreeNode::File(file) => FileTreeNode::File(file.into_owned()),
        }
    }
}

impl<'a> IntoOwned for InfoV1<'a> {
    type Owned = InfoV1Buf;

    fn into_owned(self) -> (r: Self::Owned) {
        InfoV1 { pieces: own_pieces(self.pieces), file_mode: self.file_mode.into_owned() }
    }
}

impl<'a> IntoOwned for InfoV2<'a> {
    type Owned = InfoV2Buf;

    fn into_owned(self) -> (r: Self::Owned) {
        InfoV2 { file_tree: self.file_tree.into_owned() }
    }
}

impl<'a> IntoOwned for InfoHybrid<'a> {
    type Owned = InfoHybridBuf;

    fn into_owned(self) -> (r: Self::Owned) {
        InfoHybrid { v1: self.v1.into_owned(), v2: self.v2.into_owned() }
    }
}

impl<'a, T: IntoOwned> IntoOwned for Info<'a, T> {
    type Owned = InfoBuf<T::Owned>;

    fn into_owned(self) -> (r: Self::Owned) {
        Info {
            name: own_text(self.name),
            piece_length: self.piece_length,
            private: self.private,
            source: own_opt_text(self.source),
            kind: self.kind.into_owned(),
        }
    }
}

impl<'a> IntoOwned for TorrentMeta<'a> {
    type Owned = TorrentMetaBuf;

    fn into_owned(self) -> (r: Self::Owned) {
        match self {
            TorrentMeta::V1 { info } => TorrentMeta::V1 { info: info.into_owned() },
            TorrentMeta::V2 { info, piece_layers } => TorrentMeta::V2 {
                info: info.into_owned(),
                piece_layers: piece_layers.into_owned(),
            },
            TorrentMeta::Hybrid { info, piece_layers } => TorrentMeta::Hybrid {
                info: info.into_owned(),
                piece_layers: piece_layers.into_owned(),
            },
        }
    }
}

impl<'a> IntoOwned for Torrent<'a> {
    type Owned = TorrentBuf;

    fn into_owned(self) -> (r: Self::Owned) {
        Torrent {
            tracker_tiers: self.tracker_tiers,
            web_seeds: self.web_seeds,
            creation_date: self.creation_date,
            comment: own_opt_text(self.comment),
            created_by: own_opt_text(self.created_by),
            encoding: own_opt_text(self.encoding),
            meta: self.meta.into_owned(),
        }
    }
}

} // verus!
