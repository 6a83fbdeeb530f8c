//! Copies of torrent metainfo.
use std::borrow::Cow;

use vstd::prelude::*;

use crate::path::copy_bytes;
use crate::sorted_map::{lemma_with_entry_last, rises, ByteKey, SortedMap};
use crate::sorting::views;
use crate::torrent::types::{
    lemma_directory, lemma_node_smaller, opt_text, texts, FileInfo, FileLeaf, FileMode, FileTree,
    FileTreeNode, Info, InfoHybrid, InfoV1, InfoV2, PieceLayers, Torrent, TorrentMeta, TrackerTier,
};
use crate::web::Url;

verus! {

/// A copy of an optional string.
fn copy_opt_text<'a>(s: &Option<Cow<'a, str>>) -> (r: Option<Cow<'a, str>>)
    ensures
        opt_text(r) == opt_text(*s),
{
    match s {
        Some(s) => Some(s.duplicate()),
        None => None,
    }
}

/// A copy of some URLs.
pub(crate) fn copy_urls(urls: &[Url]) -> (r: Vec<Url>)
    ensures
        views(r@) == views(urls@),
{
    let mut r: Vec<Url> = Vec::with_capacity(urls.len());
    let mut i: usize = 0;
    while i < urls.len()
        invariant
            i <= urls@.len(),
            r@.len() == i,
            forall|k: int| 0 <= k < i ==> (#[trigger] r@[k])@ == urls@[k]@,
        decreases urls@.len() - i,
    {
        r.push(urls[i].clone());
        i = i + 1;
    }
    assert(views(r@) =~= views(urls@));
    r
}

impl Clone for TrackerTier {
    fn clone(&self) -> (r: Self)
        ensures
            r@ == self@,
    {
        TrackerTier(copy_urls(&self.0))
    }
}

impl<'a> Clone for FileInfo<'a> {
    fn clone(&self) -> (r: Self)
        ensures
            r@ == self@,
    {
        let mut path: Vec<Cow<'a, str>> = Vec::with_capacity(self.path.len());
        let mut i: usize = 0;
        while i < self.path.len()
            invariant
                i <= self.path@.len(),
                path@.len() == i,
                forall|k: int| 0 <= k < i ==> (#[trigger] path@[k])@ == self.path@[k]@,
            decreases self.path@.len() - i,
        {
            path.push(self.path[i].duplicate());
            i = i + 1;
        }
        assert(texts(path@) =~= texts(self.path@));
        FileInfo {
            attr: match &self.attr {
                Some(attr) => Some(attr.clone()),
                None => None,
            },
            length: self.length,
            md5sum: copy_opt_text(&self.md5sum),
            path,
        }
    }
}

impl<'a> Clone for FileMode<'a> {
    fn clone(&self) -> (r: Self)
        ensures
            r@ == self@,
    {
        match self {
            FileMode::Single { length, md5sum } => FileMode::Single {
                length: *length,
                md5sum: copy_opt_text(md5sum),
            },
            FileMode::Multi { files } => {
                let mut copy: Vec<FileInfo<'a>> = Vec::with_capacity(files.len());
                let mut i: usize = 0;
                while i < files.len()
                    invariant
                        i <= files@.len(),
                        copy@.len() == i,
                        forall|k: int| 0 <= k < i ==> (#[trigger] copy@[k])@ == files@[k]@,
                    decreases files@.len() - i,
                {
                    copy.push(files[i].clone());
                    i = i + 1;
                }
                assert(views(copy@) =~= views(files@));
                FileMode::Multi { files: copy }
            },
        }
    }
}

impl<'a> Clone for InfoV1<'a> {
    fn clone(&self) -> (r: Self)
        ensures
            r@ == self@,
    {
        InfoV1 {
            pieces: match &self.pieces {
                Cow::Borrowed(s) => Cow::Borrowed(*s),
                Cow::Owned(s) => {
                    let copy: Vec<[u8; 20]> = vstd::slice::slice_to_vec(s.as_slice());
                    assert(copy@ =~= s@);
                    Cow::Owned(copy)
                },
            },
            file_mode: self.file_mode.clone(),
        }
    }
}

impl<'a> Clone for InfoV2<'a> {
    fn clone(&self) -> (r: Self)
        ensures
            r@ == self@,
    {
        InfoV2 { file_tree: self.file_tree.clone() }
    }
}

impl<'a> Clone for InfoHybrid<'a> {
    fn clone(&self) -> (r: Self)
        ensures
            r@ == self@,
    {
        InfoHybrid { v1: self.v1.clone(), v2: self.v2.clone() }
    }
}

impl<'a, T: 'a + Clone> Clone for Info<'a, T> {
    fn clone(&self) -> (r: Self)
        ensures
            r.name@ == self.name@,
            r.piece_length == self.piece_length,
            r.private == self.private,
            opt_text(r.source) == opt_text(self.source),
            cloned(self.kind, r.kind),
    {
        Info {
            name: self.name.duplicate(),
            piece_length: self.piece_length,
            private: self.private,
            source: copy_opt_text(&self.source),
            kind: self.kind.clone(),
        }
    }
}

impl<'a> Clone for PieceLayers<'a> {
    fn clone(&self) -> (r: Self)
        ensures
            r@ == self@,
    {
        let mut map: SortedMap<[u8; 32], Cow<'a, [u8]>> = SortedMap::new();
        let mut i: usize = 0;
        let n: usize = self.0.len();
        while i < n
            invariant
                i <= n,
                n == self.0@.len(),
                rises(self.0@),
                rises(map@),
                map@.len() == i,
                forall|k: int|
                    0 <= k < i ==> (#[trigger] map@[k]).0 == self@[k].0 && map@[k].1@
                        == self@[k].1,
            decreases n - i,
        {
            let ghost before = map@;
            let key: [u8; 32] = self.0.key_at(i).duplicate();
            let value: Cow<'a, [u8]> = match self.0.value_at(i) {
                Cow::Borrowed(s) => Cow::Borrowed(*s),
                Cow::Owned(s) => Cow::Owned(copy_bytes(s)),
            };
            map.insert(key, value);
            proof {
                lemma_with_entry_last(before, key@, value);
            }
            i = i + 1;
        }
        let r = PieceLayers(map);
        assert(r@ =~= self@);
        r
    }
}

impl<'a> Clone for TorrentMeta<'a> {
    fn clone(&self) -> (r: Self)
        ensures
            r@ == self@,
    {
        match self {
            TorrentMeta::V1 { info } => TorrentMeta::V1 { info: info.clone() },
            TorrentMeta::V2 { info, piece_layers } => TorrentMeta::V2 {
                info: info.clone(),
                piece_layers: piece_layers.clone(),
            },
            TorrentMeta::Hybrid { info, piece_layers } => TorrentMeta::Hybrid {
                info: info.clone(),
                piece_layers: piece_layers.clone(),
            },
        }
    }
}

impl<'a> Clone for Torrent<'a> {
    fn clone(&self) -> (r: Self)
        ensures
            r@ == self@,
    {
        let tracker_tiers: Option<Vec<TrackerTier>> = match &self.tracker_tiers {
            Some(tiers) => {
                let mut copy: Vec<TrackerTier> = Vec::with_capacity(tiers.len());
                let mut i: usize = 0;
                while i < tiers.len()
                    invariant
                        i <= tiers@.len(),
                        copy@.len() == i,
                        forall|k: int| 0 <= k < i ==> (#[trigger] copy@[k])@ == tiers@[k]@,
                    decreases tiers@.len() - i,
                {
                    copy.push(tiers[i].clone());
                    i = i + 1;
                }
                assert(views(copy@) =~= views(tiers@));
                Some(copy)
            },
            None => None,
        };
        Torrent {
            tracker_tiers,
            web_seeds: match &self.web_seeds {
                Some(urls) => Some(copy_urls(urls)),
                None => None,
            },
            creation_date: self.creation_date,
            comment: copy_opt_text(&self.comment),
            created_by: copy_opt_text(&self.created_by),
            encoding: copy_opt_text(&self.encoding),
            meta: self.meta.clone(),
        }
    }
}

impl<'a> Clone for FileLeaf<'a> {
    fn clone(&self) -> (r: Self)
        ensures
            r@ == self@,
    {
        FileLeaf {
            length: self.length,
            pieces_root: match &self.pieces_root {
                Some(Cow::Borrowed(root)) => Some(Cow::Borrowed(*root)),
                Some(Cow::Owned(root)) => Some(Cow::Owned(*root)),
                None => None,
            },
        }
    }
}

impl<'a> Clone for FileTree<'a> {
    fn clone(&self) -> (r: Self)
        ensures
            r@ == self@,
        decreases self,
    {
        let mut map: SortedMap<Cow<'a, str>, FileTreeNode<'a>> = SortedMap::new();
        let mut i: usize = 0;
        let n: usize = self.0.len();
        while i < n
            invariant
                i <= n,
                n == self.0@.len(),
                rises(self.0@),
                rises(map@),
                map@.len() == i,
                forall|k: int|
                    0 <= k < i ==> (#[trigger] map@[k]).0 == self@[k].0 && map@[k].1@
                        == self@[k].1,
            decreases n - i,
        {
            let ghost before = map@;
            proof {
                lemma_node_smaller(*self, i as int);
            }
            let key: Cow<'a, str> = self.0.key_at(i).duplicate();
            let node: FileTreeNode<'a> = match self.0.value_at(i) {
                FileTreeNode::Directory(tree) => {
                    let copy: FileTree<'a> = tree.clone();
                    proof {
                        lemma_directory(*tree);
                        lemma_directory(copy);
                    }
                    FileTreeNode::Directory(copy)
                },
                FileTreeNode::File(leaf) => FileTreeNode::File(leaf.clone()),
            };
            map.insert(key, node);
            proof {
                lemma_with_entry_last(before, key.key_bytes(), node);
            }
            i = i + 1;
        }
        let r = FileTree(map);
        assert(r@ =~= self@);
        r
    }
}

impl<'a> Clone for FileTreeNode<'a> {
    fn clone(&self) -> (r: Self)
        ensures
            r@ == self@,
    {
        match self {
            FileTreeNode::Directory(tree) => {
                let copy: FileTree<'a> = tree.clone();
                proof {
                    lemma_directory(*tree);
                    lemma_directory(copy);
                }
                FileTreeNode::Directory(copy)
            },
            FileTreeNode::File(leaf) => FileTreeNode::File(leaf.clone()),
        }
    }
}

} // verus!
