//! What a torrent says about itself, and changes to it.
use std::borrow::Cow;

use vstd::prelude::*;

use crate::bencode::model::encode;
use crate::digest::{sha1, sha1_of, sha256, sha256_of};
use crate::num::NonZeroU64;
use crate::sorting::views;
use crate::torrent::model::{FileInfoModel, FileModeModel, InfoModel, MetaModel, TorrentModel};
use crate::torrent::tree::{tree_files, tree_size};
use crate::torrent::types::{
    FileInfo, FileMode, Info, InfoHybrid, InfoV1, InfoV2, Torrent, TorrentMeta, TrackerTier,
};
use crate::torrent::write::{info_hybrid_value, info_v1_value, info_v2_value, info_value};

verus! {

/// The total length of some files.
pub open spec fn files_size(files: Seq<FileInfoModel>) -> nat
    decreases files.len(),
{
    if files.len() == 0 {
        0
    } else {
        files_size(files.drop_last()) + files.last().length as nat
    }
}

/// The total length of the files of a torrent. That of a hybrid torrent leaves out padding files.
pub open spec fn meta_size(meta: MetaModel) -> nat {
    match meta {
        MetaModel::V1 { info } => match info.kind.file_mode {
            FileModeModel::Single { length, .. } => length as nat,
            FileModeModel::Multi { files } => files_size(files),
        },
        MetaModel::V2 { info, .. } => tree_size(info.kind.file_tree),
        MetaModel::Hybrid { info, .. } => tree_size(info.kind.v2.file_tree),
    }
}

/// The number of files of a torrent. That of a hybrid torrent leaves out padding files.
pub open spec fn meta_files(meta: MetaModel) -> nat {
    match meta {
        MetaModel::V1 { info } => match info.kind.file_mode {
            FileModeModel::Single { .. } => 1,
            FileModeModel::Multi { files } => files.len(),
        },
        MetaModel::V2 { info, .. } => tree_files(info.kind.file_tree),
        MetaModel::Hybrid { info, .. } => tree_files(info.kind.v2.file_tree),
    }
}

/// The name of a torrent.
pub open spec fn meta_name(meta: MetaModel) -> Seq<char> {
    match meta {
        MetaModel::V1 { info } => info.name,
        MetaModel::V2 { info, .. } => info.name,
        MetaModel::Hybrid { info, .. } => info.name,
    }
}

/// The piece length of a torrent.
pub open spec fn meta_piece_length(meta: MetaModel) -> u64 {
    match meta {
        MetaModel::V1 { info } => info.piece_length,
        MetaModel::V2 { info, .. } => info.piece_length,
        MetaModel::Hybrid { info, .. } => info.piece_length,
    }
}

/// Whether a torrent is private.
pub open spec fn meta_private(meta: MetaModel) -> bool {
    match meta {
        MetaModel::V1 { info } => info.private,
        MetaModel::V2 { info, .. } => info.private,
        MetaModel::Hybrid { info, .. } => info.private,
    }
}

/// The `source` field of a torrent.
pub open spec fn meta_source(meta: MetaModel) -> Option<Seq<char>> {
    match meta {
        MetaModel::V1 { info } => info.source,
        MetaModel::V2 { info, .. } => info.source,
        MetaModel::Hybrid { info, .. } => info.source,
    }
}

/// The `info` dictionary with another name.
pub open spec fn with_name(meta: MetaModel, name: Seq<char>) -> MetaModel {
    match meta {
        MetaModel::V1 { info } => MetaModel::V1 { info: InfoModel { name, ..info } },
        MetaModel::V2 { info, piece_layers } => MetaModel::V2 {
            info: InfoModel { name, ..info },
            piece_layers,
        },
        MetaModel::Hybrid { info, piece_layers } => MetaModel::Hybrid {
            info: InfoModel { name, ..info },
            piece_layers,
        },
    }
}

/// The `info` dictionary with another `private` field.
pub open spec fn with_private(meta: MetaModel, private: bool) -> MetaModel {
    match meta {
        MetaModel::V1 { info } => MetaModel::V1 { info: InfoModel { private, ..info } },
        MetaModel::V2 { info, piece_layers } => MetaModel::V2 {
            info: InfoModel { private, ..info },
            piece_layers,
        },
        MetaModel::Hybrid { info, piece_layers } => MetaModel::Hybrid {
            info: InfoModel { private, ..info },
            piece_layers,
        },
    }
}

/// The `info` dictionary with another `source` field.
pub open spec fn with_source(meta: MetaModel, source: Option<Seq<char>>) -> MetaModel {
    match meta {
        MetaModel::V1 { info } => MetaModel::V1 { info: InfoModel { source, ..info } },
        MetaModel::V2 { info, piece_layers } => MetaModel::V2 {
            info: InfoModel { source, ..info },
            piece_layers,
        },
        MetaModel::Hybrid { info, piece_layers } => MetaModel::Hybrid {
            info: InfoModel { source, ..info },
            piece_layers,
        },
    }
}

proof fn lemma_files_prefix(files: Seq<FileInfoModel>, k: int)
    requires
        0 <= k <= files.len(),
    ensures
        files_size(files.take(k)) <= files_size(files),
    decreases files.len() - k,
{
    if k == files.len() {
        assert(files.take(k) =~= files);
    } else {
        assert(files.take(k + 1).drop_last() =~= files.take(k));
        lemma_files_prefix(files, k + 1);
    }
}

/// The total length of some files, if it fits.
fn sum_lengths(files: &[FileInfo<'_>]) -> (r: Option<u64>)
    ensures
        match r {
            Some(n) => n == files_size(views(files@)),
            None => files_size(views(files@)) > u64::MAX,
        },
{
    let ghost all = views(files@);
    let mut sum: u64 = 0;
    let mut i: usize = 0;
    assert(all.take(0) =~= Seq::<FileInfoModel>::empty());
    while i < files.len()
        invariant
            i <= files@.len(),
            all == views(files@),
            sum == files_size(all.take(i as int)),
        decreases files@.len() - i,
    {
        proof {
            let t = all.take(i + 1);
            assert(t.drop_last() =~= all.take(i as int));
            assert(t.last() == files@[i as int]@);
            lemma_files_prefix(all, i + 1);
        }
        match sum.checked_add(files[i].length) {
            Some(total) => {
                sum = total;
            },
            None => return None,
        }
        i = i + 1;
    }
    assert(all.take(i as int) =~= all);
    Some(sum)
}

impl<'a> Info<'a, InfoV1<'a>> {
    /// The SHA-1 info hash (BitTorrent v1).
    pub fn info_hash(&self) -> (r: [u8; 20])
        ensures
            r@ == sha1_of(encode(info_v1_value(self@))),
    {
        sha1(&self.to_bencode().encode())
    }
}

impl<'a> Info<'a, InfoV2<'a>> {
    /// The SHA-256 info hash (BitTorrent v2).
    pub fn info_hash(&self) -> (r: [u8; 32])
        ensures
            r@ == sha256_of(encode(info_v2_value(self@))),
    {
        sha256(&self.to_bencode().encode())
    }
}

impl<'a> Info<'a, InfoHybrid<'a>> {
    /// The SHA-1 info hash (BitTorrent v1).
    pub fn info_hash_v1(&self) -> (r: [u8; 20])
        ensures
            r@ == sha1_of(encode(info_hybrid_value(self@))),
    {
        sha1(&self.to_bencode().encode())
    }

    /// The SHA-256 info hash (BitTorrent v2).
    pub fn info_hash_v2(&self) -> (r: [u8; 32])
        ensures
            r@ == sha256_of(encode(info_hybrid_value(self@))),
    {
        sha256(&self.to_bencode().encode())
    }
}

impl<'a> InfoV2<'a> {
    /// The `meta version` field.
    pub const META_VERSION: u8 = 2;
}

impl<'a> Torrent<'a> {
    /// Whether the torrent has v1 fields.
    pub fn is_v1(&self) -> (r: bool)
        ensures
            r == (self@.meta is V1 || self@.meta is Hybrid),
    {
        matches!(self.meta, TorrentMeta::V1 { .. } | TorrentMeta::Hybrid { .. })
    }

    /// Whether the torrent has v2 fields.
    pub fn is_v2(&self) -> (r: bool)
        ensures
            r == (self@.meta is V2 || self@.meta is Hybrid),
    {
        matches!(self.meta, TorrentMeta::V2 { .. } | TorrentMeta::Hybrid { .. })
    }

    /// Whether the torrent is hybrid.
    pub fn is_hybrid(&self) -> (r: bool)
        ensures
            r == (self@.meta is Hybrid),
    {
        matches!(self.meta, TorrentMeta::Hybrid { .. })
    }

    /// The tracker tiers; there are none if the field is absent.
    pub fn tracker_tiers(&self) -> (r: Vec<&TrackerTier>)
        ensures
            Seq::new(r@.len(), |i: int| r@[i]@) == match self@.tracker_tiers {
                Some(tiers) => tiers,
                None => Seq::empty(),
            },
    {
        let mut r: Vec<&TrackerTier> = Vec::new();
        if let Some(tiers) = &self.tracker_tiers {
            let mut i: usize = 0;
            while i < tiers.len()
                invariant
                    i <= tiers@.len(),
                    r@.len() == i,
                    forall|k: int| 0 <= k < i ==> (#[trigger] r@[k])@ == tiers@[k]@,
                decreases tiers@.len() - i,
            {
                r.push(&tiers[i]);
                i = i + 1;
            }
            assert(Seq::new(r@.len(), |i: int| r@[i]@) =~= views(tiers@));
        } else {
            assert(Seq::new(r@.len(), |i: int| r@[i]@) =~= Seq::empty());
        }
        r
    }

    /// The SHA-1 info hash of a torrent with v1 fields.
    pub fn info_hash_v1(&self) -> (r: Option<[u8; 20]>)
        ensures
            match r {
                Some(h) => !(self@.meta is V2) && h@ == sha1_of(encode(info_value(self@.meta))),
                None => self@.meta is V2,
            },
    {
        match &self.meta {
            TorrentMeta::V1 { info } => Some(info.info_hash()),
            TorrentMeta::Hybrid { info, .. } => Some(info.info_hash_v1()),
            TorrentMeta::V2 { .. } => None,
        }
    }

    /// The SHA-256 info hash of a torrent with v2 fields.
    pub fn info_hash_v2(&self) -> (r: Option<[u8; 32]>)
        ensures
            match r {
                Some(h) => !(self@.meta is V1) && h@ == sha256_of(encode(info_value(self@.meta))),
                None => self@.meta is V1,
            },
    {
        match &self.meta {
            TorrentMeta::V2 { info, .. } => Some(info.info_hash()),
            TorrentMeta::Hybrid { info, .. } => Some(info.info_hash_v2()),
            TorrentMeta::V1 { .. } => None,
        }
    }

    /// The total length of the files in bytes.
    pub fn total_size(&self) -> (r: u64)
        requires
            meta_size(self@.meta) <= u64::MAX,
        ensures
            r == meta_size(self@.meta),
    {
        match self.checked_total_size() {
            Some(n) => n,
            None => 0,
        }
    }

    /// The total length of the files in bytes, if it fits.
    pub fn checked_total_size(&self) -> (r: Option<u64>)
        ensures
            match r {
                Some(n) => n == meta_size(self@.meta),
                None => meta_size(self@.meta) > u64::MAX,
            },
    {
        match &self.meta {
            TorrentMeta::V1 { info } => match &info.kind.file_mode {
                FileMode::Single { length, .. } => Some(*length),
                FileMode::Multi { files } => sum_lengths(files),
            },
            TorrentMeta::V2 { info, .. } => info.kind.file_tree.checked_total_size(),
            TorrentMeta::Hybrid { info, .. } => info.kind.v2.file_tree.checked_total_size(),
        }
    }

    /// The number of files.
    pub fn file_count(&self) -> (r: usize)
        requires
            meta_files(self@.meta) <= usize::MAX,
        ensures
            r == meta_files(self@.meta),
    {
        match &self.meta {
            TorrentMeta::V1 { info } => match &info.kind.file_mode {
                FileMode::Single { .. } => 1,
                FileMode::Multi { files } => files.len(),
            },
            TorrentMeta::V2 { info, .. } => info.kind.file_tree.file_count(),
            TorrentMeta::Hybrid { info, .. } => info.kind.v2.file_tree.file_count(),
        }
    }

    /// The name.
    pub fn name(&self) -> (r: &Cow<'a, str>)
        ensures
            r@ == meta_name(self@.meta),
    {
        match &self.meta {
            TorrentMeta::V1 { info } => &info.name,
            TorrentMeta::V2 { info, .. } => &info.name,
            TorrentMeta::Hybrid { info, .. } => &info.name,
        }
    }

    /// Sets the name. This changes the info hash.
    pub fn set_name(&mut self, name: &str)
        ensures
            final(self)@ == (TorrentModel {
                meta: with_name(old(self)@.meta, name@),
                ..old(self)@
            }),
    {
        let name: Cow<'a, str> = Cow::Owned(name.to_owned());
        match &mut self.meta {
            TorrentMeta::V1 { info } => {
                info.name = name;
            },
            TorrentMeta::V2 { info, .. } => {
                info.name = name;
            },
            TorrentMeta::Hybrid { info, .. } => {
                info.name = name;
            },
        }
    }

    /// The piece length. It cannot be changed, for that would invalidate all hashes.
    pub fn piece_length(&self) -> (r: NonZeroU64)
        ensures
            r@ == meta_piece_length(self@.meta),
    {
        match &self.meta {
            TorrentMeta::V1 { info } => info.piece_length,
            TorrentMeta::V2 { info, .. } => info.piece_length,
            TorrentMeta::Hybrid { info, .. } => info.piece_length,
        }
    }

    /// Whether the torrent is private.
    pub fn private(&self) -> (r: bool)
        ensures
            r == meta_private(self@.meta),
    {
        match &self.meta {
            TorrentMeta::V1 { info } => info.private,
            TorrentMeta::V2 { info, .. } => info.private,
            TorrentMeta::Hybrid { info, .. } => info.private,
        }
    }

    /// Sets whether the torrent is private. This changes the info hash.
    pub fn set_private(&mut self, private: bool)
        ensures
            final(self)@ == (TorrentModel {
                meta: with_private(old(self)@.meta, private),
                ..old(self)@
            }),
    {
        match &mut self.meta {
            TorrentMeta::V1 { info } => {
                info.private = private;
            },
            TorrentMeta::V2 { info, .. } => {
                info.private = private;
            },
            TorrentMeta::Hybrid { info, .. } => {
                info.private = private;
            },
        }
    }

    /// The `source` field.
    pub fn source(&self) -> (r: Option<&Cow<'a, str>>)
        ensures
            match r {
                Some(s) => meta_source(self@.meta) == Some(s@),
                None => meta_source(self@.meta) is None,
            },
    {
        let source: &Option<Cow<'a, str>> = match &self.meta {
            TorrentMeta::V1 { info } => &info.source,
            TorrentMeta::V2 { info, .. } => &info.source,
            TorrentMeta::Hybrid { info, .. } => &info.source,
        };
        match source {
            Some(s) => Some(s),
            None => None,
        }
    }

    /// Sets the `source` field. This changes the info hash.
    pub fn set_source(&mut self, source: &str)
        ensures
            final(self)@ == (TorrentModel {
                meta: with_source(old(self)@.meta, Some(source@)),
                ..old(self)@
            }),
    {
        let source: Option<Cow<'a, str>> = Some(Cow::Owned(source.to_owned()));
        match &mut self.meta {
            TorrentMeta::V1 { info } => {
                info.source = source;
            },
            TorrentMeta::V2 { info, .. } => {
                info.source = source;
            },
            TorrentMeta::Hybrid { info, .. } => {
                info.source = source;
            },
        }
    }
}

} // verus!
