//! The types of torrent metainfo.
use std::borrow::Cow;

use vstd::prelude::*;

use crate::chunks::arrays;
use crate::num::NonZeroU64;
use crate::sorted_map::SortedMap;
use crate::sorting::views;
use crate::torrent::attr::FileInfoAttr;
use crate::torrent::model::{
    FileInfoModel, FileModeModel, HybridModel, InfoModel, LayersModel, LeafModel, MetaModel,
    NodeModel, TorrentModel, TreeModel, V1Model, V2Model,
};
use crate::web::Url;

verus! {

/// A type whose lifetime can be made static.
pub trait IntoOwned: View + Sized {
    /// The static version of this type.
    type Owned: 'static + View<V = <Self as View>::V>;

    /// Turns this value into its owned version, which stands for the same.
    fn into_owned(self) -> (r: Self::Owned)
        ensures
            r@ == self@,
    ;
}

/// The text of an optional string.
pub open spec fn opt_text(s: Option<Cow<'_, str>>) -> Option<Seq<char>> {
    match s {
        Some(c) => Some(c@),
        None => None,
    }
}

/// Torrent metainfo.
///
/// All fields are optional except for [`Torrent::meta`], which stands for the `info` dictionary
/// and the `piece layers` field of v2-only and hybrid torrents.
#[derive(Debug, PartialEq, Eq)]
pub struct Torrent<'a> {
    /// Tiers of trackers.
    ///
    /// The trackers of the first tier are tried first. This is the `announce-list` field. The
    /// `announce` field is read only if there is no `announce-list`, as a single tier with a
    /// single tracker. The first tracker of the first tier is also written to `announce`.
    pub tracker_tiers: Option<Vec<TrackerTier>>,
    /// Web seeds, the `url-list` field.
    pub web_seeds: Option<Vec<Url>>,
    /// The creation date in seconds since the Unix epoch.
    pub creation_date: Option<u64>,
    /// A comment in free form.
    pub comment: Option<Cow<'a, str>>,
    /// The software that created the torrent file.
    pub created_by: Option<Cow<'a, str>>,
    /// The encoding of the strings.
    pub encoding: Option<Cow<'a, str>>,
    /// The `info` dictionary, and the `piece layers` of a v2-only or hybrid torrent.
    pub meta: TorrentMeta<'a>,
}

/// Required torrent metainfo.
#[derive(Debug, PartialEq, Eq)]
#[allow(inconsistent_fields)]
pub enum TorrentMeta<'a> {
    /// A v1-only torrent.
    V1 {
        /// An `info` dictionary with v1 fields.
        info: Info<'a, InfoV1<'a>>,
    },
    /// A v2-only torrent.
    V2 {
        /// An `info` dictionary with v2 fields.
        info: Info<'a, InfoV2<'a>>,
        /// The `piece layers` field.
        piece_layers: PieceLayers<'a>,
    },
    /// A hybrid torrent.
    Hybrid {
        /// An `info` dictionary with v1 and v2 fields.
        info: Info<'a, InfoHybrid<'a>>,
        /// The `piece layers` field.
        piece_layers: PieceLayers<'a>,
    },
}

/// An `info` dictionary.
#[derive(Debug, PartialEq, Eq)]
pub struct Info<'a, T: 'a> {
    /// The name of the file or of the top directory.
    pub name: Cow<'a, str>,
    /// The length of a piece in bytes. In v2 it is a power of two and at least 16 KiB.
    pub piece_length: NonZeroU64,
    /// Whether the torrent is private.
    pub private: bool,
    /// A string in free form that is usually used to modify the info hash.
    pub source: Option<Cow<'a, str>>,
    /// The fields of the version.
    pub kind: T,
}

/// The `info` fields of v1.
#[derive(Debug, PartialEq, Eq)]
pub struct InfoV1<'a> {
    /// The SHA-1 hashes of all pieces.
    pub pieces: Cow<'a, [[u8; 20]]>,
    /// The files.
    pub file_mode: FileMode<'a>,
}

/// The `info` fields of v2.
#[derive(Debug, PartialEq, Eq)]
pub struct InfoV2<'a> {
    /// The file tree.
    pub file_tree: FileTree<'a>,
}

/// The `info` fields of a hybrid torrent.
#[derive(Debug, PartialEq, Eq)]
pub struct InfoHybrid<'a> {
    /// The v1 fields.
    pub v1: InfoV1<'a>,
    /// The v2 fields.
    pub v2: InfoV2<'a>,
}

/// A tier of trackers. They should be shuffled before use.
#[derive(Debug, PartialEq, Eq)]
pub struct TrackerTier(
    /// The trackers.
    pub Vec<Url>,
);

/// The `piece layers` field of a v2-only or hybrid torrent.
#[derive(Debug, PartialEq, Eq)]
pub struct PieceLayers<'a>(
    /// The layers, ordered by root hash.
    pub SortedMap<[u8; 32], Cow<'a, [u8]>>,
);

/// The files of a torrent with v1 fields.
#[derive(Debug, PartialEq, Eq)]
pub enum FileMode<'a> {
    /// One file.
    Single {
        /// The length of the file in bytes.
        length: u64,
        /// An optional MD5 hash of the file.
        md5sum: Option<Cow<'a, str>>,
    },
    /// Several files.
    Multi {
        /// The file information dictionaries.
        files: Vec<FileInfo<'a>>,
    },
}

/// A file information dictionary.
#[derive(Debug, PartialEq, Eq)]
pub struct FileInfo<'a> {
    /// The attributes.
    pub attr: Option<FileInfoAttr>,
    /// The length of the file in bytes.
    pub length: u64,
    /// An optional MD5 hash of the file.
    pub md5sum: Option<Cow<'a, str>>,
    /// The components of the path.
    pub path: Vec<Cow<'a, str>>,
}

/// A file tree, the `file tree` field: a prefix tree of path components.
#[derive(Debug, PartialEq, Eq)]
pub struct FileTree<'a>(pub SortedMap<Cow<'a, str>, FileTreeNode<'a>>);

/// A node of a [`FileTree`].
#[derive(Debug, PartialEq, Eq)]
pub enum FileTreeNode<'a> {
    /// A directory.
    Directory(FileTree<'a>),
    /// A file.
    File(FileLeaf<'a>),
}

/// A file in a [`FileTree`].
#[derive(Debug, PartialEq, Eq)]
pub struct FileLeaf<'a> {
    /// The length of the file in bytes.
    pub length: u64,
    /// The root of the file's Merkle tree. A file that is not empty has one.
    pub pieces_root: Option<Cow<'a, [u8; 32]>>,
}

impl View for TrackerTier {
    type V = Seq<Seq<char>>;

    open spec fn view(&self) -> Seq<Seq<char>> {
        views(self.0@)
    }
}

/// The texts of some strings.
pub open spec fn texts(s: Seq<Cow<'_, str>>) -> Seq<Seq<char>> {
    Seq::new(s.len(), |i: int| s[i]@)
}

impl<'a> View for FileInfo<'a> {
    type V = FileInfoModel;

    open spec fn view(&self) -> FileInfoModel {
        FileInfoModel {
            attr: match self.attr {
                Some(a) => Some(a@),
                None => None,
            },
            length: self.length,
            md5sum: opt_text(self.md5sum),
            path: texts(self.path@),
        }
    }
}

impl<'a> View for FileMode<'a> {
    type V = FileModeModel;

    open spec fn view(&self) -> FileModeModel {
        match self {
            FileMode::Single { length, md5sum } => FileModeModel::Single {
                length: *length,
                md5sum: opt_text(*md5sum),
            },
            FileMode::Multi { files } => FileModeModel::Multi { files: views(files@) },
        }
    }
}

impl<'a> View for FileLeaf<'a> {
    type V = LeafModel;

    open spec fn view(&self) -> LeafModel {
        LeafModel {
            length: self.length,
            pieces_root: match self.pieces_root {
                Some(root) => Some(root@),
                None => None,
            },
        }
    }
}

/// The model of a node.
pub open spec fn node_of(node: FileTreeNode) -> NodeModel
    decreases node,
{
    match node {
        FileTreeNode::Directory(tree) => NodeModel::Directory(
            Seq::new(
                tree.0@.len(),
                |i: int|
                    if 0 <= i < tree.0@.len() {
                        proof {
                            tree.0.lemma_value_smaller(i);
                        }
                        (tree.0@[i].0, node_of(tree.0@[i].1))
                    } else {
                        arbitrary()
                    },
            ),
        ),
        FileTreeNode::File(leaf) => NodeModel::File(leaf@),
    }
}

impl<'a> View for FileTreeNode<'a> {
    type V = NodeModel;

    open spec fn view(&self) -> NodeModel {
        node_of(*self)
    }
}

impl<'a> View for FileTree<'a> {
    type V = TreeModel;

    open spec fn view(&self) -> TreeModel {
        Seq::new(self.0@.len(), |i: int| (self.0@[i].0, self.0@[i].1@))
    }
}

impl<'a> View for PieceLayers<'a> {
    type V = LayersModel;

    open spec fn view(&self) -> LayersModel {
        Seq::new(self.0@.len(), |i: int| (self.0@[i].0, self.0@[i].1@))
    }
}

impl<'a> View for InfoV1<'a> {
    type V = V1Model;

    open spec fn view(&self) -> V1Model {
        V1Model { pieces: arrays(self.pieces@), file_mode: self.file_mode@ }
    }
}

impl<'a> View for InfoV2<'a> {
    type V = V2Model;

    open spec fn view(&self) -> V2Model {
        V2Model { file_tree: self.file_tree@ }
    }
}

impl<'a> View for InfoHybrid<'a> {
    type V = HybridModel;

    open spec fn view(&self) -> HybridModel {
        HybridModel { v1: self.v1@, v2: self.v2@ }
    }
}

impl<'a, T: 'a + View> View for Info<'a, T> {
    type V = InfoModel<T::V>;

    open spec fn view(&self) -> InfoModel<T::V> {
        InfoModel {
            name: self.name@,
            piece_length: self.piece_length@,
            private: self.private,
            source: opt_text(self.source),
            kind: self.kind@,
        }
    }
}

impl<'a> View for TorrentMeta<'a> {
    type V = MetaModel;

    open spec fn view(&self) -> MetaModel {
        match self {
            TorrentMeta::V1 { info } => MetaModel::V1 { info: info@ },
            TorrentMeta::V2 { info, piece_layers } => MetaModel::V2 {
                info: info@,
                piece_layers: piece_layers@,
            },
            TorrentMeta::Hybrid { info, piece_layers } => MetaModel::Hybrid {
                info: info@,
                piece_layers: piece_layers@,
            },
        }
    }
}

impl<'a> View for Torrent<'a> {
    type V = TorrentModel;

    open spec fn view(&self) -> TorrentModel {
        TorrentModel {
            tracker_tiers: match self.tracker_tiers {
                Some(tiers) => Some(views(tiers@)),
                None => None,
            },
            web_seeds: match self.web_seeds {
                Some(urls) => Some(views(urls@)),
                None => None,
            },
            creation_date: self.creation_date,
            comment: opt_text(self.comment),
            created_by: opt_text(self.created_by),
            encoding: opt_text(self.encoding),
            meta: self.meta@,
        }
    }
}

/// A directory is larger than its nodes.
pub proof fn lemma_node_smaller(tree: FileTree, i: int)
    requires
        0 <= i < tree.0@.len(),
    ensures
        decreases_to!(tree => tree.0@[i].1),
{
    assert(decreases_to!(tree => tree.0));
    tree.0.lemma_value_smaller(i);
}

/// The model of a directory.
pub proof fn lemma_directory(tree: FileTree)
    ensures
        FileTreeNode::Directory(tree)@ == NodeModel::Directory(tree@),
{
    assert(node_of(FileTreeNode::Directory(tree))->Directory_0 =~= tree@);
}

} // verus!
