//! The model of torrent metainfo.
use vstd::prelude::*;

use crate::torrent::attr::FileInfoAttrFlags;

verus! {

/// The model of a file information dictionary.
#[verifier::ext_equal]
pub ghost struct FileInfoModel {
    pub attr: Option<FileInfoAttrFlags>,
    pub length: u64,
    pub md5sum: Option<Seq<char>>,
    pub path: Seq<Seq<char>>,
}

/// The model of the files of a torrent with v1 fields.
#[verifier::ext_equal]
pub ghost enum FileModeModel {
    Single { length: u64, md5sum: Option<Seq<char>> },
    Multi { files: Seq<FileInfoModel> },
}

/// The model of a file leaf.
#[verifier::ext_equal]
pub ghost struct LeafModel {
    pub length: u64,
    pub pieces_root: Option<Seq<u8>>,
}

/// The model of a node of a file tree. The keys are the bytes of path components.
#[verifier::ext_equal]
pub ghost enum NodeModel {
    Directory(Seq<(Seq<u8>, NodeModel)>),
    File(LeafModel),
}

/// The model of a file tree.
pub type TreeModel = Seq<(Seq<u8>, NodeModel)>;

/// The model of the piece layers: from root hash to layer.
pub type LayersModel = Seq<(Seq<u8>, Seq<u8>)>;

/// The model of the v1 fields.
#[verifier::ext_equal]
pub ghost struct V1Model {
    pub pieces: Seq<Seq<u8>>,
    pub file_mode: FileModeModel,
}

/// The model of the v2 fields.
#[verifier::ext_equal]
pub ghost struct V2Model {
    pub file_tree: TreeModel,
}

/// The model of the fields of a hybrid torrent.
#[verifier::ext_equal]
pub ghost struct HybridModel {
    pub v1: V1Model,
    pub v2: V2Model,
}

/// The model of an `info` dictionary.
#[verifier::ext_equal]
pub ghost struct InfoModel<K> {
    pub name: Seq<char>,
    pub piece_length: u64,
    pub private: bool,
    pub source: Option<Seq<char>>,
    pub kind: K,
}

/// The model of what every torrent must have.
#[verifier::ext_equal]
#[allow(inconsistent_fields)]
pub ghost enum MetaModel {
    V1 { info: InfoModel<V1Model> },
    V2 { info: InfoModel<V2Model>, piece_layers: LayersModel },
    Hybrid { info: InfoModel<HybridModel>, piece_layers: LayersModel },
}

/// The model of a torrent.
#[verifier::ext_equal]
pub ghost struct TorrentModel {
    pub tracker_tiers: Option<Seq<Seq<Seq<char>>>>,
    pub web_seeds: Option<Seq<Seq<char>>>,
    pub creation_date: Option<u64>,
    pub comment: Option<Seq<char>>,
    pub created_by: Option<Seq<char>>,
    pub encoding: Option<Seq<char>>,
    pub meta: MetaModel,
}

} // verus!
