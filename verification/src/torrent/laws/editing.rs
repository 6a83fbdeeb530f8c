//! What the setters of a torrent change, and what they leave alone.
use vstd::prelude::*;

use crate::torrent::model::{MetaModel, TreeModel, V1Model};
use crate::torrent::query::{
    meta_files, meta_name, meta_piece_length, meta_private, meta_size, meta_source, with_name,
    with_private, with_source,
};
use crate::torrent::write::meta_layers;

verus! {

/// The v1 fields of a torrent.
pub open spec fn v1_fields_of(meta: MetaModel) -> Option<V1Model> {
    match meta {
        MetaModel::V1 { info } => Some(info.kind),
        MetaModel::V2 { .. } => None,
        MetaModel::Hybrid { info, .. } => Some(info.kind.v1),
    }
}

/// The file tree of a torrent.
pub open spec fn file_tree_of(meta: MetaModel) -> Option<TreeModel> {
    match meta {
        MetaModel::V1 { .. } => None,
        MetaModel::V2 { info, .. } => Some(info.kind.file_tree),
        MetaModel::Hybrid { info, .. } => Some(info.kind.v2.file_tree),
    }
}

/// Two torrents of the same version have the same files, hashes and piece length.
pub open spec fn same_contents(a: MetaModel, b: MetaModel) -> bool {
    &&& (a is V1) == (b is V1)
    &&& (a is V2) == (b is V2)
    &&& (a is Hybrid) == (b is Hybrid)
    &&& v1_fields_of(a) == v1_fields_of(b)
    &&& file_tree_of(a) == file_tree_of(b)
    &&& meta_layers(a) == meta_layers(b)
    &&& meta_piece_length(a) == meta_piece_length(b)
    &&& meta_size(a) == meta_size(b)
    &&& meta_files(a) == meta_files(b)
}

/// A torrent is told apart from others by its version, name, piece length, `private` and `source`
/// fields, files, hashes and piece layers.
pub proof fn law_fields_make_up_metainfo(a: MetaModel, b: MetaModel)
    requires
        same_contents(a, b),
        meta_name(a) == meta_name(b),
        meta_private(a) == meta_private(b),
        meta_source(a) == meta_source(b),
    ensures
        a == b,
{
}

/// After the name has been set it is the new one, whatever the version of the torrent. Nothing
/// else has changed.
pub proof fn law_set_name(meta: MetaModel, name: Seq<char>)
    ensures
        meta_name(with_name(meta, name)) == name,
        meta_private(with_name(meta, name)) == meta_private(meta),
        meta_source(with_name(meta, name)) == meta_source(meta),
        same_contents(with_name(meta, name), meta),
        with_name(with_name(meta, name), meta_name(meta)) == meta,
{
}

/// After the `private` field has been set it is the new one, whatever the version of the torrent.
/// Nothing else has changed.
pub proof fn law_set_private(meta: MetaModel, private: bool)
    ensures
        meta_private(with_private(meta, private)) == private,
        meta_name(with_private(meta, private)) == meta_name(meta),
        meta_source(with_private(meta, private)) == meta_source(meta),
        same_contents(with_private(meta, private), meta),
        with_private(with_private(meta, private), meta_private(meta)) == meta,
{
}

/// After the `source` field has been set it is the new one, whatever the version of the torrent.
/// Nothing else has changed.
pub proof fn law_set_source(meta: MetaModel, source: Option<Seq<char>>)
    ensures
        meta_source(with_source(meta, source)) == source,
        meta_name(with_source(meta, source)) == meta_name(meta),
        meta_private(with_source(meta, source)) == meta_private(meta),
        same_contents(with_source(meta, source), meta),
        with_source(with_source(meta, source), meta_source(meta)) == meta,
{
}

} // verus!
