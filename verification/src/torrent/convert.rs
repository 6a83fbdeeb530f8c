//! Conversions between torrent metainfo and Bencode elements.
use vstd::prelude::*;
use vstd::std_specs::convert::{FromSpecImpl, TryFromSpecImpl};

use crate::bencode::element::Bencode;
use crate::bencode::model::{valid, Value};
use crate::torrent::borrow::{file_info_borrows, leaf_borrows, torrent_borrows, tree_borrows};
use crate::torrent::error::{same, Error};
use crate::torrent::files::file_info_of;
use crate::torrent::model::NodeModel;
use crate::torrent::read::torrent_of;
use crate::torrent::tree::{leaf_of, tree_of};
use crate::torrent::types::{
    FileInfo, FileLeaf, FileTree, FileTreeNode, Info, InfoHybrid, InfoV1, InfoV2, PieceLayers,
    Torrent,
};
use crate::torrent::write::{
    file_info_value, info_hybrid_value, info_v1_value, info_v2_value, layers_value, leaf_value,
    named_leaf_value, torrent_value, tree_entries,
};

verus! {

impl<'a> TryFromSpecImpl<Bencode<'a>> for Torrent<'a> {
    open spec fn obeys_try_from_spec() -> bool {
        false
    }

    open spec fn try_from_spec(v: Bencode<'a>) -> Result<Self, Error> {
        arbitrary()
    }
}

impl<'a> TryFrom<Bencode<'a>> for Torrent<'a> {
    type Error = Error;

    /// Reads a torrent.
    ///
    /// # Errors
    ///
    /// - A mandatory field is missing, or a field is of the wrong kind or has an illegal value.
    /// - Some v1 or v2 fields are there, but not all of them.
    /// - The v1 and v2 fields of a hybrid torrent list different files.
    fn try_from(bencode: Bencode<'a>) -> (r: Result<Self, Error>)
        ensures
            same(r, torrent_of(bencode@)),
            r matches Ok(torrent) ==> torrent_borrows(torrent),
    {
        Torrent::read(&bencode)
    }
}

impl<'a> TryFromSpecImpl<Bencode<'a>> for FileInfo<'a> {
    open spec fn obeys_try_from_spec() -> bool {
        false
    }

    open spec fn try_from_spec(v: Bencode<'a>) -> Result<Self, Error> {
        arbitrary()
    }
}

impl<'a> TryFrom<Bencode<'a>> for FileInfo<'a> {
    type Error = Error;

    /// Reads a file information dictionary.
    fn try_from(bencode: Bencode<'a>) -> (r: Result<Self, Error>)
        ensures
            same(r, file_info_of(bencode@)),
            r matches Ok(info) ==> file_info_borrows(info),
    {
        FileInfo::read(&bencode)
    }
}

impl<'a> TryFromSpecImpl<Bencode<'a>> for FileTree<'a> {
    open spec fn obeys_try_from_spec() -> bool {
        false
    }

    open spec fn try_from_spec(v: Bencode<'a>) -> Result<Self, Error> {
        arbitrary()
    }
}

impl<'a> TryFrom<Bencode<'a>> for FileTree<'a> {
    type Error = Error;

    /// Reads a file tree.
    fn try_from(bencode: Bencode<'a>) -> (r: Result<Self, Error>)
        ensures
            same(r, tree_of(bencode@)),
            r matches Ok(tree) ==> tree_borrows(tree),
    {
        FileTree::read(&bencode)
    }
}

impl<'a> TryFromSpecImpl<Bencode<'a>> for FileLeaf<'a> {
    open spec fn obeys_try_from_spec() -> bool {
        false
    }

    open spec fn try_from_spec(v: Bencode<'a>) -> Result<Self, Error> {
        arbitrary()
    }
}

impl<'a> TryFrom<Bencode<'a>> for FileLeaf<'a> {
    type Error = Error;

    /// Reads a file leaf.
    fn try_from(bencode: Bencode<'a>) -> (r: Result<Self, Error>)
        ensures
            same(r, leaf_of(bencode@)),
            r matches Ok(leaf) ==> leaf_borrows(leaf),
    {
        FileLeaf::read(&bencode)
    }
}

impl<'b, 'a> FromSpecImpl<&'b Torrent<'a>> for Bencode<'b> {
    open spec fn obeys_from_spec() -> bool {
        false
    }

    open spec fn from_spec(v: &'b Torrent<'a>) -> Self {
        arbitrary()
    }
}

impl<'b, 'a> From<&'b Torrent<'a>> for Bencode<'b> {
    fn from(torrent: &'b Torrent<'a>) -> (r: Self)
        ensures
            r@ == torrent_value(torrent@),
            valid(r@),
    {
        torrent.to_bencode()
    }
}

impl<'b, 'a> FromSpecImpl<&'b PieceLayers<'a>> for Bencode<'b> {
    open spec fn obeys_from_spec() -> bool {
        false
    }

    open spec fn from_spec(v: &'b PieceLayers<'a>) -> Self {
        arbitrary()
    }
}

impl<'b, 'a> From<&'b PieceLayers<'a>> for Bencode<'b> {
    fn from(layers: &'b PieceLayers<'a>) -> (r: Self)
        ensures
            r@ == layers_value(layers@),
            valid(r@),
    {
        layers.to_bencode()
    }
}

impl<'b, 'a> FromSpecImpl<&'b Info<'a, InfoV1<'a>>> for Bencode<'b> {
    open spec fn obeys_from_spec() -> bool {
        false
    }

    open spec fn from_spec(v: &'b Info<'a, InfoV1<'a>>) -> Self {
        arbitrary()
    }
}

impl<'b, 'a> From<&'b Info<'a, InfoV1<'a>>> for Bencode<'b> {
    fn from(info: &'b Info<'a, InfoV1<'a>>) -> (r: Self)
        ensures
            r@ == info_v1_value(info@),
            valid(r@),
    {
        info.to_bencode()
    }
}

impl<'b, 'a> FromSpecImpl<&'b Info<'a, InfoV2<'a>>> for Bencode<'b> {
    open spec fn obeys_from_spec() -> bool {
        false
    }

    open spec fn from_spec(v: &'b Info<'a, InfoV2<'a>>) -> Self {
        arbitrary()
    }
}

impl<'b, 'a> From<&'b Info<'a, InfoV2<'a>>> for Bencode<'b> {
    fn from(info: &'b Info<'a, InfoV2<'a>>) -> (r: Self)
        ensures
            r@ == info_v2_value(info@),
            valid(r@),
    {
        info.to_bencode()
    }
}

impl<'b, 'a> FromSpecImpl<&'b Info<'a, InfoHybrid<'a>>> for Bencode<'b> {
    open spec fn obeys_from_spec() -> bool {
        false
    }

    open spec fn from_spec(v: &'b Info<'a, InfoHybrid<'a>>) -> Self {
        arbitrary()
    }
}

impl<'b, 'a> From<&'b Info<'a, InfoHybrid<'a>>> for Bencode<'b> {
    fn from(info: &'b Info<'a, InfoHybrid<'a>>) -> (r: Self)
        ensures
            r@ == info_hybrid_value(info@),
            valid(r@),
    {
        info.to_bencode()
    }
}

impl<'b, 'a> FromSpecImpl<&'b FileInfo<'a>> for Bencode<'b> {
    open spec fn obeys_from_spec() -> bool {
        false
    }

    open spec fn from_spec(v: &'b FileInfo<'a>) -> Self {
        arbitrary()
    }
}

impl<'b, 'a> From<&'b FileInfo<'a>> for Bencode<'b> {
    fn from(file_info: &'b FileInfo<'a>) -> (r: Self)
        ensures
            r@ == file_info_value(file_info@),
            valid(r@),
    {
        file_info.to_bencode()
    }
}

impl<'b, 'a> FromSpecImpl<&'b FileTree<'a>> for Bencode<'b> {
    open spec fn obeys_from_spec() -> bool {
        false
    }

    open spec fn from_spec(v: &'b FileTree<'a>) -> Self {
        arbitrary()
    }
}

impl<'b, 'a> From<&'b FileTree<'a>> for Bencode<'b> {
    fn from(tree: &'b FileTree<'a>) -> (r: Self)
        ensures
            r@ == Value::Dict(tree_entries(tree@)),
            valid(r@),
    {
        tree.to_bencode()
    }
}

impl<'b, 'a> FromSpecImpl<&'b FileTreeNode<'a>> for Bencode<'b> {
    open spec fn obeys_from_spec() -> bool {
        false
    }

    open spec fn from_spec(v: &'b FileTreeNode<'a>) -> Self {
        arbitrary()
    }
}

impl<'b, 'a> From<&'b FileTreeNode<'a>> for Bencode<'b> {
    fn from(node: &'b FileTreeNode<'a>) -> (r: Self)
        ensures
            r@ == match node@ {
                NodeModel::Directory(tree) => Value::Dict(tree_entries(tree)),
                NodeModel::File(leaf) => named_leaf_value(leaf),
            },
            valid(r@),
    {
        node.to_bencode()
    }
}

impl<'b, 'a> FromSpecImpl<&'b FileLeaf<'a>> for Bencode<'b> {
    open spec fn obeys_from_spec() -> bool {
        false
    }

    open spec fn from_spec(v: &'b FileLeaf<'a>) -> Self {
        arbitrary()
    }
}

impl<'b, 'a> From<&'b FileLeaf<'a>> for Bencode<'b> {
    fn from(leaf: &'b FileLeaf<'a>) -> (r: Self)
        ensures
            r@ == leaf_value(leaf@),
            valid(r@),
    {
        leaf.to_bencode()
    }
}

} // verus!
