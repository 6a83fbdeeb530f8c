//! How long the files of a torrent are, and how many there are.
use vstd::prelude::*;

use crate::path::Part;
use crate::torrent::laws::editing::file_tree_of;
use crate::torrent::model::{
    FileInfoModel, FileModeModel, InfoModel, LeafModel, MetaModel, NodeModel, TreeModel, V1Model,
};
use crate::torrent::query::{files_size, meta_files, meta_size};
use crate::torrent::tree::{law_one_path_per_file, tree_files, tree_paths, tree_size};

verus! {

/// The lengths of files add up.
pub proof fn law_files_add_up(a: Seq<FileInfoModel>, b: Seq<FileInfoModel>, f: FileInfoModel)
    ensures
        files_size(a + b) == files_size(a) + files_size(b),
        files_size(seq![f]) == f.length,
        files_size(Seq::empty()) == 0,
    decreases b.len(),
{
    reveal_with_fuel(files_size, 2);
    assert(seq![f].drop_last() =~= Seq::<FileInfoModel>::empty());
    if b.len() == 0 {
        assert(a + b =~= a);
    } else {
        law_files_add_up(a, b.drop_last(), f);
        assert((a + b).drop_last() =~= a + b.drop_last());
        assert((a + b).last() == b.last());
    }
}

/// The lengths and numbers of files in trees add up. A directory counts as much as what it holds,
/// and a file as one file of its length.
pub proof fn law_trees_add_up(
    a: TreeModel,
    b: TreeModel,
    name: Seq<u8>,
    sub: TreeModel,
    leaf: LeafModel,
)
    ensures
        tree_size(a + b) == tree_size(a) + tree_size(b),
        tree_files(a + b) == tree_files(a) + tree_files(b),
        tree_size(seq![(name, NodeModel::Directory(sub))]) == tree_size(sub),
        tree_files(seq![(name, NodeModel::Directory(sub))]) == tree_files(sub),
        tree_size(seq![(name, NodeModel::File(leaf))]) == leaf.length,
        tree_files(seq![(name, NodeModel::File(leaf))]) == 1,
    decreases b.len(),
{
    reveal_with_fuel(tree_size, 2);
    reveal_with_fuel(tree_files, 2);
    reveal_with_fuel(crate::torrent::tree::node_size, 2);
    reveal_with_fuel(crate::torrent::tree::node_files, 2);
    let none = Seq::<(Seq<u8>, NodeModel)>::empty();
    assert(seq![(name, NodeModel::Directory(sub))].drop_last() =~= none);
    assert(seq![(name, NodeModel::File(leaf))].drop_last() =~= none);
    if b.len() == 0 {
        assert(a + b =~= a);
    } else {
        law_trees_add_up(a, b.drop_last(), name, sub, leaf);
        assert((a + b).drop_last() =~= a + b.drop_last());
        assert((a + b).last() == b.last());
    }
}

/// With a file tree, the size and the number of files are those of the tree, so that padding files
/// in the v1 fields do not count. There are as many files as paths.
pub proof fn law_the_tree_counts(meta: MetaModel)
    ensures
        file_tree_of(meta) matches Some(tree) ==> {
            &&& meta_size(meta) == tree_size(tree)
            &&& meta_files(meta) == tree_files(tree)
            &&& meta_files(meta) == tree_paths(Seq::<Part>::empty(), tree).len()
        },
{
    if let Some(tree) = file_tree_of(meta) {
        law_one_path_per_file(Seq::empty(), tree);
    }
}

/// Without a file tree, a single file counts as one file of its length, and listed files count as
/// the list does.
pub proof fn law_the_list_counts(info: InfoModel<V1Model>)
    ensures
        match info.kind.file_mode {
            FileModeModel::Single { length, .. } => {
                &&& meta_size(MetaModel::V1 { info }) == length
                &&& meta_files(MetaModel::V1 { info }) == 1
            },
            FileModeModel::Multi { files } => {
                &&& meta_size(MetaModel::V1 { info }) == files_size(files)
                &&& meta_files(MetaModel::V1 { info }) == files.len()
            },
        },
{
}

} // verus!
