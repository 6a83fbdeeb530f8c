//! The file tree and the piece layers of a torrent that is built.
use std::borrow::Cow;

use vstd::prelude::*;
use vstd::utf8::{encode_utf8, valid_utf8};

use crate::chunks::{arrays, flat};
use crate::path::{part_text, Component, FilePath, Part};
use crate::sorted_map::{
    entry, lemma_views_entry, lemma_views_with_entry, lemma_with_entry_twice, value_views,
    with_entry, SortedMap,
};
use crate::sorting::views;
use crate::text::from_utf8;
use crate::torrent::builder::layout::{EntryModel, FileEntry};
use crate::torrent::builder::merkle::{FileHashes, V2FileHashes};
use crate::torrent::model::{LayersModel, LeafModel, NodeModel, TreeModel};
use crate::torrent::types::{lemma_directory, FileLeaf, FileTree, FileTreeNode, PieceLayers};

verus! {

/// The names on a path.
pub open spec fn names_of(path: Seq<Part>) -> Seq<Seq<u8>> {
    Seq::new(path.len(), |i: int| part_text(path[i]))
}

/// All names on a path are valid UTF-8.
pub open spec fn utf8_path(path: Seq<Part>) -> bool {
    forall|i: int| 0 <= i < path.len() ==> valid_utf8(part_text(#[trigger] path[i]))
}

/// A path ends with the name of a file.
pub open spec fn has_file_name(path: Seq<Part>) -> bool {
    path.len() > 0 && path.last() is Normal
}

/// One path leads through another.
pub open spec fn leads_through(path: Seq<Part>, other: Seq<Part>) -> bool {
    other.len() < path.len() && names_of(other).is_prefix_of(names_of(path))
}

/// No file is listed behind another that stands where one of its directories should be.
pub open spec fn no_clash(files: Seq<EntryModel>) -> bool {
    forall|i: int, j: int|
        0 <= i < j < files.len() ==> !leads_through(
            (#[trigger] files[j]).meta_path,
            (#[trigger] files[i]).meta_path,
        )
}

/// A tree after a file has been put into a directory. The directories on the way to it are made
/// where they are missing.
pub open spec fn with_file(
    tree: TreeModel,
    dirs: Seq<Seq<u8>>,
    name: Seq<u8>,
    leaf: LeafModel,
) -> TreeModel
    decreases dirs.len(),
{
    if dirs.len() == 0 {
        with_entry(tree, name, NodeModel::File(leaf))
    } else {
        let sub = match entry(tree, dirs[0]) {
            Some(NodeModel::Directory(sub)) => sub,
            _ => Seq::empty(),
        };
        with_entry(
            tree,
            dirs[0],
            NodeModel::Directory(with_file(sub, dirs.skip(1), name, leaf)),
        )
    }
}

/// The leaf of a file.
pub open spec fn leaf_with(length: u64, hashes: FileHashes) -> LeafModel {
    LeafModel {
        length,
        pieces_root: match hashes {
            FileHashes::Empty => None,
            FileHashes::SinglePiece(root) => Some(root),
            FileHashes::MultiPiece(root, _) => Some(root),
        },
    }
}

/// The tree of some files with their hashes.
pub open spec fn file_tree(files: Seq<EntryModel>, hashes: Seq<FileHashes>) -> TreeModel
    decreases files.len(),
{
    if files.len() == 0 {
        Seq::empty()
    } else {
        let f = files.last();
        let names = names_of(f.meta_path);
        with_file(
            file_tree(files.drop_last(), hashes),
            names.drop_last(),
            names.last(),
            leaf_with(f.length, hashes[files.len() - 1]),
        )
    }
}

/// The piece layers of some files: those of more than one piece have one, under their root.
pub open spec fn layers_with(hashes: Seq<FileHashes>) -> LayersModel
    decreases hashes.len(),
{
    if hashes.len() == 0 {
        Seq::empty()
    } else {
        let layers = layers_with(hashes.drop_last());
        match hashes.last() {
            FileHashes::MultiPiece(root, layer) => with_entry(layers, root, flat(layer)),
            _ => layers,
        }
    }
}

/// The text of a component, if it is valid UTF-8.
pub(crate) fn component_text(component: &Component) -> (r: Option<String>)
    ensures
        match r {
            Some(s) => valid_utf8(part_text(component@)) && encode_utf8(s@) == part_text(
                component@,
            ),
            None => !valid_utf8(part_text(component@)),
        },
{
    let bytes: Vec<u8> = component.to_bytes();
    match from_utf8(&bytes) {
        Ok(s) => Some(s.to_owned()),
        Err(_) => None,
    }
}

/// Whether `path` leads through `other`.
fn passes(path: &FilePath, other: &FilePath) -> (r: bool)
    ensures
        r == leads_through(path@, other@),
{
    if other.len() >= path.len() {
        return false;
    }
    let mut i: usize = 0;
    while i < other.len()
        invariant
            i <= other@.len() < path@.len(),
            forall|k: int| 0 <= k < i ==> part_text(path@[k]) == part_text(other@[k]),
        decreases other@.len() - i,
    {
        if !crate::lex::bytes_eq(&path.component(i).to_bytes(), &other.component(i).to_bytes()) {
            assert(names_of(path@).subrange(0, other@.len() as int)[i as int] != names_of(
                other@,
            )[i as int]);
            return false;
        }
        i = i + 1;
    }
    assert(names_of(path@).subrange(0, other@.len() as int) =~= names_of(other@));
    true
}

/// Whether no file stands in the way of another.
pub fn fits_in_tree(files: &[FileEntry]) -> (r: bool)
    ensures
        r == no_clash(views(files@)),
{
    let ghost all = views(files@);
    let mut j: usize = 0;
    while j < files.len()
        invariant
            j <= files@.len(),
            all == views(files@),
            forall|a: int, b: int|
                0 <= a < b < j ==> !leads_through(
                    (#[trigger] all[b]).meta_path,
                    (#[trigger] all[a]).meta_path,
                ),
        decreases files@.len() - j,
    {
        let mut i: usize = 0;
        while i < j
            invariant
                i <= j < files@.len(),
                all == views(files@),
                forall|a: int|
                    0 <= a < i ==> !leads_through(
                        all[j as int].meta_path,
                        (#[trigger] all[a]).meta_path,
                    ),
            decreases j - i,
        {
            if passes(&files[j].meta_path, &files[i].meta_path) {
                assert(leads_through(all[j as int].meta_path, all[i as int].meta_path));
                return false;
            }
            i = i + 1;
        }
        j = j + 1;
    }
    true
}

/// Puts a file into a tree, at what follows the first `i` components of its path.
fn insert_file(
    tree: FileTree<'static>,
    path: &FilePath,
    i: usize,
    leaf: FileLeaf<'static>,
) -> (r: FileTree<'static>)
    requires
        i < path@.len(),
        utf8_path(path@),
    ensures
        r@ == with_file(
            tree@,
            names_of(path@).subrange(i as int, path@.len() - 1),
            names_of(path@).last(),
            leaf@,
        ),
    decreases path@.len() - i,
{
    let ghost dirs = names_of(path@).subrange(i as int, path@.len() - 1);
    let ghost before = tree@;
    let component: &Component = path.component(i);
    let name: String = match component_text(component) {
        Some(name) => name,
        None => {
            proof {
                assert(valid_utf8(part_text(path@[i as int])));
                assert(false);
            }
            return tree;
        },
    };
    let mut map: SortedMap<Cow<'static, str>, FileTreeNode<'static>> = tree.0;
    let ghost map0 = map@;
    assert(value_views(map0) =~= before);
    if i == path.len() - 1 {
        let node: FileTreeNode<'static> = FileTreeNode::File(leaf);
        let _ = map.insert(Cow::Owned(name), node);
        proof {
            assert(dirs.len() == 0);
            lemma_views_with_entry(map0, part_text(component@), node);
            assert(value_views(map@) =~= FileTree(map)@);
        }
        return FileTree(map);
    }
    let ghost key = part_text(component@);
    let first: Cow<'static, str> = Cow::Owned(name.clone());
    let empty: FileTreeNode<'static> = FileTreeNode::Directory(FileTree::default());
    let sub: FileTree<'static> = match map.insert(first, empty) {
        Some(FileTreeNode::Directory(sub)) => sub,
        _ => FileTree::default(),
    };
    let ghost map1 = map@;
    proof {
        lemma_views_entry(map0, key);
        assert(dirs[0] == key);
        assert(dirs.skip(1) =~= names_of(path@).subrange(i + 1, path@.len() - 1));
        if let Some(FileTreeNode::Directory(t)) = entry(map0, key) {
            lemma_directory(t);
        }
    }
    let ghost inner = match entry(before, key) {
        Some(NodeModel::Directory(sub)) => sub,
        _ => Seq::empty(),
    };
    assert(sub@ =~= inner);
    let sub: FileTree<'static> = insert_file(sub, path, i + 1, leaf);
    proof {
        lemma_directory(sub);
    }
    let node: FileTreeNode<'static> = FileTreeNode::Directory(sub);
    let _ = map.insert(Cow::Owned(name), node);
    proof {
        lemma_with_entry_twice(map0, key, empty, node);
        lemma_views_with_entry(map0, key, node);
        assert(value_views(map@) =~= FileTree(map)@);
    }
    FileTree(map)
}

/// Some hashes, one behind the other.
fn flatten(layer: &Vec<[u8; 32]>) -> (r: Vec<u8>)
    ensures
        r@ == flat(arrays(layer@)),
{
    let ghost all = arrays(layer@);
    let mut r: Vec<u8> = Vec::new();
    let mut i: usize = 0;
    assert(all.take(0) =~= Seq::<Seq<u8>>::empty());
    while i < layer.len()
        invariant
            i <= layer@.len(),
            all == arrays(layer@),
            r@ == flat(all.take(i as int)),
        decreases layer@.len() - i,
    {
        let ghost before = r@;
        r.extend_from_slice(layer[i].as_slice());
        proof {
            let t = all.take(i + 1);
            assert(t.drop_last() =~= all.take(i as int));
            assert(t.last() == layer@[i as int]@);
            assert(r@ =~= before + layer@[i as int]@);
        }
        i = i + 1;
    }
    assert(all.take(i as int) =~= all);
    r
}

/// The file tree and the piece layers of some files with their hashes.
pub fn v2_file_tree_and_piece_layers(
    files: &[FileEntry],
    hashes: &[V2FileHashes],
) -> (r: (FileTree<'static>, PieceLayers<'static>))
    requires
        files@.len() == hashes@.len(),
        no_clash(views(files@)),
        forall|i: int|
            0 <= i < files@.len() ==> has_file_name((#[trigger] files@[i]).meta_path@)
                && utf8_path(files@[i].meta_path@),
    ensures
        r.0@ == file_tree(views(files@), views(hashes@)),
        r.1@ == layers_with(views(hashes@)),
{
    let ghost all = views(files@);
    let ghost sums = views(hashes@);
    let mut tree: FileTree<'static> = FileTree::default();
    let mut layers: SortedMap<[u8; 32], Cow<'static, [u8]>> = SortedMap::new();
    let mut i: usize = 0;
    proof {
        assert(all.take(0) =~= Seq::<EntryModel>::empty());
        assert(sums.take(0) =~= Seq::<FileHashes>::empty());
        assert(value_views(layers@) =~= Seq::<(Seq<u8>, Seq<u8>)>::empty());
    }
    while i < files.len()
        invariant
            i <= files@.len(),
            files@.len() == hashes@.len(),
            all == views(files@),
            sums == views(hashes@),
            forall|k: int|
                0 <= k < files@.len() ==> has_file_name((#[trigger] files@[k]).meta_path@)
                    && utf8_path(files@[k].meta_path@),
            tree@ == file_tree(all.take(i as int), sums),
            value_views(layers@) == layers_with(sums.take(i as int)),
        decreases files@.len() - i,
    {
        let file: &FileEntry = &files[i];
        let pieces_root: Option<Cow<'static, [u8; 32]>> = match &hashes[i] {
            V2FileHashes::Empty => None,
            V2FileHashes::SinglePiece { root } => Some(Cow::Owned(*root)),
            V2FileHashes::MultiPiece { root, .. } => Some(Cow::Owned(*root)),
        };
        let leaf: FileLeaf<'static> = FileLeaf { length: file.length, pieces_root };
        proof {
            let t = all.take(i + 1);
            assert(t.drop_last() =~= all.take(i as int));
            assert(t.last() == file@);
            let s = sums.take(i + 1);
            assert(s.drop_last() =~= sums.take(i as int));
            assert(s.last() == hashes@[i as int]@);
            let names = names_of(file.meta_path@);
            assert(names.subrange(0, names.len() - 1) =~= names.drop_last());
            assert(leaf@ =~= leaf_with(file.length, sums[i as int]));
        }
        tree = insert_file(tree, &file.meta_path, 0, leaf);
        if let V2FileHashes::MultiPiece { root, layer } = &hashes[i] {
            let ghost before = layers@;
            let bytes: Cow<'static, [u8]> = Cow::Owned(flatten(layer));
            let _ = layers.insert(*root, bytes);
            proof {
                lemma_views_with_entry(before, root@, bytes);
            }
        }
        i = i + 1;
    }
    assert(all.take(i as int) =~= all);
    assert(sums.take(i as int) =~= sums);
    let layers: PieceLayers<'static> = PieceLayers(layers);
    assert(layers@ =~= value_views(layers.0@));
    (tree, layers)
}

} // verus!
