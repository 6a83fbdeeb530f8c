//! File trees: reading and counting.
use std::borrow::Cow;

use vstd::prelude::*;
use vstd::utf8::valid_utf8;

use crate::bencode::element::{entries_of, lemma_entry_smaller, Bencode};
use crate::bencode::model::Value;
use crate::chunks::as_array;
use crate::path::{join, FilePath, Part};
use crate::sorted_map::{lemma_slot_exists, lemma_with_entry_last, rises, ByteKey, SortedMap};
use crate::sorting::views;
use crate::text::from_utf8;
use crate::torrent::borrow::{leaf_borrows, node_borrows, tree_borrows};
use crate::torrent::error::{same, Error, Rejection};
use crate::torrent::fields::{
    bytes_of, dict_of, field, natural, natural_of, opt, require, required, Entries,
};
use crate::torrent::model::{LeafModel, NodeModel, TreeModel};
use crate::torrent::types::{
    lemma_directory, lemma_node_smaller, FileLeaf, FileTree, FileTreeNode,
};

verus! {

/// What a file leaf says. A file has a root exactly if it is not empty.
pub open spec fn leaf_of(v: Value) -> Result<LeafModel, Rejection> {
    match dict_of(v) {
        Err(e) => Err(e),
        Ok(d) => match required(d, "length") {
            Err(e) => Err(e),
            Ok(l) => match natural_of(l, "length") {
                Err(e) => Err(e),
                Ok(length) => match field(d, "pieces root") {
                    None => if length == 0 {
                        Ok(LeafModel { length, pieces_root: None })
                    } else {
                        Err(Rejection::InvalidFileTree)
                    },
                    Some(r) => if length == 0 {
                        Err(Rejection::InvalidFileTree)
                    } else {
                        match bytes_of(r) {
                            Err(e) => Err(e),
                            Ok(root) => if root.len() == 32 {
                                Ok(LeafModel { length, pieces_root: Some(root) })
                            } else {
                                Err(Rejection::IllegalFieldValue("pieces root"@))
                            },
                        }
                    },
                },
            },
        },
    }
}

/// What a file tree says.
pub open spec fn tree_of(v: Value) -> Result<TreeModel, Rejection>
    decreases v,
{
    match v {
        Value::Dict(entries) => nodes_of(entries),
        _ => match dict_of(v) {
            Err(e) => Err(e),
            Ok(_) => arbitrary(),
        },
    }
}

/// What the entries of a file tree say: an empty key leads to a file, any other one to a
/// directory.
pub open spec fn nodes_of(entries: Entries) -> Result<TreeModel, Rejection>
    decreases entries,
{
    if entries.len() == 0 {
        Ok(Seq::empty())
    } else {
        match nodes_of(entries.drop_last()) {
            Err(e) => Err(e),
            Ok(t) => {
                let (key, v) = entries.last();
                if !valid_utf8(key) {
                    Err(Rejection::Utf8)
                } else if key.len() == 0 {
                    match leaf_of(v) {
                        Err(e) => Err(e),
                        Ok(leaf) => Ok(t.push((key, NodeModel::File(leaf)))),
                    }
                } else {
                    match tree_of(v) {
                        Err(e) => Err(e),
                        Ok(sub) => Ok(t.push((key, NodeModel::Directory(sub)))),
                    }
                }
            },
        }
    }
}

/// The first error is the error of the whole.
proof fn lemma_nodes_error(entries: Entries, k: int)
    requires
        0 <= k <= entries.len(),
        nodes_of(entries.take(k)) is Err,
    ensures
        nodes_of(entries) == nodes_of(entries.take(k)),
    decreases entries.len() - k,
{
    if k < entries.len() {
        assert(entries.take(k + 1).drop_last() =~= entries.take(k));
        lemma_nodes_error(entries, k + 1);
    } else {
        assert(entries.take(k) =~= entries);
    }
}

impl<'a> FileLeaf<'a> {
    /// Reads a file leaf.
    pub(crate) fn read(bencode: &Bencode<'a>) -> (r: Result<FileLeaf<'a>, Error>)
        ensures
            same(r, leaf_of(bencode@)),
            r matches Ok(leaf) ==> leaf_borrows(leaf),
    {
        let dict = match bencode.as_dict() {
            Ok(dict) => dict,
            Err(e) => return Err(Error::Bencode(e)),
        };
        let length: u64 = match require(dict, "length") {
            Err(e) => return Err(e),
            Ok(b) => match natural(b, "length") {
                Err(e) => return Err(e),
                Ok(length) => length,
            },
        };
        match opt(dict, "pieces root") {
            None => if length == 0 {
                Ok(FileLeaf { length: 0, pieces_root: None })
            } else {
                Err(Error::InvalidFileTree)
            },
            Some(b) => if length == 0 {
                Err(Error::InvalidFileTree)
            } else {
                match b.as_bytes() {
                    Err(e) => Err(Error::Bencode(e)),
                    Ok(bytes) => match as_array(bytes) {
                        Some(root) => {
                            assert(root@.len() == 32);
                            Ok(FileLeaf { length, pieces_root: Some(Cow::Borrowed(root)) })
                        },
                        None => Err(Error::IllegalFieldValue("pieces root")),
                    },
                }
            },
        }
    }
}

impl<'a> FileTree<'a> {
    /// Reads a file tree.
    pub(crate) fn read(bencode: &Bencode<'a>) -> (r: Result<FileTree<'a>, Error>)
        ensures
            same(r, tree_of(bencode@)),
            r matches Ok(tree) ==> tree_borrows(tree),
        decreases bencode,
    {
        let dict = match bencode.as_dict() {
            Ok(dict) => dict,
            Err(e) => return Err(Error::Bencode(e)),
        };
        let ghost entries = entries_of(dict@);
        let mut map: SortedMap<Cow<'a, str>, FileTreeNode<'a>> = SortedMap::new();
        let mut i: usize = 0;
        let n: usize = dict.len();
        assert(entries.take(0) =~= Seq::<(Seq<u8>, Value)>::empty());
        assert(FileTree(map)@ =~= Seq::<(Seq<u8>, NodeModel)>::empty());
        while i < n
            invariant
                i <= n,
                n == dict@.len(),
                rises(dict@),
                entries == entries_of(dict@),
                bencode@ == Value::Dict(entries),
                *bencode == Bencode::Dict(*dict),
                rises(map@),
                map@.len() == i,
                forall|k: int| 0 <= k < i ==> (#[trigger] map@[k]).0 == dict@[k].0,
                nodes_of(entries.take(i as int)) == Ok::<TreeModel, Rejection>(FileTree(map)@),
                forall|k: int|
                    0 <= k < map.keys().len() ==> (#[trigger] map.keys()[k]) is Borrowed,
                forall|k: int| 0 <= k < map@.len() ==> node_borrows((#[trigger] map@[k]).1),
            decreases n - i,
        {
            proof {
                let t = entries.take(i + 1);
                assert(t.drop_last() =~= entries.take(i as int));
                assert(t.last() == (dict@[i as int].0, dict@[i as int].1@));
                if nodes_of(t) is Err {
                    lemma_nodes_error(entries, i + 1);
                }
                lemma_entry_smaller(*bencode, i as int);
            }
            let key_bytes: &'a [u8] = *dict.key_at(i);
            let value: &Bencode<'a> = dict.value_at(i);
            let key: &'a str = match from_utf8(key_bytes) {
                Ok(key) => key,
                Err(e) => return Err(Error::Utf8(e)),
            };
            let node: FileTreeNode<'a> = if key_bytes.len() == 0 {
                match FileLeaf::read(value) {
                    Ok(leaf) => FileTreeNode::File(leaf),
                    Err(e) => return Err(e),
                }
            } else {
                match FileTree::read(value) {
                    Ok(tree) => {
                        proof {
                            lemma_directory(tree);
                        }
                        FileTreeNode::Directory(tree)
                    },
                    Err(e) => return Err(e),
                }
            };
            let ghost before = map@;
            let ghost before_tree = FileTree(map)@;
            let key: Cow<'a, str> = Cow::Borrowed(key);
            map.insert(key, node);
            proof {
                lemma_slot_exists(before, key.key_bytes());
                lemma_with_entry_last(before, key.key_bytes(), node);
                assert(FileTree(map)@ =~= before_tree.push((key_bytes@, node@)));
            }
            i = i + 1;
        }
        assert(entries.take(i as int) =~= entries);
        Ok(FileTree(map))
    }
}

/// The total length of the files in a tree.
pub open spec fn tree_size(tree: TreeModel) -> nat
    decreases tree,
{
    if tree.len() == 0 {
        0
    } else {
        tree_size(tree.drop_last()) + node_size(tree.last().1)
    }
}

/// The total length of the files under a node.
pub open spec fn node_size(node: NodeModel) -> nat
    decreases node,
{
    match node {
        NodeModel::Directory(tree) => tree_size(tree),
        NodeModel::File(leaf) => leaf.length as nat,
    }
}

/// The number of files in a tree.
pub open spec fn tree_files(tree: TreeModel) -> nat
    decreases tree,
{
    if tree.len() == 0 {
        0
    } else {
        tree_files(tree.drop_last()) + node_files(tree.last().1)
    }
}

/// The number of files under a node.
pub open spec fn node_files(node: NodeModel) -> nat
    decreases node,
{
    match node {
        NodeModel::Directory(tree) => tree_files(tree),
        NodeModel::File(_) => 1,
    }
}

/// The paths of the files in a tree that stands at `prefix`, in the order of the tree.
pub open spec fn tree_paths(prefix: Seq<Part>, tree: TreeModel) -> Seq<Seq<Part>>
    decreases tree,
{
    if tree.len() == 0 {
        Seq::empty()
    } else {
        tree_paths(prefix, tree.drop_last()) + node_paths(
            join(prefix, tree.last().0),
            tree.last().1,
        )
    }
}

/// The paths of the files under a node that stands at `path`.
pub open spec fn node_paths(path: Seq<Part>, node: NodeModel) -> Seq<Seq<Part>>
    decreases node,
{
    match node {
        NodeModel::Directory(tree) => tree_paths(path, tree),
        NodeModel::File(_) => seq![path],
    }
}

/// The first nodes of a tree have no more bytes and files than all of them.
proof fn lemma_tree_prefix(tree: TreeModel, k: int)
    requires
        0 <= k <= tree.len(),
    ensures
        tree_size(tree.take(k)) <= tree_size(tree),
        tree_files(tree.take(k)) <= tree_files(tree),
    decreases tree.len() - k,
{
    if k == tree.len() {
        assert(tree.take(k) =~= tree);
    } else {
        assert(tree.take(k + 1).drop_last() =~= tree.take(k));
        lemma_tree_prefix(tree, k + 1);
    }
}

/// A tree has as many paths as files.
pub proof fn law_one_path_per_file(prefix: Seq<Part>, tree: TreeModel)
    ensures
        tree_paths(prefix, tree).len() == tree_files(tree),
    decreases tree, 0int,
{
    reveal_with_fuel(tree_files, 2);
    reveal_with_fuel(tree_paths, 2);
    if tree.len() > 0 {
        law_one_path_per_file(prefix, tree.drop_last());
        let (key, node) = tree.last();
        if let NodeModel::Directory(sub) = node {
            assert(decreases_to!(tree => tree[tree.len() - 1]));
            assert(decreases_to!(tree[tree.len() - 1] => tree[tree.len() - 1].1));
            assert(decreases_to!(node => sub));
            law_one_path_per_file(join(prefix, key), sub);
        }
    }
}

impl<'a> FileTree<'a> {
    /// The total length of all files in bytes.
    pub fn total_size(&self) -> (r: u64)
        requires
            tree_size(self@) <= u64::MAX,
        ensures
            r == tree_size(self@),
    {
        match self.checked_total_size() {
            Some(n) => n,
            None => 0,
        }
    }

    /// The total length of all files in bytes, if it fits.
    pub fn checked_total_size(&self) -> (r: Option<u64>)
        ensures
            match r {
                Some(n) => n == tree_size(self@),
                None => tree_size(self@) > u64::MAX,
            },
        decreases self,
    {
        let mut sum: u64 = 0;
        let mut i: usize = 0;
        let n: usize = self.0.len();
        assert(self@.take(0) =~= Seq::<(Seq<u8>, NodeModel)>::empty());
        while i < n
            invariant
                i <= n,
                n == self.0@.len(),
                sum == tree_size(self@.take(i as int)),
            decreases n - i,
        {
            let node: &FileTreeNode<'a> = self.0.value_at(i);
            proof {
                let t = self@.take(i + 1);
                assert(t.drop_last() =~= self@.take(i as int));
                assert(t.last().1 == node@);
                lemma_tree_prefix(self@, i + 1);
                reveal_with_fuel(tree_size, 2);
                lemma_node_smaller(*self, i as int);
            }
            let size: u64 = match node {
                FileTreeNode::Directory(tree) => {
                    proof {
                        lemma_directory(*tree);
                    }
                    match tree.checked_total_size() {
                        Some(size) => size,
                        None => return None,
                    }
                },
                FileTreeNode::File(leaf) => leaf.length,
            };
            match sum.checked_add(size) {
                Some(total) => {
                    sum = total;
                },
                None => return None,
            }
            i = i + 1;
        }
        assert(self@.take(i as int) =~= self@);
        Some(sum)
    }

    /// The number of files.
    pub fn file_count(&self) -> (r: usize)
        requires
            tree_files(self@) <= usize::MAX,
        ensures
            r == tree_files(self@),
        decreases self,
    {
        let mut sum: usize = 0;
        let mut i: usize = 0;
        let n: usize = self.0.len();
        assert(self@.take(0) =~= Seq::<(Seq<u8>, NodeModel)>::empty());
        while i < n
            invariant
                i <= n,
                n == self.0@.len(),
                tree_files(self@) <= usize::MAX,
                sum == tree_files(self@.take(i as int)),
            decreases n - i,
        {
            let node: &FileTreeNode<'a> = self.0.value_at(i);
            proof {
                let t = self@.take(i + 1);
                assert(t.drop_last() =~= self@.take(i as int));
                assert(t.last().1 == node@);
                lemma_tree_prefix(self@, i + 1);
                reveal_with_fuel(tree_size, 2);
                reveal_with_fuel(tree_files, 2);
                lemma_node_smaller(*self, i as int);
            }
            let count: usize = match node {
                FileTreeNode::Directory(tree) => {
                    proof {
                        lemma_directory(*tree);
                    }
                    tree.file_count()
                },
                FileTreeNode::File(_) => 1,
            };
            sum = sum + count;
            i = i + 1;
        }
        assert(self@.take(i as int) =~= self@);
        sum
    }

    /// The paths of all files.
    pub fn file_paths(&self) -> (r: Vec<FilePath>)
        ensures
            views(r@) == tree_paths(Seq::empty(), self@),
    {
        let mut res: Vec<FilePath> = Vec::new();
        self.collect_paths(&FilePath::new(), &mut res);
        assert(views(res@) =~= tree_paths(Seq::empty(), self@));
        res
    }

    /// Adds the paths of all files to `res`, as those of a tree that stands at `prefix`.
    fn collect_paths(&self, prefix: &FilePath, res: &mut Vec<FilePath>)
        ensures
            views(final(res)@) == views(old(res)@) + tree_paths(prefix@, self@),
        decreases self,
    {
        let ghost before = views(res@);
        let mut i: usize = 0;
        let n: usize = self.0.len();
        assert(self@.take(0) =~= Seq::<(Seq<u8>, NodeModel)>::empty());
        assert(views(res@) =~= before + tree_paths(prefix@, self@.take(0)));
        while i < n
            invariant
                i <= n,
                n == self.0@.len(),
                views(res@) == before + tree_paths(prefix@, self@.take(i as int)),
            decreases n - i,
        {
            let node: &FileTreeNode<'a> = self.0.value_at(i);
            let path: FilePath = prefix.join(self.0.key_at(i).as_key());
            let ghost so_far = views(res@);
            proof {
                let t = self@.take(i + 1);
                assert(t.drop_last() =~= self@.take(i as int));
                assert(t.last() == (self.0@[i as int].0, node@));
                reveal_with_fuel(tree_paths, 2);
                lemma_node_smaller(*self, i as int);
            }
            match node {
                FileTreeNode::Directory(tree) => {
                    proof {
                        lemma_directory(*tree);
                    }
                    tree.collect_paths(&path, res);
                },
                FileTreeNode::File(_) => {
                    res.push(path);
                    assert(views(res@) =~= so_far + seq![path@]);
                },
            }
            proof {
                let t = self@.take(i + 1);
                assert(views(res@) =~= before + tree_paths(prefix@, t));
            }
            i = i + 1;
        }
        assert(self@.take(i as int) =~= self@);
    }
}

} // verus!
