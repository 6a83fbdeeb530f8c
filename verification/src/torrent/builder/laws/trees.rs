//! What the file tree of a torrent that is built holds.
use vstd::prelude::*;

use crate::path::Part;
use crate::sorted_map::{
    entry, is_slot, lemma_entry_at, lemma_no_entry, lemma_slot_exists, lemma_with_entry,
    lemma_with_entry_members, rises, slot, with_entry,
};
use crate::torrent::builder::agreement::{beneath, lemma_node_beneath, plain_node, plain_tree};
use crate::torrent::builder::layout::EntryModel;
use crate::torrent::builder::merkle::FileHashes;
use crate::torrent::builder::tree::{file_tree, leaf_with, names_of, with_file};
use crate::torrent::laws::sizes::law_trees_add_up;
use crate::torrent::model::{LeafModel, NodeModel, TreeModel};
use crate::torrent::paths::{leads, lemma_join_plain, lemma_paths_contain, plain_name};
use crate::torrent::tree::{node_files, node_paths, node_size, tree_files, tree_paths, tree_size};

verus! {

/// The file to which some names lead in a tree.
pub open spec fn leaf_at(tree: TreeModel, names: Seq<Seq<u8>>) -> Option<LeafModel>
    decreases names.len(),
{
    if names.len() == 0 {
        None
    } else {
        match entry(tree, names[0]) {
            Some(NodeModel::File(leaf)) => if names.len() == 1 {
                Some(leaf)
            } else {
                None
            },
            Some(NodeModel::Directory(sub)) => leaf_at(sub, names.skip(1)),
            None => None,
        }
    }
}

/// Neither of two lists of names starts with the other.
pub open spec fn part_ways(a: Seq<Seq<u8>>, b: Seq<Seq<u8>>) -> bool {
    exists|k: int| 0 <= k < a.len() && k < b.len() && #[trigger] a[k] != b[k]
}

/// The paths of some files part ways: no file stands where another one or one of its directories
/// does.
pub open spec fn all_part_ways(files: Seq<EntryModel>) -> bool {
    &&& forall|i: int| 0 <= i < files.len() ==> (#[trigger] files[i]).meta_path.len() > 0
    &&& forall|i: int, j: int|
        0 <= i < files.len() && 0 <= j < files.len() && i != j ==> part_ways(
            names_of((#[trigger] files[i]).meta_path),
            names_of((#[trigger] files[j]).meta_path),
        )
}

/// Nothing stands in a tree where some names lead to, or on the way.
spec fn has_room(tree: TreeModel, names: Seq<Seq<u8>>) -> bool
    decreases names.len(),
{
    if names.len() == 0 {
        false
    } else {
        match entry(tree, names[0]) {
            Some(NodeModel::File(_)) => false,
            Some(NodeModel::Directory(sub)) => has_room(sub, names.skip(1)),
            None => true,
        }
    }
}

/// All directories of a tree are sorted.
spec fn sorted_tree(tree: TreeModel) -> bool
    decreases tree,
{
    &&& rises(tree)
    &&& forall|i: int| 0 <= i < tree.len() ==> sorted_node((#[trigger] tree[i]).1)
}

spec fn sorted_node(node: NodeModel) -> bool
    decreases node,
{
    match node {
        NodeModel::Directory(tree) => sorted_tree(tree),
        NodeModel::File(_) => true,
    }
}

proof fn lemma_entry_in<V>(s: Seq<(Seq<u8>, V)>, key: Seq<u8>)
    ensures
        entry(s, key) matches Some(v) ==> exists|i: int| 0 <= i < s.len() && s[i] == (key, v),
        entry(s, key) is None ==> forall|i: int| 0 <= i < s.len() ==> (#[trigger] s[i]).0 != key,
    decreases s.len(),
{
    if s.len() > 0 {
        if s.last().0 == key {
            assert(s[s.len() - 1] == (key, s.last().1));
        } else {
            let t = s.drop_last();
            lemma_entry_in(t, key);
            match entry(t, key) {
                Some(v) => {
                    let i = choose|i: int| 0 <= i < t.len() && t[i] == (key, v);
                    assert(s[i] == (key, v));
                },
                None => {
                    assert forall|i: int| 0 <= i < s.len() implies (#[trigger] s[i]).0 != key by {
                        if i < t.len() {
                            assert(t[i] == s[i]);
                        }
                    }
                },
            }
        }
    }
}

/// Putting a value under one key leaves those under the others.
pub proof fn lemma_other_entry<V>(s: Seq<(Seq<u8>, V)>, key: Seq<u8>, value: V, other: Seq<u8>)
    requires
        rises(s),
        other != key,
    ensures
        entry(with_entry(s, key, value), other) == entry(s, other),
{
    let t = with_entry(s, key, value);
    lemma_with_entry(s, key, value);
    lemma_with_entry_members(s, key, value);
    lemma_entry_in(s, other);
    match entry(s, other) {
        Some(v) => {
            assert(s.contains((other, v)));
            assert(t.contains((other, v)));
            let i = choose|i: int| 0 <= i < t.len() && t[i] == (other, v);
            lemma_entry_at(t, i);
        },
        None => {
            assert forall|i: int| 0 <= i < t.len() implies (#[trigger] t[i]).0 != other by {
                assert(t.contains(t[i]));
                if t[i].0 == other {
                    let k = choose|k: int| 0 <= k < s.len() && s[k] == t[i];
                    assert(s[k].0 == other);
                }
            }
            lemma_no_entry(t, other);
        },
    }
}

proof fn lemma_sorted_entry(tree: TreeModel, key: Seq<u8>)
    requires
        sorted_tree(tree),
    ensures
        entry(tree, key) matches Some(node) ==> sorted_node(node),
{
    lemma_entry_in(tree, key);
    if let Some(node) = entry(tree, key) {
        let i = choose|i: int| 0 <= i < tree.len() && tree[i] == (key, node);
        assert(sorted_node(tree[i].1));
    }
}

proof fn lemma_sorted_with(tree: TreeModel, key: Seq<u8>, node: NodeModel)
    requires
        sorted_tree(tree),
        sorted_node(node),
    ensures
        sorted_tree(with_entry(tree, key, node)),
{
    let t = with_entry(tree, key, node);
    lemma_with_entry(tree, key, node);
    lemma_with_entry_members(tree, key, node);
    reveal_with_fuel(sorted_tree, 2);
    assert forall|i: int| 0 <= i < t.len() implies sorted_node((#[trigger] t[i]).1) by {
        assert(t.contains(t[i]));
        if t[i] != (key, node) {
            let k = choose|k: int| 0 <= k < tree.len() && tree[k] == t[i];
            assert(sorted_node(tree[k].1));
        }
    }
}

/// The directory under a name, or an empty one.
spec fn sub_of(tree: TreeModel, key: Seq<u8>) -> TreeModel {
    match entry(tree, key) {
        Some(NodeModel::Directory(sub)) => sub,
        _ => Seq::empty(),
    }
}

proof fn lemma_sub(tree: TreeModel, key: Seq<u8>)
    requires
        sorted_tree(tree),
    ensures
        sorted_tree(sub_of(tree, key)),
{
    reveal_with_fuel(sorted_tree, 2);
    reveal_with_fuel(sorted_node, 2);
    lemma_sorted_entry(tree, key);
}

proof fn lemma_sorted_file(tree: TreeModel, dirs: Seq<Seq<u8>>, name: Seq<u8>, leaf: LeafModel)
    requires
        sorted_tree(tree),
    ensures
        sorted_tree(with_file(tree, dirs, name, leaf)),
    decreases dirs.len(),
{
    reveal_with_fuel(sorted_node, 2);
    if dirs.len() == 0 {
        lemma_sorted_with(tree, name, NodeModel::File(leaf));
    } else {
        let sub = sub_of(tree, dirs[0]);
        lemma_sub(tree, dirs[0]);
        lemma_sorted_file(sub, dirs.skip(1), name, leaf);
        let node = NodeModel::Directory(with_file(sub, dirs.skip(1), name, leaf));
        lemma_sorted_with(tree, dirs[0], node);
    }
}

/// A file that was put into a tree is found there.
proof fn lemma_put(tree: TreeModel, dirs: Seq<Seq<u8>>, name: Seq<u8>, leaf: LeafModel)
    requires
        sorted_tree(tree),
    ensures
        leaf_at(with_file(tree, dirs, name, leaf), dirs.push(name)) == Some(leaf),
    decreases dirs.len(),
{
    if dirs.len() == 0 {
        lemma_with_entry(tree, name, NodeModel::File(leaf));
    } else {
        let sub = sub_of(tree, dirs[0]);
        lemma_sub(tree, dirs[0]);
        lemma_put(sub, dirs.skip(1), name, leaf);
        assert(dirs.push(name).skip(1) =~= dirs.skip(1).push(name));
        let node = NodeModel::Directory(with_file(sub, dirs.skip(1), name, leaf));
        lemma_with_entry(tree, dirs[0], node);
    }
}

/// Where two paths that share their first name part ways behind it.
proof fn lemma_part_later(a: Seq<Seq<u8>>, b: Seq<Seq<u8>>)
    requires
        part_ways(a, b),
        a[0] == b[0],
    ensures
        part_ways(a.skip(1), b.skip(1)),
        a.len() > 1,
        b.len() > 1,
{
    let k = choose|k: int| 0 <= k < a.len() && k < b.len() && #[trigger] a[k] != b[k];
    assert(a.skip(1)[k - 1] != b.skip(1)[k - 1]);
}

/// A file that is put into a tree leaves those whose paths part from its own, and the room for
/// others.
proof fn lemma_put_other(
    tree: TreeModel,
    dirs: Seq<Seq<u8>>,
    name: Seq<u8>,
    leaf: LeafModel,
    q: Seq<Seq<u8>>,
)
    requires
        sorted_tree(tree),
        part_ways(q, dirs.push(name)),
    ensures
        leaf_at(with_file(tree, dirs, name, leaf), q) == leaf_at(tree, q),
        has_room(tree, q) ==> has_room(with_file(tree, dirs, name, leaf), q),
    decreases dirs.len(),
{
    let new = dirs.push(name);
    let t = with_file(tree, dirs, name, leaf);
    if q[0] != new[0] {
        if dirs.len() == 0 {
            lemma_other_entry(tree, name, NodeModel::File(leaf), q[0]);
        } else {
            let sub = sub_of(tree, dirs[0]);
            let node = NodeModel::Directory(with_file(sub, dirs.skip(1), name, leaf));
            lemma_other_entry(tree, dirs[0], node, q[0]);
        }
    } else {
        lemma_part_later(q, new);
        let sub = sub_of(tree, dirs[0]);
        lemma_sub(tree, dirs[0]);
        assert(new.skip(1) =~= dirs.skip(1).push(name));
        lemma_put_other(sub, dirs.skip(1), name, leaf, q.skip(1));
        let node = NodeModel::Directory(with_file(sub, dirs.skip(1), name, leaf));
        lemma_with_entry(tree, dirs[0], node);
        if entry(tree, dirs[0]) is None {
            assert(entry(Seq::<(Seq<u8>, NodeModel)>::empty(), q.skip(1)[0]) is None);
        }
    }
}

/// A file that is put into a tree is the only one that is new.
proof fn lemma_put_only(
    tree: TreeModel,
    dirs: Seq<Seq<u8>>,
    name: Seq<u8>,
    leaf: LeafModel,
    q: Seq<Seq<u8>>,
)
    requires
        sorted_tree(tree),
        leaf_at(with_file(tree, dirs, name, leaf), q) is Some,
        q != dirs.push(name),
    ensures
        leaf_at(tree, q) is Some,
    decreases dirs.len(),
{
    let new = dirs.push(name);
    if q[0] != new[0] {
        if dirs.len() == 0 {
            lemma_other_entry(tree, name, NodeModel::File(leaf), q[0]);
        } else {
            let sub = sub_of(tree, dirs[0]);
            let node = NodeModel::Directory(with_file(sub, dirs.skip(1), name, leaf));
            lemma_other_entry(tree, dirs[0], node, q[0]);
        }
    } else if dirs.len() == 0 {
        lemma_with_entry(tree, name, NodeModel::File(leaf));
        assert(q =~= new);
    } else {
        let sub = sub_of(tree, dirs[0]);
        lemma_sub(tree, dirs[0]);
        let node = NodeModel::Directory(with_file(sub, dirs.skip(1), name, leaf));
        lemma_with_entry(tree, dirs[0], node);
        assert(new.skip(1) =~= dirs.skip(1).push(name));
        if q.skip(1) == new.skip(1) {
            assert forall|i: int| 0 <= i < q.len() implies q[i] == new[i] by {
                if i > 0 {
                    assert(q.skip(1)[i - 1] == new.skip(1)[i - 1]);
                }
            }
            assert(q.skip(1).len() == new.skip(1).len());
            assert(q =~= new);
        }
        lemma_put_only(sub, dirs.skip(1), name, leaf, q.skip(1));
        assert(q.skip(1).len() > 0);
        if !(entry(tree, dirs[0]) matches Some(NodeModel::Directory(_))) {
            assert(entry(Seq::<(Seq<u8>, NodeModel)>::empty(), q.skip(1)[0]) is None);
        }
    }
}

/// How the size of a tree changes with one entry.
proof fn lemma_entry_size(tree: TreeModel, key: Seq<u8>, node: NodeModel)
    requires
        rises(tree),
    ensures
        match entry(tree, key) {
            Some(old) => {
                &&& tree_size(with_entry(tree, key, node)) == tree_size(tree) - node_size(old)
                    + node_size(node)
                &&& tree_files(with_entry(tree, key, node)) == tree_files(tree) - node_files(old)
                    + node_files(node)
            },
            None => {
                &&& tree_size(with_entry(tree, key, node)) == tree_size(tree) + node_size(node)
                &&& tree_files(with_entry(tree, key, node)) == tree_files(tree) + node_files(node)
            },
        },
{
    lemma_slot_exists(tree, key);
    let p = slot(tree, key);
    assert(is_slot(tree, key, p));
    let before = tree.take(p);
    let one: TreeModel = seq![(key, node)];
    let t = with_entry(tree, key, node);
    lemma_one(key, node);
    lemma_entry_in(tree, key);
    if p < tree.len() && tree[p].0 == key {
        let old = tree[p].1;
        let was: TreeModel = seq![(key, old)];
        let behind = tree.skip(p + 1);
        lemma_entry_at(tree, p);
        lemma_one(key, old);
        assert(tree =~= before + was + behind);
        assert(t =~= before + one + behind);
        lemma_sum(before, was, behind);
        lemma_sum(before, one, behind);
    } else {
        let behind = tree.skip(p);
        if let Some(v) = entry(tree, key) {
            let i = choose|i: int| 0 <= i < tree.len() && tree[i] == (key, v);
            crate::lex::lemma_lex_irreflexive(key);
            if i < p {
                assert(crate::lex::lex_lt(tree[i].0, key));
            } else if i > p {
                assert(crate::lex::lex_lt(tree[p].0, tree[i].0));
            }
            assert(false);
        }
        let none: TreeModel = Seq::empty();
        assert(tree =~= before + none + behind);
        assert(t =~= before + one + behind);
        lemma_sum(before, none, behind);
        lemma_sum(before, one, behind);
    }
}

proof fn lemma_one(key: Seq<u8>, node: NodeModel)
    ensures
        tree_size(seq![(key, node)]) == node_size(node),
        tree_files(seq![(key, node)]) == node_files(node),
{
    reveal_with_fuel(node_size, 2);
    reveal_with_fuel(node_files, 2);
    let none: TreeModel = Seq::empty();
    let leaf = LeafModel { length: 0, pieces_root: None };
    match node {
        NodeModel::Directory(sub) => {
            law_trees_add_up(none, none, key, sub, leaf);
        },
        NodeModel::File(leaf) => {
            law_trees_add_up(none, none, key, none, leaf);
        },
    }
}

proof fn lemma_sum(a: TreeModel, b: TreeModel, c: TreeModel)
    ensures
        tree_size(a + b + c) == tree_size(a) + tree_size(b) + tree_size(c),
        tree_files(a + b + c) == tree_files(a) + tree_files(b) + tree_files(c),
{
    let leaf = LeafModel { length: 0, pieces_root: None };
    law_trees_add_up(a, b, Seq::empty(), Seq::empty(), leaf);
    law_trees_add_up(a + b, c, Seq::empty(), Seq::empty(), leaf);
}

/// A file that is put where there is room for it adds its length.
proof fn lemma_put_size(tree: TreeModel, dirs: Seq<Seq<u8>>, name: Seq<u8>, leaf: LeafModel)
    requires
        sorted_tree(tree),
        has_room(tree, dirs.push(name)),
    ensures
        tree_size(with_file(tree, dirs, name, leaf)) == tree_size(tree) + leaf.length,
        tree_files(with_file(tree, dirs, name, leaf)) == tree_files(tree) + 1,
    decreases dirs.len(),
{
    let new = dirs.push(name);
    reveal_with_fuel(node_size, 2);
    reveal_with_fuel(node_files, 2);
    if dirs.len() == 0 {
        if let Some(NodeModel::Directory(sub)) = entry(tree, name) {
            assert(!has_room(sub, new.skip(1)));
        }
        assert(entry(tree, name) is None);
        lemma_entry_size(tree, name, NodeModel::File(leaf));
    } else {
        let sub = sub_of(tree, dirs[0]);
        lemma_sub(tree, dirs[0]);
        assert(new.skip(1) =~= dirs.skip(1).push(name));
        if entry(tree, dirs[0]) is None {
            assert(entry(Seq::<(Seq<u8>, NodeModel)>::empty(), new.skip(1)[0]) is None);
            lemma_sum(Seq::empty(), Seq::empty(), Seq::empty());
            assert(Seq::<(Seq<u8>, NodeModel)>::empty() + Seq::empty() + Seq::empty()
                =~= Seq::<(Seq<u8>, NodeModel)>::empty());
            assert(tree_size(sub) == 0 && tree_files(sub) == 0);
        }
        lemma_put_size(sub, dirs.skip(1), name, leaf);
        let node = NodeModel::Directory(with_file(sub, dirs.skip(1), name, leaf));
        lemma_entry_size(tree, dirs[0], node);
    }
}

proof fn lemma_sorted(files: Seq<EntryModel>, hashes: Seq<FileHashes>)
    ensures
        sorted_tree(file_tree(files, hashes)),
    decreases files.len(),
{
    if files.len() == 0 {
        reveal_with_fuel(sorted_tree, 2);
    } else {
        let f = files.last();
        let names = names_of(f.meta_path);
        lemma_sorted(files.drop_last(), hashes);
        lemma_sorted_file(
            file_tree(files.drop_last(), hashes),
            names.drop_last(),
            names.last(),
            leaf_with(f.length, hashes[files.len() - 1]),
        );
    }
}

proof fn lemma_fewer_part(files: Seq<EntryModel>)
    requires
        all_part_ways(files),
        files.len() > 0,
    ensures
        all_part_ways(files.drop_last()),
        names_of(files.last().meta_path).drop_last().push(names_of(files.last().meta_path).last())
            == names_of(files.last().meta_path),
{
    let t = files.drop_last();
    assert forall|i: int| 0 <= i < t.len() implies (#[trigger] t[i]).meta_path.len() > 0 by {
        assert(t[i] == files[i]);
    }
    assert forall|i: int, j: int|
        0 <= i < t.len() && 0 <= j < t.len() && i != j implies part_ways(
        names_of((#[trigger] t[i]).meta_path),
        names_of((#[trigger] t[j]).meta_path),
    ) by {
        assert(t[i] == files[i] && t[j] == files[j]);
    }
    let names = names_of(files.last().meta_path);
    assert(files[files.len() - 1].meta_path.len() > 0);
    assert(names.drop_last().push(names.last()) =~= names);
}

/// Each file of a torrent stands in its tree, under its path, with its length and its hash.
pub proof fn law_every_file_has_its_leaf(files: Seq<EntryModel>, hashes: Seq<FileHashes>, i: int)
    requires
        all_part_ways(files),
        0 <= i < files.len(),
    ensures
        leaf_at(file_tree(files, hashes), names_of(files[i].meta_path)) matches Some(leaf) && {
            &&& leaf.length == files[i].length
            &&& match hashes[i] {
                FileHashes::Empty => leaf.pieces_root is None,
                FileHashes::SinglePiece(root) => leaf.pieces_root == Some(root),
                FileHashes::MultiPiece(root, _) => leaf.pieces_root == Some(root),
            }
        },
    decreases files.len(),
{
    let t = files.drop_last();
    let tree = file_tree(t, hashes);
    let names = names_of(files.last().meta_path);
    let leaf = leaf_with(files.last().length, hashes[files.len() - 1]);
    lemma_fewer_part(files);
    lemma_sorted(t, hashes);
    if i == files.len() - 1 {
        lemma_put(tree, names.drop_last(), names.last(), leaf);
    } else {
        law_every_file_has_its_leaf(t, hashes, i);
        assert(t[i] == files[i]);
        assert(part_ways(
            names_of(files[i].meta_path),
            names_of(files[files.len() - 1].meta_path),
        ));
        lemma_put_other(
            tree,
            names.drop_last(),
            names.last(),
            leaf,
            names_of(files[i].meta_path),
        );
    }
}

/// The tree of a torrent has no other files than the torrent.
pub proof fn law_every_leaf_is_of_a_file(
    files: Seq<EntryModel>,
    hashes: Seq<FileHashes>,
    names: Seq<Seq<u8>>,
)
    requires
        all_part_ways(files),
        leaf_at(file_tree(files, hashes), names) is Some,
    ensures
        exists|i: int| 0 <= i < files.len() && names_of((#[trigger] files[i]).meta_path) == names,
    decreases files.len(),
{
    if files.len() == 0 {
        assert(entry(file_tree(files, hashes), names[0]) is None);
    } else {
        let t = files.drop_last();
        let tree = file_tree(t, hashes);
        let last = names_of(files.last().meta_path);
        let leaf = leaf_with(files.last().length, hashes[files.len() - 1]);
        lemma_fewer_part(files);
        lemma_sorted(t, hashes);
        if names == last {
            assert(names_of(files[files.len() - 1].meta_path) == names);
        } else {
            lemma_put_only(tree, last.drop_last(), last.last(), leaf, names);
            law_every_leaf_is_of_a_file(t, hashes, names);
            let i = choose|i: int|
                0 <= i < t.len() && names_of((#[trigger] t[i]).meta_path) == names;
            assert(t[i] == files[i]);
        }
    }
}

/// The sum of the lengths of some files.
pub open spec fn lengths_sum(files: Seq<EntryModel>) -> int
    decreases files.len(),
{
    if files.len() == 0 {
        0
    } else {
        lengths_sum(files.drop_last()) + files.last().length
    }
}

proof fn lemma_room(files: Seq<EntryModel>, hashes: Seq<FileHashes>, q: Seq<Seq<u8>>)
    requires
        all_part_ways(files),
        q.len() > 0,
        forall|i: int|
            0 <= i < files.len() ==> part_ways(q, names_of((#[trigger] files[i]).meta_path)),
    ensures
        has_room(file_tree(files, hashes), q),
    decreases files.len(),
{
    if files.len() == 0 {
        assert(entry(file_tree(files, hashes), q[0]) is None);
    } else {
        let t = files.drop_last();
        let last = names_of(files.last().meta_path);
        let leaf = leaf_with(files.last().length, hashes[files.len() - 1]);
        lemma_fewer_part(files);
        lemma_sorted(t, hashes);
        assert forall|i: int| 0 <= i < t.len() implies part_ways(
            q,
            names_of((#[trigger] t[i]).meta_path),
        ) by {
            assert(t[i] == files[i]);
        }
        lemma_room(t, hashes, q);
        assert(part_ways(q, names_of(files[files.len() - 1].meta_path)));
        lemma_put_other(file_tree(t, hashes), last.drop_last(), last.last(), leaf, q);
    }
}

/// The files in the tree of a torrent are as long together as those of the torrent, and as many.
pub proof fn law_tree_counts_the_files(files: Seq<EntryModel>, hashes: Seq<FileHashes>)
    requires
        all_part_ways(files),
    ensures
        tree_size(file_tree(files, hashes)) == lengths_sum(files),
        tree_files(file_tree(files, hashes)) == files.len(),
    decreases files.len(),
{
    reveal_with_fuel(tree_size, 2);
    reveal_with_fuel(tree_files, 2);
    if files.len() > 0 {
        let t = files.drop_last();
        let last = names_of(files.last().meta_path);
        let leaf = leaf_with(files.last().length, hashes[files.len() - 1]);
        lemma_fewer_part(files);
        lemma_sorted(t, hashes);
        law_tree_counts_the_files(t, hashes);
        assert forall|i: int| 0 <= i < t.len() implies part_ways(
            last,
            names_of((#[trigger] t[i]).meta_path),
        ) by {
            assert(t[i] == files[i]);
            assert(part_ways(
                names_of(files[files.len() - 1].meta_path),
                names_of(files[i].meta_path),
            ));
        }
        lemma_room(t, hashes, last);
        lemma_put_size(file_tree(t, hashes), last.drop_last(), last.last(), leaf);
    }
}

/// The paths of the files in a tree are the names that lead to them, if these are plain.
pub proof fn law_paths_lead_to_leaves(prefix: Seq<Part>, tree: TreeModel, names: Seq<Seq<u8>>)
    requires
        plain_tree(tree),
    ensures
        leaf_at(tree, names) is Some <==> tree_paths(prefix, tree).contains(
            beneath(prefix, names),
        ),
    decreases names.len(),
{
    let q = beneath(prefix, names);
    let n = prefix.len() as int;
    reveal_with_fuel(node_paths, 2);
    reveal_with_fuel(plain_node, 2);
    lemma_paths_contain(prefix, tree, q);
    if leaf_at(tree, names) is Some {
        let node = entry(tree, names[0])->0;
        lemma_entry_in(tree, names[0]);
        let i = choose|i: int| 0 <= i < tree.len() && tree[i] == (names[0], node);
        assert(plain_name(tree[i].0) && plain_node(tree[i].1));
        lemma_join_plain(prefix, names[0]);
        let path = prefix.push(Part::Normal(names[0]));
        match node {
            NodeModel::File(_) => {
                assert(q =~= path);
                assert(seq![path][0] == path);
            },
            NodeModel::Directory(sub) => {
                law_paths_lead_to_leaves(path, sub, names.skip(1));
                assert(beneath(path, names.skip(1)) =~= q);
            },
        }
        assert(leads(prefix, tree[i], q));
    }
    if tree_paths(prefix, tree).contains(q) {
        let i = choose|i: int| 0 <= i < tree.len() && leads(prefix, #[trigger] tree[i], q);
        let (name, node) = tree[i];
        assert(plain_name(tree[i].0) && plain_node(tree[i].1));
        lemma_join_plain(prefix, name);
        let path = prefix.push(Part::Normal(name));
        lemma_node_beneath(path, node, q);
        assert(q.subrange(0, path.len() as int)[n] == path[n]);
        assert(q[n] == Part::Normal(name));
        assert(names[0] == name);
        lemma_entry_at(tree, i);
        match node {
            NodeModel::File(_) => {
                assert(q.len() == path.len());
            },
            NodeModel::Directory(sub) => {
                assert(beneath(path, names.skip(1)) =~= q);
                law_paths_lead_to_leaves(path, sub, names.skip(1));
            },
        }
    }
}

} // verus!
