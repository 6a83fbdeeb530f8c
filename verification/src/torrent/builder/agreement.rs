//! The file tree of a hybrid torrent that is built lists the same files as its v1 fields.
use vstd::prelude::*;
use vstd::relations::sorted_by;
use vstd::seq_lib::lemma_sorted_unique;
use vstd::utf8::{decode_utf8_encode_utf8, encode_utf8, valid_utf8};

use crate::path::{
    lemma_path_irreflexive, lemma_path_le_total, part_text, path_le, path_lt, path_of, Part,
};
use crate::sorted_map::{
    entry, lemma_entry_at, lemma_with_entry, lemma_with_entry_members, rises, with_entry,
};
use crate::torrent::builder::fields::{
    all_hashes, file_info, file_infos, is_padded, pad_entry, pad_len, padded_entries, path_texts,
    utf8_names,
};
use crate::torrent::builder::layout::{
    in_order, is_floor, is_prefix_len, lemma_prefix_len, parent_len, paths_of, EntryModel,
};
use crate::torrent::builder::merkle::FileHashes;
use crate::torrent::builder::tree::{
    file_tree, leads_through, leaf_with, names_of, utf8_path, with_file,
};
use crate::torrent::builder::{built_hybrid, entries_of, fields_of, BuilderModel, DiskModel};
use crate::torrent::files::{listed_paths, path_from};
use crate::torrent::model::{LeafModel, NodeModel, TreeModel};
use crate::torrent::paths::{
    component_node, component_tree, law_file_paths_rise, leads, lemma_join_plain,
    lemma_paths_contain, plain_name,
};
use crate::torrent::read::mismatch;
use crate::torrent::tree::{node_paths, tree_paths};

verus! {

/// A path that is made of plain names.
pub open spec fn plain_path(path: Seq<Part>) -> bool {
    &&& path.len() > 0
    &&& forall|i: int|
        0 <= i < path.len() ==> (#[trigger] path[i] matches Part::Normal(name) && plain_name(name))
}

/// A sorted tree with plain names.
pub open spec fn plain_tree(tree: TreeModel) -> bool
    decreases tree,
{
    &&& rises(tree)
    &&& forall|i: int|
        0 <= i < tree.len() ==> plain_name((#[trigger] tree[i]).0) && plain_node(tree[i].1)
}

/// A node whose names are plain and sorted.
pub open spec fn plain_node(node: NodeModel) -> bool
    decreases node,
{
    match node {
        NodeModel::Directory(tree) => plain_tree(tree),
        NodeModel::File(_) => true,
    }
}

/// A path with more names behind it.
pub open spec fn beneath(prefix: Seq<Part>, names: Seq<Seq<u8>>) -> Seq<Part> {
    prefix + Seq::new(names.len(), |i: int| Part::Normal(names[i]))
}

/// The paths in a tree go on from where it stands.
proof fn lemma_paths_beneath(prefix: Seq<Part>, tree: TreeModel, q: Seq<Part>)
    requires
        plain_tree(tree),
        tree_paths(prefix, tree).contains(q),
    ensures
        prefix.is_prefix_of(q),
        prefix.len() < q.len(),
        exists|i: int|
            0 <= i < tree.len() && leads(prefix, #[trigger] tree[i], q) && q[prefix.len() as int]
                == Part::Normal(tree[i].0),
    decreases tree,
{
    lemma_paths_contain(prefix, tree, q);
    let i = choose|i: int| 0 <= i < tree.len() && leads(prefix, #[trigger] tree[i], q);
    let (name, node) = tree[i];
    assert(plain_name(tree[i].0) && plain_node(tree[i].1));
    lemma_join_plain(prefix, name);
    let path = prefix.push(Part::Normal(name));
    reveal_with_fuel(node_paths, 2);
    reveal_with_fuel(plain_node, 2);
    match node {
        NodeModel::Directory(sub) => {
            assert(decreases_to!(tree => tree[i]));
            assert(decreases_to!(tree[i] => tree[i].1));
            assert(decreases_to!(node => sub));
            assert(node_paths(path, node) == tree_paths(path, sub));
            lemma_paths_beneath(path, sub, q);
            assert(q.subrange(0, path.len() as int)[prefix.len() as int] == Part::Normal(name));
            assert(prefix =~= q.subrange(0, prefix.len() as int)) by {
                assert(path == q.subrange(0, path.len() as int));
                assert(prefix =~= path.take(prefix.len() as int));
            }
        },
        NodeModel::File(_) => {
            assert(q == path) by {
                let k = choose|k: int| 0 <= k < seq![path].len() && seq![path][k] == q;
                assert(k == 0);
            }
            assert(prefix =~= q.subrange(0, prefix.len() as int));
        },
    }
}

/// The paths under a node go on from where it stands.
pub proof fn lemma_node_beneath(path: Seq<Part>, node: NodeModel, q: Seq<Part>)
    requires
        plain_node(node),
        node_paths(path, node).contains(q),
    ensures
        path.is_prefix_of(q),
        node is File ==> q == path,
        node is Directory ==> path.len() < q.len(),
{
    reveal_with_fuel(node_paths, 2);
    reveal_with_fuel(plain_node, 2);
    match node {
        NodeModel::Directory(sub) => {
            lemma_paths_beneath(path, sub, q);
        },
        NodeModel::File(_) => {
            let k = choose|k: int| 0 <= k < seq![path].len() && seq![path][k] == q;
            assert(k == 0);
            assert(path =~= q.subrange(0, path.len() as int));
        },
    }
}

/// A tree with plain names is one of components.
proof fn lemma_plain_is_component(tree: TreeModel)
    requires
        plain_tree(tree),
    ensures
        component_tree(tree),
    decreases tree,
{
    reveal_with_fuel(plain_node, 2);
    reveal_with_fuel(component_node, 2);
    assert forall|i: int| 0 <= i < tree.len() implies component_node(
        (#[trigger] tree[i]).0,
        tree[i].1,
    ) by {
        assert(plain_name(tree[i].0) && plain_node(tree[i].1));
        if let NodeModel::Directory(sub) = tree[i].1 {
            assert(decreases_to!(tree => tree[i]));
            assert(decreases_to!(tree[i] => tree[i].1));
            assert(decreases_to!(tree[i].1 => sub));
            lemma_plain_is_component(sub);
        }
    }
}

/// Putting a node with a plain name into a tree.
proof fn lemma_plain_with_entry(tree: TreeModel, name: Seq<u8>, node: NodeModel)
    requires
        plain_tree(tree),
        plain_name(name),
        plain_node(node),
    ensures
        plain_tree(with_entry(tree, name, node)),
{
    lemma_with_entry(tree, name, node);
    lemma_with_entry_members(tree, name, node);
    let t = with_entry(tree, name, node);
    reveal_with_fuel(plain_tree, 2);
    assert forall|i: int| 0 <= i < t.len() implies plain_name((#[trigger] t[i]).0) && plain_node(
        t[i].1,
    ) by {
        assert(t.contains(t[i]));
        if t[i] != (name, node) {
            let k = choose|k: int| 0 <= k < tree.len() && tree[k] == t[i];
            assert(plain_name(tree[k].0) && plain_node(tree[k].1));
        }
    }
}

/// One path leads through the other, or the other way round.
spec fn in_the_way(a: Seq<Part>, b: Seq<Part>) -> bool {
    ||| a.len() < b.len() && a.is_prefix_of(b)
    ||| b.len() < a.len() && b.is_prefix_of(a)
}

/// Putting a file into a tree adds its path, if nothing stands in its way.
#[verifier::rlimit(60)]
proof fn lemma_with_file(
    prefix: Seq<Part>,
    tree: TreeModel,
    dirs: Seq<Seq<u8>>,
    name: Seq<u8>,
    leaf: LeafModel,
)
    requires
        plain_tree(tree),
        plain_name(name),
        forall|i: int| 0 <= i < dirs.len() ==> plain_name(#[trigger] dirs[i]),
        forall|q: Seq<Part>|
            tree_paths(prefix, tree).contains(q) ==> !#[trigger] in_the_way(
                q,
                beneath(prefix, dirs.push(name)),
            ),
    ensures
        plain_tree(with_file(tree, dirs, name, leaf)),
        forall|q: Seq<Part>| #[trigger]
            tree_paths(prefix, with_file(tree, dirs, name, leaf)).contains(q) <==> q == beneath(
                prefix,
                dirs.push(name),
            ) || tree_paths(prefix, tree).contains(q),
    decreases dirs.len(),
{
    let new = beneath(prefix, dirs.push(name));
    let result = with_file(tree, dirs, name, leaf);
    reveal_with_fuel(node_paths, 2);
    reveal_with_fuel(plain_node, 2);
    let key = if dirs.len() == 0 {
        name
    } else {
        dirs[0]
    };
    lemma_join_plain(prefix, key);
    let path = prefix.push(Part::Normal(key));
    let old = entry(tree, key);
    let sub = match old {
        Some(NodeModel::Directory(sub)) => sub,
        _ => Seq::empty(),
    };
    let node = if dirs.len() == 0 {
        NodeModel::File(leaf)
    } else {
        NodeModel::Directory(with_file(sub, dirs.skip(1), name, leaf))
    };
    assert(result == with_entry(tree, key, node));
    lemma_with_entry_members(tree, key, node);
    // What stands under the key so far.
    lemma_entry_of(tree, key);
    assert forall|q: Seq<Part>| old is Some && node_paths(path, old->0).contains(q) implies (
    #[trigger] tree_paths(prefix, tree).contains(q)) by {
        let i = choose|i: int| 0 <= i < tree.len() && tree[i] == (key, old->0);
        assert(leads(prefix, tree[i], q));
        lemma_paths_contain(prefix, tree, q);
    }
    if dirs.len() == 0 {
        assert(new =~= path);
        assert(plain_node(node));
        lemma_plain_with_entry(tree, key, node);
        assert forall|q: Seq<Part>| old is Some && #[trigger] node_paths(path, old->0).contains(
            q,
        ) implies q == new by {
            lemma_node_beneath(path, old->0, q);
            assert(!in_the_way(q, new));
        }
    } else {
        assert(new =~= beneath(path, dirs.skip(1).push(name)));
        if old is Some && old->0 is File {
            assert(node_paths(path, old->0) == seq![path]);
            assert(seq![path][0] == path);
            assert(node_paths(path, old->0).contains(path));
            assert(tree_paths(prefix, tree).contains(path));
            assert(in_the_way(path, new)) by {
                assert(path =~= new.subrange(0, path.len() as int));
            }
            assert(false);
        }
        assert(plain_tree(sub));
        assert forall|q: Seq<Part>| tree_paths(path, sub).contains(q) implies !#[trigger] in_the_way(
            q,
            beneath(path, dirs.skip(1).push(name)),
        ) by {
            assert(old is Some && node_paths(path, old->0).contains(q));
            assert(tree_paths(prefix, tree).contains(q));
        }
        assert forall|i: int| 0 <= i < dirs.skip(1).len() implies plain_name(
            #[trigger] dirs.skip(1)[i],
        ) by {
            assert(dirs.skip(1)[i] == dirs[i + 1]);
        }
        lemma_with_file(path, sub, dirs.skip(1), name, leaf);
        assert(plain_node(node));
        lemma_plain_with_entry(tree, key, node);
    }
    assert forall|q: Seq<Part>| #[trigger] tree_paths(prefix, result).contains(q) <==> q == new
        || tree_paths(prefix, tree).contains(q) by {
        lemma_paths_contain(prefix, result, q);
        lemma_paths_contain(prefix, tree, q);
        assert(node_paths(path, node).contains(q) <==> q == new || (old is Some && node_paths(
            path,
            old->0,
        ).contains(q))) by {
            if dirs.len() == 0 {
                assert(node_paths(path, node) == seq![path]);
                assert(seq![path][0] == path);
                if node_paths(path, node).contains(q) {
                    lemma_node_beneath(path, node, q);
                }
            } else {
                let inner = with_file(sub, dirs.skip(1), name, leaf);
                assert(node_paths(path, node) == tree_paths(path, inner));
                assert(tree_paths(path, inner).contains(q) <==> q == new || tree_paths(
                    path,
                    sub,
                ).contains(q));
            }
        }
        if tree_paths(prefix, result).contains(q) {
            let i = choose|i: int| 0 <= i < result.len() && leads(prefix, #[trigger] result[i], q);
            assert(result.contains(result[i]));
            if result[i] != (key, node) {
                let k = choose|k: int| 0 <= k < tree.len() && tree[k] == result[i];
                assert(leads(prefix, tree[k], q));
            }
        }
        if q == new {
            assert(result.contains((key, node)));
            let i = choose|i: int| 0 <= i < result.len() && result[i] == (key, node);
            assert(leads(prefix, result[i], q));
        }
        if tree_paths(prefix, tree).contains(q) {
            let k = choose|k: int| 0 <= k < tree.len() && leads(prefix, #[trigger] tree[k], q);
            assert(tree.contains(tree[k]));
            if tree[k].0 == key {
                lemma_entry_at(tree, k);
                assert(old == Some(tree[k].1));
                assert(result.contains((key, node)));
                let i = choose|i: int| 0 <= i < result.len() && result[i] == (key, node);
                assert(leads(prefix, result[i], q));
            } else {
                assert(result.contains(tree[k]));
                let i = choose|i: int| 0 <= i < result.len() && result[i] == tree[k];
                assert(leads(prefix, result[i], q));
            }
        }
    }
}

/// The entry of a key is in the tree.
proof fn lemma_entry_of(tree: TreeModel, key: Seq<u8>)
    requires
        plain_tree(tree),
    ensures
        entry(tree, key) matches Some(node) ==> {
            &&& exists|i: int| 0 <= i < tree.len() && tree[i] == (key, node)
            &&& plain_node(node)
        },
{
    lemma_entry_found(tree, key);
    if let Some(node) = entry(tree, key) {
        let i = choose|i: int| 0 <= i < tree.len() && tree[i] == (key, node);
        assert(plain_node(tree[i].1));
    }
}

proof fn lemma_entry_found(tree: TreeModel, key: Seq<u8>)
    ensures
        entry(tree, key) matches Some(node) ==> exists|i: int|
            0 <= i < tree.len() && tree[i] == (key, node),
    decreases tree.len(),
{
    if tree.len() > 0 {
        if tree.last().0 == key {
            assert(tree[tree.len() - 1] == (key, tree.last().1));
        } else {
            let t = tree.drop_last();
            lemma_entry_found(t, key);
            if let Some(node) = entry(t, key) {
                let i = choose|i: int| 0 <= i < t.len() && t[i] == (key, node);
                assert(tree[i] == (key, node));
            }
        }
    }
}

/// The paths of some files are made of plain names, no two are equal, and none leads through
/// another.
pub open spec fn apart(files: Seq<EntryModel>) -> bool {
    &&& forall|i: int| 0 <= i < files.len() ==> plain_path((#[trigger] files[i]).meta_path)
    &&& forall|i: int, j: int|
        0 <= i < files.len() && 0 <= j < files.len() && i != j ==> (#[trigger] files[i]).meta_path
            != (#[trigger] files[j]).meta_path && !leads_through(
            files[i].meta_path,
            files[j].meta_path,
        )
}

/// The paths of some files.
spec fn meta_paths(files: Seq<EntryModel>) -> Seq<Seq<Part>> {
    Seq::new(files.len(), |i: int| files[i].meta_path)
}

/// A path that is shorter than another and agrees with it is led through by it.
proof fn lemma_not_in_the_way(a: Seq<Part>, b: Seq<Part>)
    requires
        !leads_through(a, b),
        !leads_through(b, a),
    ensures
        !in_the_way(a, b),
{
    if a.len() < b.len() && a.is_prefix_of(b) {
        assert forall|i: int| 0 <= i < a.len() implies a[i] == b[i] by {
            assert(b.subrange(0, a.len() as int)[i] == a[i]);
        }
        assert(names_of(a) =~= names_of(b).subrange(0, a.len() as int));
    }
    if b.len() < a.len() && b.is_prefix_of(a) {
        assert forall|i: int| 0 <= i < b.len() implies a[i] == b[i] by {
            assert(a.subrange(0, b.len() as int)[i] == b[i]);
        }
        assert(names_of(b) =~= names_of(a).subrange(0, b.len() as int));
    }
}

/// The tree of some files holds their paths and no others.
proof fn lemma_tree_paths(files: Seq<EntryModel>, hashes: Seq<FileHashes>)
    requires
        apart(files),
    ensures
        plain_tree(file_tree(files, hashes)),
        forall|q: Seq<Part>| #[trigger]
            tree_paths(Seq::empty(), file_tree(files, hashes)).contains(q) <==> meta_paths(
                files,
            ).contains(q),
    decreases files.len(),
{
    let none = Seq::<Part>::empty();
    let tree = file_tree(files, hashes);
    let metas = meta_paths(files);
    if files.len() == 0 {
        reveal_with_fuel(tree_paths, 2);
        reveal_with_fuel(plain_tree, 2);
    } else {
        let rest = files.drop_last();
        let last = files.len() - 1;
        assert forall|i: int| 0 <= i < rest.len() implies plain_path(
            (#[trigger] rest[i]).meta_path,
        ) by {
            assert(rest[i] == files[i]);
        }
        lemma_tree_paths(rest, hashes);
        let f = files[last];
        let names = names_of(f.meta_path);
        let dirs = names.drop_last();
        let leaf = leaf_with(f.length, hashes[last]);
        assert(dirs.push(names.last()) =~= names);
        assert forall|i: int| 0 <= i < names.len() implies plain_name(#[trigger] names[i]) by {
            assert(f.meta_path[i] matches Part::Normal(name) && plain_name(name));
        }
        assert(beneath(none, names) =~= f.meta_path) by {
            assert forall|i: int| 0 <= i < names.len() implies Part::Normal(names[i])
                == #[trigger] f.meta_path[i] by {}
        }
        let before = tree_paths(none, file_tree(rest, hashes));
        assert forall|q: Seq<Part>| before.contains(q) implies !#[trigger] in_the_way(
            q,
            beneath(none, dirs.push(names.last())),
        ) by {
            assert(meta_paths(rest).contains(q));
            let i = choose|i: int| 0 <= i < rest.len() && meta_paths(rest)[i] == q;
            assert(files[i].meta_path == q);
            lemma_not_in_the_way(q, f.meta_path);
        }
        lemma_with_file(none, file_tree(rest, hashes), dirs, names.last(), leaf);
        assert forall|q: Seq<Part>| #[trigger]
            tree_paths(none, tree).contains(q) <==> metas.contains(q) by {
            assert(metas =~= meta_paths(rest).push(f.meta_path));
            if meta_paths(rest).contains(q) {
                let i = choose|i: int| 0 <= i < rest.len() && meta_paths(rest)[i] == q;
                assert(metas[i] == q);
            }
            if q == f.meta_path {
                assert(metas[last] == q);
            }
            if metas.contains(q) {
                let i = choose|i: int| 0 <= i < metas.len() && metas[i] == q;
                if i < last {
                    assert(meta_paths(rest)[i] == q);
                }
            }
        }
    }
}

/// The texts of the names on a path lead back to it.
proof fn lemma_path_from_texts(path: Seq<Part>)
    requires
        path.len() > 0 ==> plain_path(path),
        utf8_path(path),
    ensures
        path_from(path_texts(path)) == path,
    decreases path.len(),
{
    if path.len() > 0 {
        let rest = path.drop_last();
        assert forall|i: int| 0 <= i < rest.len() implies (#[trigger] rest[i] matches Part::Normal(
            name,
        ) && plain_name(name)) by {
            assert(rest[i] == path[i]);
        }
        assert(utf8_path(rest)) by {
            assert forall|i: int| 0 <= i < rest.len() implies valid_utf8(
                part_text(#[trigger] rest[i]),
            ) by {
                assert(rest[i] == path[i]);
            }
        }
        lemma_path_from_texts(rest);
        assert(path_texts(path).drop_last() =~= path_texts(rest));
        let name = part_text(path[path.len() - 1]);
        assert(valid_utf8(name));
        decode_utf8_encode_utf8(name);
        lemma_join_plain(rest, name);
        assert(rest.push(path[path.len() - 1]) =~= path);
    } else {
        assert(path =~= Seq::empty());
    }
}

/// The v1 fields list the files, whatever padding files stand between them.
proof fn lemma_listed_paths(files: Seq<EntryModel>, piece_length: int)
    requires
        forall|i: int|
            0 <= i < files.len() ==> plain_path((#[trigger] files[i]).meta_path)
                && !files[i].padding,
        utf8_names(files),
    ensures
        listed_paths(file_infos(padded_entries(files, piece_length))) == meta_paths(files),
    decreases files.len(),
{
    reveal_with_fuel(listed_paths, 3);
    if files.len() == 0 {
        assert(meta_paths(files) =~= Seq::empty());
    } else {
        let rest = files.drop_last();
        let f = files[files.len() - 1];
        assert forall|i: int| 0 <= i < rest.len() implies plain_path(
            (#[trigger] rest[i]).meta_path,
        ) && !rest[i].padding by {
            assert(rest[i] == files[i]);
        }
        assert(utf8_names(rest)) by {
            assert forall|i: int| 0 <= i < rest.len() implies utf8_path(
                (#[trigger] rest[i]).meta_path,
            ) by {
                assert(rest[i] == files[i]);
            }
        }
        lemma_listed_paths(rest, piece_length);
        let before = padded_entries(rest, piece_length);
        let s = before.push(f);
        assert(file_infos(s).drop_last() =~= file_infos(before));
        assert(file_infos(s).last() == file_info(f));
        lemma_path_from_texts(f.meta_path);
        assert(listed_paths(file_infos(s)) == meta_paths(rest).push(f.meta_path));
        assert(meta_paths(rest).push(f.meta_path) =~= meta_paths(files));
        let n = pad_len(f.length as int, piece_length);
        if n > 0 {
            let t = s.push(pad_entry(n));
            assert(file_infos(t).drop_last() =~= file_infos(s));
            assert(file_infos(t).last() == file_info(pad_entry(n)));
        }
    }
}

/// Rising paths with the same members as others are those others in order.
proof fn lemma_in_order(found: Seq<Seq<Part>>, paths: Seq<Seq<Part>>)
    requires
        forall|i: int, j: int| 0 <= i < j < found.len() ==> path_lt(found[i], found[j]),
        paths.no_duplicates(),
        forall|q: Seq<Part>| #[trigger] found.contains(q) <==> paths.contains(q),
    ensures
        found == paths.sort_by(path_le()),
{
    let le = path_le();
    lemma_path_le_total();
    paths.lemma_sort_by_ensures(le);
    assert(found.no_duplicates()) by {
        assert forall|i: int, j: int| 0 <= i < found.len() && 0 <= j < found.len() && i
            != j implies found[i] != found[j] by {
            lemma_path_irreflexive(found[i]);
            if i < j {
                assert(path_lt(found[i], found[j]));
            } else {
                assert(path_lt(found[j], found[i]));
            }
        }
    }
    assert(sorted_by(found, le)) by {
        assert forall|i: int, j: int| 0 <= i < j < found.len() implies #[trigger] le(
            found[i],
            found[j],
        ) by {
            assert(path_lt(found[i], found[j]));
        }
    }
    found.lemma_multiset_has_no_duplicates();
    paths.lemma_multiset_has_no_duplicates();
    found.to_multiset_ensures();
    paths.to_multiset_ensures();
    assert(found.to_multiset() =~= paths.to_multiset()) by {
        assert forall|q: Seq<Part>| #[trigger] found.to_multiset().count(q)
            == paths.to_multiset().count(q) by {
            assert(found.contains(q) <==> found.to_multiset().contains(q));
            assert(paths.contains(q) <==> paths.to_multiset().contains(q));
            assert(found.contains(q) <==> paths.contains(q));
        }
    }
    lemma_sorted_unique(found, paths.sort_by(le), le);
}

/// The tree of some files lists them in the order of their paths.
proof fn lemma_tree_in_order(files: Seq<EntryModel>, hashes: Seq<FileHashes>)
    requires
        apart(files),
    ensures
        tree_paths(Seq::empty(), file_tree(files, hashes)) == meta_paths(files).sort_by(path_le()),
{
    let tree = file_tree(files, hashes);
    lemma_tree_paths(files, hashes);
    lemma_plain_is_component(tree);
    law_file_paths_rise(tree);
    assert(meta_paths(files).no_duplicates()) by {
        assert forall|i: int, j: int| 0 <= i < files.len() && 0 <= j < files.len() && i
            != j implies meta_paths(files)[i] != meta_paths(files)[j] by {
            assert(files[i].meta_path != files[j].meta_path);
        }
    }
    lemma_in_order(tree_paths(Seq::empty(), tree), meta_paths(files));
}

/// A file by itself is seen from the directory that it lies in.
proof fn lemma_alone(b: BuilderModel)
    requires
        entries_of(b).len() == 1,
        plain_path(entries_of(b)[0].meta_path),
    ensures
        entries_of(b)[0].meta_path == seq![entries_of(b)[0].disk_path.last()],
        entries_of(b)[0].disk_path.len() > 0,
{
    let files = in_order(b.files);
    let paths = paths_of(files);
    let path = files[0].0;
    let n = parent_len(path);
    let meta = entries_of(b)[0].meta_path;
    assert(paths[0] == path);
    assert(path.take(n).is_prefix_of(path)) by {
        assert(path.take(n) =~= path.subrange(0, n));
    }
    assert(is_floor(paths, n));
    assert(is_prefix_len(paths, n, n));
    lemma_prefix_len(paths, n, n);
    assert(path.take(n).len() == n);
    assert(meta == path.skip(n));
    assert(meta[0] is Normal);
    if path.last() is Root {
        assert(meta[meta.len() - 1] is Normal);
    }
    assert(meta =~= seq![path.last()]);
}

/// The v1 and v2 fields of a hybrid torrent that is built list the same files, if their paths are
/// made of plain names and keep out of each other's way. Only a file that was added by itself and
/// needs no padding must not go under another name.
pub proof fn law_hybrid_fields_agree(b: BuilderModel, d: DiskModel)
    requires
        apart(entries_of(b)),
        b.single_file && b.name is Some && !is_padded(
            entries_of(b),
            fields_of(b, d).piece_length as int,
        ) ==> path_of(encode_utf8(b.name->0)) == entries_of(b)[0].meta_path,
    ensures
        built_hybrid(b, d) matches Ok(t) ==> !mismatch(t.meta),
{
    if let Ok(t) = built_hybrid(b, d) {
        let files = entries_of(b);
        let n = fields_of(b, d).piece_length as int;
        let hashes = all_hashes(d.contents, n);
        let infos = file_infos(padded_entries(files, n));
        let found = tree_paths(Seq::empty(), file_tree(files, hashes));
        assert(utf8_names(files));
        lemma_tree_in_order(files, hashes);
        lemma_listed_paths(files, n);
        assert(listed_paths(infos) == meta_paths(files));
        if infos.len() == 1 && b.single_file && !is_padded(files, n) {
            assert(files.len() == 1);
            let meta = files[0].meta_path;
            lemma_tree_paths(files, hashes);
            assert(meta_paths(files) =~= seq![meta]);
            lemma_path_le_total();
            lemma_in_order(seq![meta], meta_paths(files));
            assert(found == seq![meta]);
            if b.name is None {
                lemma_alone(b);
                let last = files[0].disk_path.last();
                assert(meta[0] == last);
                assert(utf8_path(meta));
                assert(valid_utf8(part_text(meta[0])));
                decode_utf8_encode_utf8(part_text(last));
                lemma_join_plain(Seq::empty(), part_text(last));
                assert(path_of(part_text(last)) =~= meta);
            }
        }
    }
}

} // verus!
