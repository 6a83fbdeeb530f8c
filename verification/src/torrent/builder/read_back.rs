//! A torrent that is built can be read back.
use vstd::prelude::*;
use vstd::utf8::{encode_utf8, valid_utf8};

use crate::bencode::model::{encode, valid};
use crate::path::{path_of, Part};
use crate::sorted_map::{entry, lemma_with_entry, lemma_with_entry_members, rises, with_entry};
use crate::torrent::builder::agreement::{apart, law_hybrid_fields_agree, plain_path};
use crate::torrent::builder::error::Obstacle;
use crate::torrent::builder::fields::{
    all_hashes, file_infos, is_padded, pad_entry, pad_len, padded_entries,
};
use crate::torrent::builder::layout::EntryModel;
use crate::torrent::builder::merkle::FileHashes;
use crate::torrent::builder::tree::{file_tree, leaf_with, names_of, with_file};
use crate::torrent::builder::{
    built_hybrid, built_v1, built_v2, contents_fit, entries_of, fields_of, BuilderModel, DiskModel,
};
use crate::torrent::fidelity::{law_bytes_hold_the_torrent, torrent_in, tree_nesting};
use crate::torrent::laws::{
    all_urls_parse, lemma_normal_urls_stay, normal, normal_urls, readable_meta, readable_node,
    readable_piece_length, readable_tree, reparsed,
};
use crate::torrent::model::{LeafModel, NodeModel, TorrentModel, TreeModel};
use crate::torrent::paths::plain_name;
use crate::torrent::types::{
    lemma_directory, lemma_node_smaller, FileTree, FileTreeNode, Torrent, TorrentMeta,
};
use crate::torrent::write::torrent_value;

verus! {

/// A tree whose names are texts and whose root hashes have 32 bytes.
spec fn sized_tree(tree: TreeModel) -> bool
    decreases tree,
{
    forall|i: int|
        0 <= i < tree.len() ==> valid_utf8((#[trigger] tree[i]).0) && sized_node(tree[i].1)
}

spec fn sized_node(node: NodeModel) -> bool
    decreases node,
{
    match node {
        NodeModel::Directory(tree) => sized_tree(tree),
        NodeModel::File(leaf) => leaf.pieces_root matches Some(root) ==> root.len() == 32,
    }
}

/// Every tree that a torrent holds is such a tree.
proof fn lemma_sized_tree(tree: FileTree)
    ensures
        sized_tree(tree@),
    decreases tree,
{
    tree.0.lemma_keys_are_texts();
    let m = tree@;
    assert forall|i: int| 0 <= i < m.len() implies valid_utf8((#[trigger] m[i]).0) && sized_node(
        m[i].1,
    ) by {
        assert(m[i].0 == tree.0@[i].0);
        let node = tree.0@[i].1;
        assert(m[i].1 == node@);
        lemma_node_smaller(tree, i);
        match node {
            FileTreeNode::Directory(sub) => {
                assert(decreases_to!(node => sub));
                lemma_directory(sub);
                lemma_sized_tree(sub);
                reveal_with_fuel(sized_node, 2);
            },
            FileTreeNode::File(leaf) => {
                if let Some(root) = leaf.pieces_root {
                    assert(root@.len() == 32);
                }
            },
        }
    }
}

/// A leaf whose length fits and that has a root exactly if it is not empty.
spec fn sound_leaf(leaf: LeafModel) -> bool {
    &&& leaf.length <= i64::MAX
    &&& leaf.length == 0 <==> leaf.pieces_root is None
}

/// A sorted tree whose directories have names and whose leaves are sound.
spec fn sound_tree(tree: TreeModel) -> bool
    decreases tree,
{
    &&& rises(tree)
    &&& forall|i: int| 0 <= i < tree.len() ==> sound_node((#[trigger] tree[i]).0, tree[i].1)
}

spec fn sound_node(name: Seq<u8>, node: NodeModel) -> bool
    decreases node,
{
    match node {
        NodeModel::Directory(tree) => name.len() > 0 && sound_tree(tree),
        NodeModel::File(leaf) => sound_leaf(leaf),
    }
}

/// Putting a sound node into a tree keeps it sound.
proof fn lemma_sound_with_entry(tree: TreeModel, name: Seq<u8>, node: NodeModel)
    requires
        sound_tree(tree),
        sound_node(name, node),
    ensures
        sound_tree(with_entry(tree, name, node)),
{
    reveal_with_fuel(sound_tree, 2);
    lemma_with_entry(tree, name, node);
    lemma_with_entry_members(tree, name, node);
    let t = with_entry(tree, name, node);
    assert forall|i: int| 0 <= i < t.len() implies sound_node((#[trigger] t[i]).0, t[i].1) by {
        assert(t.contains(t[i]));
        if t[i] != (name, node) {
            let k = choose|k: int| 0 <= k < tree.len() && tree[k] == t[i];
            assert(sound_node(tree[k].0, tree[k].1));
        }
    }
}

/// What stands in a sound tree under a name is sound.
proof fn lemma_sound_entry(tree: TreeModel, k: int, name: Seq<u8>)
    requires
        sound_tree(tree),
        0 <= k <= tree.len(),
    ensures
        entry(tree.take(k), name) matches Some(node) ==> sound_node(name, node),
    decreases k,
{
    reveal_with_fuel(sound_tree, 2);
    if k > 0 {
        let t = tree.take(k);
        assert(t.drop_last() =~= tree.take(k - 1));
        assert(t.last() == tree[k - 1]);
        lemma_sound_entry(tree, k - 1, name);
        assert(sound_node(tree[k - 1].0, tree[k - 1].1));
    }
}

/// Putting a file into a sound tree keeps it sound.
proof fn lemma_sound_with_file(
    tree: TreeModel,
    dirs: Seq<Seq<u8>>,
    name: Seq<u8>,
    leaf: LeafModel,
)
    requires
        sound_tree(tree),
        forall|i: int| 0 <= i < dirs.len() ==> (#[trigger] dirs[i]).len() > 0,
        sound_leaf(leaf),
    ensures
        sound_tree(with_file(tree, dirs, name, leaf)),
    decreases dirs.len(),
{
    reveal_with_fuel(sound_node, 2);
    if dirs.len() == 0 {
        lemma_sound_with_entry(tree, name, NodeModel::File(leaf));
    } else {
        let sub = match entry(tree, dirs[0]) {
            Some(NodeModel::Directory(sub)) => sub,
            _ => Seq::empty(),
        };
        assert(tree.take(tree.len() as int) =~= tree);
        lemma_sound_entry(tree, tree.len() as int, dirs[0]);
        assert(sound_tree(sub));
        let rest = dirs.skip(1);
        assert forall|i: int| 0 <= i < rest.len() implies (#[trigger] rest[i]).len() > 0 by {
            assert(rest[i] == dirs[i + 1]);
        }
        lemma_sound_with_file(sub, rest, name, leaf);
        let node = NodeModel::Directory(with_file(sub, rest, name, leaf));
        assert(sound_node(dirs[0], node));
        lemma_sound_with_entry(tree, dirs[0], node);
    }
}

/// There is a name on a path, and none is empty.
pub open spec fn named_path(path: Seq<Part>) -> bool {
    &&& path.len() > 0
    &&& forall|i: int| 0 <= i < path.len() ==> (#[trigger] names_of(path)[i]).len() > 0
}

/// All files have paths made of names.
pub open spec fn named_files(files: Seq<EntryModel>) -> bool {
    forall|i: int| 0 <= i < files.len() ==> named_path((#[trigger] files[i]).meta_path)
}

/// The lengths of all files fit in a bencode integer.
pub open spec fn short_files(files: Seq<EntryModel>) -> bool {
    forall|i: int| 0 <= i < files.len() ==> (#[trigger] files[i]).length <= i64::MAX
}

/// The tree of some files is sound.
proof fn lemma_sound_file_tree(files: Seq<EntryModel>, hashes: Seq<FileHashes>)
    requires
        forall|i: int|
            0 <= i < files.len() ==> named_path((#[trigger] files[i]).meta_path) && sound_leaf(
                leaf_with(files[i].length, hashes[i]),
            ),
    ensures
        sound_tree(file_tree(files, hashes)),
    decreases files.len(),
{
    reveal_with_fuel(sound_tree, 2);
    if files.len() > 0 {
        let rest = files.drop_last();
        assert forall|i: int| 0 <= i < rest.len() implies named_path(
            (#[trigger] rest[i]).meta_path,
        ) && sound_leaf(leaf_with(rest[i].length, hashes[i])) by {
            assert(rest[i] == files[i]);
        }
        lemma_sound_file_tree(rest, hashes);
        let f = files[files.len() - 1];
        let names = names_of(f.meta_path);
        let dirs = names.drop_last();
        assert forall|i: int| 0 <= i < dirs.len() implies (#[trigger] dirs[i]).len() > 0 by {
            assert(dirs[i] == names[i]);
        }
        lemma_sound_with_file(
            file_tree(rest, hashes),
            dirs,
            names.last(),
            leaf_with(f.length, hashes[files.len() - 1]),
        );
    }
}

/// A sound tree with hashes of the right size can be read back.
proof fn lemma_readable_tree(tree: TreeModel)
    requires
        sized_tree(tree),
        sound_tree(tree),
    ensures
        readable_tree(tree),
    decreases tree,
{
    reveal_with_fuel(readable_node, 2);
    reveal_with_fuel(sized_node, 2);
    reveal_with_fuel(sound_node, 2);
    assert forall|i: int| 0 <= i < tree.len() implies valid_utf8((#[trigger] tree[i]).0)
        && readable_node(tree[i].0, tree[i].1) by {
        assert(sized_node(tree[i].1));
        assert(sound_node(tree[i].0, tree[i].1));
        match tree[i].1 {
            NodeModel::Directory(sub) => {
                assert(decreases_to!(tree => tree[i]));
                assert(decreases_to!(tree[i] => tree[i].1));
                assert(decreases_to!(tree[i].1 => sub));
                lemma_readable_tree(sub);
            },
            NodeModel::File(_) => {},
        }
    }
}

/// Padding files are not longer than a piece.
proof fn lemma_padded_lengths(files: Seq<EntryModel>, n: int)
    requires
        0 < n <= i64::MAX,
        short_files(files),
    ensures
        forall|i: int|
            0 <= i < padded_entries(files, n).len() ==> (#[trigger] padded_entries(
                files,
                n,
            )[i]).length <= i64::MAX,
    decreases files.len(),
{
    if files.len() > 0 {
        let rest = files.drop_last();
        assert forall|i: int| 0 <= i < rest.len() implies (#[trigger] rest[i]).length <= i64::MAX by {
            assert(rest[i] == files[i]);
        }
        lemma_padded_lengths(rest, n);
        let p = pad_len(files.last().length as int, n);
        vstd::arithmetic::div_mod::lemma_mod_bound(n - files.last().length as int % n, n);
        assert(0 <= p < n);
        let f = files[files.len() - 1];
        assert(f.length <= i64::MAX);
        let before = padded_entries(rest, n);
        let all = padded_entries(files, n);
        assert forall|i: int| 0 <= i < all.len() implies (#[trigger] all[i]).length <= i64::MAX by {
            if i < before.len() {
                assert(all[i] == before[i]);
            } else if i == before.len() {
                assert(all[i] == f);
            } else {
                assert(all[i] == pad_entry(p));
            }
        }
    }
}

/// A torrent that is built can be read back, if its piece length and the lengths of its files fit
/// in a bencode integer. With v2 fields, the files must have paths made of names.
pub proof fn law_built_torrents_are_readable(t: Torrent, b: BuilderModel, d: DiskModel)
    requires
        contents_fit(b, d),
        readable_piece_length(fields_of(b, d).piece_length),
        short_files(entries_of(b)),
    ensures
        built_v1(b, d) == Ok::<TorrentModel, Obstacle>(t@) ==> readable_meta(t@.meta),
        named_files(entries_of(b)) && built_v2(b, d) == Ok::<TorrentModel, Obstacle>(t@)
            ==> readable_meta(t@.meta),
        named_files(entries_of(b)) && built_hybrid(b, d) == Ok::<TorrentModel, Obstacle>(t@)
            ==> readable_meta(t@.meta),
{
    let files = entries_of(b);
    let n = fields_of(b, d).piece_length as int;
    let hashes = all_hashes(d.contents, n);
    if named_files(files) {
        assert forall|i: int| 0 <= i < files.len() implies named_path(
            (#[trigger] files[i]).meta_path,
        ) && sound_leaf(leaf_with(files[i].length, hashes[i])) by {
            assert(d.contents[i].len() == files[i].length);
        }
        lemma_sound_file_tree(files, hashes);
    }
    lemma_padded_lengths(files, n);
    let infos = file_infos(files);
    let padded = file_infos(padded_entries(files, n));
    assert forall|i: int| 0 <= i < infos.len() implies (#[trigger] infos[i]).length <= i64::MAX by {
        assert(files[i].length <= i64::MAX);
    }
    assert forall|i: int| 0 <= i < padded.len() implies (#[trigger] padded[i]).length
        <= i64::MAX by {
        assert(padded_entries(files, n)[i].length <= i64::MAX);
    }
    match t.meta {
        TorrentMeta::V1 { info } => {
            assert forall|i: int| 0 <= i < info@.kind.pieces.len() implies (
            #[trigger] info@.kind.pieces[i]).len() == 20 by {
                assert(info.kind.pieces@[i]@.len() == 20);
            }
        },
        TorrentMeta::V2 { info, piece_layers } => {
            lemma_sized_tree(info.kind.file_tree);
            piece_layers.0.lemma_key_len();
            assert forall|i: int| 0 <= i < piece_layers@.len() implies (
            #[trigger] piece_layers@[i]).0.len() == 32 by {
                assert(piece_layers.0@[i].0.len() == 32);
            }
            if named_files(files) && built_v2(b, d) == Ok::<TorrentModel, Obstacle>(t@) {
                lemma_readable_tree(info@.kind.file_tree);
            }
        },
        TorrentMeta::Hybrid { info, piece_layers } => {
            lemma_sized_tree(info.kind.v2.file_tree);
            piece_layers.0.lemma_key_len();
            assert forall|i: int| 0 <= i < piece_layers@.len() implies (
            #[trigger] piece_layers@[i]).0.len() == 32 by {
                assert(piece_layers.0@[i].0.len() == 32);
            }
            assert forall|i: int| 0 <= i < info@.kind.v1.pieces.len() implies (
            #[trigger] info@.kind.v1.pieces[i]).len() == 20 by {
                assert(info.kind.v1.pieces@[i]@.len() == 20);
            }
            if named_files(files) && built_hybrid(b, d) == Ok::<TorrentModel, Obstacle>(t@) {
                lemma_readable_tree(info@.kind.v2.file_tree);
            }
        },
    }
}

/// A v1-only torrent that is built is found again in the bytes that are written for it, with its
/// URLs in normal form, unless one of them is no URL then.
pub proof fn law_built_v1_reads_back(t: Torrent, b: BuilderModel, d: DiskModel)
    requires
        contents_fit(b, d),
        readable_piece_length(fields_of(b, d).piece_length),
        short_files(entries_of(b)),
        valid(torrent_value(t@)),
    ensures
        built_v1(b, d) == Ok::<TorrentModel, Obstacle>(t@) ==> torrent_in(
            encode(torrent_value(t@)),
        ) == if all_urls_parse(t@) {
            Some(normal(reparsed(t@)))
        } else {
            None
        },
        normal_urls(t@) ==> all_urls_parse(t@) && reparsed(t@) == t@,
{
    law_built_torrents_are_readable(t, b, d);
    if normal_urls(t@) {
        lemma_normal_urls_stay(t@);
    }
    if built_v1(b, d) == Ok::<TorrentModel, Obstacle>(t@) {
        law_bytes_hold_the_torrent(t@, Seq::empty());
        assert(encode(torrent_value(t@)) + Seq::<u8>::empty() =~= encode(torrent_value(t@)));
    }
}

/// A v2-only torrent that is built is found again in the bytes that are written for it, in normal
/// form and with its URLs in normal form, unless one of them is no URL then. Its file tree must not
/// be nested too deeply.
pub proof fn law_built_v2_reads_back(t: Torrent, b: BuilderModel, d: DiskModel)
    requires
        contents_fit(b, d),
        readable_piece_length(fields_of(b, d).piece_length),
        short_files(entries_of(b)),
        named_files(entries_of(b)),
        valid(torrent_value(t@)),
        2 + tree_nesting(t@.meta) <= 64,
    ensures
        built_v2(b, d) == Ok::<TorrentModel, Obstacle>(t@) ==> torrent_in(
            encode(torrent_value(t@)),
        ) == if all_urls_parse(t@) {
            Some(normal(reparsed(t@)))
        } else {
            None
        },
        normal_urls(t@) ==> all_urls_parse(t@) && reparsed(t@) == t@,
{
    law_built_torrents_are_readable(t, b, d);
    if normal_urls(t@) {
        lemma_normal_urls_stay(t@);
    }
    if built_v2(b, d) == Ok::<TorrentModel, Obstacle>(t@) {
        law_bytes_hold_the_torrent(t@, Seq::empty());
        assert(encode(torrent_value(t@)) + Seq::<u8>::empty() =~= encode(torrent_value(t@)));
    }
}

/// A hybrid torrent that is built is found again in the bytes that are written for it, in normal
/// form and with its URLs in normal form, unless one of them is no URL then. Its file tree must not
/// be nested too deeply, and its v1 and v2 fields must agree.
pub proof fn law_built_hybrid_reads_back(t: Torrent, b: BuilderModel, d: DiskModel)
    requires
        contents_fit(b, d),
        readable_piece_length(fields_of(b, d).piece_length),
        short_files(entries_of(b)),
        apart(entries_of(b)),
        b.single_file && b.name is Some && !is_padded(
            entries_of(b),
            fields_of(b, d).piece_length as int,
        ) ==> path_of(encode_utf8(b.name->0)) == entries_of(b)[0].meta_path,
        valid(torrent_value(t@)),
        2 + tree_nesting(t@.meta) <= 64,
    ensures
        built_hybrid(b, d) == Ok::<TorrentModel, Obstacle>(t@) ==> torrent_in(
            encode(torrent_value(t@)),
        ) == if all_urls_parse(t@) {
            Some(normal(reparsed(t@)))
        } else {
            None
        },
        normal_urls(t@) ==> all_urls_parse(t@) && reparsed(t@) == t@,
{
    assert forall|i: int| 0 <= i < entries_of(b).len() implies named_path(
        (#[trigger] entries_of(b)[i]).meta_path,
    ) by {
        let path = entries_of(b)[i].meta_path;
        assert(plain_path(path));
        assert forall|k: int| 0 <= k < path.len() implies (#[trigger] names_of(path)[k]).len()
            > 0 by {
            assert(path[k] matches Part::Normal(name) && plain_name(name));
        }
    }
    law_built_torrents_are_readable(t, b, d);
    law_hybrid_fields_agree(b, d);
    if normal_urls(t@) {
        lemma_normal_urls_stay(t@);
    }
    if built_hybrid(b, d) == Ok::<TorrentModel, Obstacle>(t@) {
        law_bytes_hold_the_torrent(t@, Seq::empty());
        assert(encode(torrent_value(t@)) + Seq::<u8>::empty() =~= encode(torrent_value(t@)));
    }
}

} // verus!
