//! Which piece layers a torrent that is built has.
use vstd::prelude::*;

use crate::chunks::flat;
use crate::sorted_map::{entry, lemma_with_entry, lemma_with_entry_members, rises};
use crate::torrent::builder::fields::all_hashes;
use crate::torrent::builder::laws::trees::{
    all_part_ways, law_every_file_has_its_leaf, leaf_at, lemma_other_entry,
};
use crate::torrent::builder::layout::EntryModel;
use crate::torrent::builder::merkle::{file_root, piece_layer};
use crate::torrent::builder::tree::{layers_with, names_of};
use crate::torrent::builder::{
    built_hybrid, built_v2, contents_fit, entries_of, fields_of, BuilderModel, DiskModel,
};
use crate::torrent::laws::editing::file_tree_of;
use crate::torrent::model::{LayersModel, MetaModel, TreeModel};
use crate::torrent::write::meta_layers;

verus! {

/// What the piece layers hold of a file: its root, and its piece layer as one text.
pub open spec fn layer_entry(content: Seq<u8>, piece_length: int) -> (Seq<u8>, Seq<u8>) {
    (file_root(content), flat(piece_layer(content, piece_length)))
}

/// An entry of the piece layers is that of a file with more than one piece.
pub open spec fn is_of_a_file(
    e: (Seq<u8>, Seq<u8>),
    contents: Seq<Seq<u8>>,
    piece_length: int,
) -> bool {
    exists|i: int|
        0 <= i < contents.len() && (#[trigger] contents[i]).len() > piece_length && e
            == layer_entry(contents[i], piece_length)
}

/// Files with the same root have the same piece layer.
pub open spec fn roots_tell_apart(contents: Seq<Seq<u8>>, piece_length: int) -> bool {
    forall|i: int, j: int|
        #![trigger contents[i], contents[j]]
        0 <= i < contents.len() && 0 <= j < contents.len() && contents[i].len() > piece_length
            && contents[j].len() > piece_length && file_root(contents[i]) == file_root(contents[j])
            ==> piece_layer(contents[i], piece_length) == piece_layer(contents[j], piece_length)
}

/// The piece layers are those of the files with more than one piece. Each of these files has an
/// entry under its root, and there are no others.
pub proof fn law_layers_are_of_the_files(contents: Seq<Seq<u8>>, piece_length: int)
    requires
        piece_length >= 0,
    ensures
        rises(layers_with(all_hashes(contents, piece_length))),
        forall|e: (Seq<u8>, Seq<u8>)| #[trigger]
            layers_with(all_hashes(contents, piece_length)).contains(e) ==> is_of_a_file(
                e,
                contents,
                piece_length,
            ),
        forall|i: int|
            0 <= i < contents.len() && (#[trigger] contents[i]).len() > piece_length ==> entry(
                layers_with(all_hashes(contents, piece_length)),
                file_root(contents[i]),
            ) is Some,
    decreases contents.len(),
{
    if contents.len() > 0 {
        let t = contents.drop_last();
        let c = contents.last();
        let before = layers_with(all_hashes(t, piece_length));
        let layers = layers_with(all_hashes(contents, piece_length));
        law_layers_are_of_the_files(t, piece_length);
        assert(all_hashes(contents, piece_length).drop_last() =~= all_hashes(t, piece_length));
        let (root, layer) = layer_entry(c, piece_length);
        if c.len() > piece_length {
            lemma_with_entry(before, root, layer);
            lemma_with_entry_members(before, root, layer);
        }
        assert forall|e: (Seq<u8>, Seq<u8>)| #[trigger] layers.contains(e) implies is_of_a_file(
            e,
            contents,
            piece_length,
        ) by {
            if c.len() > piece_length && e == (root, layer) {
                assert(contents[contents.len() - 1].len() > piece_length);
            } else {
                assert(before.contains(e));
                let i = choose|i: int|
                    0 <= i < t.len() && (#[trigger] t[i]).len() > piece_length && e == layer_entry(
                        t[i],
                        piece_length,
                    );
                assert(contents[i] == t[i]);
            }
        }
        assert forall|i: int|
            0 <= i < contents.len() && (#[trigger] contents[i]).len() > piece_length implies entry(
            layers,
            file_root(contents[i]),
        ) is Some by {
            if i < t.len() {
                assert(t[i] == contents[i]);
                if c.len() > piece_length && file_root(contents[i]) != root {
                    lemma_other_entry(before, root, layer, file_root(contents[i]));
                }
            }
        }
    }
}

/// If files with the same root have the same piece layer, each file with more than one piece finds
/// its own under its root.
pub proof fn law_every_file_has_its_layer(contents: Seq<Seq<u8>>, piece_length: int, i: int)
    requires
        piece_length >= 0,
        roots_tell_apart(contents, piece_length),
        0 <= i < contents.len(),
        contents[i].len() > piece_length,
    ensures
        entry(layers_with(all_hashes(contents, piece_length)), file_root(contents[i])) == Some(
            flat(piece_layer(contents[i], piece_length)),
        ),
{
    let layers = layers_with(all_hashes(contents, piece_length));
    let root = file_root(contents[i]);
    law_layers_are_of_the_files(contents, piece_length);
    lemma_entry_listed(layers, root);
    let e = (root, entry(layers, root)->0);
    assert(is_of_a_file(e, contents, piece_length));
    let j = choose|j: int|
        0 <= j < contents.len() && (#[trigger] contents[j]).len() > piece_length && e
            == layer_entry(contents[j], piece_length);
    assert(file_root(contents[j]) == file_root(contents[i]));
}

proof fn lemma_entry_listed(layers: LayersModel, key: Seq<u8>)
    ensures
        entry(layers, key) matches Some(v) ==> layers.contains((key, v)),
    decreases layers.len(),
{
    if layers.len() > 0 {
        if layers.last().0 == key {
            assert(layers[layers.len() - 1] == (key, layers.last().1));
        } else {
            let t = layers.drop_last();
            lemma_entry_listed(t, key);
            if let Some(v) = entry(t, key) {
                let i = choose|i: int| 0 <= i < t.len() && t[i] == (key, v);
                assert(layers[i] == (key, v));
            }
        }
    }
}

/// A file tree says of a file how long it is and what its root is. The root is missing exactly if
/// the file is empty. If the file has more than one piece, the piece layers hold its layer under
/// this root.
pub open spec fn is_hashed(
    tree: TreeModel,
    layers: LayersModel,
    path: Seq<Seq<u8>>,
    content: Seq<u8>,
    piece_length: int,
) -> bool {
    leaf_at(tree, path) matches Some(leaf) && {
        &&& leaf.length == content.len()
        &&& leaf.pieces_root is None <==> content.len() == 0
        &&& content.len() > 0 ==> leaf.pieces_root == Some(file_root(content))
        &&& content.len() > piece_length ==> entry(layers, leaf.pieces_root->0) == Some(
            flat(piece_layer(content, piece_length)),
        )
    }
}

/// A torrent has a leaf for each file, and the piece layers of the files with more than one piece
/// and no others.
pub open spec fn all_hashed(
    meta: MetaModel,
    files: Seq<EntryModel>,
    contents: Seq<Seq<u8>>,
    piece_length: int,
) -> bool {
    match (file_tree_of(meta), meta_layers(meta)) {
        (Some(tree), Some(layers)) => {
            &&& forall|i: int|
                0 <= i < files.len() ==> is_hashed(
                    tree,
                    layers,
                    names_of((#[trigger] files[i]).meta_path),
                    contents[i],
                    piece_length,
                )
            &&& forall|e: (Seq<u8>, Seq<u8>)| #[trigger]
                layers.contains(e) ==> is_of_a_file(e, contents, piece_length)
            &&& rises(layers)
        },
        _ => false,
    }
}

/// A v2 or hybrid torrent has the leaf of every file that was added. For every file that is longer
/// than a piece, the piece layers have an entry with the root in the leaf of this file, which holds
/// the hashes of its piece layer one behind the other. There are no other entries.
pub proof fn law_built_torrents_hash_every_file(b: BuilderModel, d: DiskModel)
    requires
        contents_fit(b, d),
        all_part_ways(entries_of(b)),
        roots_tell_apart(d.contents, fields_of(b, d).piece_length as int),
    ensures
        built_v2(b, d) matches Ok(t) ==> all_hashed(
            t.meta,
            entries_of(b),
            d.contents,
            fields_of(b, d).piece_length as int,
        ),
        built_hybrid(b, d) matches Ok(t) ==> all_hashed(
            t.meta,
            entries_of(b),
            d.contents,
            fields_of(b, d).piece_length as int,
        ),
{
    let n = fields_of(b, d).piece_length as int;
    let files = entries_of(b);
    let hashes = all_hashes(d.contents, n);
    let layers = layers_with(hashes);
    let tree = crate::torrent::builder::tree::file_tree(files, hashes);
    law_layers_are_of_the_files(d.contents, n);
    assert forall|i: int| 0 <= i < files.len() implies is_hashed(
        tree,
        layers,
        names_of((#[trigger] files[i]).meta_path),
        d.contents[i],
        n,
    ) by {
        law_every_file_has_its_leaf(files, hashes, i);
        assert(d.contents[i].len() == files[i].length);
        if d.contents[i].len() > n {
            law_every_file_has_its_layer(d.contents, n, i);
        }
    }
}

} // verus!
