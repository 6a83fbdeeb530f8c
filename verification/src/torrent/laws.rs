//! What reading and writing a torrent have to do with each other.
use vstd::prelude::*;
use vstd::utf8::{encode_utf8_decode_utf8, encode_utf8_valid_utf8, valid_utf8};

use crate::bencode::model::Value;
use crate::chunks::{flat, lemma_cut_flat};
use crate::lex::lex_lt;
use crate::path::{join, Part};
use crate::sorted_map::{entry, lemma_entry_concat};
use crate::torrent::attr::law_attr_reads_back;
use crate::torrent::error::Rejection;
use crate::torrent::fields::{
    field, lemma_all_ok, lemma_some_error, required_text, text_field, text_of, Entries,
};
use crate::torrent::files::{file_info_of, texts_of};
use crate::torrent::keys::{key, lemma_info_keys, lemma_torrent_keys};
use crate::torrent::model::{
    FileInfoModel, FileModeModel, HybridModel, InfoModel, LayersModel, LeafModel, MetaModel,
    NodeModel, TorrentModel, TreeModel, V1Model, V2Model,
};
use crate::torrent::read::{
    date_field, file_mode_fields, files_of, info_of, layer_of, layers_field, layers_of, meta_of,
    mismatch, piece_length_field, pieces_field, private_field, tiers_of, torrent_of, trackers_of,
    tree_field, url_list_of, url_of, v1_of, v2_piece_length, web_seeds_field, with_versions,
};
use crate::torrent::tree::{leaf_of, node_paths, nodes_of, tree_of, tree_paths};
use crate::torrent::write::{
    date_value, file_info_value, first_tracker, info_entries, info_value, layers_value, leaf_value,
    length_value, maybe, meta_layers, named_leaf_value, node_value, one, opt_text_value, text_value,
    texts_value, torrent_entries, torrent_value, tree_entries,
};
use crate::web::url_text;

pub mod editing;
pub mod hybrid;
pub mod owning;
pub mod reading;
pub mod rejecting;
pub mod sizes;
pub mod writing;

verus! {

/// Different names have different keys.
proof fn lemma_key_injective(a: &str, b: &str)
    ensures
        key(a) == key(b) ==> a@ == b@,
{
    encode_utf8_decode_utf8(a@);
    encode_utf8_decode_utf8(b@);
}

/// The entry of a field that may be there.
proof fn lemma_maybe(name: &str, v: Option<Value>)
    ensures
        forall|k: Seq<u8>| #[trigger]
            entry(maybe(name, v), k) == if k == key(name) {
                v
            } else {
                None
            },
{
    assert forall|k: Seq<u8>| #[trigger]
        entry(maybe(name, v), k) == if k == key(name) {
            v
        } else {
            None
        } by {
        reveal_with_fuel(entry, 2);
        if let Some(x) = v {
            assert(one(name, x).drop_last() =~= Seq::<(Seq<u8>, Value)>::empty());
        }
    }
}

/// The entries of two lists, one behind the other.
proof fn lemma_concat(a: Entries, b: Entries)
    ensures
        forall|k: Seq<u8>| #[trigger]
            entry(a + b, k) == match entry(b, k) {
                Some(v) => Some(v),
                None => entry(a, k),
            },
{
    assert forall|k: Seq<u8>| #[trigger]
        entry(a + b, k) == match entry(b, k) {
            Some(v) => Some(v),
            None => entry(a, k),
        } by {
        lemma_entry_concat(a, b, k);
    }
}

/// A text reads back.
proof fn lemma_text(s: Seq<char>)
    ensures
        text_of(text_value(s)) == Ok::<Seq<char>, Rejection>(s),
{
    encode_utf8_valid_utf8(s);
    encode_utf8_decode_utf8(s);
}

/// Some texts read back.
proof fn lemma_texts(s: Seq<Seq<char>>)
    ensures
        texts_of(texts_value(s)->List_0) == Ok::<Seq<Seq<char>>, Rejection>(s),
{
    let items = texts_value(s)->List_0;
    let f = |v: Value| text_of(v);
    assert forall|i: int| 0 <= i < items.len() implies #[trigger] f(items[i]) == Ok::<
        Seq<char>,
        Rejection,
    >(s[i]) by {
        lemma_text(s[i]);
    }
    lemma_all_ok(items, s, f);
}

/// A URL in normal form, which parses as itself.
pub open spec fn normal_url(u: Seq<char>) -> bool {
    url_text(u) == Some(u)
}

/// All of some texts are URLs.
pub open spec fn urls_parse(urls: Seq<Seq<char>>) -> bool {
    forall|i: int| 0 <= i < urls.len() ==> url_text(#[trigger] urls[i]) is Some
}

/// All texts in some tiers are URLs.
pub open spec fn tiers_parse(tiers: Seq<Seq<Seq<char>>>) -> bool {
    forall|i: int| 0 <= i < tiers.len() ==> urls_parse(#[trigger] tiers[i])
}

/// The normal forms of some URLs.
pub open spec fn reparsed_urls(urls: Seq<Seq<char>>) -> Seq<Seq<char>> {
    Seq::new(urls.len(), |i: int| url_text(urls[i])->0)
}

/// Some tiers with every URL in normal form.
pub open spec fn reparsed_tiers(tiers: Seq<Seq<Seq<char>>>) -> Seq<Seq<Seq<char>>> {
    Seq::new(tiers.len(), |i: int| reparsed_urls(tiers[i]))
}

/// Some URLs read back in normal form.
proof fn lemma_urls(s: Seq<Seq<char>>)
    ensures
        url_list_of(texts_value(s)) == if urls_parse(s) {
            Ok::<Seq<Seq<char>>, Rejection>(reparsed_urls(s))
        } else {
            Err(Rejection::InvalidUrl)
        },
{
    let items = texts_value(s)->List_0;
    let f = |v: Value| url_of(v);
    assert forall|i: int| 0 <= i < items.len() implies #[trigger] f(items[i]) == match url_text(
        s[i],
    ) {
        Some(u) => Ok::<Seq<char>, Rejection>(u),
        None => Err(Rejection::InvalidUrl),
    } by {
        lemma_text(s[i]);
    }
    if urls_parse(s) {
        assert forall|i: int| 0 <= i < items.len() implies #[trigger] f(items[i]) == Ok::<
            Seq<char>,
            Rejection,
        >(reparsed_urls(s)[i]) by {
            assert(url_text(s[i]) is Some);
        }
        lemma_all_ok(items, reparsed_urls(s), f);
    } else {
        let k = choose|k: int| 0 <= k < s.len() && url_text(#[trigger] s[k]) is None;
        assert(f(items[k]) is Err);
        lemma_some_error(items, f, Rejection::InvalidUrl, k);
    }
}

/// A leaf that can be read back: its length fits, and it has a root of 32 bytes exactly if it is
/// not empty.
pub open spec fn readable_leaf(leaf: LeafModel) -> bool {
    &&& leaf.length <= i64::MAX
    &&& leaf.length == 0 <==> leaf.pieces_root is None
    &&& leaf.pieces_root matches Some(root) ==> root.len() == 32
}

/// The fields of a leaf are found in its dictionary.
proof fn lemma_leaf_fields(leaf: LeafModel)
    ensures
        leaf_value(leaf) is Dict,
        field(leaf_value(leaf)->Dict_0, "length") == Some(length_value(leaf.length)),
        field(leaf_value(leaf)->Dict_0, "pieces root") == match leaf.pieces_root {
            Some(root) => Some(Value::Bytes(root)),
            None => None,
        },
{
    let root = match leaf.pieces_root {
        Some(root) => Some(Value::Bytes(root)),
        None => None,
    };
    let length = Some(length_value(leaf.length));
    let d = leaf_value(leaf)->Dict_0;
    lemma_maybe("length", length);
    lemma_maybe("pieces root", root);
    lemma_concat(maybe("length", length), maybe("pieces root", root));
    lemma_key_injective("length", "pieces root");
    reveal_strlit("length");
    reveal_strlit("pieces root");
    assert(d == maybe("length", length) + maybe("pieces root", root));
    assert(field(d, "length") == length);
    assert(field(d, "pieces root") == root);
}

/// A file leaf that is written reads back as itself, if its length fits in a bencode integer and it
/// has a root exactly if it is not empty.
pub proof fn law_leaf_reads_back(leaf: LeafModel)
    requires
        readable_leaf(leaf),
    ensures
        leaf_of(leaf_value(leaf)) == Ok::<LeafModel, Rejection>(leaf),
{
    lemma_leaf_fields(leaf);
}

/// A tree that can be read back: the names are valid UTF-8, an empty name leads to a file, and
/// every leaf can be read back.
pub open spec fn readable_tree(tree: TreeModel) -> bool
    decreases tree,
{
    forall|i: int|
        0 <= i < tree.len() ==> valid_utf8((#[trigger] tree[i]).0) && readable_node(
            tree[i].0,
            tree[i].1,
        )
}

/// A node that can be read back.
pub open spec fn readable_node(name: Seq<u8>, node: NodeModel) -> bool
    decreases node,
{
    match node {
        NodeModel::Directory(tree) => name.len() > 0 && readable_tree(tree),
        NodeModel::File(leaf) => readable_leaf(leaf),
    }
}

/// How a node reads back: a file with a name becomes a directory whose only node, under an empty
/// name, is the file.
pub open spec fn normal_node(name: Seq<u8>, node: NodeModel) -> NodeModel
    decreases node,
{
    match node {
        NodeModel::Directory(tree) => NodeModel::Directory(normal_tree(tree)),
        NodeModel::File(leaf) => if name.len() == 0 {
            node
        } else {
            NodeModel::Directory(seq![(Seq::<u8>::empty(), node)])
        },
    }
}

/// How a tree reads back.
pub open spec fn normal_tree(tree: TreeModel) -> TreeModel
    decreases tree,
{
    Seq::new(
        tree.len(),
        |i: int|
            if 0 <= i < tree.len() {
                (tree[i].0, normal_node(tree[i].0, tree[i].1))
            } else {
                arbitrary()
            },
    )
}

/// A file with a name reads back.
proof fn lemma_named_leaf(leaf: LeafModel)
    requires
        readable_leaf(leaf),
    ensures
        tree_of(named_leaf_value(leaf)) == Ok::<
            TreeModel,
            Rejection,
        >(seq![(Seq::<u8>::empty(), NodeModel::File(leaf))]),
{
    law_leaf_reads_back(leaf);
    let inner = seq![(Seq::<u8>::empty(), leaf_value(leaf))];
    let none = Seq::<(Seq<u8>, NodeModel)>::empty();
    assert(inner.drop_last() =~= Seq::<(Seq<u8>, Value)>::empty());
    reveal_with_fuel(nodes_of, 2);
    assert(nodes_of(inner.drop_last()) == Ok::<TreeModel, Rejection>(none));
    assert(none.push((Seq::<u8>::empty(), NodeModel::File(leaf))) =~= seq![
        (Seq::<u8>::empty(), NodeModel::File(leaf)),
    ]);
    assert(nodes_of(inner) == Ok::<TreeModel, Rejection>(
        seq![(Seq::<u8>::empty(), NodeModel::File(leaf))],
    ));
}

/// A tree reads back in its normal form.
proof fn lemma_tree(tree: TreeModel, k: int)
    requires
        0 <= k <= tree.len(),
        readable_tree(tree),
    ensures
        nodes_of(tree_entries(tree).take(k)) == Ok::<TreeModel, Rejection>(
            normal_tree(tree).take(k),
        ),
    decreases tree, k,
{
    let e = tree_entries(tree).take(k);
    if k > 0 {
        lemma_tree(tree, k - 1);
        let (name, node) = tree[k - 1];
        assert(e.drop_last() =~= tree_entries(tree).take(k - 1));
        assert(e.last() == (name, node_value(name, node)));
        assert(normal_tree(tree).take(k) =~= normal_tree(tree).take(k - 1).push(
            (name, normal_node(name, node)),
        ));
        reveal_with_fuel(readable_tree, 2);
        reveal_with_fuel(node_value, 2);
        reveal_with_fuel(normal_node, 2);
        reveal_with_fuel(tree_of, 2);
        assert(decreases_to!(tree => tree[k - 1]));
        assert(decreases_to!(tree[k - 1] => tree[k - 1].1));
        assert(valid_utf8(name) && readable_node(name, node));
        match node {
            NodeModel::Directory(sub) => {
                lemma_tree(sub, sub.len() as int);
                assert(tree_entries(sub).take(sub.len() as int) =~= tree_entries(sub));
                assert(normal_tree(sub).take(sub.len() as int) =~= normal_tree(sub));
                assert(node_value(name, node) == Value::Dict(tree_entries(sub)));
                assert(tree_of(node_value(name, node)) == Ok::<TreeModel, Rejection>(
                    normal_tree(sub),
                ));
                assert(nodes_of(e) == Ok::<TreeModel, Rejection>(normal_tree(tree).take(k)));
            },
            NodeModel::File(leaf) => {
                law_leaf_reads_back(leaf);
                if name.len() > 0 {
                    lemma_named_leaf(leaf);
                    assert(nodes_of(e) == Ok::<TreeModel, Rejection>(normal_tree(tree).take(k)));
                } else {
                    assert(nodes_of(e) == Ok::<TreeModel, Rejection>(normal_tree(tree).take(k)));
                }
            },
        }
    } else {
        assert(normal_tree(tree).take(0) =~= Seq::<(Seq<u8>, NodeModel)>::empty());
        assert(e =~= Seq::<(Seq<u8>, Value)>::empty());
    }
}

/// Going on to nothing stays where one is.
proof fn lemma_join_empty(path: Seq<Part>)
    ensures
        join(path, Seq::empty()) == path,
{
}

/// The normal form of a tree has the same paths.
pub proof fn lemma_normal_paths(prefix: Seq<Part>, tree: TreeModel)
    ensures
        tree_paths(prefix, normal_tree(tree)) == tree_paths(prefix, tree),
    decreases tree,
{
    lemma_normal_paths_up_to(prefix, tree, tree.len() as int);
    assert(normal_tree(tree).take(tree.len() as int) =~= normal_tree(tree));
    assert(tree.take(tree.len() as int) =~= tree);
}

proof fn lemma_normal_paths_up_to(prefix: Seq<Part>, tree: TreeModel, k: int)
    requires
        0 <= k <= tree.len(),
    ensures
        tree_paths(prefix, normal_tree(tree).take(k)) == tree_paths(prefix, tree.take(k)),
    decreases tree, k,
{
    if k > 0 {
        lemma_normal_paths_up_to(prefix, tree, k - 1);
        let a = normal_tree(tree).take(k);
        let b = tree.take(k);
        let (name, node) = tree[k - 1];
        assert(a.drop_last() =~= normal_tree(tree).take(k - 1));
        assert(b.drop_last() =~= tree.take(k - 1));
        assert(a.last() == (name, normal_node(name, node)));
        let path = join(prefix, name);
        reveal_with_fuel(tree_paths, 2);
        reveal_with_fuel(normal_node, 2);
        assert(decreases_to!(tree => tree[k - 1]));
        assert(decreases_to!(tree[k - 1] => tree[k - 1].1));
        match node {
            NodeModel::Directory(sub) => {
                assert(decreases_to!(node => sub));
                lemma_normal_paths_up_to(path, sub, sub.len() as int);
                assert(normal_tree(sub).take(sub.len() as int) =~= normal_tree(sub));
                assert(sub.take(sub.len() as int) =~= sub);
            },
            NodeModel::File(leaf) => {
                if name.len() > 0 {
                    let inner = seq![(Seq::<u8>::empty(), node)];
                    assert(inner.drop_last() =~= Seq::<(Seq<u8>, NodeModel)>::empty());
                    lemma_join_empty(path);
                    assert(tree_paths(path, inner) == tree_paths(path, inner.drop_last())
                        + node_paths(path, node));
                    assert(tree_paths(path, inner) =~= seq![path]);
                }
            },
        }
        assert(node_paths(path, normal_node(name, node)) == node_paths(path, node));
    } else {
        assert(normal_tree(tree).take(0) =~= tree.take(0));
    }
}

/// The fields of a file are found in its dictionary.
proof fn lemma_file_fields(f: FileInfoModel)
    ensures
        file_info_value(f) is Dict,
        field(file_info_value(f)->Dict_0, "attr") == match f.attr {
            Some(flags) => Some(Value::Bytes(crate::torrent::attr::attr_letters(flags))),
            None => None,
        },
        field(file_info_value(f)->Dict_0, "length") == Some(length_value(f.length)),
        field(file_info_value(f)->Dict_0, "md5sum") == opt_text_value(f.md5sum),
        field(file_info_value(f)->Dict_0, "path") == Some(texts_value(f.path)),
{
    let attr = match f.attr {
        Some(flags) => Some(Value::Bytes(crate::torrent::attr::attr_letters(flags))),
        None => None,
    };
    let length = Some(length_value(f.length));
    let md5sum = opt_text_value(f.md5sum);
    let path = Some(texts_value(f.path));
    let d = file_info_value(f)->Dict_0;
    lemma_maybe("attr", attr);
    lemma_maybe("length", length);
    lemma_maybe("md5sum", md5sum);
    lemma_maybe("path", path);
    let d2 = maybe("attr", attr) + maybe("length", length);
    let d3 = d2 + maybe("md5sum", md5sum);
    lemma_concat(maybe("attr", attr), maybe("length", length));
    lemma_concat(d2, maybe("md5sum", md5sum));
    lemma_concat(d3, maybe("path", path));
    assert(d == d3 + maybe("path", path));
    reveal_strlit("attr");
    reveal_strlit("length");
    reveal_strlit("md5sum");
    reveal_strlit("path");
    lemma_key_injective("attr", "length");
    lemma_key_injective("attr", "md5sum");
    lemma_key_injective("attr", "path");
    lemma_key_injective("length", "md5sum");
    lemma_key_injective("length", "path");
    lemma_key_injective("md5sum", "path");
    assert("attr"@[0] == 'a' && "path"@[0] == 'p');
    assert("length"@[0] == 'l' && "md5sum"@[0] == 'm');
    assert(field(d, "attr") == attr);
    assert(field(d, "length") == length);
    assert(field(d, "md5sum") == md5sum);
    assert(field(d, "path") == path);
}

/// A file information dictionary that is written reads back as itself, if its length fits in a
/// bencode integer.
pub proof fn law_file_info_reads_back(f: FileInfoModel)
    requires
        f.length <= i64::MAX,
    ensures
        file_info_of(file_info_value(f)) == Ok::<FileInfoModel, Rejection>(f),
{
    lemma_file_fields(f);
    if let Some(flags) = f.attr {
        law_attr_reads_back(flags);
    }
    if let Some(s) = f.md5sum {
        lemma_text(s);
    }
    lemma_texts(f.path);
}

/// Some file information dictionaries read back.
proof fn lemma_files(files: Seq<FileInfoModel>)
    requires
        forall|i: int| 0 <= i < files.len() ==> (#[trigger] files[i]).length <= i64::MAX,
    ensures
        files_of(Seq::new(files.len(), |i: int| file_info_value(files[i]))) == Ok::<
            Seq<FileInfoModel>,
            Rejection,
        >(files),
{
    let items = Seq::new(files.len(), |i: int| file_info_value(files[i]));
    let f = |v: Value| file_info_of(v);
    assert forall|i: int| 0 <= i < items.len() implies #[trigger] f(items[i]) == Ok::<
        FileInfoModel,
        Rejection,
    >(files[i]) by {
        law_file_info_reads_back(files[i]);
    }
    lemma_all_ok(items, files, f);
}

/// The fields that an `info` dictionary is written with.
pub ghost struct InfoFields {
    pub tree: Option<Value>,
    pub files: Option<Value>,
    pub length: Option<Value>,
    pub md5sum: Option<Value>,
    pub version: Option<Value>,
    pub name: Value,
    pub piece_length: Value,
    pub pieces: Option<Value>,
    pub private: Option<Value>,
    pub source: Option<Value>,
}

spec fn with_fields(f: InfoFields) -> Entries {
    maybe("file tree", f.tree) + maybe("files", f.files) + maybe("length", f.length) + maybe(
        "md5sum",
        f.md5sum,
    ) + maybe("meta version", f.version) + one("name", f.name) + one(
        "piece length",
        f.piece_length,
    ) + maybe("pieces", f.pieces) + maybe("private", f.private) + maybe("source", f.source)
}

/// The field of each name is what was written under it.
#[verifier::rlimit(40)]
proof fn lemma_info_fields(f: InfoFields)
    ensures
        field(with_fields(f), "file tree") == f.tree,
        field(with_fields(f), "files") == f.files,
        field(with_fields(f), "length") == f.length,
        field(with_fields(f), "md5sum") == f.md5sum,
        field(with_fields(f), "meta version") == f.version,
        field(with_fields(f), "name") == Some(f.name),
        field(with_fields(f), "piece length") == Some(f.piece_length),
        field(with_fields(f), "pieces") == f.pieces,
        field(with_fields(f), "private") == f.private,
        field(with_fields(f), "source") == f.source,
{
    let d = with_fields(f);
    let a1 = maybe("file tree", f.tree);
    let a2 = a1 + maybe("files", f.files);
    let a3 = a2 + maybe("length", f.length);
    let a4 = a3 + maybe("md5sum", f.md5sum);
    let a5 = a4 + maybe("meta version", f.version);
    let a6 = a5 + maybe("name", Some(f.name));
    let a7 = a6 + maybe("piece length", Some(f.piece_length));
    let a8 = a7 + maybe("pieces", f.pieces);
    let a9 = a8 + maybe("private", f.private);
    assert(d == a9 + maybe("source", f.source));
    lemma_concat(a1, maybe("files", f.files));
    lemma_concat(a2, maybe("length", f.length));
    lemma_concat(a3, maybe("md5sum", f.md5sum));
    lemma_concat(a4, maybe("meta version", f.version));
    lemma_concat(a5, maybe("name", Some(f.name)));
    lemma_concat(a6, maybe("piece length", Some(f.piece_length)));
    lemma_concat(a7, maybe("pieces", f.pieces));
    lemma_concat(a8, maybe("private", f.private));
    lemma_concat(a9, maybe("source", f.source));
    lemma_maybe("file tree", f.tree);
    lemma_maybe("files", f.files);
    lemma_maybe("length", f.length);
    lemma_maybe("md5sum", f.md5sum);
    lemma_maybe("meta version", f.version);
    lemma_maybe("name", Some(f.name));
    lemma_maybe("piece length", Some(f.piece_length));
    lemma_maybe("pieces", f.pieces);
    lemma_maybe("private", f.private);
    lemma_maybe("source", f.source);
    lemma_info_names();
}

/// The names of the fields of an `info` dictionary are different.
proof fn lemma_info_names()
    ensures
        seq![
            key("file tree"),
            key("files"),
            key("length"),
            key("md5sum"),
            key("meta version"),
            key("name"),
            key("piece length"),
            key("pieces"),
            key("private"),
            key("source"),
        ].no_duplicates(),
{
    lemma_info_keys();
    let s = seq![
        key("file tree"),
        key("files"),
        key("length"),
        key("md5sum"),
        key("meta version"),
        key("name"),
        key("piece length"),
        key("pieces"),
        key("private"),
        key("source"),
    ];
    assert forall|i: int| 0 <= i < s.len() - 1 implies lex_lt(#[trigger] s[i], s[i + 1]) by {}
    lemma_chain_distinct(s);
}

/// A list in which each key lies before the next one has no key twice.
proof fn lemma_chain_distinct(s: Seq<Seq<u8>>)
    requires
        forall|i: int| 0 <= i < s.len() - 1 ==> lex_lt(#[trigger] s[i], s[i + 1]),
    ensures
        s.no_duplicates(),
{
    assert forall|i: int, j: int| 0 <= i < j < s.len() implies s[i] != s[j] by {
        lemma_chain(s, i, j);
        crate::lex::lemma_lex_asymmetric(s[i], s[j]);
    }
}

proof fn lemma_chain(s: Seq<Seq<u8>>, i: int, j: int)
    requires
        0 <= i < j < s.len(),
        forall|k: int| 0 <= k < s.len() - 1 ==> lex_lt(#[trigger] s[k], s[k + 1]),
    ensures
        lex_lt(s[i], s[j]),
    decreases j - i,
{
    assert(lex_lt(s[i], s[i + 1]));
    if i + 1 < j {
        lemma_chain(s, i + 1, j);
        crate::lex::lemma_lex_transitive(s[i], s[i + 1], s[j]);
    }
}

/// Files that can be read back: their lengths fit.
pub open spec fn readable_mode(mode: FileModeModel) -> bool {
    match mode {
        FileModeModel::Single { length, .. } => length <= i64::MAX,
        FileModeModel::Multi { files } => forall|i: int|
            0 <= i < files.len() ==> (#[trigger] files[i]).length <= i64::MAX,
    }
}

/// V1 fields that can be read back: every hash has 20 bytes, and the files can be read back.
pub open spec fn readable_v1(v1: V1Model) -> bool {
    &&& forall|i: int| 0 <= i < v1.pieces.len() ==> (#[trigger] v1.pieces[i]).len() == 20
    &&& readable_mode(v1.file_mode)
}

/// Piece layers that can be read back: every root hash has 32 bytes.
pub open spec fn readable_layers(layers: LayersModel) -> bool {
    forall|i: int| 0 <= i < layers.len() ==> (#[trigger] layers[i]).0.len() == 32
}

/// A piece length that can be read back.
pub open spec fn readable_piece_length(n: u64) -> bool {
    0 < n <= i64::MAX
}

/// An `info` dictionary and piece layers that can be read back.
pub open spec fn readable_meta(meta: MetaModel) -> bool {
    match meta {
        MetaModel::V1 { info } => readable_piece_length(info.piece_length) && readable_v1(
            info.kind,
        ),
        MetaModel::V2 { info, piece_layers } => {
            &&& readable_piece_length(info.piece_length)
            &&& v2_piece_length(info.piece_length)
            &&& readable_tree(info.kind.file_tree)
            &&& readable_layers(piece_layers)
        },
        MetaModel::Hybrid { info, piece_layers } => {
            &&& readable_piece_length(info.piece_length)
            &&& v2_piece_length(info.piece_length)
            &&& readable_v1(info.kind.v1)
            &&& readable_tree(info.kind.v2.file_tree)
            &&& readable_layers(piece_layers)
        },
    }
}

/// A torrent whose URLs are all in normal form.
pub open spec fn normal_urls(t: TorrentModel) -> bool {
    &&& t.tracker_tiers matches Some(tiers) ==> forall|i: int, j: int|
        0 <= i < tiers.len() && 0 <= j < tiers[i].len() ==> normal_url(#[trigger] tiers[i][j])
    &&& t.web_seeds matches Some(urls) ==> forall|i: int|
        0 <= i < urls.len() ==> normal_url(#[trigger] urls[i])
}

/// All URLs of a torrent are found to be URLs when they are read.
pub open spec fn all_urls_parse(t: TorrentModel) -> bool {
    &&& t.tracker_tiers matches Some(tiers) ==> tiers_parse(tiers)
    &&& t.web_seeds matches Some(urls) ==> urls_parse(urls)
}

/// A torrent with every URL in normal form.
pub open spec fn reparsed(t: TorrentModel) -> TorrentModel {
    TorrentModel {
        tracker_tiers: match t.tracker_tiers {
            Some(tiers) => Some(reparsed_tiers(tiers)),
            None => None,
        },
        web_seeds: match t.web_seeds {
            Some(urls) => Some(reparsed_urls(urls)),
            None => None,
        },
        ..t
    }
}

/// URLs in normal form stay as they are.
pub proof fn lemma_normal_urls_stay(t: TorrentModel)
    requires
        normal_urls(t),
    ensures
        all_urls_parse(t),
        reparsed(t) == t,
{
    if let Some(tiers) = t.tracker_tiers {
        assert forall|i: int| 0 <= i < tiers.len() implies urls_parse(#[trigger] tiers[i])
            && reparsed_urls(tiers[i]) == tiers[i] by {
            assert forall|j: int| 0 <= j < tiers[i].len() implies url_text(#[trigger] tiers[i][j])
                == Some(tiers[i][j]) by {
                assert(normal_url(tiers[i][j]));
            }
            assert(reparsed_urls(tiers[i]) =~= tiers[i]);
        }
        assert(reparsed_tiers(tiers) =~= tiers);
    }
    if let Some(urls) = t.web_seeds {
        assert forall|i: int| 0 <= i < urls.len() implies url_text(#[trigger] urls[i]) == Some(
            urls[i],
        ) by {
            assert(normal_url(urls[i]));
        }
        assert(reparsed_urls(urls) =~= urls);
    }
}

/// How the v2 fields read back.
pub open spec fn normal_v2(v2: V2Model) -> V2Model {
    V2Model { file_tree: normal_tree(v2.file_tree) }
}

/// How the `info` dictionary and piece layers read back.
pub open spec fn normal_meta(meta: MetaModel) -> MetaModel {
    match meta {
        MetaModel::V1 { info } => meta,
        MetaModel::V2 { info, piece_layers } => MetaModel::V2 {
            info: InfoModel { kind: normal_v2(info.kind), ..info },
            piece_layers,
        },
        MetaModel::Hybrid { info, piece_layers } => MetaModel::Hybrid {
            info: InfoModel {
                kind: HybridModel { v1: info.kind.v1, v2: normal_v2(info.kind.v2) },
                ..info
            },
            piece_layers,
        },
    }
}

/// How a torrent reads back: with its file tree in normal form, and with a date that does not fit
/// replaced by zero.
pub open spec fn normal(t: TorrentModel) -> TorrentModel {
    TorrentModel {
        creation_date: match t.creation_date {
            Some(n) => Some(
                if n <= i64::MAX {
                    n
                } else {
                    0
                },
            ),
            None => None,
        },
        meta: normal_meta(t.meta),
        ..t
    }
}

/// The fields of an `info` dictionary that are written.
spec fn info_fields<K>(info: InfoModel<K>, v1: Option<V1Model>, v2: Option<V2Model>) -> InfoFields {
    InfoFields {
        tree: match v2 {
            Some(v2) => Some(Value::Dict(tree_entries(v2.file_tree))),
            None => None,
        },
        files: match v1 {
            Some(v1) => match v1.file_mode {
                FileModeModel::Multi { files } => Some(
                    Value::List(Seq::new(files.len(), |i: int| file_info_value(files[i]))),
                ),
                FileModeModel::Single { .. } => None,
            },
            None => None,
        },
        length: match v1 {
            Some(v1) => match v1.file_mode {
                FileModeModel::Single { length, .. } => Some(length_value(length)),
                FileModeModel::Multi { .. } => None,
            },
            None => None,
        },
        md5sum: match v1 {
            Some(v1) => match v1.file_mode {
                FileModeModel::Single { md5sum, .. } => opt_text_value(md5sum),
                FileModeModel::Multi { .. } => None,
            },
            None => None,
        },
        version: match v2 {
            Some(_) => Some(Value::Int(2)),
            None => None,
        },
        name: text_value(info.name),
        piece_length: length_value(info.piece_length),
        pieces: match v1 {
            Some(v1) => Some(Value::Bytes(flat(v1.pieces))),
            None => None,
        },
        private: if info.private {
            Some(Value::Int(1))
        } else {
            None
        },
        source: opt_text_value(info.source),
    }
}

/// The name, the `private` field and the source are found in an `info` dictionary.
pub proof fn lemma_info_shows<K>(info: InfoModel<K>, v1: Option<V1Model>, v2: Option<V2Model>)
    ensures
        field(info_entries(info, v1, v2), "name") == Some(text_value(info.name)),
        field(info_entries(info, v1, v2), "private") == if info.private {
            Some(Value::Int(1))
        } else {
            None
        },
        field(info_entries(info, v1, v2), "source") == opt_text_value(info.source),
{
    let f = info_fields(info, v1, v2);
    assert(info_entries(info, v1, v2) == with_fields(f));
    lemma_info_fields(f);
}

/// The fields of an `info` dictionary read back.
#[verifier::rlimit(40)]
proof fn lemma_info<K>(info: InfoModel<K>, v1: Option<V1Model>, v2: Option<V2Model>)
    requires
        readable_piece_length(info.piece_length),
        v1 matches Some(v1) ==> readable_v1(v1),
        v2 matches Some(v2) ==> readable_tree(v2.file_tree),
    ensures
        info_of(Value::Dict(info_entries(info, v1, v2))) == with_versions(
            info.name,
            info.piece_length,
            info.private,
            info.source,
            v1,
            match v2 {
                Some(v2) => Some(normal_v2(v2)),
                None => None,
            },
        ),
{
    let d = info_entries(info, v1, v2);
    let f = info_fields(info, v1, v2);
    assert(d == with_fields(f));
    lemma_info_fields(f);
    lemma_text(info.name);
    if let Some(s) = info.source {
        lemma_text(s);
    }
    assert(required_text(d, "name") == Ok::<_, Rejection>(info.name));
    assert(piece_length_field(d) == Ok::<u64, Rejection>(info.piece_length));
    assert(private_field(d) == Ok::<bool, Rejection>(info.private));
    assert(text_field(d, "source") == Ok::<_, Rejection>(info.source));
    if let Some(m) = v1 {
        lemma_cut_flat(m.pieces, 20);
        match m.file_mode {
            FileModeModel::Single { length, md5sum } => {
                if let Some(s) = md5sum {
                    lemma_text(s);
                }
            },
            FileModeModel::Multi { files } => {
                lemma_files(files);
            },
        }
        assert(file_mode_fields(d) == Ok::<_, Rejection>(Some(m.file_mode)));
        assert(pieces_field(d) == Ok::<_, Rejection>(Some(m.pieces)));
    }
    assert(v1_of(d) == Ok::<_, Rejection>(v1));
    if let Some(m) = v2 {
        let tree = m.file_tree;
        lemma_tree(tree, tree.len() as int);
        assert(tree_entries(tree).take(tree.len() as int) =~= tree_entries(tree));
        assert(normal_tree(tree).take(tree.len() as int) =~= normal_tree(tree));
        reveal_with_fuel(tree_of, 2);
        assert(tree_field(d) == Ok::<_, Rejection>(Some(normal_tree(tree))));
    }
}

/// The piece layers read back.
proof fn lemma_layers(layers: LayersModel)
    requires
        readable_layers(layers),
    ensures
        layers_of(layers_value(layers)->Dict_0) == Ok::<LayersModel, Rejection>(layers),
{
    let items = layers_value(layers)->Dict_0;
    let f = |e: (Seq<u8>, Value)| layer_of(e);
    assert forall|i: int| 0 <= i < items.len() implies #[trigger] f(items[i]) == Ok::<
        (Seq<u8>, Seq<u8>),
        Rejection,
    >(layers[i]) by {
        assert(layers[i].0.len() == 32);
    }
    lemma_all_ok(items, layers, f);
}

/// Some tiers read back with every URL in normal form.
proof fn lemma_tiers(tiers: Seq<Seq<Seq<char>>>)
    ensures
        tiers_of(Seq::new(tiers.len(), |i: int| texts_value(tiers[i]))) == if tiers_parse(tiers) {
            Ok::<Seq<Seq<Seq<char>>>, Rejection>(reparsed_tiers(tiers))
        } else {
            Err(Rejection::InvalidUrl)
        },
{
    let items = Seq::new(tiers.len(), |i: int| texts_value(tiers[i]));
    let f = |v: Value| url_list_of(v);
    assert forall|i: int| 0 <= i < items.len() implies #[trigger] f(items[i]) == if urls_parse(
        tiers[i],
    ) {
        Ok::<Seq<Seq<char>>, Rejection>(reparsed_urls(tiers[i]))
    } else {
        Err(Rejection::InvalidUrl)
    } by {
        lemma_urls(tiers[i]);
    }
    if tiers_parse(tiers) {
        assert forall|i: int| 0 <= i < items.len() implies #[trigger] f(items[i]) == Ok::<
            Seq<Seq<char>>,
            Rejection,
        >(reparsed_tiers(tiers)[i]) by {
            assert(urls_parse(tiers[i]));
        }
        lemma_all_ok(items, reparsed_tiers(tiers), f);
    } else {
        let k = choose|k: int| 0 <= k < tiers.len() && !urls_parse(#[trigger] tiers[k]);
        assert(f(items[k]) is Err);
        lemma_some_error(items, f, Rejection::InvalidUrl, k);
    }
}

/// The names of the fields of a torrent are different.
proof fn lemma_torrent_names()
    ensures
        seq![
            key("announce"),
            key("announce-list"),
            key("comment"),
            key("created by"),
            key("creation date"),
            key("encoding"),
            key("info"),
            key("piece layers"),
            key("url-list"),
        ].no_duplicates(),
{
    lemma_torrent_keys();
    let s = seq![
        key("announce"),
        key("announce-list"),
        key("comment"),
        key("created by"),
        key("creation date"),
        key("encoding"),
        key("info"),
        key("piece layers"),
        key("url-list"),
    ];
    assert forall|i: int| 0 <= i < s.len() - 1 implies lex_lt(#[trigger] s[i], s[i + 1]) by {}
    lemma_chain_distinct(s);
}

/// The fields that a torrent is written with.
pub ghost struct TorrentFields {
    pub announce: Option<Value>,
    pub tiers: Option<Value>,
    pub comment: Option<Value>,
    pub created_by: Option<Value>,
    pub date: Option<Value>,
    pub encoding: Option<Value>,
    pub info: Value,
    pub layers: Option<Value>,
    pub seeds: Option<Value>,
}

spec fn torrent_with_fields(f: TorrentFields) -> Entries {
    maybe("announce", f.announce) + maybe("announce-list", f.tiers) + maybe("comment", f.comment)
        + maybe("created by", f.created_by) + maybe("creation date", f.date) + maybe(
        "encoding",
        f.encoding,
    ) + one("info", f.info) + maybe("piece layers", f.layers) + maybe("url-list", f.seeds)
}

/// The field of each name is what was written under it.
#[verifier::rlimit(40)]
proof fn lemma_torrent_fields(f: TorrentFields)
    ensures
        field(torrent_with_fields(f), "announce") == f.announce,
        field(torrent_with_fields(f), "announce-list") == f.tiers,
        field(torrent_with_fields(f), "comment") == f.comment,
        field(torrent_with_fields(f), "created by") == f.created_by,
        field(torrent_with_fields(f), "creation date") == f.date,
        field(torrent_with_fields(f), "encoding") == f.encoding,
        field(torrent_with_fields(f), "info") == Some(f.info),
        field(torrent_with_fields(f), "piece layers") == f.layers,
        field(torrent_with_fields(f), "url-list") == f.seeds,
{
    let d = torrent_with_fields(f);
    let a1 = maybe("announce", f.announce);
    let a2 = a1 + maybe("announce-list", f.tiers);
    let a3 = a2 + maybe("comment", f.comment);
    let a4 = a3 + maybe("created by", f.created_by);
    let a5 = a4 + maybe("creation date", f.date);
    let a6 = a5 + maybe("encoding", f.encoding);
    let a7 = a6 + maybe("info", Some(f.info));
    let a8 = a7 + maybe("piece layers", f.layers);
    assert(d == a8 + maybe("url-list", f.seeds));
    lemma_concat(a1, maybe("announce-list", f.tiers));
    lemma_concat(a2, maybe("comment", f.comment));
    lemma_concat(a3, maybe("created by", f.created_by));
    lemma_concat(a4, maybe("creation date", f.date));
    lemma_concat(a5, maybe("encoding", f.encoding));
    lemma_concat(a6, maybe("info", Some(f.info)));
    lemma_concat(a7, maybe("piece layers", f.layers));
    lemma_concat(a8, maybe("url-list", f.seeds));
    lemma_maybe("announce", f.announce);
    lemma_maybe("announce-list", f.tiers);
    lemma_maybe("comment", f.comment);
    lemma_maybe("created by", f.created_by);
    lemma_maybe("creation date", f.date);
    lemma_maybe("encoding", f.encoding);
    lemma_maybe("info", Some(f.info));
    lemma_maybe("piece layers", f.layers);
    lemma_maybe("url-list", f.seeds);
    lemma_torrent_names();
}

/// The fields of a torrent that are written.
spec fn written_fields(t: TorrentModel) -> TorrentFields {
    TorrentFields {
        announce: opt_text_value(first_tracker(t.tracker_tiers)),
        tiers: match t.tracker_tiers {
            Some(tiers) => Some(Value::List(Seq::new(tiers.len(), |i: int| texts_value(tiers[i])))),
            None => None,
        },
        comment: opt_text_value(t.comment),
        created_by: opt_text_value(t.created_by),
        date: match t.creation_date {
            Some(n) => Some(date_value(n)),
            None => None,
        },
        encoding: opt_text_value(t.encoding),
        info: info_value(t.meta),
        layers: match meta_layers(t.meta) {
            Some(layers) => Some(layers_value(layers)),
            None => None,
        },
        seeds: match t.web_seeds {
            Some(urls) => Some(texts_value(urls)),
            None => None,
        },
    }
}

/// A field that is not there is not written, and one that is there is.
pub proof fn law_absent_fields_are_omitted(t: TorrentModel)
    ensures
        field(torrent_entries(t), "announce-list") is Some <==> t.tracker_tiers is Some,
        field(torrent_entries(t), "comment") is Some <==> t.comment is Some,
        field(torrent_entries(t), "created by") is Some <==> t.created_by is Some,
        field(torrent_entries(t), "creation date") is Some <==> t.creation_date is Some,
        field(torrent_entries(t), "encoding") is Some <==> t.encoding is Some,
        field(torrent_entries(t), "url-list") is Some <==> t.web_seeds is Some,
        field(torrent_entries(t), "piece layers") is Some <==> !(t.meta is V1),
        field(torrent_entries(t), "info") is Some,
{
    assert(torrent_entries(t) == torrent_with_fields(written_fields(t)));
    lemma_torrent_fields(written_fields(t));
}

/// The first tracker of the first tier is also written by itself.
pub proof fn law_first_tracker_is_announced(t: TorrentModel)
    ensures
        field(torrent_entries(t), "announce") == match t.tracker_tiers {
            Some(tiers) => if tiers.len() > 0 && tiers[0].len() > 0 {
                Some(text_value(tiers[0][0]))
            } else {
                None
            },
            None => None,
        },
{
    assert(torrent_entries(t) == torrent_with_fields(written_fields(t)));
    lemma_torrent_fields(written_fields(t));
}

/// The normal form lists the same files in its v1 and v2 fields if the torrent does.
proof fn lemma_normal_mismatch(meta: MetaModel)
    ensures
        mismatch(normal_meta(meta)) == mismatch(meta),
{
    if let MetaModel::Hybrid { info, piece_layers } = meta {
        lemma_normal_paths(Seq::empty(), info.kind.v2.file_tree);
    }
}

/// Reading undoes writing: a torrent whose `info` dictionary can be read back is read back in its
/// normal form, with its URLs in normal form, unless one of them is no URL or the v1 and v2 fields
/// list different files. URLs that are in normal form stay as they are.
#[verifier::rlimit(40)]
pub proof fn law_read_undoes_write(t: TorrentModel)
    requires
        readable_meta(t.meta),
    ensures
        torrent_of(torrent_value(t)) == if !all_urls_parse(t) {
            Err::<TorrentModel, Rejection>(Rejection::InvalidUrl)
        } else if mismatch(t.meta) {
            Err(Rejection::HybridMismatch)
        } else {
            Ok(normal(reparsed(t)))
        },
        normal_urls(t) ==> all_urls_parse(t) && reparsed(t) == t,
{
    let d = torrent_entries(t);
    let f = written_fields(t);
    assert(d == torrent_with_fields(f));
    lemma_torrent_fields(f);
    match t.meta {
        MetaModel::V1 { info } => {
            lemma_info(info, Some(info.kind), None);
        },
        MetaModel::V2 { info, piece_layers } => {
            lemma_info(info, None, Some(info.kind));
            lemma_layers(piece_layers);
        },
        MetaModel::Hybrid { info, piece_layers } => {
            lemma_info(info, Some(info.kind.v1), Some(info.kind.v2));
            lemma_layers(piece_layers);
        },
    }
    let layers = meta_layers(t.meta);
    assert(layers_field(d) == Ok::<_, Rejection>(layers));
    let info = info_of(info_value(t.meta));
    assert(info is Ok);
    assert(meta_of(info->Ok_0, layers) == Ok::<MetaModel, Rejection>(normal_meta(t.meta)));
    if normal_urls(t) {
        lemma_normal_urls_stay(t);
    }
    if let Some(tiers) = t.tracker_tiers {
        lemma_tiers(tiers);
        assert(trackers_of(d) == if tiers_parse(tiers) {
            Ok::<_, Rejection>(Some(reparsed_tiers(tiers)))
        } else {
            Err(Rejection::InvalidUrl)
        });
    } else {
        assert(trackers_of(d) == Ok::<Option<Seq<Seq<Seq<char>>>>, Rejection>(None));
    }
    if let Some(urls) = t.web_seeds {
        lemma_urls(urls);
        assert(web_seeds_field(d) == if urls_parse(urls) {
            Ok::<_, Rejection>(Some(reparsed_urls(urls)))
        } else {
            Err(Rejection::InvalidUrl)
        });
    } else {
        assert(web_seeds_field(d) == Ok::<Option<Seq<Seq<char>>>, Rejection>(None));
    }
    if let Some(s) = t.comment {
        lemma_text(s);
    }
    if let Some(s) = t.created_by {
        lemma_text(s);
    }
    if let Some(s) = t.encoding {
        lemma_text(s);
    }
    assert(text_field(d, "comment") == Ok::<_, Rejection>(t.comment));
    assert(text_field(d, "created by") == Ok::<_, Rejection>(t.created_by));
    assert(text_field(d, "encoding") == Ok::<_, Rejection>(t.encoding));
    assert(date_field(d) == Ok::<_, Rejection>(normal(t).creation_date));
    lemma_normal_mismatch(t.meta);
}

/// Nothing is lost and nothing is added when a v1-only torrent is written and read again, if its
/// URLs are in normal form and its date fits in a bencode integer.
pub proof fn law_v1_survives(t: TorrentModel)
    requires
        t.meta is V1,
        readable_meta(t.meta),
        t.creation_date matches Some(n) ==> n <= i64::MAX,
    ensures
        all_urls_parse(t) ==> torrent_of(torrent_value(t)) == Ok::<TorrentModel, Rejection>(
            reparsed(t),
        ),
        normal_urls(t) ==> torrent_of(torrent_value(t)) == Ok::<TorrentModel, Rejection>(t),
{
    law_read_undoes_write(t);
    assert(normal(reparsed(t)) == reparsed(t));
}

} // verus!
