//! What is written of a torrent.
use vstd::prelude::*;
use vstd::utf8::encode_utf8;

use crate::bencode::model::Value;
use crate::chunks::flat;
use crate::torrent::attr::{attr_letters, law_attr_reads_back, FileInfoAttrFlags};
use crate::torrent::fields::{field, Entries};
use crate::torrent::keys::key;
use crate::torrent::laws::editing::{file_tree_of, v1_fields_of};
use crate::torrent::laws::reading::{law_letters_are_attributes, letters_say};
use crate::torrent::laws::{
    info_fields, lemma_file_fields, lemma_info_fields, lemma_leaf_fields, lemma_torrent_fields,
    torrent_with_fields, with_fields, written_fields,
};
use crate::torrent::model::{
    FileInfoModel, FileModeModel, InfoModel, LeafModel, MetaModel, NodeModel, TorrentModel,
    TreeModel, V1Model, V2Model,
};
use crate::torrent::query::{meta_name, meta_piece_length, meta_private, meta_source};
use crate::torrent::write::{
    file_info_value, info_entries, info_value, leaf_value, length_value, maybe, meta_layers,
    node_value, opt_text_value, texts_value, torrent_entries, torrent_value, tree_entries,
};

verus! {

/// All keys of a dictionary are among the given ones.
pub open spec fn keys_among(d: Entries, keys: Set<Seq<u8>>) -> bool {
    forall|i: int| 0 <= i < d.len() ==> keys.contains((#[trigger] d[i]).0)
}

/// A field holds a text, or is missing where there is none.
pub open spec fn writes_text(v: Option<Value>, s: Option<Seq<char>>) -> bool {
    match s {
        Some(s) => v == Some(Value::Bytes(encode_utf8(s))),
        None => v is None,
    }
}

/// A field holds a list of texts.
pub open spec fn writes_texts(v: Option<Value>, s: Seq<Seq<char>>) -> bool {
    v matches Some(Value::List(items)) && {
        &&& items.len() == s.len()
        &&& forall|i: int|
            0 <= i < s.len() ==> #[trigger] items[i] == Value::Bytes(encode_utf8(s[i]))
    }
}

/// A field holds a number. Numbers that a signed integer has no room for wrap around.
pub open spec fn writes_number(v: Option<Value>, n: u64) -> bool {
    v matches Some(Value::Int(i)) && {
        &&& i64::MIN <= i <= i64::MAX
        &&& i == n || i == n - 0x1_0000_0000_0000_0000
    }
}

/// The keys of a file.
pub open spec fn file_keys() -> Set<Seq<u8>> {
    set![key("attr"), key("length"), key("md5sum"), key("path")]
}

/// The keys of an `info` dictionary.
pub open spec fn info_keys() -> Set<Seq<u8>> {
    set![
        key("file tree"),
        key("files"),
        key("length"),
        key("md5sum"),
        key("meta version"),
        key("name"),
        key("piece length"),
        key("pieces"),
        key("private"),
        key("source"),
    ]
}

/// The keys of a torrent.
pub open spec fn torrent_keys() -> Set<Seq<u8>> {
    set![
        key("announce"),
        key("announce-list"),
        key("comment"),
        key("created by"),
        key("creation date"),
        key("encoding"),
        key("info"),
        key("piece layers"),
        key("url-list"),
    ]
}

proof fn lemma_among(a: Entries, name: &str, v: Option<Value>, keys: Set<Seq<u8>>)
    requires
        keys_among(a, keys),
        keys.contains(key(name)),
    ensures
        keys_among(a + maybe(name, v), keys),
        keys_among(maybe(name, v), keys),
{
    let d = a + maybe(name, v);
    assert forall|i: int| 0 <= i < d.len() implies keys.contains((#[trigger] d[i]).0) by {
        if i < a.len() {
            assert(d[i] == a[i]);
        }
    }
}

/// A file is written with its path and its length, and with its attributes and its checksum if it
/// has them. Each attribute has its letter, once.
pub open spec fn writes_file(v: Value, f: FileInfoModel) -> bool {
    &&& v is Dict
    &&& writes_texts(field(v->Dict_0, "path"), f.path)
    &&& writes_number(field(v->Dict_0, "length"), f.length)
    &&& writes_text(field(v->Dict_0, "md5sum"), f.md5sum)
    &&& match f.attr {
        Some(flags) => field(v->Dict_0, "attr") matches Some(Value::Bytes(s)) && letters_say(
            s,
            flags,
        ) && s.no_duplicates(),
        None => field(v->Dict_0, "attr") is None,
    }
    &&& keys_among(v->Dict_0, file_keys())
}

proof fn lemma_letters(flags: FileInfoAttrFlags)
    ensures
        letters_say(attr_letters(flags), flags),
        attr_letters(flags).no_duplicates(),
{
    law_attr_reads_back(flags);
    law_letters_are_attributes(attr_letters(flags));
}

/// Where the letter of an attribute stands among others.
pub open spec fn letter_rank(b: u8) -> int {
    if b == 108 {
        0
    } else if b == 120 {
        1
    } else if b == 104 {
        2
    } else {
        3
    }
}

/// The letters of attributes are written in the order `l`, `x`, `h`, `p`.
pub proof fn law_letters_are_in_order(flags: FileInfoAttrFlags)
    ensures
        forall|i: int, j: int|
            0 <= i < j < attr_letters(flags).len() ==> letter_rank(
                #[trigger] attr_letters(flags)[i],
            ) < letter_rank(#[trigger] attr_letters(flags)[j]),
{
}

/// What is written of a file is all of it.
pub proof fn law_file_is_written(f: FileInfoModel)
    ensures
        writes_file(file_info_value(f), f),
{
    let d = file_info_value(f)->Dict_0;
    let keys = file_keys();
    let attr = match f.attr {
        Some(flags) => Some(Value::Bytes(attr_letters(flags))),
        None => None,
    };
    if let Some(flags) = f.attr {
        lemma_letters(flags);
    }
    lemma_file_fields(f);
    let none: Entries = Seq::empty();
    let length = length_value(f.length);
    let md5sum = opt_text_value(f.md5sum);
    let path = texts_value(f.path);
    let a1 = maybe("attr", attr);
    let a2 = a1 + maybe("length", Some(length));
    let a3 = a2 + maybe("md5sum", md5sum);
    lemma_among(none, "attr", attr, keys);
    lemma_among(a1, "length", Some(length), keys);
    lemma_among(a2, "md5sum", md5sum, keys);
    lemma_among(a3, "path", Some(path), keys);
    assert(d == a3 + maybe("path", Some(path)));
}

/// A leaf is written with its length, and with its root if it has one.
pub proof fn law_leaf_is_written(leaf: LeafModel)
    ensures
        leaf_value(leaf) is Dict,
        writes_number(field(leaf_value(leaf)->Dict_0, "length"), leaf.length),
        field(leaf_value(leaf)->Dict_0, "pieces root") == match leaf.pieces_root {
            Some(root) => Some(Value::Bytes(root)),
            None => None,
        },
        keys_among(leaf_value(leaf)->Dict_0, set![key("length"), key("pieces root")]),
{
    let keys = set![key("length"), key("pieces root")];
    let root = match leaf.pieces_root {
        Some(root) => Some(Value::Bytes(root)),
        None => None,
    };
    let length = length_value(leaf.length);
    let none: Entries = Seq::empty();
    lemma_leaf_fields(leaf);
    lemma_among(none, "length", Some(length), keys);
    lemma_among(maybe("length", Some(length)), "pieces root", root, keys);
}

/// A tree is written name by name. A directory is a dictionary with what it holds, and a file one
/// with its leaf under an empty name.
pub proof fn law_tree_is_written(tree: TreeModel)
    ensures
        tree_entries(tree).len() == tree.len(),
        forall|i: int|
            0 <= i < tree.len() ==> {
                let (name, v) = #[trigger] tree_entries(tree)[i];
                &&& name == tree[i].0
                &&& match tree[i].1 {
                    NodeModel::Directory(sub) => v == Value::Dict(tree_entries(sub)),
                    NodeModel::File(leaf) => name.len() > 0 ==> v == Value::Dict(
                        seq![(Seq::<u8>::empty(), leaf_value(leaf))],
                    ),
                }
            },
{
    reveal_with_fuel(node_value, 2);
}

/// What an `info` dictionary says of the v1 fields.
pub open spec fn writes_v1(d: Entries, v1: Option<V1Model>) -> bool {
    match v1 {
        None => {
            &&& field(d, "files") is None
            &&& field(d, "length") is None
            &&& field(d, "md5sum") is None
            &&& field(d, "pieces") is None
        },
        Some(v1) => {
            &&& field(d, "pieces") == Some(Value::Bytes(flat(v1.pieces)))
            &&& match v1.file_mode {
                FileModeModel::Single { length, md5sum } => {
                    &&& field(d, "files") is None
                    &&& writes_number(field(d, "length"), length)
                    &&& writes_text(field(d, "md5sum"), md5sum)
                },
                FileModeModel::Multi { files } => {
                    &&& field(d, "length") is None
                    &&& field(d, "md5sum") is None
                    &&& field(d, "files") matches Some(Value::List(items)) && {
                        &&& items.len() == files.len()
                        &&& forall|i: int|
                            0 <= i < files.len() ==> writes_file(#[trigger] items[i], files[i])
                    }
                },
            }
        },
    }
}

/// What an `info` dictionary says of the v2 fields.
pub open spec fn writes_v2(d: Entries, tree: Option<TreeModel>) -> bool {
    match tree {
        None => field(d, "file tree") is None && field(d, "meta version") is None,
        Some(tree) => {
            &&& field(d, "file tree") == Some(Value::Dict(tree_entries(tree)))
            &&& field(d, "meta version") == Some(Value::Int(2))
        },
    }
}

#[verifier::rlimit(40)]
proof fn lemma_info_written<K>(info: InfoModel<K>, v1: Option<V1Model>, v2: Option<V2Model>)
    ensures
        ({
            let d = info_entries(info, v1, v2);
            let tree = match v2 {
                Some(v2) => Some(v2.file_tree),
                None => None,
            };
            &&& writes_text(field(d, "name"), Some(info.name))
            &&& writes_number(field(d, "piece length"), info.piece_length)
            &&& field(d, "private") == if info.private {
                Some(Value::Int(1))
            } else {
                None
            }
            &&& writes_text(field(d, "source"), info.source)
            &&& writes_v1(d, v1)
            &&& writes_v2(d, tree)
            &&& keys_among(d, info_keys())
        }),
{
    let f = info_fields(info, v1, v2);
    let d = info_entries(info, v1, v2);
    let keys = info_keys();
    assert(d == with_fields(f));
    lemma_info_fields(f);
    if let Some(v) = v1 {
        if let FileModeModel::Multi { files } = v.file_mode {
            assert forall|i: int| 0 <= i < files.len() implies writes_file(
                #[trigger] f.files->0->List_0[i],
                files[i],
            ) by {
                law_file_is_written(files[i]);
            }
        }
    }
    let none: Entries = Seq::empty();
    let a1 = maybe("file tree", f.tree);
    let a2 = a1 + maybe("files", f.files);
    let a3 = a2 + maybe("length", f.length);
    let a4 = a3 + maybe("md5sum", f.md5sum);
    let a5 = a4 + maybe("meta version", f.version);
    let a6 = a5 + maybe("name", Some(f.name));
    let a7 = a6 + maybe("piece length", Some(f.piece_length));
    let a8 = a7 + maybe("pieces", f.pieces);
    let a9 = a8 + maybe("private", f.private);
    lemma_among(none, "file tree", f.tree, keys);
    lemma_among(a1, "files", f.files, keys);
    lemma_among(a2, "length", f.length, keys);
    lemma_among(a3, "md5sum", f.md5sum, keys);
    lemma_among(a4, "meta version", f.version, keys);
    lemma_among(a5, "name", Some(f.name), keys);
    lemma_among(a6, "piece length", Some(f.piece_length), keys);
    lemma_among(a7, "pieces", f.pieces, keys);
    lemma_among(a8, "private", f.private, keys);
    lemma_among(a9, "source", f.source, keys);
    assert(d == a9 + maybe("source", f.source));
}

/// The `info` dictionary holds the fields of every version that the torrent has, and nothing else.
/// A torrent that is not private has no `private` field.
pub proof fn law_info_is_written(meta: MetaModel)
    ensures
        info_value(meta) is Dict,
        ({
            let d = info_value(meta)->Dict_0;
            &&& writes_text(field(d, "name"), Some(meta_name(meta)))
            &&& writes_number(field(d, "piece length"), meta_piece_length(meta))
            &&& field(d, "private") == if meta_private(meta) {
                Some(Value::Int(1))
            } else {
                None
            }
            &&& writes_text(field(d, "source"), meta_source(meta))
            &&& writes_v1(d, v1_fields_of(meta))
            &&& writes_v2(d, file_tree_of(meta))
            &&& keys_among(d, info_keys())
        }),
{
    match meta {
        MetaModel::V1 { info } => lemma_info_written(info, Some(info.kind), None),
        MetaModel::V2 { info, .. } => lemma_info_written(info, None, Some(info.kind)),
        MetaModel::Hybrid { info, .. } => lemma_info_written(
            info,
            Some(info.kind.v1),
            Some(info.kind.v2),
        ),
    }
}

/// A torrent is written with every field that it has, and nothing else. Each tier is a list of
/// trackers. A date that an integer has no room for is written as zero.
#[verifier::rlimit(40)]
pub proof fn law_torrent_is_written(t: TorrentModel)
    ensures
        ({
            let d = torrent_value(t)->Dict_0;
            &&& torrent_value(t) is Dict
            &&& field(d, "info") == Some(info_value(t.meta))
            &&& writes_text(field(d, "comment"), t.comment)
            &&& writes_text(field(d, "created by"), t.created_by)
            &&& writes_text(field(d, "encoding"), t.encoding)
            &&& match t.creation_date {
                Some(n) => field(d, "creation date") == Some(
                    Value::Int(
                        if n <= i64::MAX {
                            n as int
                        } else {
                            0
                        },
                    ),
                ),
                None => field(d, "creation date") is None,
            }
            &&& match t.web_seeds {
                Some(urls) => writes_texts(field(d, "url-list"), urls),
                None => field(d, "url-list") is None,
            }
            &&& match t.tracker_tiers {
                Some(tiers) => field(d, "announce-list") matches Some(Value::List(items)) && {
                    &&& items.len() == tiers.len()
                    &&& forall|i: int|
                        0 <= i < tiers.len() ==> writes_texts(
                            Some(#[trigger] items[i]),
                            tiers[i],
                        )
                },
                None => field(d, "announce-list") is None && field(d, "announce") is None,
            }
            &&& match meta_layers(t.meta) {
                Some(layers) => field(d, "piece layers") matches Some(Value::Dict(entries)) && {
                    &&& entries.len() == layers.len()
                    &&& forall|i: int|
                        0 <= i < layers.len() ==> #[trigger] entries[i] == (
                            layers[i].0,
                            Value::Bytes(layers[i].1),
                        )
                },
                None => field(d, "piece layers") is None,
            }
            &&& keys_among(d, torrent_keys())
        }),
{
    let f = written_fields(t);
    let d = torrent_entries(t);
    let keys = torrent_keys();
    assert(d == torrent_with_fields(f));
    lemma_torrent_fields(f);
    let none: Entries = Seq::empty();
    let a1 = maybe("announce", f.announce);
    let a2 = a1 + maybe("announce-list", f.tiers);
    let a3 = a2 + maybe("comment", f.comment);
    let a4 = a3 + maybe("created by", f.created_by);
    let a5 = a4 + maybe("creation date", f.date);
    let a6 = a5 + maybe("encoding", f.encoding);
    let a7 = a6 + maybe("info", Some(f.info));
    let a8 = a7 + maybe("piece layers", f.layers);
    lemma_among(none, "announce", f.announce, keys);
    lemma_among(a1, "announce-list", f.tiers, keys);
    lemma_among(a2, "comment", f.comment, keys);
    lemma_among(a3, "created by", f.created_by, keys);
    lemma_among(a4, "creation date", f.date, keys);
    lemma_among(a5, "encoding", f.encoding, keys);
    lemma_among(a6, "info", Some(f.info), keys);
    lemma_among(a7, "piece layers", f.layers, keys);
    lemma_among(a8, "url-list", f.seeds, keys);
    assert(d == a8 + maybe("url-list", f.seeds));
}

} // verus!
