//! What survives when a torrent is read, written and read again.
use vstd::prelude::*;
use vstd::utf8::{encode_utf8_decode_utf8, valid_utf8};

use crate::bencode::laws::{
    law_encode_is_injective, law_parse_undoes_encode, law_parsed_is_valid, lemma_nesting_positive,
};
use crate::bencode::model::{
    encode, entries_nesting, items_nesting, larger, nesting, valid, Value,
};
use crate::bencode::parser::parse_at;
use crate::chunks::{cut, flat};
use crate::sorted_map::entry;
use crate::torrent::error::Rejection;
use crate::torrent::fields::{all_ok, field, Entries};
use crate::torrent::files::file_info_of;
use crate::torrent::laws::{
    all_urls_parse, law_read_undoes_write, lemma_info_shows, normal, normal_meta, normal_node,
    normal_tree, normal_urls, readable_layers, readable_leaf, readable_meta, readable_node,
    readable_tree, readable_v1, reparsed,
};
use crate::torrent::model::{
    FileInfoModel, FileModeModel, InfoModel, LeafModel, MetaModel, NodeModel, TorrentModel,
    TreeModel, V1Model, V2Model,
};
use crate::torrent::query::{meta_name, meta_private, meta_source};
use crate::torrent::read::{
    files_of, layer_of, layers_field, layers_of, mismatch, torrent_of, v1_of, v2_of,
};
use crate::torrent::tree::{leaf_of, nodes_of, tree_of};
use crate::torrent::write::{
    date_value, file_info_value, first_tracker, info_entries, info_value, layers_value, leaf_value,
    length_value, maybe, meta_layers, node_value, one, opt_text_value, text_value, texts_value,
    torrent_entries, torrent_value, tree_entries,
};

verus! {

/// If all items are fine, each one is.
pub proof fn lemma_each_ok<A, B>(s: Seq<A>, f: spec_fn(A) -> Result<B, Rejection>)
    requires
        all_ok(s, f) is Ok,
    ensures
        all_ok(s, f)->Ok_0.len() == s.len(),
        forall|i: int|
            0 <= i < s.len() ==> #[trigger] f(s[i]) == Ok::<B, Rejection>(all_ok(s, f)->Ok_0[i]),
    decreases s.len(),
{
    if s.len() > 0 {
        let t = s.drop_last();
        lemma_each_ok(t, f);
        assert forall|i: int| 0 <= i < s.len() implies #[trigger] f(s[i]) == Ok::<B, Rejection>(
            all_ok(s, f)->Ok_0[i],
        ) by {
            if i < t.len() {
                assert(t[i] == s[i]);
                assert(f(t[i]) == Ok::<B, Rejection>(all_ok(t, f)->Ok_0[i]));
            }
        }
    }
}

/// What is found in a dictionary is nested less deeply.
pub proof fn lemma_found(d: Entries, k: Seq<u8>)
    ensures
        entry(d, k) matches Some(x) ==> {
            &&& nesting(x) <= entries_nesting(d)
            &&& exists|i: int| 0 <= i < d.len() && d[i] == (k, x)
        },
    decreases d.len(),
{
    if d.len() > 0 {
        if d.last().0 == k {
            assert(d[d.len() - 1] == (k, d.last().1));
        } else {
            lemma_found(d.drop_last(), k);
            if let Some(x) = entry(d.drop_last(), k) {
                let i = choose|i: int| 0 <= i < d.drop_last().len() && d.drop_last()[i] == (k, x);
                assert(d[i] == (k, x));
            }
        }
    }
}

/// A field of a valid dictionary is valid, and nested less deeply.
pub proof fn lemma_field(d: Entries, name: &str)
    requires
        valid(Value::Dict(d)),
    ensures
        field(d, name) matches Some(x) ==> valid(x) && nesting(x) < nesting(Value::Dict(d)),
{
    let k = vstd::utf8::encode_utf8(name@);
    lemma_found(d, k);
    if let Some(x) = field(d, name) {
        let i = choose|i: int| 0 <= i < d.len() && d[i] == (k, x);
        assert(valid(d[i].1));
    }
}

/// A leaf that has been read can be read back.
proof fn lemma_parsed_leaf(v: Value)
    requires
        valid(v),
        leaf_of(v) is Ok,
    ensures
        readable_leaf(leaf_of(v)->Ok_0),
        nesting(v) >= 2,
{
    let d = v->Dict_0;
    lemma_field(d, "length");
    lemma_nesting_positive(field(d, "length")->0);
}

proof fn lemma_entries_natural(entries: Entries)
    ensures
        entries_nesting(entries) >= 0,
    decreases entries.len(),
{
    if entries.len() > 0 {
        lemma_entries_natural(entries.drop_last());
    }
}

/// The nesting of a leaf.
proof fn lemma_leaf_nesting(leaf: LeafModel)
    ensures
        nesting(leaf_value(leaf)) == 2,
{
    let root = match leaf.pieces_root {
        Some(root) => Some(Value::Bytes(root)),
        None => None,
    };
    let length = crate::torrent::write::length_value(leaf.length);
    lemma_maybe_nesting("length", Some(length));
    lemma_maybe_nesting("pieces root", root);
    lemma_concat_nesting(maybe("length", Some(length)), maybe("pieces root", root));
}

/// The nesting of a field.
proof fn lemma_maybe_nesting(name: &str, v: Option<Value>)
    ensures
        entries_nesting(maybe(name, v)) == match v {
            Some(v) => nesting(v),
            None => 0,
        },
{
    if let Some(x) = v {
        let d = one(name, x);
        assert(d.drop_last() =~= Seq::<(Seq<u8>, Value)>::empty());
        reveal_with_fuel(entries_nesting, 2);
        lemma_nesting_positive(x);
    }
}

/// The nesting of the entries of two lists, one behind the other.
proof fn lemma_concat_nesting(a: Entries, b: Entries)
    ensures
        entries_nesting(a + b) == larger(entries_nesting(a), entries_nesting(b)),
    decreases b.len(),
{
    lemma_entries_natural(a);
    if b.len() == 0 {
        assert(a + b =~= a);
    } else {
        assert((a + b).drop_last() =~= a + b.drop_last());
        lemma_concat_nesting(a, b.drop_last());
    }
}

/// A tree that has been read can be read back, is in normal form, and is not nested more deeply
/// when it is written.
#[verifier::rlimit(30)]
proof fn lemma_parsed_tree(entries: Entries)
    requires
        forall|i: int| 0 <= i < entries.len() ==> valid((#[trigger] entries[i]).1),
        nodes_of(entries) is Ok,
    ensures
        ({
            let tree = nodes_of(entries)->Ok_0;
            &&& readable_tree(tree)
            &&& normal_tree(tree) == tree
            &&& entries_nesting(tree_entries(tree)) <= entries_nesting(entries)
        }),
    decreases entries,
{
    let tree = nodes_of(entries)->Ok_0;
    if entries.len() == 0 {
        assert(normal_tree(tree) =~= tree);
        assert(tree_entries(tree) =~= Seq::<(Seq<u8>, Value)>::empty());
    } else {
        let rest = entries.drop_last();
        assert forall|i: int| 0 <= i < rest.len() implies valid((#[trigger] rest[i]).1) by {
            assert(rest[i] == entries[i]);
        }
        lemma_parsed_tree(rest);
        let t = nodes_of(rest)->Ok_0;
        let (key, v) = entries[entries.len() - 1];
        assert(valid(v));
        let node = tree.last().1;
        assert(tree == t.push((key, node)));
        reveal_with_fuel(readable_node, 2);
        reveal_with_fuel(normal_node, 2);
        reveal_with_fuel(node_value, 2);
        if key.len() == 0 {
            lemma_parsed_leaf(v);
            let leaf = leaf_of(v)->Ok_0;
            assert(node == NodeModel::File(leaf));
            lemma_leaf_nesting(leaf);
            assert(readable_node(key, node));
            assert(normal_node(key, node) == node);
            assert(node_value(key, node) == leaf_value(leaf));
        } else {
            let inner = v->Dict_0;
            reveal_with_fuel(tree_of, 2);
            reveal_with_fuel(nodes_of, 2);
            assert(tree_of(v) is Ok);
            assert(v is Dict);
            assert(tree_of(v) == nodes_of(inner));
            assert(decreases_to!(entries => entries[entries.len() - 1]));
            assert(decreases_to!(entries[entries.len() - 1] => v));
            assert(decreases_to!(v => inner));
            assert forall|i: int| 0 <= i < inner.len() implies valid((#[trigger] inner[i]).1) by {
                assert(valid(Value::Dict(inner)));
            }
            lemma_parsed_tree(inner);
            let sub = nodes_of(inner)->Ok_0;
            assert(node == NodeModel::Directory(sub));
            assert(readable_node(key, node));
            assert(normal_node(key, node) == node);
            assert(node_value(key, node) == Value::Dict(tree_entries(sub)));
        }
        assert(nesting(node_value(key, node)) <= nesting(v));
        assert forall|i: int| 0 <= i < tree.len() implies valid_utf8((#[trigger] tree[i]).0)
            && readable_node(tree[i].0, tree[i].1) by {
            if i < t.len() {
                assert(tree[i] == t[i]);
            }
        }
        assert(normal_tree(tree) =~= normal_tree(t).push((key, normal_node(key, node))));
        let e = tree_entries(tree);
        assert(e =~= tree_entries(t).push((key, node_value(key, node))));
        assert(e.drop_last() =~= tree_entries(t));
    }
}

/// A file that has been read can be read back.
proof fn lemma_parsed_file(v: Value)
    requires
        valid(v),
        file_info_of(v) is Ok,
    ensures
        file_info_of(v)->Ok_0.length <= i64::MAX,
{
    let d = v->Dict_0;
    lemma_field(d, "length");
}

/// V1 fields that have been read can be read back.
proof fn lemma_parsed_v1(d: Entries)
    requires
        valid(Value::Dict(d)),
        v1_of(d) is Ok,
    ensures
        v1_of(d)->Ok_0 matches Some(v1) ==> readable_v1(v1),
{
    if let Some(v1) = v1_of(d)->Ok_0 {
        let s = field(d, "pieces")->0->Bytes_0;
        assert(v1.pieces == cut(s, 20));
        assert forall|i: int| 0 <= i < v1.pieces.len() implies (#[trigger] v1.pieces[i]).len()
            == 20 by {
            assert(i * 20 + 20 <= s.len());
        }
        match v1.file_mode {
            FileModeModel::Single { length, .. } => {
                lemma_field(d, "length");
            },
            FileModeModel::Multi { files } => {
                lemma_field(d, "files");
                let items = field(d, "files")->0->List_0;
                let f = |v: Value| file_info_of(v);
                assert(all_ok(items, f) == files_of(items));
                lemma_each_ok(items, f);
                assert forall|i: int| 0 <= i < files.len() implies (#[trigger] files[i]).length
                    <= i64::MAX by {
                    assert(f(items[i]) == Ok::<FileInfoModel, Rejection>(files[i]));
                    assert(valid(items[i]));
                    lemma_parsed_file(items[i]);
                }
            },
        }
    }
}

/// How deep the file tree of a torrent is nested when it is written.
pub open spec fn tree_nesting(meta: MetaModel) -> int {
    match meta {
        MetaModel::V1 { .. } => 0,
        MetaModel::V2 { info, .. } => nesting(Value::Dict(tree_entries(info.kind.file_tree))),
        MetaModel::Hybrid { info, .. } => nesting(
            Value::Dict(tree_entries(info.kind.v2.file_tree)),
        ),
    }
}

/// V2 fields that have been read can be read back.
proof fn lemma_parsed_v2(d: Entries)
    requires
        valid(Value::Dict(d)),
        v2_of(d) is Ok,
    ensures
        v2_of(d)->Ok_0 matches Some(v2) ==> {
            &&& readable_tree(v2.file_tree)
            &&& normal_tree(v2.file_tree) == v2.file_tree
            &&& nesting(Value::Dict(tree_entries(v2.file_tree))) < nesting(Value::Dict(d))
        },
{
    if let Some(v2) = v2_of(d)->Ok_0 {
        lemma_field(d, "file tree");
        let v = field(d, "file tree")->0;
        reveal_with_fuel(tree_of, 2);
        assert(tree_of(v) == Ok::<TreeModel, Rejection>(v2.file_tree));
        let entries = v->Dict_0;
        assert forall|i: int| 0 <= i < entries.len() implies valid((#[trigger] entries[i]).1) by {
            assert(valid(Value::Dict(entries)));
        }
        lemma_parsed_tree(entries);
    }
}

/// Piece layers that have been read can be read back.
proof fn lemma_parsed_layers(d: Entries)
    requires
        layers_field(d) is Ok,
    ensures
        layers_field(d)->Ok_0 matches Some(layers) ==> readable_layers(layers),
{
    if let Some(layers) = layers_field(d)->Ok_0 {
        let entries = field(d, "piece layers")->0->Dict_0;
        let f = |e: (Seq<u8>, Value)| layer_of(e);
        assert(all_ok(entries, f) == layers_of(entries));
        lemma_each_ok(entries, f);
        assert forall|i: int| 0 <= i < layers.len() implies (#[trigger] layers[i]).0.len()
            == 32 by {
            assert(f(entries[i]) == Ok::<(Seq<u8>, Seq<u8>), Rejection>(layers[i]));
        }
    }
}

/// What has been read can be read back, is in normal form, lists the same files in its v1 and v2
/// fields, and is not nested more deeply when it is written.
#[verifier::rlimit(30)]
pub proof fn law_parsed_is_normal(v: Value)
    requires
        valid(v),
    ensures
        torrent_of(v) matches Ok(t) ==> {
            &&& readable_meta(t.meta)
            &&& normal(t) == t
            &&& !mismatch(t.meta)
            &&& tree_nesting(t.meta) + 2 <= larger(2, nesting(v))
        },
{
    if let Ok(t) = torrent_of(v) {
        let d = v->Dict_0;
        lemma_field(d, "info");
        let i = field(d, "info")->0;
        let e = i->Dict_0;
        lemma_field(e, "piece length");
        lemma_parsed_v1(e);
        lemma_parsed_v2(e);
        lemma_parsed_layers(d);
        lemma_field(d, "creation date");
        assert(normal_meta(t.meta) == t.meta);
        assert(normal(t) =~= t);
    }
}

/// Writing what has been read and reading it again gives the same, with the URLs in normal form.
pub proof fn law_written_is_what_was_read(v: Value)
    requires
        valid(v),
        torrent_of(v) is Ok,
    ensures
        torrent_of(torrent_value(torrent_of(v)->Ok_0)) == if all_urls_parse(torrent_of(v)->Ok_0) {
            Ok::<TorrentModel, Rejection>(reparsed(torrent_of(v)->Ok_0))
        } else {
            Err(Rejection::InvalidUrl)
        },
        normal_urls(torrent_of(v)->Ok_0) ==> torrent_of(torrent_value(torrent_of(v)->Ok_0))
            == torrent_of(v),
{
    let t = torrent_of(v)->Ok_0;
    law_parsed_is_normal(v);
    law_read_undoes_write(t);
    assert(normal(reparsed(t)) == reparsed(t));
}

/// The nesting of some texts.
proof fn lemma_texts_nesting(s: Seq<Seq<char>>)
    ensures
        nesting(texts_value(s)) <= 2,
    decreases s.len(),
{
    let items = texts_value(s)->List_0;
    lemma_items_bound(items, 1);
}

/// Some values are nested no more deeply than each of them.
proof fn lemma_items_bound(items: Seq<Value>, n: int)
    requires
        n >= 0,
        forall|i: int| 0 <= i < items.len() ==> nesting(#[trigger] items[i]) <= n,
    ensures
        items_nesting(items) <= n,
    decreases items.len(),
{
    if items.len() > 0 {
        let t = items.drop_last();
        assert forall|i: int| 0 <= i < t.len() implies nesting(#[trigger] t[i]) <= n by {
            assert(t[i] == items[i]);
        }
        lemma_items_bound(t, n);
        assert(nesting(items[items.len() - 1]) <= n);
    }
}

/// Some entries are nested no more deeply than each of them.
proof fn lemma_entries_bound(entries: Entries, n: int)
    requires
        n >= 0,
        forall|i: int| 0 <= i < entries.len() ==> nesting((#[trigger] entries[i]).1) <= n,
    ensures
        entries_nesting(entries) <= n,
    decreases entries.len(),
{
    if entries.len() > 0 {
        let t = entries.drop_last();
        assert forall|i: int| 0 <= i < t.len() implies nesting((#[trigger] t[i]).1) <= n by {
            assert(t[i] == entries[i]);
        }
        lemma_entries_bound(t, n);
        assert(nesting(entries[entries.len() - 1].1) <= n);
    }
}

/// The nesting of a file information dictionary.
proof fn lemma_file_nesting(f: FileInfoModel)
    ensures
        nesting(file_info_value(f)) <= 3,
{
    let attr = match f.attr {
        Some(flags) => Some(Value::Bytes(crate::torrent::attr::attr_letters(flags))),
        None => None,
    };
    let length = Some(crate::torrent::write::length_value(f.length));
    let md5sum = opt_text_value(f.md5sum);
    let path = Some(texts_value(f.path));
    lemma_maybe_nesting("attr", attr);
    lemma_maybe_nesting("length", length);
    lemma_maybe_nesting("md5sum", md5sum);
    lemma_maybe_nesting("path", path);
    lemma_texts_nesting(f.path);
    let d2 = maybe("attr", attr) + maybe("length", length);
    let d3 = d2 + maybe("md5sum", md5sum);
    lemma_concat_nesting(maybe("attr", attr), maybe("length", length));
    lemma_concat_nesting(d2, maybe("md5sum", md5sum));
    lemma_concat_nesting(d3, maybe("path", path));
    assert(file_info_value(f) == Value::Dict(d3 + maybe("path", path)));
}

/// The nesting of the fields of an `info` dictionary.
proof fn lemma_info_nesting<K>(
    info: InfoModel<K>,
    v1: Option<V1Model>,
    v2: Option<V2Model>,
    n: int,
)
    requires
        n >= 4,
        v2 matches Some(v2) ==> nesting(Value::Dict(tree_entries(v2.file_tree))) <= n,
    ensures
        entries_nesting(info_entries(info, v1, v2)) <= n,
{
    let tree = match v2 {
        Some(v2) => Some(Value::Dict(tree_entries(v2.file_tree))),
        None => None,
    };
    let files = match v1 {
        Some(v1) => match v1.file_mode {
            FileModeModel::Multi { files } => Some(
                Value::List(Seq::new(files.len(), |i: int| file_info_value(files[i]))),
            ),
            FileModeModel::Single { .. } => None,
        },
        None => None,
    };
    if let Some(v1) = v1 {
        if let FileModeModel::Multi { files } = v1.file_mode {
            let items = Seq::new(files.len(), |i: int| file_info_value(files[i]));
            assert forall|i: int| 0 <= i < items.len() implies nesting(#[trigger] items[i]) <= 3 by {
                lemma_file_nesting(files[i]);
            }
            lemma_items_bound(items, 3);
        }
    }
    let length = match v1 {
        Some(v1) => match v1.file_mode {
            FileModeModel::Single { length, .. } => Some(length_value(length)),
            FileModeModel::Multi { .. } => None,
        },
        None => None,
    };
    let md5sum = match v1 {
        Some(v1) => match v1.file_mode {
            FileModeModel::Single { md5sum, .. } => opt_text_value(md5sum),
            FileModeModel::Multi { .. } => None,
        },
        None => None,
    };
    let version = match v2 {
        Some(_) => Some(Value::Int(2)),
        None => None,
    };
    let pieces = match v1 {
        Some(v1) => Some(Value::Bytes(flat(v1.pieces))),
        None => None,
    };
    let private = if info.private {
        Some(Value::Int(1))
    } else {
        None
    };
    let a1 = maybe("file tree", tree);
    let a2 = a1 + maybe("files", files);
    let a3 = a2 + maybe("length", length);
    let a4 = a3 + maybe("md5sum", md5sum);
    let a5 = a4 + maybe("meta version", version);
    let a6 = a5 + maybe("name", Some(text_value(info.name)));
    let a7 = a6 + maybe("piece length", Some(length_value(info.piece_length)));
    let a8 = a7 + maybe("pieces", pieces);
    let a9 = a8 + maybe("private", private);
    let source = opt_text_value(info.source);
    lemma_maybe_nesting("file tree", tree);
    lemma_maybe_nesting("files", files);
    lemma_maybe_nesting("length", length);
    lemma_maybe_nesting("md5sum", md5sum);
    lemma_maybe_nesting("meta version", version);
    lemma_maybe_nesting("name", Some(text_value(info.name)));
    lemma_maybe_nesting("piece length", Some(length_value(info.piece_length)));
    lemma_maybe_nesting("pieces", pieces);
    lemma_maybe_nesting("private", private);
    lemma_maybe_nesting("source", source);
    lemma_concat_nesting(a1, maybe("files", files));
    lemma_concat_nesting(a2, maybe("length", length));
    lemma_concat_nesting(a3, maybe("md5sum", md5sum));
    lemma_concat_nesting(a4, maybe("meta version", version));
    lemma_concat_nesting(a5, maybe("name", Some(text_value(info.name))));
    lemma_concat_nesting(a6, maybe("piece length", Some(length_value(info.piece_length))));
    lemma_concat_nesting(a7, maybe("pieces", pieces));
    lemma_concat_nesting(a8, maybe("private", private));
    lemma_concat_nesting(a9, maybe("source", source));
    assert(info_entries(info, v1, v2) == a9 + maybe("source", source));
}

/// A torrent is nested no more than six levels deep, or two levels deeper than its file tree.
pub proof fn law_nesting_of_a_torrent(t: TorrentModel)
    ensures
        nesting(torrent_value(t)) <= larger(6, 2 + tree_nesting(t.meta)),
{
    let n = larger(5, 1 + tree_nesting(t.meta));
    let info = info_value(t.meta);
    match t.meta {
        MetaModel::V1 { info } => lemma_info_nesting(info, Some(info.kind), None, n - 1),
        MetaModel::V2 { info, .. } => lemma_info_nesting(info, None, Some(info.kind), n - 1),
        MetaModel::Hybrid { info, .. } => lemma_info_nesting(
            info,
            Some(info.kind.v1),
            Some(info.kind.v2),
            n - 1,
        ),
    }
    assert(nesting(info) <= n);
    let announce = opt_text_value(first_tracker(t.tracker_tiers));
    let tiers = match t.tracker_tiers {
        Some(tiers) => Some(Value::List(Seq::new(tiers.len(), |i: int| texts_value(tiers[i])))),
        None => None,
    };
    if let Some(tiers) = t.tracker_tiers {
        let items = Seq::new(tiers.len(), |i: int| texts_value(tiers[i]));
        assert forall|i: int| 0 <= i < items.len() implies nesting(#[trigger] items[i]) <= 2 by {
            lemma_texts_nesting(tiers[i]);
        }
        lemma_items_bound(items, 2);
    }
    let date = match t.creation_date {
        Some(n) => Some(date_value(n)),
        None => None,
    };
    let layers = match meta_layers(t.meta) {
        Some(layers) => Some(layers_value(layers)),
        None => None,
    };
    if let Some(layers) = meta_layers(t.meta) {
        lemma_entries_bound(layers_value(layers)->Dict_0, 1);
    }
    let seeds = match t.web_seeds {
        Some(urls) => Some(texts_value(urls)),
        None => None,
    };
    if let Some(urls) = t.web_seeds {
        lemma_texts_nesting(urls);
    }
    let comment = opt_text_value(t.comment);
    let created_by = opt_text_value(t.created_by);
    let encoding = opt_text_value(t.encoding);
    let a1 = maybe("announce", announce);
    let a2 = a1 + maybe("announce-list", tiers);
    let a3 = a2 + maybe("comment", comment);
    let a4 = a3 + maybe("created by", created_by);
    let a5 = a4 + maybe("creation date", date);
    let a6 = a5 + maybe("encoding", encoding);
    let a7 = a6 + maybe("info", Some(info));
    let a8 = a7 + maybe("piece layers", layers);
    lemma_maybe_nesting("announce", announce);
    lemma_maybe_nesting("announce-list", tiers);
    lemma_maybe_nesting("comment", comment);
    lemma_maybe_nesting("created by", created_by);
    lemma_maybe_nesting("creation date", date);
    lemma_maybe_nesting("encoding", encoding);
    lemma_maybe_nesting("info", Some(info));
    lemma_maybe_nesting("piece layers", layers);
    lemma_maybe_nesting("url-list", seeds);
    lemma_concat_nesting(a1, maybe("announce-list", tiers));
    lemma_concat_nesting(a2, maybe("comment", comment));
    lemma_concat_nesting(a3, maybe("created by", created_by));
    lemma_concat_nesting(a4, maybe("creation date", date));
    lemma_concat_nesting(a5, maybe("encoding", encoding));
    lemma_concat_nesting(a6, maybe("info", Some(info)));
    lemma_concat_nesting(a7, maybe("piece layers", layers));
    lemma_concat_nesting(a8, maybe("url-list", seeds));
    assert(torrent_entries(t) == a8 + maybe("url-list", seeds));
}

/// What parsing some data as a torrent gives.
pub open spec fn torrent_in(data: Seq<u8>) -> Option<TorrentModel> {
    match parse_at(data, 0, 1, 64) {
        Ok((v, _)) => match torrent_of(v) {
            Ok(t) => Some(t),
            Err(_) => None,
        },
        Err(_) => None,
    }
}

/// A torrent whose `info` dictionary can be read back is found again in the bytes that are written
/// for it, in its normal form, with its URLs in normal form and whatever follows it, unless one of
/// them is no URL or its v1 and v2 fields list different files. Its file tree must not be nested
/// too deeply. URLs that are in normal form stay as they are.
pub proof fn law_bytes_hold_the_torrent(t: TorrentModel, rest: Seq<u8>)
    requires
        readable_meta(t.meta),
        valid(torrent_value(t)),
        2 + tree_nesting(t.meta) <= 64,
    ensures
        torrent_in(encode(torrent_value(t)) + rest) == if !all_urls_parse(t) || mismatch(t.meta) {
            None
        } else {
            Some(normal(reparsed(t)))
        },
        normal_urls(t) ==> all_urls_parse(t) && reparsed(t) == t,
{
    law_nesting_of_a_torrent(t);
    law_parse_undoes_encode(torrent_value(t), rest, 1, 64);
    law_read_undoes_write(t);
}

/// A torrent that has been parsed is found again in the bytes that are written for it, with its
/// URLs in normal form, unless one of them is no URL then. URLs that are in normal form stay as
/// they are.
pub proof fn law_parsed_torrents_survive(data: Seq<u8>)
    requires
        torrent_in(data) is Some,
        valid(torrent_value(torrent_in(data)->0)),
    ensures
        torrent_in(encode(torrent_value(torrent_in(data)->0))) == if all_urls_parse(
            torrent_in(data)->0,
        ) {
            Some(reparsed(torrent_in(data)->0))
        } else {
            None
        },
        normal_urls(torrent_in(data)->0) ==> torrent_in(
            encode(torrent_value(torrent_in(data)->0)),
        ) == torrent_in(data),
{
    law_parsed_is_valid(data, 0, 1, 64);
    let (v, end) = parse_at(data, 0, 1, 64)->Ok_0;
    law_parsed_is_normal(v);
    let t = torrent_in(data)->0;
    law_bytes_hold_the_torrent(t, Seq::empty());
    assert(normal(reparsed(t)) == reparsed(t));
    assert(encode(torrent_value(t)) + Seq::<u8>::empty() =~= encode(torrent_value(t)));
}

/// The bytes that are hashed show the name, the `private` field and the source: torrents that
/// differ in one of them have different `info` dictionaries.
pub proof fn law_hashed_bytes_show_the_fields(a: MetaModel, b: MetaModel)
    requires
        valid(info_value(a)),
        valid(info_value(b)),
        encode(info_value(a)) == encode(info_value(b)),
    ensures
        meta_name(a) == meta_name(b),
        meta_private(a) == meta_private(b),
        meta_source(a) == meta_source(b),
{
    law_encode_is_injective(info_value(a), info_value(b));
    lemma_meta_shows(a);
    lemma_meta_shows(b);
    encode_utf8_decode_utf8(meta_name(a));
    encode_utf8_decode_utf8(meta_name(b));
    if let Some(s) = meta_source(a) {
        encode_utf8_decode_utf8(s);
    }
    if let Some(s) = meta_source(b) {
        encode_utf8_decode_utf8(s);
    }
}

/// The name, the `private` field and the source are found in an `info` dictionary.
proof fn lemma_meta_shows(meta: MetaModel)
    ensures
        info_value(meta) is Dict,
        field(info_value(meta)->Dict_0, "name") == Some(text_value(meta_name(meta))),
        field(info_value(meta)->Dict_0, "private") == if meta_private(meta) {
            Some(Value::Int(1))
        } else {
            None
        },
        field(info_value(meta)->Dict_0, "source") == opt_text_value(meta_source(meta)),
{
    match meta {
        MetaModel::V1 { info } => lemma_info_shows(info, Some(info.kind), None),
        MetaModel::V2 { info, .. } => lemma_info_shows(info, None, Some(info.kind)),
        MetaModel::Hybrid { info, .. } => lemma_info_shows(
            info,
            Some(info.kind.v1),
            Some(info.kind.v2),
        ),
    }
}

} // verus!
