//! What a torrent that is read says of the dictionaries that it is read from, and which
//! dictionaries are accepted.
use vstd::prelude::*;
use vstd::utf8::{decode_utf8, decode_utf8_encode_utf8, encode_utf8, valid_utf8};

use crate::bencode::model::{valid, Value};
use crate::chunks::{flat, lemma_flat_cut};
use crate::num::is_power_of_two;
use crate::sorted_map::lemma_entry_at;
use crate::torrent::attr::{letters_attr, FileInfoAttrFlags};
use crate::torrent::error::Rejection;
use crate::torrent::fidelity::{lemma_each_ok, lemma_field, lemma_found};
use crate::torrent::fields::{field, lemma_all_ok, text_of, Entries};
use crate::torrent::files::{file_info_of, texts_of};
use crate::torrent::model::{
    FileInfoModel, FileModeModel, LayersModel, LeafModel, MetaModel, NodeModel, TorrentModel,
    TreeModel, V1Model, V2Model,
};
use crate::torrent::read::{
    files_of, info_of, layer_of, layers_of, mismatch, tiers_of, torrent_of, trackers_of,
    url_list_of, url_of, urls_of, v1_of, v2_of, ParsedModel,
};
use crate::torrent::tree::{leaf_of, nodes_of, tree_of};
use crate::web::url_text;

verus! {

/// A field holds a text, or neither is there.
pub open spec fn says_text(v: Option<Value>, text: Option<Seq<char>>) -> bool {
    match text {
        Some(s) => v == Some(Value::Bytes(encode_utf8(s))),
        None => v is None,
    }
}

/// A value is a text.
pub open spec fn is_text(v: Value) -> bool {
    v matches Value::Bytes(s) && valid_utf8(s)
}

/// A field is not there, or it is a text.
pub open spec fn may_be_text(v: Option<Value>) -> bool {
    v matches Some(v) ==> is_text(v)
}

/// A text that is read is the one whose bytes are there.
pub proof fn lemma_text_says(v: Value)
    ensures
        text_of(v) is Ok <==> is_text(v),
        text_of(v) matches Ok(s) ==> v == Value::Bytes(encode_utf8(s)),
{
    if let Value::Bytes(s) = v {
        if valid_utf8(s) {
            decode_utf8_encode_utf8(s);
        }
    }
}

/// The letters of attributes are `l`, `x`, `h` and `p`.
pub open spec fn is_letter(b: u8) -> bool {
    b == 108 || b == 120 || b == 104 || b == 112
}

/// Some letters stand for attributes: each one that is there, and no other.
pub open spec fn letters_say(s: Seq<u8>, flags: FileInfoAttrFlags) -> bool {
    &&& forall|i: int| 0 <= i < s.len() ==> is_letter(#[trigger] s[i])
    &&& flags.symlink <==> s.contains(108)
    &&& flags.executable <==> s.contains(120)
    &&& flags.hidden <==> s.contains(104)
    &&& flags.padding <==> s.contains(112)
}

/// An attribute is there exactly if its letter is, and other letters are not accepted.
pub proof fn law_letters_are_attributes(s: Seq<u8>)
    ensures
        letters_attr(s) is Some <==> forall|i: int| 0 <= i < s.len() ==> is_letter(#[trigger] s[i]),
        letters_attr(s) matches Some(flags) ==> letters_say(s, flags),
    decreases s.len(),
{
    if s.len() > 0 {
        let t = s.drop_last();
        let last = s[s.len() - 1];
        law_letters_are_attributes(t);
        assert(forall|i: int| 0 <= i < t.len() ==> t[i] == s[i]);
        assert(s =~= t.push(last));
        assert forall|b: u8| #[trigger] s.contains(b) <==> t.contains(b) || b == last by {
            if t.contains(b) {
                let i = choose|i: int| 0 <= i < t.len() && t[i] == b;
                assert(s[i] == b);
            }
            if b == last {
                assert(s[s.len() - 1] == b);
            }
            if s.contains(b) {
                let i = choose|i: int| 0 <= i < s.len() && s[i] == b;
                if i < t.len() {
                    assert(t[i] == b);
                }
            }
        }
        if letters_attr(s) is Some {
            assert forall|i: int| 0 <= i < s.len() implies is_letter(#[trigger] s[i]) by {
                if i < t.len() {
                    assert(is_letter(t[i]));
                }
            }
        }
        if forall|i: int| 0 <= i < s.len() ==> is_letter(#[trigger] s[i]) {
            assert forall|i: int| 0 <= i < t.len() implies is_letter(#[trigger] t[i]) by {
                assert(is_letter(s[i]));
            }
            assert(is_letter(s[s.len() - 1]));
        }
    }
}

/// A file information dictionary says what a file is.
pub open spec fn says_file(v: Value, f: FileInfoModel) -> bool {
    &&& v matches Value::Dict(d)
    &&& field(d, "length") == Some(Value::Int(f.length as int))
    &&& says_text(field(d, "md5sum"), f.md5sum)
    &&& match f.attr {
        Some(flags) => field(d, "attr") matches Some(Value::Bytes(s)) && letters_say(s, flags),
        None => field(d, "attr") is None,
    }
    &&& field(d, "path") matches Some(Value::List(items))
    &&& items.len() == f.path.len()
    &&& forall|i: int|
        0 <= i < items.len() ==> #[trigger] items[i] == Value::Bytes(encode_utf8(f.path[i]))
}

/// A file information dictionary that is accepted.
pub open spec fn good_file(v: Value) -> bool {
    &&& v matches Value::Dict(d)
    &&& field(d, "length") matches Some(Value::Int(n))
    &&& n >= 0
    &&& may_be_text(field(d, "md5sum"))
    &&& field(d, "attr") matches Some(a) ==> (a matches Value::Bytes(s) && forall|i: int|
        0 <= i < s.len() ==> is_letter(#[trigger] s[i]))
    &&& field(d, "path") matches Some(Value::List(items))
    &&& forall|i: int| 0 <= i < items.len() ==> is_text(#[trigger] items[i])
}

/// Texts are read one by one.
proof fn lemma_texts_say(items: Seq<Value>)
    ensures
        texts_of(items) is Ok <==> forall|i: int|
            0 <= i < items.len() ==> is_text(#[trigger] items[i]),
        texts_of(items) matches Ok(texts) ==> texts.len() == items.len() && forall|i: int|
            0 <= i < items.len() ==> #[trigger] items[i] == Value::Bytes(encode_utf8(texts[i])),
{
    let f = |v: Value| text_of(v);
    if texts_of(items) is Ok {
        lemma_each_ok(items, f);
        assert forall|i: int| 0 <= i < items.len() implies #[trigger] items[i] == Value::Bytes(
            encode_utf8(texts_of(items)->Ok_0[i]),
        ) && is_text(items[i]) by {
            assert(f(items[i]) == Ok::<Seq<char>, Rejection>(texts_of(items)->Ok_0[i]));
            lemma_text_says(items[i]);
        }
    }
    if forall|i: int| 0 <= i < items.len() ==> is_text(#[trigger] items[i]) {
        let texts = Seq::new(items.len(), |i: int| text_of(items[i])->Ok_0);
        assert forall|i: int| 0 <= i < items.len() implies #[trigger] f(items[i]) == Ok::<
            Seq<char>,
            Rejection,
        >(texts[i]) by {
            assert(is_text(items[i]));
            lemma_text_says(items[i]);
        }
        lemma_all_ok(items, texts, f);
    }
}

/// Which file information dictionaries are accepted, and what is read from them: the length, the
/// components of the path in order, the MD5 sum and the attributes are those that stand there.
pub proof fn law_file_is_read(v: Value)
    requires
        valid(v),
    ensures
        file_info_of(v) is Ok <==> good_file(v),
        file_info_of(v) matches Ok(f) ==> says_file(v, f),
{
    if let Value::Dict(d) = v {
        lemma_field(d, "length");
        if let Some(m) = field(d, "md5sum") {
            lemma_text_says(m);
        }
        if let Some(Value::Bytes(s)) = field(d, "attr") {
            law_letters_are_attributes(s);
        }
        if let Some(Value::List(items)) = field(d, "path") {
            lemma_texts_say(items);
        }
    }
}

/// A file leaf says what a file is.
pub open spec fn says_leaf(v: Value, leaf: LeafModel) -> bool {
    &&& v matches Value::Dict(d)
    &&& field(d, "length") == Some(Value::Int(leaf.length as int))
    &&& match leaf.pieces_root {
        Some(root) => field(d, "pieces root") == Some(Value::Bytes(root)) && root.len() == 32,
        None => field(d, "pieces root") is None,
    }
}

/// A file leaf that is accepted: it has a root of 32 bytes exactly if the file is not empty.
pub open spec fn good_leaf(v: Value) -> bool {
    &&& v matches Value::Dict(d)
    &&& field(d, "length") matches Some(Value::Int(n))
    &&& n >= 0
    &&& if n == 0 {
        field(d, "pieces root") is None
    } else {
        field(d, "pieces root") matches Some(Value::Bytes(root)) && root.len() == 32
    }
}

/// Which file leaves are accepted, and what is read from them.
pub proof fn law_leaf_is_read(v: Value)
    requires
        valid(v),
    ensures
        leaf_of(v) is Ok <==> good_leaf(v),
        leaf_of(v) matches Ok(leaf) ==> says_leaf(v, leaf),
{
    if let Value::Dict(d) = v {
        lemma_field(d, "length");
    }
}

/// A dictionary says what a file tree is: it has an entry for each node, under the same name. The
/// empty name leads to a file, any other one to a directory.
pub open spec fn says_tree(v: Value, tree: TreeModel) -> bool
    decreases tree,
{
    &&& v matches Value::Dict(d)
    &&& d.len() == tree.len()
    &&& forall|i: int|
        0 <= i < tree.len() ==> d[i].0 == (#[trigger] tree[i]).0 && says_node(
            d[i].0,
            d[i].1,
            tree[i].1,
        )
}

/// A value under a name says what a node is.
pub open spec fn says_node(name: Seq<u8>, v: Value, node: NodeModel) -> bool
    decreases node,
{
    match node {
        NodeModel::Directory(tree) => name.len() > 0 && says_tree(v, tree),
        NodeModel::File(leaf) => name.len() == 0 && says_leaf(v, leaf),
    }
}

/// A file tree that is accepted.
pub open spec fn good_tree(v: Value) -> bool
    decreases v,
{
    match v {
        Value::Dict(d) => forall|i: int|
            0 <= i < d.len() ==> valid_utf8((#[trigger] d[i]).0) && if d[i].0.len() == 0 {
                good_leaf(d[i].1)
            } else {
                good_tree(d[i].1)
            },
        _ => false,
    }
}

/// Which file trees are accepted, and what is read from them.
pub proof fn law_tree_is_read(v: Value)
    requires
        valid(v),
    ensures
        tree_of(v) is Ok <==> good_tree(v),
        tree_of(v) matches Ok(tree) ==> says_tree(v, tree),
    decreases v,
{
    reveal_with_fuel(tree_of, 2);
    reveal_with_fuel(nodes_of, 2);
    reveal_with_fuel(good_tree, 2);
    if let Value::Dict(d) = v {
        assert(decreases_to!(v => d));
        lemma_nodes_read(v, d, d.len() as int);
        assert(d.take(d.len() as int) =~= d);
        assert(nodes_of(d) is Ok ==> says_tree(v, nodes_of(d)->Ok_0));
    }
}

proof fn lemma_nodes_read(v: Value, d: Entries, k: int)
    requires
        v == Value::Dict(d),
        valid(v),
        0 <= k <= d.len(),
    ensures
        nodes_of(d.take(k)) is Ok <==> forall|i: int|
            0 <= i < k ==> valid_utf8((#[trigger] d[i]).0) && if d[i].0.len() == 0 {
                good_leaf(d[i].1)
            } else {
                good_tree(d[i].1)
            },
        nodes_of(d.take(k)) matches Ok(tree) ==> tree.len() == k && forall|i: int|
            0 <= i < k ==> d[i].0 == (#[trigger] tree[i]).0 && says_node(d[i].0, d[i].1, tree[i].1),
    decreases v, k,
{
    reveal_with_fuel(nodes_of, 2);
    reveal_with_fuel(says_node, 2);
    if k == 0 {
        assert(d.take(0) =~= Seq::<(Seq<u8>, Value)>::empty());
    } else {
        let t = d.take(k);
        assert(t.drop_last() =~= d.take(k - 1));
        assert(t.last() == d[k - 1]);
        lemma_nodes_read(v, d, k - 1);
        assert(valid(d[k - 1].1));
        assert(decreases_to!(v => d));
        assert(decreases_to!(d => d[k - 1]));
        assert(decreases_to!(d[k - 1] => d[k - 1].1));
        if d[k - 1].0.len() == 0 {
            law_leaf_is_read(d[k - 1].1);
        } else {
            law_tree_is_read(d[k - 1].1);
        }
        if nodes_of(t) is Ok {
            let tree = nodes_of(t)->Ok_0;
            let before = nodes_of(d.take(k - 1))->Ok_0;
            assert forall|i: int| 0 <= i < k implies d[i].0 == (#[trigger] tree[i]).0 && says_node(
                d[i].0,
                d[i].1,
                tree[i].1,
            ) by {
                if i < k - 1 {
                    assert(tree[i] == before[i]);
                }
            }
        }
    }
}

/// In a dictionary a field is what stands under its name.
pub proof fn law_field_is_the_entry(d: Entries, name: &str, v: Value)
    requires
        valid(Value::Dict(d)),
    ensures
        field(d, name) == Some(v) <==> d.contains((encode_utf8(name@), v)),
{
    let k = encode_utf8(name@);
    lemma_found(d, k);
    if d.contains((k, v)) {
        let i = choose|i: int| 0 <= i < d.len() && d[i] == (k, v);
        lemma_entry_at(d, i);
    }
}

/// The name of a parsed `info` dictionary.
pub open spec fn parsed_name(p: ParsedModel) -> Seq<char> {
    match p {
        ParsedModel::V1(info) => info.name,
        ParsedModel::V2(info) => info.name,
        ParsedModel::Hybrid(info) => info.name,
    }
}

/// The piece length of a parsed `info` dictionary.
pub open spec fn parsed_piece_length(p: ParsedModel) -> u64 {
    match p {
        ParsedModel::V1(info) => info.piece_length,
        ParsedModel::V2(info) => info.piece_length,
        ParsedModel::Hybrid(info) => info.piece_length,
    }
}

/// The `private` field of a parsed `info` dictionary.
pub open spec fn parsed_private(p: ParsedModel) -> bool {
    match p {
        ParsedModel::V1(info) => info.private,
        ParsedModel::V2(info) => info.private,
        ParsedModel::Hybrid(info) => info.private,
    }
}

/// The `source` field of a parsed `info` dictionary.
pub open spec fn parsed_source(p: ParsedModel) -> Option<Seq<char>> {
    match p {
        ParsedModel::V1(info) => info.source,
        ParsedModel::V2(info) => info.source,
        ParsedModel::Hybrid(info) => info.source,
    }
}

/// The v1 fields of a parsed `info` dictionary.
pub open spec fn parsed_v1(p: ParsedModel) -> Option<V1Model> {
    match p {
        ParsedModel::V1(info) => Some(info.kind),
        ParsedModel::V2(_) => None,
        ParsedModel::Hybrid(info) => Some(info.kind.v1),
    }
}

/// The v2 fields of a parsed `info` dictionary.
pub open spec fn parsed_v2(p: ParsedModel) -> Option<V2Model> {
    match p {
        ParsedModel::V1(_) => None,
        ParsedModel::V2(info) => Some(info.kind),
        ParsedModel::Hybrid(info) => Some(info.kind.v2),
    }
}

/// What v1 fields stand in a dictionary.
pub open spec fn says_v1(d: Entries, v1: V1Model) -> bool {
    &&& field(d, "pieces") == Some(Value::Bytes(flat(v1.pieces)))
    &&& forall|i: int| 0 <= i < v1.pieces.len() ==> (#[trigger] v1.pieces[i]).len() == 20
    &&& match v1.file_mode {
        FileModeModel::Single { length, md5sum } => {
            &&& field(d, "length") == Some(Value::Int(length as int))
            &&& says_text(field(d, "md5sum"), md5sum)
            &&& field(d, "files") is None
        },
        FileModeModel::Multi { files } => {
            &&& field(d, "length") is None
            &&& field(d, "md5sum") is None
            &&& field(d, "files") matches Some(Value::List(items))
            &&& items.len() == files.len()
            &&& forall|i: int| 0 <= i < items.len() ==> says_file(#[trigger] items[i], files[i])
        },
    }
}

/// No v1 fields stand in a dictionary.
pub open spec fn lacks_v1(d: Entries) -> bool {
    field(d, "pieces") is None && field(d, "length") is None && field(d, "md5sum") is None
        && field(d, "files") is None
}

/// V1 fields that are accepted.
pub open spec fn good_v1(d: Entries) -> bool {
    &&& field(d, "pieces") matches Some(Value::Bytes(s))
    &&& s.len() % 20 == 0
    &&& if field(d, "files") is Some {
        &&& field(d, "length") is None
        &&& field(d, "md5sum") is None
        &&& field(d, "files") matches Some(Value::List(items))
        &&& forall|i: int| 0 <= i < items.len() ==> good_file(#[trigger] items[i])
    } else {
        &&& field(d, "length") matches Some(Value::Int(n))
        &&& n >= 0
        &&& may_be_text(field(d, "md5sum"))
    }
}

/// Files are read one by one.
proof fn lemma_files_say(items: Seq<Value>)
    requires
        forall|i: int| 0 <= i < items.len() ==> valid(#[trigger] items[i]),
    ensures
        files_of(items) is Ok <==> forall|i: int|
            0 <= i < items.len() ==> good_file(#[trigger] items[i]),
        files_of(items) matches Ok(files) ==> files.len() == items.len() && forall|i: int|
            0 <= i < items.len() ==> says_file(#[trigger] items[i], files[i]),
{
    let f = |v: Value| file_info_of(v);
    if files_of(items) is Ok {
        lemma_each_ok(items, f);
        assert forall|i: int| 0 <= i < items.len() implies says_file(
            #[trigger] items[i],
            files_of(items)->Ok_0[i],
        ) && good_file(items[i]) by {
            assert(f(items[i]) == Ok::<FileInfoModel, Rejection>(files_of(items)->Ok_0[i]));
            assert(valid(items[i]));
            law_file_is_read(items[i]);
        }
    }
    if forall|i: int| 0 <= i < items.len() ==> good_file(#[trigger] items[i]) {
        let files = Seq::new(items.len(), |i: int| file_info_of(items[i])->Ok_0);
        assert forall|i: int| 0 <= i < items.len() implies #[trigger] f(items[i]) == Ok::<
            FileInfoModel,
            Rejection,
        >(files[i]) by {
            assert(good_file(items[i]) && valid(items[i]));
            law_file_is_read(items[i]);
        }
        lemma_all_ok(items, files, f);
    }
}

/// Which v1 fields are accepted, and what is read from them.
pub proof fn law_v1_is_read(d: Entries)
    requires
        valid(Value::Dict(d)),
    ensures
        v1_of(d) is Ok <==> good_v1(d) || lacks_v1(d),
        v1_of(d) matches Ok(Some(v1)) ==> says_v1(d, v1),
        v1_of(d) matches Ok(None) ==> lacks_v1(d),
{
    lemma_field(d, "length");
    lemma_field(d, "files");
    if let Some(m) = field(d, "md5sum") {
        lemma_text_says(m);
    }
    if let Some(Value::List(items)) = field(d, "files") {
        lemma_files_say(items);
    }
    if let Some(Value::Bytes(s)) = field(d, "pieces") {
        if s.len() % 20 == 0 {
            lemma_flat_cut(s, 20);
        }
    }
}

/// Which v2 fields are accepted, and what is read from them.
pub proof fn law_v2_is_read(d: Entries)
    requires
        valid(Value::Dict(d)),
    ensures
        v2_of(d) is Ok <==> ({
            ||| field(d, "meta version") == Some(Value::Int(2)) && (field(d, "file tree") matches Some(
                tree,
            ) && good_tree(tree))
            ||| field(d, "meta version") is None && field(d, "file tree") is None
        }),
        v2_of(d) matches Ok(Some(v2)) ==> {
            &&& field(d, "meta version") == Some(Value::Int(2))
            &&& field(d, "file tree") matches Some(tree)
            &&& says_tree(tree, v2.file_tree)
        },
        v2_of(d) matches Ok(None) ==> field(d, "meta version") is None && field(
            d,
            "file tree",
        ) is None,
{
    lemma_field(d, "file tree");
    if let Some(tree) = field(d, "file tree") {
        law_tree_is_read(tree);
    }
}

/// What an `info` dictionary that is read says: every field is what stands under its name. The
/// torrent is private exactly if the `private` field is 1.
pub open spec fn says_info(d: Entries, p: ParsedModel) -> bool {
    &&& field(d, "name") == Some(Value::Bytes(encode_utf8(parsed_name(p))))
    &&& field(d, "piece length") == Some(Value::Int(parsed_piece_length(p) as int))
    &&& parsed_private(p) <==> field(d, "private") == Some(Value::Int(1))
    &&& says_text(field(d, "source"), parsed_source(p))
    &&& match parsed_v1(p) {
        Some(v1) => says_v1(d, v1),
        None => lacks_v1(d),
    }
    &&& match parsed_v2(p) {
        Some(v2) => field(d, "file tree") matches Some(tree) && says_tree(tree, v2.file_tree),
        None => field(d, "file tree") is None,
    }
}

/// An `info` dictionary that is accepted.
pub open spec fn good_info(d: Entries) -> bool {
    &&& field(d, "name") matches Some(name)
    &&& is_text(name)
    &&& field(d, "piece length") matches Some(Value::Int(n))
    &&& n > 0
    &&& field(d, "private") matches Some(p) ==> p == Value::Int(0) || p == Value::Int(1)
    &&& may_be_text(field(d, "source"))
    &&& good_v1(d) || lacks_v1(d)
    &&& match field(d, "file tree") {
        Some(tree) => {
            &&& good_tree(tree)
            &&& field(d, "meta version") == Some(Value::Int(2))
            &&& n >= 16384
            &&& is_power_of_two(n as nat)
        },
        None => field(d, "meta version") is None && !lacks_v1(d),
    }
}

/// Which `info` dictionaries are accepted, and what is read from them.
pub proof fn law_info_is_read(d: Entries)
    requires
        valid(Value::Dict(d)),
    ensures
        info_of(Value::Dict(d)) is Ok <==> good_info(d),
        info_of(Value::Dict(d)) matches Ok(p) ==> says_info(d, p),
{
    lemma_field(d, "piece length");
    lemma_field(d, "private");
    if let Some(v) = field(d, "name") {
        lemma_text_says(v);
    }
    if let Some(v) = field(d, "source") {
        lemma_text_says(v);
    }
    law_v1_is_read(d);
    law_v2_is_read(d);
}

/// A value says what a URL is: it is the normal form of the text.
pub open spec fn says_url(v: Value, url: Seq<char>) -> bool {
    v matches Value::Bytes(s) && valid_utf8(s) && url_text(decode_utf8(s)) == Some(url)
}

/// A list says what some URLs are, one by one.
pub open spec fn says_urls(v: Value, urls: Seq<Seq<char>>) -> bool {
    &&& v matches Value::List(items)
    &&& items.len() == urls.len()
    &&& forall|i: int| 0 <= i < items.len() ==> says_url(#[trigger] items[i], urls[i])
}

/// A value is a URL.
pub open spec fn good_url(v: Value) -> bool {
    v matches Value::Bytes(s) && valid_utf8(s) && url_text(decode_utf8(s)) is Some
}

/// A value is a list of URLs.
pub open spec fn good_urls(v: Value) -> bool {
    v matches Value::List(items) && forall|i: int|
        0 <= i < items.len() ==> good_url(#[trigger] items[i])
}

/// URLs are read one by one.
proof fn lemma_urls_say(v: Value)
    ensures
        url_list_of(v) is Ok <==> good_urls(v),
        url_list_of(v) matches Ok(urls) ==> says_urls(v, urls),
{
    if let Value::List(items) = v {
        let f = |v: Value| url_of(v);
        if urls_of(items) is Ok {
            lemma_each_ok(items, f);
            assert forall|i: int| 0 <= i < items.len() implies says_url(
                #[trigger] items[i],
                urls_of(items)->Ok_0[i],
            ) && good_url(items[i]) by {
                assert(f(items[i]) == Ok::<Seq<char>, Rejection>(urls_of(items)->Ok_0[i]));
            }
        }
        if good_urls(v) {
            let urls = Seq::new(items.len(), |i: int| url_of(items[i])->Ok_0);
            assert forall|i: int| 0 <= i < items.len() implies #[trigger] f(items[i]) == Ok::<
                Seq<char>,
                Rejection,
            >(urls[i]) by {
                assert(good_url(items[i]));
            }
            lemma_all_ok(items, urls, f);
        }
    }
}

/// Tiers are read one by one.
proof fn lemma_tiers_say(items: Seq<Value>)
    ensures
        tiers_of(items) is Ok <==> forall|i: int|
            0 <= i < items.len() ==> good_urls(#[trigger] items[i]),
        tiers_of(items) matches Ok(tiers) ==> tiers.len() == items.len() && forall|i: int|
            0 <= i < items.len() ==> says_urls(#[trigger] items[i], tiers[i]),
{
    let f = |v: Value| url_list_of(v);
    if tiers_of(items) is Ok {
        lemma_each_ok(items, f);
        assert forall|i: int| 0 <= i < items.len() implies says_urls(
            #[trigger] items[i],
            tiers_of(items)->Ok_0[i],
        ) && good_urls(items[i]) by {
            assert(f(items[i]) == Ok::<Seq<Seq<char>>, Rejection>(tiers_of(items)->Ok_0[i]));
            lemma_urls_say(items[i]);
        }
    }
    if forall|i: int| 0 <= i < items.len() ==> good_urls(#[trigger] items[i]) {
        let tiers = Seq::new(items.len(), |i: int| url_list_of(items[i])->Ok_0);
        assert forall|i: int| 0 <= i < items.len() implies #[trigger] f(items[i]) == Ok::<
            Seq<Seq<char>>,
            Rejection,
        >(tiers[i]) by {
            assert(good_urls(items[i]));
            lemma_urls_say(items[i]);
        }
        lemma_all_ok(items, tiers, f);
    }
}

/// What the trackers of a torrent are: those of the `announce-list`, tier by tier. Without one
/// there is a single tier with the tracker of `announce`, or none at all.
pub open spec fn says_trackers(d: Entries, tiers: Option<Seq<Seq<Seq<char>>>>) -> bool {
    match field(d, "announce-list") {
        Some(v) => {
            &&& v matches Value::List(items)
            &&& tiers matches Some(tiers)
            &&& tiers.len() == items.len()
            &&& forall|i: int| 0 <= i < items.len() ==> says_urls(#[trigger] items[i], tiers[i])
        },
        None => match field(d, "announce") {
            Some(v) => {
                &&& tiers matches Some(tiers)
                &&& tiers.len() == 1
                &&& tiers[0].len() == 1
                &&& says_url(v, tiers[0][0])
            },
            None => tiers is None,
        },
    }
}

/// Trackers that are accepted. The `announce` field does not matter beside an `announce-list`.
pub open spec fn good_trackers(d: Entries) -> bool {
    match field(d, "announce-list") {
        Some(v) => v matches Value::List(items) && forall|i: int|
            0 <= i < items.len() ==> good_urls(#[trigger] items[i]),
        None => field(d, "announce") matches Some(v) ==> good_url(v),
    }
}

/// Which trackers are accepted, and what is read from them.
pub proof fn law_trackers_are_read(d: Entries)
    ensures
        trackers_of(d) is Ok <==> good_trackers(d),
        trackers_of(d) matches Ok(tiers) ==> says_trackers(d, tiers),
{
    if let Some(Value::List(items)) = field(d, "announce-list") {
        lemma_tiers_say(items);
    }
}

/// Piece layers say what stands in a dictionary: the same layers under the same roots.
pub open spec fn says_layers(v: Value, layers: LayersModel) -> bool {
    &&& v matches Value::Dict(d)
    &&& d.len() == layers.len()
    &&& forall|i: int|
        0 <= i < d.len() ==> #[trigger] d[i] == (layers[i].0, Value::Bytes(layers[i].1))
}

/// Piece layers that are accepted.
pub open spec fn good_layers(v: Value) -> bool {
    v matches Value::Dict(d) && forall|i: int|
        0 <= i < d.len() ==> (#[trigger] d[i]).0.len() == 32 && d[i].1 is Bytes
}

/// Piece layers are read one by one.
pub proof fn lemma_layers_say(d: Entries)
    ensures
        layers_of(d) is Ok <==> good_layers(Value::Dict(d)),
        layers_of(d) matches Ok(layers) ==> says_layers(Value::Dict(d), layers),
{
    let f = |e: (Seq<u8>, Value)| layer_of(e);
    if layers_of(d) is Ok {
        lemma_each_ok(d, f);
        assert forall|i: int| 0 <= i < d.len() implies #[trigger] d[i] == (
            layers_of(d)->Ok_0[i].0,
            Value::Bytes(layers_of(d)->Ok_0[i].1),
        ) && d[i].0.len() == 32 by {
            assert(f(d[i]) == Ok::<(Seq<u8>, Seq<u8>), Rejection>(layers_of(d)->Ok_0[i]));
        }
    }
    if good_layers(Value::Dict(d)) {
        let layers = Seq::new(d.len(), |i: int| layer_of(d[i])->Ok_0);
        assert forall|i: int| 0 <= i < d.len() implies #[trigger] f(d[i]) == Ok::<
            (Seq<u8>, Seq<u8>),
            Rejection,
        >(layers[i]) by {
            assert(d[i].0.len() == 32 && d[i].1 is Bytes);
        }
        lemma_all_ok(d, layers, f);
    }
}

/// The `info` dictionary that the metainfo of a torrent has been read from.
pub open spec fn parsed_of(meta: MetaModel) -> ParsedModel {
    match meta {
        MetaModel::V1 { info } => ParsedModel::V1(info),
        MetaModel::V2 { info, .. } => ParsedModel::V2(info),
        MetaModel::Hybrid { info, .. } => ParsedModel::Hybrid(info),
    }
}

/// What a torrent that is read says: every field is what stands under its name.
pub open spec fn says_torrent(d: Entries, t: TorrentModel) -> bool {
    &&& field(d, "info") matches Some(Value::Dict(i))
    &&& says_info(i, parsed_of(t.meta))
    &&& match t.meta {
        MetaModel::V1 { .. } => field(d, "piece layers") is None,
        MetaModel::V2 { piece_layers, .. } => field(d, "piece layers") matches Some(v)
            && says_layers(v, piece_layers),
        MetaModel::Hybrid { piece_layers, .. } => field(d, "piece layers") matches Some(v)
            && says_layers(v, piece_layers),
    }
    &&& says_trackers(d, t.tracker_tiers)
    &&& match t.web_seeds {
        Some(urls) => field(d, "url-list") matches Some(v) && says_urls(v, urls),
        None => field(d, "url-list") is None,
    }
    &&& match t.creation_date {
        Some(n) => field(d, "creation date") == Some(Value::Int(n as int)),
        None => field(d, "creation date") is None,
    }
    &&& says_text(field(d, "comment"), t.comment)
    &&& says_text(field(d, "created by"), t.created_by)
    &&& says_text(field(d, "encoding"), t.encoding)
}

/// A torrent that is accepted, but for the agreement of the v1 and v2 fields of a hybrid one.
pub open spec fn good_torrent(d: Entries) -> bool {
    &&& field(d, "info") matches Some(Value::Dict(i))
    &&& good_info(i)
    &&& match field(d, "piece layers") {
        Some(v) => good_layers(v) && field(i, "file tree") is Some,
        None => field(i, "file tree") is None,
    }
    &&& good_trackers(d)
    &&& field(d, "url-list") matches Some(v) ==> good_urls(v)
    &&& field(d, "creation date") matches Some(v) ==> (v matches Value::Int(n) && n >= 0)
    &&& may_be_text(field(d, "comment"))
    &&& may_be_text(field(d, "created by"))
    &&& may_be_text(field(d, "encoding"))
}

/// Which torrents are accepted, and what is read from them. A torrent in which everything is fine
/// can only be rejected because its v1 and v2 fields list different files.
#[verifier::rlimit(40)]
pub proof fn law_torrent_is_read(d: Entries)
    requires
        valid(Value::Dict(d)),
    ensures
        torrent_of(Value::Dict(d)) matches Ok(t) ==> good_torrent(d) && says_torrent(d, t)
            && !mismatch(t.meta),
        good_torrent(d) ==> torrent_of(Value::Dict(d)) is Ok || torrent_of(Value::Dict(d)) == Err::<
            TorrentModel,
            Rejection,
        >(Rejection::HybridMismatch),
{
    lemma_field(d, "info");
    lemma_field(d, "creation date");
    if let Some(Value::Dict(i)) = field(d, "info") {
        law_info_is_read(i);
    }
    if let Some(Value::Dict(layers)) = field(d, "piece layers") {
        lemma_layers_say(layers);
    }
    law_trackers_are_read(d);
    if let Some(v) = field(d, "url-list") {
        lemma_urls_say(v);
    }
    if let Some(v) = field(d, "comment") {
        lemma_text_says(v);
    }
    if let Some(v) = field(d, "created by") {
        lemma_text_says(v);
    }
    if let Some(v) = field(d, "encoding") {
        lemma_text_says(v);
    }
}

} // verus!
