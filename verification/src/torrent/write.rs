//! Writing a torrent.
use std::borrow::Cow;

use vstd::prelude::*;
use vstd::utf8::encode_utf8;

use crate::bencode::element::{
    entries_of, lemma_dict_value, lemma_list_value, values_of, Bencode,
};
use crate::bencode::model::{valid, Value};
use crate::chunks::{arrays, as_flattened, flat};
use crate::lex::{lemma_lex_transitive, lex_lt};
use crate::num::NonZeroU64;
use crate::sorted_map::{lemma_with_entry_last, rises, ByteKey, SortedMap};
use crate::sorting::views;
use crate::torrent::attr::attr_letters;
use crate::torrent::fields::{lemma_entries_rise, Entries};
use crate::torrent::keys::{key, lemma_file_keys, lemma_info_keys, lemma_torrent_keys};
use crate::torrent::model::{
    FileInfoModel, FileModeModel, HybridModel, InfoModel, LayersModel, LeafModel, MetaModel,
    NodeModel, TorrentModel, TreeModel, V1Model, V2Model,
};
use crate::torrent::types::{
    lemma_directory, lemma_node_smaller, opt_text, texts, FileInfo, FileLeaf, FileMode, FileTree,
    FileTreeNode, Info, InfoHybrid, InfoV1, InfoV2, PieceLayers, Torrent, TorrentMeta, TrackerTier,
};
use crate::web::Url;

verus! {

/// A field.
pub open spec fn one(name: &str, v: Value) -> Entries {
    seq![(key(name), v)]
}

/// A field that is written only if it is there.
pub open spec fn maybe(name: &str, v: Option<Value>) -> Entries {
    match v {
        Some(v) => one(name, v),
        None => Seq::empty(),
    }
}

/// A text.
pub open spec fn text_value(s: Seq<char>) -> Value {
    Value::Bytes(encode_utf8(s))
}

/// An optional text.
pub open spec fn opt_text_value(s: Option<Seq<char>>) -> Option<Value> {
    match s {
        Some(s) => Some(text_value(s)),
        None => None,
    }
}

/// Some texts.
pub open spec fn texts_value(s: Seq<Seq<char>>) -> Value {
    Value::List(Seq::new(s.len(), |i: int| text_value(s[i])))
}

/// A length as a signed integer. Lengths beyond the largest one wrap around.
pub open spec fn length_value(n: u64) -> Value {
    Value::Int(
        if n <= i64::MAX {
            n as int
        } else {
            n - 0x1_0000_0000_0000_0000
        },
    )
}

/// A date as a signed integer, or zero if it does not fit.
pub open spec fn date_value(n: u64) -> Value {
    Value::Int(
        if n <= i64::MAX {
            n as int
        } else {
            0
        },
    )
}

/// A file leaf.
pub open spec fn leaf_value(leaf: LeafModel) -> Value {
    Value::Dict(
        one("length", length_value(leaf.length)) + maybe(
            "pieces root",
            match leaf.pieces_root {
                Some(root) => Some(Value::Bytes(root)),
                None => None,
            },
        ),
    )
}

/// A node under the given name. A file is its leaf under an empty name, which is written out where
/// the file has another one.
pub open spec fn node_value(name: Seq<u8>, node: NodeModel) -> Value
    decreases node,
{
    match node {
        NodeModel::Directory(tree) => Value::Dict(tree_entries(tree)),
        NodeModel::File(leaf) => if name.len() == 0 {
            leaf_value(leaf)
        } else {
            named_leaf_value(leaf)
        },
    }
}

/// A file with a name.
pub open spec fn named_leaf_value(leaf: LeafModel) -> Value {
    Value::Dict(seq![(Seq::<u8>::empty(), leaf_value(leaf))])
}

/// The entries of a file tree.
pub open spec fn tree_entries(tree: TreeModel) -> Entries
    decreases tree,
{
    Seq::new(
        tree.len(),
        |i: int|
            if 0 <= i < tree.len() {
                (tree[i].0, node_value(tree[i].0, tree[i].1))
            } else {
                arbitrary()
            },
    )
}

/// A file information dictionary.
pub open spec fn file_info_value(f: FileInfoModel) -> Value {
    Value::Dict(
        maybe(
            "attr",
            match f.attr {
                Some(flags) => Some(Value::Bytes(attr_letters(flags))),
                None => None,
            },
        ) + one("length", length_value(f.length)) + maybe("md5sum", opt_text_value(f.md5sum)) + one(
            "path",
            texts_value(f.path),
        ),
    )
}

/// The piece layers.
pub open spec fn layers_value(layers: LayersModel) -> Value {
    Value::Dict(Seq::new(layers.len(), |i: int| (layers[i].0, Value::Bytes(layers[i].1))))
}

/// The fields of an `info` dictionary, each one if there is something to write.
pub open spec fn info_entries<K>(
    info: InfoModel<K>,
    v1: Option<V1Model>,
    v2: Option<V2Model>,
) -> Entries {
    maybe(
        "file tree",
        match v2 {
            Some(v2) => Some(Value::Dict(tree_entries(v2.file_tree))),
            None => None,
        },
    ) + maybe(
        "files",
        match v1 {
            Some(v1) => match v1.file_mode {
                FileModeModel::Multi { files } => Some(
                    Value::List(Seq::new(files.len(), |i: int| file_info_value(files[i]))),
                ),
                FileModeModel::Single { .. } => None,
            },
            None => None,
        },
    ) + maybe(
        "length",
        match v1 {
            Some(v1) => match v1.file_mode {
                FileModeModel::Single { length, .. } => Some(length_value(length)),
                FileModeModel::Multi { .. } => None,
            },
            None => None,
        },
    ) + maybe(
        "md5sum",
        match v1 {
            Some(v1) => match v1.file_mode {
                FileModeModel::Single { md5sum, .. } => opt_text_value(md5sum),
                FileModeModel::Multi { .. } => None,
            },
            None => None,
        },
    ) + maybe(
        "meta version",
        match v2 {
            Some(_) => Some(Value::Int(2)),
            None => None,
        },
    ) + one("name", text_value(info.name)) + one("piece length", length_value(info.piece_length))
        + maybe(
        "pieces",
        match v1 {
            Some(v1) => Some(Value::Bytes(flat(v1.pieces))),
            None => None,
        },
    ) + maybe(
        "private",
        if info.private {
            Some(Value::Int(1))
        } else {
            None
        },
    ) + maybe("source", opt_text_value(info.source))
}

/// The `info` dictionary of a v1-only torrent.
pub open spec fn info_v1_value(info: InfoModel<V1Model>) -> Value {
    Value::Dict(info_entries(info, Some(info.kind), None))
}

/// The `info` dictionary of a v2-only torrent.
pub open spec fn info_v2_value(info: InfoModel<V2Model>) -> Value {
    Value::Dict(info_entries(info, None, Some(info.kind)))
}

/// The `info` dictionary of a hybrid torrent.
pub open spec fn info_hybrid_value(info: InfoModel<HybridModel>) -> Value {
    Value::Dict(info_entries(info, Some(info.kind.v1), Some(info.kind.v2)))
}

/// The `info` dictionary of a torrent.
pub open spec fn info_value(meta: MetaModel) -> Value {
    match meta {
        MetaModel::V1 { info } => info_v1_value(info),
        MetaModel::V2 { info, .. } => info_v2_value(info),
        MetaModel::Hybrid { info, .. } => info_hybrid_value(info),
    }
}

/// The piece layers of a torrent, if it has any.
pub open spec fn meta_layers(meta: MetaModel) -> Option<LayersModel> {
    match meta {
        MetaModel::V1 { .. } => None,
        MetaModel::V2 { piece_layers, .. } => Some(piece_layers),
        MetaModel::Hybrid { piece_layers, .. } => Some(piece_layers),
    }
}

/// The first tracker of the first tier.
pub open spec fn first_tracker(tiers: Option<Seq<Seq<Seq<char>>>>) -> Option<Seq<char>> {
    match tiers {
        Some(tiers) => if tiers.len() > 0 && tiers[0].len() > 0 {
            Some(tiers[0][0])
        } else {
            None
        },
        None => None,
    }
}

/// The fields of a torrent, each one if there is something to write.
pub open spec fn torrent_entries(t: TorrentModel) -> Entries {
    maybe("announce", opt_text_value(first_tracker(t.tracker_tiers))) + maybe(
        "announce-list",
        match t.tracker_tiers {
            Some(tiers) => Some(Value::List(Seq::new(tiers.len(), |i: int| texts_value(tiers[i])))),
            None => None,
        },
    ) + maybe("comment", opt_text_value(t.comment)) + maybe(
        "created by",
        opt_text_value(t.created_by),
    ) + maybe(
        "creation date",
        match t.creation_date {
            Some(n) => Some(date_value(n)),
            None => None,
        },
    ) + maybe("encoding", opt_text_value(t.encoding)) + one("info", info_value(t.meta)) + maybe(
        "piece layers",
        match meta_layers(t.meta) {
            Some(layers) => Some(layers_value(layers)),
            None => None,
        },
    ) + maybe(
        "url-list",
        match t.web_seeds {
            Some(urls) => Some(texts_value(urls)),
            None => None,
        },
    )
}

/// A torrent.
pub open spec fn torrent_value(t: TorrentModel) -> Value {
    Value::Dict(torrent_entries(t))
}

/// No key lies behind `name`.
pub open spec fn keys_up_to(d: Entries, name: &str) -> bool {
    forall|i: int|
        0 <= i < d.len() ==> (#[trigger] d[i]).0 == key(name) || lex_lt(d[i].0, key(name))
}

/// All keys lie before `name`.
pub open spec fn keys_before(d: Entries, name: &str) -> bool {
    forall|i: int| 0 <= i < d.len() ==> lex_lt((#[trigger] d[i]).0, key(name))
}

/// Keys up to one name lie before the next.
pub proof fn lemma_next_key(d: Entries, name: &str, next: &str)
    requires
        keys_up_to(d, name),
        lex_lt(key(name), key(next)),
    ensures
        keys_before(d, next),
{
    assert forall|i: int| 0 <= i < d.len() implies lex_lt((#[trigger] d[i]).0, key(next)) by {
        if d[i].0 != key(name) {
            lemma_lex_transitive(d[i].0, key(name), key(next));
        }
    }
}

/// The dictionary that is written.
type Written<'b> = SortedMap<&'b [u8], Bencode<'b>>;

/// Writes a field behind all others.
fn put<'b>(map: &mut Written<'b>, name: &'static str, value: Bencode<'b>)
    requires
        keys_before(entries_of(old(map)@), name),
        valid(Value::Dict(entries_of(old(map)@))),
        valid(value@),
    ensures
        entries_of(final(map)@) == entries_of(old(map)@) + one(name, value@),
        keys_up_to(entries_of(final(map)@), name),
        valid(Value::Dict(entries_of(final(map)@))),
{
    let ghost before = map@;
    let name_bytes: &'b [u8] = name.as_bytes();
    map.insert(name_bytes, value);
    proof {
        assert(name_bytes@.len() == name_bytes.len());
        let e = entries_of(before);
        if before.len() > 0 {
            assert(e[e.len() - 1].0 == before[before.len() - 1].0);
        }
        lemma_with_entry_last(before, key(name), value);
        assert(entries_of(map@) =~= e + one(name, value@));
        assert forall|i: int| 0 <= i < entries_of(map@).len() implies (#[trigger] entries_of(
            map@,
        )[i]).0 == key(name) || lex_lt(entries_of(map@)[i].0, key(name)) by {
            if i < e.len() {
                assert(entries_of(map@)[i] == e[i]);
            }
        }
        lemma_entries_rise(map@);
    }
}

/// Writes a field behind all others, if there is something to write.
fn put_opt<'b>(map: &mut Written<'b>, name: &'static str, value: Option<Bencode<'b>>)
    requires
        keys_before(entries_of(old(map)@), name),
        valid(Value::Dict(entries_of(old(map)@))),
        opt_value(value) matches Some(v) ==> valid(v),
    ensures
        entries_of(final(map)@) == entries_of(old(map)@) + maybe(name, opt_value(value)),
        keys_up_to(entries_of(final(map)@), name),
        valid(Value::Dict(entries_of(final(map)@))),
{
    match value {
        Some(value) => put(map, name, value),
        None => {
            assert(entries_of(map@) =~= entries_of(map@) + Seq::<(Seq<u8>, Value)>::empty());
        },
    }
}

/// The value of an optional element.
pub open spec fn opt_value(b: Option<Bencode>) -> Option<Value> {
    match b {
        Some(b) => Some(b@),
        None => None,
    }
}

/// An empty dictionary.
fn start<'b>() -> (r: Written<'b>)
    ensures
        entries_of(r@) == Seq::<(Seq<u8>, Value)>::empty(),
        valid(Value::Dict(entries_of(r@))),
        forall|name: &str| keys_before(entries_of(r@), name),
{
    let r = SortedMap::new();
    assert(entries_of(r@) =~= Seq::<(Seq<u8>, Value)>::empty());
    r
}

/// A finished dictionary.
fn finish<'b>(map: Written<'b>) -> (r: Bencode<'b>)
    requires
        valid(Value::Dict(entries_of(map@))),
    ensures
        valid(r@),
        r@ == Value::Dict(entries_of(map@)),
{
    proof {
        lemma_dict_value(map);
    }
    Bencode::Dict(map)
}

/// A length as a signed integer.
fn length_element<'b>(n: u64) -> (r: Bencode<'b>)
    ensures
        valid(r@),
        r@ == length_value(n),
{
    if n <= 9223372036854775807 {
        Bencode::Int(n as i64)
    } else {
        Bencode::Int(-((18446744073709551615 - n) as i64) - 1)
    }
}

/// A date as a signed integer.
fn date_element<'b>(n: u64) -> (r: Bencode<'b>)
    ensures
        valid(r@),
        r@ == date_value(n),
{
    if n <= 9223372036854775807 {
        Bencode::Int(n as i64)
    } else {
        Bencode::Int(0)
    }
}

/// A text.
fn text_element<'b>(s: &'b Cow<'_, str>) -> (r: Bencode<'b>)
    ensures
        valid(r@),
        r@ == text_value(s@),
{
    let bytes: &'b [u8] = s.as_key();
    assert(bytes@.len() == bytes.len());
    Bencode::Bytes(bytes)
}

/// An optional text.
fn opt_text_element<'b>(s: &'b Option<Cow<'_, str>>) -> (r: Option<Bencode<'b>>)
    ensures
        opt_value(r) matches Some(v) ==> valid(v),
        opt_value(r) == opt_text_value(opt_text(*s)),
{
    match s {
        Some(s) => Some(text_element(s)),
        None => None,
    }
}

/// Some URLs.
fn urls_element<'b>(urls: &'b [Url]) -> (r: Bencode<'b>)
    ensures
        valid(r@),
        r@ == texts_value(views(urls@)),
{
    let mut list: Vec<Bencode<'b>> = Vec::with_capacity(urls.len());
    let mut i: usize = 0;
    while i < urls.len()
        invariant
            i <= urls@.len(),
            list@.len() == i,
            forall|k: int| 0 <= k < i ==> valid((#[trigger] list@[k])@) && list@[k]@ == text_value(urls@[k]@),
        decreases urls@.len() - i,
    {
        let bytes: &'b [u8] = urls[i].as_str().as_bytes();
        assert(bytes@.len() == bytes.len());
        list.push(Bencode::Bytes(bytes));
        i = i + 1;
    }
    proof {
        lemma_list_value(list);
        assert(values_of(list@) =~= texts_value(views(urls@))->List_0);
    }
    Bencode::List(list)
}

/// The components of a path.
fn texts_element<'b>(s: &'b [Cow<'_, str>]) -> (r: Bencode<'b>)
    ensures
        valid(r@),
        r@ == texts_value(texts(s@)),
{
    let mut list: Vec<Bencode<'b>> = Vec::with_capacity(s.len());
    let mut i: usize = 0;
    while i < s.len()
        invariant
            i <= s@.len(),
            list@.len() == i,
            forall|k: int| 0 <= k < i ==> valid((#[trigger] list@[k])@) && list@[k]@ == text_value(s@[k]@),
        decreases s@.len() - i,
    {
        list.push(text_element(&s[i]));
        i = i + 1;
    }
    proof {
        lemma_list_value(list);
        assert(values_of(list@) =~= texts_value(texts(s@))->List_0);
    }
    Bencode::List(list)
}

/// Some tiers.
fn tiers_element<'b>(tiers: &'b [TrackerTier]) -> (r: Bencode<'b>)
    ensures
        valid(r@),
        r@ == Value::List(Seq::new(views(tiers@).len(), |i: int| texts_value(views(tiers@)[i]))),
{
    let mut list: Vec<Bencode<'b>> = Vec::with_capacity(tiers.len());
    let mut i: usize = 0;
    while i < tiers.len()
        invariant
            i <= tiers@.len(),
            list@.len() == i,
            forall|k: int| 0 <= k < i ==> valid((#[trigger] list@[k])@) && list@[k]@ == texts_value(tiers@[k]@),
        decreases tiers@.len() - i,
    {
        list.push(urls_element(&tiers[i].0));
        i = i + 1;
    }
    proof {
        lemma_list_value(list);
        assert(values_of(list@) =~= Seq::new(
            views(tiers@).len(),
            |i: int| texts_value(views(tiers@)[i]),
        ));
    }
    Bencode::List(list)
}

impl<'a> FileLeaf<'a> {
    /// This leaf as an element.
    pub fn to_bencode<'b>(&'b self) -> (r: Bencode<'b>)
        ensures
            valid(r@),
            r@ == leaf_value(self@),
    {
        let mut map = start();
        put(&mut map, "length", length_element(self.length));
        proof {
            lemma_file_keys();
            lemma_next_key(entries_of(map@), "length", "pieces root");
        }
        let root: Option<Bencode<'b>> = match &self.pieces_root {
            Some(Cow::Borrowed(root)) => Some(Bencode::Bytes(root.as_slice())),
            Some(Cow::Owned(root)) => Some(Bencode::Bytes(root.as_slice())),
            None => None,
        };
        put_opt(&mut map, "pieces root", root);
        assert(entries_of(map@) =~= leaf_value(self@)->Dict_0);
        finish(map)
    }
}

impl<'a> FileTree<'a> {
    /// This tree as an element.
    pub fn to_bencode<'b>(&'b self) -> (r: Bencode<'b>)
        ensures
            valid(r@),
            r@ == Value::Dict(tree_entries(self@)),
        decreases self,
    {
        let mut map: Written<'b> = SortedMap::new();
        let mut i: usize = 0;
        let n: usize = self.0.len();
        while i < n
            invariant
                i <= n,
                n == self.0@.len(),
                rises(self.0@),
                rises(map@),
                map@.len() == i,
                forall|k: int|
                    0 <= k < i ==> valid((#[trigger] map@[k]).1@) && map@[k].0.len() <= usize::MAX
                        && map@[k].0 == self@[k].0 && map@[k].1@ == node_value(self@[k].0, self@[k].1),
            decreases n - i,
        {
            let ghost before = map@;
            let name: &'b [u8] = self.0.key_at(i).as_key();
            assert(name@.len() == name.len());
            let node: &'b FileTreeNode<'a> = self.0.value_at(i);
            proof {
                lemma_node_smaller(*self, i as int);
                reveal_with_fuel(node_value, 2);
            }
            let value: Bencode<'b> = match node {
                FileTreeNode::Directory(tree) => {
                    proof {
                        lemma_directory(*tree);
                    }
                    tree.to_bencode()
                },
                FileTreeNode::File(leaf) => if name.len() == 0 {
                    leaf.to_bencode()
                } else {
                    named_leaf(leaf)
                },
            };
            map.insert(name, value);
            proof {
                lemma_with_entry_last(before, name@, value);
            }
            i = i + 1;
        }
        assert(entries_of(map@) =~= tree_entries(self@));
        proof {
            lemma_entries_rise(map@);
        }
        finish(map)
    }
}

/// A file with a name: its leaf under an empty key.
fn named_leaf<'b>(leaf: &'b FileLeaf<'_>) -> (r: Bencode<'b>)
    ensures
        valid(r@),
        r@ == named_leaf_value(leaf@),
{
    let mut map: Written<'b> = SortedMap::new();
    let ghost before = map@;
    let value: Bencode<'b> = leaf.to_bencode();
    let empty: &'b [u8] = "".as_bytes();
    map.insert(empty, value);
    proof {
        reveal_strlit("");
        assert(""@ =~= Seq::<char>::empty());
        assert(empty@ =~= Seq::<u8>::empty());
        lemma_with_entry_last(before, empty@, value);
        lemma_entries_rise(map@);
        assert(entries_of(map@) =~= seq![(Seq::<u8>::empty(), leaf_value(leaf@))]);
    }
    finish(map)
}

impl<'a> FileTreeNode<'a> {
    /// This node as an element, as it is written under a name.
    pub fn to_bencode<'b>(&'b self) -> (r: Bencode<'b>)
        ensures
            valid(r@),
            r@ == match self@ {
                NodeModel::Directory(tree) => Value::Dict(tree_entries(tree)),
                NodeModel::File(leaf) => named_leaf_value(leaf),
            },
    {
        match self {
            FileTreeNode::Directory(tree) => {
                proof {
                    lemma_directory(*tree);
                }
                tree.to_bencode()
            },
            FileTreeNode::File(leaf) => named_leaf(leaf),
        }
    }
}

impl<'a> FileInfo<'a> {
    /// This file information dictionary as an element.
    pub fn to_bencode<'b>(&'b self) -> (r: Bencode<'b>)
        ensures
            valid(r@),
            r@ == file_info_value(self@),
    {
        proof {
            lemma_file_keys();
        }
        let mut map = start();
        let attr: Option<Bencode<'b>> = match &self.attr {
            Some(attr) => {
                let letters: &'b [u8] = attr.as_bytes();
                assert(letters@.len() == letters.len());
                Some(Bencode::Bytes(letters))
            },
            None => None,
        };
        put_opt(&mut map, "attr", attr);
        proof {
            lemma_next_key(entries_of(map@), "attr", "length");
        }
        put(&mut map, "length", length_element(self.length));
        proof {
            lemma_next_key(entries_of(map@), "length", "md5sum");
        }
        put_opt(&mut map, "md5sum", opt_text_element(&self.md5sum));
        proof {
            lemma_next_key(entries_of(map@), "md5sum", "path");
        }
        put(&mut map, "path", texts_element(&self.path));
        assert(entries_of(map@) =~= file_info_value(self@)->Dict_0);
        finish(map)
    }
}

/// Some file information dictionaries.
fn files_element<'b>(files: &'b [FileInfo<'_>]) -> (r: Bencode<'b>)
    ensures
        valid(r@),
        r@ == Value::List(
            Seq::new(views(files@).len(), |i: int| file_info_value(views(files@)[i])),
        ),
{
    let mut list: Vec<Bencode<'b>> = Vec::with_capacity(files.len());
    let mut i: usize = 0;
    while i < files.len()
        invariant
            i <= files@.len(),
            list@.len() == i,
            forall|k: int| 0 <= k < i ==> valid((#[trigger] list@[k])@) && list@[k]@ == file_info_value(files@[k]@),
        decreases files@.len() - i,
    {
        list.push(files[i].to_bencode());
        i = i + 1;
    }
    proof {
        lemma_list_value(list);
        assert(values_of(list@) =~= Seq::new(
            views(files@).len(),
            |i: int| file_info_value(views(files@)[i]),
        ));
    }
    Bencode::List(list)
}

/// The piece hashes, one behind the other.
fn pieces_element<'b>(pieces: &'b Cow<'_, [[u8; 20]]>) -> (r: Bencode<'b>)
    ensures
        valid(r@),
        r@ == Value::Bytes(flat(arrays(pieces@))),
{
    let bytes: &'b [u8] = match pieces {
        Cow::Borrowed(s) => as_flattened(s),
        Cow::Owned(s) => as_flattened(s.as_slice()),
    };
    assert(bytes@.len() == bytes.len());
    Bencode::Bytes(bytes)
}

/// The model of optional v1 fields.
pub open spec fn opt_v1(v1: Option<&InfoV1>) -> Option<V1Model> {
    match v1 {
        Some(v1) => Some(v1@),
        None => None,
    }
}

/// The model of optional v2 fields.
pub open spec fn opt_v2(v2: Option<&InfoV2>) -> Option<V2Model> {
    match v2 {
        Some(v2) => Some(v2@),
        None => None,
    }
}

/// An `info` dictionary with the given common and version-specific fields.
fn info_element<'b>(
    name: &'b Cow<'_, str>,
    piece_length: NonZeroU64,
    private: bool,
    source: &'b Option<Cow<'_, str>>,
    v1: Option<&'b InfoV1<'_>>,
    v2: Option<&'b InfoV2<'_>>,
) -> (r: Bencode<'b>)
    ensures
        valid(r@),
        r@ == Value::Dict(
            info_entries(
                InfoModel {
                    name: name@,
                    piece_length: piece_length@,
                    private,
                    source: opt_text(*source),
                    kind: (),
                },
                opt_v1(v1),
                opt_v2(v2),
            ),
        ),
{
    proof {
        lemma_info_keys();
    }
    let ghost info = InfoModel {
        name: name@,
        piece_length: piece_length@,
        private,
        source: opt_text(*source),
        kind: (),
    };
    let tree: Option<Bencode<'b>> = match v2 {
        Some(v2) => Some(v2.file_tree.to_bencode()),
        None => None,
    };
    let version: Option<Bencode<'b>> = match v2 {
        Some(_) => Some(Bencode::Int(2)),
        None => None,
    };
    let (files, length, md5sum): (
        Option<Bencode<'b>>,
        Option<Bencode<'b>>,
        Option<Bencode<'b>>,
    ) = match v1 {
        Some(v1) => match &v1.file_mode {
            FileMode::Single { length, md5sum } => (
                None,
                Some(length_element(*length)),
                opt_text_element(md5sum),
            ),
            FileMode::Multi { files } => (Some(files_element(files)), None, None),
        },
        None => (None, None, None),
    };
    let pieces: Option<Bencode<'b>> = match v1 {
        Some(v1) => Some(pieces_element(&v1.pieces)),
        None => None,
    };
    let mut map = start();
    put_opt(&mut map, "file tree", tree);
    proof {
        lemma_next_key(entries_of(map@), "file tree", "files");
    }
    put_opt(&mut map, "files", files);
    proof {
        lemma_next_key(entries_of(map@), "files", "length");
    }
    put_opt(&mut map, "length", length);
    proof {
        lemma_next_key(entries_of(map@), "length", "md5sum");
    }
    put_opt(&mut map, "md5sum", md5sum);
    proof {
        lemma_next_key(entries_of(map@), "md5sum", "meta version");
    }
    put_opt(&mut map, "meta version", version);
    proof {
        lemma_next_key(entries_of(map@), "meta version", "name");
    }
    put(&mut map, "name", text_element(name));
    proof {
        lemma_next_key(entries_of(map@), "name", "piece length");
    }
    put(&mut map, "piece length", length_element(piece_length.get()));
    proof {
        lemma_next_key(entries_of(map@), "piece length", "pieces");
    }
    put_opt(&mut map, "pieces", pieces);
    proof {
        lemma_next_key(entries_of(map@), "pieces", "private");
    }
    put_opt(
        &mut map,
        "private",
        if private {
            Some(Bencode::Int(1))
        } else {
            None
        },
    );
    proof {
        lemma_next_key(entries_of(map@), "private", "source");
    }
    put_opt(&mut map, "source", opt_text_element(source));
    assert(entries_of(map@) =~= info_entries(info, opt_v1(v1), opt_v2(v2)));
    finish(map)
}

impl<'a> Info<'a, InfoV1<'a>> {
    /// This `info` dictionary as an element.
    pub fn to_bencode<'b>(&'b self) -> (r: Bencode<'b>)
        ensures
            valid(r@),
            r@ == info_v1_value(self@),
    {
        info_element(
            &self.name,
            self.piece_length,
            self.private,
            &self.source,
            Some(&self.kind),
            None,
        )
    }
}

impl<'a> Info<'a, InfoV2<'a>> {
    /// This `info` dictionary as an element.
    pub fn to_bencode<'b>(&'b self) -> (r: Bencode<'b>)
        ensures
            valid(r@),
            r@ == info_v2_value(self@),
    {
        info_element(
            &self.name,
            self.piece_length,
            self.private,
            &self.source,
            None,
            Some(&self.kind),
        )
    }
}

impl<'a> Info<'a, InfoHybrid<'a>> {
    /// This `info` dictionary as an element.
    pub fn to_bencode<'b>(&'b self) -> (r: Bencode<'b>)
        ensures
            valid(r@),
            r@ == info_hybrid_value(self@),
    {
        info_element(
            &self.name,
            self.piece_length,
            self.private,
            &self.source,
            Some(&self.kind.v1),
            Some(&self.kind.v2),
        )
    }
}

impl<'a> PieceLayers<'a> {
    /// These piece layers as an element.
    pub fn to_bencode<'b>(&'b self) -> (r: Bencode<'b>)
        ensures
            valid(r@),
            r@ == layers_value(self@),
    {
        let mut map: Written<'b> = SortedMap::new();
        let mut i: usize = 0;
        let n: usize = self.0.len();
        while i < n
            invariant
                i <= n,
                n == self.0@.len(),
                rises(self.0@),
                rises(map@),
                map@.len() == i,
                forall|k: int|
                    0 <= k < i ==> valid((#[trigger] map@[k]).1@) && map@[k].0.len() <= usize::MAX
                        && map@[k].0 == self@[k].0 && map@[k].1@ == Value::Bytes(self@[k].1),
            decreases n - i,
        {
            let ghost before = map@;
            let hash: &'b [u8] = self.0.key_at(i).as_key();
            assert(hash@.len() == hash.len());
            let layer: &'b [u8] = match self.0.value_at(i) {
                Cow::Borrowed(s) => *s,
                Cow::Owned(s) => s.as_slice(),
            };
            assert(layer@.len() == layer.len());
            let value: Bencode<'b> = Bencode::Bytes(layer);
            map.insert(hash, value);
            proof {
                lemma_with_entry_last(before, hash@, value);
            }
            i = i + 1;
        }
        assert(entries_of(map@) =~= layers_value(self@)->Dict_0);
        proof {
            lemma_entries_rise(map@);
        }
        finish(map)
    }
}

impl<'a> Torrent<'a> {
    /// The first tracker of the first tier.
    fn announce<'b>(&'b self) -> (r: Option<Bencode<'b>>)
        ensures
            opt_value(r) matches Some(v) ==> valid(v),
            opt_value(r) == opt_text_value(first_tracker(self@.tracker_tiers)),
    {
        match &self.tracker_tiers {
            Some(tiers) => if tiers.len() > 0 && tiers[0].0.len() > 0 {
                assert(views(tiers@)[0] == tiers@[0]@);
                let bytes: &'b [u8] = tiers[0].0[0].as_str().as_bytes();
                assert(bytes@.len() == bytes.len());
                Some(Bencode::Bytes(bytes))
            } else {
                assert(tiers@.len() > 0 ==> views(tiers@)[0] == tiers@[0]@);
                None
            },
            None => None,
        }
    }

    /// This torrent as an element.
    pub fn to_bencode<'b>(&'b self) -> (r: Bencode<'b>)
        ensures
            valid(r@),
            r@ == torrent_value(self@),
    {
        proof {
            lemma_torrent_keys();
        }
        let tiers: Option<Bencode<'b>> = match &self.tracker_tiers {
            Some(tiers) => Some(tiers_element(tiers)),
            None => None,
        };
        let date: Option<Bencode<'b>> = match self.creation_date {
            Some(n) => Some(date_element(n)),
            None => None,
        };
        let (info, layers): (Bencode<'b>, Option<Bencode<'b>>) = match &self.meta {
            TorrentMeta::V1 { info } => (info.to_bencode(), None),
            TorrentMeta::V2 { info, piece_layers } => (
                info.to_bencode(),
                Some(piece_layers.to_bencode()),
            ),
            TorrentMeta::Hybrid { info, piece_layers } => (
                info.to_bencode(),
                Some(piece_layers.to_bencode()),
            ),
        };
        let seeds: Option<Bencode<'b>> = match &self.web_seeds {
            Some(urls) => Some(urls_element(urls)),
            None => None,
        };
        let mut map = start();
        put_opt(&mut map, "announce", self.announce());
        proof {
            lemma_next_key(entries_of(map@), "announce", "announce-list");
        }
        put_opt(&mut map, "announce-list", tiers);
        proof {
            lemma_next_key(entries_of(map@), "announce-list", "comment");
        }
        put_opt(&mut map, "comment", opt_text_element(&self.comment));
        proof {
            lemma_next_key(entries_of(map@), "comment", "created by");
        }
        put_opt(&mut map, "created by", opt_text_element(&self.created_by));
        proof {
            lemma_next_key(entries_of(map@), "created by", "creation date");
        }
        put_opt(&mut map, "creation date", date);
        proof {
            lemma_next_key(entries_of(map@), "creation date", "encoding");
        }
        put_opt(&mut map, "encoding", opt_text_element(&self.encoding));
        proof {
            lemma_next_key(entries_of(map@), "encoding", "info");
        }
        put(&mut map, "info", info);
        proof {
            lemma_next_key(entries_of(map@), "info", "piece layers");
        }
        put_opt(&mut map, "piece layers", layers);
        proof {
            lemma_next_key(entries_of(map@), "piece layers", "url-list");
        }
        put_opt(&mut map, "url-list", seeds);
        assert(entries_of(map@) =~= torrent_entries(self@));
        finish(map)
    }
}

} // verus!
