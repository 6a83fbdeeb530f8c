//! Why dictionaries are rejected.
use vstd::prelude::*;
use vstd::utf8::valid_utf8;

use crate::bencode::error::Failure;
use crate::bencode::model::{valid, Value};
use crate::num::is_power_of_two;
use crate::torrent::error::{same, Error, Rejection};
use crate::torrent::fidelity::lemma_field;
use crate::torrent::fields::{field, Entries};
use crate::torrent::files::file_info_of;
use crate::torrent::laws::reading::{
    good_info, good_layers, good_tree, good_v1, is_letter, is_text, lacks_v1, law_info_is_read,
    law_letters_are_attributes, law_tree_is_read, law_v1_is_read, law_v2_is_read, lemma_layers_say,
    lemma_text_says, may_be_text, parsed_v1, parsed_v2,
};
use crate::torrent::model::{FileInfoModel, LeafModel, TorrentModel};
use crate::torrent::read::{info_of, torrent_of, ParsedModel};
use crate::torrent::tree::leaf_of;

verus! {

/// What is read is what the model says, and an error is the one that the model has.
pub proof fn law_answers_are_those_of_the_model<T: View>(
    r: Result<T, Error>,
    model: Result<T::V, Rejection>,
)
    ensures
        same(r, model) <==> match r {
            Ok(t) => model is Ok && model->Ok_0 == t@,
            Err(e) => model is Err && model->Err_0 == e@,
        },
{
}

/// A value of the wrong kind is rejected by the name of the right one.
pub open spec fn wrong_kind(name: &str) -> Rejection {
    Rejection::Bencode(Failure::WrongType(name@))
}

/// Why a file leaf is rejected: a length that is missing, of the wrong kind or negative, a root
/// that is missing although the file is not empty or there although it is, and one that is not 32
/// bytes long.
pub proof fn law_leaf_is_rejected(v: Value)
    ensures
        !(v is Dict) ==> leaf_of(v) == Err::<LeafModel, Rejection>(wrong_kind("dict")),
        v matches Value::Dict(d) ==> match field(d, "length") {
            None => leaf_of(v) == Err::<LeafModel, Rejection>(Rejection::MissingField("length"@)),
            Some(Value::Int(n)) => {
                &&& n < 0 ==> leaf_of(v) == Err::<LeafModel, Rejection>(
                    Rejection::IllegalFieldValue("length"@),
                )
                &&& n == 0 && field(d, "pieces root") is Some ==> leaf_of(v) == Err::<
                    LeafModel,
                    Rejection,
                >(Rejection::InvalidFileTree)
                &&& 0 < n <= i64::MAX ==> match field(d, "pieces root") {
                    None => leaf_of(v) == Err::<LeafModel, Rejection>(Rejection::InvalidFileTree),
                    Some(Value::Bytes(root)) => root.len() != 32 ==> leaf_of(v) == Err::<
                        LeafModel,
                        Rejection,
                    >(Rejection::IllegalFieldValue("pieces root"@)),
                    Some(_) => leaf_of(v) == Err::<LeafModel, Rejection>(wrong_kind("bytes")),
                }
            },
            Some(_) => leaf_of(v) == Err::<LeafModel, Rejection>(wrong_kind("int")),
        },
{
}

/// Why a file information dictionary is rejected, if its other fields are fine: letters that stand
/// for no attribute, a length that is missing, of the wrong kind or negative, and a path that is
/// missing or no list.
pub proof fn law_file_is_rejected(d: Entries)
    ensures
        ({
            let r = file_info_of(Value::Dict(d));
            let attr = field(d, "attr");
            let bad_letters = attr matches Some(Value::Bytes(s)) && exists|i: int|
                0 <= i < s.len() && !is_letter(#[trigger] s[i]);
            let fine_letters = attr matches Some(a) ==> (a matches Value::Bytes(s) && forall|i: int|
                0 <= i < s.len() ==> is_letter(#[trigger] s[i]));
            let fine_length = field(d, "length") matches Some(Value::Int(n)) && 0 <= n <= i64::MAX;
            &&& bad_letters ==> r == Err::<FileInfoModel, Rejection>(
                Rejection::IllegalFieldValue("attr"@),
            )
            &&& attr is Some && !(attr->0 is Bytes) ==> r == Err::<FileInfoModel, Rejection>(
                wrong_kind("bytes"),
            )
            &&& fine_letters && field(d, "length") is None ==> r == Err::<FileInfoModel, Rejection>(
                Rejection::MissingField("length"@),
            )
            &&& fine_letters && (field(d, "length") matches Some(Value::Int(n)) && n < 0) ==> r
                == Err::<FileInfoModel, Rejection>(Rejection::IllegalFieldValue("length"@))
            &&& fine_letters && fine_length && may_be_text(field(d, "md5sum")) && field(
                d,
                "path",
            ) is None ==> r == Err::<FileInfoModel, Rejection>(Rejection::MissingField("path"@))
            &&& fine_letters && fine_length && may_be_text(field(d, "md5sum")) && (field(
                d,
                "path",
            ) matches Some(p) && !(p is List)) ==> r == Err::<FileInfoModel, Rejection>(
                wrong_kind("list"),
            )
        }),
        forall|v: Value|
            !(v is Dict) ==> #[trigger] file_info_of(v) == Err::<FileInfoModel, Rejection>(
                wrong_kind("dict"),
            ),
{
    if let Some(Value::Bytes(s)) = field(d, "attr") {
        law_letters_are_attributes(s);
    }
    if let Some(m) = field(d, "md5sum") {
        lemma_text_says(m);
    }
}

/// The name and the piece length of an `info` dictionary are there and fine.
pub open spec fn fine_start(d: Entries) -> bool {
    &&& field(d, "name") matches Some(name) && is_text(name)
    &&& field(d, "piece length") matches Some(Value::Int(n)) && 0 < n <= i64::MAX
}

/// All common fields of an `info` dictionary are fine.
pub open spec fn fine_common(d: Entries) -> bool {
    &&& fine_start(d)
    &&& field(d, "private") matches Some(p) ==> p == Value::Int(0) || p == Value::Int(1)
    &&& may_be_text(field(d, "source"))
}

/// Why an `info` dictionary is rejected for one of its common fields.
pub proof fn law_common_fields_are_rejected(d: Entries)
    ensures
        ({
            let r = info_of(Value::Dict(d));
            let fine_name = field(d, "name") matches Some(name) && is_text(name);
            &&& field(d, "name") is None ==> r == Err::<ParsedModel, Rejection>(
                Rejection::MissingField("name"@),
            )
            &&& (field(d, "name") matches Some(Value::Bytes(s)) && !valid_utf8(s)) ==> r == Err::<
                ParsedModel,
                Rejection,
            >(Rejection::Bencode(Failure::InvalidUtf8))
            &&& fine_name && field(d, "piece length") is None ==> r == Err::<
                ParsedModel,
                Rejection,
            >(Rejection::MissingField("piece length"@))
            &&& fine_name && (field(d, "piece length") matches Some(Value::Int(n)) && n <= 0) ==> r
                == Err::<ParsedModel, Rejection>(Rejection::IllegalFieldValue("piece length"@))
            &&& fine_name && (field(d, "piece length") matches Some(v) && !(v is Int)) ==> r
                == Err::<ParsedModel, Rejection>(wrong_kind("int"))
            &&& fine_start(d) && (field(d, "private") matches Some(Value::Int(p)) && p != 0 && p
                != 1) ==> r == Err::<ParsedModel, Rejection>(
                Rejection::IllegalFieldValue("private"@),
            )
            &&& fine_start(d) && (field(d, "private") matches Some(p) && !(p is Int)) ==> r
                == Err::<ParsedModel, Rejection>(wrong_kind("int"))
        }),
        forall|v: Value|
            !(v is Dict) ==> #[trigger] info_of(v) == Err::<ParsedModel, Rejection>(
                wrong_kind("dict"),
            ),
{
    if let Some(v) = field(d, "name") {
        lemma_text_says(v);
    }
}

/// Why an `info` dictionary is rejected for the fields of a version, if the fields before them are
/// fine: hashes that are no whole number, a part of the fields of a version without the others, a
/// list of files beside the length of a single one, another version than 2, a piece length that v2
/// does not allow, and no version at all.
#[verifier::rlimit(40)]
pub proof fn law_versions_are_rejected(d: Entries)
    requires
        valid(Value::Dict(d)),
        fine_common(d),
    ensures
        ({
            let r = info_of(Value::Dict(d));
            let n = field(d, "piece length")->0->Int_0;
            let fine_v1 = good_v1(d) || lacks_v1(d);
            let tree = field(d, "file tree");
            let fine_pieces = field(d, "pieces") matches Some(p) ==> (p matches Value::Bytes(s)
                && s.len() % 20 == 0);
            &&& (field(d, "pieces") matches Some(Value::Bytes(s)) && s.len() % 20 != 0) ==> r
                == Err::<ParsedModel, Rejection>(Rejection::InvalidPiecesLength)
            &&& fine_pieces && may_be_text(field(d, "md5sum")) && field(d, "files") is Some
                && field(d, "length") is Some ==> r == Err::<ParsedModel, Rejection>(
                Rejection::MalformedV1,
            )
            &&& fine_pieces && field(d, "pieces") is Some && field(d, "files") is None && field(
                d,
                "length",
            ) is None && field(d, "md5sum") is None ==> r == Err::<ParsedModel, Rejection>(
                Rejection::MalformedV1,
            )
            &&& field(d, "pieces") is None && field(d, "files") is None && may_be_text(
                field(d, "md5sum"),
            ) && (field(d, "length") matches Some(Value::Int(l)) && 0 <= l <= i64::MAX) ==> r
                == Err::<ParsedModel, Rejection>(Rejection::MalformedV1)
            &&& fine_v1 && (field(d, "meta version") matches Some(Value::Int(i)) && i != 2) ==> r
                == Err::<ParsedModel, Rejection>(Rejection::IllegalFieldValue("meta version"@))
            &&& fine_v1 && field(d, "meta version") is None && (tree matches Some(t) && good_tree(
                t,
            )) ==> r == Err::<ParsedModel, Rejection>(Rejection::MalformedV2)
            &&& fine_v1 && field(d, "meta version") == Some(Value::Int(2)) && tree is None ==> r
                == Err::<ParsedModel, Rejection>(Rejection::MalformedV2)
            &&& fine_v1 && field(d, "meta version") == Some(Value::Int(2)) && (tree matches Some(t)
                && good_tree(t)) && !(n >= 16384 && is_power_of_two(n as nat)) ==> r == Err::<
                ParsedModel,
                Rejection,
            >(Rejection::IllegalPieceLengthV2(n as u64))
            &&& lacks_v1(d) && field(d, "meta version") is None && tree is None ==> r == Err::<
                ParsedModel,
                Rejection,
            >(Rejection::UnrecognizedFormat)
        }),
{
    if let Some(v) = field(d, "name") {
        lemma_text_says(v);
    }
    if let Some(v) = field(d, "source") {
        lemma_text_says(v);
    }
    if let Some(v) = field(d, "md5sum") {
        lemma_text_says(v);
    }
    law_v1_is_read(d);
    law_v2_is_read(d);
    lemma_field(d, "file tree");
    if let Some(t) = field(d, "file tree") {
        law_tree_is_read(t);
    }
}

/// A torrent without an `info` dictionary is rejected, and so is a v1-only one with piece layers or
/// another one without. Why an `info` dictionary is rejected is why the torrent is.
pub proof fn law_torrent_is_rejected(d: Entries)
    requires
        valid(Value::Dict(d)),
    ensures
        ({
            let r = torrent_of(Value::Dict(d));
            &&& field(d, "info") is None ==> r == Err::<TorrentModel, Rejection>(
                Rejection::MissingField("info"@),
            )
            &&& (field(d, "info") matches Some(i) && info_of(i) is Err) ==> r == Err::<
                TorrentModel,
                Rejection,
            >(info_of(field(d, "info")->0)->Err_0)
            &&& (field(d, "info") matches Some(Value::Dict(i)) && good_info(i) && field(
                i,
                "file tree",
            ) is Some) && field(d, "piece layers") is None ==> r == Err::<TorrentModel, Rejection>(
                Rejection::MalformedV2,
            )
            &&& (field(d, "info") matches Some(Value::Dict(i)) && good_info(i) && field(
                i,
                "file tree",
            ) is None) && (field(d, "piece layers") matches Some(l) && good_layers(l)) ==> r
                == Err::<TorrentModel, Rejection>(Rejection::MalformedV2)
        }),
        forall|v: Value|
            !(v is Dict) ==> #[trigger] torrent_of(v) == Err::<TorrentModel, Rejection>(
                wrong_kind("dict"),
            ),
{
    lemma_field(d, "info");
    if let Some(Value::Dict(i)) = field(d, "info") {
        law_info_is_read(i);
        if let Ok(p) = info_of(Value::Dict(i)) {
            assert(parsed_v1(p) is Some || parsed_v2(p) is Some);
        }
    }
    if let Some(Value::Dict(layers)) = field(d, "piece layers") {
        lemma_layers_say(layers);
    }
}

} // verus!
