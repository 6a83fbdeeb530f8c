//! Reading a torrent.
use std::borrow::Cow;

use vstd::prelude::*;
use vstd::utf8::encode_utf8;

use crate::bencode::element::{entries_of, values_of, Bencode};
use crate::bencode::model::Value;
use crate::chunks::{as_array, as_chunks, cut};
use crate::num::{is_power_of_two, NonZeroU64};
use crate::path::{path_le, path_of, FilePath, Part};
use crate::sorted_map::{lemma_with_entry_last, rises, ByteKey, SortedMap};
use crate::sorting::{sort, views};
use crate::torrent::borrow::{
    file_info_borrows, file_mode_borrows, layers_borrow, meta_borrows, parsed_borrows,
    torrent_borrows, tree_borrows, v1_borrows,
};
use crate::torrent::error::{same, Error, Rejection};
use crate::torrent::fields::{
    all_ok, borrowed, bytes_of, dict_of, field, int_of, lemma_all_ok_step, list_of, natural,
    natural_of, opt, opt_str, require, require_str, required, required_text, text, text_field,
    text_of, Entries, Fields,
};
use crate::torrent::files::{file_info_of, is_padding, listed_paths};
use crate::torrent::model::{
    FileInfoModel, FileModeModel, HybridModel, InfoModel, LayersModel, MetaModel, TorrentModel,
    TreeModel, V1Model, V2Model,
};
use crate::torrent::tree::{tree_of, tree_paths};
use crate::torrent::types::{
    FileInfo, FileMode, FileTree, Info, InfoHybrid, InfoV1, InfoV2, PieceLayers, Torrent,
    TorrentMeta, TrackerTier,
};
use crate::web::{url_text, Url};

verus! {

/// What the `pieces` field says.
pub open spec fn pieces_field(d: Entries) -> Result<Option<Seq<Seq<u8>>>, Rejection> {
    match field(d, "pieces") {
        None => Ok(None),
        Some(v) => match bytes_of(v) {
            Err(e) => Err(e),
            Ok(s) => if s.len() % 20 == 0 {
                Ok(Some(cut(s, 20)))
            } else {
                Err(Rejection::InvalidPiecesLength)
            },
        },
    }
}

/// The files that some values list, or the first error.
pub open spec fn files_of(items: Seq<Value>) -> Result<Seq<FileInfoModel>, Rejection> {
    all_ok(items, |v: Value| file_info_of(v))
}

/// What the fields `files`, `length` and `md5sum` say. There is either a list of files or the
/// length of one file.
pub open spec fn file_mode_fields(d: Entries) -> Result<Option<FileModeModel>, Rejection> {
    match text_field(d, "md5sum") {
        Err(e) => Err(e),
        Ok(md5sum) => match (field(d, "files"), field(d, "length"), md5sum) {
            (Some(v), None, None) => match list_of(v) {
                Err(e) => Err(e),
                Ok(items) => match files_of(items) {
                    Err(e) => Err(e),
                    Ok(files) => Ok(Some(FileModeModel::Multi { files })),
                },
            },
            (None, Some(v), _) => match natural_of(v, "length") {
                Err(e) => Err(e),
                Ok(length) => Ok(Some(FileModeModel::Single { length, md5sum })),
            },
            (None, None, None) => Ok(None),
            _ => Err(Rejection::MalformedV1),
        },
    }
}

/// What the v1 fields of an `info` dictionary say: all of them are there, or none is.
pub open spec fn v1_of(d: Entries) -> Result<Option<V1Model>, Rejection> {
    match pieces_field(d) {
        Err(e) => Err(e),
        Ok(pieces) => match file_mode_fields(d) {
            Err(e) => Err(e),
            Ok(mode) => match (pieces, mode) {
                (None, None) => Ok(None),
                (Some(pieces), Some(file_mode)) => Ok(Some(V1Model { pieces, file_mode })),
                _ => Err(Rejection::MalformedV1),
            },
        },
    }
}

/// What an optional `file tree` field says.
pub open spec fn tree_field(d: Entries) -> Result<Option<TreeModel>, Rejection> {
    match field(d, "file tree") {
        None => Ok(None),
        Some(v) => match tree_of(v) {
            Err(e) => Err(e),
            Ok(tree) => Ok(Some(tree)),
        },
    }
}

/// Whether there is a `meta version` field, which must be 2.
pub open spec fn version_field(d: Entries) -> Result<bool, Rejection> {
    match field(d, "meta version") {
        None => Ok(false),
        Some(v) => match int_of(v) {
            Err(e) => Err(e),
            Ok(i) => if i == 2 {
                Ok(true)
            } else {
                Err(Rejection::IllegalFieldValue("meta version"@))
            },
        },
    }
}

/// What the v2 fields of an `info` dictionary say: all of them are there, or none is.
pub open spec fn v2_of(d: Entries) -> Result<Option<V2Model>, Rejection> {
    match version_field(d) {
        Err(e) => Err(e),
        Ok(has_version) => match tree_field(d) {
            Err(e) => Err(e),
            Ok(tree) => match (has_version, tree) {
                (false, None) => Ok(None),
                (true, Some(file_tree)) => Ok(Some(V2Model { file_tree })),
                _ => Err(Rejection::MalformedV2),
            },
        },
    }
}

/// What the `piece length` field says.
pub open spec fn piece_length_field(d: Entries) -> Result<u64, Rejection> {
    match required(d, "piece length") {
        Err(e) => Err(e),
        Ok(v) => match int_of(v) {
            Err(e) => Err(e),
            Ok(i) => if i > 0 {
                Ok(i as u64)
            } else {
                Err(Rejection::IllegalFieldValue("piece length"@))
            },
        },
    }
}

/// What the `private` field says.
pub open spec fn private_field(d: Entries) -> Result<bool, Rejection> {
    match field(d, "private") {
        None => Ok(false),
        Some(v) => match int_of(v) {
            Err(e) => Err(e),
            Ok(i) => if i == 0 {
                Ok(false)
            } else if i == 1 {
                Ok(true)
            } else {
                Err(Rejection::IllegalFieldValue("private"@))
            },
        },
    }
}

/// The model of a parsed `info` dictionary.
pub ghost enum ParsedModel {
    V1(InfoModel<V1Model>),
    V2(InfoModel<V2Model>),
    Hybrid(InfoModel<HybridModel>),
}

/// A piece length that v2 allows: a power of two, and no less than 16 KiB.
pub open spec fn v2_piece_length(n: u64) -> bool {
    is_power_of_two(n as nat) && n >= 16384
}

/// An `info` dictionary with the fields of the versions that it has.
pub open spec fn with_versions(
    name: Seq<char>,
    piece_length: u64,
    private: bool,
    source: Option<Seq<char>>,
    v1: Option<V1Model>,
    v2: Option<V2Model>,
) -> Result<ParsedModel, Rejection> {
    match (v1, v2) {
        (Some(v1), Some(v2)) => if v2_piece_length(piece_length) {
            Ok(
                ParsedModel::Hybrid(
                    InfoModel { name, piece_length, private, source, kind: HybridModel { v1, v2 } },
                ),
            )
        } else {
            Err(Rejection::IllegalPieceLengthV2(piece_length))
        },
        (Some(v1), None) => Ok(
            ParsedModel::V1(InfoModel { name, piece_length, private, source, kind: v1 }),
        ),
        (None, Some(v2)) => if v2_piece_length(piece_length) {
            Ok(ParsedModel::V2(InfoModel { name, piece_length, private, source, kind: v2 }))
        } else {
            Err(Rejection::IllegalPieceLengthV2(piece_length))
        },
        (None, None) => Err(Rejection::UnrecognizedFormat),
    }
}

/// What an `info` dictionary says.
pub open spec fn info_of(v: Value) -> Result<ParsedModel, Rejection> {
    match dict_of(v) {
        Err(e) => Err(e),
        Ok(d) => match required_text(d, "name") {
            Err(e) => Err(e),
            Ok(name) => match piece_length_field(d) {
                Err(e) => Err(e),
                Ok(piece_length) => match private_field(d) {
                    Err(e) => Err(e),
                    Ok(private) => match text_field(d, "source") {
                        Err(e) => Err(e),
                        Ok(source) => match v1_of(d) {
                            Err(e) => Err(e),
                            Ok(v1) => match v2_of(d) {
                                Err(e) => Err(e),
                                Ok(v2) => with_versions(
                                    name,
                                    piece_length,
                                    private,
                                    source,
                                    v1,
                                    v2,
                                ),
                            },
                        },
                    },
                },
            },
        },
    }
}

/// What one entry of the piece layers says.
pub open spec fn layer_of(e: (Seq<u8>, Value)) -> Result<(Seq<u8>, Seq<u8>), Rejection> {
    if e.0.len() != 32 {
        Err(Rejection::IllegalFieldValue("piece layers (key)"@))
    } else {
        match bytes_of(e.1) {
            Err(f) => Err(f),
            Ok(s) => Ok((e.0, s)),
        }
    }
}

/// What all entries of the piece layers say.
pub open spec fn layers_of(d: Entries) -> Result<LayersModel, Rejection> {
    all_ok(d, |e: (Seq<u8>, Value)| layer_of(e))
}

/// What an optional `piece layers` field says.
pub open spec fn layers_field(d: Entries) -> Result<Option<LayersModel>, Rejection> {
    match field(d, "piece layers") {
        None => Ok(None),
        Some(v) => match dict_of(v) {
            Err(e) => Err(e),
            Ok(entries) => match layers_of(entries) {
                Err(e) => Err(e),
                Ok(layers) => Ok(Some(layers)),
            },
        },
    }
}

/// The `info` dictionary together with the piece layers, which v1-only torrents lack and all
/// others have.
pub open spec fn meta_of(info: ParsedModel, layers: Option<LayersModel>) -> Result<
    MetaModel,
    Rejection,
> {
    match (info, layers) {
        (ParsedModel::V1(info), None) => Ok(MetaModel::V1 { info }),
        (ParsedModel::V2(info), Some(piece_layers)) => Ok(MetaModel::V2 { info, piece_layers }),
        (ParsedModel::Hybrid(info), Some(piece_layers)) => Ok(
            MetaModel::Hybrid { info, piece_layers },
        ),
        _ => Err(Rejection::MalformedV2),
    }
}

/// The URL of a value.
pub open spec fn url_of(v: Value) -> Result<Seq<char>, Rejection> {
    match text_of(v) {
        Err(e) => Err(e),
        Ok(s) => match url_text(s) {
            Some(u) => Ok(u),
            None => Err(Rejection::InvalidUrl),
        },
    }
}

/// The URLs of some values, or the first error.
pub open spec fn urls_of(items: Seq<Value>) -> Result<Seq<Seq<char>>, Rejection> {
    all_ok(items, |v: Value| url_of(v))
}

/// The URLs of a list.
pub open spec fn url_list_of(v: Value) -> Result<Seq<Seq<char>>, Rejection> {
    match list_of(v) {
        Err(e) => Err(e),
        Ok(items) => urls_of(items),
    }
}

/// The tiers of some values, or the first error.
pub open spec fn tiers_of(items: Seq<Value>) -> Result<Seq<Seq<Seq<char>>>, Rejection> {
    all_ok(items, |v: Value| url_list_of(v))
}

/// What an optional `announce` field says.
pub open spec fn announce_field(d: Entries) -> Result<Option<Seq<char>>, Rejection> {
    match field(d, "announce") {
        None => Ok(None),
        Some(v) => match url_of(v) {
            Err(e) => Err(e),
            Ok(u) => Ok(Some(u)),
        },
    }
}

/// What an optional `announce-list` field says.
pub open spec fn tiers_field(d: Entries) -> Result<Option<Seq<Seq<Seq<char>>>>, Rejection> {
    match field(d, "announce-list") {
        None => Ok(None),
        Some(v) => match list_of(v) {
            Err(e) => Err(e),
            Ok(items) => match tiers_of(items) {
                Err(e) => Err(e),
                Ok(tiers) => Ok(Some(tiers)),
            },
        },
    }
}

/// The tiers of a torrent: those of the `announce-list`, or else a single tier with the tracker
/// of `announce`.
pub open spec fn merged_tiers(
    tracker: Option<Seq<char>>,
    tiers: Option<Seq<Seq<Seq<char>>>>,
) -> Option<Seq<Seq<Seq<char>>>> {
    match (tracker, tiers) {
        (_, Some(tiers)) => Some(tiers),
        (Some(tracker), None) => Some(seq![seq![tracker]]),
        (None, None) => None,
    }
}

/// The tiers of a torrent. The `announce` field is looked at only if there is no `announce-list`.
pub open spec fn trackers_of(d: Entries) -> Result<Option<Seq<Seq<Seq<char>>>>, Rejection> {
    match tiers_field(d) {
        Err(e) => Err(e),
        Ok(Some(tiers)) => Ok(Some(tiers)),
        Ok(None) => match announce_field(d) {
            Err(e) => Err(e),
            Ok(tracker) => Ok(merged_tiers(tracker, None)),
        },
    }
}

/// What an optional `url-list` field says.
pub open spec fn web_seeds_field(d: Entries) -> Result<Option<Seq<Seq<char>>>, Rejection> {
    match field(d, "url-list") {
        None => Ok(None),
        Some(v) => match url_list_of(v) {
            Err(e) => Err(e),
            Ok(urls) => Ok(Some(urls)),
        },
    }
}

/// What an optional `creation date` field says.
pub open spec fn date_field(d: Entries) -> Result<Option<u64>, Rejection> {
    match field(d, "creation date") {
        None => Ok(None),
        Some(v) => match natural_of(v, "creation date") {
            Err(e) => Err(e),
            Ok(n) => Ok(Some(n)),
        },
    }
}

/// Whether the v1 and v2 fields of a hybrid torrent list different files. The paths in the tree
/// must be those of the v1 files other than padding files, in order.
pub open spec fn mismatch(meta: MetaModel) -> bool {
    match meta {
        MetaModel::Hybrid { info, piece_layers } => {
            let found = tree_paths(Seq::empty(), info.kind.v2.file_tree);
            match info.kind.v1.file_mode {
                FileModeModel::Single { .. } => found != seq![path_of(encode_utf8(info.name))],
                FileModeModel::Multi { files } => found != listed_paths(files).sort_by(path_le()),
            }
        },
        _ => false,
    }
}

/// What the fields of a torrent beside `info` and `piece layers` say.
pub open spec fn torrent_with_meta(d: Entries, meta: MetaModel) -> Result<
    TorrentModel,
    Rejection,
> {
    match trackers_of(d) {
        Err(e) => Err(e),
        Ok(tracker_tiers) => match web_seeds_field(d) {
            Err(e) => Err(e),
            Ok(web_seeds) => match date_field(d) {
                Err(e) => Err(e),
                Ok(creation_date) => match text_field(d, "comment") {
                    Err(e) => Err(e),
                    Ok(comment) => match text_field(d, "created by") {
                        Err(e) => Err(e),
                        Ok(created_by) => match text_field(d, "encoding") {
                            Err(e) => Err(e),
                            Ok(encoding) => if mismatch(meta) {
                                Err(Rejection::HybridMismatch)
                            } else {
                                Ok(
                                    TorrentModel {
                                        tracker_tiers,
                                        web_seeds,
                                        creation_date,
                                        comment,
                                        created_by,
                                        encoding,
                                        meta,
                                    },
                                )
                            },
                        },
                    },
                },
            },
        },
    }
}

/// What a torrent says.
pub open spec fn torrent_of(v: Value) -> Result<TorrentModel, Rejection> {
    match dict_of(v) {
        Err(e) => Err(e),
        Ok(d) => match required(d, "info") {
            Err(e) => Err(e),
            Ok(i) => match info_of(i) {
                Err(e) => Err(e),
                Ok(info) => match layers_field(d) {
                    Err(e) => Err(e),
                    Ok(layers) => match meta_of(info, layers) {
                        Err(e) => Err(e),
                        Ok(meta) => torrent_with_meta(d, meta),
                    },
                },
            },
        },
    }
}

/// The model of optional tiers.
pub open spec fn opt_tiers(tiers: Option<Vec<TrackerTier>>) -> Option<Seq<Seq<Seq<char>>>> {
    match tiers {
        Some(tiers) => Some(views(tiers@)),
        None => None,
    }
}

/// A parsed `info` dictionary.
pub enum ParsedInfo<'a> {
    V1(Info<'a, InfoV1<'a>>),
    V2(Info<'a, InfoV2<'a>>),
    Hybrid(Info<'a, InfoHybrid<'a>>),
}

impl<'a> View for ParsedInfo<'a> {
    type V = ParsedModel;

    open spec fn view(&self) -> ParsedModel {
        match self {
            ParsedInfo::V1(info) => ParsedModel::V1(info@),
            ParsedInfo::V2(info) => ParsedModel::V2(info@),
            ParsedInfo::Hybrid(info) => ParsedModel::Hybrid(info@),
        }
    }
}

/// Reads a list of file information dictionaries.
fn read_files<'a>(items: &[Bencode<'a>]) -> (r: Result<Vec<FileInfo<'a>>, Error>)
    ensures
        match r {
            Ok(files) => files_of(values_of(items@)) == Ok::<_, Rejection>(views(files@)) && (
            forall|i: int| 0 <= i < files@.len() ==> file_info_borrows(#[trigger] files@[i])),
            Err(e) => files_of(values_of(items@)) == Err::<Seq<FileInfoModel>, Rejection>(e@),
        },
{
    let ghost all = values_of(items@);
    let ghost f = |v: Value| file_info_of(v);
    let mut r: Vec<FileInfo<'a>> = Vec::new();
    let mut i: usize = 0;
    assert(all.take(0) =~= Seq::<Value>::empty());
    assert(views(r@) =~= Seq::<FileInfoModel>::empty());
    while i < items.len()
        invariant
            i <= items@.len(),
            all == values_of(items@),
            f == (|v: Value| file_info_of(v)),
            all_ok(all.take(i as int), f) == Ok::<_, Rejection>(views(r@)),
            forall|k: int| 0 <= k < r@.len() ==> file_info_borrows(#[trigger] r@[k]),
        decreases items@.len() - i,
    {
        proof {
            lemma_all_ok_step(all, i as int, f);
            assert(all[i as int] == items@[i as int]@);
        }
        match FileInfo::read(&items[i]) {
            Ok(info) => {
                let ghost before = views(r@);
                r.push(info);
                assert(views(r@) =~= before.push(info@));
            },
            Err(e) => return Err(e),
        }
        i = i + 1;
    }
    assert(all.take(i as int) =~= all);
    Ok(r)
}

/// Reads the fields `files`, `length` and `md5sum`.
fn read_file_mode<'a>(dict: &Fields<'a>) -> (r: Result<Option<FileMode<'a>>, Error>)
    ensures
        match r {
            Ok(Some(mode)) => file_mode_fields(entries_of(dict@)) == Ok::<_, Rejection>(
                Some(mode@),
            ) && file_mode_borrows(mode),
            Ok(None) => file_mode_fields(entries_of(dict@)) == Ok::<
                Option<FileModeModel>,
                Rejection,
            >(None),
            Err(e) => file_mode_fields(entries_of(dict@)) == Err::<
                Option<FileModeModel>,
                Rejection,
            >(e@),
        },
{
    let files = opt(dict, "files");
    let length = opt(dict, "length");
    let md5sum: Option<&'a str> = match opt_str(dict, "md5sum") {
        Ok(md5sum) => md5sum,
        Err(e) => return Err(e),
    };
    match (files, length, md5sum) {
        (Some(b), None, None) => match b.as_list() {
            Err(e) => Err(Error::Bencode(e)),
            Ok(items) => match read_files(items) {
                Ok(files) => Ok(Some(FileMode::Multi { files })),
                Err(e) => Err(e),
            },
        },
        (None, Some(b), md5sum) => match natural(b, "length") {
            Ok(length) => Ok(Some(FileMode::Single { length, md5sum: borrowed(md5sum) })),
            Err(e) => Err(e),
        },
        (None, None, None) => Ok(None),
        _ => Err(Error::MalformedV1),
    }
}

/// Reads the v1 fields of an `info` dictionary.
fn extract_info_v1_fields<'a>(dict: &Fields<'a>) -> (r: Result<Option<InfoV1<'a>>, Error>)
    ensures
        match r {
            Ok(Some(v1)) => v1_of(entries_of(dict@)) == Ok::<_, Rejection>(Some(v1@))
                && v1_borrows(v1),
            Ok(None) => v1_of(entries_of(dict@)) == Ok::<Option<V1Model>, Rejection>(None),
            Err(e) => v1_of(entries_of(dict@)) == Err::<Option<V1Model>, Rejection>(e@),
        },
{
    let pieces: Option<Cow<'a, [[u8; 20]]>> = match opt(dict, "pieces") {
        Some(b) => match b.as_bytes() {
            Err(e) => return Err(Error::Bencode(e)),
            Ok(s) => {
                let (chunks, rest) = as_chunks(s);
                if rest.len() != 0 {
                    return Err(Error::InvalidPiecesLength);
                }
                Some(Cow::Borrowed(chunks))
            },
        },
        None => None,
    };
    let file_mode: Option<FileMode<'a>> = match read_file_mode(dict) {
        Ok(mode) => mode,
        Err(e) => return Err(e),
    };
    match (pieces, file_mode) {
        (None, None) => Ok(None),
        (Some(pieces), Some(file_mode)) => Ok(Some(InfoV1 { pieces, file_mode })),
        _ => Err(Error::MalformedV1),
    }
}

/// Reads the v2 fields of an `info` dictionary.
fn extract_info_v2_fields<'a>(dict: &Fields<'a>) -> (r: Result<Option<InfoV2<'a>>, Error>)
    ensures
        match r {
            Ok(Some(v2)) => v2_of(entries_of(dict@)) == Ok::<_, Rejection>(Some(v2@))
                && tree_borrows(v2.file_tree),
            Ok(None) => v2_of(entries_of(dict@)) == Ok::<Option<V2Model>, Rejection>(None),
            Err(e) => v2_of(entries_of(dict@)) == Err::<Option<V2Model>, Rejection>(e@),
        },
{
    let has_meta_version: bool = match opt(dict, "meta version") {
        Some(b) => match b.as_int() {
            Err(e) => return Err(Error::Bencode(e)),
            Ok(i) => {
                if i != 2 {
                    return Err(Error::IllegalFieldValue("meta version"));
                }
                true
            },
        },
        None => false,
    };
    let file_tree: Option<FileTree<'a>> = match opt(dict, "file tree") {
        Some(b) => match FileTree::read(b) {
            Ok(tree) => Some(tree),
            Err(e) => return Err(e),
        },
        None => None,
    };
    match (has_meta_version, file_tree) {
        (false, None) => Ok(None),
        (true, Some(file_tree)) => Ok(Some(InfoV2 { file_tree })),
        _ => Err(Error::MalformedV2),
    }
}

/// Reads the `piece length` field.
fn read_piece_length(dict: &Fields<'_>) -> (r: Result<NonZeroU64, Error>)
    ensures
        same(r, piece_length_field(entries_of(dict@))),
{
    match require(dict, "piece length") {
        Err(e) => Err(e),
        Ok(b) => match b.as_int() {
            Err(e) => Err(Error::Bencode(e)),
            Ok(i) => {
                if i <= 0 {
                    return Err(Error::IllegalFieldValue("piece length"));
                }
                match NonZeroU64::new(i as u64) {
                    Some(n) => Ok(n),
                    None => Err(Error::IllegalFieldValue("piece length")),
                }
            },
        },
    }
}

/// Reads the `private` field.
fn read_private(dict: &Fields<'_>) -> (r: Result<bool, Error>)
    ensures
        match r {
            Ok(p) => private_field(entries_of(dict@)) == Ok::<bool, Rejection>(p),
            Err(e) => private_field(entries_of(dict@)) == Err::<bool, Rejection>(e@),
        },
{
    match opt(dict, "private") {
        None => Ok(false),
        Some(b) => match b.as_int() {
            Err(e) => Err(Error::Bencode(e)),
            Ok(i) => if i == 0 {
                Ok(false)
            } else if i == 1 {
                Ok(true)
            } else {
                Err(Error::IllegalFieldValue("private"))
            },
        },
    }
}

/// Whether v2 allows a piece length.
pub fn is_v2_piece_length(n: NonZeroU64) -> (r: bool)
    ensures
        r == v2_piece_length(n@),
{
    n.is_power_of_two() && n.get() >= 16384
}

impl<'a> ParsedInfo<'a> {
    /// Reads an `info` dictionary.
    pub(crate) fn read(bencode: &Bencode<'a>) -> (r: Result<ParsedInfo<'a>, Error>)
        ensures
            same(r, info_of(bencode@)),
            r matches Ok(parsed) ==> parsed_borrows(parsed),
    {
        let dict = match bencode.as_dict() {
            Ok(dict) => dict,
            Err(e) => return Err(Error::Bencode(e)),
        };
        let name: Cow<'a, str> = match require_str(dict, "name") {
            Ok(name) => Cow::Borrowed(name),
            Err(e) => return Err(e),
        };
        let piece_length: NonZeroU64 = match read_piece_length(dict) {
            Ok(n) => n,
            Err(e) => return Err(e),
        };
        let private: bool = match read_private(dict) {
            Ok(private) => private,
            Err(e) => return Err(e),
        };
        let source: Option<Cow<'a, str>> = match opt_str(dict, "source") {
            Ok(source) => borrowed(source),
            Err(e) => return Err(e),
        };
        let v1: Option<InfoV1<'a>> = match extract_info_v1_fields(dict) {
            Ok(v1) => v1,
            Err(e) => return Err(e),
        };
        let v2: Option<InfoV2<'a>> = match extract_info_v2_fields(dict) {
            Ok(v2) => v2,
            Err(e) => return Err(e),
        };
        match (v1, v2) {
            (Some(v1), Some(v2)) => {
                if !is_v2_piece_length(piece_length) {
                    return Err(Error::IllegalPieceLengthV2(piece_length));
                }
                Ok(
                    ParsedInfo::Hybrid(
                        Info { name, piece_length, private, source, kind: InfoHybrid { v1, v2 } },
                    ),
                )
            },
            (Some(v1), None) => Ok(
                ParsedInfo::V1(Info { name, piece_length, private, source, kind: v1 }),
            ),
            (None, Some(v2)) => {
                if !is_v2_piece_length(piece_length) {
                    return Err(Error::IllegalPieceLengthV2(piece_length));
                }
                Ok(ParsedInfo::V2(Info { name, piece_length, private, source, kind: v2 }))
            },
            (None, None) => Err(Error::UnrecognizedFormat),
        }
    }
}

impl<'a> PieceLayers<'a> {
    /// Reads the entries of the piece layers.
    fn read(dict: &Fields<'a>) -> (r: Result<PieceLayers<'a>, Error>)
        ensures
            same(r, layers_of(entries_of(dict@))),
            r matches Ok(layers) ==> layers_borrow(layers),
    {
        let ghost all = entries_of(dict@);
        let ghost f = |e: (Seq<u8>, Value)| layer_of(e);
        let mut map: SortedMap<[u8; 32], Cow<'a, [u8]>> = SortedMap::new();
        let mut i: usize = 0;
        let n: usize = dict.len();
        assert(all.take(0) =~= Seq::<(Seq<u8>, Value)>::empty());
        assert(PieceLayers(map)@ =~= Seq::<(Seq<u8>, Seq<u8>)>::empty());
        while i < n
            invariant
                i <= n,
                n == dict@.len(),
                rises(dict@),
                all == entries_of(dict@),
                f == (|e: (Seq<u8>, Value)| layer_of(e)),
                rises(map@),
                map@.len() == i,
                forall|k: int| 0 <= k < i ==> (#[trigger] map@[k]).0 == dict@[k].0,
                all_ok(all.take(i as int), f) == Ok::<_, Rejection>(PieceLayers(map)@),
                layers_borrow(PieceLayers(map)),
            decreases n - i,
        {
            proof {
                lemma_all_ok_step(all, i as int, f);
                assert(all[i as int] == (dict@[i as int].0, dict@[i as int].1@));
            }
            let key_bytes: &'a [u8] = *dict.key_at(i);
            let key: [u8; 32] = match as_array(key_bytes) {
                Some(key) => *key,
                None => return Err(Error::IllegalFieldValue("piece layers (key)")),
            };
            assert(key@.len() == 32);
            let value: Cow<'a, [u8]> = match dict.value_at(i).as_bytes() {
                Ok(value) => Cow::Borrowed(value),
                Err(e) => return Err(Error::Bencode(e)),
            };
            let ghost before = map@;
            let ghost before_layers = PieceLayers(map)@;
            map.insert(key, value);
            proof {
                lemma_with_entry_last(before, key@, value);
                assert(PieceLayers(map)@ =~= before_layers.push((key@, value@)));
            }
            i = i + 1;
        }
        assert(all.take(i as int) =~= all);
        Ok(PieceLayers(map))
    }
}

/// Reads a URL.
fn read_url(bencode: &Bencode<'_>) -> (r: Result<Url, Error>)
    ensures
        same(r, url_of(bencode@)),
{
    match text(bencode) {
        Err(e) => Err(e),
        Ok(s) => match Url::parse(s) {
            Ok(url) => Ok(url),
            Err(e) => Err(Error::InvalidUrl(e)),
        },
    }
}

/// Reads a list of URLs.
fn read_url_list(bencode: &Bencode<'_>) -> (r: Result<Vec<Url>, Error>)
    ensures
        match r {
            Ok(urls) => url_list_of(bencode@) == Ok::<_, Rejection>(views(urls@)),
            Err(e) => url_list_of(bencode@) == Err::<Seq<Seq<char>>, Rejection>(e@),
        },
{
    let items = match bencode.as_list() {
        Ok(items) => items,
        Err(e) => return Err(Error::Bencode(e)),
    };
    let ghost all = values_of(items@);
    let ghost f = |v: Value| url_of(v);
    let mut r: Vec<Url> = Vec::new();
    let mut i: usize = 0;
    assert(all.take(0) =~= Seq::<Value>::empty());
    assert(views(r@) =~= Seq::<Seq<char>>::empty());
    while i < items.len()
        invariant
            i <= items@.len(),
            all == values_of(items@),
            bencode@ == Value::List(all),
            f == (|v: Value| url_of(v)),
            all_ok(all.take(i as int), f) == Ok::<_, Rejection>(views(r@)),
        decreases items@.len() - i,
    {
        proof {
            lemma_all_ok_step(all, i as int, f);
            assert(all[i as int] == items@[i as int]@);
        }
        match read_url(&items[i]) {
            Ok(url) => {
                let ghost before = views(r@);
                r.push(url);
                assert(views(r@) =~= before.push(url@));
            },
            Err(e) => return Err(e),
        }
        i = i + 1;
    }
    assert(all.take(i as int) =~= all);
    Ok(r)
}

/// Reads a list of tiers.
fn read_tiers(items: &[Bencode<'_>]) -> (r: Result<Vec<TrackerTier>, Error>)
    ensures
        match r {
            Ok(tiers) => tiers_of(values_of(items@)) == Ok::<_, Rejection>(views(tiers@)),
            Err(e) => tiers_of(values_of(items@)) == Err::<Seq<Seq<Seq<char>>>, Rejection>(e@),
        },
{
    let ghost all = values_of(items@);
    let ghost f = |v: Value| url_list_of(v);
    let mut r: Vec<TrackerTier> = Vec::new();
    let mut i: usize = 0;
    assert(all.take(0) =~= Seq::<Value>::empty());
    assert(views(r@) =~= Seq::<Seq<Seq<char>>>::empty());
    while i < items.len()
        invariant
            i <= items@.len(),
            all == values_of(items@),
            f == (|v: Value| url_list_of(v)),
            all_ok(all.take(i as int), f) == Ok::<_, Rejection>(views(r@)),
        decreases items@.len() - i,
    {
        proof {
            lemma_all_ok_step(all, i as int, f);
            assert(all[i as int] == items@[i as int]@);
        }
        match read_url_list(&items[i]) {
            Ok(urls) => {
                let ghost before = views(r@);
                let tier = TrackerTier(urls);
                r.push(tier);
                assert(views(r@) =~= before.push(tier@));
            },
            Err(e) => return Err(e),
        }
        i = i + 1;
    }
    assert(all.take(i as int) =~= all);
    Ok(r)
}

/// The model of an optional URL.
pub open spec fn opt_url(url: Option<Url>) -> Option<Seq<char>> {
    match url {
        Some(url) => Some(url@),
        None => None,
    }
}

/// A single tier with a single tracker.
pub(crate) fn sole_tier(tracker: Url) -> (r: Vec<TrackerTier>)
    ensures
        views(r@) == seq![seq![tracker@]],
{
    let mut urls: Vec<Url> = Vec::new();
    urls.push(tracker);
    let tier = TrackerTier(urls);
    assert(tier@ =~= seq![tracker@]);
    let mut tiers: Vec<TrackerTier> = Vec::new();
    tiers.push(tier);
    assert(views(tiers@) =~= seq![seq![tracker@]]);
    tiers
}

/// Reads the tiers of a torrent.
fn read_trackers(dict: &Fields<'_>) -> (r: Result<Option<Vec<TrackerTier>>, Error>)
    ensures
        match r {
            Ok(tiers) => trackers_of(entries_of(dict@)) == Ok::<_, Rejection>(opt_tiers(tiers)),
            Err(e) => trackers_of(entries_of(dict@)) == Err::<
                Option<Seq<Seq<Seq<char>>>>,
                Rejection,
            >(e@),
        },
{
    if let Some(b) = opt(dict, "announce-list") {
        return match b.as_list() {
            Err(e) => Err(Error::Bencode(e)),
            Ok(items) => match read_tiers(items) {
                Ok(tiers) => Ok(Some(tiers)),
                Err(e) => Err(e),
            },
        };
    }
    match opt(dict, "announce") {
        None => Ok(None),
        Some(b) => match read_url(b) {
            Ok(url) => Ok(Some(sole_tier(url))),
            Err(e) => Err(e),
        },
    }
}

impl<'a> TorrentMeta<'a> {
    /// Reads the `info` dictionary and the piece layers.
    fn read(dict: &Fields<'a>) -> (r: Result<TorrentMeta<'a>, Error>)
        ensures
            same(
                r,
                match required(entries_of(dict@), "info") {
                    Err(e) => Err(e),
                    Ok(i) => match info_of(i) {
                        Err(e) => Err(e),
                        Ok(info) => match layers_field(entries_of(dict@)) {
                            Err(e) => Err(e),
                            Ok(layers) => meta_of(info, layers),
                        },
                    },
                },
            ),
            r matches Ok(meta) ==> meta_borrows(meta),
    {
        let parsed: ParsedInfo<'a> = match require(dict, "info") {
            Err(e) => return Err(e),
            Ok(b) => match ParsedInfo::read(b) {
                Ok(parsed) => parsed,
                Err(e) => return Err(e),
            },
        };
        let layers: Option<PieceLayers<'a>> = match opt(dict, "piece layers") {
            None => None,
            Some(b) => match b.as_dict() {
                Err(e) => return Err(Error::Bencode(e)),
                Ok(entries) => match PieceLayers::read(entries) {
                    Ok(layers) => Some(layers),
                    Err(e) => return Err(e),
                },
            },
        };
        match (parsed, layers) {
            (ParsedInfo::V1(info), None) => Ok(TorrentMeta::V1 { info }),
            (ParsedInfo::V2(info), Some(piece_layers)) => Ok(TorrentMeta::V2 { info, piece_layers }),
            (ParsedInfo::Hybrid(info), Some(piece_layers)) => Ok(
                TorrentMeta::Hybrid { info, piece_layers },
            ),
            _ => Err(Error::MalformedV2),
        }
    }
}

/// Whether two lists of paths are the same.
fn same_paths(a: &[FilePath], b: &[FilePath]) -> (r: bool)
    ensures
        r == (views(a@) == views(b@)),
{
    if a.len() != b.len() {
        assert(views(a@).len() != views(b@).len());
        return false;
    }
    let mut i: usize = 0;
    while i < a.len()
        invariant
            i <= a@.len(),
            a@.len() == b@.len(),
            forall|k: int| 0 <= k < i ==> #[trigger] views(a@)[k] == views(b@)[k],
        decreases a@.len() - i,
    {
        assert(views(a@)[i as int] == a@[i as int]@);
        assert(views(b@)[i as int] == b@[i as int]@);
        if !a[i].same(&b[i]) {
            return false;
        }
        i = i + 1;
    }
    assert(views(a@) =~= views(b@));
    true
}

/// The paths of the files that are not padding files.
fn list_paths(files: &[FileInfo<'_>]) -> (r: Vec<FilePath>)
    ensures
        views(r@) == listed_paths(views(files@)),
{
    let ghost all = views(files@);
    let mut r: Vec<FilePath> = Vec::new();
    let mut i: usize = 0;
    assert(all.take(0) =~= Seq::<FileInfoModel>::empty());
    assert(views(r@) =~= Seq::<Seq<Part>>::empty());
    while i < files.len()
        invariant
            i <= files@.len(),
            all == views(files@),
            views(r@) == listed_paths(all.take(i as int)),
        decreases files@.len() - i,
    {
        proof {
            let t = all.take(i + 1);
            assert(t.drop_last() =~= all.take(i as int));
            assert(t.last() == files@[i as int]@);
        }
        if !files[i].is_padding() {
            let ghost before = views(r@);
            let path: FilePath = files[i].to_path_buf();
            r.push(path);
            assert(views(r@) =~= before.push(path@));
        }
        i = i + 1;
    }
    assert(all.take(i as int) =~= all);
    r
}

impl<'a> Torrent<'a> {
    /// Whether the v1 and v2 fields of a hybrid torrent list different files.
    pub(crate) fn hybrid_mismatch(&self) -> (r: bool)
        ensures
            r == mismatch(self@.meta),
    {
        match &self.meta {
            TorrentMeta::Hybrid { info, .. } => {
                let found: Vec<FilePath> = info.kind.v2.file_tree.file_paths();
                match &info.kind.v1.file_mode {
                    FileMode::Single { .. } => {
                        let name: FilePath = FilePath::from_bytes(info.name.as_key());
                        let ghost path = name@;
                        let mut expected: Vec<FilePath> = Vec::new();
                        expected.push(name);
                        assert(views(expected@) =~= seq![path]);
                        !same_paths(&found, &expected)
                    },
                    FileMode::Multi { files } => {
                        let listed: Vec<FilePath> = sort(list_paths(files));
                        !same_paths(&found, &listed)
                    },
                }
            },
            _ => false,
        }
    }

    /// Reads a torrent.
    pub(crate) fn read(bencode: &Bencode<'a>) -> (r: Result<Torrent<'a>, Error>)
        ensures
            same(r, torrent_of(bencode@)),
            r matches Ok(torrent) ==> torrent_borrows(torrent),
    {
        let dict = match bencode.as_dict() {
            Ok(dict) => dict,
            Err(e) => return Err(Error::Bencode(e)),
        };
        let meta: TorrentMeta<'a> = match TorrentMeta::read(dict) {
            Ok(meta) => meta,
            Err(e) => return Err(e),
        };
        let tracker_tiers: Option<Vec<TrackerTier>> = match read_trackers(dict) {
            Ok(tiers) => tiers,
            Err(e) => return Err(e),
        };
        let web_seeds: Option<Vec<Url>> = match opt(dict, "url-list") {
            None => None,
            Some(b) => match read_url_list(b) {
                Ok(urls) => Some(urls),
                Err(e) => return Err(e),
            },
        };
        let creation_date: Option<u64> = match opt(dict, "creation date") {
            None => None,
            Some(b) => match natural(b, "creation date") {
                Ok(n) => Some(n),
                Err(e) => return Err(e),
            },
        };
        let comment: Option<Cow<'a, str>> = match opt_str(dict, "comment") {
            Ok(s) => borrowed(s),
            Err(e) => return Err(e),
        };
        let created_by: Option<Cow<'a, str>> = match opt_str(dict, "created by") {
            Ok(s) => borrowed(s),
            Err(e) => return Err(e),
        };
        let encoding: Option<Cow<'a, str>> = match opt_str(dict, "encoding") {
            Ok(s) => borrowed(s),
            Err(e) => return Err(e),
        };
        let torrent = Torrent {
            tracker_tiers,
            web_seeds,
            creation_date,
            comment,
            created_by,
            encoding,
            meta,
        };
        if torrent.hybrid_mismatch() {
            Err(Error::HybridMismatch)
        } else {
            Ok(torrent)
        }
    }
}

} // verus!
