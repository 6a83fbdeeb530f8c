//! Torrents with v1 fields that own what they hold.
use std::borrow::Cow;

use vstd::prelude::*;
use vstd::std_specs::convert::{FromSpecImpl, TryFromSpecImpl};

use crate::bencode::element::Bencode;
use crate::chunks::arrays;
use crate::num::NonZeroU64;
use crate::sorting::views;
use crate::torrent::builder::common::opt_string;
use crate::torrent::copy::copy_urls;
use crate::torrent::error::{same, Error, Rejection};
use crate::torrent::files::file_info_of;
use crate::torrent::model::{
    FileInfoModel, FileModeModel, InfoModel, MetaModel, TorrentModel, V1Model,
};
use crate::torrent::read::{
    info_of, merged_tiers, opt_tiers, opt_url, sole_tier, torrent_of, ParsedInfo, ParsedModel,
};
use crate::torrent::types::{
    opt_text, texts, FileInfo, FileMode, Info, InfoV1, Torrent, TorrentMeta, TrackerTier,
};
use crate::torrent::write::first_tracker;
use crate::web::Url;

verus! {

/// A file of a torrent.
#[derive(Debug)]
pub struct OwnedFileInfo {
    /// The length in bytes.
    pub length: u64,
    /// An optional MD5 hash.
    pub md5sum: Option<String>,
    /// The components of the path.
    pub path: Vec<String>,
}

/// The texts of some strings.
pub open spec fn string_texts(s: Seq<String>) -> Seq<Seq<char>> {
    Seq::new(s.len(), |i: int| s[i]@)
}

impl View for OwnedFileInfo {
    type V = FileInfoModel;

    open spec fn view(&self) -> FileInfoModel {
        FileInfoModel {
            attr: None,
            length: self.length,
            md5sum: opt_string(self.md5sum),
            path: string_texts(self.path@),
        }
    }
}

/// A file without its attributes.
pub open spec fn plain_file(f: FileInfoModel) -> FileInfoModel {
    FileInfoModel { attr: None, ..f }
}

/// The files without their attributes.
pub open spec fn plain_mode(mode: FileModeModel) -> FileModeModel {
    match mode {
        FileModeModel::Single { .. } => mode,
        FileModeModel::Multi { files } => FileModeModel::Multi {
            files: Seq::new(files.len(), |i: int| plain_file(files[i])),
        },
    }
}

/// An `info` dictionary without its source, and with plain files.
pub open spec fn plain_info(info: InfoModel<V1Model>) -> InfoModel<V1Model> {
    InfoModel {
        source: None,
        kind: V1Model { pieces: info.kind.pieces, file_mode: plain_mode(info.kind.file_mode) },
        ..info
    }
}

/// The v1 part of an `info` dictionary.
pub open spec fn v1_info(meta: MetaModel) -> Option<InfoModel<V1Model>> {
    match meta {
        MetaModel::V1 { info } => Some(info),
        MetaModel::V2 { .. } => None,
        MetaModel::Hybrid { info, .. } => Some(
            InfoModel {
                name: info.name,
                piece_length: info.piece_length,
                private: info.private,
                source: info.source,
                kind: info.kind.v1,
            },
        ),
    }
}

/// A torrent with v1 fields without what cannot be owned: the web seeds, the source, the
/// attributes of the files and the v2 fields.
pub open spec fn plain_torrent(t: TorrentModel) -> Option<TorrentModel> {
    match v1_info(t.meta) {
        Some(info) => Some(
            TorrentModel { web_seeds: None, meta: MetaModel::V1 { info: plain_info(info) }, ..t },
        ),
        None => None,
    }
}

/// An optional string.
fn to_string(s: &Option<Cow<'_, str>>) -> (r: Option<String>)
    ensures
        opt_string(r) == opt_text(*s),
{
    match s {
        Some(Cow::Borrowed(s)) => Some((*s).to_owned()),
        Some(Cow::Owned(s)) => Some(s.clone()),
        None => None,
    }
}

/// An optional string, borrowed.
fn as_text(s: &Option<String>) -> (r: Option<Cow<'_, str>>)
    ensures
        opt_text(r) == opt_string(*s),
{
    match s {
        Some(s) => Some(Cow::Borrowed(s.as_str())),
        None => None,
    }
}

/// A string.
fn to_text(s: &Cow<'_, str>) -> (r: String)
    ensures
        r@ == s@,
{
    match s {
        Cow::Borrowed(s) => (*s).to_owned(),
        Cow::Owned(s) => s.clone(),
    }
}

impl OwnedFileInfo {
    /// The same file, borrowed.
    pub fn as_borrowed(&self) -> (r: FileInfo<'_>)
        ensures
            r@ == self@,
    {
        let mut path: Vec<Cow<'_, str>> = Vec::with_capacity(self.path.len());
        let mut i: usize = 0;
        while i < self.path.len()
            invariant
                i <= self.path@.len(),
                path@.len() == i,
                forall|k: int| 0 <= k < i ==> (#[trigger] path@[k])@ == self.path@[k]@,
            decreases self.path@.len() - i,
        {
            path.push(Cow::Borrowed(self.path[i].as_str()));
            i = i + 1;
        }
        assert(texts(path@) =~= string_texts(self.path@));
        FileInfo { attr: None, length: self.length, md5sum: as_text(&self.md5sum), path }
    }

    /// The same file, owned.
    fn own(file: &FileInfo<'_>) -> (r: OwnedFileInfo)
        ensures
            r@ == plain_file(file@),
    {
        let mut path: Vec<String> = Vec::with_capacity(file.path.len());
        let mut i: usize = 0;
        while i < file.path.len()
            invariant
                i <= file.path@.len(),
                path@.len() == i,
                forall|k: int| 0 <= k < i ==> (#[trigger] path@[k])@ == file.path@[k]@,
            decreases file.path@.len() - i,
        {
            path.push(to_text(&file.path[i]));
            i = i + 1;
        }
        assert(string_texts(path@) =~= texts(file.path@));
        OwnedFileInfo { length: file.length, md5sum: to_string(&file.md5sum), path }
    }
}

impl<'a> FromSpecImpl<FileInfo<'a>> for OwnedFileInfo {
    open spec fn obeys_from_spec() -> bool {
        false
    }

    open spec fn from_spec(v: FileInfo<'a>) -> Self {
        arbitrary()
    }
}

impl<'a> From<FileInfo<'a>> for OwnedFileInfo {
    /// Owns a file, without its attributes.
    fn from(file: FileInfo<'a>) -> (r: Self)
        ensures
            r@ == plain_file(file@),
    {
        OwnedFileInfo::own(&file)
    }
}

/// What a file information dictionary says, without the attributes.
pub open spec fn plain_file_of(r: Result<FileInfoModel, Rejection>) -> Result<
    FileInfoModel,
    Rejection,
> {
    match r {
        Ok(f) => Ok(plain_file(f)),
        Err(e) => Err(e),
    }
}

impl<'b, 'a> TryFromSpecImpl<&'b Bencode<'a>> for OwnedFileInfo {
    open spec fn obeys_try_from_spec() -> bool {
        false
    }

    open spec fn try_from_spec(v: &'b Bencode<'a>) -> Result<Self, Error> {
        arbitrary()
    }
}

impl<'b, 'a> TryFrom<&'b Bencode<'a>> for OwnedFileInfo {
    type Error = Error;

    /// Reads a file information dictionary.
    fn try_from(bencode: &'b Bencode<'a>) -> (r: Result<Self, Error>)
        ensures
            same(r, plain_file_of(file_info_of(bencode@))),
    {
        match FileInfo::read(bencode) {
            Ok(file) => Ok(OwnedFileInfo::own(&file)),
            Err(e) => Err(e),
        }
    }
}

/// The files of a torrent.
#[derive(Debug)]
pub enum OwnedFileMode {
    /// One file.
    Single {
        /// The length in bytes.
        length: u64,
        /// An optional MD5 hash.
        md5sum: Option<String>,
    },
    /// Several files.
    Multi {
        /// The files.
        files: Vec<OwnedFileInfo>,
    },
}

impl View for OwnedFileMode {
    type V = FileModeModel;

    open spec fn view(&self) -> FileModeModel {
        match self {
            OwnedFileMode::Single { length, md5sum } => FileModeModel::Single {
                length: *length,
                md5sum: opt_string(*md5sum),
            },
            OwnedFileMode::Multi { files } => FileModeModel::Multi { files: views(files@) },
        }
    }
}

impl OwnedFileMode {
    /// The same files, borrowed.
    pub fn as_borrowed(&self) -> (r: FileMode<'_>)
        ensures
            r@ == self@,
    {
        match self {
            OwnedFileMode::Single { length, md5sum } => FileMode::Single {
                length: *length,
                md5sum: as_text(md5sum),
            },
            OwnedFileMode::Multi { files } => {
                let mut borrowed: Vec<FileInfo<'_>> = Vec::with_capacity(files.len());
                let mut i: usize = 0;
                while i < files.len()
                    invariant
                        i <= files@.len(),
                        borrowed@.len() == i,
                        forall|k: int|
                            0 <= k < i ==> (#[trigger] borrowed@[k])@ == files@[k]@,
                    decreases files@.len() - i,
                {
                    borrowed.push(files[i].as_borrowed());
                    i = i + 1;
                }
                assert(views(borrowed@) =~= views(files@));
                FileMode::Multi { files: borrowed }
            },
        }
    }

    /// The same files, owned.
    fn own(mode: &FileMode<'_>) -> (r: OwnedFileMode)
        ensures
            r@ == plain_mode(mode@),
    {
        match mode {
            FileMode::Single { length, md5sum } => OwnedFileMode::Single {
                length: *length,
                md5sum: to_string(md5sum),
            },
            FileMode::Multi { files } => {
                let mut owned: Vec<OwnedFileInfo> = Vec::with_capacity(files.len());
                let mut i: usize = 0;
                while i < files.len()
                    invariant
                        i <= files@.len(),
                        owned@.len() == i,
                        forall|k: int|
                            0 <= k < i ==> (#[trigger] owned@[k])@ == plain_file(files@[k]@),
                    decreases files@.len() - i,
                {
                    owned.push(OwnedFileInfo::own(&files[i]));
                    i = i + 1;
                }
                assert(views(owned@) =~= plain_mode(mode@)->files);
                OwnedFileMode::Multi { files: owned }
            },
        }
    }
}

impl<'a> FromSpecImpl<FileMode<'a>> for OwnedFileMode {
    open spec fn obeys_from_spec() -> bool {
        false
    }

    open spec fn from_spec(v: FileMode<'a>) -> Self {
        arbitrary()
    }
}

impl<'a> From<FileMode<'a>> for OwnedFileMode {
    /// Owns the files, without their attributes.
    fn from(mode: FileMode<'a>) -> (r: Self)
        ensures
            r@ == plain_mode(mode@),
    {
        OwnedFileMode::own(&mode)
    }
}

/// An `info` dictionary with v1 fields.
#[derive(Debug)]
pub struct OwnedInfo {
    /// The name of the file or of the top directory.
    pub name: String,
    /// The length of a piece in bytes.
    pub piece_length: NonZeroU64,
    /// The SHA-1 hashes of all pieces.
    pub pieces: Vec<[u8; 20]>,
    /// Whether the torrent is private.
    pub private: bool,
    /// The files.
    pub file_mode: OwnedFileMode,
}

impl View for OwnedInfo {
    type V = InfoModel<V1Model>;

    open spec fn view(&self) -> InfoModel<V1Model> {
        InfoModel {
            name: self.name@,
            piece_length: self.piece_length@,
            private: self.private,
            source: None,
            kind: V1Model { pieces: arrays(self.pieces@), file_mode: self.file_mode@ },
        }
    }
}

impl OwnedInfo {
    /// The same dictionary, borrowed.
    pub fn as_borrowed(&self) -> (r: Info<'_, InfoV1<'_>>)
        ensures
            r@ == self@,
    {
        Info {
            name: Cow::Borrowed(self.name.as_str()),
            piece_length: self.piece_length,
            private: self.private,
            source: None,
            kind: InfoV1 {
                pieces: Cow::Borrowed(self.pieces.as_slice()),
                file_mode: self.file_mode.as_borrowed(),
            },
        }
    }

    /// The same dictionary, owned.
    fn own(name: &Cow<'_, str>, piece_length: NonZeroU64, private: bool, v1: &InfoV1<'_>) -> (r:
        OwnedInfo)
        ensures
            r@ == (InfoModel {
                name: name@,
                piece_length: piece_length@,
                private,
                source: None,
                kind: V1Model { pieces: v1@.pieces, file_mode: plain_mode(v1@.file_mode) },
            }),
    {
        let pieces: Vec<[u8; 20]> = match &v1.pieces {
            Cow::Borrowed(s) => vstd::slice::slice_to_vec(s),
            Cow::Owned(s) => vstd::slice::slice_to_vec(s.as_slice()),
        };
        assert(arrays(pieces@) =~= arrays(v1.pieces@));
        OwnedInfo {
            name: to_text(name),
            piece_length,
            pieces,
            private,
            file_mode: OwnedFileMode::own(&v1.file_mode),
        }
    }
}

impl<'a> FromSpecImpl<Info<'a, InfoV1<'a>>> for OwnedInfo {
    open spec fn obeys_from_spec() -> bool {
        false
    }

    open spec fn from_spec(v: Info<'a, InfoV1<'a>>) -> Self {
        arbitrary()
    }
}

impl<'a> From<Info<'a, InfoV1<'a>>> for OwnedInfo {
    /// Owns an `info` dictionary, without its source.
    fn from(info: Info<'a, InfoV1<'a>>) -> (r: Self)
        ensures
            r@ == plain_info(info@),
    {
        OwnedInfo::own(&info.name, info.piece_length, info.private, &info.kind)
    }
}

/// The owned form of an `info` dictionary that was read: it must have v1 fields.
pub open spec fn plain_info_of(r: Result<ParsedModel, Rejection>) -> Result<
    InfoModel<V1Model>,
    Rejection,
> {
    match r {
        Ok(ParsedModel::V1(info)) => Ok(plain_info(info)),
        Ok(ParsedModel::Hybrid(info)) => Ok(
            plain_info(
                InfoModel {
                    name: info.name,
                    piece_length: info.piece_length,
                    private: info.private,
                    source: info.source,
                    kind: info.kind.v1,
                },
            ),
        ),
        Ok(ParsedModel::V2(_)) => Err(Rejection::MalformedV1),
        Err(e) => Err(e),
    }
}

impl<'b, 'a> TryFromSpecImpl<&'b Bencode<'a>> for OwnedInfo {
    open spec fn obeys_try_from_spec() -> bool {
        false
    }

    open spec fn try_from_spec(v: &'b Bencode<'a>) -> Result<Self, Error> {
        arbitrary()
    }
}

impl<'b, 'a> TryFrom<&'b Bencode<'a>> for OwnedInfo {
    type Error = Error;

    /// Reads an `info` dictionary with v1 fields.
    fn try_from(bencode: &'b Bencode<'a>) -> (r: Result<Self, Error>)
        ensures
            same(r, plain_info_of(info_of(bencode@))),
    {
        match ParsedInfo::read(bencode) {
            Ok(ParsedInfo::V1(info)) => Ok(
                OwnedInfo::own(&info.name, info.piece_length, info.private, &info.kind),
            ),
            Ok(ParsedInfo::Hybrid(info)) => Ok(
                OwnedInfo::own(&info.name, info.piece_length, info.private, &info.kind.v1),
            ),
            Ok(ParsedInfo::V2(_)) => Err(Error::MalformedV1),
            Err(e) => Err(e),
        }
    }
}

/// A torrent with v1 fields.
#[derive(Debug)]
pub struct OwnedTorrent {
    /// The `info` dictionary.
    pub info: OwnedInfo,
    /// The tracker.
    pub announce: Option<Url>,
    /// The tiers of trackers, which take the place of the tracker.
    pub announce_list: Option<Vec<TrackerTier>>,
    /// The creation date in seconds since the Unix epoch.
    pub creation_date: Option<u64>,
    /// A comment in free form.
    pub comment: Option<String>,
    /// The software that created the torrent file.
    pub created_by: Option<String>,
    /// The encoding of the strings.
    pub encoding: Option<String>,
}

impl View for OwnedTorrent {
    type V = TorrentModel;

    open spec fn view(&self) -> TorrentModel {
        TorrentModel {
            tracker_tiers: merged_tiers(opt_url(self.announce), opt_tiers(self.announce_list)),
            web_seeds: None,
            creation_date: self.creation_date,
            comment: opt_string(self.comment),
            created_by: opt_string(self.created_by),
            encoding: opt_string(self.encoding),
            meta: MetaModel::V1 { info: self.info@ },
        }
    }
}

/// Copies of some tiers.
fn copy_tiers(tiers: &Vec<TrackerTier>) -> (r: Vec<TrackerTier>)
    ensures
        views(r@) == views(tiers@),
{
    let mut r: Vec<TrackerTier> = Vec::with_capacity(tiers.len());
    let mut i: usize = 0;
    while i < tiers.len()
        invariant
            i <= tiers@.len(),
            r@.len() == i,
            forall|k: int| 0 <= k < i ==> (#[trigger] r@[k])@ == tiers@[k]@,
        decreases tiers@.len() - i,
    {
        r.push(TrackerTier(copy_urls(&tiers[i].0)));
        i = i + 1;
    }
    assert(views(r@) =~= views(tiers@));
    r
}

impl OwnedTorrent {
    /// The tiers of trackers. A tracker that stands alone is a tier of its own.
    pub fn trackers(&self) -> (r: Vec<TrackerTier>)
        ensures
            views(r@) == match self@.tracker_tiers {
                Some(tiers) => tiers,
                None => Seq::empty(),
            },
    {
        match (&self.announce, &self.announce_list) {
            (_, Some(tiers)) => copy_tiers(tiers),
            (Some(url), None) => sole_tier(url.clone()),
            (None, None) => {
                let tiers: Vec<TrackerTier> = Vec::new();
                assert(views(tiers@) =~= Seq::empty());
                tiers
            },
        }
    }

    /// The same torrent, borrowed.
    pub fn as_borrowed(&self) -> (r: Torrent<'_>)
        ensures
            r@ == self@,
    {
        let tracker_tiers: Option<Vec<TrackerTier>> = match (&self.announce, &self.announce_list) {
            (None, None) => None,
            _ => Some(self.trackers()),
        };
        Torrent {
            tracker_tiers,
            web_seeds: None,
            creation_date: self.creation_date,
            comment: as_text(&self.comment),
            created_by: as_text(&self.created_by),
            encoding: as_text(&self.encoding),
            meta: TorrentMeta::V1 { info: self.info.as_borrowed() },
        }
    }

    /// The same torrent, owned, if it has v1 fields.
    fn own(torrent: &Torrent<'_>) -> (r: Option<OwnedTorrent>)
        ensures
            match r {
                Some(t) => plain_torrent(torrent@) == Some(t@) && opt_url(t.announce)
                    == first_tracker(torrent@.tracker_tiers),
                None => plain_torrent(torrent@) is None,
            },
    {
        let info: OwnedInfo = match &torrent.meta {
            TorrentMeta::V1 { info } => OwnedInfo::own(
                &info.name,
                info.piece_length,
                info.private,
                &info.kind,
            ),
            TorrentMeta::Hybrid { info, .. } => OwnedInfo::own(
                &info.name,
                info.piece_length,
                info.private,
                &info.kind.v1,
            ),
            TorrentMeta::V2 { .. } => return None,
        };
        let announce: Option<Url> = match &torrent.tracker_tiers {
            Some(tiers) => if tiers.len() > 0 && tiers[0].0.len() > 0 {
                Some(tiers[0].0[0].clone())
            } else {
                None
            },
            None => None,
        };
        let announce_list: Option<Vec<TrackerTier>> = match &torrent.tracker_tiers {
            Some(tiers) => Some(copy_tiers(tiers)),
            None => None,
        };
        Some(
            OwnedTorrent {
                info,
                announce,
                announce_list,
                creation_date: torrent.creation_date,
                comment: to_string(&torrent.comment),
                created_by: to_string(&torrent.created_by),
                encoding: to_string(&torrent.encoding),
            },
        )
    }
}

/// The owned form of what was read: it must have v1 fields.
pub open spec fn plain_torrent_of(r: Result<TorrentModel, Rejection>) -> Result<
    TorrentModel,
    Rejection,
> {
    match r {
        Ok(t) => match plain_torrent(t) {
            Some(t) => Ok(t),
            None => Err(Rejection::MalformedV1),
        },
        Err(e) => Err(e),
    }
}

impl<'a> TryFromSpecImpl<Torrent<'a>> for OwnedTorrent {
    open spec fn obeys_try_from_spec() -> bool {
        false
    }

    open spec fn try_from_spec(v: Torrent<'a>) -> Result<Self, Error> {
        arbitrary()
    }
}

impl<'a> TryFrom<Torrent<'a>> for OwnedTorrent {
    type Error = Error;

    /// Owns a torrent.
    ///
    /// # Errors
    ///
    /// [`Error::MalformedV1`] if it has no v1 fields.
    fn try_from(torrent: Torrent<'a>) -> (r: Result<Self, Error>)
        ensures
            same(r, plain_torrent_of(Ok(torrent@))),
            r matches Ok(t) ==> opt_url(t.announce) == first_tracker(torrent@.tracker_tiers),
    {
        match OwnedTorrent::own(&torrent) {
            Some(t) => Ok(t),
            None => Err(Error::MalformedV1),
        }
    }
}

impl<'b, 'a> TryFromSpecImpl<&'b Bencode<'a>> for OwnedTorrent {
    open spec fn obeys_try_from_spec() -> bool {
        false
    }

    open spec fn try_from_spec(v: &'b Bencode<'a>) -> Result<Self, Error> {
        arbitrary()
    }
}

impl<'b, 'a> TryFrom<&'b Bencode<'a>> for OwnedTorrent {
    type Error = Error;

    /// Reads a torrent with v1 fields.
    fn try_from(bencode: &'b Bencode<'a>) -> (r: Result<Self, Error>)
        ensures
            same(r, plain_torrent_of(torrent_of(bencode@))),
            r matches Ok(t) ==> opt_url(t.announce) == first_tracker(
                torrent_of(bencode@)->Ok_0.tracker_tiers,
            ),
    {
        match Torrent::read(bencode) {
            Ok(torrent) => match OwnedTorrent::own(&torrent) {
                Some(t) => Ok(t),
                None => Err(Error::MalformedV1),
            },
            Err(e) => Err(e),
        }
    }
}

} // verus!
