//! The fields that do not depend on the version of a torrent.
use std::borrow::Cow;

use vstd::arithmetic::power2::{lemma_pow2_strictly_increases, lemma_pow2_unfold, pow2};
use vstd::prelude::*;
use vstd::utf8::{decode_utf8, encode_utf8_decode_utf8, valid_utf8};

use crate::num::{is_power_of_two, NonZeroU64};
use crate::path::{clean, part_text, Component, FilePath, Part};
use crate::sorting::views;
use crate::torrent::builder::error::{Error, Obstacle};
use crate::torrent::builder::layout::{EntryModel, FileEntry, FileModel};
use crate::torrent::builder::pieces::{checked_total, total};
use crate::torrent::builder::tree::component_text;
use crate::torrent::model::{
    HybridModel, InfoModel, LayersModel, MetaModel, TorrentModel, V1Model, V2Model,
};
use crate::torrent::types::{
    opt_text, Info, InfoHybrid, InfoV1, InfoV2, PieceLayers, Torrent, TorrentMeta, TrackerTier,
};
use crate::web::Url;

verus! {

/// The model of [`CommonFields`].
#[verifier::ext_equal]
pub ghost struct CommonModel {
    pub piece_length: Option<u64>,
    pub private: bool,
    pub source: Option<Seq<char>>,
    pub tracker_tiers: Seq<Seq<Seq<char>>>,
    pub web_seeds: Seq<Seq<char>>,
    pub creation_date: Option<u64>,
    pub created_by: Option<Seq<char>>,
    pub comment: Option<Seq<char>>,
}

/// The fields that do not depend on the files, as far as they have been set.
#[derive(Debug)]
pub struct CommonFields {
    pub piece_length: Option<NonZeroU64>,
    pub private: bool,
    pub source: Option<String>,
    pub tracker_tiers: Vec<TrackerTier>,
    pub web_seeds: Vec<Url>,
    pub creation_date: Option<u64>,
    pub created_by: Option<String>,
    pub comment: Option<String>,
}

/// The text of an optional string.
pub open spec fn opt_string(s: Option<String>) -> Option<Seq<char>> {
    match s {
        Some(s) => Some(s@),
        None => None,
    }
}

impl View for CommonFields {
    type V = CommonModel;

    open spec fn view(&self) -> CommonModel {
        CommonModel {
            piece_length: match self.piece_length {
                Some(n) => Some(n@),
                None => None,
            },
            private: self.private,
            source: opt_string(self.source),
            tracker_tiers: views(self.tracker_tiers@),
            web_seeds: views(self.web_seeds@),
            creation_date: self.creation_date,
            created_by: opt_string(self.created_by),
            comment: opt_string(self.comment),
        }
    }
}

/// The model of [`CommonFieldsResolved`].
#[verifier::ext_equal]
pub ghost struct ResolvedModel {
    pub piece_length: u64,
    pub private: bool,
    pub source: Option<Seq<char>>,
    pub tracker_tiers: Option<Seq<Seq<Seq<char>>>>,
    pub web_seeds: Option<Seq<Seq<char>>>,
    pub creation_date: Option<u64>,
    pub created_by: Option<Seq<char>>,
    pub comment: Option<Seq<char>>,
    pub encoding: Option<Seq<char>>,
}

/// The fields that do not depend on the version, all of them decided.
#[derive(Debug)]
pub struct CommonFieldsResolved {
    pub piece_length: NonZeroU64,
    pub private: bool,
    pub source: Option<Cow<'static, str>>,
    pub tracker_tiers: Option<Vec<TrackerTier>>,
    pub web_seeds: Option<Vec<Url>>,
    pub creation_date: Option<u64>,
    pub created_by: Option<Cow<'static, str>>,
    pub comment: Option<Cow<'static, str>>,
    pub encoding: Option<Cow<'static, str>>,
}

impl View for CommonFieldsResolved {
    type V = ResolvedModel;

    open spec fn view(&self) -> ResolvedModel {
        ResolvedModel {
            piece_length: self.piece_length@,
            private: self.private,
            source: opt_text(self.source),
            tracker_tiers: match self.tracker_tiers {
                Some(tiers) => Some(views(tiers@)),
                None => None,
            },
            web_seeds: match self.web_seeds {
                Some(urls) => Some(views(urls@)),
                None => None,
            },
            creation_date: self.creation_date,
            created_by: opt_text(self.created_by),
            comment: opt_text(self.comment),
            encoding: opt_text(self.encoding),
        }
    }
}

/// The lengths of some files.
pub open spec fn file_lengths(files: Seq<FileModel>) -> Seq<u64> {
    Seq::new(files.len(), |i: int| files[i].1)
}

/// The largest power of two that is not larger than a number.
pub open spec fn floor_power(n: int) -> nat {
    pow2(choose|k: nat| #[trigger] pow2(k) <= n < 2 * pow2(k))
}

/// The piece length of a torrent over `total` bytes unless another one is asked for: a power of
/// two that makes for about a thousand pieces, between 16 KiB and 16 MiB.
pub open spec fn default_piece_length(total: int) -> int {
    let p = floor_power(
        if total / 1000 >= 1 {
            total / 1000
        } else {
            1
        },
    ) as int;
    if p < 16384 {
        16384
    } else if p > 16777216 {
        16777216
    } else {
        p
    }
}

/// The tiers that have trackers.
pub open spec fn used_tiers(tiers: Seq<Seq<Seq<char>>>) -> Seq<Seq<Seq<char>>>
    decreases tiers.len(),
{
    if tiers.len() == 0 {
        Seq::empty()
    } else if tiers.last().len() == 0 {
        used_tiers(tiers.drop_last())
    } else {
        used_tiers(tiers.drop_last()).push(tiers.last())
    }
}

/// The piece length of a torrent over `total` bytes.
pub open spec fn chosen_piece_length(c: CommonModel, total: int) -> u64 {
    match c.piece_length {
        Some(n) => n,
        None => default_piece_length(total) as u64,
    }
}

/// The decided fields of a torrent over `total` bytes that is built at the time `now`.
pub open spec fn resolved(c: CommonModel, total: int, now: u64) -> ResolvedModel {
    ResolvedModel {
        piece_length: chosen_piece_length(c, total),
        private: c.private,
        source: c.source,
        tracker_tiers: if used_tiers(c.tracker_tiers).len() == 0 {
            None
        } else {
            Some(used_tiers(c.tracker_tiers))
        },
        web_seeds: if c.web_seeds.len() == 0 {
            None
        } else {
            Some(c.web_seeds)
        },
        creation_date: match c.creation_date {
            Some(date) => Some(date),
            None => Some(now),
        },
        created_by: c.created_by,
        comment: c.comment,
        encoding: Some("UTF-8"@),
    }
}

proof fn lemma_floor_power(n: int, k: nat)
    requires
        pow2(k) <= n < 2 * pow2(k),
    ensures
        floor_power(n) == pow2(k),
{
    let j = choose|j: nat| #[trigger] pow2(j) <= n < 2 * pow2(j);
    if j < k {
        lemma_pow2_unfold(j + 1);
        if j + 1 < k {
            lemma_pow2_strictly_increases(j + 1, k);
        }
    } else if k < j {
        lemma_pow2_unfold(k + 1);
        if k + 1 < j {
            lemma_pow2_strictly_increases(k + 1, j);
        }
    }
}

/// The default piece length is one that v2 allows.
pub proof fn law_default_piece_length_fits_v2(total: int)
    requires
        total >= 0,
    ensures
        is_power_of_two(default_piece_length(total) as nat),
        16384 <= default_piece_length(total) <= 16777216,
{
    let k = choose|k: nat|
        #[trigger] pow2(k) <= (if total / 1000 >= 1 {
            total / 1000
        } else {
            1
        }) < 2 * pow2(k);
    vstd::arithmetic::power2::lemma2_to64();
    assert(pow2(14) == 16384);
    assert(pow2(24) == 16777216);
    assert(is_power_of_two(pow2(k)));
}

/// The piece length of a torrent over `total` bytes unless another one is asked for.
pub(crate) fn guess_piece_length(total: u64) -> (r: NonZeroU64)
    ensures
        r@ == default_piece_length(total as int),
{
    let target: u64 = if total / 1000 >= 1 {
        total / 1000
    } else {
        1
    };
    let mut p: u64 = 1;
    let ghost mut k: nat = 0;
    proof {
        vstd::arithmetic::power2::lemma2_to64();
    }
    while p <= target - p
        invariant
            1 <= p <= target,
            p == pow2(k),
        decreases target - p,
    {
        p = 2 * p;
        proof {
            lemma_pow2_unfold(k + 1);
            k = k + 1;
        }
    }
    proof {
        lemma_floor_power(target as int, k);
    }
    let length: u64 = if p < 16384 {
        16384
    } else if p > 16777216 {
        16777216
    } else {
        p
    };
    NonZeroU64::new(length).unwrap()
}

/// An optional string that is owned.
fn owned(s: Option<String>) -> (r: Option<Cow<'static, str>>)
    ensures
        opt_text(r) == opt_string(s),
{
    match s {
        Some(s) => Some(Cow::Owned(s)),
        None => None,
    }
}

/// Takes the tiers that have no trackers out of a list.
fn take_used(tiers: Vec<TrackerTier>) -> (r: Vec<TrackerTier>)
    ensures
        views(r@) == used_tiers(views(tiers@)),
{
    let ghost all = views(tiers@);
    let ghost given = tiers@;
    let mut r: Vec<TrackerTier> = Vec::new();
    assert(all.take(0) =~= Seq::<Seq<Seq<char>>>::empty());
    assert(views(r@) =~= Seq::<Seq<Seq<char>>>::empty());
    for tier in it: tiers.into_iter()
        invariant
            it.seq() == given,
            all == views(given),
            views(r@) == used_tiers(all.take(it.index() as int)),
    {
        let ghost before = views(r@);
        let ghost i = it.index() as int;
        proof {
            let t = all.take(i + 1);
            assert(t.drop_last() =~= all.take(i));
            assert(t.last() == tier@);
        }
        if !tier.is_empty() {
            r.push(tier);
            assert(views(r@) =~= before.push(tier@));
        }
    }
    assert(all.take(given.len() as int) =~= all);
    r
}

/// The sum of the lengths of some files.
pub(crate) fn sum_lengths(files: &[(FilePath, u64)]) -> (r: Option<u64>)
    ensures
        match r {
            Some(n) => n == total(file_lengths(views(files@))),
            None => total(file_lengths(views(files@))) > u64::MAX,
        },
{
    let mut lengths: Vec<u64> = Vec::with_capacity(files.len());
    let mut i: usize = 0;
    while i < files.len()
        invariant
            i <= files@.len(),
            lengths@.len() == i,
            forall|k: int| 0 <= k < i ==> #[trigger] lengths@[k] == files@[k].1,
        decreases files@.len() - i,
    {
        lengths.push(files[i].1);
        i = i + 1;
    }
    assert(lengths@ =~= file_lengths(views(files@)));
    checked_total(&lengths)
}

/// Decides the fields that do not depend on the version.
pub fn common_fields(common: CommonFields, files: &[(FilePath, u64)], now: u64) -> (r:
    CommonFieldsResolved)
    requires
        common@.piece_length is None ==> total(file_lengths(views(files@))) <= u64::MAX,
    ensures
        r@ == resolved(common@, total(file_lengths(views(files@))), now),
{
    let ghost model = common@;
    let piece_length: NonZeroU64 = match common.piece_length {
        Some(n) => n,
        None => guess_piece_length(sum_lengths(files).unwrap()),
    };
    let creation_date: u64 = match common.creation_date {
        Some(date) => date,
        None => now,
    };
    let tiers: Vec<TrackerTier> = take_used(common.tracker_tiers);
    assert(tiers@.len() == views(tiers@).len());
    let tracker_tiers: Option<Vec<TrackerTier>> = if tiers.len() == 0 {
        None
    } else {
        Some(tiers)
    };
    let web_seeds: Option<Vec<Url>> = if common.web_seeds.len() == 0 {
        None
    } else {
        Some(common.web_seeds)
    };
    let r = CommonFieldsResolved {
        piece_length,
        private: common.private,
        source: owned(common.source),
        tracker_tiers,
        web_seeds,
        creation_date: Some(creation_date),
        created_by: owned(common.created_by),
        comment: owned(common.comment),
        encoding: Some(Cow::Borrowed("UTF-8")),
    };
    assert(r@ =~= resolved(model, total(file_lengths(views(files@))), now));
    r
}

/// The text of the last component of a path.
pub open spec fn last_name(path: Seq<Part>) -> Result<Seq<char>, Obstacle> {
    if path.len() > 0 && valid_utf8(part_text(path.last())) {
        Ok(decode_utf8(part_text(path.last())))
    } else {
        Err(Obstacle::NonUtf8Name)
    }
}

/// The name that a directory gives to a torrent: that of its absolute path, which is `canonical`.
/// A directory above the current one does not give its name, and neither does one that cannot be
/// found.
pub open spec fn shared_name(dir: Seq<Part>, canonical: Option<Seq<Part>>) -> Result<
    Seq<char>,
    Obstacle,
> {
    match canonical {
        Some(path) => if !(clean(dir)[0] is Parent) && path.len() > 0 {
            last_name(path)
        } else {
            Ok("New Torrent"@)
        },
        None => Ok("New Torrent"@),
    }
}

/// The name of a torrent: the one that is asked for, that of a file which was added by itself, or
/// that of the directory that all files lie in.
pub open spec fn torrent_name(
    name: Option<Seq<char>>,
    files: Seq<EntryModel>,
    single_file: bool,
    common_prefix: Seq<Part>,
    canonical: Option<Seq<Part>>,
) -> Result<Seq<char>, Obstacle> {
    match name {
        Some(name) => Ok(name),
        None => if files.len() == 1 && single_file {
            last_name(files[0].disk_path)
        } else {
            shared_name(common_prefix, canonical)
        },
    }
}

/// The text of the last component of a path.
pub(crate) fn text_of_last(path: &FilePath) -> (r: Result<Cow<'static, str>, Error>)
    ensures
        match r {
            Ok(s) => last_name(path@) == Ok::<Seq<char>, Obstacle>(s@),
            Err(e) => last_name(path@) == Err::<Seq<char>, Obstacle>(e@) && e@
                == Obstacle::NonUtf8Name,
        },
{
    let n: usize = path.len();
    if n == 0 {
        return Err(Error::NonUtf8Name);
    }
    match component_text(path.component(n - 1)) {
        Some(text) => {
            proof {
                encode_utf8_decode_utf8(text@);
            }
            Ok(Cow::Owned(text))
        },
        None => Err(Error::NonUtf8Name),
    }
}

/// The name that a directory gives to a torrent.
pub(crate) fn text_of_shared(dir: &FilePath, canonical: &Option<FilePath>) -> (r: Result<
    Cow<'static, str>,
    Error,
>)
    ensures
        match r {
            Ok(s) => shared_name(dir@, opt_path(*canonical)) == Ok::<Seq<char>, Obstacle>(s@),
            Err(e) => shared_name(dir@, opt_path(*canonical)) == Err::<Seq<char>, Obstacle>(e@)
                && e@ == Obstacle::NonUtf8Name,
        },
{
    let cleaned: FilePath = dir.clean();
    let above: bool = matches!(cleaned.component(0), Component::ParentDir);
    match canonical {
        Some(path) => if !above && !path.is_empty() {
            text_of_last(path)
        } else {
            Ok(Cow::Borrowed("New Torrent"))
        },
        None => Ok(Cow::Borrowed("New Torrent")),
    }
}

/// The optional path behind an optional value.
pub open spec fn opt_path(path: Option<FilePath>) -> Option<Seq<Part>> {
    match path {
        Some(path) => Some(path@),
        None => None,
    }
}

/// Decides the name of a torrent.
pub fn resolve_name(
    name: Option<String>,
    files: &[FileEntry],
    single_file: bool,
    common_prefix: &FilePath,
    canonical: &Option<FilePath>,
) -> (r: Result<Cow<'static, str>, Error>)
    ensures
        match r {
            Ok(s) => torrent_name(
                opt_string(name),
                views(files@),
                single_file,
                common_prefix@,
                opt_path(*canonical),
            ) == Ok::<Seq<char>, Obstacle>(s@),
            Err(e) => torrent_name(
                opt_string(name),
                views(files@),
                single_file,
                common_prefix@,
                opt_path(*canonical),
            ) == Err::<Seq<char>, Obstacle>(e@),
        },
{
    match name {
        Some(name) => Ok(Cow::Owned(name)),
        None => {
            if files.len() == 1 && single_file {
                text_of_last(&files[0].disk_path)
            } else {
                text_of_shared(common_prefix, canonical)
            }
        },
    }
}

/// The piece length as a length in memory.
pub fn piece_length_usize(piece_length: NonZeroU64) -> (r: Result<usize, Error>)
    ensures
        match r {
            Ok(n) => n == piece_length@ && n > 0,
            Err(e) => piece_length@ > usize::MAX && e@ == Obstacle::PieceLengthTooLarge(
                piece_length@,
            ),
        },
{
    let n: u64 = piece_length.get();
    if n <= usize::MAX as u64 {
        Ok(n as usize)
    } else {
        Err(Error::PieceLengthTooLarge(piece_length))
    }
}

/// An `info` dictionary made of the decided fields and those of a version.
pub open spec fn info_with<K>(name: Seq<char>, c: ResolvedModel, kind: K) -> InfoModel<K> {
    InfoModel { name, piece_length: c.piece_length, private: c.private, source: c.source, kind }
}

/// A torrent made of the decided fields and what every torrent must have.
pub open spec fn torrent_with(c: ResolvedModel, meta: MetaModel) -> TorrentModel {
    TorrentModel {
        tracker_tiers: c.tracker_tiers,
        web_seeds: c.web_seeds,
        creation_date: c.creation_date,
        comment: c.comment,
        created_by: c.created_by,
        encoding: c.encoding,
        meta,
    }
}

/// What every torrent must have, made of the decided fields and those of one or both versions.
pub open spec fn meta_with(
    name: Seq<char>,
    c: ResolvedModel,
    v1: Option<V1Model>,
    v2: Option<V2Model>,
    layers: Option<LayersModel>,
) -> MetaModel {
    match (v1, v2, layers) {
        (Some(v1), Some(v2), Some(piece_layers)) => MetaModel::Hybrid {
            info: info_with(name, c, HybridModel { v1, v2 }),
            piece_layers,
        },
        (None, Some(v2), Some(piece_layers)) => MetaModel::V2 {
            info: info_with(name, c, v2),
            piece_layers,
        },
        (Some(v1), _, _) => MetaModel::V1 { info: info_with(name, c, v1) },
        _ => arbitrary(),
    }
}

/// The model of an optional value.
pub open spec fn opt_model<T: View>(x: Option<T>) -> Option<T::V> {
    match x {
        Some(x) => Some(x@),
        None => None,
    }
}

/// Puts the parts of a torrent together.
pub fn torrent_from_parts(
    name: Cow<'static, str>,
    common: CommonFieldsResolved,
    v1: Option<InfoV1<'static>>,
    v2: Option<InfoV2<'static>>,
    piece_layers: Option<PieceLayers<'static>>,
) -> (r: Torrent<'static>)
    requires
        v1 is Some || v2 is Some,
        v2 is Some <==> piece_layers is Some,
    ensures
        r@ == torrent_with(
            common@,
            meta_with(name@, common@, opt_model(v1), opt_model(v2), opt_model(piece_layers)),
        ),
{
    let piece_length: NonZeroU64 = common.piece_length;
    let private: bool = common.private;
    let source: Option<Cow<'static, str>> = common.source;
    let meta: TorrentMeta<'static> = match v2 {
        Some(v2) => {
            let piece_layers: PieceLayers<'static> = piece_layers.unwrap();
            match v1 {
                Some(v1) => TorrentMeta::Hybrid {
                    info: Info {
                        name,
                        piece_length,
                        private,
                        source,
                        kind: InfoHybrid { v1, v2 },
                    },
                    piece_layers,
                },
                None => TorrentMeta::V2 {
                    info: Info { name, piece_length, private, source, kind: v2 },
                    piece_layers,
                },
            }
        },
        None => TorrentMeta::V1 {
            info: Info { name, piece_length, private, source, kind: v1.unwrap() },
        },
    };
    Torrent {
        tracker_tiers: common.tracker_tiers,
        web_seeds: common.web_seeds,
        creation_date: common.creation_date,
        comment: common.comment,
        created_by: common.created_by,
        encoding: common.encoding,
        meta,
    }
}

} // verus!
