//! Building a torrent from files.
//!
//! A [`TorrentBuilder`] takes what was found at some paths and what the torrent should say, and
//! gives the torrent once the contents of the files are there. Where the files lie in the torrent,
//! and in which order their contents are needed, is what [`TorrentBuilder::layout`] says.
use std::borrow::Cow;
use std::marker::PhantomData;

use vstd::prelude::*;

use crate::num::NonZeroU64;
use crate::path::{FilePath, Part};
use crate::sorting::{sort, views};
use crate::torrent::builder::common::{
    chosen_piece_length, common_fields, file_lengths, guess_piece_length, meta_with, opt_path,
    opt_string, piece_length_usize, resolve_name, resolved, sum_lengths, torrent_from_parts,
    torrent_name, torrent_with, CommonFields, CommonFieldsResolved, CommonModel, ResolvedModel,
};
use crate::torrent::builder::error::Obstacle;
use crate::torrent::builder::fields::{
    all_hashes, contents_of, hashes_obstacle, hybrid_fields, hybrid_result, padded_parts,
    utf8_names, v1_fields, v1_result, v2_fields, v2_model,
};
use crate::torrent::builder::layout::{
    common_prefix, entries_within, in_order, lemma_order_len, paths_of, remove_common_prefix,
    EntryModel, FileEntry, FileModel,
};
use crate::torrent::builder::merkle::V2_MAX_LENGTH;
use crate::torrent::builder::pieces::{
    lemma_stream_len, lengths_of, lengths_u64, numbers, stream, total, Source,
};
use crate::torrent::builder::state::{BuilderState, Empty, HasFiles};
use crate::torrent::builder::tree::{has_file_name, layers_with, no_clash, utf8_path};
use crate::torrent::model::TorrentModel;
use crate::torrent::read::{is_v2_piece_length, v2_piece_length};
use crate::torrent::types::{
    InfoHybrid, InfoV1, InfoV2, PieceLayers, Torrent, TrackerTier,
};
use crate::web::Url;

pub mod agreement;
pub mod common;
pub mod error;
pub mod fields;
pub mod laws;
pub mod layout;
pub mod merkle;
pub mod pieces;
pub mod read_back;
pub mod state;
pub mod tree;

pub use error::Error;

verus! {

/// What was found at a path.
#[derive(Debug)]
pub enum Listing {
    /// A file of the given length.
    File(FilePath, u64),
    /// A directory with the files that it holds, at any depth.
    Directory(Vec<(FilePath, u64)>),
    /// Something else.
    Other(FilePath),
}

/// The model of a [`Listing`].
pub ghost enum ListingModel {
    File(Seq<Part>, u64),
    Directory(Seq<FileModel>),
    Other(Seq<Part>),
}

impl View for Listing {
    type V = ListingModel;

    open spec fn view(&self) -> ListingModel {
        match self {
            Listing::File(path, length) => ListingModel::File(path@, *length),
            Listing::Directory(files) => ListingModel::Directory(views(files@)),
            Listing::Other(path) => ListingModel::Other(path@),
        }
    }
}

/// The model of a [`TorrentBuilder`].
#[verifier::ext_equal]
pub ghost struct BuilderModel {
    pub files: Seq<FileModel>,
    pub name: Option<Seq<char>>,
    pub common: CommonModel,
    pub single_file: bool,
}

/// A torrent in the making.
#[derive(Debug)]
pub struct TorrentBuilder<S: BuilderState> {
    files: Vec<(FilePath, u64)>,
    name: Option<String>,
    common_fields: CommonFields,
    single_file: bool,
    state: PhantomData<S>,
}

impl<S: BuilderState> View for TorrentBuilder<S> {
    type V = BuilderModel;

    closed spec fn view(&self) -> BuilderModel {
        BuilderModel {
            files: views(self.files@),
            name: opt_string(self.name),
            common: self.common_fields@,
            single_file: self.single_file,
        }
    }
}

/// A builder that nothing has been told yet.
pub open spec fn fresh() -> BuilderModel {
    BuilderModel {
        files: Seq::empty(),
        name: None,
        common: CommonModel {
            piece_length: None,
            private: false,
            source: None,
            tracker_tiers: Seq::empty(),
            web_seeds: Seq::empty(),
            creation_date: None,
            created_by: None,
            comment: None,
        },
        single_file: false,
    }
}

/// The tiers with at least one to which trackers can be added.
pub open spec fn opened(tiers: Seq<Seq<Seq<char>>>) -> Seq<Seq<Seq<char>>> {
    if tiers.len() == 0 {
        seq![Seq::<Seq<char>>::empty()]
    } else {
        tiers
    }
}

/// The tiers after some trackers have been added to the last one.
pub open spec fn with_trackers(tiers: Seq<Seq<Seq<char>>>, trackers: Seq<Seq<char>>) -> Seq<
    Seq<Seq<char>>,
> {
    let ts = opened(tiers);
    ts.update(ts.len() - 1, ts.last() + trackers)
}

/// The tiers when the next tracker should go to a new one. An empty tier is not followed by
/// another.
pub open spec fn with_next_tier(tiers: Seq<Seq<Seq<char>>>) -> Seq<Seq<Seq<char>>> {
    let ts = opened(tiers);
    if ts.last().len() == 0 {
        ts
    } else {
        ts.push(Seq::empty())
    }
}

/// The files after what was found at a path has been added, and whether there is only one, which
/// was added by itself.
pub open spec fn with_found(files: Seq<FileModel>, found: ListingModel) -> Result<
    (Seq<FileModel>, bool),
    Obstacle,
> {
    match found {
        ListingModel::File(path, length) => Ok(
            (files.push((path, length)), files.len() == 0),
        ),
        ListingModel::Directory(more) => if more.len() == 0 {
            Err(Obstacle::NoFiles)
        } else {
            Ok((files + more, false))
        },
        ListingModel::Other(path) => Err(Obstacle::UnsupportedFileType(path)),
    }
}

/// The files after what was found at some paths has been added. A directory without files adds
/// nothing. The first error counts.
pub open spec fn with_all_found(
    files: Seq<FileModel>,
    single_file: bool,
    found: Seq<ListingModel>,
) -> Result<(Seq<FileModel>, bool), Obstacle>
    decreases found.len(),
{
    if found.len() == 0 {
        Ok((files, single_file))
    } else {
        match with_all_found(files, single_file, found.drop_last()) {
            Err(o) => Err(o),
            Ok((files, single_file)) => match with_found(files, found.last()) {
                Err(Obstacle::NoFiles) => Ok((files, single_file)),
                r => r,
            },
        }
    }
}

/// A builder with other files.
pub open spec fn with_files(
    b: BuilderModel,
    r: Result<(Seq<FileModel>, bool), Obstacle>,
) -> Result<BuilderModel, Obstacle> {
    match r {
        Ok((files, single_file)) => Ok(BuilderModel { files, single_file, ..b }),
        Err(o) => Err(o),
    }
}

/// A builder after what was found at a path has been added.
pub open spec fn added(b: BuilderModel, found: ListingModel) -> Result<BuilderModel, Obstacle> {
    with_files(b, with_found(b.files, found))
}

/// A builder after what was found at some paths has been added.
pub open spec fn added_all(b: BuilderModel, found: Seq<ListingModel>) -> Result<
    BuilderModel,
    Obstacle,
> {
    with_files(b, with_all_found(b.files, b.single_file, found))
}

/// A builder after what was found at some paths has been added, which must have been something.
pub open spec fn some_added(b: BuilderModel, found: Seq<ListingModel>) -> Result<
    BuilderModel,
    Obstacle,
> {
    match added_all(b, found) {
        Ok(c) => if c.files.len() == 0 {
            Err(Obstacle::NoFiles)
        } else {
            Ok(c)
        },
        Err(o) => Err(o),
    }
}

/// A result is the one that the model has.
pub open spec fn agrees<S: BuilderState>(
    r: Result<TorrentBuilder<S>, Error>,
    model: Result<BuilderModel, Obstacle>,
) -> bool {
    match r {
        Ok(b) => model == Ok::<BuilderModel, Obstacle>(b@),
        Err(e) => model == Err::<BuilderModel, Obstacle>(e@),
    }
}

proof fn lemma_found_error(
    files: Seq<FileModel>,
    single_file: bool,
    found: Seq<ListingModel>,
    k: int,
)
    requires
        0 <= k <= found.len(),
        with_all_found(files, single_file, found.take(k)) is Err,
    ensures
        with_all_found(files, single_file, found) == with_all_found(
            files,
            single_file,
            found.take(k),
        ),
    decreases found.len() - k,
{
    if k < found.len() {
        assert(found.take(k + 1).drop_last() =~= found.take(k));
        lemma_found_error(files, single_file, found, k + 1);
    } else {
        assert(found.take(k) =~= found);
    }
}

/// Adds what was found at a path to some files, and says whether there is only one, which was
/// added by itself.
pub(crate) fn add_found(files: &mut Vec<(FilePath, u64)>, found: Listing) -> (r: Result<bool, Error>)
    ensures
        match r {
            Ok(single_file) => with_found(views(old(files)@), found@) == Ok::<
                (Seq<FileModel>, bool),
                Obstacle,
            >((views(final(files)@), single_file)) && final(files)@.len() > old(files)@.len(),
            Err(e) => with_found(views(old(files)@), found@) == Err::<
                (Seq<FileModel>, bool),
                Obstacle,
            >(e@) && final(files)@ == old(files)@,
        },
{
    let ghost before = views(files@);
    match found {
        Listing::File(path, length) => {
            let ghost p = path@;
            files.push((path, length));
            assert(views(files@) =~= before.push((p, length)));
            Ok(files.len() == 1)
        },
        Listing::Directory(more) => {
            if more.len() == 0 {
                return Err(Error::NoFiles);
            }
            let mut more: Vec<(FilePath, u64)> = more;
            let ghost m = views(more@);
            files.append(&mut more);
            assert(views(files@) =~= before + m);
            Ok(false)
        },
        Listing::Other(path) => Err(Error::UnsupportedFileType(path)),
    }
}

/// Adds what was found at some paths to some files.
pub(crate) fn add_all_found(files: Vec<(FilePath, u64)>, single_file: bool, found: Vec<Listing>) -> (r: Result<
    (Vec<(FilePath, u64)>, bool),
    Error,
>)
    ensures
        match r {
            Ok((all, single)) => with_all_found(views(files@), single_file, views(found@)) == Ok::<
                (Seq<FileModel>, bool),
                Obstacle,
            >((views(all@), single)) && all@.len() >= files@.len(),
            Err(e) => with_all_found(views(files@), single_file, views(found@)) == Err::<
                (Seq<FileModel>, bool),
                Obstacle,
            >(e@),
        },
{
    let ghost all = views(found@);
    let ghost given = found@;
    let ghost start = views(files@);
    let mut r: Vec<(FilePath, u64)> = files;
    let mut single: bool = single_file;
    assert(all.take(0) =~= Seq::<ListingModel>::empty());
    for listing in it: found.into_iter()
        invariant
            it.seq() == given,
            all == views(given),
            start == views(files@),
            given == found@,
            with_all_found(start, single_file, all.take(it.index() as int)) == Ok::<
                (Seq<FileModel>, bool),
                Obstacle,
            >((views(r@), single)),
            r@.len() >= start.len(),
    {
        let ghost i = it.index() as int;
        proof {
            let t = all.take(i + 1);
            assert(t.drop_last() =~= all.take(i));
            assert(t.last() == listing@);
        }
        match add_found(&mut r, listing) {
            Ok(s) => {
                single = s;
            },
            Err(Error::NoFiles) => {},
            Err(e) => {
                proof {
                    lemma_found_error(start, single_file, all, i + 1);
                }
                return Err(e);
            },
        }
    }
    assert(all.take(given.len() as int) =~= all);
    Ok((r, single))
}

impl<S: BuilderState> TorrentBuilder<S> {
    #[verifier::type_invariant]
    spec fn inv(self) -> bool {
        S::has_files() == (self.files@.len() > 0)
    }

    /// Sets the name. Otherwise it is that of the file or directory.
    #[must_use]
    pub fn name(self, name: &str) -> (r: Self)
        ensures
            r@ == (BuilderModel { name: Some(name@), ..self@ }),
    {
        let mut b = self;
        proof {
            use_type_invariant(&b);
        }
        b.name = Some(name.to_owned());
        b
    }

    /// Sets the piece length. Otherwise it is chosen by the total length of the files.
    #[must_use]
    pub fn piece_length(self, piece_length: NonZeroU64) -> (r: Self)
        ensures
            r@ == (BuilderModel {
                common: CommonModel { piece_length: Some(piece_length@), ..self@.common },
                ..self@
            }),
    {
        let mut b = self;
        proof {
            use_type_invariant(&b);
        }
        b.common_fields.piece_length = Some(piece_length);
        b
    }

    /// Makes the torrent private.
    #[must_use]
    pub fn private(self) -> (r: Self)
        ensures
            r@ == (BuilderModel {
                common: CommonModel { private: true, ..self@.common },
                ..self@
            }),
    {
        let mut b = self;
        proof {
            use_type_invariant(&b);
        }
        b.common_fields.private = true;
        b
    }

    /// Sets the source.
    #[must_use]
    pub fn source(self, source: &str) -> (r: Self)
        ensures
            r@ == (BuilderModel {
                common: CommonModel { source: Some(source@), ..self@.common },
                ..self@
            }),
    {
        let mut b = self;
        proof {
            use_type_invariant(&b);
        }
        b.common_fields.source = Some(source.to_owned());
        b
    }

    /// Sets the creation date. Otherwise it is the time at which the torrent is built.
    #[must_use]
    pub fn creation_date(self, creation_date: u64) -> (r: Self)
        ensures
            r@ == (BuilderModel {
                common: CommonModel { creation_date: Some(creation_date), ..self@.common },
                ..self@
            }),
    {
        let mut b = self;
        proof {
            use_type_invariant(&b);
        }
        b.common_fields.creation_date = Some(creation_date);
        b
    }

    /// Sets the software that created the torrent.
    #[must_use]
    pub fn created_by(self, created_by: &str) -> (r: Self)
        ensures
            r@ == (BuilderModel {
                common: CommonModel { created_by: Some(created_by@), ..self@.common },
                ..self@
            }),
    {
        let mut b = self;
        proof {
            use_type_invariant(&b);
        }
        b.common_fields.created_by = Some(created_by.to_owned());
        b
    }

    /// Sets the comment.
    #[must_use]
    pub fn comment(self, comment: &str) -> (r: Self)
        ensures
            r@ == (BuilderModel {
                common: CommonModel { comment: Some(comment@), ..self@.common },
                ..self@
            }),
    {
        let mut b = self;
        proof {
            use_type_invariant(&b);
        }
        b.common_fields.comment = Some(comment.to_owned());
        b
    }

    /// Adds a tracker to the last tier.
    #[must_use]
    pub fn add_tracker(self, tracker: Url) -> (r: Self)
        ensures
            r@ == (BuilderModel {
                common: CommonModel {
                    tracker_tiers: with_trackers(self@.common.tracker_tiers, seq![tracker@]),
                    ..self@.common
                },
                ..self@
            }),
    {
        let ghost url = tracker@;
        let mut trackers: Vec<Url> = Vec::new();
        trackers.push(tracker);
        assert(views(trackers@) =~= seq![url]);
        self.add_trackers(trackers)
    }

    /// Adds some trackers to the last tier.
    #[must_use]
    pub fn add_trackers(self, trackers: Vec<Url>) -> (r: Self)
        ensures
            r@ == (BuilderModel {
                common: CommonModel {
                    tracker_tiers: with_trackers(
                        self@.common.tracker_tiers,
                        views(trackers@),
                    ),
                    ..self@.common
                },
                ..self@
            }),
    {
        let mut b = self;
        proof {
            use_type_invariant(&b);
        }
        let mut tiers: Vec<TrackerTier> = Vec::new();
        std::mem::swap(&mut tiers, &mut b.common_fields.tracker_tiers);
        b.common_fields.tracker_tiers = append_trackers(tiers, trackers);
        b
    }

    /// Lets the next tracker go to a new tier.
    #[must_use]
    pub fn next_tracker_tier(self) -> (r: Self)
        ensures
            r@ == (BuilderModel {
                common: CommonModel {
                    tracker_tiers: with_next_tier(self@.common.tracker_tiers),
                    ..self@.common
                },
                ..self@
            }),
    {
        let mut b = self;
        proof {
            use_type_invariant(&b);
        }
        let mut tiers: Vec<TrackerTier> = Vec::new();
        std::mem::swap(&mut tiers, &mut b.common_fields.tracker_tiers);
        b.common_fields.tracker_tiers = start_tier(tiers);
        b
    }

    /// Adds a web seed.
    #[must_use]
    pub fn add_web_seed(self, seed: Url) -> (r: Self)
        ensures
            r@ == (BuilderModel {
                common: CommonModel {
                    web_seeds: self@.common.web_seeds.push(seed@),
                    ..self@.common
                },
                ..self@
            }),
    {
        let ghost before = self@.common.web_seeds;
        let mut b = self;
        proof {
            use_type_invariant(&b);
        }
        let mut seeds: Vec<Url> = Vec::new();
        std::mem::swap(&mut seeds, &mut b.common_fields.web_seeds);
        let ghost url = seed@;
        seeds.push(seed);
        assert(views(seeds@) =~= before.push(url));
        b.common_fields.web_seeds = seeds;
        b
    }

    /// Adds some web seeds.
    #[must_use]
    pub fn add_web_seeds(self, seeds: Vec<Url>) -> (r: Self)
        ensures
            r@ == (BuilderModel {
                common: CommonModel {
                    web_seeds: self@.common.web_seeds + views(seeds@),
                    ..self@.common
                },
                ..self@
            }),
    {
        let ghost before = self@.common.web_seeds;
        let ghost more = views(seeds@);
        let mut b = self;
        proof {
            use_type_invariant(&b);
        }
        let mut more_seeds: Vec<Url> = seeds;
        let mut all: Vec<Url> = Vec::new();
        std::mem::swap(&mut all, &mut b.common_fields.web_seeds);
        all.append(&mut more_seeds);
        assert(views(all@) =~= before + more);
        b.common_fields.web_seeds = all;
        b
    }

    /// The same builder with other files.
    fn into_state(self, files: Vec<(FilePath, u64)>, single_file: bool) -> (r: TorrentBuilder<
        HasFiles,
    >)
        requires
            files@.len() > 0,
        ensures
            r@ == (BuilderModel { files: views(files@), single_file, ..self@ }),
    {
        TorrentBuilder {
            files,
            name: self.name,
            common_fields: self.common_fields,
            single_file,
            state: PhantomData,
        }
    }
}

/// Adds some trackers to the last tier.
pub(crate) fn append_trackers(tiers: Vec<TrackerTier>, trackers: Vec<Url>) -> (r: Vec<TrackerTier>)
    ensures
        views(r@) == with_trackers(views(tiers@), views(trackers@)),
{
    let ghost before = views(tiers@);
    let ghost more = views(trackers@);
    let mut tiers: Vec<TrackerTier> = tiers;
    let mut trackers: Vec<Url> = trackers;
    let mut last: TrackerTier = take_last(&mut tiers);
    let ghost rest = views(tiers@);
    let ghost old_last = last@;
    last.0.append(&mut trackers);
    assert(last@ =~= old_last + more);
    tiers.push(last);
    proof {
        let ts = opened(before);
        assert(views(tiers@) =~= rest.push(old_last + more));
        assert(rest.push(old_last) == ts);
        assert(views(tiers@) =~= ts.update(ts.len() - 1, ts.last() + more));
    }
    tiers
}

/// Starts a new tier unless the last one is empty.
pub(crate) fn start_tier(tiers: Vec<TrackerTier>) -> (r: Vec<TrackerTier>)
    ensures
        views(r@) == with_next_tier(views(tiers@)),
{
    let ghost before = views(tiers@);
    let mut tiers: Vec<TrackerTier> = tiers;
    let last: TrackerTier = take_last(&mut tiers);
    let ghost rest = views(tiers@);
    let ghost ts = opened(before);
    assert(rest.push(last@) == ts);
    let full: bool = !last.is_empty();
    tiers.push(last);
    assert(views(tiers@) =~= ts);
    if full {
        tiers.push(TrackerTier::default());
        assert(views(tiers@) =~= ts.push(Seq::empty()));
    }
    tiers
}

/// Takes the last tier out of a list, or makes one.
fn take_last(tiers: &mut Vec<TrackerTier>) -> (r: TrackerTier)
    ensures
        views(final(tiers)@).push(r@) == opened(views(old(tiers)@)),
{
    let ghost before = views(tiers@);
    match tiers.pop() {
        Some(tier) => {
            assert(views(tiers@).push(tier@) =~= before);
            tier
        },
        None => {
            let tier = TrackerTier::default();
            assert(views(tiers@).push(tier@) =~= opened(before));
            tier
        },
    }
}

impl<'a> Torrent<'a> {
    /// A builder without files.
    pub fn builder() -> (r: TorrentBuilder<Empty>)
        ensures
            r@ == fresh(),
    {
        TorrentBuilder::<Empty>::new()
    }
}

impl Default for TorrentBuilder<Empty> {
    fn default() -> (r: Self)
        ensures
            r@ == fresh(),
    {
        Self::new()
    }
}

impl TorrentBuilder<Empty> {
    /// A builder without files.
    #[must_use]
    pub fn new() -> (r: Self)
        ensures
            r@ == fresh(),
    {
        let r = TorrentBuilder {
            files: Vec::new(),
            name: None,
            common_fields: CommonFields {
                piece_length: None,
                private: false,
                source: None,
                tracker_tiers: Vec::new(),
                web_seeds: Vec::new(),
                creation_date: None,
                created_by: None,
                comment: None,
            },
            single_file: false,
            state: PhantomData,
        };
        assert(r@ =~= fresh());
        r
    }

    /// Adds what was found at a path.
    ///
    /// # Errors
    ///
    /// [`Error::NoFiles`] if it is a directory without files, and [`Error::UnsupportedFileType`]
    /// if it is neither a file nor a directory.
    pub fn add_path(self, found: Listing) -> (r: Result<TorrentBuilder<HasFiles>, Error>)
        ensures
            agrees(r, added(self@, found@)),
    {
        let mut files: Vec<(FilePath, u64)> = Vec::new();
        proof {
            use_type_invariant(&self);
            assert(self@.files =~= views(files@));
        }
        match add_found(&mut files, found) {
            Ok(single_file) => Ok(self.into_state(files, single_file)),
            Err(e) => Err(e),
        }
    }

    /// Adds what was found at some paths. A directory without files adds nothing.
    ///
    /// # Errors
    ///
    /// [`Error::UnsupportedFileType`] if something is neither a file nor a directory, and
    /// [`Error::NoFiles`] if there is no file at all.
    pub fn add_paths(self, found: Vec<Listing>) -> (r: Result<TorrentBuilder<HasFiles>, Error>)
        ensures
            agrees(r, some_added(self@, views(found@))),
    {
        let files: Vec<(FilePath, u64)> = Vec::new();
        proof {
            use_type_invariant(&self);
            assert(self@.files =~= views(files@));
        }
        match add_all_found(files, self.single_file, found) {
            Ok((files, single_file)) => {
                if files.len() == 0 {
                    Err(Error::NoFiles)
                } else {
                    Ok(self.into_state(files, single_file))
                }
            },
            Err(e) => Err(e),
        }
    }
}

/// What the machine says when a torrent is built.
#[derive(Debug)]
pub struct Disk<'c> {
    /// The time, in seconds since the Unix epoch.
    pub now: u64,
    /// The absolute path of the directory that all files lie in, if it could be found.
    pub canonical_prefix: Option<FilePath>,
    /// The contents of the files, in the order of the layout.
    pub contents: Vec<&'c [u8]>,
}

/// The model of a [`Disk`].
#[verifier::ext_equal]
pub ghost struct DiskModel {
    pub now: u64,
    pub canonical_prefix: Option<Seq<Part>>,
    pub contents: Seq<Seq<u8>>,
}

impl<'c> View for Disk<'c> {
    type V = DiskModel;

    open spec fn view(&self) -> DiskModel {
        DiskModel {
            now: self.now,
            canonical_prefix: opt_path(self.canonical_prefix),
            contents: contents_of(self.contents@),
        }
    }
}

/// Where the files of a torrent lie.
#[derive(Debug)]
pub struct Layout {
    /// The directory that all files lie in.
    pub common_prefix: FilePath,
    /// The files in the order in which the torrent lists them.
    pub files: Vec<FileEntry>,
}

/// The files of a torrent, in order.
pub open spec fn entries_of(b: BuilderModel) -> Seq<EntryModel> {
    entries_within(in_order(b.files))
}

/// The directory that all files of a torrent lie in.
pub open spec fn prefix_of(b: BuilderModel) -> Seq<Part> {
    common_prefix(paths_of(in_order(b.files)))
}

/// The total length of the files.
pub open spec fn total_of(b: BuilderModel) -> int {
    total(file_lengths(in_order(b.files)))
}

/// The decided fields of a torrent.
pub open spec fn fields_of(b: BuilderModel, d: DiskModel) -> ResolvedModel {
    resolved(b.common, total_of(b), d.now)
}

/// The name of a torrent.
pub open spec fn name_of(b: BuilderModel, d: DiskModel) -> Result<Seq<char>, Obstacle> {
    torrent_name(b.name, entries_of(b), b.single_file, prefix_of(b), d.canonical_prefix)
}

/// The contents are those of the files.
pub open spec fn contents_fit(b: BuilderModel, d: DiskModel) -> bool {
    &&& d.contents.len() == entries_of(b).len()
    &&& forall|i: int|
        0 <= i < d.contents.len() ==> (#[trigger] d.contents[i]).len() == entries_of(b)[i].length
}

/// The v1-only torrent, or what stands in the way of it.
pub open spec fn built_v1(b: BuilderModel, d: DiskModel) -> Result<TorrentModel, Obstacle> {
    let c = fields_of(b, d);
    if c.piece_length > usize::MAX {
        Err(Obstacle::PieceLengthTooLarge(c.piece_length))
    } else {
        match v1_result(entries_of(b), d.contents, c.piece_length as usize, b.single_file) {
            Err(o) => Err(o),
            Ok(v1) => match name_of(b, d) {
                Err(o) => Err(o),
                Ok(name) => Ok(torrent_with(c, meta_with(name, c, Some(v1), None, None))),
            },
        }
    }
}

/// The v2-only torrent, or what stands in the way of it.
pub open spec fn built_v2(b: BuilderModel, d: DiskModel) -> Result<TorrentModel, Obstacle> {
    let c = fields_of(b, d);
    let n = c.piece_length as int;
    if !v2_piece_length(c.piece_length) {
        Err(Obstacle::InvalidPieceLengthV2(c.piece_length))
    } else if c.piece_length > usize::MAX {
        Err(Obstacle::PieceLengthTooLarge(c.piece_length))
    } else {
        match hashes_obstacle(lengths_u64(d.contents)) {
            Some(o) => Err(o),
            None => match name_of(b, d) {
                Err(o) => Err(o),
                Ok(name) => Ok(
                    torrent_with(
                        c,
                        meta_with(
                            name,
                            c,
                            None,
                            Some(v2_model(entries_of(b), d.contents, n)),
                            Some(layers_with(all_hashes(d.contents, n))),
                        ),
                    ),
                ),
            },
        }
    }
}

/// The hybrid torrent, or what stands in the way of it.
pub open spec fn built_hybrid(b: BuilderModel, d: DiskModel) -> Result<TorrentModel, Obstacle> {
    let c = fields_of(b, d);
    if !v2_piece_length(c.piece_length) {
        Err(Obstacle::InvalidPieceLengthV2(c.piece_length))
    } else if c.piece_length > usize::MAX {
        Err(Obstacle::PieceLengthTooLarge(c.piece_length))
    } else {
        match hybrid_result(entries_of(b), d.contents, c.piece_length as usize, b.single_file) {
            Err(o) => Err(o),
            Ok((kind, layers)) => match name_of(b, d) {
                Err(o) => Err(o),
                Ok(name) => Ok(
                    torrent_with(
                        c,
                        meta_with(name, c, Some(kind.v1), Some(kind.v2), Some(layers)),
                    ),
                ),
            },
        }
    }
}

/// A result is the one that the model has.
pub open spec fn builds(
    r: Result<Torrent<'static>, Error>,
    model: Result<TorrentModel, Obstacle>,
) -> bool {
    match r {
        Ok(t) => model == Ok::<TorrentModel, Obstacle>(t@),
        Err(e) => model == Err::<TorrentModel, Obstacle>(e@),
    }
}

/// The files of a torrent have a place in a file tree.
pub open spec fn files_fit(files: Seq<EntryModel>) -> bool {
    &&& no_clash(files)
    &&& forall|i: int|
        0 <= i < files.len() ==> has_file_name((#[trigger] files[i]).meta_path) && files[i].length
            <= V2_MAX_LENGTH
}

/// What a v1-only torrent needs: the sum of the lengths can be counted.
pub open spec fn fit_for_v1(b: BuilderModel, d: DiskModel) -> bool {
    contents_fit(b, d) && total_of(b) <= u64::MAX
}

/// What a v2-only torrent needs: if the piece length is to be guessed, the sum of the lengths can
/// be counted. If the piece length is allowed, the files have a place in the file tree, and their
/// names are valid UTF-8.
pub open spec fn fit_for_v2(b: BuilderModel, d: DiskModel) -> bool {
    &&& contents_fit(b, d)
    &&& b.common.piece_length is None ==> total_of(b) <= u64::MAX
    &&& v2_piece_length(fields_of(b, d).piece_length) ==> files_fit(entries_of(b)) && utf8_names(
        entries_of(b),
    )
}

/// What a hybrid torrent needs: if the piece length is to be guessed, the sum of the lengths can
/// be counted. If the piece length is allowed, the sum of the lengths with padding can be counted,
/// and the files have a place in the file tree.
pub open spec fn fit_for_hybrid(b: BuilderModel, d: DiskModel) -> bool {
    &&& contents_fit(b, d)
    &&& b.common.piece_length is None ==> total_of(b) <= u64::MAX
    &&& v2_piece_length(fields_of(b, d).piece_length) ==> files_fit(entries_of(b)) && stream(
        padded_parts(d.contents, fields_of(b, d).piece_length as int),
    ).len() <= u64::MAX
}

/// Sources with the given contents.
fn as_sources<'c>(contents: &[&'c [u8]]) -> (r: Vec<Source<'c>>)
    ensures
        views(r@) == contents_of(contents@),
{
    let mut r: Vec<Source<'c>> = Vec::with_capacity(contents.len());
    let mut i: usize = 0;
    while i < contents.len()
        invariant
            i <= contents@.len(),
            r@.len() == i,
            forall|k: int| 0 <= k < i ==> (#[trigger] r@[k])@ == contents@[k]@,
        decreases contents@.len() - i,
    {
        r.push(Source::Bytes(contents[i]));
        i = i + 1;
    }
    assert(views(r@) =~= contents_of(contents@));
    r
}

/// Copies of some files.
pub(crate) fn copy_files(files: &[(FilePath, u64)]) -> (r: Vec<(FilePath, u64)>)
    ensures
        views(r@) == views(files@),
{
    let mut r: Vec<(FilePath, u64)> = Vec::with_capacity(files.len());
    let mut i: usize = 0;
    while i < files.len()
        invariant
            i <= files@.len(),
            r@.len() == i,
            forall|k: int| 0 <= k < i ==> (#[trigger] r@[k])@ == files@[k]@,
        decreases files@.len() - i,
    {
        r.push((files[i].0.duplicate(), files[i].1));
        i = i + 1;
    }
    assert(views(r@) =~= views(files@));
    r
}

/// Sorts some files and takes away the directory that they all lie in.
fn lay_out(files: Vec<(FilePath, u64)>) -> (r: (Vec<(FilePath, u64)>, Layout))
    requires
        files@.len() > 0,
    ensures
        views(r.0@) == in_order(views(files@)),
        r.1.common_prefix@ == common_prefix(paths_of(in_order(views(files@)))),
        views(r.1.files@) == entries_within(in_order(views(files@))),
        r.1.files@.len() == files@.len(),
{
    let ghost before = views(files@);
    let sorted: Vec<(FilePath, u64)> = sort(files);
    proof {
        lemma_order_len(before);
        assert(views(sorted@).len() == sorted@.len());
    }
    let (common_prefix, files) = remove_common_prefix(&sorted);
    assert(views(files@).len() == files@.len());
    (sorted, Layout { common_prefix, files })
}

/// The contents of the files are as long as the files.
proof fn lemma_total(b: BuilderModel, d: DiskModel)
    requires
        contents_fit(b, d),
    ensures
        stream(d.contents).len() == total_of(b),
{
    lemma_stream_len(d.contents);
    assert(numbers(file_lengths(in_order(b.files))) =~= lengths_of(d.contents)) by {
        assert forall|i: int| 0 <= i < d.contents.len() implies lengths_of(d.contents)[i]
            == numbers(file_lengths(in_order(b.files)))[i] by {
            assert(d.contents[i].len() == entries_of(b)[i].length);
        }
    }
}

impl TorrentBuilder<HasFiles> {
    /// A builder with what was found at a path.
    ///
    /// # Errors
    ///
    /// Those of [`TorrentBuilder::add_path`].
    pub fn from_path(found: Listing) -> (r: Result<Self, Error>)
        ensures
            agrees(r, added(fresh(), found@)),
    {
        TorrentBuilder::<Empty>::new().add_path(found)
    }

    /// A builder with what was found at some paths.
    ///
    /// # Errors
    ///
    /// Those of [`TorrentBuilder::add_paths`].
    pub fn from_paths(found: Vec<Listing>) -> (r: Result<Self, Error>)
        ensures
            agrees(r, some_added(fresh(), views(found@))),
    {
        TorrentBuilder::<Empty>::new().add_paths(found)
    }

    /// Adds what was found at a path. A directory without files adds nothing.
    ///
    /// # Errors
    ///
    /// [`Error::UnsupportedFileType`] if it is neither a file nor a directory.
    pub fn add_path(self, found: Listing) -> (r: Result<Self, Error>)
        ensures
            agrees(r, added_all(self@, seq![found@])),
    {
        let ghost one = found@;
        let mut all: Vec<Listing> = Vec::new();
        all.push(found);
        assert(views(all@) =~= seq![one]);
        self.add_paths(all)
    }

    /// Adds what was found at some paths. A directory without files adds nothing.
    ///
    /// # Errors
    ///
    /// [`Error::UnsupportedFileType`] if something is neither a file nor a directory.
    pub fn add_paths(self, found: Vec<Listing>) -> (r: Result<Self, Error>)
        ensures
            agrees(r, added_all(self@, views(found@))),
    {
        proof {
            use_type_invariant(&self);
        }
        match add_all_found(self.files, self.single_file, found) {
            Ok((files, single_file)) => Ok(
                TorrentBuilder {
                    files,
                    name: self.name,
                    common_fields: self.common_fields,
                    single_file,
                    state: PhantomData,
                },
            ),
            Err(e) => Err(e),
        }
    }

    /// Where the files lie in the torrent, and in which order their contents are needed.
    pub fn layout(&self) -> (r: Layout)
        ensures
            r.common_prefix@ == prefix_of(self@),
            views(r.files@) == entries_of(self@),
    {
        proof {
            use_type_invariant(self);
        }
        let files: Vec<(FilePath, u64)> = copy_files(&self.files);
        assert(views(files@).len() == files@.len());
        assert(views(self.files@).len() == self.files@.len());
        let (_, layout) = lay_out(files);
        layout
    }

    /// The piece length that the torrent will have. There is none if it should be chosen by the
    /// total length of the files, and that is too large.
    pub fn chosen_piece_length(&self) -> (r: Option<NonZeroU64>)
        ensures
            match r {
                Some(n) => n@ == chosen_piece_length(self@.common, total_of(self@)) && (
                self@.common.piece_length is None ==> total_of(self@) <= u64::MAX),
                None => self@.common.piece_length is None && total_of(self@) > u64::MAX,
            },
    {
        match self.common_fields.piece_length {
            Some(n) => Some(n),
            None => {
                let sorted: Vec<(FilePath, u64)> = sort(copy_files(&self.files));
                match sum_lengths(&sorted) {
                    Some(total) => Some(guess_piece_length(total)),
                    None => None,
                }
            },
        }
    }

    /// Builds a hybrid torrent.
    ///
    /// # Errors
    ///
    /// Those of [`TorrentBuilder::build_hybrid`].
    pub fn build(self, disk: &Disk<'_>) -> (r: Result<Torrent<'static>, Error>)
        requires
            fit_for_hybrid(self@, disk@),
        ensures
            builds(r, built_hybrid(self@, disk@)),
    {
        self.build_hybrid(disk)
    }

    /// Builds a v1-only torrent.
    ///
    /// # Errors
    ///
    /// [`Error::PieceLengthTooLarge`], [`Error::NonUtf8Name`], [`Error::PieceLengthTooSmall`] and
    /// [`Error::FileTooLarge`].
    pub fn build_v1(self, disk: &Disk<'_>) -> (r: Result<Torrent<'static>, Error>)
        requires
            fit_for_v1(self@, disk@),
        ensures
            builds(r, built_v1(self@, disk@)),
    {
        proof {
            use_type_invariant(&self);
            lemma_total(self@, disk@);
        }
        let (sorted, layout) = lay_out(self.files);
        let common: CommonFieldsResolved = common_fields(self.common_fields, &sorted, disk.now);
        let piece_length: usize = match piece_length_usize(common.piece_length) {
            Ok(n) => n,
            Err(e) => return Err(e),
        };
        let sources: Vec<Source<'_>> = as_sources(&disk.contents);
        let v1: InfoV1<'static> = match v1_fields(
            &layout.files,
            &sources,
            piece_length,
            self.single_file,
        ) {
            Ok(v1) => v1,
            Err(e) => return Err(e),
        };
        let name: Cow<'static, str> = match resolve_name(
            self.name,
            &layout.files,
            self.single_file,
            &layout.common_prefix,
            &disk.canonical_prefix,
        ) {
            Ok(name) => name,
            Err(e) => return Err(e),
        };
        Ok(torrent_from_parts(name, common, Some(v1), None, None))
    }

    /// Builds a v2-only torrent.
    ///
    /// # Errors
    ///
    /// [`Error::InvalidPieceLengthV2`], [`Error::PieceLengthTooLarge`], [`Error::FileTooLarge`]
    /// and [`Error::NonUtf8Name`].
    pub fn build_v2(self, disk: &Disk<'_>) -> (r: Result<Torrent<'static>, Error>)
        requires
            fit_for_v2(self@, disk@),
        ensures
            builds(r, built_v2(self@, disk@)),
    {
        proof {
            use_type_invariant(&self);
        }
        let ghost b = self@;
        let (sorted, layout) = lay_out(self.files);
        let common: CommonFieldsResolved = common_fields(self.common_fields, &sorted, disk.now);
        if !is_v2_piece_length(common.piece_length) {
            return Err(Error::InvalidPieceLengthV2(common.piece_length));
        }
        let piece_length: usize = match piece_length_usize(common.piece_length) {
            Ok(n) => n,
            Err(e) => return Err(e),
        };
        proof {
            lemma_files_fit(layout.files@, disk.contents@, b, disk@);
        }
        let (v2, layers): (InfoV2<'static>, PieceLayers<'static>) = match v2_fields(
            &layout.files,
            &disk.contents,
            piece_length,
        ) {
            Ok(parts) => parts,
            Err(e) => return Err(e),
        };
        let name: Cow<'static, str> = match resolve_name(
            self.name,
            &layout.files,
            self.single_file,
            &layout.common_prefix,
            &disk.canonical_prefix,
        ) {
            Ok(name) => name,
            Err(e) => return Err(e),
        };
        Ok(torrent_from_parts(name, common, None, Some(v2), Some(layers)))
    }

    /// Builds a hybrid torrent.
    ///
    /// # Errors
    ///
    /// [`Error::InvalidPieceLengthV2`], [`Error::PieceLengthTooLarge`], [`Error::FileTooLarge`],
    /// [`Error::PieceLengthTooSmall`] and [`Error::NonUtf8Name`].
    pub fn build_hybrid(self, disk: &Disk<'_>) -> (r: Result<Torrent<'static>, Error>)
        requires
            fit_for_hybrid(self@, disk@),
        ensures
            builds(r, built_hybrid(self@, disk@)),
    {
        proof {
            use_type_invariant(&self);
        }
        let ghost b = self@;
        let (sorted, layout) = lay_out(self.files);
        let common: CommonFieldsResolved = common_fields(self.common_fields, &sorted, disk.now);
        if !is_v2_piece_length(common.piece_length) {
            return Err(Error::InvalidPieceLengthV2(common.piece_length));
        }
        let piece_length: usize = match piece_length_usize(common.piece_length) {
            Ok(n) => n,
            Err(e) => return Err(e),
        };
        proof {
            lemma_files_fit(layout.files@, disk.contents@, b, disk@);
        }
        let (kind, layers): (InfoHybrid<'static>, PieceLayers<'static>) = match hybrid_fields(
            &layout.files,
            &disk.contents,
            piece_length,
            self.single_file,
        ) {
            Ok(parts) => parts,
            Err(e) => return Err(e),
        };
        let name: Cow<'static, str> = match resolve_name(
            self.name,
            &layout.files,
            self.single_file,
            &layout.common_prefix,
            &disk.canonical_prefix,
        ) {
            Ok(name) => name,
            Err(e) => return Err(e),
        };
        Ok(torrent_from_parts(name, common, Some(kind.v1), Some(kind.v2), Some(layers)))
    }
}

/// What holds of the files of a torrent holds of the entries that stand for them.
proof fn lemma_files_fit(
    files: Seq<FileEntry>,
    contents: Seq<&[u8]>,
    b: BuilderModel,
    d: DiskModel,
)
    requires
        views(files) == entries_of(b),
        contents_of(contents) == d.contents,
        contents_fit(b, d),
        files_fit(entries_of(b)),
    ensures
        files.len() == contents.len(),
        forall|i: int|
            0 <= i < files.len() ==> (#[trigger] files[i]).length == contents[i]@.len(),
        forall|i: int| 0 <= i < contents.len() ==> (#[trigger] contents[i])@.len() <= V2_MAX_LENGTH,
        no_clash(views(files)),
        forall|i: int| 0 <= i < files.len() ==> has_file_name((#[trigger] files[i]).meta_path@),
        utf8_names(entries_of(b)) ==> forall|i: int|
            0 <= i < files.len() ==> utf8_path((#[trigger] files[i]).meta_path@),
{
    assert(views(files).len() == files.len());
    assert forall|i: int| 0 <= i < files.len() implies (#[trigger] files[i]).length
        == contents[i]@.len() && has_file_name(files[i].meta_path@) && files[i].length
        <= V2_MAX_LENGTH by {
        assert(entries_of(b)[i] == files[i]@);
        assert(d.contents[i] == contents[i]@);
    }
    assert forall|i: int| 0 <= i < contents.len() implies (#[trigger] contents[i])@.len()
        <= V2_MAX_LENGTH by {
        assert(files[i].length == contents[i]@.len());
    }
    if utf8_names(entries_of(b)) {
        assert forall|i: int| 0 <= i < files.len() implies utf8_path(
            (#[trigger] files[i]).meta_path@,
        ) by {
            assert(entries_of(b)[i] == files[i]@);
        }
    }
}

} // verus!
