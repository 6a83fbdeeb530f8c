//! Building a v1-only torrent from files.
//!
//! A [`TorrentFactory`] makes sure at compile time that there is at least one file before
//! [`TorrentFactory::build`] can be called: its type parameter is either [`state::Empty`] or
//! [`state::HasFiles`], and only the latter has that method.
//!
//! The files are listed in the order of their paths, so that the piece hashes do not depend on the
//! order in which the files came.
use std::borrow::Cow;
use std::marker::PhantomData;

use vstd::arithmetic::div_mod::{
    lemma_fundamental_div_mod, lemma_fundamental_div_mod_converse, lemma_mod_bound,
};
use vstd::prelude::*;

use crate::chunks::arrays;
use crate::digest::{sha1, sha1_of};
use crate::num::NonZeroU64;
use crate::path::{FilePath, Part};
use crate::sorting::{sort, views};
use crate::torrent::builder::common::{
    common_fields, last_name, meta_with, opt_path, opt_string, piece_length_usize, resolved,
    shared_name, text_of_last, text_of_shared, torrent_from_parts, torrent_with, CommonFields,
    CommonFieldsResolved, CommonModel, ResolvedModel,
};
use crate::torrent::builder::error::Obstacle;
use crate::torrent::builder::fields::{
    contents_of, file_infos, file_mode, listed, utf8_names, v1_file_infos,
};
use crate::torrent::builder::layout::{
    common_path, entries_beyond, in_order, lemma_order_len, paths_of, remove_common_path,
    tidy, EntryModel, FileModel,
};
use crate::torrent::builder::pieces::{
    lemma_part_in_stream, lemma_stream_len, lengths_of, piece_count, piece_end, piece_hashes,
    pieces, start_of, stream,
};
use crate::torrent::builder::{
    add_all_found, add_found, append_trackers, copy_files, start_tier, with_all_found, with_found,
    with_next_tier, with_trackers, Disk, DiskModel, Layout, Listing, ListingModel,
};
use crate::torrent::factory::error::{concerns_factory, factory_error};
use crate::torrent::factory::state::{BuilderState, Empty, HasFiles};
use crate::torrent::model::{TorrentModel, V1Model};
use crate::torrent::types::{FileInfo, FileMode, InfoV1, Torrent, TrackerTier};
use crate::web::Url;

pub mod error;
pub mod laws;
pub mod state;

pub use error::Error;

verus! {

/// The piece length unless another one is asked for: 512 KiB.
pub const DEFAULT_PIECE_LENGTH: u64 = 524288;

/// The model of a [`TorrentFactory`].
#[verifier::ext_equal]
pub ghost struct FactoryModel {
    pub files: Seq<FileModel>,
    pub name: Option<Seq<char>>,
    pub common: CommonModel,
}

/// A builder of v1-only torrents.
///
/// | Field          | Default                                                               |
/// |----------------|-----------------------------------------------------------------------|
/// | piece length   | 512 KiB                                                               |
/// | creation date  | the time at which the torrent is built                                |
/// | name           | that of the only file, or of what all files share, or `New Torrent`   |
/// | private        | `false`                                                               |
/// | announce tiers | none                                                                  |
#[derive(Debug)]
pub struct TorrentFactory<S: BuilderState> {
    files: Vec<(FilePath, u64)>,
    name: Option<String>,
    common_fields: CommonFields,
    state: PhantomData<S>,
}

impl<S: BuilderState> View for TorrentFactory<S> {
    type V = FactoryModel;

    closed spec fn view(&self) -> FactoryModel {
        FactoryModel {
            files: views(self.files@),
            name: opt_string(self.name),
            common: self.common_fields@,
        }
    }
}

/// A factory that nothing has been told yet.
pub open spec fn fresh() -> FactoryModel {
    FactoryModel {
        files: Seq::empty(),
        name: None,
        common: CommonModel {
            piece_length: None,
            private: false,
            source: None,
            tracker_tiers: Seq::empty(),
            web_seeds: Seq::empty(),
            creation_date: None,
            created_by: None,
            comment: None,
        },
    }
}

/// A factory with other files.
pub open spec fn with_files(
    f: FactoryModel,
    r: Result<(Seq<FileModel>, bool), Obstacle>,
) -> Result<FactoryModel, Obstacle> {
    match r {
        Ok((files, _)) => Ok(FactoryModel { files, ..f }),
        Err(o) => Err(o),
    }
}

/// A factory after what was found at a path has been added.
pub open spec fn added(f: FactoryModel, found: ListingModel) -> Result<FactoryModel, Obstacle> {
    with_files(f, with_found(f.files, found))
}

/// A factory after what was found at some paths has been added.
pub open spec fn added_all(f: FactoryModel, found: Seq<ListingModel>) -> Result<
    FactoryModel,
    Obstacle,
> {
    with_files(f, with_all_found(f.files, false, found))
}

/// A factory after what was found at some paths has been added, which must have been something.
pub open spec fn some_added(f: FactoryModel, found: Seq<ListingModel>) -> Result<
    FactoryModel,
    Obstacle,
> {
    match added_all(f, found) {
        Ok(c) => if c.files.len() == 0 {
            Err(Obstacle::NoFiles)
        } else {
            Ok(c)
        },
        Err(o) => Err(o),
    }
}

/// A result is the one that the model has.
pub open spec fn agrees<S: BuilderState>(
    r: Result<TorrentFactory<S>, Error>,
    model: Result<FactoryModel, Obstacle>,
) -> bool {
    match r {
        Ok(f) => model == Ok::<FactoryModel, Obstacle>(f@),
        Err(e) => model == Err::<FactoryModel, Obstacle>(e@),
    }
}

/// What stands in the way of adding files concerns a factory.
proof fn lemma_found_concerns(files: Seq<FileModel>, single_file: bool, found: Seq<ListingModel>)
    ensures
        with_all_found(files, single_file, found) matches Err(o) ==> concerns_factory(o),
    decreases found.len(),
{
    if found.len() > 0 {
        lemma_found_concerns(files, single_file, found.drop_last());
    }
}

impl<S: BuilderState> TorrentFactory<S> {
    #[verifier::type_invariant]
    spec fn inv(self) -> bool {
        S::has_files() == (self.files@.len() > 0)
    }

    /// Sets the name. Otherwise it is that of the file or of what all files share.
    #[must_use]
    pub fn name(self, name: &str) -> (r: Self)
        ensures
            r@ == (FactoryModel { name: Some(name@), ..self@ }),
    {
        let mut f = self;
        proof {
            use_type_invariant(&f);
        }
        f.name = Some(name.to_owned());
        f
    }

    /// Sets the piece length. Otherwise it is 512 KiB.
    #[must_use]
    pub fn piece_length(self, piece_length: NonZeroU64) -> (r: Self)
        ensures
            r@ == (FactoryModel {
                common: CommonModel { piece_length: Some(piece_length@), ..self@.common },
                ..self@
            }),
    {
        let mut f = self;
        proof {
            use_type_invariant(&f);
        }
        f.common_fields.piece_length = Some(piece_length);
        f
    }

    /// Makes the torrent private.
    #[must_use]
    pub fn private(self) -> (r: Self)
        ensures
            r@ == (FactoryModel {
                common: CommonModel { private: true, ..self@.common },
                ..self@
            }),
    {
        let mut f = self;
        proof {
            use_type_invariant(&f);
        }
        f.common_fields.private = true;
        f
    }

    /// Sets the source, which changes the info hash.
    #[must_use]
    pub fn source(self, source: &str) -> (r: Self)
        ensures
            r@ == (FactoryModel {
                common: CommonModel { source: Some(source@), ..self@.common },
                ..self@
            }),
    {
        let mut f = self;
        proof {
            use_type_invariant(&f);
        }
        f.common_fields.source = Some(source.to_owned());
        f
    }

    /// Sets the creation date. Otherwise it is the time at which the torrent is built.
    #[must_use]
    pub fn creation_date(self, creation_date: u64) -> (r: Self)
        ensures
            r@ == (FactoryModel {
                common: CommonModel { creation_date: Some(creation_date), ..self@.common },
                ..self@
            }),
    {
        let mut f = self;
        proof {
            use_type_invariant(&f);
        }
        f.common_fields.creation_date = Some(creation_date);
        f
    }

    /// Sets the software that created the torrent.
    #[must_use]
    pub fn created_by(self, created_by: &str) -> (r: Self)
        ensures
            r@ == (FactoryModel {
                common: CommonModel { created_by: Some(created_by@), ..self@.common },
                ..self@
            }),
    {
        let mut f = self;
        proof {
            use_type_invariant(&f);
        }
        f.common_fields.created_by = Some(created_by.to_owned());
        f
    }

    /// Sets the comment.
    #[must_use]
    pub fn comment(self, comment: &str) -> (r: Self)
        ensures
            r@ == (FactoryModel {
                common: CommonModel { comment: Some(comment@), ..self@.common },
                ..self@
            }),
    {
        let mut f = self;
        proof {
            use_type_invariant(&f);
        }
        f.common_fields.comment = Some(comment.to_owned());
        f
    }

    /// Adds a tracker to the last tier.
    #[must_use]
    pub fn add_announce_url(self, announce_url: Url) -> (r: Self)
        ensures
            r@ == (FactoryModel {
                common: CommonModel {
                    tracker_tiers: with_trackers(self@.common.tracker_tiers, seq![announce_url@]),
                    ..self@.common
                },
                ..self@
            }),
    {
        let ghost url = announce_url@;
        let mut urls: Vec<Url> = Vec::new();
        urls.push(announce_url);
        assert(views(urls@) =~= seq![url]);
        self.add_announce_urls(urls)
    }

    /// Adds some trackers to the last tier.
    #[must_use]
    pub fn add_announce_urls(self, announce_urls: Vec<Url>) -> (r: Self)
        ensures
            r@ == (FactoryModel {
                common: CommonModel {
                    tracker_tiers: with_trackers(
                        self@.common.tracker_tiers,
                        views(announce_urls@),
                    ),
                    ..self@.common
                },
                ..self@
            }),
    {
        let mut f = self;
        proof {
            use_type_invariant(&f);
        }
        let mut tiers: Vec<TrackerTier> = Vec::new();
        std::mem::swap(&mut tiers, &mut f.common_fields.tracker_tiers);
        f.common_fields.tracker_tiers = append_trackers(tiers, announce_urls);
        f
    }

    /// Lets the next tracker go to a new tier. If the last tier is empty, nothing changes.
    #[must_use]
    pub fn next_announce_tier(self) -> (r: Self)
        ensures
            r@ == (FactoryModel {
                common: CommonModel {
                    tracker_tiers: with_next_tier(self@.common.tracker_tiers),
                    ..self@.common
                },
                ..self@
            }),
    {
        let mut f = self;
        proof {
            use_type_invariant(&f);
        }
        let mut tiers: Vec<TrackerTier> = Vec::new();
        std::mem::swap(&mut tiers, &mut f.common_fields.tracker_tiers);
        f.common_fields.tracker_tiers = start_tier(tiers);
        f
    }

    /// Adds a web seed.
    #[must_use]
    pub fn add_url(self, url: Url) -> (r: Self)
        ensures
            r@ == (FactoryModel {
                common: CommonModel {
                    web_seeds: self@.common.web_seeds.push(url@),
                    ..self@.common
                },
                ..self@
            }),
    {
        let ghost before = self@.common.web_seeds;
        let ghost new = url@;
        let mut urls: Vec<Url> = Vec::new();
        urls.push(url);
        assert(before + views(urls@) =~= before.push(new));
        self.add_urls(urls)
    }

    /// Adds some web seeds.
    #[must_use]
    pub fn add_urls(self, urls: Vec<Url>) -> (r: Self)
        ensures
            r@ == (FactoryModel {
                common: CommonModel {
                    web_seeds: self@.common.web_seeds + views(urls@),
                    ..self@.common
                },
                ..self@
            }),
    {
        let ghost before = self@.common.web_seeds;
        let ghost more = views(urls@);
        let mut f = self;
        proof {
            use_type_invariant(&f);
        }
        let mut more_urls: Vec<Url> = urls;
        let mut all: Vec<Url> = Vec::new();
        std::mem::swap(&mut all, &mut f.common_fields.web_seeds);
        all.append(&mut more_urls);
        assert(views(all@) =~= before + more);
        f.common_fields.web_seeds = all;
        f
    }

    /// The same factory with other files.
    fn into_state(self, files: Vec<(FilePath, u64)>) -> (r: TorrentFactory<HasFiles>)
        requires
            files@.len() > 0,
        ensures
            r@ == (FactoryModel { files: views(files@), ..self@ }),
    {
        TorrentFactory {
            files,
            name: self.name,
            common_fields: self.common_fields,
            state: PhantomData,
        }
    }
}

impl Default for TorrentFactory<Empty> {
    fn default() -> (r: Self)
        ensures
            r@ == fresh(),
    {
        Self::new()
    }
}

impl TorrentFactory<Empty> {
    /// A factory without files.
    #[must_use]
    pub fn new() -> (r: Self)
        ensures
            r@ == fresh(),
    {
        let r = TorrentFactory {
            files: Vec::new(),
            name: None,
            common_fields: CommonFields {
                piece_length: None,
                private: false,
                source: None,
                tracker_tiers: Vec::new(),
                web_seeds: Vec::new(),
                creation_date: None,
                created_by: None,
                comment: None,
            },
            state: PhantomData,
        };
        assert(r@ =~= fresh());
        r
    }

    /// Adds what was found at a path.
    ///
    /// # Errors
    ///
    /// [`Error::NoFiles`] if it is a directory without files, and [`Error::UnsupportedFileType`]
    /// if it is neither a file nor a directory.
    pub fn add_path(self, found: Listing) -> (r: Result<TorrentFactory<HasFiles>, Error>)
        ensures
            agrees(r, added(self@, found@)),
    {
        let mut files: Vec<(FilePath, u64)> = Vec::new();
        proof {
            use_type_invariant(&self);
            assert(self@.files =~= views(files@));
        }
        match add_found(&mut files, found) {
            Ok(_) => Ok(self.into_state(files)),
            Err(e) => Err(factory_error(e)),
        }
    }

    /// Adds what was found at some paths. A directory without files adds nothing.
    ///
    /// # Errors
    ///
    /// [`Error::UnsupportedFileType`] if something is neither a file nor a directory, and
    /// [`Error::NoFiles`] if there is no file at all.
    pub fn add_paths(self, found: Vec<Listing>) -> (r: Result<TorrentFactory<HasFiles>, Error>)
        ensures
            agrees(r, some_added(self@, views(found@))),
    {
        let files: Vec<(FilePath, u64)> = Vec::new();
        proof {
            use_type_invariant(&self);
            assert(self@.files =~= views(files@));
            lemma_found_concerns(self@.files, false, views(found@));
        }
        match add_all_found(files, false, found) {
            Ok((files, _)) => {
                if files.len() == 0 {
                    Err(Error::NoFiles)
                } else {
                    Ok(self.into_state(files))
                }
            },
            Err(e) => Err(factory_error(e)),
        }
    }
}

/// The files of a torrent, in order.
pub open spec fn entries_of(f: FactoryModel) -> Seq<EntryModel> {
    entries_beyond(in_order(f.files))
}

/// What all files of a torrent share, on the shortest way.
pub open spec fn prefix_of(f: FactoryModel) -> Seq<Part> {
    tidy(common_path(paths_of(in_order(f.files))))
}

/// The piece length of a torrent.
pub open spec fn piece_length_of(f: FactoryModel) -> u64 {
    match f.common.piece_length {
        Some(n) => n,
        None => DEFAULT_PIECE_LENGTH,
    }
}

/// The decided fields of a torrent.
pub open spec fn fields_of(f: FactoryModel, d: DiskModel) -> ResolvedModel {
    resolved(CommonModel { piece_length: Some(piece_length_of(f)), ..f.common }, 0, d.now)
}

/// The name of a torrent: the one that is asked for, that of the only file, or that of what all
/// files share. A directory above the current one does not give its name, and neither does one
/// that cannot be found.
pub open spec fn name_of(f: FactoryModel, d: DiskModel) -> Result<Seq<char>, Obstacle> {
    match f.name {
        Some(name) => Ok(name),
        None => if f.files.len() == 1 {
            last_name(prefix_of(f))
        } else {
            shared_name(prefix_of(f), d.canonical_prefix)
        },
    }
}

/// The torrent, or what stands in the way of it.
pub open spec fn built(f: FactoryModel, d: DiskModel) -> Result<TorrentModel, Obstacle> {
    let c = fields_of(f, d);
    if !utf8_names(entries_of(f)) {
        Err(Obstacle::NonUtf8Name)
    } else if c.piece_length > usize::MAX {
        Err(Obstacle::PieceLengthTooLarge(c.piece_length))
    } else {
        match name_of(f, d) {
            Err(o) => Err(o),
            Ok(name) => {
                let v1 = V1Model {
                    pieces: piece_hashes(stream(d.contents), c.piece_length as int),
                    file_mode: file_mode(file_infos(entries_of(f)), true),
                };
                Ok(torrent_with(c, meta_with(name, c, Some(v1), None, None)))
            },
        }
    }
}

/// A position in the stream that some contents make up.
spec fn is_position(parts: Seq<Seq<u8>>, file: int, offset: int) -> bool {
    &&& 0 <= file <= parts.len()
    &&& file < parts.len() ==> 0 <= offset <= parts[file].len()
    &&& file == parts.len() ==> offset == 0
}

/// How many bytes of the stream stand before a position.
spec fn position(parts: Seq<Seq<u8>>, file: int, offset: int) -> int {
    start_of(lengths_of(parts), file) + offset
}

/// A position is one in the stream.
proof fn lemma_position(parts: Seq<Seq<u8>>, file: int, offset: int)
    requires
        is_position(parts, file, offset),
    ensures
        0 <= position(parts, file, offset) <= stream(parts).len(),
{
    lemma_stream_len(parts);
    if file < parts.len() {
        lemma_part_in_stream(parts, file);
    }
}

/// Reads up to `piece_length` bytes of the stream from a position on, and moves on.
fn read_piece(contents: &[&[u8]], file: &mut usize, offset: &mut usize, piece_length: usize) -> (r:
    Vec<u8>)
    requires
        is_position(contents_of(contents@), *old(file) as int, *old(offset) as int),
    ensures
        is_position(contents_of(contents@), *final(file) as int, *final(offset) as int),
        ({
            let parts = contents_of(contents@);
            let s = stream(parts);
            let from = position(parts, *old(file) as int, *old(offset) as int);
            let to = position(parts, *final(file) as int, *final(offset) as int);
            &&& to == if from + piece_length <= s.len() {
                from + piece_length
            } else {
                s.len() as int
            }
            &&& r@ == s.subrange(from, to)
        }),
{
    let ghost parts = contents_of(contents@);
    let ghost s = stream(parts);
    let ghost from = position(parts, *file as int, *offset as int);
    let mut chunk: Vec<u8> = Vec::new();
    proof {
        lemma_position(parts, *file as int, *offset as int);
        assert(s.subrange(from, from) =~= Seq::<u8>::empty());
    }
    while chunk.len() < piece_length && *file < contents.len()
        invariant
            parts == contents_of(contents@),
            s == stream(parts),
            is_position(parts, *file as int, *offset as int),
            chunk@.len() <= piece_length,
            0 <= from <= position(parts, *file as int, *offset as int) <= s.len(),
            chunk@ == s.subrange(from, position(parts, *file as int, *offset as int)),
        decreases contents@.len() - *file, piece_length - chunk@.len(),
    {
        let content: &[u8] = contents[*file];
        let ghost before = chunk@;
        let ghost pos = position(parts, *file as int, *offset as int);
        proof {
            assert(content@.len() == content.len());
            assert(parts[*file as int] == content@);
            lemma_part_in_stream(parts, *file as int);
        }
        let left: usize = content.len() - *offset;
        if left == 0 {
            *file = *file + 1;
            *offset = 0;
            proof {
                lemma_position(parts, *file as int, *offset as int);
            }
        } else {
            let space: usize = piece_length - chunk.len();
            let take: usize = if left < space {
                left
            } else {
                space
            };
            let end: usize = *offset + take;
            chunk.extend_from_slice(vstd::slice::slice_subrange(content, *offset, end));
            proof {
                let a = start_of(lengths_of(parts), *file as int);
                assert(content@.subrange(*offset as int, end as int) =~= s.subrange(
                    a,
                    a + content@.len(),
                ).subrange(*offset as int, end as int));
                assert(chunk@ =~= before + s.subrange(pos, pos + take));
                assert(chunk@ =~= s.subrange(from, pos + take));
            }
            *offset = end;
        }
    }
    proof {
        lemma_stream_len(parts);
    }
    chunk
}

/// The SHA-1 hashes of the pieces of the stream that some contents make up. The contents are read
/// one behind the other, and a piece may span the boundary between two of them.
pub fn compute_piece_hashes(contents: &[&[u8]], piece_length: usize) -> (hashes: Vec<[u8; 20]>)
    requires
        piece_length > 0,
    ensures
        arrays(hashes@) == piece_hashes(stream(contents_of(contents@)), piece_length as int),
{
    let ghost parts = contents_of(contents@);
    let ghost s = stream(parts);
    let ghost len = s.len() as int;
    let ghost n = piece_length as int;
    let mut hashes: Vec<[u8; 20]> = Vec::new();
    let mut file: usize = 0;
    let mut offset: usize = 0;
    let mut chunk: Vec<u8> = read_piece(contents, &mut file, &mut offset, piece_length);
    proof {
        assert(0 * n == 0) by (nonlinear_arith);
        assert((0 - 1) * n < 0) by (nonlinear_arith)
            requires
                n > 0,
        ;
        assert((0 + 1) * n == n) by (nonlinear_arith);
    }
    while chunk.len() > 0
        invariant
            parts == contents_of(contents@),
            s == stream(parts),
            len == s.len(),
            n == piece_length,
            n > 0,
            is_position(parts, file as int, offset as int),
            position(parts, file as int, offset as int) == piece_end(
                len,
                n,
                hashes@.len() as int,
            ),
            (hashes@.len() - 1) * n < len || hashes@.len() == 0,
            hashes@.len() * n <= len ==> chunk@ == s.subrange(
                hashes@.len() * n,
                piece_end(len, n, hashes@.len() as int),
            ),
            hashes@.len() * n >= len ==> chunk@.len() == 0,
            forall|k: int|
                0 <= k < hashes@.len() ==> (#[trigger] hashes@[k])@ == sha1_of(pieces(s, n)[k]),
        decreases piece_count(len, n) - hashes@.len(),
    {
        let ghost k = hashes@.len() as int;
        proof {
            assert((k + 1) * n == k * n + n) by (nonlinear_arith);
            assert((k + 2) * n == k * n + n + n) by (nonlinear_arith);
            assert((k + 1 - 1) * n == k * n);
            lemma_piece_index(len, n, k);
        }
        hashes.push(sha1(&chunk));
        chunk = read_piece(contents, &mut file, &mut offset, piece_length);
    }
    proof {
        let k = hashes@.len() as int;
        assert((k + 1) * n == k * n + n) by (nonlinear_arith);
        lemma_pieces_done(len, n, k);
    }
    assert(arrays(hashes@) =~= piece_hashes(s, n));
    hashes
}

/// A piece that starts within the stream is one of its pieces.
proof fn lemma_piece_index(len: int, n: int, k: int)
    requires
        n > 0,
        0 <= k,
        k * n < len,
    ensures
        k < piece_count(len, n),
{
    lemma_fundamental_div_mod(len + n - 1, n);
    lemma_mod_bound(len + n - 1, n);
    let q = piece_count(len, n);
    assert(k < q) by (nonlinear_arith)
        requires
            n > 0,
            k * n < len,
            n * q >= len,
    ;
}

/// Where the pieces end, their number is known.
proof fn lemma_pieces_done(len: int, n: int, k: int)
    requires
        n > 0,
        len >= 0,
        k >= 0,
        (k - 1) * n < len || k == 0,
        k * n >= len,
    ensures
        k == piece_count(len, n),
{
    assert((k - 1) * n == k * n - n) by (nonlinear_arith);
    assert(0 * n == 0) by (nonlinear_arith);
    lemma_fundamental_div_mod_converse(len + n - 1, n, k, len + n - 1 - k * n);
}

/// The name of the torrent.
fn resolve_name(
    name: Option<String>,
    count: usize,
    prefix: &FilePath,
    canonical: &Option<FilePath>,
) -> (r: Result<Cow<'static, str>, Error>)
    ensures
        ({
            let model = match opt_string(name) {
                Some(name) => Ok(name),
                None => if count == 1 {
                    last_name(prefix@)
                } else {
                    shared_name(prefix@, opt_path(*canonical))
                },
            };
            match r {
                Ok(s) => model == Ok::<Seq<char>, Obstacle>(s@),
                Err(e) => model == Err::<Seq<char>, Obstacle>(e@),
            }
        }),
{
    match name {
        Some(name) => Ok(Cow::Owned(name)),
        None => {
            let text = if count == 1 {
                text_of_last(prefix)
            } else {
                text_of_shared(prefix, canonical)
            };
            match text {
                Ok(text) => Ok(text),
                Err(e) => Err(factory_error(e)),
            }
        },
    }
}

impl TorrentFactory<HasFiles> {
    /// A factory with what was found at a path.
    ///
    /// # Errors
    ///
    /// Those of [`TorrentFactory::add_path`].
    pub fn from_path(found: Listing) -> (r: Result<Self, Error>)
        ensures
            agrees(r, added(fresh(), found@)),
    {
        TorrentFactory::<Empty>::new().add_path(found)
    }

    /// A factory with what was found at some paths.
    ///
    /// # Errors
    ///
    /// Those of [`TorrentFactory::add_paths`].
    pub fn from_paths(found: Vec<Listing>) -> (r: Result<Self, Error>)
        ensures
            agrees(r, some_added(fresh(), views(found@))),
    {
        TorrentFactory::<Empty>::new().add_paths(found)
    }

    /// Adds what was found at a path. A directory without files adds nothing.
    ///
    /// # Errors
    ///
    /// [`Error::UnsupportedFileType`] if it is neither a file nor a directory.
    pub fn add_path(self, found: Listing) -> (r: Result<Self, Error>)
        ensures
            agrees(r, added_all(self@, seq![found@])),
    {
        let ghost one = found@;
        let mut all: Vec<Listing> = Vec::new();
        all.push(found);
        assert(views(all@) =~= seq![one]);
        self.add_paths(all)
    }

    /// Adds what was found at some paths. A directory without files adds nothing.
    ///
    /// # Errors
    ///
    /// [`Error::UnsupportedFileType`] if something is neither a file nor a directory.
    pub fn add_paths(self, found: Vec<Listing>) -> (r: Result<Self, Error>)
        ensures
            agrees(r, added_all(self@, views(found@))),
    {
        proof {
            use_type_invariant(&self);
            lemma_found_concerns(self@.files, false, views(found@));
        }
        match add_all_found(self.files, false, found) {
            Ok((files, _)) => Ok(
                TorrentFactory {
                    files,
                    name: self.name,
                    common_fields: self.common_fields,
                    state: PhantomData,
                },
            ),
            Err(e) => Err(factory_error(e)),
        }
    }

    /// Where the files lie in the torrent, and in which order their contents are needed.
    pub fn layout(&self) -> (r: Layout)
        ensures
            r.common_prefix@ == prefix_of(self@),
            views(r.files@) == entries_of(self@),
    {
        proof {
            use_type_invariant(self);
            lemma_order_len(self@.files);
        }
        let sorted: Vec<(FilePath, u64)> = sort(copy_files(&self.files));
        assert(views(sorted@).len() == sorted@.len());
        let (common_prefix, files) = remove_common_path(&sorted);
        Layout { common_prefix, files }
    }

    /// Builds the torrent.
    ///
    /// # Errors
    ///
    /// [`Error::NonUtf8Name`] if a name is not valid UTF-8, and [`Error::PieceLengthTooLarge`] if
    /// the piece length does not fit in the address space.
    pub fn build(self, disk: &Disk<'_>) -> (r: Result<Torrent<'static>, Error>)
        ensures
            match r {
                Ok(t) => built(self@, disk@) == Ok::<TorrentModel, Obstacle>(t@),
                Err(e) => built(self@, disk@) == Err::<TorrentModel, Obstacle>(e@),
            },
    {
        proof {
            use_type_invariant(&self);
            lemma_order_len(self@.files);
        }
        let ghost f = self@;
        let count: usize = self.files.len();
        let mut common: CommonFields = self.common_fields;
        let piece_length: NonZeroU64 = match common.piece_length {
            Some(n) => n,
            None => NonZeroU64::new(DEFAULT_PIECE_LENGTH).unwrap(),
        };
        common.piece_length = Some(piece_length);
        let sorted: Vec<(FilePath, u64)> = sort(self.files);
        assert(views(sorted@).len() == sorted@.len());
        let ghost decided = common@;
        assert(decided =~= (CommonModel { piece_length: Some(piece_length_of(f)), ..f.common }));
        let common: CommonFieldsResolved = common_fields(common, &sorted, disk.now);
        assert(common@ =~= fields_of(f, disk@));
        let (prefix, files) = remove_common_path(&sorted);
        assert(views(files@).len() == files@.len());
        let infos: Vec<FileInfo<'static>> = match v1_file_infos(&files) {
            Ok(infos) => infos,
            Err(e) => return Err(factory_error(e)),
        };
        let n: usize = match piece_length_usize(common.piece_length) {
            Ok(n) => n,
            Err(e) => return Err(factory_error(e)),
        };
        let hashes: Vec<[u8; 20]> = compute_piece_hashes(&disk.contents, n);
        let file_mode: FileMode<'static> = listed(infos, true);
        let name: Cow<'static, str> = match resolve_name(
            self.name,
            count,
            &prefix,
            &disk.canonical_prefix,
        ) {
            Ok(name) => name,
            Err(e) => return Err(e),
        };
        let v1: InfoV1<'static> = InfoV1 { pieces: Cow::Owned(hashes), file_mode };
        Ok(torrent_from_parts(name, common, Some(v1), None, None))
    }
}

} // verus!
