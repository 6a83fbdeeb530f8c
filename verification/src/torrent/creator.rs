//! Collecting what a torrent is to be made of.
use std::marker::PhantomData;

use vstd::prelude::*;

use crate::path::{FilePath, Part};
use crate::sorting::views;
use crate::torrent::builder::common::opt_string;
use crate::torrent::builder::state::{BuilderState, Empty, HasFiles};
use crate::torrent::builder::{append_trackers, opened, start_tier, with_next_tier, with_trackers};
use crate::torrent::types::TrackerTier;
use crate::web::Url;

verus! {

/// The model of a [`TorrentCreator`].
#[verifier::ext_equal]
pub ghost struct CreatorModel {
    pub files: Seq<Seq<Part>>,
    pub name: Option<Seq<char>>,
    pub piece_length: Option<u64>,
    pub private: bool,
    pub announce_list: Seq<Seq<Seq<char>>>,
    pub creation_date: Option<u64>,
    pub comment: Option<Seq<char>>,
}

/// What a torrent is to be made of.
#[derive(Debug)]
pub struct TorrentCreator<S: BuilderState> {
    files: Vec<FilePath>,
    name: Option<String>,
    piece_length: Option<u64>,
    private: bool,
    announce_list: Vec<TrackerTier>,
    creation_date: Option<u64>,
    comment: Option<String>,
    state: PhantomData<S>,
}

/// Errors of a [`TorrentCreator`].
#[derive(Debug, PartialEq, Eq)]
pub enum Error {
    /// There are no files.
    NoFiles,
}

impl<S: BuilderState> View for TorrentCreator<S> {
    type V = CreatorModel;

    closed spec fn view(&self) -> CreatorModel {
        CreatorModel {
            files: views(self.files@),
            name: opt_string(self.name),
            piece_length: self.piece_length,
            private: self.private,
            announce_list: views(self.announce_list@),
            creation_date: self.creation_date,
            comment: opt_string(self.comment),
        }
    }
}

/// A creator that nothing has been told yet. It has one tier without trackers.
pub open spec fn fresh() -> CreatorModel {
    CreatorModel {
        files: Seq::empty(),
        name: None,
        piece_length: None,
        private: false,
        announce_list: seq![Seq::<Seq<char>>::empty()],
        creation_date: None,
        comment: None,
    }
}

impl<S: BuilderState> TorrentCreator<S> {
    #[verifier::type_invariant]
    spec fn inv(self) -> bool {
        S::has_files() == (self.files@.len() > 0)
    }

    /// Sets the name.
    pub fn name(self, name: &str) -> (r: Self)
        ensures
            r@ == (CreatorModel { name: Some(name@), ..self@ }),
    {
        let mut c = self;
        proof {
            use_type_invariant(&c);
        }
        c.name = Some(name.to_owned());
        c
    }

    /// Sets the piece length.
    pub fn piece_length(self, piece_length: u64) -> (r: Self)
        ensures
            r@ == (CreatorModel { piece_length: Some(piece_length), ..self@ }),
    {
        let mut c = self;
        proof {
            use_type_invariant(&c);
        }
        c.piece_length = Some(piece_length);
        c
    }

    /// Makes the torrent private.
    pub fn private(self) -> (r: Self)
        ensures
            r@ == (CreatorModel { private: true, ..self@ }),
    {
        let mut c = self;
        proof {
            use_type_invariant(&c);
        }
        c.private = true;
        c
    }

    /// Sets the creation date.
    pub fn creation_date(self, creation_date: u64) -> (r: Self)
        ensures
            r@ == (CreatorModel { creation_date: Some(creation_date), ..self@ }),
    {
        let mut c = self;
        proof {
            use_type_invariant(&c);
        }
        c.creation_date = Some(creation_date);
        c
    }

    /// Sets the comment.
    pub fn comment(self, comment: &str) -> (r: Self)
        ensures
            r@ == (CreatorModel { comment: Some(comment@), ..self@ }),
    {
        let mut c = self;
        proof {
            use_type_invariant(&c);
        }
        c.comment = Some(comment.to_owned());
        c
    }

    /// Adds a tracker to the last tier.
    pub fn add_announce(self, announce: Url) -> (r: Self)
        ensures
            r@ == (CreatorModel {
                announce_list: with_trackers(self@.announce_list, seq![announce@]),
                ..self@
            }),
    {
        let ghost url = announce@;
        let mut urls: Vec<Url> = Vec::new();
        urls.push(announce);
        assert(views(urls@) =~= seq![url]);
        self.add_announces(urls)
    }

    /// Adds some trackers to the last tier.
    pub fn add_announces(self, announces: Vec<Url>) -> (r: Self)
        ensures
            r@ == (CreatorModel {
                announce_list: with_trackers(self@.announce_list, views(announces@)),
                ..self@
            }),
    {
        let mut c = self;
        proof {
            use_type_invariant(&c);
        }
        let mut tiers: Vec<TrackerTier> = Vec::new();
        std::mem::swap(&mut tiers, &mut c.announce_list);
        c.announce_list = append_trackers(tiers, announces);
        c
    }

    /// Lets the next tracker go to a new tier. If the last tier is empty, nothing changes.
    pub fn next_announce_tier(self) -> (r: Self)
        ensures
            r@ == (CreatorModel {
                announce_list: with_next_tier(self@.announce_list),
                ..self@
            }),
    {
        let mut c = self;
        proof {
            use_type_invariant(&c);
        }
        let mut tiers: Vec<TrackerTier> = Vec::new();
        std::mem::swap(&mut tiers, &mut c.announce_list);
        c.announce_list = start_tier(tiers);
        c
    }

    /// The same creator with other files.
    fn into_state(self, files: Vec<FilePath>) -> (r: TorrentCreator<HasFiles>)
        requires
            files@.len() > 0,
        ensures
            r@ == (CreatorModel { files: views(files@), ..self@ }),
    {
        TorrentCreator {
            files,
            name: self.name,
            piece_length: self.piece_length,
            private: self.private,
            announce_list: self.announce_list,
            creation_date: self.creation_date,
            comment: self.comment,
            state: PhantomData,
        }
    }
}

impl TorrentCreator<Empty> {
    /// A creator without files.
    pub fn new() -> (r: Self)
        ensures
            r@ == fresh(),
    {
        let tiers: Vec<TrackerTier> = start_tier(Vec::new());
        let r = TorrentCreator {
            files: Vec::new(),
            name: None,
            piece_length: None,
            private: false,
            announce_list: tiers,
            creation_date: None,
            comment: None,
            state: PhantomData,
        };
        proof {
            let none = Seq::<Seq<Seq<char>>>::empty();
            assert(views(Seq::<TrackerTier>::empty()) =~= none);
            assert(views(tiers@) == opened(none));
            assert(r@ =~= fresh());
        }
        r
    }

    /// Adds a file.
    pub fn add_file(self, file: FilePath) -> (r: TorrentCreator<HasFiles>)
        ensures
            r@ == (CreatorModel { files: seq![file@], ..self@ }),
    {
        let ghost path = file@;
        let mut files: Vec<FilePath> = Vec::new();
        files.push(file);
        assert(views(files@) =~= seq![path]);
        self.into_state(files)
    }

    /// Adds some files.
    ///
    /// # Errors
    ///
    /// [`Error::NoFiles`] if there are none.
    pub fn add_files(self, files: Vec<FilePath>) -> (r: Result<TorrentCreator<HasFiles>, Error>)
        ensures
            match r {
                Ok(c) => files@.len() > 0 && c@ == (CreatorModel {
                    files: views(files@),
                    ..self@
                }),
                Err(e) => files@.len() == 0 && e is NoFiles,
            },
    {
        if files.len() == 0 {
            return Err(Error::NoFiles);
        }
        Ok(self.into_state(files))
    }
}

impl TorrentCreator<HasFiles> {
    /// Adds a file.
    pub fn add_file(self, file: FilePath) -> (r: Self)
        ensures
            r@ == (CreatorModel { files: self@.files.push(file@), ..self@ }),
    {
        let ghost before = self@.files;
        let ghost path = file@;
        let mut files: Vec<FilePath> = Vec::new();
        files.push(file);
        assert(before + views(files@) =~= before.push(path));
        self.add_files(files)
    }

    /// Adds some files.
    pub fn add_files(self, files: Vec<FilePath>) -> (r: Self)
        ensures
            r@ == (CreatorModel { files: self@.files + views(files@), ..self@ }),
    {
        proof {
            use_type_invariant(&self);
        }
        let ghost before = self@.files;
        let ghost new = views(files@);
        let mut more: Vec<FilePath> = files;
        let mut all: Vec<FilePath> = self.files;
        all.append(&mut more);
        assert(views(all@) =~= before + new);
        TorrentCreator {
            files: all,
            name: self.name,
            piece_length: self.piece_length,
            private: self.private,
            announce_list: self.announce_list,
            creation_date: self.creation_date,
            comment: self.comment,
            state: PhantomData,
        }
    }
}

/// A creator that nothing has been told yet has no files, no trackers and no fields.
pub proof fn law_fresh_creators_are_empty()
    ensures
        fresh().files.len() == 0,
        forall|i: int|
            0 <= i < fresh().announce_list.len() ==> (#[trigger] fresh().announce_list[i]).len()
                == 0,
        !fresh().private,
        fresh().name is None,
        fresh().piece_length is None,
        fresh().creation_date is None,
        fresh().comment is None,
{
}

} // verus!
