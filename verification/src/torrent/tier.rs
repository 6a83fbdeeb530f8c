//! Tracker tiers, and empty metainfo.
use vstd::prelude::*;

use crate::sorted_map::SortedMap;
use crate::sorting::views;
use crate::torrent::model::NodeModel;
use crate::torrent::types::{FileTree, PieceLayers, TrackerTier};
use crate::web::Url;

verus! {

/// `rand::seq::SliceRandom::shuffle` with the generator of `rand::rng`: the same URLs in some
/// order. Which one is left to chance.
#[verifier::external_body]
fn shuffle_urls(urls: &mut Vec<Url>)
    ensures
        views(final(urls)@).to_multiset() == views(old(urls)@).to_multiset(),
{
    rand::seq::SliceRandom::shuffle(urls.as_mut_slice(), &mut rand::rng());
}

impl TrackerTier {
    /// Brings the trackers into a random order.
    pub fn shuffle(&mut self)
        ensures
            final(self)@.to_multiset() == old(self)@.to_multiset(),
    {
        shuffle_urls(&mut self.0);
    }

    /// Whether the tier has no trackers.
    pub fn is_empty(&self) -> (r: bool)
        ensures
            r == (self@.len() == 0),
    {
        self.0.len() == 0
    }
}

impl std::ops::Deref for TrackerTier {
    type Target = [Url];

    fn deref(&self) -> (r: &[Url])
        ensures
            views(r@) == self@,
    {
        self.0.as_slice()
    }
}

impl Default for TrackerTier {
    fn default() -> (r: Self)
        ensures
            r@ == Seq::<Seq<char>>::empty(),
    {
        let r = TrackerTier(Vec::new());
        assert(r@ =~= Seq::<Seq<char>>::empty());
        r
    }
}

impl<'a> Default for PieceLayers<'a> {
    fn default() -> (r: Self)
        ensures
            r@ == Seq::<(Seq<u8>, Seq<u8>)>::empty(),
    {
        let r = PieceLayers(SortedMap::new());
        assert(r@ =~= Seq::<(Seq<u8>, Seq<u8>)>::empty());
        r
    }
}

impl<'a> Default for FileTree<'a> {
    fn default() -> (r: Self)
        ensures
            r@ == Seq::<(Seq<u8>, NodeModel)>::empty(),
    {
        let r = FileTree(SortedMap::new());
        assert(r@ =~= Seq::<(Seq<u8>, NodeModel)>::empty());
        r
    }
}

} // verus!
