//! What holds of every torrent that is built.
use vstd::prelude::*;

use crate::torrent::builder::common::{resolved, used_tiers, CommonModel};
use crate::torrent::builder::layout::law_order_of_files_is_irrelevant;
use crate::torrent::builder::{
    built_hybrid, built_v1, built_v2, opened, with_next_tier, with_trackers, BuilderModel,
    DiskModel,
};

pub mod adding;
pub mod fields;
pub mod hashes;
pub mod layers;
pub mod listing;
pub mod naming;
pub mod placing;
pub mod sizes;
pub mod trees;

verus! {

/// The same files, added in another order, make the same torrent.
pub proof fn law_order_of_adding_is_irrelevant(a: BuilderModel, b: BuilderModel, d: DiskModel)
    requires
        a.files.to_multiset() == b.files.to_multiset(),
        a.name == b.name,
        a.common == b.common,
        a.single_file == b.single_file,
    ensures
        built_v1(a, d) == built_v1(b, d),
        built_v2(a, d) == built_v2(b, d),
        built_hybrid(a, d) == built_hybrid(b, d),
{
    law_order_of_files_is_irrelevant(a.files, b.files);
}

/// Adding some trackers and then others is adding all of them.
pub proof fn law_trackers_add_up(
    tiers: Seq<Seq<Seq<char>>>,
    first: Seq<Seq<char>>,
    second: Seq<Seq<char>>,
)
    ensures
        with_trackers(with_trackers(tiers, first), second) == with_trackers(tiers, first + second),
{
    let ts = opened(tiers);
    assert(ts.last() + first + second =~= ts.last() + (first + second));
    assert(with_trackers(with_trackers(tiers, first), second) =~= with_trackers(
        tiers,
        first + second,
    ));
}

/// A tier without trackers is not followed by another.
pub proof fn law_an_empty_tier_stays_the_last(tiers: Seq<Seq<Seq<char>>>)
    ensures
        with_next_tier(tiers).last().len() == 0,
        tiers.len() > 0 && tiers.last().len() == 0 ==> with_next_tier(tiers) == tiers,
        with_next_tier(with_next_tier(tiers)) == with_next_tier(tiers),
{
}

/// Every tier that is written has trackers, and every tier that has trackers is written.
pub proof fn law_written_tiers_have_trackers(c: CommonModel, total: int, now: u64)
    ensures
        match resolved(c, total, now).tracker_tiers {
            Some(tiers) => {
                &&& tiers.len() > 0
                &&& forall|i: int| 0 <= i < tiers.len() ==> (#[trigger] tiers[i]).len() > 0
                &&& forall|i: int|
                    0 <= i < c.tracker_tiers.len() && (#[trigger] c.tracker_tiers[i]).len() > 0
                        ==> tiers.contains(c.tracker_tiers[i])
            },
            None => forall|i: int|
                0 <= i < c.tracker_tiers.len() ==> (#[trigger] c.tracker_tiers[i]).len() == 0,
        },
{
    lemma_used_tiers(c.tracker_tiers);
}

proof fn lemma_used_tiers(tiers: Seq<Seq<Seq<char>>>)
    ensures
        forall|i: int|
            0 <= i < used_tiers(tiers).len() ==> (#[trigger] used_tiers(tiers)[i]).len() > 0,
        forall|i: int|
            0 <= i < tiers.len() && (#[trigger] tiers[i]).len() > 0 ==> used_tiers(tiers).contains(
                tiers[i],
            ),
    decreases tiers.len(),
{
    if tiers.len() > 0 {
        let rest = tiers.drop_last();
        lemma_used_tiers(rest);
        let used = used_tiers(tiers);
        let before = used_tiers(rest);
        assert forall|i: int| 0 <= i < tiers.len() && (#[trigger] tiers[i]).len() > 0 implies
            used.contains(tiers[i]) by {
            if i < rest.len() {
                assert(rest[i] == tiers[i]);
                let k = choose|k: int| 0 <= k < before.len() && before[k] == rest[i];
                assert(used[k] == tiers[i]);
            } else {
                assert(used[used.len() - 1] == tiers[i]);
            }
        }
    }
}

} // verus!
