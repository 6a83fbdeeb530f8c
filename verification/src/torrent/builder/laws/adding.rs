//! How files and trackers are added.
use vstd::prelude::*;

use crate::magnet::flat_tiers;
use crate::torrent::builder::error::Obstacle;
use crate::torrent::builder::layout::FileModel;
use crate::torrent::builder::{
    added, added_all, fresh, some_added, with_all_found, with_found, with_next_tier, with_trackers,
    BuilderModel, ListingModel,
};

verus! {

/// The files that were found at some paths, one behind the other.
pub open spec fn found_files(found: Seq<ListingModel>) -> Seq<FileModel>
    decreases found.len(),
{
    if found.len() == 0 {
        Seq::empty()
    } else {
        found_files(found.drop_last()) + match found.last() {
            ListingModel::File(path, length) => seq![(path, length)],
            ListingModel::Directory(files) => files,
            ListingModel::Other(_) => Seq::empty(),
        }
    }
}

/// There are files or directories only.
pub open spec fn all_usable(found: Seq<ListingModel>) -> bool {
    forall|i: int| 0 <= i < found.len() ==> !(#[trigger] found[i] is Other)
}

/// `i` is the first path at which there is neither a file nor a directory.
pub open spec fn is_first_other(found: Seq<ListingModel>, i: int) -> bool {
    &&& 0 <= i < found.len()
    &&& found[i] is Other
    &&& all_usable(found.take(i))
}

/// What is found at some paths is added behind the files that are there, in order. It is refused if
/// there is something else than a file or a directory at one of the paths: the first one counts.
pub proof fn law_found_files_are_added(
    files: Seq<FileModel>,
    single_file: bool,
    found: Seq<ListingModel>,
    i: int,
)
    ensures
        all_usable(found) ==> (with_all_found(files, single_file, found) matches Ok((all, _)) && all
            == files + found_files(found)),
        is_first_other(found, i) ==> with_all_found(files, single_file, found) == Err::<
            (Seq<FileModel>, bool),
            Obstacle,
        >(Obstacle::UnsupportedFileType(found[i]->Other_0)),
    decreases found.len(),
{
    if found.len() > 0 {
        let t = found.drop_last();
        law_found_files_are_added(files, single_file, t, i);
        if all_usable(found) {
            assert forall|k: int| 0 <= k < t.len() implies !(#[trigger] t[k] is Other) by {
                assert(t[k] == found[k]);
            }
            assert(!(found[found.len() - 1] is Other));
            let all = with_all_found(files, single_file, t)->Ok_0.0;
            assert(all == files + found_files(t));
            match found.last() {
                ListingModel::File(path, length) => {
                    assert(all.push((path, length)) =~= files + found_files(found));
                },
                ListingModel::Directory(more) => {
                    assert(all + more =~= files + found_files(found));
                },
                ListingModel::Other(_) => {},
            }
        }
        if is_first_other(found, i) {
            if i < t.len() {
                assert(t.take(i) =~= found.take(i));
                assert(t[i] == found[i]);
            } else {
                assert(found.take(i) =~= t);
            }
        }
    } else {
        assert(files + found_files(found) =~= files);
    }
}

/// A file counts as added by itself if it is the only one, and was not found in a directory.
pub proof fn law_single_file(files: Seq<FileModel>, found: ListingModel)
    ensures
        match with_found(files, found) {
            Ok((all, single)) => {
                &&& files.is_prefix_of(all)
                &&& single <==> all.len() == 1 && found is File
                &&& all.len() > files.len()
            },
            Err(o) => match found {
                ListingModel::File(_, _) => false,
                ListingModel::Directory(more) => o == Obstacle::NoFiles && more.len() == 0,
                ListingModel::Other(path) => o == Obstacle::UnsupportedFileType(path),
            },
        },
{
    if let Ok((all, single)) = with_found(files, found) {
        assert(files =~= all.subrange(0, files.len() as int));
    }
}

/// Of the files at some paths, one counts as added by itself if it is the only one, and was not
/// found in a directory. Where no files were found, this stays as it was.
pub proof fn law_single_file_of_many(
    files: Seq<FileModel>,
    single_file: bool,
    found: Seq<ListingModel>,
)
    ensures
        with_all_found(files, single_file, found) matches Ok((all, single)) ==> {
            &&& found_files(found).len() == 0 ==> single == single_file
            &&& found_files(found).len() > 0 ==> (single <==> all.len() == 1 && exists|i: int|
                0 <= i < found.len() && #[trigger] found[i] is File)
        },
    decreases found.len(),
{
    if found.len() > 0 && with_all_found(files, single_file, found) is Ok {
        let t = found.drop_last();
        let (all, single) = with_all_found(files, single_file, found)->Ok_0;
        law_single_file_of_many(files, single_file, t);
        assert(all_usable(found)) by {
            if !all_usable(found) {
                let i = lemma_has_first_other(found);
                law_found_files_are_added(files, single_file, found, i);
            }
        }
        law_found_files_are_added(files, single_file, found, 0);
        assert forall|k: int| 0 <= k < t.len() implies !(#[trigger] t[k] is Other) by {
            assert(t[k] == found[k]);
        }
        law_found_files_are_added(files, single_file, t, 0);
        if found.last() is File {
            assert(found[found.len() - 1] is File);
        } else {
            if exists|i: int| 0 <= i < found.len() && #[trigger] found[i] is File {
                let i = choose|i: int| 0 <= i < found.len() && #[trigger] found[i] is File;
                assert(t[i] is File);
                lemma_file_is_found(t, i);
            }
            if exists|i: int| 0 <= i < t.len() && #[trigger] t[i] is File {
                let i = choose|i: int| 0 <= i < t.len() && #[trigger] t[i] is File;
                assert(found[i] is File);
            }
        }
    }
}

proof fn lemma_file_is_found(found: Seq<ListingModel>, i: int)
    requires
        0 <= i < found.len(),
        found[i] is File,
    ensures
        found_files(found).len() > 0,
    decreases found.len(),
{
    if i < found.len() - 1 {
        assert(found.drop_last()[i] == found[i]);
        lemma_file_is_found(found.drop_last(), i);
    }
}

/// Adding files changes nothing else. A builder that has been asked to add files has some, or says
/// that there are none.
pub proof fn law_adding_keeps_the_rest(b: BuilderModel, one: ListingModel, found: Seq<ListingModel>)
    ensures
        added(b, one) matches Ok(c) ==> c.name == b.name && c.common == b.common && c.files.len()
            > b.files.len(),
        added_all(b, found) matches Ok(c) ==> c.name == b.name && c.common == b.common,
        match some_added(b, found) {
            Ok(c) => {
                &&& c.files == b.files + found_files(found)
                &&& c.files.len() > 0
                &&& c.name == b.name && c.common == b.common
            },
            Err(o) => all_usable(found) ==> o == Obstacle::NoFiles && b.files.len() == 0
                && found_files(found).len() == 0,
        },
{
    law_single_file(b.files, one);
    law_found_files_are_added(b.files, b.single_file, found, 0);
    if !all_usable(found) {
        let i = lemma_has_first_other(found);
        law_found_files_are_added(b.files, b.single_file, found, i);
    }
}

proof fn lemma_has_first_other(found: Seq<ListingModel>) -> (i: int)
    requires
        !all_usable(found),
    ensures
        is_first_other(found, i),
    decreases found.len(),
{
    let t = found.drop_last();
    if all_usable(t) {
        let k = choose|k: int| 0 <= k < found.len() && #[trigger] found[k] is Other;
        if k < t.len() {
            assert(t[k] == found[k]);
        }
        assert(found.take(found.len() - 1) =~= t);
        found.len() - 1
    } else {
        let i = lemma_has_first_other(t);
        assert(found.take(i) =~= t.take(i));
        assert(found[i] == t[i]);
        i
    }
}

/// Trackers are added to the last tier, behind those that are there, and the tiers before it stay.
/// Starting a new tier adds no trackers.
pub proof fn law_trackers_are_added(tiers: Seq<Seq<Seq<char>>>, trackers: Seq<Seq<char>>)
    ensures
        flat_tiers(with_trackers(tiers, trackers)) == flat_tiers(tiers) + trackers,
        flat_tiers(with_next_tier(tiers)) == flat_tiers(tiers),
        with_trackers(tiers, trackers).len() == if tiers.len() == 0 {
            1
        } else {
            tiers.len()
        },
        forall|i: int|
            0 <= i < tiers.len() - 1 ==> with_trackers(tiers, trackers)[i] == #[trigger] tiers[i],
        tiers.is_prefix_of(with_next_tier(tiers)),
        tiers.len() > 0 && tiers.last().len() > 0 ==> with_next_tier(tiers).len() == tiers.len()
            + 1,
{
    reveal_with_fuel(flat_tiers, 2);
    let none = Seq::<Seq<Seq<char>>>::empty();
    let empty = Seq::<Seq<char>>::empty();
    let after = with_trackers(tiers, trackers);
    let next = with_next_tier(tiers);
    if tiers.len() == 0 {
        assert(after.drop_last() =~= none);
        assert(next =~= seq![empty]);
        assert(next.drop_last() =~= none);
        assert(flat_tiers(after) =~= flat_tiers(tiers) + trackers);
        assert(flat_tiers(next) =~= flat_tiers(tiers));
        assert(tiers =~= next.subrange(0, 0));
    } else {
        assert(after.drop_last() =~= tiers.drop_last());
        assert(flat_tiers(after) =~= flat_tiers(tiers) + trackers);
        assert(tiers.push(empty).drop_last() =~= tiers);
        assert(flat_tiers(next) =~= flat_tiers(tiers));
        assert(tiers =~= next.subrange(0, tiers.len() as int));
    }
}

/// A builder that nothing has been told yet has no files, no trackers and no fields.
pub proof fn law_fresh_builders_are_empty()
    ensures
        fresh().files.len() == 0,
        flat_tiers(fresh().common.tracker_tiers).len() == 0,
        fresh().common.web_seeds.len() == 0,
        !fresh().common.private,
        !fresh().single_file,
        fresh().name is None,
        fresh().common.piece_length is None,
        fresh().common.source is None,
        fresh().common.creation_date is None,
        fresh().common.created_by is None,
        fresh().common.comment is None,
{
}

} // verus!
