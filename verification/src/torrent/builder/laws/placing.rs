//! Where the files of a torrent that is built lie.
use vstd::prelude::*;

use crate::path::{clean, path_lt, Part};
use crate::torrent::builder::layout::{
    common_dir, file_le, in_order, is_floor, is_prefix_len, lemma_file_le_total, lemma_prefix_len,
    parent_len, paths_of, EntryModel,
};
use crate::torrent::builder::{entries_of, prefix_of, BuilderModel};

verus! {

/// There is a largest number of components that cannot be shortened.
pub proof fn lemma_has_prefix_len(paths: Seq<Seq<Part>>, cap: int, upper: int) -> (n: int)
    requires
        paths.len() > 0,
        0 <= upper <= cap,
        cap <= paths[0].len(),
        forall|m: int| upper < m <= cap ==> !#[trigger] is_floor(paths, m),
    ensures
        is_prefix_len(paths, cap, n),
    decreases upper,
{
    if is_floor(paths, upper) {
        upper
    } else {
        if upper == 0 {
            assert forall|i: int| 0 <= i < paths.len() implies paths[0].take(0).is_prefix_of(
                #[trigger] paths[i],
            ) by {
                assert(paths[0].take(0) =~= paths[i].subrange(0, 0));
            }
            assert(is_floor(paths, 0));
        }
        lemma_has_prefix_len(paths, cap, upper - 1)
    }
}

/// A directory is one that all paths lie in, or the root directory.
pub open spec fn is_shared(paths: Seq<Seq<Part>>, dir: Seq<Part>) -> bool {
    ||| dir.len() > 0 && dir.last() is Root
    ||| forall|i: int| 0 <= i < paths.len() ==> dir.is_prefix_of(#[trigger] paths[i])
}

/// The directory that is taken away from the paths is the longest one on the way to the first file
/// that all of them lie in. It does not include the name of the file.
pub proof fn law_common_dir_is_the_longest(paths: Seq<Seq<Part>>, longer: Seq<Part>)
    requires
        paths.len() > 0,
    ensures
        is_shared(paths, common_dir(paths)),
        common_dir(paths).is_prefix_of(paths[0]),
        paths[0].len() > 0 && !(paths[0].last() is Root) ==> common_dir(paths).len()
            < paths[0].len(),
        longer.is_prefix_of(paths[0]) && common_dir(paths).len() < longer.len() <= parent_len(
            paths[0],
        ) ==> !is_shared(paths, longer),
{
    let path = paths[0];
    let cap = parent_len(path);
    let n = lemma_has_prefix_len(paths, cap, cap);
    lemma_prefix_len(paths, cap, n);
    assert(path.take(n) =~= path.subrange(0, n));
    if n > 0 {
        assert(path.take(n).last() == path[n - 1]);
    }
    if longer.is_prefix_of(path) && n < longer.len() <= cap {
        let m = longer.len() as int;
        assert(longer =~= path.take(m));
        assert(!is_floor(paths, m));
        assert(longer.last() == path[m - 1]);
    }
}

/// A torrent lists the files that were added, each as often as it was added, in the order of their
/// paths and then of their lengths.
pub proof fn law_files_are_listed_in_order(b: BuilderModel)
    ensures
        entries_of(b).map_values(|e: EntryModel| (e.disk_path, e.length)).to_multiset()
            =~= b.files.to_multiset(),
        forall|i: int, j: int|
            0 <= i < j < entries_of(b).len() ==> {
                let first = #[trigger] entries_of(b)[i];
                let second = #[trigger] entries_of(b)[j];
                &&& !path_lt(second.disk_path, first.disk_path)
                &&& first.disk_path == second.disk_path ==> first.length <= second.length
            },
        forall|i: int| 0 <= i < entries_of(b).len() ==> !(#[trigger] entries_of(b)[i]).padding,
{
    let files = in_order(b.files);
    let entries = entries_of(b);
    lemma_file_le_total();
    b.files.lemma_sort_by_ensures(file_le());
    assert(entries.map_values(|e: EntryModel| (e.disk_path, e.length)) =~= files);
    assert forall|i: int, j: int| 0 <= i < j < entries.len() implies !path_lt(
        (#[trigger] entries[j]).disk_path,
        (#[trigger] entries[i]).disk_path,
    ) && (entries[i].disk_path == entries[j].disk_path ==> entries[i].length
        <= entries[j].length) by {
        let le = file_le();
        assert(le(files[i], files[j]));
        if path_lt(files[j].0, files[i].0) {
            if path_lt(files[i].0, files[j].0) {
                crate::path::lemma_path_transitive(files[i].0, files[j].0, files[i].0);
            }
            crate::path::lemma_path_irreflexive(files[i].0);
        }
    }
}

/// The path of a file within a torrent, seen from the directory that all files lie in, leads to the
/// file.
pub proof fn law_paths_lead_to_the_files(b: BuilderModel, i: int)
    requires
        0 <= i < entries_of(b).len(),
    ensures
        ({
            let e = entries_of(b)[i];
            let dir = common_dir(paths_of(in_order(b.files)));
            &&& dir.is_prefix_of(e.disk_path) ==> dir + e.meta_path == e.disk_path
            &&& !dir.is_prefix_of(e.disk_path) ==> e.meta_path == e.disk_path
        }),
{
    let e = entries_of(b)[i];
    let dir = common_dir(paths_of(in_order(b.files)));
    if dir.is_prefix_of(e.disk_path) {
        assert(dir == e.disk_path.subrange(0, dir.len() as int));
        assert(dir + e.meta_path =~= e.disk_path);
    }
}

/// The directory that the files of a torrent lie in is the one that is taken away from their paths,
/// on the shortest way.
pub proof fn law_prefix_is_the_common_dir(b: BuilderModel)
    ensures
        ({
            let dir = common_dir(paths_of(in_order(b.files)));
            &&& dir.len() == 0 ==> prefix_of(b).len() == 0
            &&& dir.len() > 0 ==> prefix_of(b) == clean(dir)
        }),
{
}

} // verus!
