//! How long a torrent that is built is.
use vstd::prelude::*;
use vstd::seq_lib::lemma_fold_left_permutation;

use crate::torrent::builder::fields::{all_hashes, file_infos};
use crate::torrent::builder::laws::trees::{
    all_part_ways, law_tree_counts_the_files, lengths_sum,
};
use crate::torrent::builder::layout::{
    file_le, in_order, lemma_file_le_total, lemma_order_len, EntryModel, FileModel,
};
use crate::torrent::builder::{
    built_hybrid, built_v1, built_v2, entries_of, fields_of, BuilderModel, DiskModel,
};
use crate::torrent::query::{files_size, meta_files, meta_size};

verus! {

/// The sum of the lengths of some files.
pub open spec fn added_sum(files: Seq<FileModel>) -> int
    decreases files.len(),
{
    if files.len() == 0 {
        0
    } else {
        added_sum(files.drop_last()) + files.last().1
    }
}

spec fn plus_length() -> spec_fn(int, FileModel) -> int {
    |sum: int, file: FileModel| sum + file.1
}

proof fn lemma_sum_is_fold(files: Seq<FileModel>)
    ensures
        added_sum(files) == files.fold_left(0int, plus_length()),
    decreases files.len(),
{
    if files.len() > 0 {
        lemma_sum_is_fold(files.drop_last());
    }
}

/// The sum of some lengths does not depend on their order.
pub proof fn law_order_keeps_the_sum(a: Seq<FileModel>, b: Seq<FileModel>)
    requires
        a.to_multiset() == b.to_multiset(),
    ensures
        added_sum(a) == added_sum(b),
{
    lemma_sum_is_fold(a);
    lemma_sum_is_fold(b);
    let f = plus_length();
    assert forall|x: FileModel, y: FileModel, v: int| #[trigger] f(f(v, x), y) == f(f(v, y), x) by {
    }
    lemma_fold_left_permutation(a, b, f, 0);
}

/// Entries with the lengths of some files are as long together.
pub proof fn lemma_same_sum(entries: Seq<EntryModel>, files: Seq<FileModel>)
    requires
        entries.len() == files.len(),
        forall|i: int| 0 <= i < files.len() ==> (#[trigger] entries[i]).length == files[i].1,
    ensures
        lengths_sum(entries) == added_sum(files),
    decreases files.len(),
{
    if files.len() > 0 {
        let e = entries.drop_last();
        assert forall|i: int| 0 <= i < e.len() implies (#[trigger] e[i]).length
            == files.drop_last()[i].1 by {
            assert(e[i] == entries[i]);
        }
        assert(entries[files.len() - 1].length == files.last().1);
        lemma_same_sum(e, files.drop_last());
    }
}

/// A torrent lists as many files as were added, and they are as long together.
pub proof fn law_entries_are_the_added_files(b: BuilderModel)
    ensures
        entries_of(b).len() == b.files.len(),
        lengths_sum(entries_of(b)) == added_sum(b.files),
{
    lemma_file_le_total();
    b.files.lemma_sort_by_ensures(file_le());
    law_order_keeps_the_sum(in_order(b.files), b.files);
    lemma_order_len(b.files);
    lemma_same_sum(entries_of(b), in_order(b.files));
}

/// What is listed of some files is as long as they are.
pub proof fn lemma_infos_size(files: Seq<EntryModel>)
    ensures
        files_size(file_infos(files)) == lengths_sum(files),
    decreases files.len(),
{
    if files.len() > 0 {
        lemma_infos_size(files.drop_last());
        assert(file_infos(files).drop_last() =~= file_infos(files.drop_last()));
    }
}

/// A torrent is as long as the files that were added, and has as many files, whatever its version.
/// Padding files do not count.
pub proof fn law_built_torrents_have_the_size_of_their_files(b: BuilderModel, d: DiskModel)
    ensures
        built_v1(b, d) matches Ok(t) ==> {
            &&& meta_size(t.meta) == added_sum(b.files)
            &&& meta_files(t.meta) == b.files.len()
        },
        all_part_ways(entries_of(b)) && built_v2(b, d) is Ok ==> {
            &&& meta_size(built_v2(b, d)->Ok_0.meta) == added_sum(b.files)
            &&& meta_files(built_v2(b, d)->Ok_0.meta) == b.files.len()
        },
        all_part_ways(entries_of(b)) && built_hybrid(b, d) is Ok ==> {
            &&& meta_size(built_hybrid(b, d)->Ok_0.meta) == added_sum(b.files)
            &&& meta_files(built_hybrid(b, d)->Ok_0.meta) == b.files.len()
        },
{
    let files = entries_of(b);
    law_entries_are_the_added_files(b);
    lemma_infos_size(files);
    if built_v1(b, d) is Ok && files.len() == 1 {
        assert(file_infos(files).drop_last() =~= Seq::empty());
        assert(files_size(file_infos(files).drop_last()) == 0);
        assert(files_size(file_infos(files)) == file_infos(files)[0].length);
    }
    if all_part_ways(files) {
        law_tree_counts_the_files(
            files,
            all_hashes(d.contents, fields_of(b, d).piece_length as int),
        );
    }
}

/// The torrents of all versions that are made of the same files have the same size.
pub proof fn law_versions_have_the_same_size(b: BuilderModel, d: DiskModel)
    requires
        all_part_ways(entries_of(b)),
        built_v1(b, d) is Ok,
        built_v2(b, d) is Ok,
        built_hybrid(b, d) is Ok,
    ensures
        meta_size(built_hybrid(b, d)->Ok_0.meta) == meta_size(built_v1(b, d)->Ok_0.meta),
        meta_size(built_hybrid(b, d)->Ok_0.meta) == meta_size(built_v2(b, d)->Ok_0.meta),
        meta_files(built_hybrid(b, d)->Ok_0.meta) == meta_files(built_v1(b, d)->Ok_0.meta),
        meta_files(built_hybrid(b, d)->Ok_0.meta) == meta_files(built_v2(b, d)->Ok_0.meta),
{
    law_built_torrents_have_the_size_of_their_files(b, d);
}

} // verus!
