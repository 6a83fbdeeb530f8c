//! A torrent that is built has the fields that were asked for.
use vstd::arithmetic::power2::{lemma2_to64, lemma_pow2_unfold, pow2};
use vstd::prelude::*;
use vstd::utf8::{decode_utf8_encode_utf8, encode_utf8, valid_utf8};

use crate::magnet::flat_tiers;
use crate::num::is_power_of_two;
use crate::path::{part_text, Part};
use crate::torrent::builder::common::{
    default_piece_length, file_lengths, floor_power, law_default_piece_length_fits_v2, used_tiers,
    CommonModel,
};
use crate::torrent::builder::error::Obstacle;
use crate::torrent::builder::fields::hashes_obstacle;
use crate::torrent::builder::laws::law_written_tiers_have_trackers;
use crate::torrent::builder::laws::sizes::{
    added_sum, law_entries_are_the_added_files, law_order_keeps_the_sum,
};
use crate::torrent::builder::layout::{
    file_le, in_order, lemma_file_le_total, lemma_order_len, FileModel,
};
use crate::torrent::builder::merkle::{lemma_has_tree_height, tree_height};
use crate::torrent::builder::pieces::{lengths_u64, numbers, start_of};
use crate::torrent::builder::{
    built_hybrid, built_v1, built_v2, contents_fit, entries_of, fields_of, total_of, BuilderModel,
    DiskModel,
};
use crate::torrent::model::TorrentModel;
use crate::torrent::query::{meta_name, meta_piece_length, meta_private, meta_source};

verus! {

/// A torrent has the fields that a builder was told.
pub open spec fn has_fields(t: TorrentModel, c: CommonModel, now: u64) -> bool {
    &&& meta_private(t.meta) == c.private
    &&& meta_source(t.meta) == c.source
    &&& t.created_by == c.created_by
    &&& t.comment == c.comment
    &&& t.encoding == Some("UTF-8"@)
    &&& c.creation_date is Some ==> t.creation_date == c.creation_date
    &&& c.creation_date is None ==> t.creation_date == Some(now)
    &&& match t.web_seeds {
        Some(urls) => urls == c.web_seeds && urls.len() > 0,
        None => c.web_seeds.len() == 0,
    }
    &&& match t.tracker_tiers {
        Some(tiers) => {
            &&& flat_tiers(tiers) == flat_tiers(c.tracker_tiers)
            &&& tiers.len() > 0
            &&& forall|i: int| 0 <= i < tiers.len() ==> (#[trigger] tiers[i]).len() > 0
            &&& forall|i: int|
                0 <= i < tiers.len() ==> c.tracker_tiers.contains(#[trigger] tiers[i])
        },
        None => flat_tiers(c.tracker_tiers).len() == 0,
    }
}

/// The tiers that have trackers are some of all tiers, and have all trackers.
pub proof fn lemma_used(tiers: Seq<Seq<Seq<char>>>)
    ensures
        flat_tiers(used_tiers(tiers)) == flat_tiers(tiers),
        forall|i: int|
            0 <= i < used_tiers(tiers).len() ==> tiers.contains(#[trigger] used_tiers(tiers)[i]),
    decreases tiers.len(),
{
    if tiers.len() > 0 {
        let t = tiers.drop_last();
        let before = used_tiers(t);
        let used = used_tiers(tiers);
        lemma_used(t);
        assert(before.push(tiers.last()).drop_last() =~= before);
        assert(flat_tiers(used) =~= flat_tiers(tiers));
        assert forall|i: int| 0 <= i < used.len() implies tiers.contains(#[trigger] used[i]) by {
            if i < before.len() {
                assert(used[i] == before[i]);
                let k = choose|k: int| 0 <= k < t.len() && t[k] == before[i];
                assert(tiers[k] == used[i]);
            } else {
                assert(tiers[tiers.len() - 1] == used[i]);
            }
        }
    }
}

/// A torrent has the fields that the builder was told, whatever its version. The date is the time
/// at which it is built unless another one is asked for. Trackers keep their tiers and their order,
/// and tiers without trackers are left out.
pub proof fn law_built_torrents_have_the_fields(b: BuilderModel, d: DiskModel)
    ensures
        built_v1(b, d) matches Ok(t) ==> t.meta is V1 && has_fields(t, b.common, d.now),
        built_v2(b, d) matches Ok(t) ==> t.meta is V2 && has_fields(t, b.common, d.now),
        built_hybrid(b, d) matches Ok(t) ==> t.meta is Hybrid && has_fields(t, b.common, d.now),
{
    lemma_used(b.common.tracker_tiers);
    law_written_tiers_have_trackers(b.common, total_of(b), d.now);
}

/// A piece length is the one for a torrent of some size: a power of two, for about a thousand
/// pieces, but at least 16 KiB and at most 16 MiB.
pub open spec fn suits(piece_length: int, total: int) -> bool {
    &&& piece_length >= 0 && is_power_of_two(piece_length as nat)
    &&& 16384 <= piece_length <= 16777216
    &&& piece_length > 16384 ==> 1000 * piece_length <= total
    &&& piece_length < 16777216 ==> total < 2000 * piece_length
}

proof fn lemma_total(b: BuilderModel)
    ensures
        total_of(b) == added_sum(b.files),
{
    let files = in_order(b.files);
    law_entries_are_the_added_files(b);
    lemma_total_is_sum(files, files.len() as int);
    assert(files.take(files.len() as int) =~= files);
    lemma_file_le_total();
    b.files.lemma_sort_by_ensures(file_le());
    law_order_keeps_the_sum(files, b.files);
}

proof fn lemma_total_is_sum(files: Seq<FileModel>, k: int)
    requires
        0 <= k <= files.len(),
    ensures
        start_of(numbers(file_lengths(files)), k) == added_sum(files.take(k)),
    decreases k,
{
    if k > 0 {
        lemma_total_is_sum(files, k - 1);
        assert(files.take(k).drop_last() =~= files.take(k - 1));
    }
}

proof fn lemma_has_floor(n: int)
    requires
        n >= 1,
    ensures
        exists|k: nat| #[trigger] pow2(k) <= n < 2 * pow2(k),
    decreases n,
{
    lemma2_to64();
    if n == 1 {
        assert(pow2(0) <= n < 2 * pow2(0));
    } else {
        lemma_has_floor(n / 2);
        let k = choose|k: nat| #[trigger] pow2(k) <= n / 2 < 2 * pow2(k);
        lemma_pow2_unfold(k + 1);
        assert(pow2(k + 1) <= n < 2 * pow2(k + 1));
    }
}

/// The default piece length suits the size of the torrent.
pub proof fn law_default_piece_length(total: int)
    requires
        total >= 0,
    ensures
        suits(default_piece_length(total), total),
{
    law_default_piece_length_fits_v2(total);
    let target = if total / 1000 >= 1 {
        total / 1000
    } else {
        1
    };
    lemma_has_floor(target);
    let k = choose|k: nat| #[trigger] pow2(k) <= target < 2 * pow2(k);
    assert(floor_power(target) == pow2(k));
}

/// A torrent has the piece length that was asked for, or else one that suits its size. It has the
/// name that was asked for, or else that of a file which was added by itself.
pub open spec fn has_name_and_piece_length(t: TorrentModel, b: BuilderModel) -> bool {
    &&& match b.common.piece_length {
        Some(n) => meta_piece_length(t.meta) == n,
        None => suits(meta_piece_length(t.meta) as int, added_sum(b.files)),
    }
    &&& match b.name {
        Some(name) => meta_name(t.meta) == name,
        None => b.files.len() == 1 && b.single_file ==> is_text_of(
            meta_name(t.meta),
            b.files[0].0.last(),
        ),
    }
}

/// A text is that of a component.
pub open spec fn is_text_of(text: Seq<char>, part: Part) -> bool {
    encode_utf8(text) == part_text(part)
}

/// A torrent has the piece length and the name that were asked for, whatever its version.
pub proof fn law_built_torrents_have_the_name_and_piece_length(b: BuilderModel, d: DiskModel)
    ensures
        built_v1(b, d) matches Ok(t) ==> has_name_and_piece_length(t, b),
        built_v2(b, d) matches Ok(t) ==> has_name_and_piece_length(t, b),
        built_hybrid(b, d) matches Ok(t) ==> has_name_and_piece_length(t, b),
{
    lemma_total(b);
    lemma_not_negative(b.files);
    law_default_piece_length(added_sum(b.files));
    law_entries_are_the_added_files(b);
    if b.files.len() == 1 {
        lemma_one_file(b.files);
        let part = b.files[0].0.last();
        if valid_utf8(part_text(part)) {
            decode_utf8_encode_utf8(part_text(part));
        }
    }
}

proof fn lemma_not_negative(files: Seq<FileModel>)
    ensures
        added_sum(files) >= 0,
    decreases files.len(),
{
    if files.len() > 0 {
        lemma_not_negative(files.drop_last());
    }
}

/// A file by itself is in order.
pub proof fn lemma_one_file(files: Seq<FileModel>)
    requires
        files.len() == 1,
    ensures
        in_order(files).len() == 1,
        in_order(files)[0] == files[0],
{
    let sorted = in_order(files);
    lemma_file_le_total();
    files.lemma_sort_by_ensures(file_le());
    lemma_order_len(files);
    files.to_multiset_ensures();
    sorted.to_multiset_ensures();
    assert(sorted.contains(sorted[0]));
    assert(sorted.to_multiset().count(sorted[0]) > 0);
    assert(files.to_multiset().count(sorted[0]) > 0);
    assert(files.contains(sorted[0]));
}

/// Only with a piece length that is a power of two and at least 16 KiB can a v2-only or hybrid
/// torrent be built. Any other one is refused by name.
pub proof fn law_v2_piece_lengths(b: BuilderModel, d: DiskModel)
    ensures
        ({
            let n = fields_of(b, d).piece_length;
            let refused = Err::<TorrentModel, Obstacle>(Obstacle::InvalidPieceLengthV2(n));
            let allowed = is_power_of_two(n as nat) && n >= 16384;
            &&& built_v2(b, d) == refused <==> !allowed
            &&& built_hybrid(b, d) == refused <==> !allowed
            &&& built_v1(b, d) != refused
            &&& b.common.piece_length is None ==> allowed
        }),
{
    lemma_total(b);
    lemma_not_negative(b.files);
    law_default_piece_length(added_sum(b.files));
    lemma_hashes_concern(lengths_u64(d.contents));
}

proof fn lemma_hashes_concern(lengths: Seq<u64>)
    ensures
        hashes_obstacle(lengths) matches Some(o) ==> o is FileTooLarge,
    decreases lengths.len(),
{
    if lengths.len() > 0 {
        lemma_hashes_concern(lengths.drop_last());
    }
}

/// A file fits in the address space together with the zeros that its tree adds.
pub open spec fn fits(length: u64) -> bool {
    2 * length <= usize::MAX && 16384 <= usize::MAX
}

/// Files that fit can be hashed.
pub proof fn lemma_no_hash_obstacle(lengths: Seq<u64>)
    requires
        forall|i: int| 0 <= i < lengths.len() ==> fits(#[trigger] lengths[i]),
    ensures
        hashes_obstacle(lengths) is None,
    decreases lengths.len(),
{
    if lengths.len() > 0 {
        let t = lengths.drop_last();
        assert forall|i: int| 0 <= i < t.len() implies fits(#[trigger] t[i]) by {
            assert(t[i] == lengths[i]);
        }
        lemma_no_hash_obstacle(t);
        assert(fits(lengths[lengths.len() - 1]));
        let len = lengths.last() as int;
        if len > 0 {
            lemma_pow2_reaches(len as nat);
            lemma_has_tree_height(len, len as nat);
            let h = tree_height(len);
            lemma2_to64();
            if h > 0 {
                lemma_pow2_unfold(h);
            }
        }
    }
}

proof fn lemma_pow2_reaches(n: nat)
    ensures
        pow2(n) >= n,
        pow2(n) >= 1,
    decreases n,
{
    lemma2_to64();
    if n > 0 {
        lemma_pow2_unfold(n);
        lemma_pow2_reaches((n - 1) as nat);
    }
}

/// A v2-only torrent over files that fit can be built if the piece length is allowed and a name is
/// asked for.
pub proof fn law_v2_can_be_built(b: BuilderModel, d: DiskModel)
    requires
        contents_fit(b, d),
        b.name is Some,
        is_power_of_two(fields_of(b, d).piece_length as nat),
        16384 <= fields_of(b, d).piece_length <= usize::MAX,
        forall|i: int| 0 <= i < entries_of(b).len() ==> fits((#[trigger] entries_of(b)[i]).length),
    ensures
        built_v2(b, d) is Ok,
{
    let lengths = lengths_u64(d.contents);
    assert forall|i: int| 0 <= i < lengths.len() implies fits(#[trigger] lengths[i]) by {
        assert(d.contents[i].len() == entries_of(b)[i].length);
    }
    lemma_no_hash_obstacle(lengths);
}

} // verus!
