//! What holds of every torrent that a factory builds.
use vstd::prelude::*;
use vstd::utf8::{decode_utf8_encode_utf8, valid_utf8};

use crate::bencode::model::{encode, valid};
use crate::magnet::flat_tiers;
use crate::path::laws::law_cleaning;
use crate::path::{
    clean, lemma_path_irreflexive, lemma_path_transitive, part_text, path_lt, Part,
};
use crate::torrent::builder::error::Obstacle;
use crate::torrent::builder::fields::{file_infos, utf8_names};
use crate::torrent::builder::laws::adding::{self, all_usable, found_files};
use crate::torrent::builder::laws::fields::{has_fields, is_text_of, lemma_one_file, lemma_used};
use crate::torrent::builder::laws::hashes::{hashed_in_pieces, law_piece_hashes};
use crate::torrent::builder::laws::law_written_tiers_have_trackers;
use crate::torrent::builder::laws::listing::{lemma_lists, lists_all};
use crate::torrent::builder::laws::placing::{is_shared, lemma_has_prefix_len};
use crate::torrent::builder::laws::sizes::{
    added_sum, law_order_keeps_the_sum, lemma_infos_size, lemma_same_sum,
};
use crate::torrent::builder::layout::{
    common_path, file_le, in_order, is_floor, law_order_of_files_is_irrelevant,
    lemma_file_le_total, lemma_order_len, lemma_prefix_len, paths_of, EntryModel,
};
use crate::torrent::builder::pieces::{pieces, stream};
use crate::torrent::builder::read_back::short_files;
use crate::torrent::builder::state::BuilderState;
use crate::torrent::builder::{DiskModel, ListingModel};
use crate::torrent::factory::error::Error;
use crate::torrent::factory::{
    added, added_all, agrees, built, entries_of, fresh, name_of, piece_length_of, prefix_of,
    some_added, FactoryModel, TorrentFactory,
};
use crate::torrent::fidelity::{law_bytes_hold_the_torrent, torrent_in};
use crate::torrent::laws::editing::v1_fields_of;
use crate::torrent::laws::{
    all_urls_parse, lemma_normal_urls_stay, normal, normal_urls, readable_piece_length, reparsed,
};
use crate::torrent::model::{FileModeModel, TorrentModel};
use crate::torrent::query::{files_size, meta_files, meta_name, meta_piece_length, meta_size};
use crate::torrent::types::{Torrent, TorrentMeta};
use crate::torrent::write::torrent_value;

verus! {

/// The same files, added in another order, make the same torrent.
pub proof fn law_order_of_adding_is_irrelevant(a: FactoryModel, b: FactoryModel, d: DiskModel)
    requires
        a.files.to_multiset() == b.files.to_multiset(),
        a.name == b.name,
        a.common == b.common,
    ensures
        built(a, d) == built(b, d),
{
    law_order_of_files_is_irrelevant(a.files, b.files);
    a.files.to_multiset_ensures();
    b.files.to_multiset_ensures();
}

/// A torrent that is built is found again in the bytes that are written for it, if its piece
/// length and the lengths of its files fit in a bencode integer. Its URLs are in normal form then;
/// each of them must be a URL.
pub proof fn law_built_reads_back(t: Torrent, f: FactoryModel, d: DiskModel)
    requires
        readable_piece_length(piece_length_of(f)),
        short_files(entries_of(f)),
        valid(torrent_value(t@)),
    ensures
        built(f, d) == Ok::<TorrentModel, Obstacle>(t@) ==> torrent_in(
            encode(torrent_value(t@)),
        ) == if all_urls_parse(t@) {
            Some(normal(reparsed(t@)))
        } else {
            None
        },
        normal_urls(t@) ==> all_urls_parse(t@) && reparsed(t@) == t@,
{
    if normal_urls(t@) {
        lemma_normal_urls_stay(t@);
    }
    if built(f, d) == Ok::<TorrentModel, Obstacle>(t@) {
        let files = entries_of(f);
        let infos = file_infos(files);
        assert forall|i: int| 0 <= i < infos.len() implies (#[trigger] infos[i]).length
            <= i64::MAX by {
            assert(files[i].length <= i64::MAX);
        }
        if let TorrentMeta::V1 { info } = t.meta {
            assert forall|i: int| 0 <= i < info@.kind.pieces.len() implies (
            #[trigger] info@.kind.pieces[i]).len() == 20 by {
                assert(info.kind.pieces@[i]@.len() == 20);
            }
        }
        law_bytes_hold_the_torrent(t@, Seq::empty());
        assert(encode(torrent_value(t@)) + Seq::<u8>::empty() =~= encode(torrent_value(t@)));
    }
}

/// A torrent has the fields that the factory was told. The piece length is 512 KiB unless another
/// one is asked for, and the name is the one that was asked for.
pub proof fn law_built_has_the_fields(f: FactoryModel, d: DiskModel)
    ensures
        built(f, d) matches Ok(t) ==> {
            &&& t.meta is V1
            &&& has_fields(t, f.common, d.now)
            &&& f.common.piece_length is Some ==> Some(meta_piece_length(t.meta))
                == f.common.piece_length
            &&& f.common.piece_length is None ==> meta_piece_length(t.meta) == 524288
            &&& f.name matches Some(name) ==> meta_name(t.meta) == name
        },
{
    lemma_used(f.common.tracker_tiers);
    law_written_tiers_have_trackers(f.common, 0, d.now);
}

proof fn lemma_sums(f: FactoryModel)
    ensures
        entries_of(f).len() == f.files.len(),
        files_size(file_infos(entries_of(f))) == added_sum(f.files),
{
    lemma_file_le_total();
    f.files.lemma_sort_by_ensures(file_le());
    law_order_keeps_the_sum(in_order(f.files), f.files);
    lemma_order_len(f.files);
    lemma_same_sum(entries_of(f), in_order(f.files));
    lemma_infos_size(entries_of(f));
}

/// A torrent lists the files that were added, except for the only one. It is as long as they are.
/// Its hashes are those of the pieces of the files, one behind the other.
pub proof fn law_built_lists_the_files(f: FactoryModel, d: DiskModel)
    requires
        piece_length_of(f) > 0,
    ensures
        built(f, d) matches Ok(t) ==> {
            let n = piece_length_of(f) as int;
            &&& meta_size(t.meta) == added_sum(f.files)
            &&& meta_files(t.meta) == f.files.len()
            &&& v1_fields_of(t.meta) matches Some(v1) && {
                &&& match v1.file_mode {
                    FileModeModel::Single { length, md5sum } => {
                        &&& f.files.len() == 1
                        &&& length == entries_of(f)[0].length
                        &&& md5sum is None
                    },
                    FileModeModel::Multi { files } => {
                        &&& f.files.len() != 1
                        &&& lists_all(files, entries_of(f))
                    },
                }
                &&& hashed_in_pieces(
                    v1.pieces,
                    stream(d.contents),
                    n,
                    pieces(stream(d.contents), n),
                )
            }
        },
{
    if built(f, d) is Ok {
        let infos = file_infos(entries_of(f));
        lemma_sums(f);
        lemma_lists(entries_of(f));
        law_piece_hashes(stream(d.contents), piece_length_of(f) as int);
        if infos.len() == 1 {
            assert(infos.drop_last() =~= Seq::empty());
            assert(files_size(infos.drop_last()) == 0);
        }
    }
}

/// A torrent lists each file as often as it was added. The paths are seen from what all files
/// share, on the shortest way.
pub proof fn law_files_are_listed_in_order(f: FactoryModel)
    ensures
        entries_of(f).map_values(|e: EntryModel| (e.disk_path, e.length)).to_multiset()
            =~= f.files.to_multiset(),
        forall|i: int, j: int|
            0 <= i < j < entries_of(f).len() ==> {
                let first = #[trigger] entries_of(f)[i];
                let second = #[trigger] entries_of(f)[j];
                &&& !path_lt(second.disk_path, first.disk_path)
                &&& first.disk_path == second.disk_path ==> first.length <= second.length
            },
        forall|i: int|
            0 <= i < entries_of(f).len() ==> {
                let e = #[trigger] entries_of(f)[i];
                let shared = common_path(paths_of(in_order(f.files)));
                let rest = e.disk_path.skip(shared.len() as int);
                &&& !e.padding
                &&& shared.is_prefix_of(e.disk_path) ==> e.meta_path == clean(rest)
                &&& !shared.is_prefix_of(e.disk_path) ==> e.meta_path == clean(e.disk_path)
            },
{
    let files = in_order(f.files);
    let entries = entries_of(f);
    lemma_file_le_total();
    f.files.lemma_sort_by_ensures(file_le());
    assert(entries.map_values(|e: EntryModel| (e.disk_path, e.length)) =~= files);
    assert forall|i: int, j: int| 0 <= i < j < entries.len() implies !path_lt(
        (#[trigger] entries[j]).disk_path,
        (#[trigger] entries[i]).disk_path,
    ) && (entries[i].disk_path == entries[j].disk_path ==> entries[i].length
        <= entries[j].length) by {
        let le = file_le();
        assert(le(files[i], files[j]));
        if path_lt(files[j].0, files[i].0) {
            if path_lt(files[i].0, files[j].0) {
                lemma_path_transitive(files[i].0, files[j].0, files[i].0);
            }
            lemma_path_irreflexive(files[i].0);
        }
    }
}

/// What all files share is the longest part of the path of the first one that all paths start with.
/// The root directory stays.
pub proof fn law_common_path_is_the_longest(paths: Seq<Seq<Part>>, longer: Seq<Part>)
    requires
        paths.len() > 0,
    ensures
        is_shared(paths, common_path(paths)),
        common_path(paths).is_prefix_of(paths[0]),
        longer.is_prefix_of(paths[0]) && common_path(paths).len() < longer.len() ==> !is_shared(
            paths,
            longer,
        ),
        paths.len() == 1 ==> common_path(paths) == paths[0],
{
    let path = paths[0];
    let cap = path.len() as int;
    let n = lemma_has_prefix_len(paths, cap, cap);
    lemma_prefix_len(paths, cap, n);
    assert(path.take(n) =~= path.subrange(0, n));
    if n > 0 {
        assert(path.take(n).last() == path[n - 1]);
    }
    if longer.is_prefix_of(path) && n < longer.len() {
        let m = longer.len() as int;
        assert(longer =~= path.take(m));
        assert(!is_floor(paths, m));
        assert(longer.last() == path[m - 1]);
    }
    if paths.len() == 1 {
        assert(path.take(cap) =~= path);
        assert(path =~= path.subrange(0, cap));
        assert(is_floor(paths, cap));
    }
}

/// Without a name that was asked for, a torrent over one file is named after it, and any other one
/// after the absolute path of what all files share. It is `New Torrent` if that path is not known,
/// leads nowhere, or would be above the current directory.
pub proof fn law_names(f: FactoryModel, d: DiskModel)
    requires
        f.name is None,
        f.files.len() > 0,
    ensures
        built(f, d) matches Ok(t) ==> name_of(f, d) == Ok::<Seq<char>, Obstacle>(meta_name(t.meta)),
        f.files.len() == 1 && f.files[0].0.len() > 0 ==> {
            let part = clean(f.files[0].0).last();
            if valid_utf8(part_text(part)) {
                name_of(f, d) matches Ok(name) && is_text_of(name, part)
            } else {
                name_of(f, d) == Err::<Seq<char>, Obstacle>(Obstacle::NonUtf8Name)
            }
        },
        f.files.len() > 1 ==> {
            let above = clean(prefix_of(f))[0] is Parent;
            match d.canonical_prefix {
                Some(path) => if !above && path.len() > 0 {
                    if valid_utf8(part_text(path.last())) {
                        name_of(f, d) matches Ok(name) && is_text_of(name, path.last())
                    } else {
                        name_of(f, d) == Err::<Seq<char>, Obstacle>(Obstacle::NonUtf8Name)
                    }
                } else {
                    name_of(f, d) == Ok::<Seq<char>, Obstacle>("New Torrent"@)
                },
                None => name_of(f, d) == Ok::<Seq<char>, Obstacle>("New Torrent"@),
            }
        },
{
    if f.files.len() == 1 && f.files[0].0.len() > 0 {
        lemma_one_file(f.files);
        let paths = paths_of(in_order(f.files));
        law_common_path_is_the_longest(paths, Seq::empty());
        assert(paths[0] == f.files[0].0);
        let part = clean(f.files[0].0).last();
        law_cleaning(f.files[0].0);
        if valid_utf8(part_text(part)) {
            decode_utf8_encode_utf8(part_text(part));
        }
    }
    if let Some(path) = d.canonical_prefix {
        if path.len() > 0 && valid_utf8(part_text(path.last())) {
            decode_utf8_encode_utf8(part_text(path.last()));
        }
    }
}

/// A torrent can be built if a name is asked for, the names of the files are valid UTF-8 and the
/// piece length fits in the address space. It cannot be built otherwise.
pub proof fn law_obstacles(f: FactoryModel, d: DiskModel)
    requires
        f.name is Some,
    ensures
        ({
            let n = piece_length_of(f);
            let fine_names = utf8_names(entries_of(f));
            &&& built(f, d) is Ok <==> fine_names && n <= usize::MAX
            &&& !fine_names ==> built(f, d) == Err::<TorrentModel, Obstacle>(Obstacle::NonUtf8Name)
            &&& fine_names && n > usize::MAX ==> built(f, d) == Err::<TorrentModel, Obstacle>(
                Obstacle::PieceLengthTooLarge(n),
            )
        }),
{
}

/// What is found at some paths is added behind the files that are there, in order, and nothing else
/// changes. A factory that has been asked to add files has some, or says that there are none.
pub proof fn law_found_files_are_added(
    f: FactoryModel,
    one: ListingModel,
    found: Seq<ListingModel>,
)
    ensures
        added(f, one) matches Ok(c) ==> {
            &&& c.files == f.files + found_files(seq![one])
            &&& c.files.len() > f.files.len()
            &&& c.name == f.name && c.common == f.common
        },
        all_usable(found) ==> (added_all(f, found) matches Ok(c) && c.files == f.files
            + found_files(found) && c.name == f.name && c.common == f.common),
        some_added(f, found) matches Ok(c) ==> c.files.len() > 0 && added_all(f, found) == Ok::<
            FactoryModel,
            Obstacle,
        >(c),
        all_usable(found) && f.files.len() + found_files(found).len() == 0 ==> some_added(f, found)
            == Err::<FactoryModel, Obstacle>(Obstacle::NoFiles),
{
    adding::law_found_files_are_added(f.files, false, found, 0);
    adding::law_single_file(f.files, one);
    reveal_with_fuel(found_files, 2);
    assert(seq![one].drop_last() =~= Seq::<ListingModel>::empty());
    if let Ok(c) = added(f, one) {
        assert(c.files =~= f.files + found_files(seq![one]));
    }
}

/// A factory answers what the model says, and with the error that the model has.
pub proof fn law_answers_are_those_of_the_model<S: BuilderState>(
    factory: Result<TorrentFactory<S>, Error>,
    model: Result<FactoryModel, Obstacle>,
)
    ensures
        agrees(factory, model) <==> match factory {
            Ok(f) => model is Ok && model->Ok_0 == f@,
            Err(e) => model is Err && model->Err_0 == e@,
        },
{
}

/// A factory that nothing has been told yet has no files, no trackers and no fields.
pub proof fn law_fresh_factories_are_empty()
    ensures
        fresh().files.len() == 0,
        flat_tiers(fresh().common.tracker_tiers).len() == 0,
        fresh().common.web_seeds.len() == 0,
        !fresh().common.private,
        fresh().name is None,
        fresh().common.piece_length is None,
        fresh().common.source is None,
        fresh().common.creation_date is None,
        fresh().common.created_by is None,
        fresh().common.comment is None,
{
}

} // verus!
