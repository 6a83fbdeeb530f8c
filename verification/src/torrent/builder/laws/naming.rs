//! Which name a torrent that is built has, and what stands in the way of building it.
use vstd::prelude::*;
use vstd::utf8::{decode_utf8_encode_utf8, valid_utf8};

use crate::path::{clean, part_text};
use crate::torrent::builder::error::{Error, Obstacle};
use crate::torrent::builder::fields::{padded_parts, utf8_names};
use crate::torrent::builder::laws::fields::{
    fits, is_text_of, lemma_no_hash_obstacle, lemma_one_file,
};
use crate::torrent::builder::layout::lemma_order_len;
use crate::torrent::builder::pieces::{
    first_too_large, lemma_stream_len, lengths_of, lengths_u64, numbers, piece_count,
    plan_obstacle, start_of, stream, total,
};
use crate::torrent::builder::state::BuilderState;
use crate::torrent::builder::{
    agrees, built_hybrid, built_v1, built_v2, builds, contents_fit, entries_of, fields_of, name_of,
    prefix_of, BuilderModel, DiskModel, TorrentBuilder,
};
use crate::torrent::model::TorrentModel;
use crate::torrent::query::meta_name;
use crate::torrent::types::Torrent;

verus! {

/// A builder answers what the model says, and with the error that the model has.
pub proof fn law_answers_are_those_of_the_model<S: BuilderState>(
    torrent: Result<Torrent<'static>, Error>,
    built: Result<TorrentModel, Obstacle>,
    builder: Result<TorrentBuilder<S>, Error>,
    model: Result<BuilderModel, Obstacle>,
)
    ensures
        builds(torrent, built) <==> match torrent {
            Ok(t) => built is Ok && built->Ok_0 == t@,
            Err(e) => built is Err && built->Err_0 == e@,
        },
        agrees(builder, model) <==> match builder {
            Ok(b) => model is Ok && model->Ok_0 == b@,
            Err(e) => model is Err && model->Err_0 == e@,
        },
{
}

/// Without a name that was asked for, and unless a file was added by itself, a torrent is named
/// after the absolute path of the directory that all files lie in. It is `New Torrent` if that path
/// is not known, leads nowhere, or would be above the current directory.
pub proof fn law_directories_give_their_name(b: BuilderModel, d: DiskModel)
    requires
        b.name is None,
        !(b.files.len() == 1 && b.single_file),
    ensures
        ({
            let above = clean(prefix_of(b))[0] is Parent;
            match d.canonical_prefix {
                Some(path) => if !above && path.len() > 0 {
                    if valid_utf8(part_text(path.last())) {
                        name_of(b, d) matches Ok(name) && is_text_of(name, path.last())
                    } else {
                        name_of(b, d) == Err::<Seq<char>, Obstacle>(Obstacle::NonUtf8Name)
                    }
                } else {
                    name_of(b, d) == Ok::<Seq<char>, Obstacle>("New Torrent"@)
                },
                None => name_of(b, d) == Ok::<Seq<char>, Obstacle>("New Torrent"@),
            }
        }),
        built_v1(b, d) matches Ok(t) ==> name_of(b, d) == Ok::<Seq<char>, Obstacle>(
            meta_name(t.meta),
        ),
        built_v2(b, d) matches Ok(t) ==> name_of(b, d) == Ok::<Seq<char>, Obstacle>(
            meta_name(t.meta),
        ),
        built_hybrid(b, d) matches Ok(t) ==> name_of(b, d) == Ok::<Seq<char>, Obstacle>(
            meta_name(t.meta),
        ),
{
    lemma_order_len(b.files);
    if let Some(path) = d.canonical_prefix {
        if path.len() > 0 && valid_utf8(part_text(path.last())) {
            decode_utf8_encode_utf8(part_text(path.last()));
        }
    }
}

/// A file that was added by itself gives its name, if it is valid UTF-8.
pub proof fn law_single_files_give_their_name(b: BuilderModel, d: DiskModel)
    requires
        b.name is None,
        b.files.len() == 1,
        b.single_file,
    ensures
        ({
            let path = b.files[0].0;
            if path.len() > 0 && valid_utf8(part_text(path.last())) {
                name_of(b, d) matches Ok(name) && is_text_of(name, path.last())
            } else {
                name_of(b, d) == Err::<Seq<char>, Obstacle>(Obstacle::NonUtf8Name)
            }
        }),
{
    lemma_one_file(b.files);
    let path = b.files[0].0;
    if path.len() > 0 && valid_utf8(part_text(path.last())) {
        decode_utf8_encode_utf8(part_text(path.last()));
    }
}

proof fn lemma_small_files(lengths: Seq<u64>)
    requires
        total(lengths) <= usize::MAX,
    ensures
        first_too_large(lengths) is None,
        total(lengths) >= 0,
    decreases lengths.len(),
{
    if lengths.len() > 0 {
        let t = lengths.drop_last();
        let k = lengths.len() as int;
        lemma_same_start(numbers(t), numbers(lengths), k - 1);
        lemma_small_start(numbers(t), k - 1);
        assert(total(lengths) == total(t) + lengths.last());
        lemma_small_files(t);
    }
}

proof fn lemma_small_start(lengths: Seq<nat>, k: int)
    ensures
        start_of(lengths, k) >= 0,
    decreases k,
{
    if k > 0 {
        lemma_small_start(lengths, k - 1);
    }
}

proof fn lemma_same_start(a: Seq<nat>, b: Seq<nat>, k: int)
    requires
        k <= a.len(),
        k <= b.len(),
        forall|i: int| 0 <= i < k ==> a[i] == b[i],
    ensures
        start_of(a, k) == start_of(b, k),
    decreases k,
{
    if k > 0 {
        lemma_same_start(a, b, k - 1);
    }
}

proof fn lemma_no_plan_obstacle(parts: Seq<Seq<u8>>, n: usize)
    requires
        n > 0,
        stream(parts).len() <= usize::MAX,
    ensures
        plan_obstacle(lengths_u64(parts), n) is None,
{
    let lengths = lengths_u64(parts);
    let len = stream(parts).len() as int;
    lemma_stream_len(parts);
    lemma_parts_fit(parts, parts.len() as int);
    lemma_same_start(numbers(lengths), lengths_of(parts), parts.len() as int);
    assert(total(lengths) == len);
    lemma_small_files(lengths);
    assert(piece_count(len, n as int) <= len || len == 0) by (nonlinear_arith)
        requires
            n > 0,
            len >= 0,
            piece_count(len, n as int) == (len + n - 1) / (n as int),
    ;
}

proof fn lemma_parts_fit(parts: Seq<Seq<u8>>, k: int)
    requires
        0 <= k <= parts.len(),
        start_of(lengths_of(parts), k) <= usize::MAX,
    ensures
        forall|i: int| 0 <= i < k ==> (#[trigger] parts[i]).len() <= usize::MAX,
    decreases k,
{
    if k > 0 {
        lemma_small_start(lengths_of(parts), k - 1);
        lemma_parts_fit(parts, k - 1);
    }
}

/// A torrent over files that fit in the address space can be built if their names are valid UTF-8,
/// the piece length is allowed and fits, and a name is asked for.
pub proof fn law_torrents_can_be_built(b: BuilderModel, d: DiskModel)
    requires
        contents_fit(b, d),
        b.name is Some,
        utf8_names(entries_of(b)),
        0 < fields_of(b, d).piece_length <= usize::MAX,
    ensures
        stream(d.contents).len() <= usize::MAX ==> built_v1(b, d) is Ok,
        stream(padded_parts(d.contents, fields_of(b, d).piece_length as int)).len() <= usize::MAX
            && crate::num::is_power_of_two(fields_of(b, d).piece_length as nat)
            && fields_of(b, d).piece_length >= 16384 && (forall|i: int|
            0 <= i < entries_of(b).len() ==> fits((#[trigger] entries_of(b)[i]).length))
            ==> built_hybrid(b, d) is Ok,
{
    let n = fields_of(b, d).piece_length as int;
    if stream(d.contents).len() <= usize::MAX {
        lemma_no_plan_obstacle(d.contents, n as usize);
    }
    if forall|i: int| 0 <= i < entries_of(b).len() ==> fits((#[trigger] entries_of(b)[i]).length) {
        let lengths = lengths_u64(d.contents);
        assert forall|i: int| 0 <= i < lengths.len() implies fits(#[trigger] lengths[i]) by {
            assert(d.contents[i].len() == entries_of(b)[i].length);
        }
        lemma_no_hash_obstacle(lengths);
    }
    if stream(padded_parts(d.contents, n)).len() <= usize::MAX {
        lemma_no_plan_obstacle(padded_parts(d.contents, n), n as usize);
    }
}

/// A v1-only torrent over files whose names are not valid UTF-8 cannot be built, and neither can
/// one whose piece length does not fit in the address space.
pub proof fn law_v1_obstacles(b: BuilderModel, d: DiskModel)
    ensures
        ({
            let n = fields_of(b, d).piece_length;
            &&& n > usize::MAX <==> built_v1(b, d) == Err::<TorrentModel, Obstacle>(
                Obstacle::PieceLengthTooLarge(n),
            )
            &&& n <= usize::MAX && !utf8_names(entries_of(b)) ==> built_v1(b, d) == Err::<
                TorrentModel,
                Obstacle,
            >(Obstacle::NonUtf8Name)
        }),
{
}

} // verus!
