//! How the v1 fields of a torrent that is built list its files.
use vstd::arithmetic::div_mod::{
    lemma_add_mod_noop, lemma_fundamental_div_mod, lemma_mod_bound, lemma_small_mod,
};
use vstd::prelude::*;
use vstd::utf8::{decode_utf8, decode_utf8_encode_utf8, encode_utf8};

use crate::decimal::decimal;
use crate::path::part_text;
use crate::torrent::builder::fields::{
    file_info, file_infos, pad_entry, pad_len, padded_entries, padded_parts, padding_flags,
    path_texts, utf8_names,
};
use crate::torrent::builder::laws::hashes::{hashed_in_pieces, law_piece_hashes};
use crate::torrent::builder::layout::EntryModel;
use crate::torrent::builder::pieces::{pieces, stream};
use crate::torrent::builder::{
    built_hybrid, built_v1, built_v2, entries_of, fields_of, BuilderModel, DiskModel,
};
use crate::torrent::laws::editing::{file_tree_of, v1_fields_of};
use crate::torrent::laws::hybrid::is_content;
use crate::torrent::model::{FileInfoModel, FileModeModel};
use crate::torrent::query::files_size;
use crate::torrent::write::meta_layers;

verus! {

/// What is listed of a file: its length and the texts of the names on its path.
pub open spec fn lists(info: FileInfoModel, e: EntryModel) -> bool {
    &&& info.length == e.length
    &&& info.attr is None
    &&& info.md5sum is None
    &&& info.path.len() == e.meta_path.len()
    &&& forall|k: int|
        0 <= k < info.path.len() ==> encode_utf8(#[trigger] info.path[k]) == part_text(
            e.meta_path[k],
        )
}

/// Some files are listed one by one.
pub open spec fn lists_all(infos: Seq<FileInfoModel>, files: Seq<EntryModel>) -> bool {
    &&& infos.len() == files.len()
    &&& forall|i: int| 0 <= i < files.len() ==> lists(#[trigger] infos[i], files[i])
}

/// Files whose names are valid UTF-8 are listed one by one.
pub proof fn lemma_lists(files: Seq<EntryModel>)
    requires
        utf8_names(files),
        forall|i: int| 0 <= i < files.len() ==> !(#[trigger] files[i]).padding,
    ensures
        lists_all(file_infos(files), files),
{
    assert forall|i: int| 0 <= i < files.len() implies lists(
        #[trigger] file_infos(files)[i],
        files[i],
    ) by {
        let path = files[i].meta_path;
        assert forall|k: int| 0 <= k < path.len() implies encode_utf8(
            #[trigger] path_texts(path)[k],
        ) == part_text(path[k]) by {
            decode_utf8_encode_utf8(part_text(path[k]));
        }
    }
}

/// The v1 fields of a v1-only torrent list the files that were added, except for one that was added
/// by itself. Their hashes are those of the pieces of the files, one behind the other.
pub proof fn law_v1_lists_the_files(b: BuilderModel, d: DiskModel)
    requires
        fields_of(b, d).piece_length > 0,
        built_v1(b, d) is Ok,
    ensures
        v1_fields_of(built_v1(b, d)->Ok_0.meta) matches Some(v1) && {
            let n = fields_of(b, d).piece_length as int;
            let files = entries_of(b);
            &&& match v1.file_mode {
                FileModeModel::Single { length, md5sum } => {
                    &&& b.single_file && files.len() == 1
                    &&& length == files[0].length
                    &&& md5sum is None
                },
                FileModeModel::Multi { files: infos } => {
                    &&& !(b.single_file && files.len() == 1)
                    &&& lists_all(infos, files)
                },
            }
            &&& hashed_in_pieces(v1.pieces, stream(d.contents), n, pieces(stream(d.contents), n))
        },
{
    lemma_lists(entries_of(b));
    law_piece_hashes(stream(d.contents), fields_of(b, d).piece_length as int);
}

/// A file is a padding file that is shorter than a piece, and named after its length.
pub open spec fn is_padding(info: FileInfoModel, piece_length: int) -> bool {
    &&& info.attr == Some(padding_flags())
    &&& info.md5sum is None
    &&& 0 < info.length < piece_length
    &&& info.path == seq![
        decode_utf8(seq![46u8, 112u8, 97u8, 100u8]),
        decode_utf8(decimal(info.length as nat)),
    ]
}

/// Every listed file that is not padding starts where a piece starts.
pub open spec fn starts_are_aligned(infos: Seq<FileInfoModel>, piece_length: int) -> bool {
    forall|i: int|
        0 <= i < infos.len() && is_content(#[trigger] infos[i]) ==> files_size(infos.take(i)) as int
            % piece_length == 0
}

/// Some listed files without the padding.
pub open spec fn without_padding(infos: Seq<FileInfoModel>) -> Seq<FileInfoModel>
    decreases infos.len(),
{
    if infos.len() == 0 {
        Seq::empty()
    } else if is_content(infos.last()) {
        without_padding(infos.drop_last()).push(infos.last())
    } else {
        without_padding(infos.drop_last())
    }
}

proof fn lemma_pad_is_whole(len: int, n: int)
    requires
        n > 0,
        len >= 0,
    ensures
        0 <= pad_len(len, n) < n,
        (len + pad_len(len, n)) % n == 0,
{
    lemma_mod_bound(len, n);
    let r = len % n;
    lemma_fundamental_div_mod(len, n);
    if r == 0 {
        assert(n % n == 0) by {
            vstd::arithmetic::div_mod::lemma_mod_self_0(n);
        }
    } else {
        lemma_small_mod((n - r) as nat, n as nat);
        let q = len / n;
        assert(len + (n - r) == n * (q + 1)) by (nonlinear_arith)
            requires
                len == n * q + r,
        ;
        vstd::arithmetic::div_mod::lemma_mod_multiples_basic(q + 1, n);
        assert((q + 1) * n == n * (q + 1)) by (nonlinear_arith);
    }
}

/// The list of a padded torrent holds the files in their order, each at the start of a piece, and
/// padding between them.
proof fn lemma_padded_list(files: Seq<EntryModel>, n: int)
    requires
        0 < n <= usize::MAX,
        forall|i: int| 0 <= i < files.len() ==> !(#[trigger] files[i]).padding,
    ensures
        ({
            let infos = file_infos(padded_entries(files, n));
            &&& without_padding(infos) == file_infos(files)
            &&& forall|i: int|
                0 <= i < infos.len() && !is_content(#[trigger] infos[i]) ==> is_padding(infos[i], n)
            &&& starts_are_aligned(infos, n)
            &&& files_size(infos) as int % n == 0
        }),
    decreases files.len(),
{
    let infos = file_infos(padded_entries(files, n));
    if files.len() == 0 {
        assert(infos =~= Seq::empty());
        assert(file_infos(files) =~= Seq::empty());
        assert(files_size(infos) == 0);
        lemma_small_mod(0, n as nat);
    } else {
        let f = files[files.len() - 1];
        let t = files.drop_last();
        let before = file_infos(padded_entries(t, n));
        assert forall|i: int| 0 <= i < t.len() implies !(#[trigger] t[i]).padding by {
            assert(t[i] == files[i]);
        }
        lemma_padded_list(t, n);
        let pad = pad_len(f.length as int, n);
        lemma_pad_is_whole(f.length as int, n);
        let with_f = before.push(file_info(f));
        assert(with_f.drop_last() =~= before);
        assert(file_infos(files).drop_last() =~= file_infos(t));
        assert(file_infos(t).push(file_info(f)) =~= file_infos(files));
        assert(is_content(file_info(f)));
        assert(without_padding(with_f) == file_infos(files));
        assert(files_size(with_f) == files_size(before) + f.length);
        assert(with_f.take(before.len() as int) =~= before);
        assert forall|i: int| 0 <= i < with_f.len() && is_content(#[trigger] with_f[i]) implies
            files_size(with_f.take(i)) as int % n == 0 by {
            if i < before.len() {
                assert(before[i] == with_f[i]);
                assert(with_f.take(i) =~= before.take(i));
            }
        }
        if pad > 0 {
            let p = file_info(pad_entry(pad));
            let whole = with_f.push(p);
            assert(infos =~= whole);
            assert(whole.drop_last() =~= with_f);
            assert(files_size(whole) == files_size(before) + f.length + pad);
            lemma_add_mod_noop(files_size(before) as int, f.length + pad, n);
            lemma_small_mod(0, n as nat);
            assert(p.path =~= seq![
                decode_utf8(seq![46u8, 112u8, 97u8, 100u8]),
                decode_utf8(decimal(p.length as nat)),
            ]);
            assert(is_padding(p, n));
            assert forall|i: int| 0 <= i < whole.len() && is_content(#[trigger] whole[i]) implies
                files_size(whole.take(i)) as int % n == 0 by {
                assert(i < with_f.len());
                assert(with_f[i] == whole[i]);
                assert(whole.take(i) =~= with_f.take(i));
            }
            assert forall|i: int| 0 <= i < whole.len() && !is_content(#[trigger] whole[i]) implies
                is_padding(whole[i], n) by {
                if i < before.len() {
                    assert(before[i] == whole[i]);
                }
            }
        } else {
            assert(infos =~= with_f);
            lemma_add_mod_noop(files_size(before) as int, f.length as int, n);
            lemma_small_mod(0, n as nat);
            assert forall|i: int| 0 <= i < with_f.len() && !is_content(#[trigger] with_f[i]) implies
                is_padding(with_f[i], n) by {
                if i < before.len() {
                    assert(before[i] == with_f[i]);
                }
            }
        }
    }
}

/// The v1 fields of a hybrid torrent list the files that were added, each at the start of a piece,
/// with padding files between them. A file that was added by itself is not listed if it needs no
/// padding.
pub proof fn law_hybrid_lists_the_files(b: BuilderModel, d: DiskModel)
    requires
        fields_of(b, d).piece_length > 0,
        built_hybrid(b, d) is Ok,
    ensures
        v1_fields_of(built_hybrid(b, d)->Ok_0.meta) matches Some(v1) && {
            let n = fields_of(b, d).piece_length as int;
            let files = entries_of(b);
            let text = stream(padded_parts(d.contents, n));
            &&& match v1.file_mode {
                FileModeModel::Single { length, md5sum } => {
                    &&& b.single_file && files.len() == 1
                    &&& length == files[0].length
                    &&& length as int % n == 0
                    &&& md5sum is None
                },
                FileModeModel::Multi { files: infos } => {
                    &&& b.single_file && files.len() == 1 ==> files[0].length as int % n != 0
                    &&& lists_all(without_padding(infos), files)
                    &&& starts_are_aligned(infos, n)
                    &&& forall|i: int|
                        0 <= i < infos.len() ==> is_content(#[trigger] infos[i]) || is_padding(
                            infos[i],
                            n,
                        )
                },
            }
            &&& hashed_in_pieces(v1.pieces, text, n, pieces(text, n))
        },
{
    let n = fields_of(b, d).piece_length as int;
    let files = entries_of(b);
    lemma_lists(files);
    lemma_padded_list(files, n);
    law_piece_hashes(stream(padded_parts(d.contents, n)), n);
    if files.len() == 1 {
        let len = files[0].length as int;
        lemma_pad_is_whole(len, n);
        reveal_with_fuel(padded_entries, 2);
        assert(files.drop_last() =~= Seq::<EntryModel>::empty());
        if len % n == 0 {
            vstd::arithmetic::div_mod::lemma_mod_self_0(n);
            assert(pad_len(len, n) == 0);
            assert(padded_entries(files, n) =~= files);
        } else {
            assert(pad_len(len, n) > 0) by {
                if pad_len(len, n) == 0 {
                    assert((len + 0) % n == 0);
                }
            }
        }
    }
}

/// A hybrid torrent has the file tree and the piece layers of the v2-only torrent over the same
/// files.
pub proof fn law_hybrid_is_both(b: BuilderModel, d: DiskModel)
    requires
        built_hybrid(b, d) is Ok,
    ensures
        built_v2(b, d) is Ok,
        file_tree_of(built_hybrid(b, d)->Ok_0.meta) == file_tree_of(built_v2(b, d)->Ok_0.meta),
        meta_layers(built_hybrid(b, d)->Ok_0.meta) == meta_layers(built_v2(b, d)->Ok_0.meta),
{
}

} // verus!
