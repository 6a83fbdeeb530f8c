//! When the v1 and v2 fields of a hybrid torrent agree.
use vstd::prelude::*;
use vstd::utf8::encode_utf8;

use crate::path::{lemma_path_le_total, path_le, path_of, Part};
use crate::torrent::files::{listed_paths, path_from};
use crate::torrent::model::{
    FileInfoModel, FileModeModel, HybridModel, InfoModel, LayersModel, MetaModel,
};
use crate::torrent::paths::{lemma_join_plain, plain_name};
use crate::torrent::read::mismatch;
use crate::torrent::tree::tree_paths;

verus! {

/// A file of the v1 fields that counts as content: it is not marked as padding.
pub open spec fn is_content(f: FileInfoModel) -> bool {
    !(f.attr matches Some(flags) && flags.padding)
}

/// `q` is the path of a file that counts as content.
pub open spec fn is_listed(files: Seq<FileInfoModel>, q: Seq<Part>) -> bool {
    exists|i: int|
        0 <= i < files.len() && is_content(#[trigger] files[i]) && path_from(files[i].path) == q
}

/// How many files count as content.
pub open spec fn contents(files: Seq<FileInfoModel>) -> nat {
    files.filter(|f: FileInfoModel| is_content(f)).len()
}

/// The listed paths are those of the files that count as content.
pub proof fn law_listed_are_contents(files: Seq<FileInfoModel>)
    ensures
        listed_paths(files).len() == contents(files),
        forall|q: Seq<Part>| #[trigger] listed_paths(files).contains(q) <==> is_listed(files, q),
    decreases files.len(),
{
    let p = |f: FileInfoModel| is_content(f);
    reveal(Seq::filter);
    if files.len() > 0 {
        let t = files.drop_last();
        let last = files[files.len() - 1];
        law_listed_are_contents(t);
        let before = listed_paths(t);
        let after = listed_paths(files);
        assert forall|q: Seq<Part>| #[trigger] after.contains(q) <==> is_listed(files, q) by {
            assert(before.contains(q) <==> is_listed(t, q));
            if is_listed(t, q) {
                let i = choose|i: int|
                    0 <= i < t.len() && is_content(#[trigger] t[i]) && path_from(t[i].path) == q;
                assert(files[i] == t[i]);
            }
            if is_listed(files, q) {
                let i = choose|i: int|
                    0 <= i < files.len() && is_content(#[trigger] files[i]) && path_from(
                        files[i].path,
                    ) == q;
                if i < t.len() {
                    assert(t[i] == files[i]);
                }
            }
            if is_content(last) {
                assert(after == before.push(path_from(last.path)));
                if before.contains(q) {
                    let k = choose|k: int| 0 <= k < before.len() && before[k] == q;
                    assert(after[k] == q);
                }
                if after.contains(q) {
                    let k = choose|k: int| 0 <= k < after.len() && after[k] == q;
                    if k < before.len() {
                        assert(before[k] == q);
                    } else {
                        assert(files[files.len() - 1] == last);
                    }
                }
                if q == path_from(last.path) {
                    assert(after[before.len() as int] == q);
                }
            }
        }
    } else {
        assert forall|q: Seq<Part>| #[trigger] listed_paths(files).contains(q) <==> is_listed(
            files,
            q,
        ) by {}
    }
}

/// A hybrid torrent whose fields agree lists the same files twice: the paths in the file tree are
/// those of the v1 files that are not padding, and there are as many of them. A single file stands
/// under the name of the torrent.
pub proof fn law_agreement_is_about_paths(info: InfoModel<HybridModel>, layers: LayersModel)
    ensures
        ({
            let tree = tree_paths(Seq::empty(), info.kind.v2.file_tree);
            !mismatch(MetaModel::Hybrid { info, piece_layers: layers }) ==> match
                info.kind.v1.file_mode {
                FileModeModel::Single { .. } => tree.len() == 1 && tree[0] == path_of(
                    encode_utf8(info.name),
                ),
                FileModeModel::Multi { files } => tree.len() == contents(files) && (forall|
                    q: Seq<Part>,
                | #[trigger] tree.contains(q) <==> is_listed(files, q)),
            }
        }),
{
    let tree = tree_paths(Seq::empty(), info.kind.v2.file_tree);
    if let FileModeModel::Multi { files } = info.kind.v1.file_mode {
        let listed = listed_paths(files);
        let sorted = listed.sort_by(path_le());
        law_listed_are_contents(files);
        lemma_path_le_total();
        listed.lemma_sort_by_ensures(path_le());
        listed.to_multiset_ensures();
        sorted.to_multiset_ensures();
        assert forall|q: Seq<Part>| #[trigger] sorted.contains(q) <==> listed.contains(q) by {
            assert(sorted.contains(q) <==> sorted.to_multiset().count(q) > 0);
            assert(listed.contains(q) <==> listed.to_multiset().count(q) > 0);
        }
    }
}

/// Only hybrid torrents can disagree with themselves.
pub proof fn law_one_version_agrees(meta: MetaModel)
    ensures
        !(meta is Hybrid) ==> !mismatch(meta),
{
}

/// The path of a listed file is made of its components in order, if they are plain names.
pub proof fn law_path_is_made_of_components(components: Seq<Seq<char>>)
    requires
        forall|i: int|
            0 <= i < components.len() ==> plain_name(encode_utf8(#[trigger] components[i])),
    ensures
        path_from(components).len() == components.len(),
        forall|i: int|
            0 <= i < components.len() ==> path_from(components)[i] == Part::Normal(
                encode_utf8(#[trigger] components[i]),
            ),
    decreases components.len(),
{
    if components.len() > 0 {
        let t = components.drop_last();
        assert forall|i: int| 0 <= i < t.len() implies plain_name(
            encode_utf8(#[trigger] t[i]),
        ) by {
            assert(t[i] == components[i]);
        }
        law_path_is_made_of_components(t);
        assert(plain_name(encode_utf8(components[components.len() - 1])));
        lemma_join_plain(path_from(t), encode_utf8(components.last()));
        assert forall|i: int| 0 <= i < components.len() implies path_from(components)[i]
            == Part::Normal(encode_utf8(#[trigger] components[i])) by {
            if i < t.len() {
                assert(t[i] == components[i]);
            }
        }
    }
}

} // verus!
