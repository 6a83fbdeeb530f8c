//! What an owned torrent keeps of the one that it was made of.
use vstd::prelude::*;

use crate::torrent::borrow::{
    file_info_borrows, file_mode_borrows, node_borrows, torrent_borrows, tree_borrows,
};
use crate::torrent::error::Rejection;
use crate::torrent::laws::editing::v1_fields_of;
use crate::torrent::laws::reading::{
    parsed_name, parsed_piece_length, parsed_private, parsed_v1,
};
use crate::torrent::model::{FileInfoModel, FileModeModel, TorrentModel};
use crate::torrent::owned::{
    plain_file_of, plain_info_of, plain_torrent, plain_torrent_of, OwnedTorrent,
};
use crate::torrent::query::{
    files_size, meta_files, meta_name, meta_piece_length, meta_private, meta_size, meta_source,
};
use crate::torrent::read::ParsedModel;
use crate::torrent::types::{FileInfo, FileMode, FileTree, FileTreeNode, Torrent, TorrentMeta};

verus! {

/// A file has the same path, length and checksum as another, and no attributes.
pub open spec fn same_file(a: FileInfoModel, b: FileInfoModel) -> bool {
    &&& a.path == b.path
    &&& a.length == b.length
    &&& a.md5sum == b.md5sum
    &&& a.attr is None
}

/// The files are the same, but for the attributes.
pub open spec fn same_files(a: FileModeModel, b: FileModeModel) -> bool {
    match (a, b) {
        (FileModeModel::Single { .. }, FileModeModel::Single { .. }) => a == b,
        (FileModeModel::Multi { files }, FileModeModel::Multi { files: others }) => {
            &&& files.len() == others.len()
            &&& forall|i: int| 0 <= i < files.len() ==> same_file(#[trigger] files[i], others[i])
        },
        _ => false,
    }
}

proof fn lemma_same_size(a: Seq<FileInfoModel>, b: Seq<FileInfoModel>)
    requires
        a.len() == b.len(),
        forall|i: int| 0 <= i < a.len() ==> same_file(#[trigger] a[i], b[i]),
    ensures
        files_size(a) == files_size(b),
    decreases a.len(),
{
    if a.len() > 0 {
        let s = a.drop_last();
        let t = b.drop_last();
        assert forall|i: int| 0 <= i < s.len() implies same_file(#[trigger] s[i], t[i]) by {
            assert(s[i] == a[i] && t[i] == b[i]);
        }
        assert(same_file(a[a.len() - 1], b[b.len() - 1]));
        lemma_same_size(s, t);
    }
}

/// A torrent can be owned if it has v1 fields. An owned torrent is a v1-only one. It keeps the v1
/// fields, the name, the piece length, whether it is private, the trackers, the date, the comment,
/// the creator and the encoding, but not the source, the web seeds, the attributes of the files or
/// the v2 fields.
pub proof fn law_owned_torrents_keep_the_v1_fields(t: TorrentModel)
    ensures
        plain_torrent(t) is None <==> v1_fields_of(t.meta) is None,
        plain_torrent(t) matches Some(o) ==> {
            &&& o.meta is V1
            &&& meta_name(o.meta) == meta_name(t.meta)
            &&& meta_piece_length(o.meta) == meta_piece_length(t.meta)
            &&& meta_private(o.meta) == meta_private(t.meta)
            &&& meta_source(o.meta) is None
            &&& o.tracker_tiers == t.tracker_tiers
            &&& o.creation_date == t.creation_date
            &&& o.comment == t.comment
            &&& o.created_by == t.created_by
            &&& o.encoding == t.encoding
            &&& o.web_seeds is None
            &&& v1_fields_of(o.meta)->0.pieces == v1_fields_of(t.meta)->0.pieces
            &&& same_files(
                v1_fields_of(o.meta)->0.file_mode,
                v1_fields_of(t.meta)->0.file_mode,
            )
            &&& t.meta is V1 ==> meta_size(o.meta) == meta_size(t.meta) && meta_files(o.meta)
                == meta_files(t.meta)
        },
        plain_torrent(t) matches Some(o) ==> plain_torrent(o) == Some(o),
{
    if let Some(o) = plain_torrent(t) {
        let mode = v1_fields_of(o.meta)->0.file_mode;
        if let FileModeModel::Multi { files } = mode {
            lemma_same_size(files, v1_fields_of(t.meta)->0.file_mode->files);
            assert(plain_torrent(o)->0.meta->V1_info.kind.file_mode->files =~= files);
        }
    }
}

/// The trackers of an owned torrent are those of the tiers, whether or not there is a tracker
/// beside them. A tracker that stands alone is a tier of its own.
pub proof fn law_tiers_take_the_place_of_the_tracker(t: OwnedTorrent)
    ensures
        t.announce_list matches Some(tiers) ==> t@.tracker_tiers matches Some(all) && all.len()
            == tiers@.len() && forall|i: int|
            0 <= i < all.len() ==> #[trigger] all[i] == tiers@[i]@,
        t.announce_list is None && t.announce is Some ==> t@.tracker_tiers == Some(
            seq![seq![t.announce->0@]],
        ),
        t.announce_list is None && t.announce is None ==> t@.tracker_tiers is None,
{
}

/// What is read into an owned form is read as in any other, and has to have v1 fields.
pub proof fn law_owned_forms_are_read(
    file: Result<FileInfoModel, Rejection>,
    info: Result<ParsedModel, Rejection>,
    torrent: Result<TorrentModel, Rejection>,
)
    ensures
        match plain_file_of(file) {
            Ok(f) => file is Ok && same_file(f, file->Ok_0),
            Err(e) => file is Err && file->Err_0 == e,
        },
        match plain_info_of(info) {
            Ok(i) => info matches Ok(p) && {
                &&& parsed_v1(p) matches Some(v1)
                &&& i.kind.pieces == v1.pieces
                &&& same_files(i.kind.file_mode, v1.file_mode)
                &&& i.name == parsed_name(p)
                &&& i.piece_length == parsed_piece_length(p)
                &&& i.private == parsed_private(p)
                &&& i.source is None
            },
            Err(e) => match info {
                Ok(p) => parsed_v1(p) is None && e == Rejection::MalformedV1,
                Err(f) => e == f,
            },
        },
        match plain_torrent_of(torrent) {
            Ok(o) => torrent is Ok && plain_torrent(torrent->Ok_0) == Some(o),
            Err(e) => match torrent {
                Ok(t) => v1_fields_of(t.meta) is None && e == Rejection::MalformedV1,
                Err(f) => e == f,
            },
        },
{
}

/// A torrent that borrows has no texts or hashes of its own.
pub proof fn law_borrowed_torrents_own_nothing(t: Torrent<'_>)
    requires
        torrent_borrows(t),
    ensures
        t.comment matches Some(s) ==> s is Borrowed,
        t.created_by matches Some(s) ==> s is Borrowed,
        t.encoding matches Some(s) ==> s is Borrowed,
        match t.meta {
            TorrentMeta::V1 { info } => {
                &&& info.name is Borrowed
                &&& info.source matches Some(s) ==> s is Borrowed
                &&& info.kind.pieces is Borrowed
            },
            TorrentMeta::V2 { info, piece_layers } => {
                &&& info.name is Borrowed
                &&& info.source matches Some(s) ==> s is Borrowed
                &&& forall|i: int|
                    0 <= i < piece_layers.0@.len() ==> (#[trigger] piece_layers.0@[i]).1 is Borrowed
            },
            TorrentMeta::Hybrid { info, piece_layers } => {
                &&& info.name is Borrowed
                &&& info.source matches Some(s) ==> s is Borrowed
                &&& info.kind.v1.pieces is Borrowed
                &&& forall|i: int|
                    0 <= i < piece_layers.0@.len() ==> (#[trigger] piece_layers.0@[i]).1 is Borrowed
            },
        },
{
}

/// Files and nodes that borrow have no texts or hashes of their own.
pub proof fn law_borrowed_files_own_nothing(
    mode: FileMode<'_>,
    file: FileInfo<'_>,
    tree: FileTree<'_>,
    i: int,
)
    ensures
        file_mode_borrows(mode) ==> match mode {
            FileMode::Single { md5sum, .. } => md5sum matches Some(s) ==> s is Borrowed,
            FileMode::Multi { files } => 0 <= i < files@.len() ==> file_info_borrows(files@[i]),
        },
        file_info_borrows(file) ==> {
            &&& file.md5sum matches Some(s) ==> s is Borrowed
            &&& 0 <= i < file.path@.len() ==> file.path@[i] is Borrowed
        },
        tree_borrows(tree) && 0 <= i < tree.0@.len() ==> {
            &&& i < tree.0.keys().len() ==> tree.0.keys()[i] is Borrowed
            &&& match tree.0@[i].1 {
                FileTreeNode::Directory(sub) => tree_borrows(sub),
                FileTreeNode::File(leaf) => leaf.pieces_root matches Some(root)
                    ==> root is Borrowed,
            }
        },
{
    reveal_with_fuel(tree_borrows, 2);
    reveal_with_fuel(node_borrows, 2);
}

} // verus!
