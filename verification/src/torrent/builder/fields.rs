//! The fields of a torrent that is built.
use std::borrow::Cow;

use vstd::arithmetic::div_mod::{
    lemma_add_mod_noop, lemma_fundamental_div_mod, lemma_mod_bound, lemma_mod_multiples_basic,
    lemma_mod_self_0, lemma_small_mod,
};
use vstd::prelude::*;
use vstd::utf8::{decode_utf8, encode_utf8_decode_utf8, valid_utf8};

use crate::bencode::laws::lemma_ascii_is_utf8;
use crate::decimal::{decimal, lemma_decimal_shape, push_decimal};
use crate::num::is_power_of_two;
use crate::path::{lemma_join_name, part_text, FilePath, Part};
use crate::sorting::views;
use crate::torrent::attr::{no_flags, FileInfoAttr, FileInfoAttrFlags};
use crate::torrent::builder::error::{Error, Obstacle};
use crate::torrent::builder::layout::{EntryModel, FileEntry};
use crate::torrent::builder::merkle::{
    file_hashes, hash_obstacle, v2_file_hashes, FileHashes, V2FileHashes, V2_BLOCK_SIZE,
    V2_MAX_LENGTH,
};
use crate::torrent::builder::pieces::{
    lengths_u64, piece_hashes, plan_obstacle, stream, v1_piece_hashes, zeros, Source,
};
use crate::torrent::builder::tree::{
    component_text, file_tree, has_file_name, layers_with, no_clash, utf8_path,
    v2_file_tree_and_piece_layers,
};
use crate::torrent::model::{
    FileInfoModel, FileModeModel, HybridModel, LayersModel, V1Model, V2Model,
};
use crate::torrent::types::{
    texts, FileInfo, FileMode, InfoHybrid, InfoV1, InfoV2, PieceLayers,
};

verus! {

/// The texts of the names on a path.
pub open spec fn path_texts(path: Seq<Part>) -> Seq<Seq<char>> {
    Seq::new(path.len(), |i: int| decode_utf8(part_text(path[i])))
}

/// The attributes of a padding file.
pub open spec fn padding_flags() -> FileInfoAttrFlags {
    FileInfoAttrFlags { padding: true, ..no_flags() }
}

/// What a torrent says of a file.
pub open spec fn file_info(e: EntryModel) -> FileInfoModel {
    FileInfoModel {
        attr: if e.padding {
            Some(padding_flags())
        } else {
            None
        },
        length: e.length,
        md5sum: None,
        path: path_texts(e.meta_path),
    }
}

/// What a torrent says of some files.
pub open spec fn file_infos(files: Seq<EntryModel>) -> Seq<FileInfoModel> {
    Seq::new(files.len(), |i: int| file_info(files[i]))
}

/// All names of some files are valid UTF-8.
pub open spec fn utf8_names(files: Seq<EntryModel>) -> bool {
    forall|i: int| 0 <= i < files.len() ==> utf8_path((#[trigger] files[i]).meta_path)
}

/// What a torrent says of its files: a file that was added by itself is not listed.
pub open spec fn file_mode(infos: Seq<FileInfoModel>, single_file: bool) -> FileModeModel {
    if infos.len() == 1 && single_file {
        FileModeModel::Single { length: infos[0].length, md5sum: None }
    } else {
        FileModeModel::Multi { files: infos }
    }
}

/// The texts of the names on a path, if they are valid UTF-8.
fn texts_on_path(path: &FilePath) -> (r: Option<Vec<Cow<'static, str>>>)
    ensures
        match r {
            Some(t) => utf8_path(path@) && texts(t@) == path_texts(path@),
            None => !utf8_path(path@),
        },
{
    let mut r: Vec<Cow<'static, str>> = Vec::with_capacity(path.len());
    let mut i: usize = 0;
    while i < path.len()
        invariant
            i <= path@.len(),
            r@.len() == i,
            forall|k: int| 0 <= k < i ==> valid_utf8(part_text(#[trigger] path@[k])),
            forall|k: int| 0 <= k < i ==> (#[trigger] r@[k])@ == path_texts(path@)[k],
        decreases path@.len() - i,
    {
        match component_text(path.component(i)) {
            Some(text) => {
                proof {
                    encode_utf8_decode_utf8(text@);
                }
                r.push(Cow::Owned(text));
            },
            None => {
                assert(!valid_utf8(part_text(path@[i as int])));
                return None;
            },
        }
        i = i + 1;
    }
    assert(texts(r@) =~= path_texts(path@));
    Some(r)
}

/// What a torrent says of some files.
pub fn v1_file_infos(files: &[FileEntry]) -> (r: Result<Vec<FileInfo<'static>>, Error>)
    ensures
        match r {
            Ok(infos) => utf8_names(views(files@)) && views(infos@) == file_infos(views(files@)),
            Err(e) => !utf8_names(views(files@)) && e@ == Obstacle::NonUtf8Name,
        },
{
    let ghost all = views(files@);
    let mut r: Vec<FileInfo<'static>> = Vec::with_capacity(files.len());
    let mut i: usize = 0;
    while i < files.len()
        invariant
            i <= files@.len(),
            all == views(files@),
            r@.len() == i,
            forall|k: int| 0 <= k < i ==> utf8_path((#[trigger] all[k]).meta_path),
            forall|k: int| 0 <= k < i ==> (#[trigger] r@[k])@ == file_info(all[k]),
        decreases files@.len() - i,
    {
        let file: &FileEntry = &files[i];
        assert(all[i as int] == file@);
        let path: Vec<Cow<'static, str>> = match texts_on_path(&file.meta_path) {
            Some(path) => path,
            None => {
                assert(!utf8_path(all[i as int].meta_path));
                return Err(Error::NonUtf8Name);
            },
        };
        let attr: Option<FileInfoAttr> = if file.padding {
            Some(
                FileInfoAttr::new(
                    FileInfoAttrFlags {
                        symlink: false,
                        executable: false,
                        hidden: false,
                        padding: true,
                    },
                ),
            )
        } else {
            None
        };
        let info: FileInfo<'static> = FileInfo {
            attr,
            length: file.length,
            md5sum: None,
            path,
        };
        assert(info@ =~= file_info(file@));
        r.push(info);
        i = i + 1;
    }
    assert(views(r@) =~= file_infos(all));
    Ok(r)
}

/// Lists the files, or gives the length of the only one.
pub(crate) fn listed(infos: Vec<FileInfo<'static>>, single_file: bool) -> (r: FileMode<'static>)
    ensures
        r@ == file_mode(views(infos@), single_file),
{
    if infos.len() == 1 && single_file {
        FileMode::Single { length: infos[0].length, md5sum: None }
    } else {
        FileMode::Multi { files: infos }
    }
}

/// The v1 fields of a torrent over some files with their contents.
pub open spec fn v1_model(
    files: Seq<EntryModel>,
    parts: Seq<Seq<u8>>,
    piece_length: int,
    single_file: bool,
) -> V1Model {
    V1Model {
        pieces: piece_hashes(stream(parts), piece_length),
        file_mode: file_mode(file_infos(files), single_file),
    }
}

/// The v1 fields of a torrent over some files, or what stands in the way of it.
pub open spec fn v1_result(
    files: Seq<EntryModel>,
    parts: Seq<Seq<u8>>,
    piece_length: usize,
    single_file: bool,
) -> Result<V1Model, Obstacle> {
    if !utf8_names(files) {
        Err(Obstacle::NonUtf8Name)
    } else {
        match plan_obstacle(lengths_u64(parts), piece_length) {
            Some(o) => Err(o),
            None => Ok(v1_model(files, parts, piece_length as int, single_file)),
        }
    }
}

/// The v1 fields of a torrent over some files with their contents.
pub fn v1_fields(
    files: &[FileEntry],
    sources: &[Source<'_>],
    piece_length: usize,
    single_file: bool,
) -> (r: Result<InfoV1<'static>, Error>)
    requires
        piece_length > 0,
        stream(views(sources@)).len() <= u64::MAX,
    ensures
        match r {
            Ok(info) => v1_result(views(files@), views(sources@), piece_length, single_file) == Ok::<
                V1Model,
                Obstacle,
            >(info@),
            Err(e) => v1_result(views(files@), views(sources@), piece_length, single_file) == Err::<
                V1Model,
                Obstacle,
            >(e@),
        },
{
    let infos: Vec<FileInfo<'static>> = match v1_file_infos(files) {
        Ok(infos) => infos,
        Err(e) => return Err(e),
    };
    let hashes: Vec<[u8; 20]> = match v1_piece_hashes(sources, piece_length) {
        Ok(hashes) => hashes,
        Err(e) => return Err(e),
    };
    let file_mode: FileMode<'static> = listed(infos, single_file);
    Ok(InfoV1 { pieces: Cow::Owned(hashes), file_mode })
}

/// The hashes of some files.
pub open spec fn all_hashes(parts: Seq<Seq<u8>>, piece_length: int) -> Seq<FileHashes> {
    Seq::new(parts.len(), |i: int| file_hashes(parts[i], piece_length))
}

/// What stands in the way of hashing some files.
pub open spec fn hashes_obstacle(lengths: Seq<u64>) -> Option<Obstacle>
    decreases lengths.len(),
{
    if lengths.len() == 0 {
        None
    } else {
        match hashes_obstacle(lengths.drop_last()) {
            Some(o) => Some(o),
            None => hash_obstacle(lengths.last()),
        }
    }
}

proof fn lemma_hashes_obstacle(lengths: Seq<u64>, k: int)
    requires
        0 <= k <= lengths.len(),
        hashes_obstacle(lengths.take(k)) is Some,
    ensures
        hashes_obstacle(lengths) == hashes_obstacle(lengths.take(k)),
    decreases lengths.len() - k,
{
    if k < lengths.len() {
        assert(lengths.take(k + 1).drop_last() =~= lengths.take(k));
        lemma_hashes_obstacle(lengths, k + 1);
    } else {
        assert(lengths.take(k) =~= lengths);
    }
}

/// The contents of some files.
pub open spec fn contents_of(contents: Seq<&[u8]>) -> Seq<Seq<u8>> {
    Seq::new(contents.len(), |i: int| contents[i]@)
}

/// The hashes of some files.
fn hash_files(contents: &[&[u8]], piece_length: usize) -> (r: Result<Vec<V2FileHashes>, Error>)
    requires
        is_power_of_two(piece_length as nat),
        piece_length >= V2_BLOCK_SIZE,
        forall|i: int| 0 <= i < contents@.len() ==> (#[trigger] contents@[i])@.len() <= V2_MAX_LENGTH,
    ensures
        match r {
            Ok(hashes) => hashes_obstacle(lengths_u64(contents_of(contents@))) is None && views(
                hashes@,
            ) == all_hashes(contents_of(contents@), piece_length as int),
            Err(e) => hashes_obstacle(lengths_u64(contents_of(contents@))) == Some(e@),
        },
{
    let ghost parts = contents_of(contents@);
    let ghost lengths = lengths_u64(parts);
    let mut r: Vec<V2FileHashes> = Vec::with_capacity(contents.len());
    let mut i: usize = 0;
    assert(lengths.take(0) =~= Seq::<u64>::empty());
    while i < contents.len()
        invariant
            i <= contents@.len(),
            is_power_of_two(piece_length as nat),
            piece_length >= V2_BLOCK_SIZE,
            forall|k: int|
                0 <= k < contents@.len() ==> (#[trigger] contents@[k])@.len() <= V2_MAX_LENGTH,
            parts == contents_of(contents@),
            lengths == lengths_u64(parts),
            hashes_obstacle(lengths.take(i as int)) is None,
            r@.len() == i,
            forall|k: int|
                0 <= k < i ==> (#[trigger] r@[k])@ == file_hashes(parts[k], piece_length as int),
        decreases contents@.len() - i,
    {
        proof {
            let t = lengths.take(i + 1);
            assert(t.drop_last() =~= lengths.take(i as int));
            assert(t.last() == contents@[i as int]@.len() as u64);
        }
        match v2_file_hashes(contents[i], piece_length) {
            Ok(hashes) => r.push(hashes),
            Err(e) => {
                proof {
                    lemma_hashes_obstacle(lengths, i + 1);
                }
                return Err(e);
            },
        }
        i = i + 1;
    }
    assert(lengths.take(i as int) =~= lengths);
    assert(views(r@) =~= all_hashes(parts, piece_length as int));
    Ok(r)
}

/// The v2 fields of a torrent over some files with their contents.
pub open spec fn v2_model(files: Seq<EntryModel>, parts: Seq<Seq<u8>>, piece_length: int) -> V2Model {
    V2Model { file_tree: file_tree(files, all_hashes(parts, piece_length)) }
}

/// The v2 fields and the piece layers of a torrent over some files with their contents.
pub fn v2_fields(files: &[FileEntry], contents: &[&[u8]], piece_length: usize) -> (r: Result<
    (InfoV2<'static>, PieceLayers<'static>),
    Error,
>)
    requires
        is_power_of_two(piece_length as nat),
        piece_length >= V2_BLOCK_SIZE,
        files@.len() == contents@.len(),
        forall|i: int| 0 <= i < contents@.len() ==> (#[trigger] contents@[i])@.len() <= V2_MAX_LENGTH,
        no_clash(views(files@)),
        forall|i: int|
            0 <= i < files@.len() ==> has_file_name((#[trigger] files@[i]).meta_path@)
                && utf8_path(files@[i].meta_path@),
    ensures
        match r {
            Ok((info, layers)) => hashes_obstacle(lengths_u64(contents_of(contents@))) is None
                && info@ == v2_model(views(files@), contents_of(contents@), piece_length as int)
                && layers@ == layers_with(
                all_hashes(contents_of(contents@), piece_length as int),
            ),
            Err(e) => hashes_obstacle(lengths_u64(contents_of(contents@))) == Some(e@),
        },
{
    let hashes: Vec<V2FileHashes> = match hash_files(contents, piece_length) {
        Ok(hashes) => hashes,
        Err(e) => return Err(e),
    };
    assert(hashes@.len() == views(hashes@).len());
    let (file_tree, layers) = v2_file_tree_and_piece_layers(files, &hashes);
    Ok((InfoV2 { file_tree }, layers))
}

/// The number of zeros between a file of `len` bytes and the next piece.
pub open spec fn pad_len(len: int, piece_length: int) -> int {
    (piece_length - len % piece_length) % piece_length
}

/// The entry of a padding file.
pub open spec fn pad_entry(n: int) -> EntryModel {
    EntryModel {
        disk_path: Seq::empty(),
        meta_path: seq![
            Part::Normal(seq![46u8, 112u8, 97u8, 100u8]),
            Part::Normal(decimal(n as nat)),
        ],
        length: n as u64,
        padding: true,
    }
}

/// Some files, each one that does not end where a piece ends followed by a padding file.
pub open spec fn padded_entries(files: Seq<EntryModel>, piece_length: int) -> Seq<EntryModel>
    decreases files.len(),
{
    if files.len() == 0 {
        Seq::empty()
    } else {
        let f = files.last();
        let s = padded_entries(files.drop_last(), piece_length).push(f);
        if pad_len(f.length as int, piece_length) > 0 {
            s.push(pad_entry(pad_len(f.length as int, piece_length)))
        } else {
            s
        }
    }
}

/// The contents of some files, each one that does not end where a piece ends followed by zeros.
pub open spec fn padded_parts(parts: Seq<Seq<u8>>, piece_length: int) -> Seq<Seq<u8>>
    decreases parts.len(),
{
    if parts.len() == 0 {
        Seq::empty()
    } else {
        let s = padded_parts(parts.drop_last(), piece_length).push(parts.last());
        let n = pad_len(parts.last().len() as int, piece_length);
        if n > 0 {
            s.push(zeros(n as nat))
        } else {
            s
        }
    }
}

/// The path of a padding file.
fn pad_path(n: u64) -> (r: FilePath)
    requires
        n > 0,
    ensures
        r@ == pad_entry(n as int).meta_path,
{
    let mut r: FilePath = FilePath::new();
    let dir: Vec<u8> = vec![46u8, 112u8, 97u8, 100u8];
    r.push(&dir);
    proof {
        assert(dir@ =~= seq![46u8, 112u8, 97u8, 100u8]);
        lemma_join_name(Seq::empty(), dir@);
        assert(dir@.len() == 4);
        assert(seq![46u8].len() == 1);
        assert(seq![46u8, 46u8].len() == 2);
    }
    let mut name: Vec<u8> = Vec::new();
    push_decimal(&mut name, n);
    r.push(&name);
    proof {
        assert(name@ =~= decimal(n as nat));
        lemma_decimal_shape(n as nat);
        lemma_join_name(seq![Part::Normal(dir@)], name@);
        assert(name@[0] != 46);
        assert(seq![46u8][0] == 46);
        assert(seq![46u8, 46u8][0] == 46);
        assert(r@ =~= pad_entry(n as int).meta_path);
    }
    r
}

impl FileEntry {
    /// A second entry like this one.
    fn duplicate(&self) -> (r: FileEntry)
        ensures
            r@ == self@,
    {
        FileEntry {
            disk_path: self.disk_path.duplicate(),
            meta_path: self.meta_path.duplicate(),
            length: self.length,
            padding: self.padding,
        }
    }
}

/// Some files and their contents, with padding between them.
fn pad_files<'c>(files: &[FileEntry], contents: &[&'c [u8]], piece_length: usize) -> (r: (
    Vec<FileEntry>,
    Vec<Source<'c>>,
))
    requires
        piece_length > 0,
        files@.len() == contents@.len(),
        forall|i: int|
            0 <= i < files@.len() ==> (#[trigger] files@[i]).length == contents@[i]@.len(),
    ensures
        views(r.0@) == padded_entries(views(files@), piece_length as int),
        views(r.1@) == padded_parts(contents_of(contents@), piece_length as int),
        r.0@.len() == r.1@.len(),
{
    let ghost all = views(files@);
    let ghost parts = contents_of(contents@);
    let ghost n = piece_length as int;
    let mut padded: Vec<FileEntry> = Vec::with_capacity(files.len());
    let mut sources: Vec<Source<'c>> = Vec::with_capacity(files.len());
    let mut i: usize = 0;
    proof {
        assert(all.take(0) =~= Seq::<EntryModel>::empty());
        assert(parts.take(0) =~= Seq::<Seq<u8>>::empty());
        assert(views(padded@) =~= Seq::<EntryModel>::empty());
        assert(views(sources@) =~= Seq::<Seq<u8>>::empty());
    }
    while i < files.len()
        invariant
            i <= files@.len(),
            n == piece_length,
            n > 0,
            files@.len() == contents@.len(),
            all == views(files@),
            parts == contents_of(contents@),
            forall|k: int|
                0 <= k < files@.len() ==> (#[trigger] files@[k]).length == contents@[k]@.len(),
            views(padded@) == padded_entries(all.take(i as int), n),
            views(sources@) == padded_parts(parts.take(i as int), n),
            padded@.len() == sources@.len(),
        decreases files@.len() - i,
    {
        let ghost padded0 = views(padded@);
        let ghost sources0 = views(sources@);
        proof {
            let t = all.take(i + 1);
            assert(t.drop_last() =~= all.take(i as int));
            assert(t.last() == files@[i as int]@);
            let u = parts.take(i + 1);
            assert(u.drop_last() =~= parts.take(i as int));
            assert(u.last() == contents@[i as int]@);
        }
        let file: FileEntry = files[i].duplicate();
        let ghost entry = file@;
        padded.push(file);
        sources.push(Source::Bytes(contents[i]));
        assert(views(padded@) =~= padded0.push(entry));
        assert(views(sources@) =~= sources0.push(contents@[i as int]@));
        let length: u64 = files[i].length;
        let step: u64 = piece_length as u64;
        let rest: u64 = length % step;
        let pad: u64 = (step - rest) % step;
        assert(pad == pad_len(length as int, n));
        if pad > 0 {
            let ghost padded1 = views(padded@);
            let ghost sources1 = views(sources@);
            let file: FileEntry = FileEntry {
                disk_path: FilePath::new(),
                meta_path: pad_path(pad),
                length: pad,
                padding: true,
            };
            assert(file@ =~= pad_entry(pad as int));
            padded.push(file);
            sources.push(Source::Zeros(pad));
            assert(views(padded@) =~= padded1.push(pad_entry(pad as int)));
            assert(views(sources@) =~= sources1.push(zeros(pad as nat)));
        }
        i = i + 1;
    }
    assert(all.take(i as int) =~= all);
    assert(parts.take(i as int) =~= parts);
    (padded, sources)
}

/// The names of padding files are valid UTF-8.
proof fn lemma_pad_utf8(n: int)
    requires
        n > 0,
    ensures
        utf8_path(pad_entry(n).meta_path),
{
    lemma_decimal_shape(n as nat);
    lemma_ascii_is_utf8(decimal(n as nat));
    lemma_ascii_is_utf8(seq![46u8, 112u8, 97u8, 100u8]);
}

/// Padding does not change whether all names are valid UTF-8.
proof fn lemma_padded_utf8(files: Seq<EntryModel>, piece_length: int)
    ensures
        utf8_names(padded_entries(files, piece_length)) == utf8_names(files),
    decreases files.len(),
{
    if files.len() > 0 {
        let rest = files.drop_last();
        let f = files.last();
        lemma_padded_utf8(rest, piece_length);
        let before = padded_entries(rest, piece_length);
        let n = pad_len(f.length as int, piece_length);
        if n > 0 {
            lemma_pad_utf8(n);
        }
        let after = padded_entries(files, piece_length);
        if utf8_names(files) {
            assert forall|i: int| 0 <= i < rest.len() implies utf8_path(
                (#[trigger] rest[i]).meta_path,
            ) by {
                assert(utf8_path(files[i].meta_path));
            }
            assert(utf8_path(files[files.len() - 1].meta_path));
            assert forall|i: int| 0 <= i < after.len() implies utf8_path(
                (#[trigger] after[i]).meta_path,
            ) by {
                if i < before.len() {
                    assert(utf8_path(before[i].meta_path));
                }
            }
        }
        if utf8_names(after) {
            assert forall|i: int| 0 <= i < before.len() implies utf8_path(
                (#[trigger] before[i]).meta_path,
            ) by {
                assert(utf8_path(after[i].meta_path));
            }
            assert(utf8_path(after[before.len() as int].meta_path));
            assert forall|i: int| 0 <= i < files.len() implies utf8_path(
                (#[trigger] files[i]).meta_path,
            ) by {
                if i < rest.len() {
                    assert(utf8_path(rest[i].meta_path));
                }
            }
        }
    }
}

/// Some files need padding exactly if padding makes the list longer.
pub open spec fn is_padded(files: Seq<EntryModel>, piece_length: int) -> bool {
    padded_entries(files, piece_length).len() != files.len()
}

/// The fields of a hybrid torrent over some files with their contents, or what stands in the way
/// of it.
pub open spec fn hybrid_result(
    files: Seq<EntryModel>,
    parts: Seq<Seq<u8>>,
    piece_length: usize,
    single_file: bool,
) -> Result<(HybridModel, LayersModel), Obstacle> {
    let n = piece_length as int;
    match hashes_obstacle(lengths_u64(parts)) {
        Some(o) => Err(o),
        None => match plan_obstacle(lengths_u64(padded_parts(parts, n)), piece_length) {
            Some(o) => Err(o),
            None => if !utf8_names(files) {
                Err(Obstacle::NonUtf8Name)
            } else {
                Ok(
                    (
                        HybridModel {
                            v1: v1_model(
                                padded_entries(files, n),
                                padded_parts(parts, n),
                                n,
                                single_file && !is_padded(files, n),
                            ),
                            v2: v2_model(files, parts, n),
                        },
                        layers_with(all_hashes(parts, n)),
                    ),
                )
            },
        },
    }
}

/// The fields of a hybrid torrent over some files with their contents.
pub fn hybrid_fields(
    files: &[FileEntry],
    contents: &[&[u8]],
    piece_length: usize,
    single_file: bool,
) -> (r: Result<(InfoHybrid<'static>, PieceLayers<'static>), Error>)
    requires
        is_power_of_two(piece_length as nat),
        piece_length >= V2_BLOCK_SIZE,
        files@.len() == contents@.len(),
        forall|i: int|
            0 <= i < files@.len() ==> (#[trigger] files@[i]).length == contents@[i]@.len(),
        forall|i: int| 0 <= i < contents@.len() ==> (#[trigger] contents@[i])@.len() <= V2_MAX_LENGTH,
        stream(padded_parts(contents_of(contents@), piece_length as int)).len() <= u64::MAX,
        no_clash(views(files@)),
        forall|i: int| 0 <= i < files@.len() ==> has_file_name((#[trigger] files@[i]).meta_path@),
    ensures
        match r {
            Ok((info, layers)) => hybrid_result(
                views(files@),
                contents_of(contents@),
                piece_length,
                single_file,
            ) == Ok::<(HybridModel, LayersModel), Obstacle>((info@, layers@)),
            Err(e) => hybrid_result(
                views(files@),
                contents_of(contents@),
                piece_length,
                single_file,
            ) == Err::<(HybridModel, LayersModel), Obstacle>(e@),
        },
{
    let ghost n = piece_length as int;
    let (padded, sources) = pad_files(files, contents, piece_length);
    assert(padded@.len() == views(padded@).len());
    let single_file: bool = single_file && padded.len() == files.len();
    let hashes: Vec<V2FileHashes> = match hash_files(contents, piece_length) {
        Ok(hashes) => hashes,
        Err(e) => return Err(e),
    };
    let pieces: Vec<[u8; 20]> = match v1_piece_hashes(&sources, piece_length) {
        Ok(pieces) => pieces,
        Err(e) => return Err(e),
    };
    proof {
        lemma_padded_utf8(views(files@), n);
    }
    let infos: Vec<FileInfo<'static>> = match v1_file_infos(&padded) {
        Ok(infos) => infos,
        Err(e) => return Err(e),
    };
    let file_mode: FileMode<'static> = listed(infos, single_file);
    proof {
        assert(hashes@.len() == views(hashes@).len());
        assert forall|i: int| 0 <= i < files@.len() implies has_file_name(
            (#[trigger] files@[i]).meta_path@,
        ) && utf8_path(files@[i].meta_path@) by {
            assert(utf8_path(views(files@)[i].meta_path));
        }
    }
    let (file_tree, layers) = v2_file_tree_and_piece_layers(files, &hashes);
    let v1: InfoV1<'static> = InfoV1 { pieces: Cow::Owned(pieces), file_mode };
    let v2: InfoV2<'static> = InfoV2 { file_tree };
    Ok((InfoHybrid { v1, v2 }, layers))
}

/// In the padded stream every file starts where a piece starts: what stands before it is a whole
/// number of pieces.
pub proof fn law_padding_aligns_files(parts: Seq<Seq<u8>>, piece_length: int, i: int)
    requires
        piece_length > 0,
        0 <= i < parts.len(),
    ensures
        padded_parts(parts.take(i), piece_length).push(parts[i]).is_prefix_of(
            padded_parts(parts, piece_length),
        ),
        stream(padded_parts(parts.take(i), piece_length)).len() as int % piece_length == 0,
    decreases parts.len(),
{
    let t = parts.drop_last();
    let s = padded_parts(t, piece_length);
    let whole = padded_parts(parts, piece_length);
    lemma_padded_len(parts.take(i), piece_length);
    let part = padded_parts(parts.take(i), piece_length).push(parts[i]);
    if i == parts.len() - 1 {
        assert(parts.take(i) =~= t);
        assert(part =~= whole.subrange(0, part.len() as int));
    } else {
        law_padding_aligns_files(t, piece_length, i);
        assert(t.take(i) =~= parts.take(i));
        assert(part == s.subrange(0, part.len() as int));
        assert(s =~= whole.subrange(0, s.len() as int));
        assert(part =~= whole.subrange(0, part.len() as int));
    }
}

/// A padded stream is a whole number of pieces.
proof fn lemma_padded_len(parts: Seq<Seq<u8>>, piece_length: int)
    requires
        piece_length > 0,
    ensures
        stream(padded_parts(parts, piece_length)).len() as int % piece_length == 0,
    decreases parts.len(),
{
    if parts.len() > 0 {
        let t = parts.drop_last();
        lemma_padded_len(t, piece_length);
        let before = padded_parts(t, piece_length);
        let whole = padded_parts(parts, piece_length);
        let len = parts.last().len() as int;
        let n = pad_len(len, piece_length);
        let with_file = before.push(parts.last());
        assert(with_file.drop_last() =~= before);
        lemma_mod_bound(len, piece_length);
        lemma_mod_bound(piece_length - len % piece_length, piece_length);
        if n > 0 {
            assert(whole.drop_last() =~= with_file);
        }
        let a = stream(before).len() as int;
        assert(stream(with_file) == stream(before) + parts.last());
        lemma_pad_len(len, piece_length);
        if n > 0 {
            assert(stream(whole) == stream(with_file) + zeros(n as nat));
        } else {
            assert(whole == with_file);
        }
        assert(stream(whole).len() == a + (len + n));
        lemma_add_mod_noop(a, len + n, piece_length);
        lemma_small_mod(0, piece_length as nat);
    } else {
        lemma_small_mod(0, piece_length as nat);
    }
}

/// A file with its padding is a whole number of pieces.
proof fn lemma_pad_len(len: int, piece_length: int)
    requires
        piece_length > 0,
        len >= 0,
    ensures
        (len + pad_len(len, piece_length)) % piece_length == 0,
        0 <= pad_len(len, piece_length) < piece_length,
{
    lemma_mod_bound(len, piece_length);
    let r = len % piece_length;
    lemma_fundamental_div_mod(len, piece_length);
    let q = len / piece_length;
    if r == 0 {
        lemma_mod_self_0(piece_length);
        assert(len + 0 == len);
    } else {
        lemma_small_mod((piece_length - r) as nat, piece_length as nat);
        assert(len + (piece_length - r) == (q + 1) * piece_length) by (nonlinear_arith)
            requires
                len == piece_length * q + r,
        ;
        lemma_mod_multiples_basic(q + 1, piece_length);
    }
}

} // verus!
