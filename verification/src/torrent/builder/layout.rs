//! The order of the files of a torrent, and their paths within it.
use vstd::prelude::*;
use vstd::relations::total_ordering;

use crate::path::{
    clean, lemma_path_irreflexive, lemma_path_le_total, lemma_path_transitive, path_le, path_lt,
    Component, FilePath, Part,
};
use crate::sorting::{views, Ranked};

verus! {

/// The path and the length of a file.
pub type FileModel = (Seq<Part>, u64);

/// The order of files: by path, then by length.
pub open spec fn file_le() -> spec_fn(FileModel, FileModel) -> bool {
    |a: FileModel, b: FileModel| path_lt(a.0, b.0) || (a.0 == b.0 && a.1 <= b.1)
}

/// The order of files is a total order.
pub proof fn lemma_file_le_total()
    ensures
        total_ordering(file_le()),
{
    let le = file_le();
    lemma_path_le_total();
    assert forall|a: FileModel, b: FileModel| #[trigger] le(a, b) && #[trigger] le(b, a) implies a
        == b by {
        lemma_path_irreflexive(a.0);
        if path_lt(a.0, b.0) && path_lt(b.0, a.0) {
            lemma_path_transitive(a.0, b.0, a.0);
        }
    }
    assert forall|a: FileModel, b: FileModel, c: FileModel| #[trigger]
        le(a, b) && #[trigger] le(b, c) implies le(a, c) by {
        if path_lt(a.0, b.0) && path_lt(b.0, c.0) {
            lemma_path_transitive(a.0, b.0, c.0);
        }
    }
    assert forall|a: FileModel, b: FileModel| #[trigger] le(a, b) || #[trigger] le(b, a) by {
        let ple = path_le();
        assert(ple(a.0, b.0) || ple(b.0, a.0));
    }
}

impl Ranked for (FilePath, u64) {
    open spec fn le_spec() -> spec_fn(FileModel, FileModel) -> bool {
        file_le()
    }

    proof fn lemma_total() {
        lemma_file_le_total();
    }

    fn le(&self, other: &Self) -> (r: bool) {
        proof {
            lemma_path_irreflexive(self.0@);
        }
        if self.0.same(&other.0) {
            self.1 <= other.1
        } else {
            self.0.le(&other.0)
        }
    }
}

/// The number of components in the path of the directory that a path lies in.
pub open spec fn parent_len(path: Seq<Part>) -> int {
    if path.len() == 0 || path.last() is Root {
        0
    } else {
        path.len() - 1
    }
}

/// The first `n` components of the first path cannot be shortened: all paths share them, or they
/// are the root directory.
pub open spec fn is_floor(paths: Seq<Seq<Part>>, n: int) -> bool {
    ||| n > 0 && paths[0][n - 1] is Root
    ||| forall|i: int| 0 <= i < paths.len() ==> paths[0].take(n).is_prefix_of(#[trigger] paths[i])
}

/// Of the first `cap` components of the first path, `n` is the largest number that cannot be
/// shortened.
pub open spec fn is_prefix_len(paths: Seq<Seq<Part>>, cap: int, n: int) -> bool {
    &&& 0 <= n <= cap
    &&& is_floor(paths, n)
    &&& forall|m: int| n < m <= cap ==> !#[trigger] is_floor(paths, m)
}

/// As many of the first `cap` components of the first path as all paths share. The root directory
/// stays.
pub open spec fn common_part(paths: Seq<Seq<Part>>, cap: int) -> Seq<Part> {
    paths[0].take(choose|n: int| is_prefix_len(paths, cap, n))
}

/// The directory that all paths lie in.
pub open spec fn common_dir(paths: Seq<Seq<Part>>) -> Seq<Part> {
    common_part(paths, parent_len(paths[0]))
}

/// A path as seen from a directory. A path that does not lie in it stays as it is.
pub open spec fn within(dir: Seq<Part>, path: Seq<Part>) -> Seq<Part> {
    if dir.is_prefix_of(path) {
        path.skip(dir.len() as int)
    } else {
        path
    }
}

/// A path on the shortest way. The empty path stays empty.
pub open spec fn tidy(path: Seq<Part>) -> Seq<Part> {
    if path.len() == 0 {
        path
    } else {
        clean(path)
    }
}

/// The directory that all paths lie in, on the shortest way.
pub open spec fn common_prefix(paths: Seq<Seq<Part>>) -> Seq<Part> {
    tidy(common_dir(paths))
}

/// The model of a [`FileEntry`].
#[verifier::ext_equal]
pub ghost struct EntryModel {
    pub disk_path: Seq<Part>,
    pub meta_path: Seq<Part>,
    pub length: u64,
    pub padding: bool,
}

/// A file of a torrent.
#[derive(Debug, PartialEq, Eq)]
pub struct FileEntry {
    /// Where the file is.
    pub disk_path: FilePath,
    /// The path within the torrent.
    pub meta_path: FilePath,
    /// The length in bytes.
    pub length: u64,
    /// Whether this is a padding file.
    pub padding: bool,
}

impl View for FileEntry {
    type V = EntryModel;

    open spec fn view(&self) -> EntryModel {
        EntryModel {
            disk_path: self.disk_path@,
            meta_path: self.meta_path@,
            length: self.length,
            padding: self.padding,
        }
    }
}

/// The paths of some files.
pub open spec fn paths_of(files: Seq<FileModel>) -> Seq<Seq<Part>> {
    Seq::new(files.len(), |i: int| files[i].0)
}

/// The files as seen from the directory that they all lie in.
pub open spec fn entries_within(files: Seq<FileModel>) -> Seq<EntryModel> {
    Seq::new(
        files.len(),
        |i: int|
            EntryModel {
                disk_path: files[i].0,
                meta_path: within(common_dir(paths_of(files)), files[i].0),
                length: files[i].1,
                padding: false,
            },
    )
}

/// The files in the order in which a torrent lists them.
pub open spec fn in_order(files: Seq<FileModel>) -> Seq<FileModel> {
    files.sort_by(file_le())
}

/// The number of components that cannot be shortened is the only one.
pub proof fn lemma_prefix_len(paths: Seq<Seq<Part>>, cap: int, n: int)
    requires
        is_prefix_len(paths, cap, n),
    ensures
        common_part(paths, cap) == paths[0].take(n),
{
    let m = choose|m: int| is_prefix_len(paths, cap, m);
    assert(is_prefix_len(paths, cap, m));
    if m < n {
        assert(is_floor(paths, n));
    } else if n < m {
        assert(is_floor(paths, m));
    }
}

/// Whether two paths share their first `n` components.
fn shares(a: &FilePath, b: &FilePath, n: usize) -> (r: bool)
    requires
        n <= a@.len(),
    ensures
        r == a@.take(n as int).is_prefix_of(b@),
{
    if n > b.len() {
        return false;
    }
    let mut i: usize = 0;
    while i < n
        invariant
            i <= n,
            n <= a@.len(),
            n <= b@.len(),
            forall|k: int| 0 <= k < i ==> a@[k] == b@[k],
        decreases n - i,
    {
        if !a.component(i).same(b.component(i)) {
            assert(a@.take(n as int)[i as int] != b@.subrange(0, n as int)[i as int]);
            return false;
        }
        i = i + 1;
    }
    assert(a@.take(n as int) =~= b@.subrange(0, n as int));
    true
}

/// How much of the first `cap` components of the first path all paths share.
fn shared_len(files: &[(FilePath, u64)], cap: usize) -> (n: usize)
    requires
        files@.len() > 0,
        cap <= files@[0].0@.len(),
    ensures
        is_prefix_len(paths_of(views(files@)), cap as int, n as int),
        n <= cap,
{
    let ghost paths = paths_of(views(files@));
    let first: &FilePath = &files[0].0;
    let mut n: usize = cap;
    assert(paths[0] == first@);
    assert(first@.take(n as int).is_prefix_of(first@)) by {
        assert(first@.take(n as int) =~= first@.subrange(0, n as int));
    }
    let mut i: usize = 1;
    while i < files.len()
        invariant
            1 <= i <= files@.len(),
            paths == paths_of(views(files@)),
            first@ == paths[0],
            0 <= n <= cap <= paths[0].len(),
            (n > 0 && paths[0][n - 1] is Root) || forall|k: int|
                0 <= k < i ==> paths[0].take(n as int).is_prefix_of(#[trigger] paths[k]),
            forall|m: int| n < m <= cap ==> !#[trigger] is_floor(paths, m),
        decreases files@.len() - i,
    {
        assert(paths[i as int] == files@[i as int].0@);
        while !shares(first, &files[i].0, n) && !matches!(first.component(n - 1), Component::RootDir)
            invariant
                1 <= i < files@.len(),
                paths == paths_of(views(files@)),
                first@ == paths[0],
                paths[i as int] == files@[i as int].0@,
                0 <= n <= cap <= paths[0].len(),
                (n > 0 && paths[0][n - 1] is Root) || forall|k: int|
                    0 <= k < i ==> paths[0].take(n as int).is_prefix_of(#[trigger] paths[k]),
                forall|m: int| n < m <= cap ==> !#[trigger] is_floor(paths, m),
            decreases n,
        {
            proof {
                assert(!is_floor(paths, n as int));
                assert forall|k: int| 0 <= k < i implies paths[0].take(n - 1).is_prefix_of(
                    #[trigger] paths[k],
                ) by {
                    assert(paths[0].take(n as int).is_prefix_of(paths[k]));
                    assert(paths[0].take(n - 1) =~= paths[0].take(n as int).take(n - 1));
                    assert(paths[k].subrange(0, n - 1) =~= paths[k].subrange(
                        0,
                        n as int,
                    ).take(n - 1));
                }
            }
            n = n - 1;
        }
        i = i + 1;
    }
    n
}

/// A path as seen from a directory.
fn seen_from(dir: &FilePath, path: &FilePath) -> (r: FilePath)
    ensures
        r@ == within(dir@, path@),
{
    if path.starts_with(dir) {
        path.rest(dir.len())
    } else {
        path.duplicate()
    }
}

/// A path on the shortest way.
fn tidied(path: FilePath) -> (r: FilePath)
    ensures
        r@ == tidy(path@),
{
    if path.is_empty() {
        path
    } else {
        path.clean()
    }
}

/// Takes away the directory that all files lie in.
pub fn remove_common_prefix(files: &[(FilePath, u64)]) -> (r: (FilePath, Vec<FileEntry>))
    requires
        files@.len() > 0,
    ensures
        r.0@ == common_prefix(paths_of(views(files@))),
        views(r.1@) == entries_within(views(files@)),
{
    let ghost all = views(files@);
    let first: &FilePath = &files[0].0;
    let len: usize = first.len();
    let cap: usize = if len == 0 || matches!(first.component(len - 1), Component::RootDir) {
        0
    } else {
        len - 1
    };
    let n: usize = shared_len(files, cap);
    proof {
        assert(paths_of(all)[0] == first@);
        lemma_prefix_len(paths_of(all), cap as int, n as int);
    }
    let prefix: FilePath = first.first(n);
    let mut entries: Vec<FileEntry> = Vec::with_capacity(files.len());
    let mut i: usize = 0;
    while i < files.len()
        invariant
            i <= files@.len(),
            all == views(files@),
            prefix@ == common_dir(paths_of(all)),
            entries@.len() == i,
            forall|k: int| 0 <= k < i ==> (#[trigger] entries@[k])@ == entries_within(all)[k],
        decreases files@.len() - i,
    {
        let path: &FilePath = &files[i].0;
        entries.push(
            FileEntry {
                disk_path: path.duplicate(),
                meta_path: seen_from(&prefix, path),
                length: files[i].1,
                padding: false,
            },
        );
        assert(all[i as int] == files@[i as int]@);
        i = i + 1;
    }
    assert(views(entries@) =~= entries_within(all));
    (tidied(prefix), entries)
}

/// What all paths share, as far as it can be shortened. A path that stands alone is shared whole.
pub open spec fn common_path(paths: Seq<Seq<Part>>) -> Seq<Part> {
    common_part(paths, paths[0].len() as int)
}

/// The files as seen from what they all share, on the shortest way.
pub open spec fn entries_beyond(files: Seq<FileModel>) -> Seq<EntryModel> {
    Seq::new(
        files.len(),
        |i: int|
            EntryModel {
                disk_path: files[i].0,
                meta_path: clean(within(common_path(paths_of(files)), files[i].0)),
                length: files[i].1,
                padding: false,
            },
    )
}

/// Takes away what all files share.
pub fn remove_common_path(files: &[(FilePath, u64)]) -> (r: (FilePath, Vec<FileEntry>))
    requires
        files@.len() > 0,
    ensures
        r.0@ == tidy(common_path(paths_of(views(files@)))),
        views(r.1@) == entries_beyond(views(files@)),
{
    let ghost all = views(files@);
    let first: &FilePath = &files[0].0;
    let n: usize = shared_len(files, first.len());
    proof {
        assert(paths_of(all)[0] == first@);
        lemma_prefix_len(paths_of(all), first@.len() as int, n as int);
    }
    let prefix: FilePath = first.first(n);
    let mut entries: Vec<FileEntry> = Vec::with_capacity(files.len());
    let mut i: usize = 0;
    while i < files.len()
        invariant
            i <= files@.len(),
            all == views(files@),
            prefix@ == common_path(paths_of(all)),
            entries@.len() == i,
            forall|k: int| 0 <= k < i ==> (#[trigger] entries@[k])@ == entries_beyond(all)[k],
        decreases files@.len() - i,
    {
        let path: &FilePath = &files[i].0;
        entries.push(
            FileEntry {
                disk_path: path.duplicate(),
                meta_path: seen_from(&prefix, path).clean(),
                length: files[i].1,
                padding: false,
            },
        );
        assert(all[i as int] == files@[i as int]@);
        i = i + 1;
    }
    assert(views(entries@) =~= entries_beyond(all));
    (tidied(prefix), entries)
}

/// Sorting keeps the number of files.
pub proof fn lemma_order_len(files: Seq<FileModel>)
    ensures
        in_order(files).len() == files.len(),
{
    lemma_file_le_total();
    files.lemma_sort_by_ensures(file_le());
    files.to_multiset_ensures();
    in_order(files).to_multiset_ensures();
}

/// The order in which files are listed does not depend on the order in which they come.
pub proof fn law_order_of_files_is_irrelevant(a: Seq<FileModel>, b: Seq<FileModel>)
    requires
        a.to_multiset() == b.to_multiset(),
    ensures
        in_order(a) == in_order(b),
{
    lemma_file_le_total();
    a.lemma_sort_by_ensures(file_le());
    b.lemma_sort_by_ensures(file_le());
    vstd::seq_lib::lemma_sorted_unique(in_order(a), in_order(b), file_le());
}

} // verus!
