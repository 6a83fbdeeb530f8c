//! The files of a torrent with v1 fields: reading and paths.
use std::borrow::Cow;

use vstd::prelude::*;
use vstd::utf8::encode_utf8;

use crate::bencode::element::{values_of, Bencode};
use crate::bencode::model::Value;
use crate::path::{join, FilePath, Part};
use crate::sorted_map::ByteKey;
use crate::torrent::attr::{attr_of, FileInfoAttr, FileInfoAttrFlags};
use crate::torrent::borrow::file_info_borrows;
use crate::torrent::error::{same, Error, Rejection};
use crate::torrent::fields::{
    all_ok, borrowed, dict_of, field, lemma_all_ok_step, list_of, natural, natural_of, opt, opt_str,
    require, required, text, text_field, text_of, Entries,
};
use crate::torrent::model::FileInfoModel;
use crate::torrent::types::{texts, FileInfo, FileMode};

verus! {

/// The texts of some values, or the first error.
pub open spec fn texts_of(items: Seq<Value>) -> Result<Seq<Seq<char>>, Rejection> {
    all_ok(items, |v: Value| text_of(v))
}

/// What an optional `attr` field says.
pub open spec fn attr_field(d: Entries) -> Result<Option<FileInfoAttrFlags>, Rejection> {
    match field(d, "attr") {
        None => Ok(None),
        Some(v) => match attr_of(v) {
            Ok(f) => Ok(Some(f)),
            Err(e) => Err(e),
        },
    }
}

/// What a file information dictionary says.
pub open spec fn file_info_of(v: Value) -> Result<FileInfoModel, Rejection> {
    match dict_of(v) {
        Err(e) => Err(e),
        Ok(d) => match attr_field(d) {
            Err(e) => Err(e),
            Ok(attr) => match required(d, "length") {
                Err(e) => Err(e),
                Ok(l) => match natural_of(l, "length") {
                    Err(e) => Err(e),
                    Ok(length) => match text_field(d, "md5sum") {
                        Err(e) => Err(e),
                        Ok(md5sum) => match required(d, "path") {
                            Err(e) => Err(e),
                            Ok(p) => match list_of(p) {
                                Err(e) => Err(e),
                                Ok(items) => match texts_of(items) {
                                    Err(e) => Err(e),
                                    Ok(path) => Ok(FileInfoModel { attr, length, md5sum, path }),
                                },
                            },
                        },
                    },
                },
            },
        },
    }
}

/// The path that some components lead to, each one seen from those before it.
pub open spec fn path_from(components: Seq<Seq<char>>) -> Seq<Part>
    decreases components.len(),
{
    if components.len() == 0 {
        Seq::empty()
    } else {
        join(path_from(components.drop_last()), encode_utf8(components.last()))
    }
}

/// Whether a file is a padding file.
pub open spec fn is_padding(f: FileInfoModel) -> bool {
    f.attr matches Some(flags) && flags.padding
}

/// The paths of the files that are not padding files.
pub open spec fn listed_paths(files: Seq<FileInfoModel>) -> Seq<Seq<Part>>
    decreases files.len(),
{
    if files.len() == 0 {
        Seq::empty()
    } else if is_padding(files.last()) {
        listed_paths(files.drop_last())
    } else {
        listed_paths(files.drop_last()).push(path_from(files.last().path))
    }
}

/// Reads a list of texts.
fn read_texts<'a>(items: &[Bencode<'a>]) -> (r: Result<Vec<Cow<'a, str>>, Error>)
    ensures
        match r {
            Ok(t) => texts_of(values_of(items@)) == Ok::<_, Rejection>(texts(t@)) && (forall|i: int|
                0 <= i < t@.len() ==> (#[trigger] t@[i]) is Borrowed),
            Err(e) => texts_of(values_of(items@)) == Err::<Seq<Seq<char>>, Rejection>(e@),
        },
{
    let ghost all = values_of(items@);
    let ghost f = |v: Value| text_of(v);
    let mut r: Vec<Cow<'a, str>> = Vec::new();
    let mut i: usize = 0;
    assert(all.take(0) =~= Seq::<Value>::empty());
    assert(texts(r@) =~= Seq::<Seq<char>>::empty());
    while i < items.len()
        invariant
            i <= items@.len(),
            all == values_of(items@),
            f == (|v: Value| text_of(v)),
            all_ok(all.take(i as int), f) == Ok::<_, Rejection>(texts(r@)),
            forall|k: int| 0 <= k < r@.len() ==> (#[trigger] r@[k]) is Borrowed,
        decreases items@.len() - i,
    {
        proof {
            lemma_all_ok_step(all, i as int, f);
            assert(all[i as int] == items@[i as int]@);
        }
        match text(&items[i]) {
            Ok(s) => {
                let ghost before = texts(r@);
                r.push(Cow::Borrowed(s));
                assert(texts(r@) =~= before.push(s@));
            },
            Err(e) => return Err(e),
        }
        i = i + 1;
    }
    assert(all.take(i as int) =~= all);
    Ok(r)
}

impl<'a> FileInfo<'a> {
    /// Reads a file information dictionary.
    pub(crate) fn read(bencode: &Bencode<'a>) -> (r: Result<FileInfo<'a>, Error>)
        ensures
            same(r, file_info_of(bencode@)),
            r matches Ok(info) ==> file_info_borrows(info),
    {
        let dict = match bencode.as_dict() {
            Ok(dict) => dict,
            Err(e) => return Err(Error::Bencode(e)),
        };
        let attr: Option<FileInfoAttr> = match opt(dict, "attr") {
            None => None,
            Some(b) => match FileInfoAttr::read(b) {
                Ok(attr) => Some(attr),
                Err(e) => return Err(e),
            },
        };
        let length: u64 = match require(dict, "length") {
            Err(e) => return Err(e),
            Ok(b) => match natural(b, "length") {
                Err(e) => return Err(e),
                Ok(length) => length,
            },
        };
        let md5sum: Option<Cow<'a, str>> = match opt_str(dict, "md5sum") {
            Ok(s) => borrowed(s),
            Err(e) => return Err(e),
        };
        let items: &[Bencode<'a>] = match require(dict, "path") {
            Err(e) => return Err(e),
            Ok(b) => match b.as_list() {
                Err(e) => return Err(Error::Bencode(e)),
                Ok(items) => items,
            },
        };
        let path: Vec<Cow<'a, str>> = match read_texts(items) {
            Ok(path) => path,
            Err(e) => return Err(e),
        };
        Ok(FileInfo { attr, length, md5sum, path })
    }

    /// The path of the file.
    pub fn to_path_buf(&self) -> (r: FilePath)
        ensures
            r@ == path_from(self@.path),
    {
        let ghost all = texts(self.path@);
        let mut r = FilePath::new();
        let mut i: usize = 0;
        assert(all.take(0) =~= Seq::<Seq<char>>::empty());
        while i < self.path.len()
            invariant
                i <= self.path@.len(),
                all == texts(self.path@),
                r@ == path_from(all.take(i as int)),
            decreases self.path@.len() - i,
        {
            r.push(self.path[i].as_key());
            proof {
                let t = all.take(i + 1);
                assert(t.drop_last() =~= all.take(i as int));
                assert(t.last() == self.path@[i as int]@);
            }
            i = i + 1;
        }
        assert(all.take(i as int) =~= all);
        r
    }

    /// Whether this is a padding file.
    pub(crate) fn is_padding(&self) -> (r: bool)
        ensures
            r == is_padding(self@),
    {
        match &self.attr {
            Some(attr) => attr.flags().padding,
            None => false,
        }
    }
}

impl<'a> FileMode<'a> {
    /// Whether there is one file.
    pub fn is_single(&self) -> (r: bool)
        ensures
            r == (self@ is Single),
    {
        match self {
            FileMode::Single { .. } => true,
            FileMode::Multi { .. } => false,
        }
    }

    /// Whether there is a list of files.
    pub fn is_multi(&self) -> (r: bool)
        ensures
            r == (self@ is Multi),
    {
        !self.is_single()
    }
}

} // verus!
