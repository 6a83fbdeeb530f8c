//! File attributes.
use vstd::prelude::*;

use crate::bencode::element::Bencode;
use crate::bencode::error::Failure;
use crate::bencode::model::Value;
use crate::torrent::error::{same, Error, Rejection};

verus! {

/// The attributes of a file.
///
/// | Attribute    | Symbol |
/// |:------------:|:------:|
/// | Symlink      | `l`    |
/// | Executable   | `x`    |
/// | Hidden file  | `h`    |
/// | Padding file | `p`    |
#[derive(Debug, PartialEq, Eq, Clone, Copy, Structural)]
pub struct FileInfoAttrFlags {
    pub symlink: bool,
    pub executable: bool,
    pub hidden: bool,
    pub padding: bool,
}

impl FileInfoAttrFlags {
    /// No attributes.
    pub fn empty() -> (r: FileInfoAttrFlags)
        ensures
            r == no_flags(),
    {
        FileInfoAttrFlags { symlink: false, executable: false, hidden: false, padding: false }
    }

    /// Whether all attributes of `other` are here too.
    pub fn contains(&self, other: FileInfoAttrFlags) -> (r: bool)
        ensures
            r == ((other.symlink ==> self.symlink) && (other.executable ==> self.executable) && (
            other.hidden ==> self.hidden) && (other.padding ==> self.padding)),
    {
        (!other.symlink || self.symlink) && (!other.executable || self.executable) && (
        !other.hidden || self.hidden) && (!other.padding || self.padding)
    }

    /// Adds the attributes of `other`.
    pub fn insert(&mut self, other: FileInfoAttrFlags)
        ensures
            *final(self) == (FileInfoAttrFlags {
                symlink: old(self).symlink || other.symlink,
                executable: old(self).executable || other.executable,
                hidden: old(self).hidden || other.hidden,
                padding: old(self).padding || other.padding,
            }),
    {
        *self =
        FileInfoAttrFlags {
            symlink: self.symlink || other.symlink,
            executable: self.executable || other.executable,
            hidden: self.hidden || other.hidden,
            padding: self.padding || other.padding,
        };
    }
}

pub open spec fn no_flags() -> FileInfoAttrFlags {
    FileInfoAttrFlags { symlink: false, executable: false, hidden: false, padding: false }
}

/// The letters of some attributes, in the order `l`, `x`, `h`, `p`.
pub open spec fn attr_letters(f: FileInfoAttrFlags) -> Seq<u8> {
    let a = if f.symlink {
        seq![108u8]
    } else {
        Seq::empty()
    };
    let b = if f.executable {
        a.push(120)
    } else {
        a
    };
    let c = if f.hidden {
        b.push(104)
    } else {
        b
    };
    if f.padding {
        c.push(112)
    } else {
        c
    }
}

/// The attributes that some letters stand for, unless one of them is unknown.
pub open spec fn letters_attr(s: Seq<u8>) -> Option<FileInfoAttrFlags>
    decreases s.len(),
{
    if s.len() == 0 {
        Some(no_flags())
    } else {
        match letters_attr(s.drop_last()) {
            None => None,
            Some(f) => if s.last() == 108 {
                Some(FileInfoAttrFlags { symlink: true, ..f })
            } else if s.last() == 120 {
                Some(FileInfoAttrFlags { executable: true, ..f })
            } else if s.last() == 104 {
                Some(FileInfoAttrFlags { hidden: true, ..f })
            } else if s.last() == 112 {
                Some(FileInfoAttrFlags { padding: true, ..f })
            } else {
                None
            },
        }
    }
}

/// What an `attr` field says.
pub open spec fn attr_of(v: Value) -> Result<FileInfoAttrFlags, Rejection> {
    match v {
        Value::Bytes(s) => match letters_attr(s) {
            Some(f) => Ok(f),
            None => Err(Rejection::IllegalFieldValue("attr"@)),
        },
        _ => Err(Rejection::Bencode(Failure::WrongType("bytes"@))),
    }
}

/// Letters that are read back are those of the attributes: reading undoes writing.
pub proof fn law_attr_reads_back(f: FileInfoAttrFlags)
    ensures
        letters_attr(attr_letters(f)) == Some(f),
        attr_of(Value::Bytes(attr_letters(f))) == Ok::<FileInfoAttrFlags, Rejection>(f),
{
    reveal_with_fuel(letters_attr, 6);
    let s = attr_letters(f);
    let a: Seq<u8> = if f.symlink {
        seq![108u8]
    } else {
        Seq::empty()
    };
    let b = if f.executable {
        a.push(120)
    } else {
        a
    };
    let c = if f.hidden {
        b.push(104)
    } else {
        b
    };
    assert(f.symlink ==> a.drop_last() =~= Seq::<u8>::empty());
    assert(f.executable ==> b.drop_last() =~= a);
    assert(f.hidden ==> c.drop_last() =~= b);
    assert(f.padding ==> s.drop_last() =~= c);
}

/// An unknown letter stays unknown, whatever follows.
proof fn lemma_unknown_letter(s: Seq<u8>, k: int)
    requires
        0 <= k <= s.len(),
        letters_attr(s.take(k)) is None,
    ensures
        letters_attr(s) is None,
    decreases s.len() - k,
{
    if k < s.len() {
        assert(s.take(k + 1).drop_last() =~= s.take(k));
        lemma_unknown_letter(s, k + 1);
    } else {
        assert(s.take(k) =~= s);
    }
}

/// An `attr` field: the attributes and their letters.
#[derive(Debug, PartialEq, Eq)]
pub struct FileInfoAttr {
    flags: FileInfoAttrFlags,
    encoded: Vec<u8>,
}

impl View for FileInfoAttr {
    type V = FileInfoAttrFlags;

    closed spec fn view(&self) -> FileInfoAttrFlags {
        self.flags
    }
}

impl Clone for FileInfoAttr {
    fn clone(&self) -> (r: Self)
        ensures
            r@ == self@,
    {
        FileInfoAttr::new(self.flags)
    }
}

impl FileInfoAttr {
    #[verifier::type_invariant]
    spec fn inv(self) -> bool {
        self.encoded@ == attr_letters(self.flags)
    }

    /// The field for some attributes.
    pub fn new(flags: FileInfoAttrFlags) -> (r: FileInfoAttr)
        ensures
            r@ == flags,
    {
        let mut encoded: Vec<u8> = Vec::new();
        if flags.symlink {
            encoded.push(108);
        }
        assert(flags.symlink ==> encoded@ =~= seq![108u8]);
        if flags.executable {
            encoded.push(120);
        }
        if flags.hidden {
            encoded.push(104);
        }
        if flags.padding {
            encoded.push(112);
        }
        FileInfoAttr { flags, encoded }
    }

    /// The attributes.
    pub fn flags(&self) -> (r: FileInfoAttrFlags)
        ensures
            r == self@,
    {
        self.flags
    }

    /// The content of the field.
    pub fn as_bytes(&self) -> (r: &[u8])
        ensures
            r@ == attr_letters(self@),
    {
        proof {
            use_type_invariant(self);
        }
        self.encoded.as_slice()
    }

    /// Reads an `attr` field.
    pub(crate) fn read(bencode: &Bencode<'_>) -> (r: Result<FileInfoAttr, Error>)
        ensures
            same(r, attr_of(bencode@)),
    {
        let s: &[u8] = match bencode.as_bytes() {
            Ok(s) => s,
            Err(e) => return Err(Error::Bencode(e)),
        };
        let mut flags = FileInfoAttrFlags::empty();
        let mut i: usize = 0;
        assert(s@.take(0) =~= Seq::<u8>::empty());
        while i < s.len()
            invariant
                i <= s@.len(),
                bencode@ == Value::Bytes(s@),
                letters_attr(s@.take(i as int)) == Some(flags),
            decreases s@.len() - i,
        {
            let c: u8 = s[i];
            proof {
                let t = s@.take(i + 1);
                assert(t.drop_last() =~= s@.take(i as int));
                assert(t.last() == c);
                if letters_attr(t) is None {
                    lemma_unknown_letter(s@, i + 1);
                }
            }
            if c == 108 {
                flags.symlink = true;
            } else if c == 120 {
                flags.executable = true;
            } else if c == 104 {
                flags.hidden = true;
            } else if c == 112 {
                flags.padding = true;
            } else {
                return Err(Error::IllegalFieldValue("attr"));
            }
            i = i + 1;
        }
        assert(s@.take(i as int) =~= s@);
        Ok(FileInfoAttr::new(flags))
    }
}

impl<'a> vstd::std_specs::convert::TryFromSpecImpl<Bencode<'a>> for FileInfoAttr {
    open spec fn obeys_try_from_spec() -> bool {
        false
    }

    open spec fn try_from_spec(v: Bencode<'a>) -> Result<Self, Error> {
        arbitrary()
    }
}

impl<'a> TryFrom<Bencode<'a>> for FileInfoAttr {
    type Error = Error;

    /// Reads an `attr` field.
    fn try_from(bencode: Bencode<'a>) -> (r: Result<Self, Error>)
        ensures
            same(r, attr_of(bencode@)),
    {
        FileInfoAttr::read(&bencode)
    }
}

} // verus!
