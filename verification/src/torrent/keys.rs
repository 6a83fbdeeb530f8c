//! The order of the keys that a torrent is written with.
use vstd::prelude::*;
use vstd::utf8::{encode_utf8, is_ascii_chars, is_ascii_chars_encode_utf8};

use crate::lex::{diverges_at, lex_lt};

verus! {

/// The bytes of a key.
pub open spec fn key(name: &str) -> Seq<u8> {
    encode_utf8(name@)
}

/// ASCII names are ordered like their characters.
proof fn lemma_ascii_lt(a: &str, b: &str, i: int)
    requires
        is_ascii_chars(a@),
        is_ascii_chars(b@),
        0 <= i <= a@.len(),
        i < b@.len(),
        forall|k: int| 0 <= k < i ==> a@[k] == b@[k],
        i == a@.len() || (a@[i] as u8) < (b@[i] as u8),
    ensures
        lex_lt(key(a), key(b)),
{
    is_ascii_chars_encode_utf8(a@);
    is_ascii_chars_encode_utf8(b@);
    assert(diverges_at(key(a), key(b), i));
}

/// The keys of a torrent, in order.
pub proof fn lemma_torrent_keys()
    ensures
        lex_lt(key("announce"), key("announce-list")),
        lex_lt(key("announce-list"), key("comment")),
        lex_lt(key("comment"), key("created by")),
        lex_lt(key("created by"), key("creation date")),
        lex_lt(key("creation date"), key("encoding")),
        lex_lt(key("encoding"), key("info")),
        lex_lt(key("info"), key("piece layers")),
        lex_lt(key("piece layers"), key("url-list")),
{
    reveal_strlit("announce");
    reveal_strlit("announce-list");
    reveal_strlit("comment");
    reveal_strlit("created by");
    reveal_strlit("creation date");
    reveal_strlit("encoding");
    reveal_strlit("info");
    reveal_strlit("piece layers");
    reveal_strlit("url-list");
    lemma_ascii_lt("announce", "announce-list", 8);
    lemma_ascii_lt("announce-list", "comment", 0);
    lemma_ascii_lt("comment", "created by", 1);
    lemma_ascii_lt("created by", "creation date", 5);
    lemma_ascii_lt("creation date", "encoding", 0);
    lemma_ascii_lt("encoding", "info", 0);
    lemma_ascii_lt("info", "piece layers", 0);
    lemma_ascii_lt("piece layers", "url-list", 0);
}

/// The keys of an `info` dictionary, in order.
pub proof fn lemma_info_keys()
    ensures
        lex_lt(key("file tree"), key("files")),
        lex_lt(key("files"), key("length")),
        lex_lt(key("length"), key("md5sum")),
        lex_lt(key("md5sum"), key("meta version")),
        lex_lt(key("meta version"), key("name")),
        lex_lt(key("name"), key("piece length")),
        lex_lt(key("piece length"), key("pieces")),
        lex_lt(key("pieces"), key("private")),
        lex_lt(key("private"), key("source")),
{
    reveal_strlit("file tree");
    reveal_strlit("files");
    reveal_strlit("length");
    reveal_strlit("md5sum");
    reveal_strlit("meta version");
    reveal_strlit("name");
    reveal_strlit("piece length");
    reveal_strlit("pieces");
    reveal_strlit("private");
    reveal_strlit("source");
    lemma_ascii_lt("file tree", "files", 4);
    lemma_ascii_lt("files", "length", 0);
    lemma_ascii_lt("length", "md5sum", 0);
    lemma_ascii_lt("md5sum", "meta version", 1);
    lemma_ascii_lt("meta version", "name", 0);
    lemma_ascii_lt("name", "piece length", 0);
    lemma_ascii_lt("piece length", "pieces", 5);
    lemma_ascii_lt("pieces", "private", 1);
    lemma_ascii_lt("private", "source", 0);
}

/// The keys of a file information dictionary and of a file leaf, in order.
pub proof fn lemma_file_keys()
    ensures
        lex_lt(key("attr"), key("length")),
        lex_lt(key("length"), key("md5sum")),
        lex_lt(key("md5sum"), key("path")),
        lex_lt(key("length"), key("pieces root")),
{
    reveal_strlit("attr");
    reveal_strlit("length");
    reveal_strlit("md5sum");
    reveal_strlit("path");
    reveal_strlit("pieces root");
    lemma_ascii_lt("attr", "length", 0);
    lemma_ascii_lt("length", "md5sum", 0);
    lemma_ascii_lt("md5sum", "path", 0);
    lemma_ascii_lt("length", "pieces root", 0);
}

} // verus!
