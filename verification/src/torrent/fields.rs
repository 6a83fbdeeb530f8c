//! Reading the fields of a bencoded dictionary.
use std::borrow::Cow;

use vstd::prelude::*;
use vstd::utf8::{decode_utf8, encode_utf8, encode_utf8_decode_utf8, valid_utf8};

use crate::bencode::element::{entries_of, Bencode};
use crate::bencode::error::Failure;
use crate::bencode::model::Value;
use crate::sorted_map::{entry, rises, SortedMap};
use crate::torrent::borrow::text_borrows;
use crate::torrent::error::{Error, Rejection};

verus! {

/// The entries of a dictionary.
pub type Entries = Seq<(Seq<u8>, Value)>;

/// The integer of a value.
pub open spec fn int_of(v: Value) -> Result<int, Rejection> {
    match v {
        Value::Int(i) => Ok(i),
        _ => Err(Rejection::Bencode(Failure::WrongType("int"@))),
    }
}

/// The bytes of a value.
pub open spec fn bytes_of(v: Value) -> Result<Seq<u8>, Rejection> {
    match v {
        Value::Bytes(s) => Ok(s),
        _ => Err(Rejection::Bencode(Failure::WrongType("bytes"@))),
    }
}

/// The items of a value.
pub open spec fn list_of(v: Value) -> Result<Seq<Value>, Rejection> {
    match v {
        Value::List(items) => Ok(items),
        _ => Err(Rejection::Bencode(Failure::WrongType("list"@))),
    }
}

/// The entries of a value.
pub open spec fn dict_of(v: Value) -> Result<Entries, Rejection> {
    match v {
        Value::Dict(entries) => Ok(entries),
        _ => Err(Rejection::Bencode(Failure::WrongType("dict"@))),
    }
}

/// The text of a value.
pub open spec fn text_of(v: Value) -> Result<Seq<char>, Rejection> {
    match v {
        Value::Bytes(s) => if valid_utf8(s) {
            Ok(decode_utf8(s))
        } else {
            Err(Rejection::Bencode(Failure::InvalidUtf8))
        },
        _ => Err(Rejection::Bencode(Failure::WrongType("bytes"@))),
    }
}

/// A length or a date: an integer that is not negative.
pub open spec fn natural_of(v: Value, name: &str) -> Result<u64, Rejection> {
    match int_of(v) {
        Err(e) => Err(e),
        Ok(i) => if i < 0 {
            Err(Rejection::IllegalFieldValue(name@))
        } else {
            Ok(i as u64)
        },
    }
}

/// The field of the given name.
pub open spec fn field(d: Entries, name: &str) -> Option<Value> {
    entry(d, encode_utf8(name@))
}

/// The field of the given name, which must be there.
pub open spec fn required(d: Entries, name: &str) -> Result<Value, Rejection> {
    match field(d, name) {
        Some(v) => Ok(v),
        None => Err(Rejection::MissingField(name@)),
    }
}

/// The text of the field of the given name, if it is there.
pub open spec fn text_field(d: Entries, name: &str) -> Result<Option<Seq<char>>, Rejection> {
    match field(d, name) {
        None => Ok(None),
        Some(v) => match text_of(v) {
            Ok(s) => Ok(Some(s)),
            Err(e) => Err(e),
        },
    }
}

/// The text of the field of the given name, which must be there.
pub open spec fn required_text(d: Entries, name: &str) -> Result<Seq<char>, Rejection> {
    match text_field(d, name) {
        Err(e) => Err(e),
        Ok(Some(s)) => Ok(s),
        Ok(None) => Err(Rejection::MissingField(name@)),
    }
}

/// What `f` makes of all items, or the first error.
pub open spec fn all_ok<A, B>(s: Seq<A>, f: spec_fn(A) -> Result<B, Rejection>) -> Result<
    Seq<B>,
    Rejection,
>
    decreases s.len(),
{
    if s.len() == 0 {
        Ok(Seq::empty())
    } else {
        match all_ok(s.drop_last(), f) {
            Err(e) => Err(e),
            Ok(t) => match f(s.last()) {
                Err(e) => Err(e),
                Ok(b) => Ok(t.push(b)),
            },
        }
    }
}

/// One more item.
pub proof fn lemma_all_ok_step<A, B>(s: Seq<A>, k: int, f: spec_fn(A) -> Result<B, Rejection>)
    requires
        0 <= k < s.len(),
        all_ok(s.take(k), f) is Ok,
    ensures
        match f(s[k]) {
            Ok(b) => all_ok(s.take(k + 1), f) == Ok::<Seq<B>, Rejection>(
                all_ok(s.take(k), f)->Ok_0.push(b),
            ),
            Err(e) => all_ok(s, f) == Err::<Seq<B>, Rejection>(e),
        },
{
    assert(s.take(k + 1).drop_last() =~= s.take(k));
    assert(s.take(k + 1).last() == s[k]);
    if f(s[k]) is Err {
        lemma_all_ok_error(s, k + 1, f);
    }
}

/// The first error is the error of the whole.
proof fn lemma_all_ok_error<A, B>(s: Seq<A>, k: int, f: spec_fn(A) -> Result<B, Rejection>)
    requires
        0 <= k <= s.len(),
        all_ok(s.take(k), f) is Err,
    ensures
        all_ok(s, f) == all_ok(s.take(k), f),
    decreases s.len() - k,
{
    if k < s.len() {
        assert(s.take(k + 1).drop_last() =~= s.take(k));
        lemma_all_ok_error(s, k + 1, f);
    } else {
        assert(s.take(k) =~= s);
    }
}

/// If each item is fine, all are.
pub proof fn lemma_all_ok<A, B>(s: Seq<A>, t: Seq<B>, f: spec_fn(A) -> Result<B, Rejection>)
    requires
        s.len() == t.len(),
        forall|i: int|
            0 <= i < s.len() ==> #[trigger] f(s[i]) == Ok::<B, Rejection>(t[i]),
    ensures
        all_ok(s, f) == Ok::<Seq<B>, Rejection>(t),
    decreases s.len(),
{
    if s.len() > 0 {
        assert forall|i: int| 0 <= i < s.drop_last().len() implies #[trigger] f(s.drop_last()[i])
            == Ok::<B, Rejection>(t.drop_last()[i]) by {
            assert(s.drop_last()[i] == s[i]);
        }
        lemma_all_ok(s.drop_last(), t.drop_last(), f);
        assert(f(s[s.len() - 1]) == Ok::<B, Rejection>(t[s.len() - 1]));
        assert(t.drop_last().push(t.last()) =~= t);
    } else {
        assert(t =~= Seq::<B>::empty());
    }
}

/// If only one error is possible and some item has it, it is the error of the whole.
pub proof fn lemma_some_error<A, B>(
    s: Seq<A>,
    f: spec_fn(A) -> Result<B, Rejection>,
    e: Rejection,
    k: int,
)
    requires
        0 <= k < s.len(),
        f(s[k]) is Err,
        forall|i: int|
            0 <= i < s.len() && #[trigger] f(s[i]) is Err ==> f(s[i]) == Err::<B, Rejection>(e),
    ensures
        all_ok(s, f) == Err::<Seq<B>, Rejection>(e),
    decreases s.len(),
{
    let t = s.drop_last();
    assert forall|i: int| 0 <= i < t.len() && #[trigger] f(t[i]) is Err implies f(t[i]) == Err::<
        B,
        Rejection,
    >(e) by {
        assert(t[i] == s[i]);
    }
    if k < t.len() {
        assert(t[k] == s[k]);
        lemma_some_error(t, f, e, k);
    } else {
        assert(f(s[s.len() - 1]) == Err::<B, Rejection>(e));
        if exists|j: int| 0 <= j < t.len() && #[trigger] f(t[j]) is Err {
            let j = choose|j: int| 0 <= j < t.len() && #[trigger] f(t[j]) is Err;
            lemma_some_error(t, f, e, j);
        } else {
            let oks = Seq::new(t.len(), |i: int| f(t[i])->Ok_0);
            assert forall|i: int| 0 <= i < t.len() implies #[trigger] f(t[i]) == Ok::<
                B,
                Rejection,
            >(oks[i]) by {}
            lemma_all_ok(t, oks, f);
        }
    }
}

/// The dictionary that is read.
pub type Fields<'a> = SortedMap<&'a [u8], Bencode<'a>>;

/// The field of the given name, if it is there.
pub fn opt<'d, 'a>(dict: &'d Fields<'a>, name: &str) -> (r: Option<&'d Bencode<'a>>)
    ensures
        match r {
            Some(b) => field(entries_of(dict@), name) == Some(b@),
            None => field(entries_of(dict@), name) is None,
        },
{
    let r = dict.get(name.as_bytes());
    proof {
        let key = encode_utf8(name@);
        lemma_entry_value(dict@, key);
    }
    r
}

/// The value of an entry is that of its element.
proof fn lemma_entry_value(d: Seq<(Seq<u8>, Bencode)>, key: Seq<u8>)
    ensures
        match entry(d, key) {
            Some(b) => entry(entries_of(d), key) == Some(b@),
            None => entry(entries_of(d), key) is None,
        },
    decreases d.len(),
{
    if d.len() > 0 {
        assert(entries_of(d).drop_last() =~= entries_of(d.drop_last()));
        lemma_entry_value(d.drop_last(), key);
    }
}

/// The keys of the values rise as those of the elements do.
pub proof fn lemma_entries_rise(d: Seq<(Seq<u8>, Bencode)>)
    requires
        rises(d),
    ensures
        rises(entries_of(d)),
{
    let e = entries_of(d);
    assert forall|i: int, j: int|
        #![trigger e[i], e[j]]
        0 <= i < j < e.len() implies crate::lex::lex_lt(e[i].0, e[j].0) by {
        assert(e[i].0 == d[i].0 && e[j].0 == d[j].0);
    }
}

/// The field of the given name, which must be there.
pub fn require<'d, 'a>(dict: &'d Fields<'a>, name: &str) -> (r: Result<&'d Bencode<'a>, Error>)
    ensures
        match r {
            Ok(b) => required(entries_of(dict@), name) == Ok::<Value, Rejection>(b@),
            Err(e) => required(entries_of(dict@), name) == Err::<Value, Rejection>(e@),
        },
{
    match opt(dict, name) {
        Some(b) => Ok(b),
        None => Err(Error::MissingField(name.to_owned())),
    }
}

/// The text of an element.
pub fn text<'a>(b: &Bencode<'a>) -> (r: Result<&'a str, Error>)
    ensures
        match r {
            Ok(s) => text_of(b@) == Ok::<Seq<char>, Rejection>(s@),
            Err(e) => text_of(b@) == Err::<Seq<char>, Rejection>(e@),
        },
{
    match b.as_str() {
        Ok(s) => {
            proof {
                encode_utf8_decode_utf8(s@);
                vstd::utf8::encode_utf8_valid_utf8(s@);
            }
            Ok(s)
        },
        Err(e) => Err(Error::Bencode(e)),
    }
}

/// The text of the field of the given name, if it is there.
pub fn opt_str<'a>(dict: &Fields<'a>, name: &str) -> (r: Result<Option<&'a str>, Error>)
    ensures
        match r {
            Ok(Some(s)) => text_field(entries_of(dict@), name) == Ok::<_, Rejection>(Some(s@)),
            Ok(None) => text_field(entries_of(dict@), name) == Ok::<Option<Seq<char>>, Rejection>(
                None,
            ),
            Err(e) => text_field(entries_of(dict@), name) == Err::<Option<Seq<char>>, Rejection>(
                e@,
            ),
        },
{
    match opt(dict, name) {
        None => Ok(None),
        Some(b) => match text(b) {
            Ok(s) => Ok(Some(s)),
            Err(e) => Err(e),
        },
    }
}

/// The text of the field of the given name, which must be there.
pub fn require_str<'a>(dict: &Fields<'a>, name: &str) -> (r: Result<&'a str, Error>)
    ensures
        match r {
            Ok(s) => required_text(entries_of(dict@), name) == Ok::<_, Rejection>(s@),
            Err(e) => required_text(entries_of(dict@), name) == Err::<Seq<char>, Rejection>(e@),
        },
{
    match opt_str(dict, name) {
        Err(e) => Err(e),
        Ok(Some(s)) => Ok(s),
        Ok(None) => Err(Error::MissingField(name.to_owned())),
    }
}

/// A length or a date.
pub fn natural(b: &Bencode<'_>, name: &'static str) -> (r: Result<u64, Error>)
    ensures
        match r {
            Ok(n) => natural_of(b@, name) == Ok::<u64, Rejection>(n),
            Err(e) => natural_of(b@, name) == Err::<u64, Rejection>(e@),
        },
{
    match b.as_int() {
        Err(e) => Err(Error::Bencode(e)),
        Ok(i) => if i < 0 {
            Err(Error::IllegalFieldValue(name))
        } else {
            Ok(i as u64)
        },
    }
}

/// The text of an optional borrowed string.
pub open spec fn opt_view(s: Option<&str>) -> Option<Seq<char>> {
    match s {
        Some(s) => Some(s@),
        None => None,
    }
}

/// An optional string that borrows.
pub fn borrowed<'a>(s: Option<&'a str>) -> (r: Option<Cow<'a, str>>)
    ensures
        crate::torrent::types::opt_text(r) == opt_view(s),
        text_borrows(r),
{
    match s {
        Some(s) => Some(Cow::Borrowed(s)),
        None => None,
    }
}

} // verus!
