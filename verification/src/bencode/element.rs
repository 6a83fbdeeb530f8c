//! Bencode elements: access and encoding.
use vstd::prelude::*;
use vstd::utf8::{encode_utf8, valid_utf8};

use crate::bencode::error::{Error, Failure};
use crate::bencode::model::{encode, encode_bytes, encode_entries, encode_int, encode_items, Value};
use crate::decimal::{decimal_int, decimal_len, push_decimal};
use crate::sorted_map::{lemma_with_entry_last, rises, ByteKey, SortedMap};
use crate::text::from_utf8;

verus! {

/// A zero-copy Bencode element.
///
/// Four kinds of data can be represented:
/// 1. *Signed integers*, encoded as `i<num>e`.
/// 2. *Bytes*, encoded as `<length>:<bytes>`.
/// 3. *Lists*, encoded as `l<items>e`.
/// 4. *Dictionaries*, encoded as `d<key1><value1><key2>...e`, with the keys in sorted order.
#[derive(Debug, PartialEq, Eq)]
pub enum Bencode<'a> {
    /// A signed 64-bit integer.
    Int(i64),
    /// A slice of bytes.
    Bytes(&'a [u8]),
    /// A list of other elements.
    List(Vec<Bencode<'a>>),
    /// A dictionary that maps byte keys to elements.
    Dict(SortedMap<&'a [u8], Bencode<'a>>),
}

/// The value of an element.
pub open spec fn value_of(b: Bencode) -> Value
    decreases b,
{
    match b {
        Bencode::Int(i) => Value::Int(i as int),
        Bencode::Bytes(s) => Value::Bytes(s@),
        Bencode::List(l) => Value::List(
            Seq::new(
                l@.len(),
                |i: int|
                    if 0 <= i < l@.len() {
                        value_of(l@[i])
                    } else {
                        arbitrary()
                    },
            ),
        ),
        Bencode::Dict(d) => Value::Dict(
            Seq::new(
                d@.len(),
                |i: int|
                    if 0 <= i < d@.len() {
                        proof {
                            d.lemma_value_smaller(i);
                        }
                        (d@[i].0, value_of(d@[i].1))
                    } else {
                        arbitrary()
                    },
            ),
        ),
    }
}

/// The values of some elements.
pub open spec fn values_of(l: Seq<Bencode>) -> Seq<Value> {
    Seq::new(l.len(), |i: int| value_of(l[i]))
}

/// The entries of a dictionary, with the value of each element.
pub open spec fn entries_of(s: Seq<(Seq<u8>, Bencode)>) -> Seq<(Seq<u8>, Value)> {
    Seq::new(s.len(), |i: int| (s[i].0, value_of(s[i].1)))
}

impl<'a> View for Bencode<'a> {
    type V = Value;

    open spec fn view(&self) -> Value {
        value_of(*self)
    }
}

pub proof fn lemma_list_value(l: Vec<Bencode>)
    ensures
        Bencode::List(l)@ == Value::List(values_of(l@)),
{
    assert(value_of(Bencode::List(l))->List_0 =~= values_of(l@));
}

pub proof fn lemma_dict_value(d: SortedMap<&[u8], Bencode>)
    ensures
        Bencode::Dict(d)@ == Value::Dict(entries_of(d@)),
{
    assert(value_of(Bencode::Dict(d))->Dict_0 =~= entries_of(d@));
}

/// A list is larger than each of its items.
pub proof fn lemma_item_smaller(b: Bencode, i: int)
    requires
        b is List,
        0 <= i < b->List_0@.len(),
    ensures
        decreases_to!(b => b->List_0@[i]),
{
    let l = b->List_0;
    assert(decreases_to!(b => l));
    assert(decreases_to!(l => l@));
    assert(decreases_to!(l@ => l@[i]));
}

/// A dictionary is larger than each of its values.
pub proof fn lemma_entry_smaller(b: Bencode, i: int)
    requires
        b is Dict,
        0 <= i < b->Dict_0@.len(),
    ensures
        decreases_to!(b => b->Dict_0@[i].1),
{
    let d = b->Dict_0;
    assert(decreases_to!(b => d));
    d.lemma_value_smaller(i);
}

impl<'a> Clone for Bencode<'a> {
    fn clone(&self) -> (r: Self)
        ensures
            r@ == self@,
        decreases self,
    {
        match self {
            Bencode::Int(i) => Bencode::Int(*i),
            Bencode::Bytes(s) => Bencode::Bytes(*s),
            Bencode::List(l) => {
                let mut list: Vec<Bencode<'a>> = Vec::new();
                let mut i: usize = 0;
                while i < l.len()
                    invariant
                        i <= l.len(),
                        *self == Bencode::List(*l),
                        list@.len() == i,
                        forall|k: int| 0 <= k < i ==> (#[trigger] list@[k])@ == l@[k]@,
                    decreases l.len() - i,
                {
                    proof {
                        lemma_item_smaller(*self, i as int);
                    }
                    list.push(l[i].clone());
                    i = i + 1;
                }
                proof {
                    lemma_list_value(*l);
                    lemma_list_value(list);
                    assert(values_of(list@) =~= values_of(l@));
                }
                Bencode::List(list)
            },
            Bencode::Dict(d) => {
                let mut dict: SortedMap<&'a [u8], Bencode<'a>> = SortedMap::new();
                let mut i: usize = 0;
                let n: usize = d.len();
                while i < n
                    invariant
                        i <= n,
                        n == d@.len(),
                        rises(d@),
                        *self == Bencode::Dict(*d),
                        dict@.len() == i,
                        forall|k: int|
                            0 <= k < i ==> (#[trigger] dict@[k]).0 == d@[k].0 && dict@[k].1@
                                == d@[k].1@,
                    decreases n - i,
                {
                    let ghost before = dict@;
                    proof {
                        lemma_entry_smaller(*self, i as int);
                    }
                    let key: &'a [u8] = *d.key_at(i);
                    let value: Bencode<'a> = d.value_at(i).clone();
                    dict.insert(key, value);
                    proof {
                        lemma_with_entry_last(before, key@, value);
                    }
                    i = i + 1;
                }
                proof {
                    lemma_dict_value(*d);
                    lemma_dict_value(dict);
                    assert(entries_of(dict@) =~= entries_of(d@));
                }
                Bencode::Dict(dict)
            },
        }
    }
}

impl<'a> Bencode<'a> {
    /// The integer of this element.
    ///
    /// # Errors
    ///
    /// [`Error::WrongType`] if this is not an integer.
    pub fn as_int(&self) -> (r: Result<i64, Error>)
        ensures
            match r {
                Ok(i) => self@ == Value::Int(i as int),
                Err(e) => !(self@ is Int) && e@ == Failure::WrongType("int"@),
            },
    {
        match self {
            Bencode::Int(i) => Ok(*i),
            _ => Err(Error::WrongType { expected: "int" }),
        }
    }

    /// The bytes of this element.
    ///
    /// # Errors
    ///
    /// [`Error::WrongType`] if this is not a byte string.
    pub fn as_bytes(&self) -> (r: Result<&'a [u8], Error>)
        ensures
            match r {
                Ok(s) => self@ == Value::Bytes(s@),
                Err(e) => !(self@ is Bytes) && e@ == Failure::WrongType("bytes"@),
            },
    {
        match self {
            Bencode::Bytes(s) => Ok(*s),
            _ => Err(Error::WrongType { expected: "bytes" }),
        }
    }

    /// The items of this list.
    ///
    /// # Errors
    ///
    /// [`Error::WrongType`] if this is not a list.
    pub fn as_list(&self) -> (r: Result<&[Bencode<'a>], Error>)
        ensures
            match r {
                Ok(l) => self@ == Value::List(values_of(l@)),
                Err(e) => !(self@ is List) && e@ == Failure::WrongType("list"@),
            },
    {
        match self {
            Bencode::List(l) => {
                proof {
                    lemma_list_value(*l);
                }
                Ok(l.as_slice())
            },
            _ => Err(Error::WrongType { expected: "list" }),
        }
    }

    /// The entries of this dictionary.
    ///
    /// # Errors
    ///
    /// [`Error::WrongType`] if this is not a dictionary.
    pub fn as_dict(&self) -> (r: Result<&SortedMap<&'a [u8], Bencode<'a>>, Error>)
        ensures
            match r {
                Ok(d) => self@ == Value::Dict(entries_of(d@)) && *self == Bencode::Dict(*d),
                Err(e) => !(self@ is Dict) && e@ == Failure::WrongType("dict"@),
            },
    {
        match self {
            Bencode::Dict(d) => {
                proof {
                    lemma_dict_value(*d);
                }
                Ok(d)
            },
            _ => Err(Error::WrongType { expected: "dict" }),
        }
    }

    /// The bytes of this element as text.
    ///
    /// # Errors
    ///
    /// - [`Error::WrongType`] if this is not a byte string.
    /// - [`Error::InvalidUtf8`] if the bytes are not valid UTF-8.
    pub fn as_str(&self) -> (r: Result<&'a str, Error>)
        ensures
            match r {
                Ok(s) => self@ == Value::Bytes(encode_utf8(s@)),
                Err(e) => match self@ {
                    Value::Bytes(s) => !valid_utf8(s) && e@ == Failure::InvalidUtf8,
                    _ => e@ == Failure::WrongType("bytes"@),
                },
            },
    {
        match self.as_bytes() {
            Ok(bytes) => match from_utf8(bytes) {
                Ok(s) => Ok(s),
                Err(e) => Err(Error::InvalidUtf8(e)),
            },
            Err(e) => Err(e),
        }
    }

    /// Takes the items out of this list.
    ///
    /// # Errors
    ///
    /// [`Error::WrongType`] if this is not a list.
    pub fn into_list(self) -> (r: Result<Vec<Bencode<'a>>, Error>)
        ensures
            match r {
                Ok(l) => self@ == Value::List(values_of(l@)),
                Err(e) => !(self@ is List) && e@ == Failure::WrongType("list"@),
            },
    {
        match self {
            Bencode::List(l) => {
                proof {
                    lemma_list_value(l);
                }
                Ok(l)
            },
            _ => Err(Error::WrongType { expected: "list" }),
        }
    }

    /// Takes the entries out of this dictionary.
    ///
    /// # Errors
    ///
    /// [`Error::WrongType`] if this is not a dictionary.
    pub fn into_dict(self) -> (r: Result<SortedMap<&'a [u8], Bencode<'a>>, Error>)
        ensures
            match r {
                Ok(d) => self@ == Value::Dict(entries_of(d@)),
                Err(e) => !(self@ is Dict) && e@ == Failure::WrongType("dict"@),
            },
    {
        match self {
            Bencode::Dict(d) => {
                proof {
                    lemma_dict_value(d);
                }
                Ok(d)
            },
            _ => Err(Error::WrongType { expected: "dict" }),
        }
    }

    /// The encoded form of this element.
    pub fn encode(&self) -> (r: Vec<u8>)
        ensures
            r@ == encode(self@),
    {
        let mut buf: Vec<u8> = match self.checked_encoded_len() {
            Some(n) => Vec::with_capacity(n),
            None => Vec::new(),
        };
        self.encode_to_writer(&mut buf);
        assert(buf@ =~= encode(self@));
        buf
    }

    /// Appends the encoded form of this element to `buf`.
    pub fn encode_extend(&self, buf: &mut Vec<u8>)
        ensures
            final(buf)@ == old(buf)@ + encode(self@),
    {
        if let Some(n) = self.checked_encoded_len() {
            buf.reserve(n);
        }
        self.encode_to_writer(buf);
    }

    /// Writes the encoded form of this element behind what `writer` holds.
    pub fn encode_to_writer(&self, writer: &mut Vec<u8>)
        ensures
            final(writer)@ == old(writer)@ + encode(self@),
        decreases self,
    {
        let ghost before = writer@;
        match self {
            Bencode::Int(i) => {
                writer.push(105);
                push_int(writer, *i);
                writer.push(101);
                assert(writer@ =~= before + encode_int(*i as int));
            },
            Bencode::Bytes(bytes) => {
                push_bytes(writer, bytes);
            },
            Bencode::List(list) => {
                writer.push(108);
                let mut i: usize = 0;
                proof {
                    lemma_list_value(*list);
                    assert(values_of(list@).take(0) =~= Seq::<Value>::empty());
                    assert(writer@ =~= before + seq![108u8] + encode_items(
                        values_of(list@).take(0),
                    ));
                }
                while i < list.len()
                    invariant
                        i <= list.len(),
                        *self == Bencode::List(*list),
                        writer@ == before + seq![108u8] + encode_items(
                            values_of(list@).take(i as int),
                        ),
                    decreases list.len() - i,
                {
                    proof {
                        lemma_item_smaller(*self, i as int);
                    }
                    list[i].encode_to_writer(writer);
                    proof {
                        let t = values_of(list@).take(i + 1);
                        assert(t.drop_last() =~= values_of(list@).take(i as int));
                        assert(t.last() == list@[i as int]@);
                        assert(writer@ =~= before + seq![108u8] + encode_items(t));
                    }
                    i = i + 1;
                }
                writer.push(101);
                proof {
                    assert(values_of(list@).take(i as int) =~= values_of(list@));
                    assert(writer@ =~= before + encode(self@));
                }
            },
            Bencode::Dict(dict) => {
                writer.push(100);
                let mut i: usize = 0;
                proof {
                    lemma_dict_value(*dict);
                    assert(entries_of(dict@).take(0) =~= Seq::<(Seq<u8>, Value)>::empty());
                    assert(writer@ =~= before + seq![100u8] + encode_entries(
                        entries_of(dict@).take(0),
                    ));
                }
                while i < dict.len()
                    invariant
                        i <= dict@.len(),
                        *self == Bencode::Dict(*dict),
                        writer@ == before + seq![100u8] + encode_entries(
                            entries_of(dict@).take(i as int),
                        ),
                    decreases dict@.len() - i,
                {
                    let key: &[u8] = dict.key_at(i).as_key();
                    push_bytes(writer, key);
                    proof {
                        lemma_entry_smaller(*self, i as int);
                    }
                    dict.value_at(i).encode_to_writer(writer);
                    proof {
                        let t = entries_of(dict@).take(i + 1);
                        assert(t.drop_last() =~= entries_of(dict@).take(i as int));
                        assert(t.last() == (dict@[i as int].0, dict@[i as int].1@));
                        assert(writer@ =~= before + seq![100u8] + encode_entries(t));
                    }
                    i = i + 1;
                }
                writer.push(101);
                proof {
                    assert(entries_of(dict@).take(i as int) =~= entries_of(dict@));
                    assert(writer@ =~= before + encode(self@));
                }
            },
        }
    }

    /// The length of the encoded form of this element.
    pub fn encoded_len(&self) -> (r: usize)
        requires
            encode(self@).len() <= usize::MAX,
        ensures
            r == encode(self@).len(),
    {
        match self.checked_encoded_len() {
            Some(n) => n,
            None => 0,
        }
    }

    /// The length of the encoded form of this element, if a `usize` can hold it.
    fn checked_encoded_len(&self) -> (r: Option<usize>)
        ensures
            match r {
                Some(n) => n == encode(self@).len(),
                None => encode(self@).len() > usize::MAX,
            },
        decreases self,
    {
        match self {
            Bencode::Int(i) => Some(encoded_int_len(*i)),
            Bencode::Bytes(s) => encoded_bytes_len(s),
            Bencode::List(list) => {
                let mut total: usize = 2;
                let mut i: usize = 0;
                proof {
                    lemma_list_value(*list);
                    assert(values_of(list@).take(0) =~= Seq::<Value>::empty());
                }
                while i < list.len()
                    invariant
                        i <= list.len(),
                        *self == Bencode::List(*list),
                        self@ == Value::List(values_of(list@)),
                        total == 2 + encode_items(values_of(list@).take(i as int)).len(),
                    decreases list.len() - i,
                {
                    let ghost t = values_of(list@).take(i + 1);
                    proof {
                        assert(t.drop_last() =~= values_of(list@).take(i as int));
                        assert(t.last() == list@[i as int]@);
                        lemma_items_prefix(values_of(list@), i + 1);
                    }
                    match list[i].checked_encoded_len() {
                        Some(n) => {
                            match total.checked_add(n) {
                                Some(m) => {
                                    total = m;
                                },
                                None => {
                                    return None;
                                },
                            }
                        },
                        None => {
                            return None;
                        },
                    }
                    i = i + 1;
                }
                assert(values_of(list@).take(i as int) =~= values_of(list@));
                Some(total)
            },
            Bencode::Dict(dict) => {
                let mut total: usize = 2;
                let mut i: usize = 0;
                let len: usize = dict.len();
                proof {
                    lemma_dict_value(*dict);
                    assert(entries_of(dict@).take(0) =~= Seq::<(Seq<u8>, Value)>::empty());
                }
                while i < len
                    invariant
                        i <= len,
                        len == dict@.len(),
                        *self == Bencode::Dict(*dict),
                        self@ == Value::Dict(entries_of(dict@)),
                        total == 2 + encode_entries(entries_of(dict@).take(i as int)).len(),
                    decreases len - i,
                {
                    let ghost t = entries_of(dict@).take(i + 1);
                    proof {
                        assert(t.drop_last() =~= entries_of(dict@).take(i as int));
                        assert(t.last() == (dict@[i as int].0, dict@[i as int].1@));
                        lemma_entries_prefix(entries_of(dict@), i + 1);
                        lemma_entry_smaller(*self, i as int);
                    }
                    let key_len: Option<usize> = encoded_bytes_len(dict.key_at(i).as_key());
                    let value_len: Option<usize> = dict.value_at(i).checked_encoded_len();
                    match (key_len, value_len) {
                        (Some(k), Some(n)) => {
                            match k.checked_add(n) {
                                Some(m) => match total.checked_add(m) {
                                    Some(sum) => {
                                        total = sum;
                                    },
                                    None => {
                                        return None;
                                    },
                                },
                                None => {
                                    return None;
                                },
                            }
                        },
                        _ => {
                            return None;
                        },
                    }
                    i = i + 1;
                }
                assert(entries_of(dict@).take(i as int) =~= entries_of(dict@));
                Some(total)
            },
        }
    }
}

/// The encoded form of the first `k` items is no longer than that of all of them.
proof fn lemma_items_prefix(items: Seq<Value>, k: int)
    requires
        0 <= k <= items.len(),
    ensures
        encode_items(items.take(k)).len() <= encode_items(items).len(),
    decreases items.len() - k,
{
    if k == items.len() {
        assert(items.take(k) =~= items);
    } else {
        assert(items.take(k + 1).drop_last() =~= items.take(k));
        lemma_items_prefix(items, k + 1);
    }
}

/// The encoded form of the first `k` entries is no longer than that of all of them.
proof fn lemma_entries_prefix(entries: Seq<(Seq<u8>, Value)>, k: int)
    requires
        0 <= k <= entries.len(),
    ensures
        encode_entries(entries.take(k)).len() <= encode_entries(entries).len(),
    decreases entries.len() - k,
{
    if k == entries.len() {
        assert(entries.take(k) =~= entries);
    } else {
        assert(entries.take(k + 1).drop_last() =~= entries.take(k));
        lemma_entries_prefix(entries, k + 1);
    }
}

/// The length of the encoded form of an integer: its digits, a minus sign if it is negative, and
/// two bytes around them.
fn encoded_int_len(i: i64) -> (r: usize)
    ensures
        r == encode_int(i as int).len(),
{
    if i < 0 {
        3 + decimal_len(magnitude(i))
    } else {
        2 + decimal_len(magnitude(i))
    }
}

/// The length of the encoded form of a byte string: the digits of its length, a colon and the
/// bytes themselves.
fn encoded_bytes_len(bytes: &[u8]) -> (r: Option<usize>)
    ensures
        match r {
            Some(n) => n == encode_bytes(bytes@).len(),
            None => encode_bytes(bytes@).len() > usize::MAX,
        },
{
    (decimal_len(bytes.len() as u64) + 1).checked_add(bytes.len())
}

/// Appends the decimal numeral of `i`.
fn push_int(buf: &mut Vec<u8>, i: i64)
    ensures
        final(buf)@ == old(buf)@ + decimal_int(i as int),
{
    let ghost before = buf@;
    if i < 0 {
        buf.push(45);
        push_decimal(buf, magnitude(i));
    } else {
        push_decimal(buf, i as u64);
    }
    assert(buf@ =~= before + decimal_int(i as int));
}

/// The absolute value of `i`.
fn magnitude(i: i64) -> (r: u64)
    ensures
        r == if i < 0 {
            -(i as int)
        } else {
            i as int
        },
{
    if i < 0 {
        (-(i + 1)) as u64 + 1
    } else {
        i as u64
    }
}

/// Appends the encoded form of a byte string.
fn push_bytes(buf: &mut Vec<u8>, bytes: &[u8])
    ensures
        final(buf)@ == old(buf)@ + encode_bytes(bytes@),
{
    let ghost before = buf@;
    push_decimal(buf, bytes.len() as u64);
    buf.push(58);
    buf.extend_from_slice(bytes);
    assert(buf@ =~= before + encode_bytes(bytes@));
}

} // verus!
