//! A lenient parser of bencoded data.
//!
//! It sets no limit to the nesting depth, takes the keys of a dictionary in any order, and lets
//! the last value under a key count. Whatever the parser in [`crate::bencode`] accepts, this one
//! reads in the same way.
use std::str::Utf8Error;

use vstd::prelude::*;
use vstd::utf8::{encode_utf8_decode_utf8, valid_utf8};

use crate::bencode::error::Failure;
use crate::bencode::model::Value;
use crate::bencode::parser::{
    entries_at, first, integer_at, is_first, items_at, lemma_parse_progress, parse_at,
    Outcome,
};
use crate::decimal::{is_digit, lemma_read_range, parse_i64, parse_usize, read_int, IntErrorKind};
use crate::sorted_map::{
    lemma_views_with_entry, lemma_with_entry, lemma_with_entry_last, rises, value_views,
    with_entry, SortedMap,
};
use crate::text::from_utf8;

verus! {

/// A bencoded value.
#[derive(Debug)]
pub enum BencodeValue<'a> {
    /// A signed 64-bit integer.
    Int(i64),
    /// A byte string.
    Bytes(&'a [u8]),
    /// A list of values.
    List(Vec<BencodeValue<'a>>),
    /// A dictionary.
    Dict(SortedMap<&'a [u8], BencodeValue<'a>>),
}

/// The model of a value.
pub open spec fn value_of(b: BencodeValue) -> Value
    decreases b,
{
    match b {
        BencodeValue::Int(i) => Value::Int(i as int),
        BencodeValue::Bytes(s) => Value::Bytes(s@),
        BencodeValue::List(l) => Value::List(
            Seq::new(
                l@.len(),
                |i: int|
                    if 0 <= i < l@.len() {
                        value_of(l@[i])
                    } else {
                        arbitrary()
                    },
            ),
        ),
        BencodeValue::Dict(d) => Value::Dict(
            Seq::new(
                d@.len(),
                |i: int|
                    if 0 <= i < d@.len() {
                        proof {
                            d.lemma_value_smaller(i);
                        }
                        (d@[i].0, value_of(d@[i].1))
                    } else {
                        arbitrary()
                    },
            ),
        ),
    }
}

impl<'a> View for BencodeValue<'a> {
    type V = Value;

    open spec fn view(&self) -> Value {
        value_of(*self)
    }
}

/// Errors that can arise while parsing.
#[derive(Debug)]
pub enum BencodeError {
    /// A numeral is not valid UTF-8.
    InvalidUtf8(Utf8Error),
    /// A numeral could not be read.
    InvalidInteger(IntErrorKind),
    /// A numeral has a leading zero or is a negative zero.
    InvalidBencodeInteger(String),
    /// An unexpected byte was met, at the given position.
    UnexpectedByte(usize, u8),
    /// The data ends too early.
    UnexpectedEof,
    /// A key of a dictionary is not a byte string.
    NonStringKey,
}

impl View for BencodeError {
    type V = Failure;

    open spec fn view(&self) -> Failure {
        match self {
            BencodeError::InvalidUtf8(_) => Failure::InvalidUtf8,
            BencodeError::InvalidInteger(k) => Failure::InvalidInteger(*k),
            BencodeError::InvalidBencodeInteger(s) => Failure::InvalidBencodeInteger(s@),
            BencodeError::UnexpectedByte(p, b) => Failure::UnexpectedByte(*p as int, *b),
            BencodeError::UnexpectedEof => Failure::UnexpectedEof,
            BencodeError::NonStringKey => Failure::NonStringKey,
        }
    }
}

/// Reads a byte string whose length starts at `pos`. The length may have leading zeros.
pub open spec fn lenient_bytes_at(data: Seq<u8>, pos: int) -> Outcome<Value> {
    match first(data, pos, 58) {
        None => Err((Failure::UnexpectedEof, pos)),
        Some(colon) => {
            let s = data.subrange(pos, colon);
            if !valid_utf8(s) {
                Err((Failure::InvalidUtf8, pos))
            } else {
                match read_int(s, 0, usize::MAX as int) {
                    Err(k) => Err((Failure::InvalidInteger(k), pos)),
                    Ok(len) => if len > data.len() - (colon + 1) {
                        Err((Failure::UnexpectedEof, colon + 1))
                    } else {
                        Ok(
                            (
                                Value::Bytes(data.subrange(colon + 1, colon + 1 + len)),
                                colon + 1 + len,
                            ),
                        )
                    },
                }
            }
        },
    }
}

/// Reads the value at `pos`.
pub open spec fn lenient_at(data: Seq<u8>, pos: int) -> Outcome<Value>
    decreases data.len() - pos, 0int,
{
    if !(0 <= pos < data.len()) {
        Err((Failure::UnexpectedEof, pos))
    } else if data[pos] == 105 {
        integer_at(data, pos + 1)
    } else if data[pos] == 108 {
        match lenient_items_at(data, pos + 1, Seq::empty()) {
            Ok((items, end)) => Ok((Value::List(items), end)),
            Err(e) => Err(e),
        }
    } else if data[pos] == 100 {
        match lenient_entries_at(data, pos + 1, Seq::empty()) {
            Ok((entries, end)) => Ok((Value::Dict(entries), end)),
            Err(e) => Err(e),
        }
    } else if is_digit(data[pos]) {
        lenient_bytes_at(data, pos)
    } else {
        Err((Failure::UnexpectedByte(pos, data[pos]), pos))
    }
}

/// Reads the rest of a list from `pos` on, behind the items in `acc`.
pub open spec fn lenient_items_at(data: Seq<u8>, pos: int, acc: Seq<Value>) -> Outcome<Seq<Value>>
    decreases data.len() - pos, 1int,
{
    if !(0 <= pos < data.len()) {
        Err((Failure::UnexpectedEof, pos))
    } else if data[pos] == 101 {
        Ok((acc, pos + 1))
    } else {
        match lenient_at(data, pos) {
            Err(e) => Err(e),
            Ok((v, next)) => if pos < next <= data.len() {
                lenient_items_at(data, next, acc.push(v))
            } else {
                arbitrary()
            },
        }
    }
}

/// Reads the rest of a dictionary from `pos` on, with the entries in `acc`.
pub open spec fn lenient_entries_at(
    data: Seq<u8>,
    pos: int,
    acc: Seq<(Seq<u8>, Value)>,
) -> Outcome<Seq<(Seq<u8>, Value)>>
    decreases data.len() - pos, 1int,
{
    if !(0 <= pos < data.len()) {
        Err((Failure::UnexpectedEof, pos))
    } else if data[pos] == 101 {
        Ok((acc, pos + 1))
    } else {
        match lenient_at(data, pos) {
            Err(e) => Err(e),
            Ok((Value::Bytes(key), middle)) => if pos < middle <= data.len() {
                match lenient_at(data, middle) {
                    Err(e) => Err(e),
                    Ok((v, next)) => if pos < next <= data.len() {
                        lenient_entries_at(data, next, with_entry(acc, key, v))
                    } else {
                        arbitrary()
                    },
                }
            } else {
                arbitrary()
            },
            Ok((_, middle)) => Err((Failure::NonStringKey, middle)),
        }
    }
}

/// What is read lies behind `pos` and within the data.
proof fn lemma_progress(data: Seq<u8>, pos: int)
    ensures
        lenient_at(data, pos) matches Ok((_, end)) ==> pos < end <= data.len(),
    decreases data.len() - pos, 0int,
{
    if 0 <= pos < data.len() {
        if data[pos] == 108 {
            lemma_items_progress(data, pos + 1, Seq::empty());
        } else if data[pos] == 100 {
            lemma_entries_progress(data, pos + 1, Seq::empty());
        } else if data[pos] == 105 {
            if let Some(end) = first(data, pos + 1, 101) {
                assert(is_first(data, pos + 1, 101, end));
            }
        } else if is_digit(data[pos]) {
            if let Some(colon) = first(data, pos, 58) {
                assert(is_first(data, pos, 58, colon));
                let s = data.subrange(pos, colon);
                if read_int(s, 0, usize::MAX as int) is Ok {
                    lemma_read_range(s, 0, usize::MAX as int);
                }
            }
        }
    }
}

proof fn lemma_items_progress(data: Seq<u8>, pos: int, acc: Seq<Value>)
    ensures
        lenient_items_at(data, pos, acc) matches Ok((_, end)) ==> pos < end <= data.len(),
    decreases data.len() - pos, 1int,
{
    if 0 <= pos < data.len() && data[pos] != 101 {
        lemma_progress(data, pos);
        if let Ok((v, next)) = lenient_at(data, pos) {
            lemma_items_progress(data, next, acc.push(v));
        }
    }
}

proof fn lemma_entries_progress(data: Seq<u8>, pos: int, acc: Seq<(Seq<u8>, Value)>)
    ensures
        lenient_entries_at(data, pos, acc) matches Ok((_, end)) ==> pos < end <= data.len(),
    decreases data.len() - pos, 1int,
{
    if 0 <= pos < data.len() && data[pos] != 101 {
        lemma_progress(data, pos);
        if let Ok((Value::Bytes(key), middle)) = lenient_at(data, pos) {
            lemma_progress(data, middle);
            if let Ok((v, next)) = lenient_at(data, middle) {
                lemma_entries_progress(data, next, with_entry(acc, key, v));
            }
        }
    }
}

/// The parser's answer agrees with the model's.
pub open spec fn agrees(
    r: Result<BencodeValue, BencodeError>,
    cursor: int,
    expected: Outcome<Value>,
) -> bool {
    match (r, expected) {
        (Ok(b), Ok((v, end))) => b@ == v && cursor == end,
        (Err(e), Err((f, end))) => e@ == f && cursor == end,
        _ => false,
    }
}

/// `memchr::memchr`: the first position that holds `needle`, if there is one.
#[verifier::external_body]
fn find(needle: u8, haystack: &[u8]) -> (r: Option<usize>)
    ensures
        match r {
            Some(i) => is_first(haystack@, 0, needle, i as int),
            None => forall|i: int| 0 <= i < haystack@.len() ==> haystack@[i] != needle,
        },
{
    memchr::memchr(needle, haystack)
}

/// A lenient parser of bencoded data.
#[derive(Debug)]
pub struct Parser<'a> {
    data: &'a [u8],
    cursor: usize,
}

impl<'a> Parser<'a> {
    #[verifier::type_invariant]
    spec fn inv(self) -> bool {
        self.cursor <= self.data@.len() <= usize::MAX
    }

    /// The data that this parser reads.
    pub closed spec fn input(&self) -> Seq<u8> {
        self.data@
    }

    /// The position of the next byte.
    pub closed spec fn cursor(&self) -> int {
        self.cursor as int
    }

    /// A parser at the start of the data.
    pub fn new(data: &'a [u8]) -> (r: Self)
        ensures
            r.input() == data@,
            r.cursor() == 0,
    {
        assert(data@.len() == data.len());
        Parser { data, cursor: 0 }
    }

    /// Parses the next value.
    ///
    /// # Errors
    ///
    /// - [`BencodeError::UnexpectedByte`] for a byte that cannot start a value.
    /// - [`BencodeError::UnexpectedEof`] if the data ends too early.
    /// - [`BencodeError::InvalidUtf8`] and [`BencodeError::InvalidInteger`] for a numeral that
    ///   cannot be read.
    /// - [`BencodeError::InvalidBencodeInteger`] for an integer with a leading zero, or a negative
    ///   zero.
    /// - [`BencodeError::NonStringKey`] for a dictionary key that is not a byte string.
    pub fn parse(&mut self) -> (r: Result<BencodeValue<'a>, BencodeError>)
        ensures
            agrees(r, final(self).cursor(), lenient_at(old(self).input(), old(self).cursor())),
            final(self).input() == old(self).input(),
        decreases old(self).input().len() - old(self).cursor(), 1int,
    {
        proof {
            use_type_invariant(&*self);
        }
        let b: u8 = match self.peek() {
            Ok(b) => b,
            Err(e) => return Err(e),
        };
        if b == 105 {
            self.parse_integer()
        } else if b == 108 {
            self.parse_list()
        } else if b == 100 {
            self.parse_dict()
        } else if 48 <= b && b <= 57 {
            self.parse_bytes()
        } else {
            Err(BencodeError::UnexpectedByte(self.cursor, b))
        }
    }

    /// The bytes between `start` and the position of the next byte.
    pub fn raw_span(&self, start: usize) -> (r: &'a [u8])
        requires
            start <= self.cursor(),
        ensures
            r@ == self.input().subrange(start as int, self.cursor()),
    {
        proof {
            use_type_invariant(self);
        }
        let data: &'a [u8] = self.data;
        vstd::slice::slice_subrange(data, start, self.cursor)
    }

    /// The position of the next byte.
    pub fn position(&self) -> (r: usize)
        ensures
            r == self.cursor(),
    {
        self.cursor
    }

    /// The next byte.
    fn peek(&self) -> (r: Result<u8, BencodeError>)
        ensures
            match r {
                Ok(b) => self.cursor < self.data@.len() && b == self.data@[self.cursor as int],
                Err(e) => self.cursor == self.data@.len() && e@ == Failure::UnexpectedEof,
            },
    {
        proof {
            use_type_invariant(self);
        }
        if self.cursor < self.data.len() {
            Ok(self.data[self.cursor])
        } else {
            Err(BencodeError::UnexpectedEof)
        }
    }

    /// The next `len` bytes.
    fn peek_slice(&self, len: usize) -> (r: Result<&'a [u8], BencodeError>)
        ensures
            match r {
                Ok(s) => len <= self.data@.len() - self.cursor && s@ == self.data@.subrange(
                    self.cursor as int,
                    self.cursor + len,
                ),
                Err(e) => len > self.data@.len() - self.cursor && e@ == Failure::UnexpectedEof,
            },
    {
        proof {
            use_type_invariant(self);
        }
        if len <= self.data.len() - self.cursor {
            let data: &'a [u8] = self.data;
            Ok(vstd::slice::slice_subrange(data, self.cursor, self.cursor + len))
        } else {
            Err(BencodeError::UnexpectedEof)
        }
    }

    /// The position of the next byte that is `needle`.
    fn seek(&self, needle: u8) -> (r: Option<usize>)
        ensures
            match r {
                Some(i) => is_first(self.data@, self.cursor as int, needle, i as int) && first(
                    self.data@,
                    self.cursor as int,
                    needle,
                ) == Some(i as int),
                None => first(self.data@, self.cursor as int, needle) is None,
            },
    {
        proof {
            use_type_invariant(self);
        }
        let data: &'a [u8] = self.data;
        let from: usize = self.cursor;
        let rest: &'a [u8] = vstd::slice::slice_subrange(data, from, data.len());
        match find(needle, rest) {
            Some(i) => {
                proof {
                    let at = from + i;
                    assert(data@[at] == rest@[i as int]);
                    assert forall|k: int| from <= k < at implies data@[k] != needle by {
                        assert(data@[k] == rest@[k - from]);
                    }
                    assert(is_first(data@, from as int, needle, at));
                    let j = first(data@, from as int, needle)->0;
                    assert(is_first(data@, from as int, needle, j));
                    assert(at == j);
                }
                Some(from + i)
            },
            None => {
                proof {
                    assert forall|k: int| from <= k < data@.len() implies data@[k] != needle by {
                        assert(data@[k] == rest@[k - from]);
                    }
                }
                None
            },
        }
    }

    /// Parses the integer at the current position.
    fn parse_integer(&mut self) -> (r: Result<BencodeValue<'a>, BencodeError>)
        requires
            old(self).cursor < old(self).data@.len(),
        ensures
            agrees(r, final(self).cursor as int, integer_at(old(self).data@, old(self).cursor + 1)),
            final(self).data == old(self).data,
    {
        proof {
            use_type_invariant(&*self);
        }
        self.cursor = self.cursor + 1;
        let data: &'a [u8] = self.data;
        let end: usize = match self.seek(101) {
            Some(end) => end,
            None => return Err(BencodeError::UnexpectedEof),
        };
        let numeral: &'a [u8] = vstd::slice::slice_subrange(data, self.cursor, end);
        let s: &'a str = match from_utf8(numeral) {
            Ok(s) => s,
            Err(e) => return Err(BencodeError::InvalidUtf8(e)),
        };
        if numeral.len() >= 2 && ((numeral[0] == 45 && numeral[1] == 48) || numeral[0] == 48) {
            proof {
                encode_utf8_decode_utf8(s@);
            }
            return Err(BencodeError::InvalidBencodeInteger(s.to_owned()));
        }
        match parse_i64(numeral) {
            Ok(i) => {
                self.cursor = end + 1;
                Ok(BencodeValue::Int(i))
            },
            Err(k) => Err(BencodeError::InvalidInteger(k)),
        }
    }

    /// Parses the byte string at the current position.
    fn parse_bytes(&mut self) -> (r: Result<BencodeValue<'a>, BencodeError>)
        ensures
            agrees(
                r,
                final(self).cursor as int,
                lenient_bytes_at(old(self).data@, old(self).cursor as int),
            ),
            final(self).data == old(self).data,
    {
        proof {
            use_type_invariant(&*self);
        }
        let data: &'a [u8] = self.data;
        let colon: usize = match self.seek(58) {
            Some(colon) => colon,
            None => return Err(BencodeError::UnexpectedEof),
        };
        let numeral: &'a [u8] = vstd::slice::slice_subrange(data, self.cursor, colon);
        if let Err(e) = from_utf8(numeral) {
            return Err(BencodeError::InvalidUtf8(e));
        }
        let len: usize = match parse_usize(numeral) {
            Ok(len) => len,
            Err(k) => return Err(BencodeError::InvalidInteger(k)),
        };
        self.cursor = colon + 1;
        match self.peek_slice(len) {
            Ok(bytes) => {
                self.cursor = self.cursor + len;
                Ok(BencodeValue::Bytes(bytes))
            },
            Err(e) => Err(e),
        }
    }

    /// Parses the list at the current position.
    fn parse_list(&mut self) -> (r: Result<BencodeValue<'a>, BencodeError>)
        requires
            old(self).cursor < old(self).data@.len(),
            old(self).data@[old(self).cursor as int] == 108,
        ensures
            agrees(
                r,
                final(self).cursor as int,
                lenient_at(old(self).data@, old(self).cursor as int),
            ),
            final(self).data == old(self).data,
        decreases old(self).data@.len() - old(self).cursor, 0int,
    {
        proof {
            use_type_invariant(&*self);
        }
        let ghost data = self.data@;
        let ghost start = self.cursor as int;
        self.cursor = self.cursor + 1;
        let mut list: Vec<BencodeValue<'a>> = Vec::new();
        assert(values_of(list@) =~= Seq::<Value>::empty());
        loop
            invariant
                self.data@ == data,
                self.data == old(self).data,
                start == old(self).cursor,
                start < self.cursor,
                lenient_items_at(data, start + 1, Seq::empty()) == lenient_items_at(
                    data,
                    self.cursor as int,
                    values_of(list@),
                ),
                lenient_at(data, start) == match lenient_items_at(data, start + 1, Seq::empty()) {
                    Ok((items, end)) => Ok::<_, (Failure, int)>((Value::List(items), end)),
                    Err(e) => Err(e),
                },
            decreases data.len() - self.cursor,
        {
            proof {
                use_type_invariant(&*self);
            }
            let b: u8 = match self.peek() {
                Ok(b) => b,
                Err(e) => return Err(e),
            };
            if b == 101 {
                self.cursor = self.cursor + 1;
                proof {
                    assert(value_of(BencodeValue::List(list))->List_0 =~= values_of(list@));
                }
                return Ok(BencodeValue::List(list));
            }
            proof {
                lemma_progress(data, self.cursor as int);
            }
            let item: BencodeValue<'a> = match self.parse() {
                Ok(item) => item,
                Err(e) => return Err(e),
            };
            let ghost before = values_of(list@);
            list.push(item);
            assert(values_of(list@) =~= before.push(item@));
        }
    }

    /// Parses the dictionary at the current position.
    fn parse_dict(&mut self) -> (r: Result<BencodeValue<'a>, BencodeError>)
        requires
            old(self).cursor < old(self).data@.len(),
            old(self).data@[old(self).cursor as int] == 100,
        ensures
            agrees(
                r,
                final(self).cursor as int,
                lenient_at(old(self).data@, old(self).cursor as int),
            ),
            final(self).data == old(self).data,
        decreases old(self).data@.len() - old(self).cursor, 0int,
    {
        proof {
            use_type_invariant(&*self);
        }
        let ghost data = self.data@;
        let ghost start = self.cursor as int;
        self.cursor = self.cursor + 1;
        let mut map: SortedMap<&'a [u8], BencodeValue<'a>> = SortedMap::new();
        assert(value_views(map@) =~= Seq::<(Seq<u8>, Value)>::empty());
        loop
            invariant
                self.data@ == data,
                self.data == old(self).data,
                start == old(self).cursor,
                start < self.cursor,
                lenient_entries_at(data, start + 1, Seq::empty()) == lenient_entries_at(
                    data,
                    self.cursor as int,
                    value_views(map@),
                ),
                lenient_at(data, start) == match lenient_entries_at(
                    data,
                    start + 1,
                    Seq::empty(),
                ) {
                    Ok((entries, end)) => Ok::<_, (Failure, int)>((Value::Dict(entries), end)),
                    Err(e) => Err(e),
                },
            decreases data.len() - self.cursor,
        {
            proof {
                use_type_invariant(&*self);
            }
            let b: u8 = match self.peek() {
                Ok(b) => b,
                Err(e) => return Err(e),
            };
            if b == 101 {
                self.cursor = self.cursor + 1;
                proof {
                    assert(value_of(BencodeValue::Dict(map))->Dict_0 =~= value_views(map@));
                }
                return Ok(BencodeValue::Dict(map));
            }
            proof {
                lemma_progress(data, self.cursor as int);
            }
            let key: &'a [u8] = match self.parse() {
                Ok(BencodeValue::Bytes(key)) => key,
                Ok(_) => return Err(BencodeError::NonStringKey),
                Err(e) => return Err(e),
            };
            proof {
                lemma_progress(data, self.cursor as int);
            }
            let value: BencodeValue<'a> = match self.parse() {
                Ok(value) => value,
                Err(e) => return Err(e),
            };
            let ghost before = map@;
            let _ = map.insert(key, value);
            proof {
                lemma_views_with_entry(before, key@, value);
            }
        }
    }
}

/// The models of some values.
pub open spec fn values_of(l: Seq<BencodeValue>) -> Seq<Value> {
    Seq::new(l.len(), |i: int| l[i]@)
}

/// Whatever the strict parser accepts, the lenient one reads in the same way.
pub proof fn law_lenient_reads_what_strict_reads(
    data: Seq<u8>,
    pos: int,
    depth: int,
    max_depth: int,
)
    ensures
        parse_at(data, pos, depth, max_depth) is Ok ==> lenient_at(data, pos) == parse_at(
            data,
            pos,
            depth,
            max_depth,
        ),
    decreases data.len() - pos, 0int,
{
    if parse_at(data, pos, depth, max_depth) is Ok {
        if data[pos] == 108 {
            lemma_strict_items(data, pos + 1, Seq::empty(), depth, max_depth);
        } else if data[pos] == 100 {
            lemma_strict_entries(data, pos + 1, Seq::empty(), depth, max_depth);
        }
    }
}

proof fn lemma_strict_items(
    data: Seq<u8>,
    pos: int,
    acc: Seq<Value>,
    depth: int,
    max_depth: int,
)
    ensures
        items_at(data, pos, acc, depth, max_depth) is Ok ==> lenient_items_at(data, pos, acc)
            == items_at(data, pos, acc, depth, max_depth),
    decreases data.len() - pos, 1int,
{
    if items_at(data, pos, acc, depth, max_depth) is Ok && data[pos] != 101 {
        law_lenient_reads_what_strict_reads(data, pos, depth + 1, max_depth);
        lemma_parse_progress(data, pos, depth + 1, max_depth);
        if let Ok((v, next)) = parse_at(data, pos, depth + 1, max_depth) {
            lemma_strict_items(data, next, acc.push(v), depth, max_depth);
        }
    }
}

proof fn lemma_strict_entries(
    data: Seq<u8>,
    pos: int,
    acc: Seq<(Seq<u8>, Value)>,
    depth: int,
    max_depth: int,
)
    requires
        rises(acc),
    ensures
        entries_at(data, pos, acc, depth, max_depth) is Ok ==> lenient_entries_at(data, pos, acc)
            == entries_at(data, pos, acc, depth, max_depth),
    decreases data.len() - pos, 1int,
{
    if entries_at(data, pos, acc, depth, max_depth) is Ok && data[pos] != 101 {
        law_lenient_reads_what_strict_reads(data, pos, depth + 1, max_depth);
        lemma_parse_progress(data, pos, depth + 1, max_depth);
        if let Ok((Value::Bytes(key), middle)) = parse_at(data, pos, depth + 1, max_depth) {
            law_lenient_reads_what_strict_reads(data, middle, depth + 1, max_depth);
            lemma_parse_progress(data, middle, depth + 1, max_depth);
            if let Ok((v, next)) = parse_at(data, middle, depth + 1, max_depth) {
                lemma_with_entry_last(acc, key, v);
                lemma_with_entry(acc, key, v);
                lemma_strict_entries(data, next, acc.push((key, v)), depth, max_depth);
            }
        }
    }
}

/// The first position of a byte is the same in a part of the data.
proof fn lemma_first_within(data: Seq<u8>, a: int, b: int, from: int, c: u8, i: int)
    requires
        0 <= a <= from,
        b <= data.len(),
        is_first(data, from, c, i),
        i < b,
    ensures
        first(data, from, c) == Some(i),
        first(data.subrange(a, b), from - a, c) == Some(i - a),
{
    let part = data.subrange(a, b);
    assert(is_first(part, from - a, c, i - a)) by {
        assert forall|k: int| from - a <= k < i - a implies part[k] != c by {
            assert(data[k + a] != c);
        }
    }
    let j = first(part, from - a, c)->0;
    assert(is_first(part, from - a, c, j));
    let k = first(data, from, c)->0;
    assert(is_first(data, from, c, k));
}

/// What is read between `a` and `b` is read in the same way from that part of the data.
proof fn lemma_within(data: Seq<u8>, a: int, b: int, pos: int)
    requires
        0 <= a <= pos,
        b <= data.len(),
        lenient_at(data, pos) matches Ok((_, end)) && end <= b,
    ensures
        lenient_at(data.subrange(a, b), pos - a) == Ok::<(Value, int), (Failure, int)>(
            (lenient_at(data, pos)->Ok_0.0, lenient_at(data, pos)->Ok_0.1 - a),
        ),
    decreases data.len() - pos, 0int,
{
    let part = data.subrange(a, b);
    lemma_progress(data, pos);
    assert(part[pos - a] == data[pos]);
    if data[pos] == 105 {
        let i = first(data, pos + 1, 101)->0;
        assert(is_first(data, pos + 1, 101, i));
        lemma_first_within(data, a, b, pos + 1, 101, i);
        assert(part.subrange(pos + 1 - a, i - a) =~= data.subrange(pos + 1, i));
    } else if data[pos] == 108 {
        lemma_items_within(data, a, b, pos + 1, Seq::empty());
    } else if data[pos] == 100 {
        lemma_entries_within(data, a, b, pos + 1, Seq::empty());
    } else {
        let i = first(data, pos, 58)->0;
        assert(is_first(data, pos, 58, i));
        let s = data.subrange(pos, i);
        lemma_read_range(s, 0, usize::MAX as int);
        let len = read_int(s, 0, usize::MAX as int)->Ok_0;
        lemma_first_within(data, a, b, pos, 58, i);
        assert(part.subrange(pos - a, i - a) =~= s);
        assert(part.subrange(i - a + 1, i - a + 1 + len) =~= data.subrange(i + 1, i + 1 + len));
    }
}

proof fn lemma_items_within(data: Seq<u8>, a: int, b: int, pos: int, acc: Seq<Value>)
    requires
        0 <= a <= pos,
        b <= data.len(),
        lenient_items_at(data, pos, acc) matches Ok((_, end)) && end <= b,
    ensures
        lenient_items_at(data.subrange(a, b), pos - a, acc) == Ok::<
            (Seq<Value>, int),
            (Failure, int),
        >(
            (
                lenient_items_at(data, pos, acc)->Ok_0.0,
                lenient_items_at(data, pos, acc)->Ok_0.1 - a,
            ),
        ),
    decreases data.len() - pos, 1int,
{
    let part = data.subrange(a, b);
    lemma_items_progress(data, pos, acc);
    assert(part[pos - a] == data[pos]);
    if data[pos] != 101 {
        lemma_progress(data, pos);
        let (v, next) = lenient_at(data, pos)->Ok_0;
        lemma_items_progress(data, next, acc.push(v));
        lemma_within(data, a, b, pos);
        lemma_items_within(data, a, b, next, acc.push(v));
    }
}

proof fn lemma_entries_within(
    data: Seq<u8>,
    a: int,
    b: int,
    pos: int,
    acc: Seq<(Seq<u8>, Value)>,
)
    requires
        0 <= a <= pos,
        b <= data.len(),
        lenient_entries_at(data, pos, acc) matches Ok((_, end)) && end <= b,
    ensures
        lenient_entries_at(data.subrange(a, b), pos - a, acc) == Ok::<
            (Seq<(Seq<u8>, Value)>, int),
            (Failure, int),
        >(
            (
                lenient_entries_at(data, pos, acc)->Ok_0.0,
                lenient_entries_at(data, pos, acc)->Ok_0.1 - a,
            ),
        ),
    decreases data.len() - pos, 1int,
{
    let part = data.subrange(a, b);
    lemma_entries_progress(data, pos, acc);
    assert(part[pos - a] == data[pos]);
    if data[pos] != 101 {
        lemma_progress(data, pos);
        let (k, middle) = lenient_at(data, pos)->Ok_0;
        let key = k->Bytes_0;
        lemma_progress(data, middle);
        let (v, next) = lenient_at(data, middle)->Ok_0;
        lemma_entries_progress(data, next, with_entry(acc, key, v));
        lemma_within(data, a, b, pos);
        lemma_within(data, a, b, middle);
        lemma_entries_within(data, a, b, next, with_entry(acc, key, v));
    }
}

/// The span of a value stands for the value: read alone it gives the same value, and nothing of it
/// is left.
pub proof fn law_span_reads_alone(data: Seq<u8>, pos: int)
    ensures
        lenient_at(data, pos) matches Ok((v, end)) ==> lenient_at(data.subrange(pos, end), 0)
            == Ok::<(Value, int), (Failure, int)>((v, data.subrange(pos, end).len() as int)),
{
    if let Ok((v, end)) = lenient_at(data, pos) {
        lemma_progress(data, pos);
        lemma_within(data, pos, end, pos);
    }
}

} // verus!
