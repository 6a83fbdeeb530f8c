//! The parser of bencoded data.
use vstd::prelude::*;
use vstd::utf8::{decode_utf8, encode_utf8_decode_utf8, valid_utf8};

use crate::bencode::element::{
    entries_of, lemma_dict_value, lemma_list_value, values_of, Bencode,
};
use crate::bencode::error::{Error, Failure};
use crate::bencode::model::Value;
use crate::decimal::{is_digit, parse_i64, parse_usize, read_int};
use crate::lex::{bytes_lt, lex_lt};
use crate::sorted_map::{lemma_with_entry_last, rises, SortedMap};
use crate::text::from_utf8;

verus! {

/// `i` is the first position from `from` on that holds `b`.
pub open spec fn is_first(data: Seq<u8>, from: int, b: u8, i: int) -> bool {
    &&& from <= i < data.len()
    &&& data[i] == b
    &&& forall|k: int| from <= k < i ==> data[k] != b
}

/// The first position from `from` on that holds `b`.
pub open spec fn first(data: Seq<u8>, from: int, b: u8) -> Option<int> {
    if exists|i: int| is_first(data, from, b, i) {
        Some(choose|i: int| is_first(data, from, b, i))
    } else {
        None
    }
}

/// A numeral that may not stand for an integer: one with a leading zero, or a negative zero.
pub open spec fn bad_numeral(s: Seq<u8>) -> bool {
    ||| s.len() >= 2 && s[0] == 45 && s[1] == 48
    ||| s.len() >= 2 && s[0] == 48
}

/// What has been read and the position behind it, or what went wrong and the position at which
/// the parser stands then.
pub type Outcome<T> = Result<(T, int), (Failure, int)>;

/// Reads an integer whose numeral starts at `pos`.
pub open spec fn integer_at(data: Seq<u8>, pos: int) -> Outcome<Value> {
    match first(data, pos, 101) {
        None => Err((Failure::UnexpectedEof, pos)),
        Some(end) => {
            let s = data.subrange(pos, end);
            if !valid_utf8(s) {
                Err((Failure::InvalidUtf8, pos))
            } else if bad_numeral(s) {
                Err((Failure::InvalidBencodeInteger(decode_utf8(s)), pos))
            } else {
                match read_int(s, i64::MIN as int, i64::MAX as int) {
                    Ok(v) => Ok((Value::Int(v), end + 1)),
                    Err(k) => Err((Failure::InvalidInteger(k), pos)),
                }
            }
        },
    }
}

/// Reads a byte string whose length starts at `pos`.
pub open spec fn bytes_at(data: Seq<u8>, pos: int) -> Outcome<Value> {
    match first(data, pos, 58) {
        None => Err((Failure::UnexpectedEof, pos)),
        Some(colon) => {
            let s = data.subrange(pos, colon);
            if !valid_utf8(s) {
                Err((Failure::InvalidUtf8, pos))
            } else if s.len() >= 2 && s[0] == 48 {
                Err((Failure::InvalidBencodeInteger(decode_utf8(s)), pos))
            } else {
                match read_int(s, 0, usize::MAX as int) {
                    Err(k) => Err((Failure::InvalidInteger(k), pos)),
                    Ok(len) => if len > data.len() - (colon + 1) {
                        Err((Failure::UnexpectedEof, colon + 1))
                    } else {
                        Ok((Value::Bytes(data.subrange(colon + 1, colon + 1 + len)), colon + 1 + len))
                    },
                }
            }
        },
    }
}

/// Reads the element at `pos`, which is nested `depth` levels deep.
pub open spec fn parse_at(data: Seq<u8>, pos: int, depth: int, max_depth: int) -> Outcome<Value>
    decreases data.len() - pos, 0int,
{
    if depth > max_depth {
        Err((Failure::DepthLimitExceeded, pos))
    } else if !(0 <= pos < data.len()) {
        Err((Failure::UnexpectedEof, pos))
    } else if data[pos] == 105 {
        integer_at(data, pos + 1)
    } else if data[pos] == 108 {
        match items_at(data, pos + 1, Seq::empty(), depth, max_depth) {
            Ok((items, end)) => Ok((Value::List(items), end)),
            Err(e) => Err(e),
        }
    } else if data[pos] == 100 {
        match entries_at(data, pos + 1, Seq::empty(), depth, max_depth) {
            Ok((entries, end)) => Ok((Value::Dict(entries), end)),
            Err(e) => Err(e),
        }
    } else if is_digit(data[pos]) {
        bytes_at(data, pos)
    } else {
        Err((Failure::UnexpectedByte(pos, data[pos]), pos))
    }
}

/// Reads the rest of a list from `pos` on, behind the items in `acc`.
pub open spec fn items_at(
    data: Seq<u8>,
    pos: int,
    acc: Seq<Value>,
    depth: int,
    max_depth: int,
) -> Outcome<Seq<Value>>
    decreases data.len() - pos, 1int,
{
    if !(0 <= pos < data.len()) {
        Err((Failure::UnexpectedEof, pos))
    } else if data[pos] == 101 {
        Ok((acc, pos + 1))
    } else {
        match parse_at(data, pos, depth + 1, max_depth) {
            Err(e) => Err(e),
            Ok((v, next)) => if pos < next <= data.len() {
                items_at(data, next, acc.push(v), depth, max_depth)
            } else {
                arbitrary()
            },
        }
    }
}

/// Reads the rest of a dictionary from `pos` on, behind the entries in `acc`.
pub open spec fn entries_at(
    data: Seq<u8>,
    pos: int,
    acc: Seq<(Seq<u8>, Value)>,
    depth: int,
    max_depth: int,
) -> Outcome<Seq<(Seq<u8>, Value)>>
    decreases data.len() - pos, 1int,
{
    if !(0 <= pos < data.len()) {
        Err((Failure::UnexpectedEof, pos))
    } else if data[pos] == 101 {
        Ok((acc, pos + 1))
    } else {
        match parse_at(data, pos, depth + 1, max_depth) {
            Err(e) => Err(e),
            Ok((Value::Bytes(key), middle)) => if acc.len() > 0 && !lex_lt(acc.last().0, key) {
                Err((Failure::UnsortedDictKeys, middle))
            } else if pos < middle <= data.len() {
                match parse_at(data, middle, depth + 1, max_depth) {
                    Err(e) => Err(e),
                    Ok((v, next)) => if pos < next <= data.len() {
                        entries_at(data, next, acc.push((key, v)), depth, max_depth)
                    } else {
                        arbitrary()
                    },
                }
            } else {
                arbitrary()
            },
            Ok((_, middle)) => Err((Failure::NonStringKey, middle)),
        }
    }
}

/// What is read lies behind `pos` and within the data.
pub proof fn lemma_parse_progress(data: Seq<u8>, pos: int, depth: int, max_depth: int)
    ensures
        parse_at(data, pos, depth, max_depth) matches Ok((_, end)) ==> pos < end <= data.len(),
    decreases data.len() - pos, 0int,
{
    if depth <= max_depth && 0 <= pos < data.len() {
        if data[pos] == 108 {
            lemma_items_progress(data, pos + 1, Seq::empty(), depth, max_depth);
        } else if data[pos] == 100 {
            lemma_entries_progress(data, pos + 1, Seq::empty(), depth, max_depth);
        } else if data[pos] == 105 {
            if let Some(end) = first(data, pos + 1, 101) {
                assert(is_first(data, pos + 1, 101, end));
            }
        } else if is_digit(data[pos]) {
            if let Some(colon) = first(data, pos, 58) {
                assert(is_first(data, pos, 58, colon));
                let s = data.subrange(pos, colon);
                if let Ok(len) = read_int(s, 0, usize::MAX as int) {
                    crate::decimal::lemma_read_range(s, 0, usize::MAX as int);
                }
            }
        }
    }
}

proof fn lemma_items_progress(
    data: Seq<u8>,
    pos: int,
    acc: Seq<Value>,
    depth: int,
    max_depth: int,
)
    ensures
        items_at(data, pos, acc, depth, max_depth) matches Ok((_, end)) ==> pos < end
            <= data.len(),
    decreases data.len() - pos, 1int,
{
    if 0 <= pos < data.len() && data[pos] != 101 {
        lemma_parse_progress(data, pos, depth + 1, max_depth);
        if let Ok((v, next)) = parse_at(data, pos, depth + 1, max_depth) {
            lemma_items_progress(data, next, acc.push(v), depth, max_depth);
        }
    }
}

proof fn lemma_entries_progress(
    data: Seq<u8>,
    pos: int,
    acc: Seq<(Seq<u8>, Value)>,
    depth: int,
    max_depth: int,
)
    ensures
        entries_at(data, pos, acc, depth, max_depth) matches Ok((_, end)) ==> pos < end
            <= data.len(),
    decreases data.len() - pos, 1int,
{
    if 0 <= pos < data.len() && data[pos] != 101 {
        lemma_parse_progress(data, pos, depth + 1, max_depth);
        if let Ok((Value::Bytes(key), middle)) = parse_at(data, pos, depth + 1, max_depth) {
            lemma_parse_progress(data, middle, depth + 1, max_depth);
            if let Ok((v, next)) = parse_at(data, middle, depth + 1, max_depth) {
                lemma_entries_progress(data, next, acc.push((key, v)), depth, max_depth);
            }
        }
    }
}

/// The parser's answer agrees with the model's.
pub open spec fn agrees(r: Result<Bencode, Error>, cursor: int, expected: Outcome<Value>) -> bool {
    match (r, expected) {
        (Ok(b), Ok((v, end))) => b@ == v && cursor == end,
        (Err(e), Err((f, end))) => e@ == f && cursor == end,
        _ => false,
    }
}

/// A zero-copy parser of bencoded data.
///
/// It rejects data that is nested deeper than its maximum depth.
#[derive(Debug)]
pub struct Parser<'a> {
    /// The data.
    data: &'a [u8],
    /// The position of the next byte.
    cursor: usize,
    /// The maximum nesting depth.
    max_depth: usize,
}

impl<'a> Parser<'a> {
    #[verifier::type_invariant]
    spec fn inv(self) -> bool {
        self.cursor <= self.data@.len() <= usize::MAX
    }

    /// The data that this parser reads.
    pub closed spec fn data(&self) -> Seq<u8> {
        self.data@
    }

    /// The position of the next byte.
    pub closed spec fn position(&self) -> int {
        self.cursor as int
    }

    /// The maximum nesting depth.
    pub closed spec fn depth_limit(&self) -> int {
        self.max_depth as int
    }

    /// A parser with the maximum nesting depth of 64.
    pub fn new(data: &'a [u8]) -> (r: Self)
        ensures
            r.data() == data@,
            r.position() == 0,
            r.depth_limit() == 64,
    {
        Parser::with_max_depth(data, 64)
    }

    /// A parser with the given maximum nesting depth.
    pub fn with_max_depth(data: &'a [u8], max_depth: usize) -> (r: Self)
        ensures
            r.data() == data@,
            r.position() == 0,
            r.depth_limit() == max_depth,
    {
        assert(data@.len() == data.len());
        Parser { data, cursor: 0, max_depth }
    }

    /// Parses the next element.
    ///
    /// # Errors
    ///
    /// - [`Error::UnexpectedByte`] for a byte that cannot start an element.
    /// - [`Error::UnexpectedEof`] if the data ends too early.
    /// - [`Error::DepthLimitExceeded`] if the data is nested too deeply.
    /// - [`Error::InvalidUtf8`] and [`Error::InvalidInteger`] for a numeral that cannot be read.
    /// - [`Error::InvalidBencodeInteger`] for a leading zero (`i01e`) or a negative zero (`i-0e`).
    /// - [`Error::NonStringKey`] for a dictionary key that is not a byte string.
    /// - [`Error::UnsortedDictKeys`] for dictionary keys that do not rise.
    pub fn parse(&mut self) -> (r: Result<Bencode<'a>, Error>)
        ensures
            agrees(
                r,
                final(self).position(),
                parse_at(old(self).data(), old(self).position(), 1, old(self).depth_limit()),
            ),
            final(self).data() == old(self).data(),
            final(self).depth_limit() == old(self).depth_limit(),
    {
        proof {
            use_type_invariant(&*self);
        }
        self.parse_internal(1)
    }

    /// The next byte.
    fn peek(&self) -> (r: Result<u8, Error>)
        ensures
            match r {
                Ok(b) => self.cursor < self.data@.len() && b == self.data@[self.cursor as int],
                Err(e) => self.cursor == self.data@.len() && e@ == Failure::UnexpectedEof,
            },
    {
        proof {
            use_type_invariant(self);
        }
        if self.cursor < self.data.len() {
            Ok(self.data[self.cursor])
        } else {
            Err(Error::UnexpectedEof)
        }
    }

    /// The next `len` bytes.
    fn peek_slice(&self, len: usize) -> (r: Result<&'a [u8], Error>)
        ensures
            match r {
                Ok(s) => len <= self.data@.len() - self.cursor && s@ == self.data@.subrange(
                    self.cursor as int,
                    self.cursor + len,
                ),
                Err(e) => len > self.data@.len() - self.cursor && e@ == Failure::UnexpectedEof,
            },
    {
        proof {
            use_type_invariant(self);
        }
        if len <= self.data.len() - self.cursor {
            let data: &'a [u8] = self.data;
            Ok(vstd::slice::slice_subrange(data, self.cursor, self.cursor + len))
        } else {
            Err(Error::UnexpectedEof)
        }
    }

    /// Parses the next element, which is nested `depth` levels deep. The levels that the rest of
    /// the data can add must be countable.
    fn parse_internal(&mut self, depth: usize) -> (r: Result<Bencode<'a>, Error>)
        requires
            depth + (old(self).data@.len() - old(self).cursor) <= usize::MAX + 1,
        ensures
            agrees(
                r,
                final(self).cursor as int,
                parse_at(
                    old(self).data@,
                    old(self).cursor as int,
                    depth as int,
                    old(self).max_depth as int,
                ),
            ),
            final(self).data == old(self).data,
            final(self).max_depth == old(self).max_depth,
        decreases old(self).data@.len() - old(self).cursor, 1int,
    {
        proof {
            use_type_invariant(&*self);
        }
        if depth > self.max_depth {
            return Err(Error::DepthLimitExceeded);
        }
        let b: u8 = match self.peek() {
            Ok(b) => b,
            Err(e) => return Err(e),
        };
        if b == 105 {
            self.parse_integer()
        } else if b == 108 {
            self.parse_list(depth)
        } else if b == 100 {
            self.parse_dict(depth)
        } else if 48 <= b && b <= 57 {
            self.parse_bytes()
        } else {
            Err(Error::UnexpectedByte(self.cursor, b))
        }
    }

    /// Parses the integer at the current position.
    fn parse_integer(&mut self) -> (r: Result<Bencode<'a>, Error>)
        requires
            old(self).cursor < old(self).data@.len(),
        ensures
            agrees(r, final(self).cursor as int, integer_at(old(self).data@, old(self).cursor + 1)),
            final(self).data == old(self).data,
            final(self).max_depth == old(self).max_depth,
    {
        proof {
            use_type_invariant(&*self);
        }
        self.cursor = self.cursor + 1;
        let data: &'a [u8] = self.data;
        let end: usize = match find_byte(data, self.cursor, 101) {
            Some(end) => end,
            None => return Err(Error::UnexpectedEof),
        };
        let numeral: &'a [u8] = vstd::slice::slice_subrange(data, self.cursor, end);
        let s: &'a str = match from_utf8(numeral) {
            Ok(s) => s,
            Err(e) => return Err(Error::InvalidUtf8(e)),
        };
        if numeral.len() >= 2 && ((numeral[0] == 45 && numeral[1] == 48) || numeral[0] == 48) {
            proof {
                encode_utf8_decode_utf8(s@);
            }
            return Err(Error::InvalidBencodeInteger(s.to_owned()));
        }
        match parse_i64(numeral) {
            Ok(i) => {
                self.cursor = end + 1;
                Ok(Bencode::Int(i))
            },
            Err(k) => Err(Error::InvalidInteger(k)),
        }
    }

    /// Parses the byte string at the current position.
    fn parse_bytes(&mut self) -> (r: Result<Bencode<'a>, Error>)
        ensures
            agrees(r, final(self).cursor as int, bytes_at(old(self).data@, old(self).cursor as int)),
            final(self).data == old(self).data,
            final(self).max_depth == old(self).max_depth,
    {
        proof {
            use_type_invariant(&*self);
        }
        let data: &'a [u8] = self.data;
        let colon: usize = match find_byte(data, self.cursor, 58) {
            Some(colon) => colon,
            None => return Err(Error::UnexpectedEof),
        };
        let numeral: &'a [u8] = vstd::slice::slice_subrange(data, self.cursor, colon);
        let s: &'a str = match from_utf8(numeral) {
            Ok(s) => s,
            Err(e) => return Err(Error::InvalidUtf8(e)),
        };
        if numeral.len() >= 2 && numeral[0] == 48 {
            proof {
                encode_utf8_decode_utf8(s@);
            }
            return Err(Error::InvalidBencodeInteger(s.to_owned()));
        }
        let len: usize = match parse_usize(numeral) {
            Ok(len) => len,
            Err(k) => return Err(Error::InvalidInteger(k)),
        };
        self.cursor = colon + 1;
        match self.peek_slice(len) {
            Ok(bytes) => {
                self.cursor = self.cursor + len;
                Ok(Bencode::Bytes(bytes))
            },
            Err(e) => Err(e),
        }
    }

    /// Parses the list at the current position, which is nested `depth` levels deep.
    fn parse_list(&mut self, depth: usize) -> (r: Result<Bencode<'a>, Error>)
        requires
            depth + (old(self).data@.len() - old(self).cursor) <= usize::MAX + 1,
            depth <= old(self).max_depth,
            old(self).cursor < old(self).data@.len(),
            old(self).data@[old(self).cursor as int] == 108,
        ensures
            agrees(
                r,
                final(self).cursor as int,
                parse_at(
                    old(self).data@,
                    old(self).cursor as int,
                    depth as int,
                    old(self).max_depth as int,
                ),
            ),
            final(self).data == old(self).data,
            final(self).max_depth == old(self).max_depth,
        decreases old(self).data@.len() - old(self).cursor, 0int,
    {
        proof {
            use_type_invariant(&*self);
        }
        let ghost data = self.data@;
        let ghost max = self.max_depth as int;
        let ghost start = self.cursor as int;
        self.cursor = self.cursor + 1;
        let mut list: Vec<Bencode<'a>> = Vec::new();
        assert(values_of(list@) =~= Seq::<Value>::empty());
        loop
            invariant
                self.data@ == data,
                self.data == old(self).data,
                self.max_depth == old(self).max_depth,
                self.max_depth == max,
                start == old(self).cursor,
                start < self.cursor,
                depth + (data.len() - start) <= usize::MAX + 1,
                items_at(data, start + 1, Seq::empty(), depth as int, max) == items_at(
                    data,
                    self.cursor as int,
                    values_of(list@),
                    depth as int,
                    max,
                ),
                parse_at(data, start, depth as int, max) == match items_at(
                    data,
                    start + 1,
                    Seq::empty(),
                    depth as int,
                    max,
                ) {
                    Ok((items, end)) => Ok::<_, (Failure, int)>((Value::List(items), end)),
                    Err(e) => Err(e),
                },
            decreases data.len() - self.cursor,
        {
            proof {
                use_type_invariant(&*self);
            }
            let b: u8 = match self.peek() {
                Ok(b) => b,
                Err(e) => return Err(e),
            };
            if b == 101 {
                self.cursor = self.cursor + 1;
                proof {
                    lemma_list_value(list);
                }
                return Ok(Bencode::List(list));
            }
            proof {
                lemma_parse_progress(data, self.cursor as int, depth + 1, max);
            }
            let item: Bencode<'a> = match self.parse_internal(depth + 1) {
                Ok(item) => item,
                Err(e) => return Err(e),
            };
            let ghost before = values_of(list@);
            list.push(item);
            assert(values_of(list@) =~= before.push(item@));
        }
    }

    /// Parses the dictionary at the current position, which is nested `depth` levels deep.
    fn parse_dict(&mut self, depth: usize) -> (r: Result<Bencode<'a>, Error>)
        requires
            depth + (old(self).data@.len() - old(self).cursor) <= usize::MAX + 1,
            depth <= old(self).max_depth,
            old(self).cursor < old(self).data@.len(),
            old(self).data@[old(self).cursor as int] == 100,
        ensures
            agrees(
                r,
                final(self).cursor as int,
                parse_at(
                    old(self).data@,
                    old(self).cursor as int,
                    depth as int,
                    old(self).max_depth as int,
                ),
            ),
            final(self).data == old(self).data,
            final(self).max_depth == old(self).max_depth,
        decreases old(self).data@.len() - old(self).cursor, 0int,
    {
        proof {
            use_type_invariant(&*self);
        }
        let ghost data = self.data@;
        let ghost max = self.max_depth as int;
        let ghost start = self.cursor as int;
        self.cursor = self.cursor + 1;
        let mut map: SortedMap<&'a [u8], Bencode<'a>> = SortedMap::new();
        let mut last_key: Option<&'a [u8]> = None;
        assert(entries_of(map@) =~= Seq::<(Seq<u8>, Value)>::empty());
        loop
            invariant
                self.data@ == data,
                self.data == old(self).data,
                self.max_depth == old(self).max_depth,
                self.max_depth == max,
                start == old(self).cursor,
                start < self.cursor,
                depth + (data.len() - start) <= usize::MAX + 1,
                rises(map@),
                last_key is None <==> map@.len() == 0,
                last_key matches Some(k) ==> k@ == map@.last().0,
                entries_at(data, start + 1, Seq::empty(), depth as int, max) == entries_at(
                    data,
                    self.cursor as int,
                    entries_of(map@),
                    depth as int,
                    max,
                ),
                parse_at(data, start, depth as int, max) == match entries_at(
                    data,
                    start + 1,
                    Seq::empty(),
                    depth as int,
                    max,
                ) {
                    Ok((entries, end)) => Ok::<_, (Failure, int)>((Value::Dict(entries), end)),
                    Err(e) => Err(e),
                },
            decreases data.len() - self.cursor,
        {
            proof {
                use_type_invariant(&*self);
            }
            let ghost acc = entries_of(map@);
            let b: u8 = match self.peek() {
                Ok(b) => b,
                Err(e) => return Err(e),
            };
            if b == 101 {
                self.cursor = self.cursor + 1;
                proof {
                    lemma_dict_value(map);
                }
                return Ok(Bencode::Dict(map));
            }
            proof {
                lemma_parse_progress(data, self.cursor as int, depth + 1, max);
            }
            let key: &'a [u8] = match self.parse_internal(depth + 1) {
                Ok(Bencode::Bytes(key)) => key,
                Ok(_) => return Err(Error::NonStringKey),
                Err(e) => return Err(e),
            };
            if let Some(prev) = last_key {
                if !bytes_lt(prev, key) {
                    return Err(Error::UnsortedDictKeys);
                }
            }
            last_key = Some(key);
            proof {
                lemma_parse_progress(data, self.cursor as int, depth + 1, max);
            }
            let value: Bencode<'a> = match self.parse_internal(depth + 1) {
                Ok(value) => value,
                Err(e) => return Err(e),
            };
            let ghost before = map@;
            map.insert(key, value);
            proof {
                lemma_with_entry_last(before, key@, value);
                assert(entries_of(map@) =~= acc.push((key@, value@)));
            }
        }
    }
}

/// The first position from `from` on that holds `b`.
fn find_byte(data: &[u8], from: usize, b: u8) -> (r: Option<usize>)
    requires
        from <= data@.len(),
    ensures
        match r {
            Some(i) => is_first(data@, from as int, b, i as int) && first(data@, from as int, b)
                == Some(i as int),
            None => first(data@, from as int, b) is None,
        },
{
    let mut i: usize = from;
    while i < data.len()
        invariant
            from <= i <= data@.len(),
            forall|k: int| from <= k < i ==> data@[k] != b,
        decreases data@.len() - i,
    {
        if data[i] == b {
            proof {
                assert(is_first(data@, from as int, b, i as int));
                let j = first(data@, from as int, b)->0;
                assert(is_first(data@, from as int, b, j));
                assert(i as int == j);
            }
            return Some(i);
        }
        i = i + 1;
    }
    None
}

} // verus!
