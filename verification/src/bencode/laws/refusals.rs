//! What the parsers refuse, and where they differ.
use vstd::prelude::*;
use vstd::utf8::decode_utf8;

use crate::bencode::element::Bencode;
use crate::bencode::error::{Error, Failure};
use crate::bencode::laws::notation::{
    all_digits, digits_value, law_numerals, law_numerals_are_read,
};
use crate::bencode::laws::{
    law_encoded_reads_back_anywhere, lemma_ascii_is_utf8, lemma_nesting_positive, stands_at,
};
use crate::bencode::model::{encode, nesting, valid, Value};
use crate::bencode::parser::{agrees, entries_at, first, is_first, parse_at, Outcome};
use crate::decimal::{decimal, decimal_int, is_digit, lemma_decimal_shape};
use crate::lex::{lemma_lex_asymmetric, lemma_lex_irreflexive, lemma_lex_total, lex_lt};
use crate::parse::{
    law_lenient_reads_what_strict_reads, lenient_at, lenient_entries_at, BencodeError,
    BencodeValue,
};
use crate::sorted_map::{lemma_slot, lemma_with_entry, rises, with_entry};

verus! {

/// The parsers answer what the model says, and stand where it does then.
pub proof fn law_answers_are_those_of_the_model(
    strict: Result<Bencode<'_>, Error>,
    lenient: Result<BencodeValue<'_>, BencodeError>,
    cursor: int,
    model: Outcome<Value>,
)
    ensures
        agrees(strict, cursor, model) <==> match strict {
            Ok(b) => model == Ok::<(Value, int), (Failure, int)>((b@, cursor)),
            Err(e) => model == Err::<(Value, int), (Failure, int)>((e@, cursor)),
        },
        crate::parse::agrees(lenient, cursor, model) <==> match lenient {
            Ok(b) => model == Ok::<(Value, int), (Failure, int)>((b@, cursor)),
            Err(e) => model == Err::<(Value, int), (Failure, int)>((e@, cursor)),
        },
{
}

/// Both parsers refuse a byte string that is cut off, and an integer without an end.
pub proof fn law_cut_off_data_is_refused(s: Seq<u8>, n: nat, i: int, max_depth: int)
    requires
        s.len() < n <= usize::MAX,
        max_depth >= 1,
    ensures
        ({
            let head = decimal(n) + seq![58u8];
            let r = Err::<(Value, int), (Failure, int)>(
                (Failure::UnexpectedEof, head.len() as int),
            );
            parse_at(head + s, 0, 1, max_depth) == r && lenient_at(head + s, 0) == r
        }),
        ({
            let data = seq![105u8] + decimal_int(i);
            let r = Err::<(Value, int), (Failure, int)>((Failure::UnexpectedEof, 1));
            parse_at(data, 0, 1, max_depth) == r && lenient_at(data, 0) == r
        }),
{
    let d = decimal(n);
    let head = d + seq![58u8];
    let data = head + s;
    let colon = d.len() as int;
    law_numerals(n);
    assert(data[colon] == 58);
    assert forall|k: int| 0 <= k < colon implies data[k] != 58 by {
        assert(data[k] == d[k]);
    }
    assert(is_first(data, 0, 58, colon));
    lemma_where_first(data, 0, 58, colon);
    assert(data.subrange(0, colon) =~= d);
    assert forall|k: int| 0 <= k < d.len() implies #[trigger] d[k] <= 0x7f by {
        assert(48 <= d[k] <= 57);
    }
    lemma_ascii_is_utf8(d);
    law_numerals_are_read(d, 0, usize::MAX as int);
    assert(data[0] == d[0]);
    let text = seq![105u8] + decimal_int(i);
    if i < 0 {
        law_numerals((-i) as nat);
    } else {
        law_numerals(i as nat);
    }
    assert forall|k: int| !is_first(text, 1, 101, k) by {
        if 1 <= k < text.len() {
            assert(text[k] == decimal_int(i)[k - 1]);
            if i < 0 && k > 1 {
                assert(text[k] == decimal((-i) as nat)[k - 2]);
            }
        }
    }
    assert(first(text, 1, 101) is None);
}

/// A byte at which a value can start: `i`, `l`, `d` or a digit.
pub open spec fn starts_a_value(b: u8) -> bool {
    b == 105 || b == 108 || b == 100 || 48 <= b <= 57
}

/// Where no value starts, both parsers say so, and so they do at the end of the data. The strict
/// one does not even look where the nesting is too deep.
pub proof fn law_no_value(data: Seq<u8>, pos: int, depth: int, max_depth: int)
    requires
        0 <= pos,
    ensures
        depth > max_depth ==> parse_at(data, pos, depth, max_depth) == Err::<
            (Value, int),
            (Failure, int),
        >((Failure::DepthLimitExceeded, pos)),
        pos >= data.len() && depth <= max_depth ==> parse_at(data, pos, depth, max_depth) == Err::<
            (Value, int),
            (Failure, int),
        >((Failure::UnexpectedEof, pos)),
        pos >= data.len() ==> lenient_at(data, pos) == Err::<(Value, int), (Failure, int)>(
            (Failure::UnexpectedEof, pos),
        ),
        pos < data.len() && !starts_a_value(data[pos]) && depth <= max_depth ==> parse_at(
            data,
            pos,
            depth,
            max_depth,
        ) == Err::<(Value, int), (Failure, int)>((Failure::UnexpectedByte(pos, data[pos]), pos)),
        pos < data.len() && !starts_a_value(data[pos]) ==> lenient_at(data, pos) == Err::<
            (Value, int),
            (Failure, int),
        >((Failure::UnexpectedByte(pos, data[pos]), pos)),
{
}

proof fn lemma_where_first(data: Seq<u8>, from: int, b: u8, i: int)
    requires
        is_first(data, from, b, i),
    ensures
        first(data, from, b) == Some(i),
{
    let j = first(data, from, b)->0;
    assert(is_first(data, from, b, j));
    assert(i == j);
}

/// An integer with a leading zero, or a negative zero, is refused by both parsers.
pub proof fn law_leading_zeros_are_refused(digits: Seq<u8>, rest: Seq<u8>, max_depth: int)
    requires
        digits.len() > 0,
        all_digits(digits),
        max_depth >= 1,
    ensures
        ({
            let numeral = seq![48u8] + digits;
            let data = seq![105u8] + numeral + seq![101u8] + rest;
            let r = Err::<(Value, int), (Failure, int)>(
                (Failure::InvalidBencodeInteger(decode_utf8(numeral)), 1),
            );
            parse_at(data, 0, 1, max_depth) == r && lenient_at(data, 0) == r
        }),
        ({
            let numeral = seq![45u8, 48u8] + digits;
            let data = seq![105u8] + numeral + seq![101u8] + rest;
            let r = Err::<(Value, int), (Failure, int)>(
                (Failure::InvalidBencodeInteger(decode_utf8(numeral)), 1),
            );
            parse_at(data, 0, 1, max_depth) == r && lenient_at(data, 0) == r
        }),
        ({
            let data = seq![105u8, 45u8, 48u8, 101u8] + rest;
            let r = Err::<(Value, int), (Failure, int)>(
                (Failure::InvalidBencodeInteger(decode_utf8(seq![45u8, 48u8])), 1),
            );
            parse_at(data, 0, 1, max_depth) == r && lenient_at(data, 0) == r
        }),
{
    lemma_refused(seq![48u8] + digits, rest, max_depth);
    lemma_refused(seq![45u8, 48u8] + digits, rest, max_depth);
    lemma_refused(seq![45u8, 48u8], rest, max_depth);
    assert(seq![105u8] + seq![45u8, 48u8] + seq![101u8] + rest =~= seq![105u8, 45u8, 48u8, 101u8]
        + rest);
}

proof fn lemma_refused(numeral: Seq<u8>, rest: Seq<u8>, max_depth: int)
    requires
        numeral.len() >= 2,
        numeral[0] == 48 || (numeral[0] == 45 && numeral[1] == 48),
        forall|i: int| 0 <= i < numeral.len() ==> 45 <= #[trigger] numeral[i] <= 57,
        max_depth >= 1,
    ensures
        ({
            let data = seq![105u8] + numeral + seq![101u8] + rest;
            let r = Err::<(Value, int), (Failure, int)>(
                (Failure::InvalidBencodeInteger(decode_utf8(numeral)), 1),
            );
            parse_at(data, 0, 1, max_depth) == r && lenient_at(data, 0) == r
        }),
{
    let data = seq![105u8] + numeral + seq![101u8] + rest;
    let end = 1 + numeral.len() as int;
    assert(data[end] == 101);
    assert forall|k: int| 1 <= k < end implies data[k] != 101 by {
        assert(data[k] == numeral[k - 1]);
    }
    assert(is_first(data, 1, 101, end));
    lemma_where_first(data, 1, 101, end);
    assert(data.subrange(1, end) =~= numeral);
    lemma_ascii_is_utf8(numeral);
}

proof fn lemma_stands(a: Seq<u8>, b: Seq<u8>, c: Seq<u8>)
    ensures
        stands_at(a + b + c, a.len() as int, b),
{
    assert((a + b + c).subrange(a.len() as int, (a.len() + b.len()) as int) =~= b);
}

/// The data of a dictionary with two entries, the second of which is cut off behind its key.
pub open spec fn two_keys(a: Seq<u8>, v: Value, b: Seq<u8>) -> Seq<u8> {
    seq![100u8] + encode(Value::Bytes(a)) + encode(v) + encode(Value::Bytes(b))
}

/// A value between other bytes is read by both parsers.
proof fn lemma_reads(before: Seq<u8>, v: Value, after: Seq<u8>, depth: int, max_depth: int)
    requires
        valid(v),
        depth - 1 + nesting(v) <= max_depth,
    ensures
        ({
            let data = before + encode(v) + after;
            let pos = before.len() as int;
            let r = Ok::<(Value, int), (Failure, int)>((v, pos + encode(v).len()));
            &&& parse_at(data, pos, depth, max_depth) == r
            &&& lenient_at(data, pos) == r
            &&& data[pos] != 101
            &&& encode(v).len() > 0
            &&& pos + encode(v).len() <= data.len()
        }),
{
    let data = before + encode(v) + after;
    let pos = before.len() as int;
    lemma_stands(before, encode(v), after);
    lemma_starts(v);
    law_encoded_reads_back_anywhere(data, pos, v, depth, max_depth);
    law_lenient_reads_what_strict_reads(data, pos, depth, max_depth);
    assert(data[pos] == encode(v)[0]);
}

proof fn lemma_entry_step(
    data: Seq<u8>,
    pos: int,
    acc: Seq<(Seq<u8>, Value)>,
    key: Seq<u8>,
    middle: int,
    v: Value,
    next: int,
)
    requires
        0 <= pos < middle < next <= data.len(),
        data[pos] != 101,
        lenient_at(data, pos) == Ok::<(Value, int), (Failure, int)>((Value::Bytes(key), middle)),
        lenient_at(data, middle) == Ok::<(Value, int), (Failure, int)>((v, next)),
    ensures
        lenient_entries_at(data, pos, acc) == lenient_entries_at(
            data,
            next,
            with_entry(acc, key, v),
        ),
{
}

/// The strict parser refuses a dictionary in which a key does not come behind the one before it, as
/// soon as it has read this key.
pub proof fn law_unsorted_keys_are_refused(
    a: Seq<u8>,
    v: Value,
    b: Seq<u8>,
    rest: Seq<u8>,
    max_depth: int,
)
    requires
        valid(Value::Bytes(a)),
        valid(Value::Bytes(b)),
        valid(v),
        nesting(v) < max_depth,
        max_depth >= 2,
    ensures
        !lex_lt(a, b) ==> parse_at(two_keys(a, v, b) + rest, 0, 1, max_depth) == Err::<
            (Value, int),
            (Failure, int),
        >((Failure::UnsortedDictKeys, two_keys(a, v, b).len() as int)),
{
    let ka = encode(Value::Bytes(a));
    let ev = encode(v);
    let kb = encode(Value::Bytes(b));
    let data = two_keys(a, v, b) + rest;
    let one = seq![100u8];
    let p1 = 1 + ka.len() as int;
    let p2 = p1 + ev.len() as int;
    let p3 = p2 + kb.len() as int;
    lemma_reads(one, Value::Bytes(a), ev + kb + rest, 2, max_depth);
    assert(data =~= one + ka + (ev + kb + rest));
    lemma_reads(one + ka, v, kb + rest, 2, max_depth);
    assert(data =~= (one + ka) + ev + (kb + rest));
    lemma_reads(one + ka + ev, Value::Bytes(b), rest, 2, max_depth);
    assert(data =~= (one + ka + ev) + kb + rest);
    if !lex_lt(a, b) {
        let none = Seq::<(Seq<u8>, Value)>::empty();
        let acc = none.push((a, v));
        assert(acc.last() == (a, v));
        let r = Err::<(Seq<(Seq<u8>, Value)>, int), (Failure, int)>(
            (Failure::UnsortedDictKeys, p3),
        );
        assert(entries_at(data, p2, acc, 1, max_depth) == r);
        assert(entries_at(data, 1, none, 1, max_depth) == r);
        assert(data[0] == 100);
    }
}

proof fn lemma_starts(v: Value)
    requires
        valid(v),
    ensures
        encode(v).len() > 0,
        encode(v)[0] != 101,
{
    lemma_nesting_positive(v);
    match v {
        Value::Bytes(s) => {
            lemma_decimal_shape(s.len());
            assert(is_digit(decimal(s.len())[0]));
        },
        _ => {},
    }
}

/// Both parsers refuse a dictionary whose key is not a byte string.
pub proof fn law_other_keys_are_refused(v: Value, rest: Seq<u8>, max_depth: int)
    requires
        valid(v),
        !(v is Bytes),
        nesting(v) < max_depth,
        max_depth >= 2,
    ensures
        ({
            let data = seq![100u8] + encode(v) + rest;
            let r = Err::<(Value, int), (Failure, int)>(
                (Failure::NonStringKey, 1int + encode(v).len()),
            );
            parse_at(data, 0, 1, max_depth) == r && lenient_at(data, 0) == r
        }),
{
    let data = seq![100u8] + encode(v) + rest;
    lemma_stands(seq![100u8], encode(v), rest);
    lemma_starts(v);
    law_encoded_reads_back_anywhere(data, 1, v, 2, max_depth);
    law_lenient_reads_what_strict_reads(data, 1, 2, max_depth);
    assert(data[1] == encode(v)[0]);
    reveal_with_fuel(entries_at, 2);
    reveal_with_fuel(lenient_entries_at, 2);
}

/// The lenient parser takes the keys of a dictionary in any order and sorts them. Of two values
/// under one key it keeps the second.
#[verifier::spinoff_prover]
#[verifier::rlimit(40)]
pub proof fn law_lenient_sorts_the_keys(
    a: Seq<u8>,
    v: Value,
    b: Seq<u8>,
    w: Value,
    rest: Seq<u8>,
)
    requires
        valid(Value::Bytes(a)),
        valid(Value::Bytes(b)),
        valid(v),
        valid(w),
    ensures
        ({
            let data = two_keys(a, v, b) + encode(w) + seq![101u8] + rest;
            lenient_at(data, 0) matches Ok((d, end)) && {
                &&& end == data.len() - rest.len()
                &&& d is Dict
                &&& rises(d->Dict_0)
                &&& a == b ==> d->Dict_0 == seq![(b, w)]
                &&& lex_lt(a, b) ==> d->Dict_0 == seq![(a, v), (b, w)]
                &&& lex_lt(b, a) ==> d->Dict_0 == seq![(b, w), (a, v)]
            }
        }),
{
    let max = nesting(v) + nesting(w) + 5;
    lemma_nesting_positive(v);
    lemma_nesting_positive(w);
    let data = two_keys(a, v, b) + encode(w) + seq![101u8] + rest;
    lemma_dictionary_reads(a, v, b, w, rest, max);
    let p1 = 1 + encode(Value::Bytes(a)).len() as int;
    let p2 = p1 + encode(v).len() as int;
    let p3 = p2 + encode(Value::Bytes(b)).len() as int;
    lemma_two_entries(data, a, p1, v, p2, b, p3, w, p3 + encode(w).len());
}

proof fn lemma_dictionary_reads(
    a: Seq<u8>,
    v: Value,
    b: Seq<u8>,
    w: Value,
    rest: Seq<u8>,
    max: int,
)
    requires
        valid(Value::Bytes(a)),
        valid(Value::Bytes(b)),
        valid(v),
        valid(w),
        nesting(v) + 1 <= max,
        nesting(w) + 1 <= max,
        2 <= max,
    ensures
        ({
            let data = two_keys(a, v, b) + encode(w) + seq![101u8] + rest;
            let p1 = 1 + encode(Value::Bytes(a)).len() as int;
            let p2 = p1 + encode(v).len() as int;
            let p3 = p2 + encode(Value::Bytes(b)).len() as int;
            let p4 = p3 + encode(w).len() as int;
            &&& 1 < p1 < p2 < p3 < p4 < data.len()
            &&& two_keys(a, v, b).len() == p3
            &&& data[0] == 100
            &&& data[1] != 101
            &&& data[p2] != 101
            &&& data[p4] == 101
            &&& lenient_at(data, 1) == Ok::<(Value, int), (Failure, int)>((Value::Bytes(a), p1))
            &&& lenient_at(data, p1) == Ok::<(Value, int), (Failure, int)>((v, p2))
            &&& lenient_at(data, p2) == Ok::<(Value, int), (Failure, int)>((Value::Bytes(b), p3))
            &&& lenient_at(data, p3) == Ok::<(Value, int), (Failure, int)>((w, p4))
        }),
{
    let ka = encode(Value::Bytes(a));
    let ev = encode(v);
    let kb = encode(Value::Bytes(b));
    let ew = encode(w);
    let one = seq![100u8];
    let end = seq![101u8] + rest;
    lemma_groups(one, ka, ev, kb, ew, seq![101u8], rest);
    lemma_reads(one, Value::Bytes(a), ev + kb + ew + end, 2, max);
    lemma_reads(one + ka, v, kb + ew + end, 2, max);
    lemma_reads(one + ka + ev, Value::Bytes(b), ew + end, 2, max);
    lemma_reads(one + ka + ev + kb, w, end, 2, max);
}

proof fn lemma_groups(
    a: Seq<u8>,
    b: Seq<u8>,
    c: Seq<u8>,
    d: Seq<u8>,
    e: Seq<u8>,
    f: Seq<u8>,
    g: Seq<u8>,
)
    requires
        a.len() == 1,
        f.len() == 1,
    ensures
        ({
            let data = a + b + c + d + e + f + g;
            &&& data == a + b + (c + d + e + (f + g))
            &&& data == (a + b) + c + (d + e + (f + g))
            &&& data == (a + b + c) + d + (e + (f + g))
            &&& data == (a + b + c + d) + e + (f + g)
            &&& data[0] == a[0]
            &&& data[(a + b + c + d + e).len() as int] == f[0]
        }),
{
    let data = a + b + c + d + e + f + g;
    assert(data =~= a + b + (c + d + e + (f + g)));
    assert(data =~= (a + b) + c + (d + e + (f + g)));
    assert(data =~= (a + b + c) + d + (e + (f + g)));
    assert(data =~= (a + b + c + d) + e + (f + g));
}

proof fn lemma_two_entries(
    data: Seq<u8>,
    a: Seq<u8>,
    p1: int,
    v: Value,
    p2: int,
    b: Seq<u8>,
    p3: int,
    w: Value,
    p4: int,
)
    requires
        1 < p1 < p2 < p3 < p4 < data.len(),
        data[0] == 100,
        data[1] != 101,
        data[p2] != 101,
        data[p4] == 101,
        lenient_at(data, 1) == Ok::<(Value, int), (Failure, int)>((Value::Bytes(a), p1)),
        lenient_at(data, p1) == Ok::<(Value, int), (Failure, int)>((v, p2)),
        lenient_at(data, p2) == Ok::<(Value, int), (Failure, int)>((Value::Bytes(b), p3)),
        lenient_at(data, p3) == Ok::<(Value, int), (Failure, int)>((w, p4)),
    ensures
        lenient_at(data, 0) matches Ok((d, end)) && {
            &&& end == p4 + 1
            &&& d is Dict
            &&& rises(d->Dict_0)
            &&& a == b ==> d->Dict_0 == seq![(b, w)]
            &&& lex_lt(a, b) ==> d->Dict_0 == seq![(a, v), (b, w)]
            &&& lex_lt(b, a) ==> d->Dict_0 == seq![(b, w), (a, v)]
        },
{
    let none = Seq::<(Seq<u8>, Value)>::empty();
    let acc = with_entry(none, a, v);
    lemma_put_one(a, v);
    lemma_put_two(a, v, b, w);
    lemma_entry_step(data, 1, none, a, p1, v, p2);
    lemma_entry_step(data, p2, acc, b, p3, w, p4);
}

proof fn lemma_put_one(a: Seq<u8>, v: Value)
    ensures
        with_entry(Seq::<(Seq<u8>, Value)>::empty(), a, v) == seq![(a, v)],
{
    let none = Seq::<(Seq<u8>, Value)>::empty();
    lemma_slot(none, a, 0);
    assert(with_entry(none, a, v) =~= seq![(a, v)]);
}

proof fn lemma_put_two(a: Seq<u8>, v: Value, b: Seq<u8>, w: Value)
    ensures
        ({
            let t = with_entry(seq![(a, v)], b, w);
            &&& rises(t)
            &&& a == b ==> t == seq![(b, w)]
            &&& lex_lt(a, b) ==> t == seq![(a, v), (b, w)]
            &&& lex_lt(b, a) ==> t == seq![(b, w), (a, v)]
        }),
{
    let s = seq![(a, v)];
    let t = with_entry(s, b, w);
    assert(rises(s));
    lemma_with_entry(s, b, w);
    lemma_lex_irreflexive(a);
    if a == b {
        lemma_slot(s, b, 0);
        assert(t =~= seq![(b, w)]);
    } else if lex_lt(a, b) {
        lemma_lex_asymmetric(a, b);
        lemma_slot(s, b, 1);
        assert(t =~= seq![(a, v), (b, w)]);
    } else {
        lemma_lex_total(a, b);
        lemma_lex_asymmetric(b, a);
        lemma_slot(s, b, 0);
        assert(t =~= seq![(b, w), (a, v)]);
    }
}

proof fn lemma_zero_counts_nothing(s: Seq<u8>)
    ensures
        digits_value(seq![48u8] + s) == digits_value(s),
    decreases s.len(),
{
    reveal_with_fuel(digits_value, 2);
    let t = seq![48u8] + s;
    if s.len() == 0 {
        assert(t.drop_last() =~= Seq::<u8>::empty());
    } else {
        lemma_zero_counts_nothing(s.drop_last());
        assert(t.drop_last() =~= seq![48u8] + s.drop_last());
    }
}

/// The length of a byte string may have a leading zero for the lenient parser, but not for the
/// strict one.
pub proof fn law_only_lenient_takes_padded_lengths(s: Seq<u8>, rest: Seq<u8>, max_depth: int)
    requires
        valid(Value::Bytes(s)),
        max_depth >= 1,
    ensures
        ({
            let text = seq![48u8] + encode(Value::Bytes(s));
            &&& lenient_at(text + rest, 0) == Ok::<(Value, int), (Failure, int)>(
                (Value::Bytes(s), text.len() as int),
            )
            &&& parse_at(text + rest, 0, 1, max_depth) == Err::<(Value, int), (Failure, int)>(
                (Failure::InvalidBencodeInteger(decode_utf8(seq![48u8] + decimal(s.len()))), 0),
            )
        }),
{
    let d = decimal(s.len());
    let numeral = seq![48u8] + d;
    let text = seq![48u8] + encode(Value::Bytes(s));
    let data = text + rest;
    let colon = numeral.len() as int;
    law_numerals(s.len());
    assert(data =~= numeral + seq![58u8] + s + rest);
    assert(data[colon] == 58);
    assert forall|k: int| 0 <= k < numeral.len() implies 48 <= #[trigger] numeral[k] <= 57 by {
        if k > 0 {
            assert(numeral[k] == d[k - 1]);
        }
    }
    assert forall|k: int| 0 <= k < colon implies data[k] != 58 by {
        assert(data[k] == numeral[k]);
    }
    assert(is_first(data, 0, 58, colon));
    lemma_where_first(data, 0, 58, colon);
    assert(data.subrange(0, colon) =~= numeral);
    lemma_ascii_is_utf8(numeral);
    lemma_zero_counts_nothing(d);
    law_numerals_are_read(numeral, 0, usize::MAX as int);
    assert(data.subrange(colon + 1, colon + 1 + s.len()) =~= s);
    assert(data[0] == 48);
}

} // verus!
