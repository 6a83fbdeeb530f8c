//! What parsing and encoding have to do with each other.
use vstd::prelude::*;
use vstd::utf8::{pop_first_scalar, valid_utf8};

use crate::bencode::error::Failure;
use crate::bencode::model::{
    encode, encode_bytes, encode_entries, encode_int, encode_items, entries_nesting, items_nesting,
    nesting, valid, Value,
};
use crate::bencode::parser::{
    bad_numeral, bytes_at, entries_at, first, integer_at, is_first, items_at, lemma_parse_progress,
    parse_at,
};
use crate::decimal::{
    decimal, decimal_int, is_digit, lemma_decimal_shape, lemma_read_decimal_int,
    lemma_read_is_decimal, lemma_read_range, read_int,
};
use crate::lex::{lemma_lex_transitive, lex_lt};
use crate::sorted_map::rises;

pub mod notation;
pub mod refusals;

verus! {

/// ASCII bytes are valid UTF-8.
pub proof fn lemma_ascii_is_utf8(s: Seq<u8>)
    requires
        forall|i: int| 0 <= i < s.len() ==> #[trigger] s[i] <= 0x7f,
    ensures
        valid_utf8(s),
    decreases s.len(),
{
    if s.len() > 0 {
        let b = s[0];
        assert(b <= 0x7f);
        assert((b & 0x7f) as u32 <= 0x7f) by (bit_vector);
        let t = pop_first_scalar(s);
        assert(t =~= s.skip(1));
        assert forall|i: int| 0 <= i < t.len() implies #[trigger] t[i] <= 0x7f by {
            assert(t[i] == s[i + 1]);
        }
        lemma_ascii_is_utf8(t);
    }
}

proof fn lemma_first(data: Seq<u8>, from: int, b: u8, i: int)
    requires
        is_first(data, from, b, i),
    ensures
        first(data, from, b) == Some(i),
{
    let j = first(data, from, b)->0;
    assert(is_first(data, from, b, j));
    assert(i == j);
}

/// `s` stands in `data` at `pos`.
pub open spec fn stands_at(data: Seq<u8>, pos: int, s: Seq<u8>) -> bool {
    &&& 0 <= pos
    &&& pos + s.len() <= data.len()
    &&& data.subrange(pos, pos + s.len()) == s
}

proof fn lemma_stands_part(data: Seq<u8>, pos: int, s: Seq<u8>, from: int, to: int)
    requires
        stands_at(data, pos, s),
        0 <= from <= to <= s.len(),
    ensures
        stands_at(data, pos + from, s.subrange(from, to)),
        forall|i: int| 0 <= i < s.len() ==> data[pos + i] == #[trigger] s[i],
{
    let whole = data.subrange(pos, pos + s.len());
    assert(data.subrange(pos + from, pos + to) =~= whole.subrange(from, to));
    assert forall|i: int| 0 <= i < s.len() implies data[pos + i] == #[trigger] s[i] by {
        assert(whole[i] == data[pos + i]);
    }
}

proof fn lemma_parse_int(data: Seq<u8>, pos: int, i: int)
    requires
        stands_at(data, pos, encode_int(i)),
        i64::MIN <= i <= i64::MAX,
    ensures
        data[pos] == 105,
        integer_at(data, pos + 1) == Ok::<(Value, int), (Failure, int)>(
            (Value::Int(i), pos + encode_int(i).len()),
        ),
{
    let e = encode_int(i);
    let s = decimal_int(i);
    let n = if i < 0 { (-i) as nat } else { i as nat };
    lemma_decimal_shape(n);
    assert(e[0] == 105);
    assert(e.subrange(1, 1 + s.len() as int) =~= s);
    assert(e[1 + s.len() as int] == 101);
    lemma_stands_part(data, pos, e, 1, 1 + s.len() as int);
    let end = pos + 1 + s.len();
    assert forall|k: int| 0 <= k < s.len() implies is_digit(#[trigger] s[k]) || s[k] == 45 by {
        if i < 0 && k > 0 {
            assert(s[k] == decimal(n)[k - 1]);
        }
    }
    assert(is_first(data, pos + 1, 101, end)) by {
        assert forall|k: int| pos + 1 <= k < end implies data[k] != 101 by {
            assert(data[pos + (k - pos)] == e[k - pos]);
            assert(e[k - pos] == s[k - pos - 1]);
        }
    }
    lemma_first(data, pos + 1, 101, end);
    assert(data.subrange(pos + 1, end) == s);
    lemma_ascii_is_utf8(s);
    assert(!bad_numeral(s)) by {
        if i < 0 {
            assert(s[1] == decimal(n)[0]);
        }
    }
    lemma_read_decimal_int(i, i64::MIN as int, i64::MAX as int);
}

proof fn lemma_parse_bytes(data: Seq<u8>, pos: int, s: Seq<u8>)
    requires
        stands_at(data, pos, encode_bytes(s)),
        s.len() <= usize::MAX,
    ensures
        is_digit(data[pos]),
        bytes_at(data, pos) == Ok::<(Value, int), (Failure, int)>(
            (Value::Bytes(s), pos + encode_bytes(s).len()),
        ),
{
    let e = encode_bytes(s);
    let d = decimal(s.len());
    lemma_decimal_shape(s.len());
    assert(e.subrange(0, d.len() as int) =~= d);
    assert(e[d.len() as int] == 58);
    assert(e.subrange(d.len() as int + 1, e.len() as int) =~= s);
    lemma_stands_part(data, pos, e, 0, d.len() as int);
    lemma_stands_part(data, pos, e, d.len() as int + 1, e.len() as int);
    let colon = pos + d.len();
    assert(e[0] == d[0]);
    assert(data[pos + 0] == e[0]);
    assert(is_first(data, pos, 58, colon)) by {
        assert forall|k: int| pos <= k < colon implies data[k] != 58 by {
            assert(data[pos + (k - pos)] == e[k - pos]);
            assert(e[k - pos] == d[k - pos]);
        }
    }
    lemma_first(data, pos, 58, colon);
    lemma_ascii_is_utf8(d);
    lemma_read_decimal_int(s.len() as int, 0, usize::MAX as int);
}

/// Where the encoded form of one item stands in that of all items.
proof fn lemma_items_split(items: Seq<Value>, k: int)
    requires
        0 <= k < items.len(),
    ensures
        ({
            let a = encode_items(items.take(k)).len() as int;
            let e = encode(items[k]);
            &&& a + e.len() <= encode_items(items).len()
            &&& encode_items(items).subrange(a, a + e.len()) == e
            &&& encode_items(items.take(k + 1)).len() == a + e.len()
        }),
    decreases items.len(),
{
    assert(items.take(k + 1).drop_last() =~= items.take(k));
    if k == items.len() - 1 {
        assert(items.take(k) =~= items.drop_last());
        assert(items.take(k + 1) =~= items);
        let a = encode_items(items.take(k)).len() as int;
        assert(encode_items(items).subrange(a, a + encode(items[k]).len()) =~= encode(items[k]));
    } else {
        let t = items.drop_last();
        lemma_items_split(t, k);
        assert(t.take(k) =~= items.take(k));
        assert(t.take(k + 1) =~= items.take(k + 1));
        let a = encode_items(items.take(k)).len() as int;
        assert(encode_items(items).subrange(a, a + encode(items[k]).len()) =~= encode_items(
            t,
        ).subrange(a, a + encode(items[k]).len()));
    }
}

/// Where the encoded forms of one key and its value stand in that of all entries.
proof fn lemma_entries_split(entries: Seq<(Seq<u8>, Value)>, k: int)
    requires
        0 <= k < entries.len(),
    ensures
        ({
            let a = encode_entries(entries.take(k)).len() as int;
            let e = encode_bytes(entries[k].0) + encode(entries[k].1);
            &&& a + e.len() <= encode_entries(entries).len()
            &&& encode_entries(entries).subrange(a, a + e.len()) == e
            &&& encode_entries(entries.take(k + 1)).len() == a + e.len()
        }),
    decreases entries.len(),
{
    assert(entries.take(k + 1).drop_last() =~= entries.take(k));
    let e = encode_bytes(entries[k].0) + encode(entries[k].1);
    let a = encode_entries(entries.take(k)).len() as int;
    if k == entries.len() - 1 {
        assert(entries.take(k) =~= entries.drop_last());
        assert(entries.take(k + 1) =~= entries);
        assert(encode_entries(entries).subrange(a, a + e.len()) =~= e);
    } else {
        let t = entries.drop_last();
        lemma_entries_split(t, k);
        assert(t.take(k) =~= entries.take(k));
        assert(t.take(k + 1) =~= entries.take(k + 1));
        assert(encode_entries(entries).subrange(a, a + e.len()) =~= encode_entries(t).subrange(
            a,
            a + e.len(),
        ));
    }
}

/// Every value is nested at least one level deep.
pub proof fn lemma_nesting_positive(v: Value)
    ensures
        nesting(v) >= 1,
{
    match v {
        Value::List(items) => {
            lemma_items_nesting_bound(items, items_nesting(items));
        },
        Value::Dict(entries) => {
            lemma_entries_nesting_bound(entries, entries_nesting(entries));
        },
        _ => {},
    }
}

/// The largest nesting is within a bound exactly if each nesting is.
proof fn lemma_items_nesting_bound(items: Seq<Value>, r: int)
    ensures
        items_nesting(items) >= 0,
        r >= 0 ==> (items_nesting(items) <= r <==> forall|i: int|
            0 <= i < items.len() ==> nesting(#[trigger] items[i]) <= r),
    decreases items.len(),
{
    if items.len() > 0 {
        let t = items.drop_last();
        lemma_items_nesting_bound(t, r);
        assert(forall|i: int| 0 <= i < t.len() ==> t[i] == items[i]);
        if forall|i: int| 0 <= i < t.len() ==> nesting(#[trigger] t[i]) <= r {
            assert forall|i: int| 0 <= i < items.len() && nesting(items.last()) <= r implies nesting(
                #[trigger] items[i],
            ) <= r by {
                if i < t.len() {
                    assert(nesting(t[i]) <= r);
                }
            }
        } else {
            let i = choose|i: int| 0 <= i < t.len() && nesting(#[trigger] t[i]) > r;
            assert(nesting(items[i]) > r);
        }
    }
}

proof fn lemma_entries_nesting_bound(entries: Seq<(Seq<u8>, Value)>, r: int)
    ensures
        entries_nesting(entries) >= 0,
        r >= 0 ==> (entries_nesting(entries) <= r <==> forall|i: int|
            0 <= i < entries.len() ==> nesting((#[trigger] entries[i]).1) <= r),
    decreases entries.len(),
{
    if entries.len() > 0 {
        let t = entries.drop_last();
        lemma_entries_nesting_bound(t, r);
        assert(forall|i: int| 0 <= i < t.len() ==> t[i] == entries[i]);
        if forall|i: int| 0 <= i < t.len() ==> nesting((#[trigger] t[i]).1) <= r {
            assert forall|i: int|
                0 <= i < entries.len() && nesting(entries.last().1) <= r implies nesting(
                (#[trigger] entries[i]).1,
            ) <= r by {
                if i < t.len() {
                    assert(nesting(t[i].1) <= r);
                }
            }
        } else {
            let i = choose|i: int| 0 <= i < t.len() && nesting((#[trigger] t[i]).1) > r;
            assert(nesting(entries[i].1) > r);
        }
    }
}

/// What the parser makes of the encoded form of a value: the value, if it is not nested too
/// deeply.
pub open spec fn reads_back(
    data: Seq<u8>,
    pos: int,
    v: Value,
    depth: int,
    max_depth: int,
) -> bool {
    match parse_at(data, pos, depth, max_depth) {
        Ok((w, end)) => w == v && end == pos + encode(v).len() && nesting(v) <= max_depth - depth
            + 1,
        Err((f, _)) => f == Failure::DepthLimitExceeded && nesting(v) > max_depth - depth + 1,
    }
}

proof fn lemma_reads_back(data: Seq<u8>, pos: int, v: Value, depth: int, max_depth: int)
    requires
        valid(v),
        stands_at(data, pos, encode(v)),
    ensures
        reads_back(data, pos, v, depth, max_depth),
        encode(v).len() > 0,
        encode(v)[0] != 101,
    decreases v, 0int,
{
    lemma_nesting_positive(v);
    let e = encode(v);
    match v {
        Value::Int(i) => {
            lemma_parse_int(data, pos, i);
        },
        Value::Bytes(s) => {
            lemma_parse_bytes(data, pos, s);
            lemma_decimal_shape(s.len());
            assert(e[0] == decimal(s.len())[0]);
        },
        Value::List(items) => {
            let inner = encode_items(items);
            assert(e[0] == 108 && e.last() == 101);
            assert(e.subrange(1, 1 + inner.len() as int) =~= inner);
            lemma_stands_part(data, pos, e, 1, 1 + inner.len() as int);
            assert(data[pos + 0] == e[0]);
            assert(data[pos + (e.len() - 1)] == e[e.len() - 1]);
            assert(items.take(0) =~= Seq::<Value>::empty());
            if depth <= max_depth {
                lemma_items_read_back(data, pos + 1, items, 0, depth, max_depth);
            }
        },
        Value::Dict(entries) => {
            let inner = encode_entries(entries);
            assert(e[0] == 100 && e.last() == 101);
            assert(e.subrange(1, 1 + inner.len() as int) =~= inner);
            lemma_stands_part(data, pos, e, 1, 1 + inner.len() as int);
            assert(data[pos + 0] == e[0]);
            assert(data[pos + (e.len() - 1)] == e[e.len() - 1]);
            assert(entries.take(0) =~= Seq::<(Seq<u8>, Value)>::empty());
            if depth <= max_depth {
                lemma_entries_read_back(data, pos + 1, entries, 0, depth, max_depth);
            }
        },
    }
}

/// The rest of a list from item `k` on.
proof fn lemma_items_read_back(
    data: Seq<u8>,
    pos: int,
    items: Seq<Value>,
    k: int,
    depth: int,
    max_depth: int,
)
    requires
        0 <= k <= items.len(),
        depth <= max_depth,
        forall|i: int| 0 <= i < items.len() ==> valid(#[trigger] items[i]),
        forall|i: int| 0 <= i < k ==> nesting(#[trigger] items[i]) <= max_depth - depth,
        stands_at(data, pos, encode_items(items)),
        pos + encode_items(items).len() < data.len(),
        data[pos + encode_items(items).len()] == 101,
    ensures
        match items_at(
            data,
            pos + encode_items(items.take(k)).len(),
            items.take(k),
            depth,
            max_depth,
        ) {
            Ok((w, end)) => w == items && end == pos + encode_items(items).len() + 1
                && items_nesting(items) <= max_depth - depth,
            Err((f, _)) => f == Failure::DepthLimitExceeded && items_nesting(items) > max_depth
                - depth,
        },
    decreases items, items.len() - k,
{
    lemma_items_nesting_bound(items, max_depth - depth);
    let all = encode_items(items);
    if k == items.len() {
        assert(items.take(k) =~= items);
    } else {
        lemma_items_split(items, k);
        let a = encode_items(items.take(k)).len() as int;
        let e = encode(items[k]);
        lemma_stands_part(data, pos, all, a, a + e.len());
        lemma_reads_back(data, pos + a, items[k], depth + 1, max_depth);
        assert(data[pos + a] == e[0]) by {
            assert(all.subrange(a, a + e.len())[0] == all[a]);
        }
        if nesting(items[k]) <= max_depth - depth {
            assert(items.take(k).push(items[k]) =~= items.take(k + 1));
            lemma_items_read_back(data, pos, items, k + 1, depth, max_depth);
        }
    }
}

/// The rest of a dictionary from entry `k` on.
proof fn lemma_entries_read_back(
    data: Seq<u8>,
    pos: int,
    entries: Seq<(Seq<u8>, Value)>,
    k: int,
    depth: int,
    max_depth: int,
)
    requires
        0 <= k <= entries.len(),
        depth <= max_depth,
        rises(entries),
        forall|i: int|
            0 <= i < entries.len() ==> (#[trigger] entries[i]).0.len() <= usize::MAX && valid(
                entries[i].1,
            ),
        forall|i: int| 0 <= i < k ==> nesting((#[trigger] entries[i]).1) <= max_depth - depth,
        stands_at(data, pos, encode_entries(entries)),
        pos + encode_entries(entries).len() < data.len(),
        data[pos + encode_entries(entries).len()] == 101,
    ensures
        match entries_at(
            data,
            pos + encode_entries(entries.take(k)).len(),
            entries.take(k),
            depth,
            max_depth,
        ) {
            Ok((w, end)) => w == entries && end == pos + encode_entries(entries).len() + 1
                && entries_nesting(entries) <= max_depth - depth,
            Err((f, _)) => f == Failure::DepthLimitExceeded && entries_nesting(entries) > max_depth
                - depth,
        },
    decreases entries, entries.len() - k,
{
    lemma_entries_nesting_bound(entries, max_depth - depth);
    let all = encode_entries(entries);
    if k == entries.len() {
        assert(entries.take(k) =~= entries);
    } else {
        lemma_entries_split(entries, k);
        let a = encode_entries(entries.take(k)).len() as int;
        let (key, v) = entries[k];
        let ek = encode_bytes(key);
        let e = encode(v);
        let both = ek + e;
        lemma_stands_part(data, pos, all, a, a + both.len());
        assert(both.subrange(0, ek.len() as int) =~= ek);
        assert(both.subrange(ek.len() as int, both.len() as int) =~= e);
        lemma_stands_part(data, pos + a, both, 0, ek.len() as int);
        lemma_stands_part(data, pos + a, both, ek.len() as int, both.len() as int);
        lemma_parse_bytes(data, pos + a, key);
        lemma_nesting_positive(v);
        assert(decreases_to!(entries => entries[k]));
        assert(decreases_to!(entries[k] => entries[k].1));
        lemma_reads_back(data, pos + a + ek.len(), v, depth + 1, max_depth);
        if depth < max_depth {
            assert(parse_at(data, pos + a, depth + 1, max_depth) == bytes_at(data, pos + a));
        } else {
            assert(nesting(entries[k].1) > max_depth - depth);
            assert(parse_at(data, pos + a, depth + 1, max_depth) is Err);
        }
        if nesting(v) <= max_depth - depth {
            assert(entries.take(k).push(entries[k]) =~= entries.take(k + 1));
            if k > 0 {
                assert(entries.take(k).last() == entries[k - 1]);
                assert(lex_lt(entries[k - 1].0, entries[k].0));
            }
            lemma_entries_read_back(data, pos, entries, k + 1, depth, max_depth);
        } else {
            if k > 0 {
                assert(entries.take(k).last() == entries[k - 1]);
                assert(lex_lt(entries[k - 1].0, entries[k].0));
            }
        }
    }
}

/// Parsing undoes encoding: the encoded form of a value, whatever follows it, parses as that value
/// and no byte more if it is not nested deeper than the limit, and is rejected for its depth if it
/// is. The value itself may be nested at any depth.
pub proof fn law_parse_undoes_encode(v: Value, rest: Seq<u8>, depth: int, max_depth: int)
    requires
        valid(v),
    ensures
        depth - 1 + nesting(v) <= max_depth ==> parse_at(encode(v) + rest, 0, depth, max_depth)
            == Ok::<(Value, int), (Failure, int)>((v, encode(v).len() as int)),
        depth - 1 + nesting(v) > max_depth ==> (parse_at(
            encode(v) + rest,
            0,
            depth,
            max_depth,
        ) matches Err((f, _)) && f == Failure::DepthLimitExceeded),
{
    let data = encode(v) + rest;
    assert(data.subrange(0, encode(v).len() as int) =~= encode(v));
    lemma_reads_back(data, 0, v, depth, max_depth);
}

/// The encoded form of a value reads back wherever it stands, and the parser then stands right
/// behind it. It is rejected for its depth if it is nested deeper than the limit.
pub proof fn law_encoded_reads_back_anywhere(
    data: Seq<u8>,
    pos: int,
    v: Value,
    depth: int,
    max_depth: int,
)
    requires
        valid(v),
        stands_at(data, pos, encode(v)),
    ensures
        depth - 1 + nesting(v) <= max_depth ==> parse_at(data, pos, depth, max_depth) == Ok::<
            (Value, int),
            (Failure, int),
        >((v, pos + encode(v).len())),
        depth - 1 + nesting(v) > max_depth ==> (parse_at(data, pos, depth, max_depth) matches Err(
            (f, _),
        ) && f == Failure::DepthLimitExceeded),
{
    lemma_reads_back(data, pos, v, depth, max_depth);
}

/// Two encoded forms, one behind the other, are read by two parses in a row.
pub proof fn law_parses_in_a_row(v: Value, w: Value, rest: Seq<u8>, max_depth: int)
    requires
        valid(v),
        valid(w),
        nesting(v) <= max_depth,
        nesting(w) <= max_depth,
    ensures
        ({
            let data = encode(v) + encode(w) + rest;
            let middle = encode(v).len() as int;
            &&& parse_at(data, 0, 1, max_depth) == Ok::<(Value, int), (Failure, int)>((v, middle))
            &&& parse_at(data, middle, 1, max_depth) == Ok::<(Value, int), (Failure, int)>(
                (w, middle + encode(w).len()),
            )
        }),
{
    let data = encode(v) + encode(w) + rest;
    let middle = encode(v).len() as int;
    assert(data.subrange(0, middle) =~= encode(v));
    assert(data.subrange(middle, middle + encode(w).len()) =~= encode(w));
    law_encoded_reads_back_anywhere(data, 0, v, 1, max_depth);
    law_encoded_reads_back_anywhere(data, middle, w, 1, max_depth);
}

/// No encoded form is the beginning of another: if what follows two values makes their encoded
/// forms agree, the values are the same.
pub proof fn law_encode_is_prefix_free(v: Value, w: Value, v_rest: Seq<u8>, w_rest: Seq<u8>)
    requires
        valid(v),
        valid(w),
        encode(v) + v_rest == encode(w) + w_rest,
    ensures
        v == w,
        v_rest == w_rest,
{
    let limit = nesting(v) + nesting(w);
    lemma_nesting_positive(v);
    lemma_nesting_positive(w);
    law_parse_undoes_encode(v, v_rest, 1, limit);
    law_parse_undoes_encode(w, w_rest, 1, limit);
    assert(v_rest =~= (encode(v) + v_rest).skip(encode(v).len() as int));
    assert(w_rest =~= (encode(w) + w_rest).skip(encode(w).len() as int));
}

/// Different values have different encoded forms.
pub proof fn law_encode_is_injective(v: Value, w: Value)
    requires
        valid(v),
        valid(w),
        encode(v) == encode(w),
    ensures
        v == w,
{
    law_encode_is_prefix_free(v, w, Seq::empty(), Seq::empty());
}

/// What the parser accepts is a valid value, with the keys of every dictionary rising, and it is
/// not nested deeper than the limit.
pub proof fn law_parsed_is_valid(data: Seq<u8>, pos: int, depth: int, max_depth: int)
    ensures
        parse_at(data, pos, depth, max_depth) matches Ok((v, end)) ==> {
            &&& valid(v)
            &&& nesting(v) <= max_depth - depth + 1
            &&& pos < end <= data.len()
        },
    decreases data.len() - pos, 0int,
{
    lemma_parse_progress(data, pos, depth, max_depth);
    if depth <= max_depth && 0 <= pos < data.len() {
        if data[pos] == 108 {
            lemma_items_valid(data, pos + 1, Seq::empty(), depth, max_depth);
        } else if data[pos] == 100 {
            lemma_entries_valid(data, pos + 1, Seq::empty(), depth, max_depth);
        } else if data[pos] == 105 {
            if let Some(end) = first(data, pos + 1, 101) {
                let s = data.subrange(pos + 1, end);
                if read_int(s, i64::MIN as int, i64::MAX as int) is Ok {
                    lemma_read_range(s, i64::MIN as int, i64::MAX as int);
                }
            }
        } else if is_digit(data[pos]) {
            if let Some(colon) = first(data, pos, 58) {
                assert(is_first(data, pos, 58, colon));
                let s = data.subrange(pos, colon);
                if read_int(s, 0, usize::MAX as int) is Ok {
                    lemma_read_range(s, 0, usize::MAX as int);
                }
            }
        }
    }
}

proof fn lemma_items_valid(
    data: Seq<u8>,
    pos: int,
    acc: Seq<Value>,
    depth: int,
    max_depth: int,
)
    requires
        depth <= max_depth,
        forall|i: int| 0 <= i < acc.len() ==> valid(#[trigger] acc[i]),
        items_nesting(acc) <= max_depth - depth,
    ensures
        items_at(data, pos, acc, depth, max_depth) matches Ok((items, _)) ==> {
            &&& valid(Value::List(items))
            &&& items_nesting(items) <= max_depth - depth
        },
    decreases data.len() - pos, 1int,
{
    if 0 <= pos < data.len() && data[pos] != 101 {
        law_parsed_is_valid(data, pos, depth + 1, max_depth);
        if let Ok((v, next)) = parse_at(data, pos, depth + 1, max_depth) {
            assert(acc.push(v).drop_last() =~= acc);
            lemma_items_valid(data, next, acc.push(v), depth, max_depth);
        }
    }
}

proof fn lemma_entries_valid(
    data: Seq<u8>,
    pos: int,
    acc: Seq<(Seq<u8>, Value)>,
    depth: int,
    max_depth: int,
)
    requires
        depth <= max_depth,
        valid(Value::Dict(acc)),
        entries_nesting(acc) <= max_depth - depth,
    ensures
        entries_at(data, pos, acc, depth, max_depth) matches Ok((entries, _)) ==> {
            &&& valid(Value::Dict(entries))
            &&& entries_nesting(entries) <= max_depth - depth
        },
    decreases data.len() - pos, 1int,
{
    if 0 <= pos < data.len() && data[pos] != 101 {
        law_parsed_is_valid(data, pos, depth + 1, max_depth);
        if let Ok((Value::Bytes(key), middle)) = parse_at(data, pos, depth + 1, max_depth) {
            law_parsed_is_valid(data, middle, depth + 1, max_depth);
            if let Ok((v, next)) = parse_at(data, middle, depth + 1, max_depth) {
                if acc.len() == 0 || lex_lt(acc.last().0, key) {
                    let t = acc.push((key, v));
                    assert(t.drop_last() =~= acc);
                    assert forall|i: int, j: int|
                        #![trigger t[i], t[j]]
                        0 <= i < j < t.len() implies lex_lt(t[i].0, t[j].0) by {
                        assert(t[i] == acc[i]);
                        if j < acc.len() {
                            assert(t[j] == acc[j]);
                        } else if i < acc.len() - 1 {
                            lemma_lex_transitive(acc[i].0, acc[acc.len() - 1].0, key);
                        }
                    }
                    lemma_entries_valid(data, next, t, depth, max_depth);
                }
            }
        }
    }
}

/// The element at `pos` has no integer that is written with a plus sign.
pub open spec fn plain_at(data: Seq<u8>, pos: int, depth: int, max_depth: int) -> bool
    decreases data.len() - pos, 0int,
{
    if !(0 <= pos < data.len()) {
        true
    } else if data[pos] == 105 {
        pos + 1 < data.len() ==> data[pos + 1] != 43
    } else if data[pos] == 108 {
        plain_items_at(data, pos + 1, depth, max_depth)
    } else if data[pos] == 100 {
        plain_items_at(data, pos + 1, depth, max_depth)
    } else {
        true
    }
}

/// None of the elements from `pos` up to the end of a list or dictionary has an integer that is
/// written with a plus sign.
pub open spec fn plain_items_at(data: Seq<u8>, pos: int, depth: int, max_depth: int) -> bool
    decreases data.len() - pos, 1int,
{
    if !(0 <= pos < data.len()) || data[pos] == 101 {
        true
    } else {
        &&& plain_at(data, pos, depth + 1, max_depth)
        &&& match parse_at(data, pos, depth + 1, max_depth) {
            Ok((_, next)) => pos < next <= data.len() ==> plain_items_at(
                data,
                next,
                depth,
                max_depth,
            ),
            Err(_) => true,
        }
    }
}

/// Encoding undoes parsing: the encoded form of what has been parsed is what has been read, unless
/// an integer in it was written with a plus sign, which no encoded form has.
pub proof fn law_encode_undoes_parse(data: Seq<u8>, pos: int, depth: int, max_depth: int)
    requires
        plain_at(data, pos, depth, max_depth),
    ensures
        parse_at(data, pos, depth, max_depth) matches Ok((v, end)) ==> encode(v) == data.subrange(
            pos,
            end,
        ),
    decreases data.len() - pos, 0int,
{
    lemma_parse_progress(data, pos, depth, max_depth);
    if depth <= max_depth && 0 <= pos < data.len() {
        if data[pos] == 108 {
            lemma_items_written(data, pos + 1, Seq::empty(), depth, max_depth);
            if let Ok((v, end)) = parse_at(data, pos, depth, max_depth) {
                assert(encode(v) =~= data.subrange(pos, end));
            }
        } else if data[pos] == 100 {
            lemma_entries_written(data, pos + 1, Seq::empty(), depth, max_depth);
            if let Ok((v, end)) = parse_at(data, pos, depth, max_depth) {
                assert(encode(v) =~= data.subrange(pos, end));
            }
        } else if data[pos] == 105 {
            if let Some(end) = first(data, pos + 1, 101) {
                assert(is_first(data, pos + 1, 101, end));
                let s = data.subrange(pos + 1, end);
                if let Ok(i) = read_int(s, i64::MIN as int, i64::MAX as int) {
                    if !bad_numeral(s) {
                        assert(s[0] == data[pos + 1]);
                        if s[0] == 45 {
                            let t = s.skip(1);
                            assert(t[0] == s[1]);
                            lemma_read_is_decimal(t, true, i64::MIN as int, i64::MAX as int);
                            assert(s =~= seq![45u8] + t);
                        } else {
                            lemma_read_is_decimal(s, false, i64::MIN as int, i64::MAX as int);
                        }
                        assert(s == decimal_int(i));
                        assert(encode_int(i) =~= data.subrange(pos, end + 1));
                    }
                }
            }
        } else if is_digit(data[pos]) {
            if let Some(colon) = first(data, pos, 58) {
                assert(is_first(data, pos, 58, colon));
                let s = data.subrange(pos, colon);
                if let Ok(len) = read_int(s, 0, usize::MAX as int) {
                    assert(s[0] == data[pos]);
                    if s.len() < 2 || s[0] != 48 {
                        lemma_read_is_decimal(s, false, 0, usize::MAX as int);
                        if len <= data.len() - (colon + 1) {
                            let body = data.subrange(colon + 1, colon + 1 + len);
                            assert(encode_bytes(body) =~= data.subrange(pos, colon + 1 + len));
                        }
                    }
                }
            }
        }
    }
}

proof fn lemma_items_written(
    data: Seq<u8>,
    pos: int,
    acc: Seq<Value>,
    depth: int,
    max_depth: int,
)
    requires
        plain_items_at(data, pos, depth, max_depth),
        0 <= pos,
    ensures
        items_at(data, pos, acc, depth, max_depth) matches Ok((items, end)) ==> {
            &&& pos < end <= data.len()
            &&& data[end - 1] == 101
            &&& encode_items(items) == encode_items(acc) + data.subrange(pos, end - 1)
        },
    decreases data.len() - pos, 1int,
{
    if 0 <= pos < data.len() {
        if data[pos] == 101 {
            assert(data.subrange(pos, pos) =~= Seq::<u8>::empty());
            assert(encode_items(acc) + data.subrange(pos, pos) =~= encode_items(acc));
        } else {
            lemma_parse_progress(data, pos, depth + 1, max_depth);
            law_encode_undoes_parse(data, pos, depth + 1, max_depth);
            if let Ok((v, next)) = parse_at(data, pos, depth + 1, max_depth) {
                let t = acc.push(v);
                assert(t.drop_last() =~= acc);
                lemma_items_written(data, next, t, depth, max_depth);
                if let Ok((items, end)) = items_at(data, next, t, depth, max_depth) {
                    assert(data.subrange(pos, next) + data.subrange(next, end - 1)
                        =~= data.subrange(pos, end - 1));
                    assert(encode_items(acc) + data.subrange(pos, next) + data.subrange(
                        next,
                        end - 1,
                    ) =~= encode_items(acc) + (data.subrange(pos, next) + data.subrange(
                        next,
                        end - 1,
                    )));
                }
            }
        }
    }
}

proof fn lemma_entries_written(
    data: Seq<u8>,
    pos: int,
    acc: Seq<(Seq<u8>, Value)>,
    depth: int,
    max_depth: int,
)
    requires
        plain_items_at(data, pos, depth, max_depth),
        0 <= pos,
    ensures
        entries_at(data, pos, acc, depth, max_depth) matches Ok((entries, end)) ==> {
            &&& pos < end <= data.len()
            &&& data[end - 1] == 101
            &&& encode_entries(entries) == encode_entries(acc) + data.subrange(pos, end - 1)
        },
    decreases data.len() - pos, 1int,
{
    if 0 <= pos < data.len() {
        if data[pos] == 101 {
            assert(data.subrange(pos, pos) =~= Seq::<u8>::empty());
            assert(encode_entries(acc) + data.subrange(pos, pos) =~= encode_entries(acc));
        } else {
            lemma_parse_progress(data, pos, depth + 1, max_depth);
            law_encode_undoes_parse(data, pos, depth + 1, max_depth);
            if let Ok((Value::Bytes(key), middle)) = parse_at(data, pos, depth + 1, max_depth) {
                lemma_parse_progress(data, middle, depth + 1, max_depth);
                if let Ok((v, next)) = parse_at(data, middle, depth + 1, max_depth) {
                    assert(plain_items_at(data, middle, depth, max_depth));
                    assert(data[middle] != 101);
                    law_encode_undoes_parse(data, middle, depth + 1, max_depth);
                    let t = acc.push((key, v));
                    assert(t.drop_last() =~= acc);
                    lemma_entries_written(data, next, t, depth, max_depth);
                    if let Ok((entries, end)) = entries_at(data, next, t, depth, max_depth) {
                        assert(data.subrange(pos, middle) + data.subrange(middle, next)
                            + data.subrange(next, end - 1) =~= data.subrange(pos, end - 1));
                        assert(encode_entries(acc) + data.subrange(pos, middle) + data.subrange(
                            middle,
                            next,
                        ) + data.subrange(next, end - 1) =~= encode_entries(acc) + (data.subrange(
                            pos,
                            middle,
                        ) + data.subrange(middle, next) + data.subrange(next, end - 1)));
                    }
                }
            }
        }
    }
}

} // verus!
