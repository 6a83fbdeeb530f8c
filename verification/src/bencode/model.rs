//! The model of bencoded data.
use vstd::prelude::*;

use crate::decimal::{decimal, decimal_int};
use crate::sorted_map::rises;

verus! {

/// A bencoded value. The entries of a dictionary are listed in the order in which they are
/// written.
pub ghost enum Value {
    Int(int),
    Bytes(Seq<u8>),
    List(Seq<Value>),
    Dict(Seq<(Seq<u8>, Value)>),
}

/// The encoded form of a byte string: its length, a colon and the bytes.
pub open spec fn encode_bytes(s: Seq<u8>) -> Seq<u8> {
    decimal(s.len()).push(58) + s
}

/// The encoded form of an integer.
pub open spec fn encode_int(i: int) -> Seq<u8> {
    seq![105u8] + decimal_int(i) + seq![101u8]
}

/// The bytes that stand for a value.
pub open spec fn encode(v: Value) -> Seq<u8>
    decreases v,
{
    match v {
        Value::Int(i) => encode_int(i),
        Value::Bytes(s) => encode_bytes(s),
        Value::List(items) => seq![108u8] + encode_items(items) + seq![101u8],
        Value::Dict(entries) => seq![100u8] + encode_entries(entries) + seq![101u8],
    }
}

/// The encoded forms of some values, one behind the other.
pub open spec fn encode_items(items: Seq<Value>) -> Seq<u8>
    decreases items,
{
    if items.len() == 0 {
        Seq::empty()
    } else {
        encode_items(items.drop_last()) + encode(items.last())
    }
}

/// The encoded forms of some keys and values, one behind the other.
pub open spec fn encode_entries(entries: Seq<(Seq<u8>, Value)>) -> Seq<u8>
    decreases entries,
{
    if entries.len() == 0 {
        Seq::empty()
    } else {
        encode_entries(entries.drop_last()) + encode_bytes(entries.last().0) + encode(
            entries.last().1,
        )
    }
}

/// A value that an element can have: integers have 64 bits, lengths fit in memory, and the keys
/// of every dictionary rise.
pub open spec fn valid(v: Value) -> bool
    decreases v,
{
    match v {
        Value::Int(i) => i64::MIN <= i <= i64::MAX,
        Value::Bytes(s) => s.len() <= usize::MAX,
        Value::List(items) => forall|i: int| 0 <= i < items.len() ==> valid(#[trigger] items[i]),
        Value::Dict(entries) => {
            &&& rises(entries)
            &&& forall|i: int|
                0 <= i < entries.len() ==> (#[trigger] entries[i]).0.len() <= usize::MAX && valid(
                    entries[i].1,
                )
        },
    }
}

/// How many levels deep a value is nested. An integer or a byte string is one level deep, a list
/// or a dictionary one level deeper than what it holds.
pub open spec fn nesting(v: Value) -> int
    decreases v,
{
    match v {
        Value::Int(_) => 1,
        Value::Bytes(_) => 1,
        Value::List(items) => 1 + items_nesting(items),
        Value::Dict(entries) => 1 + entries_nesting(entries),
    }
}

/// The largest nesting of some values, or zero if there are none.
pub open spec fn items_nesting(items: Seq<Value>) -> int
    decreases items,
{
    if items.len() == 0 {
        0
    } else {
        larger(items_nesting(items.drop_last()), nesting(items.last()))
    }
}

/// The largest nesting of the values of some entries, or zero if there are none.
pub open spec fn entries_nesting(entries: Seq<(Seq<u8>, Value)>) -> int
    decreases entries,
{
    if entries.len() == 0 {
        0
    } else {
        larger(entries_nesting(entries.drop_last()), nesting(entries.last().1))
    }
}

pub open spec fn larger(a: int, b: int) -> int {
    if a < b {
        b
    } else {
        a
    }
}

} // verus!
