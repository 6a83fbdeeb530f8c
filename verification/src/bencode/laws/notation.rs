//! How values are written.
use vstd::prelude::*;

use crate::bencode::model::{encode, Value};
use crate::decimal::{
    decimal, decimal_int, is_digit, lemma_decimal_shape, read_digits, read_int, IntErrorKind,
};

verus! {

/// The number that some digits stand for.
pub open spec fn digits_value(s: Seq<u8>) -> int
    decreases s.len(),
{
    if s.len() == 0 {
        0
    } else {
        10 * digits_value(s.drop_last()) + (s.last() - 48)
    }
}

/// All bytes are digits.
pub open spec fn all_digits(s: Seq<u8>) -> bool {
    forall|i: int| 0 <= i < s.len() ==> 48 <= #[trigger] s[i] <= 57
}

/// A numeral is made of digits that stand for the number. There is no leading zero but for zero
/// itself. A negative number has a minus sign in front of it.
pub proof fn law_numerals(n: nat)
    ensures
        decimal(n).len() > 0,
        all_digits(decimal(n)),
        digits_value(decimal(n)) == n,
        decimal(n)[0] == 48 ==> n == 0 && decimal(n).len() == 1,
        decimal_int(n as int) == decimal(n),
        n > 0 ==> decimal_int(-(n as int)) == seq![45u8] + decimal(n),
    decreases n,
{
    lemma_decimal_shape(n);
    reveal_with_fuel(digits_value, 2);
    assert forall|i: int| 0 <= i < decimal(n).len() implies 48 <= #[trigger] decimal(n)[i]
        <= 57 by {
        assert(is_digit(decimal(n)[i]));
    }
    if n >= 10 {
        law_numerals(n / 10);
        assert(decimal(n).drop_last() =~= decimal(n / 10));
    } else {
        assert(decimal(n).drop_last() =~= Seq::<u8>::empty());
    }
}

proof fn lemma_value_grows(s: Seq<u8>)
    requires
        all_digits(s),
    ensures
        digits_value(s) >= 0,
        s.len() > 0 ==> digits_value(s) >= digits_value(s.drop_last()) >= 0,
    decreases s.len(),
{
    if s.len() > 0 {
        let t = s.drop_last();
        assert forall|i: int| 0 <= i < t.len() implies 48 <= #[trigger] t[i] <= 57 by {
            assert(t[i] == s[i]);
        }
        assert(s[s.len() - 1] >= 48);
        lemma_value_grows(t);
    }
}

proof fn lemma_digits(s: Seq<u8>, negative: bool, min: int, max: int)
    requires
        all_digits(s),
        min <= 0 <= max,
    ensures
        read_digits(s, negative, min, max) == if negative && -digits_value(s) < min {
            Err::<int, IntErrorKind>(IntErrorKind::NegOverflow)
        } else if !negative && digits_value(s) > max {
            Err::<int, IntErrorKind>(IntErrorKind::PosOverflow)
        } else if negative {
            Ok::<int, IntErrorKind>(-digits_value(s))
        } else {
            Ok::<int, IntErrorKind>(digits_value(s))
        },
    decreases s.len(),
{
    if s.len() > 0 {
        let t = s.drop_last();
        assert forall|i: int| 0 <= i < t.len() implies 48 <= #[trigger] t[i] <= 57 by {
            assert(t[i] == s[i]);
        }
        assert(48 <= s[s.len() - 1] <= 57);
        lemma_value_grows(s);
        lemma_digits(t, negative, min, max);
    }
}

/// Digits are read as the number that they stand for, with or without a plus sign, and with a minus
/// sign where there are negative numbers. A number that is out of range is refused, and so is a
/// sign with nothing behind it.
pub proof fn law_numerals_are_read(s: Seq<u8>, min: int, max: int)
    requires
        s.len() > 0,
        all_digits(s),
        min <= 0 <= max,
    ensures
        digits_value(s) <= max ==> read_int(s, min, max) == Ok::<int, IntErrorKind>(
            digits_value(s),
        ),
        digits_value(s) > max ==> read_int(s, min, max) == Err::<int, IntErrorKind>(
            IntErrorKind::PosOverflow,
        ),
        read_int(seq![43u8] + s, min, max) == read_int(s, min, max),
        min < 0 && -digits_value(s) >= min ==> read_int(seq![45u8] + s, min, max) == Ok::<
            int,
            IntErrorKind,
        >(-digits_value(s)),
        min < 0 && -digits_value(s) < min ==> read_int(seq![45u8] + s, min, max) == Err::<
            int,
            IntErrorKind,
        >(IntErrorKind::NegOverflow),
        read_int(seq![43u8], min, max) == Err::<int, IntErrorKind>(IntErrorKind::InvalidDigit),
        read_int(Seq::empty(), min, max) == Err::<int, IntErrorKind>(IntErrorKind::Empty),
{
    assert(48 <= s[0] <= 57);
    lemma_digits(s, false, min, max);
    lemma_digits(s, true, min, max);
    assert((seq![43u8] + s).skip(1) =~= s);
    assert((seq![45u8] + s).skip(1) =~= s);
}

/// An integer is written as a numeral between `i` and `e`, and a byte string as its length, a colon
/// and the bytes.
pub proof fn law_integers_and_strings_are_written(i: int, s: Seq<u8>)
    ensures
        encode(Value::Int(i)) == seq![105u8] + decimal_int(i) + seq![101u8],
        encode(Value::Bytes(s)) == decimal(s.len()) + seq![58u8] + s,
{
    assert(encode(Value::Bytes(s)) =~= decimal(s.len()) + seq![58u8] + s);
}

/// A list is written between `l` and `e`, and a dictionary between `d` and `e`. One more item comes
/// behind the others, and so does one more entry, with its key before its value.
pub proof fn law_lists_and_dictionaries_are_written(
    items: Seq<Value>,
    entries: Seq<(Seq<u8>, Value)>,
    key: Seq<u8>,
    v: Value,
)
    ensures
        encode(Value::List(Seq::empty())) == seq![108u8, 101u8],
        encode(Value::Dict(Seq::empty())) == seq![100u8, 101u8],
        encode(Value::List(items)).len() > 0,
        encode(Value::Dict(entries)).len() > 0,
        encode(Value::List(items.push(v))) == encode(Value::List(items)).drop_last() + encode(v)
            + seq![101u8],
        encode(Value::Dict(entries.push((key, v)))) == encode(Value::Dict(entries)).drop_last()
            + encode(Value::Bytes(key)) + encode(v) + seq![101u8],
{
    reveal_with_fuel(encode, 3);
    reveal_with_fuel(crate::bencode::model::encode_items, 3);
    reveal_with_fuel(crate::bencode::model::encode_entries, 3);
    assert(encode(Value::List(Seq::empty())) =~= seq![108u8, 101u8]);
    assert(encode(Value::Dict(Seq::empty())) =~= seq![100u8, 101u8]);
    assert(items.push(v).drop_last() =~= items);
    assert(entries.push((key, v)).drop_last() =~= entries);
    assert(encode(Value::List(items.push(v))) =~= encode(Value::List(items)).drop_last() + encode(v)
        + seq![101u8]);
    assert(encode(Value::Dict(entries.push((key, v)))) =~= encode(
        Value::Dict(entries),
    ).drop_last() + encode(Value::Bytes(key)) + encode(v) + seq![101u8]);
}

} // verus!
