//! Decimal numerals: how a number is written and how a numeral is read.
use vstd::prelude::*;

verus! {

/// Why a numeral could not be read.
#[derive(Debug, PartialEq, Eq, Clone, Copy, Structural)]
pub enum IntErrorKind {
    /// The numeral is empty.
    Empty,
    /// A byte is not a digit, or there is a sign with nothing behind it.
    InvalidDigit,
    /// The number is larger than the largest one that can be represented.
    PosOverflow,
    /// The number is smaller than the smallest one that can be represented.
    NegOverflow,
}

/// The digit for `d`.
pub open spec fn digit(d: int) -> u8 {
    (48 + d) as u8
}

pub open spec fn is_digit(b: u8) -> bool {
    48 <= b <= 57
}

/// The decimal numeral of a natural number, without leading zeros.
pub open spec fn decimal(n: nat) -> Seq<u8>
    decreases n,
{
    if n < 10 {
        seq![digit(n as int)]
    } else {
        decimal(n / 10).push(digit((n % 10) as int))
    }
}

/// The decimal numeral of an integer.
pub open spec fn decimal_int(i: int) -> Seq<u8> {
    if i < 0 {
        seq![45u8] + decimal((-i) as nat)
    } else {
        decimal(i as nat)
    }
}

/// Reads digits from left to right, as the digits of a negative number if `negative` is set, and
/// stops at the first byte that is no digit or takes the number out of `min ..= max`.
pub open spec fn read_digits(s: Seq<u8>, negative: bool, min: int, max: int) -> Result<
    int,
    IntErrorKind,
>
    decreases s.len(),
{
    if s.len() == 0 {
        Ok(0)
    } else {
        match read_digits(s.drop_last(), negative, min, max) {
            Err(e) => Err(e),
            Ok(v) => {
                let d = s.last() - 48;
                let w = if negative { 10 * v - d } else { 10 * v + d };
                if !is_digit(s.last()) {
                    Err(IntErrorKind::InvalidDigit)
                } else if w > max {
                    Err(IntErrorKind::PosOverflow)
                } else if w < min {
                    Err(IntErrorKind::NegOverflow)
                } else {
                    Ok(w)
                }
            },
        }
    }
}

/// Reads a numeral: an optional sign, then digits. A minus sign is one only where `min` is
/// negative.
pub open spec fn read_int(s: Seq<u8>, min: int, max: int) -> Result<int, IntErrorKind> {
    if s.len() == 0 {
        Err(IntErrorKind::Empty)
    } else if s[0] == 43 || (s[0] == 45 && min < 0) {
        if s.len() == 1 {
            Err(IntErrorKind::InvalidDigit)
        } else {
            read_digits(s.skip(1), s[0] == 45, min, max)
        }
    } else {
        read_digits(s, false, min, max)
    }
}

/// All bytes of a numeral are digits, it has at least one, and the first one is not zero unless
/// it stands alone.
pub proof fn lemma_decimal_shape(n: nat)
    ensures
        decimal(n).len() >= 1,
        forall|i: int| 0 <= i < decimal(n).len() ==> is_digit(#[trigger] decimal(n)[i]),
        decimal(n)[0] == 48 <==> n == 0,
        n < 10 ==> decimal(n).len() == 1,
        n >= 10 ==> decimal(n).len() == decimal(n / 10).len() + 1,
    decreases n,
{
    if n >= 10 {
        lemma_decimal_shape(n / 10);
    }
}

/// The numeral of a number reads as that number.
pub proof fn lemma_read_decimal(n: nat, negative: bool, min: int, max: int)
    requires
        min <= 0 <= max,
        negative ==> min <= -n,
        !negative ==> n <= max,
    ensures
        read_digits(decimal(n), negative, min, max) == Ok::<int, IntErrorKind>(
            if negative {
                -(n as int)
            } else {
                n as int
            },
        ),
    decreases n,
{
    reveal_with_fuel(read_digits, 2);
    if n < 10 {
        assert(decimal(n).drop_last() =~= Seq::<u8>::empty());
    } else {
        lemma_read_decimal(n / 10, negative, min, max);
        assert(decimal(n).drop_last() =~= decimal(n / 10));
    }
}

/// The numeral of an integer reads as that integer.
pub proof fn lemma_read_decimal_int(i: int, min: int, max: int)
    requires
        min <= i <= max,
        min <= 0 <= max,
    ensures
        read_int(decimal_int(i), min, max) == Ok::<int, IntErrorKind>(i),
{
    if i < 0 {
        let n = (-i) as nat;
        lemma_decimal_shape(n);
        lemma_read_decimal(n, true, min, max);
        assert(decimal_int(i).skip(1) =~= decimal(n));
    } else {
        let n = i as nat;
        lemma_decimal_shape(n);
        lemma_read_decimal(n, false, min, max);
    }
}

/// What is read from digits has the sign that was asked for.
proof fn lemma_read_sign(s: Seq<u8>, negative: bool, min: int, max: int)
    requires
        read_digits(s, negative, min, max) is Ok,
    ensures
        negative ==> read_digits(s, negative, min, max)->Ok_0 <= 0,
        !negative ==> read_digits(s, negative, min, max)->Ok_0 >= 0,
        forall|i: int| 0 <= i < s.len() ==> is_digit(#[trigger] s[i]),
    decreases s.len(),
{
    if s.len() > 0 {
        lemma_read_sign(s.drop_last(), negative, min, max);
        assert forall|i: int| 0 <= i < s.len() implies is_digit(#[trigger] s[i]) by {
            if i < s.len() - 1 {
                assert(s.drop_last()[i] == s[i]);
            }
        }
    }
}

/// What is read lies in the range that was asked for.
pub proof fn lemma_read_range(s: Seq<u8>, min: int, max: int)
    requires
        min <= 0 <= max,
        read_int(s, min, max) is Ok,
    ensures
        min <= read_int(s, min, max)->Ok_0 <= max,
{
}

/// Digits without a leading zero are the numeral of the number that they read as.
pub proof fn lemma_read_is_decimal(s: Seq<u8>, negative: bool, min: int, max: int)
    requires
        s.len() >= 1,
        s[0] == 48 ==> s.len() == 1,
        read_digits(s, negative, min, max) is Ok,
    ensures
        ({
            let v = read_digits(s, negative, min, max)->Ok_0;
            &&& s == decimal(if negative { (-v) as nat } else { v as nat })
            &&& negative ==> v <= 0
            &&& !negative ==> v >= 0
            &&& s[0] != 48 ==> v != 0
        }),
    decreases s.len(),
{
    reveal_with_fuel(read_digits, 2);
    lemma_read_sign(s, negative, min, max);
    let t = s.drop_last();
    if s.len() == 1 {
        assert(t =~= Seq::<u8>::empty());
        assert(s =~= seq![s[0]]);
    } else {
        lemma_read_is_decimal(t, negative, min, max);
        assert(s =~= t.push(s.last()));
        let v = read_digits(t, negative, min, max)->Ok_0;
        let n = if negative { (-v) as nat } else { v as nat };
        let m = (10 * n + (s.last() - 48)) as nat;
        assert(m / 10 == n && m % 10 == s.last() - 48);
    }
}

/// Appends the decimal numeral of `n`.
pub fn push_decimal(buf: &mut Vec<u8>, n: u64)
    ensures
        final(buf)@ == old(buf)@ + decimal(n as nat),
    decreases n,
{
    if n >= 10 {
        push_decimal(buf, n / 10);
    }
    buf.push(48 + (n % 10) as u8);
    assert(buf@ =~= old(buf)@ + decimal(n as nat));
}

/// Ten to the power of `k`.
spec fn tens(k: nat) -> nat
    decreases k,
{
    if k == 0 {
        1
    } else {
        10 * tens((k - 1) as nat)
    }
}

proof fn lemma_decimal_len(n: nat, k: nat)
    requires
        n < tens(k),
        k >= 1,
    ensures
        decimal(n).len() <= k,
    decreases k,
{
    lemma_decimal_shape(n);
    if n >= 10 {
        reveal_with_fuel(tens, 2);
        lemma_decimal_len(n / 10, (k - 1) as nat);
    }
}

/// The number of digits in the decimal numeral of `n`.
pub fn decimal_len(n: u64) -> (r: usize)
    ensures
        r == decimal(n as nat).len(),
        1 <= r <= 20,
    decreases n,
{
    proof {
        lemma_decimal_shape(n as nat);
        reveal_with_fuel(tens, 21);
        lemma_decimal_len(n as nat, 20);
    }
    if n < 10 {
        1
    } else {
        1 + decimal_len(n / 10)
    }
}

/// Reads a numeral as a signed 64-bit integer.
pub fn parse_i64(s: &[u8]) -> (r: Result<i64, IntErrorKind>)
    ensures
        match r {
            Ok(v) => read_int(s@, i64::MIN as int, i64::MAX as int) == Ok::<int, IntErrorKind>(
                v as int,
            ),
            Err(e) => read_int(s@, i64::MIN as int, i64::MAX as int) == Err::<int, IntErrorKind>(e),
        },
{
    if s.len() == 0 {
        return Err(IntErrorKind::Empty);
    }
    let negative: bool = s[0] == 45;
    let start: usize = if negative || s[0] == 43 {
        1
    } else {
        0
    };
    if start == 1 && s.len() == 1 {
        return Err(IntErrorKind::InvalidDigit);
    }
    let ghost digits = s@.skip(start as int);
    assert(start == 0 ==> digits =~= s@);
    let mut v: i128 = 0;
    let mut i: usize = start;
    assert(digits.take(0) =~= Seq::<u8>::empty());
    while i < s.len()
        invariant
            start <= i <= s.len(),
            digits == s@.skip(start as int),
            s.len() > 0,
            read_int(s@, i64::MIN as int, i64::MAX as int) == read_digits(
                digits,
                negative,
                i64::MIN as int,
                i64::MAX as int,
            ),
            i64::MIN <= v <= i64::MAX,
            read_digits(digits.take(i - start), negative, i64::MIN as int, i64::MAX as int) == Ok::<
                int,
                IntErrorKind,
            >(v as int),
        decreases s.len() - i,
    {
        let b: u8 = s[i];
        proof {
            let t = digits.take(i - start + 1);
            assert(t.drop_last() =~= digits.take(i - start));
            assert(t.last() == b);
            if read_digits(t, negative, i64::MIN as int, i64::MAX as int) is Err {
                lemma_read_error_stays(
                    digits,
                    i - start + 1,
                    negative,
                    i64::MIN as int,
                    i64::MAX as int,
                );
            }
        }
        if b < 48 || b > 57 {
            return Err(IntErrorKind::InvalidDigit);
        }
        let d: i128 = (b - 48) as i128;
        let w: i128 = if negative {
            10 * v - d
        } else {
            10 * v + d
        };
        if w > 9223372036854775807 {
            return Err(IntErrorKind::PosOverflow);
        }
        if w < -9223372036854775808 {
            return Err(IntErrorKind::NegOverflow);
        }
        v = w;
        i = i + 1;
    }
    assert(digits.take(i - start) =~= digits);
    Ok(v as i64)
}

/// An error in the first `k` bytes is the error of the whole.
proof fn lemma_read_error_stays(s: Seq<u8>, k: int, negative: bool, min: int, max: int)
    requires
        0 <= k <= s.len(),
        read_digits(s.take(k), negative, min, max) is Err,
    ensures
        read_digits(s, negative, min, max) == read_digits(s.take(k), negative, min, max),
    decreases s.len() - k,
{
    if k < s.len() {
        assert(s.take(k + 1).drop_last() =~= s.take(k));
        lemma_read_error_stays(s, k + 1, negative, min, max);
    } else {
        assert(s.take(k) =~= s);
    }
}

/// Reads a numeral as a length.
pub fn parse_usize(s: &[u8]) -> (r: Result<usize, IntErrorKind>)
    ensures
        match r {
            Ok(v) => read_int(s@, 0, usize::MAX as int) == Ok::<int, IntErrorKind>(v as int),
            Err(e) => read_int(s@, 0, usize::MAX as int) == Err::<int, IntErrorKind>(e),
        },
{
    if s.len() == 0 {
        return Err(IntErrorKind::Empty);
    }
    let start: usize = if s[0] == 43 {
        1
    } else {
        0
    };
    if start == 1 && s.len() == 1 {
        return Err(IntErrorKind::InvalidDigit);
    }
    let ghost digits = s@.skip(start as int);
    assert(start == 0 ==> digits =~= s@);
    let mut v: u128 = 0;
    let mut i: usize = start;
    assert(digits.take(0) =~= Seq::<u8>::empty());
    while i < s.len()
        invariant
            start <= i <= s.len(),
            digits == s@.skip(start as int),
            s.len() > 0,
            read_int(s@, 0, usize::MAX as int) == read_digits(digits, false, 0, usize::MAX as int),
            v <= usize::MAX,
            read_digits(digits.take(i - start), false, 0, usize::MAX as int) == Ok::<
                int,
                IntErrorKind,
            >(v as int),
        decreases s.len() - i,
    {
        let b: u8 = s[i];
        proof {
            let t = digits.take(i - start + 1);
            assert(t.drop_last() =~= digits.take(i - start));
            assert(t.last() == b);
            if read_digits(t, false, 0, usize::MAX as int) is Err {
                lemma_read_error_stays(digits, i - start + 1, false, 0, usize::MAX as int);
            }
        }
        if b < 48 || b > 57 {
            return Err(IntErrorKind::InvalidDigit);
        }
        let w: u128 = 10 * v + (b - 48) as u128;
        if w > usize::MAX as u128 {
            return Err(IntErrorKind::PosOverflow);
        }
        v = w;
        i = i + 1;
    }
    assert(digits.take(i - start) =~= digits);
    Ok(v as usize)
}

} // verus!
