//! Numbers that are not zero, and powers of two.
use vstd::arithmetic::power2::{lemma_pow2_pos, lemma_pow2_unfold, pow2};
use vstd::prelude::*;

verus! {

/// A number that is not zero.
#[derive(Debug, PartialEq, Eq, Clone, Copy)]
pub struct NonZeroU64 {
    value: u64,
}

impl View for NonZeroU64 {
    type V = u64;

    closed spec fn view(&self) -> u64 {
        self.value
    }
}

/// `n` is a power of two.
pub open spec fn is_power_of_two(n: nat) -> bool {
    exists|k: nat| n == #[trigger] pow2(k)
}

/// The halves of a power of two are powers of two, down to one.
pub proof fn lemma_half_power(n: nat)
    requires
        n >= 2,
    ensures
        is_power_of_two(n) <==> n % 2 == 0 && is_power_of_two(n / 2),
{
    if is_power_of_two(n) {
        let k = choose|k: nat| n == #[trigger] pow2(k);
        vstd::arithmetic::power2::lemma2_to64();
        if k == 0 {
            assert(false);
        }
        lemma_pow2_unfold(k);
        assert(n / 2 == pow2((k - 1) as nat));
    }
    if n % 2 == 0 && is_power_of_two(n / 2) {
        let k = choose|k: nat| n / 2 == #[trigger] pow2(k);
        lemma_pow2_unfold(k + 1);
        assert(n == pow2(k + 1));
    }
}

pub proof fn lemma_one_is_power()
    ensures
        is_power_of_two(1),
        !is_power_of_two(0),
{
    vstd::arithmetic::power2::lemma2_to64();
    assert(1 == pow2(0));
    if is_power_of_two(0) {
        let k = choose|k: nat| 0 == #[trigger] pow2(k);
        lemma_pow2_pos(k);
    }
}

/// Whether `n` is a power of two.
pub fn power_of_two(n: u64) -> (r: bool)
    ensures
        r == is_power_of_two(n as nat),
    decreases n,
{
    proof {
        lemma_one_is_power();
        if n >= 2 {
            lemma_half_power(n as nat);
        }
    }
    if n < 2 {
        n == 1
    } else {
        n % 2 == 0 && power_of_two(n / 2)
    }
}

impl NonZeroU64 {
    #[verifier::type_invariant]
    spec fn inv(self) -> bool {
        self.value != 0
    }

    /// The number `value`, unless it is zero.
    pub fn new(value: u64) -> (r: Option<NonZeroU64>)
        ensures
            match r {
                Some(n) => n@ == value && value != 0,
                None => value == 0,
            },
    {
        if value == 0 {
            None
        } else {
            Some(NonZeroU64 { value })
        }
    }

    /// The number.
    pub fn get(&self) -> (r: u64)
        ensures
            r == self@,
            r != 0,
    {
        proof {
            use_type_invariant(self);
        }
        self.value
    }

    /// Whether the number is a power of two.
    pub fn is_power_of_two(&self) -> (r: bool)
        ensures
            r == is_power_of_two(self@ as nat),
    {
        power_of_two(self.value)
    }
}

} // verus!
