//! Byte strings cut into pieces of equal length.
use vstd::prelude::*;

verus! {

/// Some byte strings, one behind the other.
pub open spec fn flat(s: Seq<Seq<u8>>) -> Seq<u8>
    decreases s.len(),
{
    if s.len() == 0 {
        Seq::empty()
    } else {
        flat(s.drop_last()) + s.last()
    }
}

/// The bytes of some arrays.
pub open spec fn arrays<const N: usize>(s: Seq<[u8; N]>) -> Seq<Seq<u8>> {
    Seq::new(s.len(), |i: int| s[i]@)
}

/// The pieces of `n` bytes each that `s` consists of, without what is left over at the end.
pub open spec fn cut(s: Seq<u8>, n: int) -> Seq<Seq<u8>> {
    Seq::new((s.len() as int / n) as nat, |i: int| s.subrange(i * n, i * n + n))
}

/// `slice::as_chunks`: a byte string as the pieces of 20 bytes that it consists of, and what is
/// left over.
#[verifier::external_body]
pub(crate) fn as_chunks<'a>(bytes: &'a [u8]) -> (r: (&'a [[u8; 20]], &'a [u8]))
    ensures
        arrays(r.0@) == cut(bytes@, 20),
        r.1@ == bytes@.skip(bytes@.len() - bytes@.len() % 20),
{
    bytes.as_chunks::<20>()
}

/// `slice::as_flattened`: the bytes of some arrays, one behind the other.
#[verifier::external_body]
pub(crate) fn as_flattened<'a>(chunks: &'a [[u8; 20]]) -> (r: &'a [u8])
    ensures
        r@ == flat(arrays(chunks@)),
{
    chunks.as_flattened()
}

/// `<&[u8; 32]>::try_from`: a byte string as an array, if it has 32 bytes.
#[verifier::external_body]
pub(crate) fn as_array<'a>(bytes: &'a [u8]) -> (r: Option<&'a [u8; 32]>)
    ensures
        match r {
            Some(a) => a@ == bytes@,
            None => bytes@.len() != 32,
        },
{
    bytes.try_into().ok()
}

/// What stands behind `k` pieces of `n` bytes each is a piece of the whole.
proof fn lemma_flat_len(s: Seq<Seq<u8>>, n: int)
    requires
        forall|i: int| 0 <= i < s.len() ==> (#[trigger] s[i]).len() == n,
    ensures
        flat(s).len() == s.len() * n,
    decreases s.len(),
{
    if s.len() > 0 {
        lemma_flat_len(s.drop_last(), n);
        assert((s.len() - 1) * n + n == s.len() * n) by (nonlinear_arith);
    } else {
        assert(0 * n == 0);
    }
}

/// Cutting undoes flattening: pieces of equal length are found again.
pub proof fn lemma_cut_flat(s: Seq<Seq<u8>>, n: int)
    requires
        n > 0,
        forall|i: int| 0 <= i < s.len() ==> (#[trigger] s[i]).len() == n,
    ensures
        cut(flat(s), n) == s,
        flat(s).len() % (n as nat) == 0,
        flat(s).len() == s.len() * n,
{
    lemma_flat_len(s, n);
    vstd::arithmetic::div_mod::lemma_mod_multiples_basic(s.len() as int, n);
    vstd::arithmetic::div_mod::lemma_div_multiples_vanish(s.len() as int, n);
    assert(s.len() * n == n * s.len()) by (nonlinear_arith);
    assert forall|i: int| 0 <= i < s.len() implies cut(flat(s), n)[i] == s[i] by {
        lemma_flat_piece(s, n, i);
    }
    assert(cut(flat(s), n) =~= s);
}

/// The bytes of piece `i` stand where `i` pieces end.
pub proof fn lemma_flat_piece(s: Seq<Seq<u8>>, n: int, i: int)
    requires
        n > 0,
        0 <= i < s.len(),
        forall|k: int| 0 <= k < s.len() ==> (#[trigger] s[k]).len() == n,
    ensures
        0 <= i * n,
        i * n + n <= flat(s).len(),
        flat(s).subrange(i * n, i * n + n) == s[i],
    decreases s.len(),
{
    lemma_flat_len(s, n);
    let t = s.drop_last();
    lemma_flat_len(t, n);
    assert(0 <= i * n) by (nonlinear_arith)
        requires
            0 <= i,
            n > 0,
    ;
    if i == s.len() - 1 {
        assert(i * n + n == s.len() * n) by (nonlinear_arith)
            requires
                i == s.len() - 1,
        ;
        assert(flat(s).subrange(i * n, i * n + n) =~= s[i]);
    } else {
        lemma_flat_piece(t, n, i);
        assert(flat(s).subrange(i * n, i * n + n) =~= flat(t).subrange(i * n, i * n + n));
    }
}

/// Pieces that leave nothing over make up the whole.
pub proof fn lemma_flat_cut(s: Seq<u8>, n: int)
    requires
        n > 0,
        s.len() as int % n == 0,
    ensures
        flat(cut(s, n)) == s,
        forall|i: int| 0 <= i < cut(s, n).len() ==> (#[trigger] cut(s, n)[i]).len() == n,
{
    let q = s.len() as int / n;
    vstd::arithmetic::div_mod::lemma_fundamental_div_mod(s.len() as int, n);
    vstd::arithmetic::div_mod::lemma_div_pos_is_pos(s.len() as int, n);
    assert(q * n == n * q) by (nonlinear_arith);
    lemma_flat_first(s, n, q);
    assert(cut(s, n).take(q) =~= cut(s, n));
    assert(s.subrange(0, q * n) =~= s);
    assert forall|i: int| 0 <= i < cut(s, n).len() implies (#[trigger] cut(s, n)[i]).len() == n by {
        assert(0 <= i * n && i * n + n <= q * n) by (nonlinear_arith)
            requires
                0 <= i < q,
                n > 0,
        ;
    }
}

proof fn lemma_flat_first(s: Seq<u8>, n: int, k: int)
    requires
        n > 0,
        0 <= k <= cut(s, n).len(),
        cut(s, n).len() * n <= s.len(),
    ensures
        0 <= k * n <= s.len(),
        flat(cut(s, n).take(k)) == s.subrange(0, k * n),
    decreases k,
{
    let c = cut(s, n);
    assert(0 <= k * n <= c.len() * n) by (nonlinear_arith)
        requires
            0 <= k <= c.len(),
            n > 0,
    ;
    if k > 0 {
        lemma_flat_first(s, n, k - 1);
        assert(c.take(k).drop_last() =~= c.take(k - 1));
        assert((k - 1) * n + n == k * n) by (nonlinear_arith);
        assert(s.subrange(0, (k - 1) * n) + s.subrange((k - 1) * n, (k - 1) * n + n)
            =~= s.subrange(0, k * n));
    } else {
        assert(s.subrange(0, 0 * n) =~= Seq::<u8>::empty());
    }
}

} // verus!
