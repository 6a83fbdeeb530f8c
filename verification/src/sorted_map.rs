//! An ordered map whose keys are byte strings.
//!
//! The model of a map is the list of its entries in key order, each key given as bytes. The
//! functions `rises`, `slot`, `with_entry` and `entry` say what such a list is and what becomes
//! of it.
use std::borrow::Cow;

use vstd::prelude::*;

use crate::lex::{bytes_eq, bytes_lt, lemma_lex_asymmetric, lemma_lex_transitive, lex_lt};

verus! {

/// The keys of a list of entries rise strictly.
pub open spec fn rises<V>(s: Seq<(Seq<u8>, V)>) -> bool {
    forall|i: int, j: int| #![trigger s[i], s[j]] 0 <= i < j < s.len() ==> lex_lt(s[i].0, s[j].0)
}

/// All keys before `p` are smaller than `key`, and no key from `p` on is.
pub open spec fn is_slot<V>(s: Seq<(Seq<u8>, V)>, key: Seq<u8>, p: int) -> bool {
    &&& 0 <= p <= s.len()
    &&& forall|i: int| 0 <= i < p ==> lex_lt((#[trigger] s[i]).0, key)
    &&& forall|i: int| p <= i < s.len() ==> !lex_lt((#[trigger] s[i]).0, key)
}

/// The position that belongs to `key` in a rising list of entries.
pub open spec fn slot<V>(s: Seq<(Seq<u8>, V)>, key: Seq<u8>) -> int {
    choose|p: int| is_slot(s, key, p)
}

/// The value that a list of entries holds under `key`: that of the last entry with this key.
pub open spec fn entry<V>(s: Seq<(Seq<u8>, V)>, key: Seq<u8>) -> Option<V>
    decreases s.len(),
{
    if s.len() == 0 {
        None
    } else if s.last().0 == key {
        Some(s.last().1)
    } else {
        entry(s.drop_last(), key)
    }
}

/// A rising list of entries after `value` has been put under `key`.
pub open spec fn with_entry<V>(s: Seq<(Seq<u8>, V)>, key: Seq<u8>, value: V) -> Seq<(Seq<u8>, V)> {
    let p = slot(s, key);
    if p < s.len() && s[p].0 == key {
        s.update(p, (key, value))
    } else {
        s.insert(p, (key, value))
    }
}

/// There is no more than one slot for a key.
pub proof fn lemma_slot<V>(s: Seq<(Seq<u8>, V)>, key: Seq<u8>, p: int)
    requires
        is_slot(s, key, p),
    ensures
        slot(s, key) == p,
{
    let q = slot(s, key);
    assert(is_slot(s, key, q));
    if p < q {
        assert(!lex_lt(s[p].0, key));
    } else if q < p {
        assert(lex_lt(s[q].0, key));
    }
}

/// In a rising list a key decides its entry.
pub proof fn lemma_entry_at<V>(s: Seq<(Seq<u8>, V)>, i: int)
    requires
        rises(s),
        0 <= i < s.len(),
    ensures
        entry(s, s[i].0) == Some(s[i].1),
    decreases s.len(),
{
    if i < s.len() - 1 {
        lemma_lex_asymmetric(s[i].0, s[s.len() - 1].0);
        let t = s.drop_last();
        assert forall|a: int, b: int| #![trigger t[a], t[b]] 0 <= a < b < t.len() implies lex_lt(
            t[a].0,
            t[b].0,
        ) by {
            assert(t[a] == s[a] && t[b] == s[b]);
        }
        lemma_entry_at(t, i);
    }
}

/// A key that does not occur has no entry.
pub proof fn lemma_no_entry<V>(s: Seq<(Seq<u8>, V)>, key: Seq<u8>)
    requires
        forall|i: int| 0 <= i < s.len() ==> (#[trigger] s[i]).0 != key,
    ensures
        entry(s, key) is None,
    decreases s.len(),
{
    if s.len() > 0 {
        assert(s[s.len() - 1].0 != key);
        assert(forall|i: int| 0 <= i < s.len() - 1 ==> s.drop_last()[i] == s[i]);
        lemma_no_entry(s.drop_last(), key);
    }
}

/// The entries of two lists, one behind the other.
pub proof fn lemma_entry_concat<V>(a: Seq<(Seq<u8>, V)>, b: Seq<(Seq<u8>, V)>, key: Seq<u8>)
    ensures
        entry(a + b, key) == match entry(b, key) {
            Some(v) => Some(v),
            None => entry(a, key),
        },
    decreases b.len(),
{
    if b.len() == 0 {
        assert(a + b =~= a);
    } else {
        assert((a + b).drop_last() =~= a + b.drop_last());
        lemma_entry_concat(a, b.drop_last(), key);
    }
}

/// Putting an entry into a rising list gives a rising list.
pub proof fn lemma_with_entry_rises<V>(s: Seq<(Seq<u8>, V)>, key: Seq<u8>, value: V, p: int)
    requires
        rises(s),
        is_slot(s, key, p),
        p < s.len() ==> s[p].0 == key || lex_lt(key, s[p].0),
    ensures
        rises(with_entry(s, key, value)),
{
    lemma_slot(s, key, p);
    let t = with_entry(s, key, value);
    assert forall|i: int, j: int| #![trigger t[i], t[j]] 0 <= i < j < t.len() implies lex_lt(
        t[i].0,
        t[j].0,
    ) by {
        if p < s.len() && s[p].0 == key {
            assert(t[i].0 == s[i].0);
            assert(t[j].0 == s[j].0);
        } else {
            if i == p {
                assert(t[j] == s[j - 1]);
                if j - 1 > p {
                    assert(lex_lt(s[p].0, s[j - 1].0));
                    lemma_lex_transitive(key, s[p].0, s[j - 1].0);
                }
            } else if j == p {
                assert(t[i] == s[i]);
            } else {
                let a = if i < p { i } else { i - 1 };
                let b = if j < p { j } else { j - 1 };
                assert(t[i] == s[a]);
                assert(t[j] == s[b]);
            }
        }
    }
}

/// An entry with the largest key goes to the end.
pub proof fn lemma_with_entry_last<V>(s: Seq<(Seq<u8>, V)>, key: Seq<u8>, value: V)
    requires
        rises(s),
        s.len() > 0 ==> lex_lt(s.last().0, key),
    ensures
        with_entry(s, key, value) == s.push((key, value)),
{
    assert forall|i: int| 0 <= i < s.len() implies lex_lt((#[trigger] s[i]).0, key) by {
        if i < s.len() - 1 {
            lemma_lex_transitive(s[i].0, s[s.len() - 1].0, key);
        }
    }
    lemma_slot(s, key, s.len() as int);
    assert(with_entry(s, key, value) =~= s.push((key, value)));
}

/// Every key has a slot in a rising list.
pub proof fn lemma_slot_exists<V>(s: Seq<(Seq<u8>, V)>, key: Seq<u8>)
    requires
        rises(s),
    ensures
        is_slot(s, key, slot(s, key)),
        slot(s, key) < s.len() ==> s[slot(s, key)].0 == key || lex_lt(key, s[slot(s, key)].0),
    decreases s.len(),
{
    if s.len() == 0 {
        lemma_slot(s, key, 0);
    } else if lex_lt(s.last().0, key) {
        assert forall|i: int| 0 <= i < s.len() implies lex_lt((#[trigger] s[i]).0, key) by {
            if i < s.len() - 1 {
                lemma_lex_transitive(s[i].0, s[s.len() - 1].0, key);
            }
        }
        lemma_slot(s, key, s.len() as int);
    } else {
        let t = s.drop_last();
        assert(rises(t)) by {
            assert forall|a: int, b: int| #![trigger t[a], t[b]] 0 <= a < b < t.len() implies lex_lt(
                t[a].0,
                t[b].0,
            ) by {
                assert(t[a] == s[a] && t[b] == s[b]);
            }
        }
        lemma_slot_exists(t, key);
        let p = slot(t, key);
        assert forall|i: int| 0 <= i < p implies lex_lt((#[trigger] s[i]).0, key) by {
            assert(t[i] == s[i]);
        }
        assert forall|i: int| p <= i < s.len() implies !lex_lt((#[trigger] s[i]).0, key) by {
            if i < s.len() - 1 {
                assert(t[i] == s[i]);
            }
        }
        lemma_slot(s, key, p);
        crate::lex::lemma_lex_total(s[p].0, key);
    }
}

/// The last value that is put under a key is the one that stays.
pub proof fn lemma_with_entry_twice<V>(s: Seq<(Seq<u8>, V)>, key: Seq<u8>, a: V, b: V)
    requires
        rises(s),
    ensures
        with_entry(with_entry(s, key, a), key, b) == with_entry(s, key, b),
{
    lemma_slot_exists(s, key);
    let p = slot(s, key);
    let t = with_entry(s, key, a);
    let found = p < s.len() && s[p].0 == key;
    assert forall|i: int| 0 <= i < p implies lex_lt((#[trigger] t[i]).0, key) by {
        assert(t[i] == s[i]);
    }
    assert forall|i: int| p <= i < t.len() implies !lex_lt((#[trigger] t[i]).0, key) by {
        if i == p {
            crate::lex::lemma_lex_irreflexive(key);
        } else if found {
            assert(t[i] == s[i]);
        } else {
            assert(t[i] == s[i - 1]);
        }
    }
    lemma_slot(t, key, p);
    assert(t[p].0 == key);
    assert(with_entry(t, key, b) =~= with_entry(s, key, b));
}

/// Putting an entry into a rising list gives a rising list under which the entry is found.
pub proof fn lemma_with_entry<V>(s: Seq<(Seq<u8>, V)>, key: Seq<u8>, value: V)
    requires
        rises(s),
    ensures
        rises(with_entry(s, key, value)),
        entry(with_entry(s, key, value), key) == Some(value),
{
    lemma_slot_exists(s, key);
    lemma_with_entry_rises(s, key, value, slot(s, key));
    lemma_entry_at(with_entry(s, key, value), slot(s, key));
}

/// Putting an entry into a rising list replaces the one with the same key, and no other.
pub proof fn lemma_with_entry_members<V>(s: Seq<(Seq<u8>, V)>, key: Seq<u8>, value: V)
    requires
        rises(s),
    ensures
        forall|e: (Seq<u8>, V)| #[trigger]
            with_entry(s, key, value).contains(e) <==> e == (key, value) || (s.contains(e) && e.0
                != key),
{
    lemma_slot_exists(s, key);
    let p = slot(s, key);
    let t = with_entry(s, key, value);
    let found = p < s.len() && s[p].0 == key;
    assert forall|i: int| 0 <= i < s.len() && (i != p || !found) implies (#[trigger] s[i]).0
        != key by {
        crate::lex::lemma_lex_irreflexive(key);
        if i > p {
            assert(lex_lt(s[p].0, s[i].0));
            if !found {
                lemma_lex_transitive(key, s[p].0, s[i].0);
            }
        }
    }
    assert(t[p] == (key, value));
    assert forall|e: (Seq<u8>, V)| #[trigger] t.contains(e) <==> e == (key, value) || (s.contains(e)
        && e.0 != key) by {
        if t.contains(e) {
            let i = choose|i: int| 0 <= i < t.len() && t[i] == e;
            if i != p {
                let k = if found || i < p {
                    i
                } else {
                    i - 1
                };
                assert(s[k] == e);
            }
        }
        if s.contains(e) && e.0 != key {
            let k = choose|k: int| 0 <= k < s.len() && s[k] == e;
            if found || k < p {
                assert(t[k] == e);
            } else {
                assert(t[k + 1] == e);
            }
        }
    }
}

/// The entries of a list with the models of their values.
pub open spec fn value_views<V: View>(s: Seq<(Seq<u8>, V)>) -> Seq<(Seq<u8>, V::V)> {
    Seq::new(s.len(), |i: int| (s[i].0, s[i].1@))
}

/// Putting a value into a list puts its model into the list of models.
pub proof fn lemma_views_with_entry<V: View>(s: Seq<(Seq<u8>, V)>, key: Seq<u8>, value: V)
    requires
        rises(s),
    ensures
        value_views(with_entry(s, key, value)) == with_entry(value_views(s), key, value@),
        rises(value_views(s)),
{
    lemma_slot_exists(s, key);
    let p = slot(s, key);
    let t = value_views(s);
    assert forall|i: int| 0 <= i < p implies lex_lt((#[trigger] t[i]).0, key) by {
        assert(t[i].0 == s[i].0);
    }
    assert forall|i: int| p <= i < t.len() implies !lex_lt((#[trigger] t[i]).0, key) by {
        assert(t[i].0 == s[i].0);
    }
    lemma_slot(t, key, p);
    assert(value_views(with_entry(s, key, value)) =~= with_entry(t, key, value@));
    assert forall|i: int, j: int| #![trigger t[i], t[j]] 0 <= i < j < t.len() implies lex_lt(
        t[i].0,
        t[j].0,
    ) by {
        assert(t[i].0 == s[i].0 && t[j].0 == s[j].0);
    }
}

/// The entry of a list of models is the model of the entry.
pub proof fn lemma_views_entry<V: View>(s: Seq<(Seq<u8>, V)>, key: Seq<u8>)
    ensures
        entry(value_views(s), key) == match entry(s, key) {
            Some(v) => Some(v@),
            None => None,
        },
    decreases s.len(),
{
    if s.len() > 0 {
        lemma_views_entry(s.drop_last(), key);
        assert(value_views(s).drop_last() =~= value_views(s.drop_last()));
    }
}

/// A key that is compared by the bytes it stands for.
pub trait ByteKey: Sized {
    /// The bytes that decide the order.
    spec fn key_bytes(&self) -> Seq<u8>;

    /// The bytes of this key.
    fn as_key(&self) -> (r: &[u8])
        ensures
            r@ == self.key_bytes(),
    ;

    /// A second key with the same bytes.
    fn duplicate(&self) -> (r: Self)
        ensures
            r.key_bytes() == self.key_bytes(),
    ;
}

impl<'a> ByteKey for &'a [u8] {
    open spec fn key_bytes(&self) -> Seq<u8> {
        self@
    }

    fn as_key(&self) -> (r: &[u8]) {
        *self
    }

    fn duplicate(&self) -> (r: Self) {
        *self
    }
}

impl ByteKey for [u8; 32] {
    open spec fn key_bytes(&self) -> Seq<u8> {
        self@
    }

    fn as_key(&self) -> (r: &[u8]) {
        self.as_slice()
    }

    fn duplicate(&self) -> (r: Self) {
        *self
    }
}

impl<'a> ByteKey for Cow<'a, str> {
    open spec fn key_bytes(&self) -> Seq<u8> {
        vstd::utf8::encode_utf8(self@)
    }

    fn as_key(&self) -> (r: &[u8]) {
        match self {
            Cow::Borrowed(s) => s.as_bytes(),
            Cow::Owned(s) => s.as_str().as_bytes(),
        }
    }

    fn duplicate(&self) -> (r: Self)
        ensures
            r@ == self@,
    {
        match self {
            Cow::Borrowed(s) => Cow::Borrowed(*s),
            Cow::Owned(s) => Cow::Owned(s.clone()),
        }
    }
}

/// A map ordered by the bytes of its keys, each of which occurs once.
#[derive(Debug, PartialEq, Eq)]
pub struct SortedMap<K: ByteKey, V> {
    entries: Vec<(K, V)>,
}

impl<K: ByteKey, V> View for SortedMap<K, V> {
    type V = Seq<(Seq<u8>, V)>;

    closed spec fn view(&self) -> Seq<(Seq<u8>, V)> {
        Seq::new(self.entries@.len(), |i: int| (self.entries@[i].0.key_bytes(), self.entries@[i].1))
    }
}

impl<V> SortedMap<[u8; 32], V> {
    /// The keys have 32 bytes.
    pub proof fn lemma_key_len(self)
        ensures
            forall|i: int| 0 <= i < self@.len() ==> (#[trigger] self@[i]).0.len() == 32,
    {
        assert forall|i: int| 0 <= i < self@.len() implies (#[trigger] self@[i]).0.len() == 32 by {
            assert(self@[i].0 == self.entries@[i].0@);
        }
    }
}

impl<'a, V> SortedMap<Cow<'a, str>, V> {
    /// The keys are valid UTF-8.
    pub proof fn lemma_keys_are_texts(self)
        ensures
            forall|i: int| 0 <= i < self@.len() ==> vstd::utf8::valid_utf8((#[trigger] self@[i]).0),
    {
        assert forall|i: int| 0 <= i < self@.len() implies vstd::utf8::valid_utf8(
            (#[trigger] self@[i]).0,
        ) by {
            vstd::utf8::encode_utf8_valid_utf8(self.entries@[i].0@);
        }
    }
}

impl<K: ByteKey, V> SortedMap<K, V> {
    #[verifier::type_invariant]
    spec fn inv(self) -> bool {
        rises(self@)
    }

    /// The keys, in order.
    pub closed spec fn keys(&self) -> Seq<K> {
        Seq::new(self.entries@.len(), |i: int| self.entries@[i].0)
    }

    /// A map is larger than each of its values.
    pub proof fn lemma_value_smaller(self, i: int)
        requires
            0 <= i < self@.len(),
        ensures
            decreases_to!(self => self@[i].1),
    {
        assert(decreases_to!(self => self.entries));
        assert(decreases_to!(self.entries => self.entries@));
        assert(decreases_to!(self.entries@ => self.entries@[i]));
        assert(decreases_to!(self.entries@[i] => self.entries@[i].1));
    }

    /// An empty map.
    pub fn new() -> (r: Self)
        ensures
            r@ == Seq::<(Seq<u8>, V)>::empty(),
            r.keys() == Seq::<K>::empty(),
    {
        let r = SortedMap { entries: Vec::new() };
        assert(r@ =~= Seq::<(Seq<u8>, V)>::empty());
        assert(r.keys() =~= Seq::<K>::empty());
        r
    }

    /// The number of entries.
    pub fn len(&self) -> (r: usize)
        ensures
            r == self@.len(),
            rises(self@),
    {
        proof {
            use_type_invariant(self);
        }
        self.entries.len()
    }

    /// Whether the map has no entries.
    pub fn is_empty(&self) -> (r: bool)
        ensures
            r == (self@.len() == 0),
    {
        self.entries.len() == 0
    }

    /// The key of the entry at position `i` of the key order.
    pub fn key_at(&self, i: usize) -> (r: &K)
        requires
            i < self@.len(),
        ensures
            r.key_bytes() == self@[i as int].0,
            *r == self.keys()[i as int],
    {
        &self.entries[i].0
    }

    /// The value of the entry at position `i` of the key order.
    pub fn value_at(&self, i: usize) -> (r: &V)
        requires
            i < self@.len(),
        ensures
            *r == self@[i as int].1,
    {
        &self.entries[i].1
    }

    /// The entries in key order.
    pub fn into_entries(self) -> (r: Vec<(K, V)>)
        ensures
            r@.len() == self@.len(),
            rises(self@),
            forall|i: int|
                0 <= i < r@.len() ==> (#[trigger] r@[i]).0.key_bytes() == self@[i].0 && r@[i].1
                    == self@[i].1,
    {
        proof {
            use_type_invariant(&self);
        }
        self.entries
    }

    /// The position that belongs to `key`.
    fn search(&self, key: &[u8]) -> (p: usize)
        ensures
            is_slot(self@, key@, p as int),
            rises(self@),
            p < self@.len() ==> self@[p as int].0 == key@ || lex_lt(key@, self@[p as int].0),
    {
        proof {
            use_type_invariant(self);
        }
        let mut low: usize = 0;
        let mut high: usize = self.entries.len();
        while low < high
            invariant
                rises(self@),
                low <= high <= self@.len(),
                self@.len() == self.entries@.len(),
                forall|i: int| 0 <= i < low ==> lex_lt((#[trigger] self@[i]).0, key@),
                forall|i: int| high <= i < self@.len() ==> !lex_lt((#[trigger] self@[i]).0, key@),
                high < self@.len() ==> self@[high as int].0 == key@ || lex_lt(
                    key@,
                    self@[high as int].0,
                ),
            decreases high - low,
        {
            let mid: usize = low + (high - low) / 2;
            assert(self@[mid as int].0 == self.entries@[mid as int].0.key_bytes());
            if bytes_lt(self.entries[mid].0.as_key(), key) {
                proof {
                    assert forall|i: int| 0 <= i <= mid implies lex_lt(
                        (#[trigger] self@[i]).0,
                        key@,
                    ) by {
                        if low <= i < mid {
                            lemma_lex_transitive(self@[i].0, self@[mid as int].0, key@);
                        }
                    }
                }
                low = mid + 1;
            } else {
                proof {
                    assert forall|i: int| mid <= i < self@.len() implies !lex_lt(
                        (#[trigger] self@[i]).0,
                        key@,
                    ) by {
                        if mid < i && lex_lt(self@[i].0, key@) {
                            lemma_lex_transitive(self@[mid as int].0, self@[i].0, key@);
                        }
                    }
                }
                high = mid;
            }
        }
        low
    }

    /// The value under `key`.
    pub fn get(&self, key: &[u8]) -> (r: Option<&V>)
        ensures
            match r {
                Some(v) => entry(self@, key@) == Some(*v),
                None => entry(self@, key@) is None,
            },
            rises(self@),
    {
        let p: usize = self.search(key);
        if p < self.entries.len() && bytes_eq(self.entries[p].0.as_key(), key) {
            proof {
                lemma_entry_at(self@, p as int);
            }
            Some(&self.entries[p].1)
        } else {
            proof {
                assert forall|i: int| 0 <= i < self@.len() implies (#[trigger] self@[i]).0
                    != key@ by {
                    if self@[i].0 == key@ {
                        crate::lex::lemma_lex_irreflexive(key@);
                        if p < i {
                            lemma_lex_transitive(key@, self@[p as int].0, self@[i].0);
                        }
                    }
                }
                lemma_no_entry(self@, key@);
            }
            None
        }
    }

    /// Puts `value` under `key` and gives back what was there before.
    pub fn insert(&mut self, key: K, value: V) -> (r: Option<V>)
        ensures
            final(self)@ == with_entry(old(self)@, key.key_bytes(), value),
            r == entry(old(self)@, key.key_bytes()),
            final(self).keys() == if r is Some {
                old(self).keys()
            } else {
                old(self).keys().insert(slot(old(self)@, key.key_bytes()), key)
            },
            old(self).keys().len() == old(self)@.len(),
            rises(old(self)@),
            rises(final(self)@),
    {
        let ghost before = self@;
        let ghost keys = self.keys();
        let ghost bytes = key.key_bytes();
        let p: usize = self.search(key.as_key());
        proof {
            lemma_slot(before, bytes, p as int);
            lemma_with_entry_rises(before, bytes, value, p as int);
        }
        let found: bool = p < self.entries.len() && bytes_eq(
            self.entries[p].0.as_key(),
            key.as_key(),
        );
        let mut entries: Vec<(K, V)> = Vec::new();
        std::mem::swap(&mut entries, &mut self.entries);
        let ghost taken = entries@;
        if found {
            proof {
                lemma_entry_at(before, p as int);
            }
            let old_entry: (K, V) = entries.remove(p);
            let (old_key, old_value) = old_entry;
            entries.insert(p, (old_key, value));
            proof {
                let after = SortedMap { entries }@;
                assert(after =~= with_entry(before, bytes, value)) by {
                    assert(entries@ =~= taken.update(p as int, (old_key, value)));
                }
                assert(SortedMap { entries }.keys() =~= keys);
            }
            self.entries = entries;
            Some(old_value)
        } else {
            proof {
                assert forall|i: int| 0 <= i < before.len() implies (#[trigger] before[i]).0
                    != bytes by {
                    if before[i].0 == bytes {
                        crate::lex::lemma_lex_irreflexive(bytes);
                        if p < i {
                            lemma_lex_transitive(bytes, before[p as int].0, before[i].0);
                        }
                    }
                }
                lemma_no_entry(before, bytes);
            }
            entries.insert(p, (key, value));
            proof {
                let after = SortedMap { entries }@;
                assert(after =~= with_entry(before, bytes, value)) by {
                    assert(entries@ =~= taken.insert(p as int, (key, value)));
                }
                assert(SortedMap { entries }.keys() =~= keys.insert(p as int, key));
            }
            self.entries = entries;
            None
        }
    }
}

} // verus!
