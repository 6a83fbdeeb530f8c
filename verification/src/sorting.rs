//! Sorting of values by a total order of their models.
use vstd::multiset::Multiset;
use vstd::prelude::*;
use vstd::relations::{sorted_by, total_ordering};
use vstd::seq_lib::lemma_sorted_unique;

verus! {

/// A type whose values are totally ordered by their models.
pub trait Ranked: View + Sized {
    /// The order.
    spec fn le_spec() -> spec_fn(Self::V, Self::V) -> bool;

    proof fn lemma_total()
        ensures
            total_ordering(Self::le_spec()),
    ;

    /// Whether this value does not come behind `other`.
    fn le(&self, other: &Self) -> (r: bool)
        ensures
            r == (Self::le_spec())(self@, other@),
    ;
}

/// The models of some values.
pub open spec fn views<T: View>(s: Seq<T>) -> Seq<T::V> {
    Seq::new(s.len(), |i: int| s[i]@)
}

proof fn lemma_views_push<T: View>(s: Seq<T>, x: T)
    ensures
        views(s.push(x)) == views(s).push(x@),
        views(s.push(x)).to_multiset() == views(s).to_multiset().insert(x@),
{
    broadcast use vstd::seq_lib::group_to_multiset_ensures;

    assert(views(s.push(x)) =~= views(s).push(x@));
}

proof fn lemma_views_pop<T: View>(s: Seq<T>)
    requires
        s.len() > 0,
    ensures
        views(s.drop_last()).to_multiset().insert(s.last()@) == views(s).to_multiset(),
{
    lemma_views_push(s.drop_last(), s.last());
    assert(s.drop_last().push(s.last()) =~= s);
}

/// Each value of `s` comes no earlier than each of `t`.
spec fn above<T: Ranked>(s: Seq<T>, t: Seq<T>) -> bool {
    forall|i: int, j: int|
        0 <= i < s.len() && 0 <= j < t.len() ==> #[trigger] (T::le_spec())(t[j]@, s[i]@)
}

/// Each value comes no later than the one before it.
spec fn falls<T: Ranked>(s: Seq<T>) -> bool {
    forall|i: int, j: int| 0 <= i < j < s.len() ==> #[trigger] (T::le_spec())(s[j]@, s[i]@)
}

spec fn climbs<T: Ranked>(s: Seq<T>) -> bool {
    forall|i: int, j: int| 0 <= i < j < s.len() ==> #[trigger] (T::le_spec())(s[i]@, s[j]@)
}

/// Merges two sorted lists.
fn merge<T: Ranked>(left: Vec<T>, right: Vec<T>) -> (r: Vec<T>)
    requires
        climbs(left@),
        climbs(right@),
    ensures
        climbs(r@),
        views(r@).to_multiset() == views(left@).to_multiset().add(views(right@).to_multiset()),
{
    broadcast use vstd::multiset::group_multiset_axioms;

    let ghost all = views(left@).to_multiset().add(views(right@).to_multiset());
    let mut a: Vec<T> = left;
    let mut b: Vec<T> = right;
    let mut down: Vec<T> = Vec::with_capacity(a.len());
    assert(views(down@) =~= Seq::<T::V>::empty());
    proof {
        Seq::<T::V>::empty().to_multiset_ensures();
    }
    assert(views(down@).to_multiset() =~= Multiset::empty());
    assert(all =~= views(down@).to_multiset().add(views(a@).to_multiset()).add(
        views(b@).to_multiset(),
    ));
    while a.len() > 0 || b.len() > 0
        invariant
            climbs(a@),
            climbs(b@),
            falls(down@),
            above(down@, a@),
            above(down@, b@),
            all == views(down@).to_multiset().add(views(a@).to_multiset()).add(
                views(b@).to_multiset(),
            ),
        decreases a@.len() + b@.len(),
    {
        broadcast use vstd::multiset::group_multiset_axioms;

        let ghost a0 = a@;
        let ghost b0 = b@;
        let ghost down0 = down@;
        proof {
            T::lemma_total();
        }
        let from_right: bool = if a.len() == 0 {
            true
        } else if b.len() == 0 {
            false
        } else {
            a[a.len() - 1].le(&b[b.len() - 1])
        };
        if from_right {
            let x: T = b.pop().unwrap();
            proof {
                lemma_views_pop(b0);
                lemma_views_push(down0, x);
                assert(b@ =~= b0.drop_last());
                lemma_take_largest(a0, b0, down0, x);
            }
            down.push(x);
            assert(all =~= views(down@).to_multiset().add(views(a@).to_multiset()).add(
                views(b@).to_multiset(),
            ));
        } else {
            let x: T = a.pop().unwrap();
            proof {
                lemma_views_pop(a0);
                lemma_views_push(down0, x);
                assert(a@ =~= a0.drop_last());
                lemma_take_largest(b0, a0, down0, x);
            }
            down.push(x);
            assert(all =~= views(down@).to_multiset().add(views(a@).to_multiset()).add(
                views(b@).to_multiset(),
            ));
        }
    }
    let mut r: Vec<T> = Vec::with_capacity(down.len());
    assert(views(r@) =~= Seq::<T::V>::empty());
    assert(views(a@) =~= Seq::<T::V>::empty());
    assert(views(b@) =~= Seq::<T::V>::empty());
    assert(views(r@).to_multiset() =~= Multiset::empty());
    assert(all =~= views(r@).to_multiset().add(views(down@).to_multiset()));
    while down.len() > 0
        invariant
            falls(down@),
            climbs(r@),
            above(down@, r@),
            all == views(r@).to_multiset().add(views(down@).to_multiset()),
        decreases down@.len(),
    {
        broadcast use vstd::multiset::group_multiset_axioms;

        let ghost down0 = down@;
        let ghost r0 = r@;
        let x: T = down.pop().unwrap();
        proof {
            lemma_views_pop(down0);
            lemma_views_push(r0, x);
            assert(down@ =~= down0.drop_last());
            let le = T::le_spec();
            let r1 = r0.push(x);
            assert forall|i: int, j: int| 0 <= i < j < r1.len() implies #[trigger] le(
                r1[i]@,
                r1[j]@,
            ) by {
                if j == r0.len() {
                    assert(le(r0[i]@, down0[down0.len() - 1]@));
                }
            }
            assert forall|i: int, j: int|
                0 <= i < down@.len() && 0 <= j < r1.len() implies #[trigger] le(
                r1[j]@,
                down@[i]@,
            ) by {
                if j == r0.len() {
                    assert(le(down0[down0.len() - 1]@, down0[i]@));
                } else {
                    assert(le(r0[j]@, down0[i]@));
                }
            }
        }
        r.push(x);
        assert(all =~= views(r@).to_multiset().add(views(down@).to_multiset()));
    }
    assert(views(down@) =~= Seq::<T::V>::empty());
    assert(all =~= views(r@).to_multiset());
    r
}

/// Moving the larger of two last values to a falling list keeps everything in order.
proof fn lemma_take_largest<T: Ranked>(other: Seq<T>, from: Seq<T>, down: Seq<T>, x: T)
    requires
        climbs(other),
        climbs(from),
        falls(down),
        above(down, other),
        above(down, from),
        from.len() > 0,
        x == from.last(),
        other.len() > 0 ==> ((T::le_spec())(other.last()@, x@) || !(T::le_spec())(
            x@,
            other.last()@,
        )),
    ensures
        climbs(from.drop_last()),
        falls(down.push(x)),
        above(down.push(x), other),
        above(down.push(x), from.drop_last()),
{
    T::lemma_total();
    let le = T::le_spec();
    let d = down.push(x);
    let f = from.drop_last();
    assert forall|i: int, j: int| 0 <= i < j < d.len() implies #[trigger] le(d[j]@, d[i]@) by {
        if j == down.len() {
            assert(le(from[from.len() - 1]@, down[i]@));
        }
    }
    assert forall|i: int, j: int| 0 <= i < d.len() && 0 <= j < other.len() implies #[trigger] le(
        other[j]@,
        d[i]@,
    ) by {
        if i == down.len() {
            let last = other[other.len() - 1]@;
            if !le(last, x@) {
                assert(le(last, x@) || le(x@, last));
            }
            if j < other.len() - 1 {
                assert(le(other[j]@, other[other.len() - 1]@));
            } else {
                assert(le(last, last));
            }
            assert(le(other[j]@, last));
            assert(le(last, x@));
        }
    }
    assert forall|i: int, j: int| 0 <= i < d.len() && 0 <= j < f.len() implies #[trigger] le(
        f[j]@,
        d[i]@,
    ) by {
        if i == down.len() {
            assert(le(from[j]@, from[from.len() - 1]@));
        } else {
            assert(le(from[j]@, down[i]@));
        }
    }
    assert forall|i: int, j: int| 0 <= i < j < f.len() implies #[trigger] le(f[i]@, f[j]@) by {
        assert(le(from[i]@, from[j]@));
    }
}

fn sort_parts<T: Ranked>(v: Vec<T>) -> (r: Vec<T>)
    ensures
        climbs(r@),
        views(r@).to_multiset() == views(v@).to_multiset(),
    decreases v@.len(),
{
    if v.len() <= 1 {
        return v;
    }
    let ghost all = v@;
    let mut left: Vec<T> = v;
    let half: usize = left.len() / 2;
    let right: Vec<T> = left.split_off(half);
    proof {
        assert(views(left@) + views(right@) =~= views(all));
        vstd::seq_lib::lemma_multiset_commutative(views(left@), views(right@));
    }
    merge(sort_parts(left), sort_parts(right))
}

/// Sorts a list.
pub fn sort<T: Ranked>(v: Vec<T>) -> (r: Vec<T>)
    ensures
        views(r@) == views(v@).sort_by(T::le_spec()),
{
    let r = sort_parts(v);
    proof {
        T::lemma_total();
        let le = T::le_spec();
        views(v@).lemma_sort_by_ensures(le);
        assert(sorted_by(views(r@), le)) by {
            assert forall|i: int, j: int| 0 <= i < j < views(r@).len() implies #[trigger] le(
                views(r@)[i],
                views(r@)[j],
            ) by {
                assert(le(r@[i]@, r@[j]@));
            }
        }
        lemma_sorted_unique(views(r@), views(v@).sort_by(le), le);
    }
    r
}

} // verus!
