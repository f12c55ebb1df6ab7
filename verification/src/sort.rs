//! A merge sort over any type with a total order.

use vstd::multiset::Multiset;
use vstd::prelude::*;

verus! {

/// A type whose values sort.
pub trait Ranked: Sized + Copy {
    /// This value may stand before `other`.
    spec fn ranks_le(self, other: Self) -> bool;

    /// Of two values, one may stand before the other.
    proof fn rank_total(a: Self, b: Self)
        ensures
            a.ranks_le(b) || b.ranks_le(a),
    ;

    /// The order is transitive.
    proof fn rank_transitive(a: Self, b: Self, c: Self)
        requires
            a.ranks_le(b),
            b.ranks_le(c),
        ensures
            a.ranks_le(c),
    ;

    /// Whether this value may stand before `other`.
    fn rank_le(&self, other: &Self) -> (le: bool)
        ensures
            le == self.ranks_le(*other),
    ;
}

/// Each value may stand before each later one.
pub open spec fn ranked<T: Ranked>(s: Seq<T>) -> bool {
    forall|i: int, j: int| 0 <= i < j < s.len() ==> (#[trigger] s[i]).ranks_le(#[trigger] s[j])
}

/// Merge two sorted lists into one.
fn merge<T: Ranked>(a: &Vec<T>, b: &Vec<T>) -> (out: Vec<T>)
    requires
        ranked(a@),
        ranked(b@),
    ensures
        ranked(out@),
        out@.to_multiset() == a@.to_multiset().add(b@.to_multiset()),
{
    let mut out: Vec<T> = Vec::new();
    let mut i: usize = 0;
    let mut j: usize = 0;
    proof {
        assert(a@.take(0) =~= Seq::<T>::empty());
        assert(b@.take(0) =~= Seq::<T>::empty());
        assert(out@ =~= Seq::<T>::empty());
        broadcast use vstd::seq_lib::group_to_multiset_ensures;
        assert(Seq::<T>::empty().to_multiset() =~= Multiset::<T>::empty());
        assert(out@.to_multiset() =~= a@.take(0).to_multiset().add(b@.take(0).to_multiset()));
    }
    while i < a.len() || j < b.len()
        invariant
            i <= a.len(),
            j <= b.len(),
            ranked(a@),
            ranked(b@),
            ranked(out@),
            out@.to_multiset() == a@.take(i as int).to_multiset().add(b@.take(j as int).to_multiset()),
            forall|k: int, m: int|
                0 <= k < out.len() && i <= m < a.len() ==> (#[trigger] out@[k]).ranks_le(
                    #[trigger] a@[m],
                ),
            forall|k: int, m: int|
                0 <= k < out.len() && j <= m < b.len() ==> (#[trigger] out@[k]).ranks_le(
                    #[trigger] b@[m],
                ),
        decreases a.len() - i + b.len() - j,
    {
        let from_a = if i < a.len() && j < b.len() {
            a[i].rank_le(&b[j])
        } else {
            i < a.len()
        };
        let ghost before = out@;
        if from_a {
            proof {
                broadcast use vstd::seq_lib::group_to_multiset_ensures;
                assert(a@.take(i + 1) =~= a@.take(i as int).push(a@[i as int]));
                if j < b.len() {
                    assert forall|m: int| j <= m < b.len() implies (a@[i as int]).ranks_le(
                        #[trigger] b@[m],
                    ) by {
                        if m > j {
                            T::rank_transitive(a@[i as int], b@[j as int], b@[m]);
                        }
                    }
                }
            }
            out.push(a[i]);
            i = i + 1;
        } else {
            proof {
                broadcast use vstd::seq_lib::group_to_multiset_ensures;
                assert(b@.take(j + 1) =~= b@.take(j as int).push(b@[j as int]));
                if i < a.len() {
                    T::rank_total(a@[i as int], b@[j as int]);
                    assert forall|m: int| i <= m < a.len() implies (b@[j as int]).ranks_le(
                        #[trigger] a@[m],
                    ) by {
                        if m > i {
                            T::rank_transitive(b@[j as int], a@[i as int], a@[m]);
                        }
                    }
                }
            }
            out.push(b[j]);
            j = j + 1;
        }
        proof {
            broadcast use vstd::seq_lib::group_to_multiset_ensures;
            assert(out@ == before.push(out@[before.len() as int]));
            assert(out@.to_multiset() =~= a@.take(i as int).to_multiset().add(
                b@.take(j as int).to_multiset(),
            ));
        }
    }
    assert(a@.take(i as int) =~= a@);
    assert(b@.take(j as int) =~= b@);
    out
}

/// The values of `v` in order.
pub fn merge_sort<T: Ranked>(v: &[T]) -> (out: Vec<T>)
    ensures
        ranked(out@),
        out@.to_multiset() == v@.to_multiset(),
    decreases v.len(),
{
    let n: usize = v.len();
    if n <= 1 {
        let out = vstd::slice::slice_to_vec(v);
        out
    } else {
        let mid: usize = n / 2;
        let left = merge_sort(vstd::slice::slice_subrange(v, 0, mid));
        let right = merge_sort(vstd::slice::slice_subrange(v, mid, n));
        let out = merge(&left, &right);
        proof {
            let a = v@.subrange(0, mid as int);
            let b = v@.subrange(mid as int, n as int);
            assert(a + b =~= v@);
            vstd::seq_lib::lemma_multiset_commutative(a, b);
        }
        out
    }
}

} // verus!
