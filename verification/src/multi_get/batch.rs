//! The keys of a batch.

use bytes::Bytes;
use vstd::prelude::*;

use crate::octets::{
    as_slice,
    bytes_of,
    contents,
    key_eq,
    key_le,
    lemma_lex_antisymmetric,
    lemma_lex_total,
    lemma_lex_transitive,
    lex_le,
    lex_lt,
    order_keys,
    KeyOrder,
};
use crate::sort::{merge_sort, ranked, Ranked};

verus! {

/// Each key comes strictly before each later one.
pub open spec fn sorted_keys(keys: Seq<Seq<u8>>) -> bool {
    forall|i: int, j: int|
        0 <= i < j < keys.len() ==> lex_lt(#[trigger] keys[i], #[trigger] keys[j])
}

/// The keys of a batch: sorted, with no duplicates.
#[derive(Debug)]
pub struct BatchKeys {
    pub keys: Vec<Bytes>,
    /// For each input position, the index of its key in `keys`.
    pub slots: Vec<usize>,
}

/// One input key with its position.
#[derive(Clone, Copy)]
struct Position<'a> {
    key: &'a [u8],
    at: usize,
}

impl<'a> Ranked for Position<'a> {
    closed spec fn ranks_le(self, other: Self) -> bool {
        lex_le(self.key@, other.key@)
    }

    proof fn rank_total(a: Self, b: Self) {
        lemma_lex_total(a.key@, b.key@);
    }

    proof fn rank_transitive(a: Self, b: Self, c: Self) {
        lemma_lex_transitive(a.key@, b.key@, c.key@);
    }

    fn rank_le(&self, other: &Self) -> bool {
        key_le(self.key, other.key)
    }
}

impl BatchKeys {
    /// The batch stands for `input`: its keys are exactly those of the input,
    /// each one time and in order, and each input position knows its key.
    pub open spec fn stands_for(self, input: Seq<Seq<u8>>) -> bool {
        &&& sorted_keys(contents(self.keys@))
        &&& self.slots.len() == input.len()
        &&& forall|i: int|
            0 <= i < input.len() ==> (#[trigger] self.slots[i]) < self.keys.len()
                && contents(self.keys@)[self.slots[i] as int] == input[i]
        &&& forall|u: int|
            0 <= u < self.keys.len() ==> #[trigger] input.contains(contents(self.keys@)[u])
    }

    pub fn new(input: &[&[u8]]) -> (batch: Self)
        ensures
            batch.stands_for(input@.map_values(|key: &[u8]| key@)),
    {
        let ghost wanted = input@.map_values(|key: &[u8]| key@);
        let n: usize = input.len();
        let mut order: Vec<Position> = Vec::new();
        let mut slots: Vec<usize> = Vec::new();
        for i in 0..n
            invariant
                n == input@.len(),
                order@.len() == i,
                slots@.len() == i,
                forall|k: int|
                    0 <= k < i ==> (#[trigger] order@[k]).at == k && order@[k].key == input@[k],
        {
            order.push(Position { key: input[i], at: i });
            slots.push(0);
        }
        let sorted = merge_sort(order.as_slice());
        proof {
            broadcast use vstd::seq_lib::group_to_multiset_ensures;
            assert forall|k: int| 0 <= k < sorted@.len() implies (#[trigger] sorted@[k]).at < n
                && sorted@[k].key@ == wanted[sorted@[k].at as int] by {
                assert(sorted@.contains(sorted@[k]));
                assert(order@.to_multiset().count(sorted@[k]) > 0);
                assert(order@.contains(sorted@[k]));
            }
            assert forall|i: int| 0 <= i < n implies #[trigger] sorted@.contains(order@[i]) by {
                assert(order@.contains(order@[i]));
                assert(sorted@.to_multiset().count(order@[i]) > 0);
            }
        }
        let mut keys: Vec<Bytes> = Vec::new();
        assert(contents(keys@) =~= Seq::<Seq<u8>>::empty());
        for k in 0..sorted.len()
            invariant
                slots@.len() == n,
                n == wanted.len(),
                ranked(sorted@),
                forall|j: int|
                    0 <= j < sorted@.len() ==> (#[trigger] sorted@[j]).at < n && sorted@[j].key@
                        == wanted[sorted@[j].at as int],
                sorted_keys(contents(keys@)),
                k > 0 ==> keys@.len() > 0 && contents(keys@).last() == sorted@[k - 1].key@,
                k == 0 ==> keys@.len() == 0,
                forall|j: int|
                    0 <= j < k ==> slots@[(#[trigger] sorted@[j]).at as int] < keys@.len()
                        && contents(keys@)[slots@[sorted@[j].at as int] as int] == sorted@[j].key@,
                forall|u: int| 0 <= u < keys@.len() ==> #[trigger] wanted.contains(contents(keys@)[u]),
        {
            let position = sorted[k];
            let ghost before = contents(keys@);
            let ghost key = position.key@;
            let fresh = keys.len() == 0 || !key_eq(as_slice(&keys[keys.len() - 1]), position.key);
            if fresh {
                keys.push(bytes_of(position.key));
                proof {
                    assert(contents(keys@) =~= before.push(key));
                    assert(wanted[position.at as int] == key);
                    if before.len() > 0 {
                        assert(k > 0);
                        assert(sorted@[k - 1].ranks_le(sorted@[k as int]));
                        assert(lex_lt(before.last(), key));
                    }
                    assert forall|i: int, j: int| 0 <= i < j < contents(keys@).len() implies lex_lt(
                        #[trigger] contents(keys@)[i],
                        #[trigger] contents(keys@)[j],
                    ) by {
                        if j == before.len() && i < j - 1 {
                            assert(lex_lt(before[i], before[j - 1]));
                            lemma_lex_transitive(before[i], before[j - 1], key);
                            if before[i] == key {
                                lemma_lex_antisymmetric(before[j - 1], key);
                            }
                        }
                    }
                }
            }
            let last: usize = keys.len() - 1;
            slots.set(position.at, last);
        }
        let batch = BatchKeys { keys, slots };
        proof {
            assert forall|i: int| 0 <= i < wanted.len() implies (#[trigger] batch.slots[i])
                < batch.keys.len() && contents(batch.keys@)[batch.slots[i] as int] == wanted[i] by {
                assert(sorted@.contains(order@[i]));
                let j = choose|j: int| 0 <= j < sorted@.len() && sorted@[j] == order@[i];
                assert(sorted@[j].at == i);
            }
        }
        batch
    }

    /// The index of `key` in the keys of the batch.
    pub fn position(&self, key: &[u8]) -> (at: Option<usize>)
        requires
            sorted_keys(contents(self.keys@)),
        ensures
            match at {
                Some(u) => u < self.keys.len() && contents(self.keys@)[u as int] == key@,
                None => !contents(self.keys@).contains(key@),
            },
    {
        let ghost all = contents(self.keys@);
        let mut low: usize = 0;
        let mut high: usize = self.keys.len();
        while low < high
            invariant
                low <= high <= self.keys.len(),
                all == contents(self.keys@),
                sorted_keys(all),
                forall|i: int| 0 <= i < low ==> #[trigger] all[i] != key@,
                forall|i: int| high <= i < all.len() ==> #[trigger] all[i] != key@,
            decreases high - low,
        {
            let mid: usize = low + (high - low) / 2;
            match order_keys(as_slice(&self.keys[mid]), key) {
                KeyOrder::Equal => {
                    return Some(mid);
                },
                KeyOrder::Less => {
                    proof {
                        assert forall|i: int| 0 <= i <= mid implies #[trigger] all[i] != key@ by {
                            if all[i] == key@ && i < mid {
                                lemma_lex_antisymmetric(all[mid as int], key@);
                            }
                        }
                    }
                    low = mid + 1;
                },
                KeyOrder::Greater => {
                    proof {
                        lemma_lex_total(all[mid as int], key@);
                        assert forall|i: int| mid <= i < all.len() implies #[trigger] all[i]
                            != key@ by {
                            if all[i] == key@ && i > mid {
                                assert(lex_lt(all[mid as int], all[i]));
                            }
                        }
                    }
                    high = mid;
                },
            }
        }
        None
    }
}

/// Two sorted lists with the same keys are the same.
proof fn lemma_same_keys(a: Seq<Seq<u8>>, b: Seq<Seq<u8>>)
    requires
        sorted_keys(a),
        sorted_keys(b),
        forall|k: Seq<u8>| #[trigger] a.contains(k) <==> b.contains(k),
    ensures
        a == b,
    decreases a.len(),
{
    if a.len() == 0 {
        if b.len() > 0 {
            assert(b.contains(b[0]));
            assert(a.contains(b[0]));
        }
        assert(a =~= b);
    } else {
        assert(a.contains(a[0]));
        assert(b.contains(a[0]));
        let m = a.len() - 1;
        let n = b.len() - 1;
        let x = a[m];
        let y = b[n];
        assert(a.contains(x));
        assert(b.contains(x));
        assert(b.contains(y));
        assert(a.contains(y));
        let i = choose|i: int| 0 <= i < b.len() && b[i] == x;
        let j = choose|j: int| 0 <= j < a.len() && a[j] == y;
        assert(x == y) by {
            if i < n && j < m {
                assert(lex_lt(b[i], b[n]));
                assert(lex_lt(a[j], a[m]));
                lemma_lex_antisymmetric(x, y);
            }
        }
        let fa = a.drop_last();
        let fb = b.drop_last();
        assert forall|i: int, j: int| 0 <= i < j < fa.len() implies lex_lt(
            #[trigger] fa[i],
            #[trigger] fa[j],
        ) by {
            assert(lex_lt(a[i], a[j]));
        }
        assert forall|i: int, j: int| 0 <= i < j < fb.len() implies lex_lt(
            #[trigger] fb[i],
            #[trigger] fb[j],
        ) by {
            assert(lex_lt(b[i], b[j]));
        }
        assert forall|k: Seq<u8>| #[trigger] fa.contains(k) <==> fb.contains(k) by {
            if fa.contains(k) {
                let p = choose|p: int| 0 <= p < fa.len() && fa[p] == k;
                assert(lex_lt(a[p], a[m]));
                assert(a[p] == k);
                assert(a.contains(k));
                let q = choose|q: int| 0 <= q < b.len() && b[q] == k;
                assert(fb[q] == k);
            }
            if fb.contains(k) {
                let p = choose|p: int| 0 <= p < fb.len() && fb[p] == k;
                assert(lex_lt(b[p], b[n]));
                assert(b[p] == k);
                assert(b.contains(k));
                assert(a.contains(k));
                let q = choose|q: int| 0 <= q < a.len() && a[q] == k;
                assert(fa[q] == k);
            }
        }
        lemma_same_keys(fa, fb);
        assert(a =~= fa.push(x));
        assert(b =~= fb.push(y));
    }
}

/// The keys of a batch rest on which keys the input holds, and not on their
/// order or on duplicates. An input position of one input that has the key of
/// a position of the other has the same slot.
pub proof fn law_the_keys_rest_on_the_set_of_inputs(
    a: BatchKeys,
    b: BatchKeys,
    x: Seq<Seq<u8>>,
    y: Seq<Seq<u8>>,
)
    requires
        a.stands_for(x),
        b.stands_for(y),
        forall|k: Seq<u8>| #[trigger] x.contains(k) <==> y.contains(k),
    ensures
        contents(a.keys@) == contents(b.keys@),
        forall|i: int, j: int|
            0 <= i < x.len() && 0 <= j < y.len() && x[i] == y[j] ==> (#[trigger] a.slots@[i]) == (
            #[trigger] b.slots@[j]),
{
    let keys = contents(a.keys@);
    let others = contents(b.keys@);
    lemma_keys_are_the_inputs(a, x);
    lemma_keys_are_the_inputs(b, y);
    assert forall|k: Seq<u8>| #[trigger] keys.contains(k) <==> others.contains(k) by {
        assert(x.contains(k) <==> y.contains(k));
    }
    lemma_same_keys(keys, others);
    assert forall|i: int, j: int|
        0 <= i < x.len() && 0 <= j < y.len() && x[i] == y[j] implies (#[trigger] a.slots@[i]) == (
    #[trigger] b.slots@[j]) by {
        assert(a.slots[i] < a.keys.len() && keys[a.slots[i] as int] == x[i]);
        assert(b.slots[j] < b.keys.len() && others[b.slots[j] as int] == y[j]);
        let p = a.slots@[i] as int;
        let q = b.slots@[j] as int;
        if p < q {
            assert(lex_lt(keys[p], keys[q]));
        }
        if q < p {
            assert(lex_lt(keys[q], keys[p]));
        }
    }
}

/// The keys of a batch are those of its input.
proof fn lemma_keys_are_the_inputs(batch: BatchKeys, input: Seq<Seq<u8>>)
    requires
        batch.stands_for(input),
    ensures
        forall|k: Seq<u8>| #[trigger] contents(batch.keys@).contains(k) <==> input.contains(k),
{
    let keys = contents(batch.keys@);
    assert forall|k: Seq<u8>| #[trigger] keys.contains(k) <==> input.contains(k) by {
        if keys.contains(k) {
            let u = choose|u: int| 0 <= u < keys.len() && keys[u] == k;
            assert(input.contains(contents(batch.keys@)[u]));
        }
        if input.contains(k) {
            let i = choose|i: int| 0 <= i < input.len() && input[i] == k;
            assert(batch.slots[i] < batch.keys.len() && keys[batch.slots[i] as int] == input[i]);
        }
    }
}

} // verus!
