//! Key spaces that are cut into consecutive partitions.
//!
//! A sorted run is cut into SSTs, and an SST is cut into blocks. Each
//! partition knows only its first key. The versions of one key can cross the
//! border of two partitions, so a key can belong to more than one of them.

use core::ops::Range;
use vstd::prelude::*;

use crate::octets::{key_le, lemma_lex_lt_is_not_ge, lemma_lex_transitive, lex_le};

verus! {

/// No start key comes before an earlier one.
pub open spec fn ascending(starts: Seq<Seq<u8>>) -> bool {
    forall|i: int, j: int| 0 <= i <= j < starts.len() ==> lex_le(#[trigger] starts[i], #[trigger] starts[j])
}

/// Partition `i` can hold `key`: it starts at or before the key, and the next
/// partition starts at or after it. The last partition has no upper bound.
pub open spec fn covers(starts: Seq<Seq<u8>>, i: int, key: Seq<u8>) -> bool {
    &&& 0 <= i < starts.len()
    &&& lex_le(starts[i], key)
    &&& i + 1 < starts.len() ==> lex_le(key, starts[i + 1])
}

/// A key space that is cut into partitions.
pub trait Partitioned {
    /// The first key of each partition.
    spec fn starts(&self) -> Seq<Seq<u8>>;

    /// The number of partitions.
    fn partitions(&self) -> (n: usize)
        ensures
            n == self.starts().len(),
    ;

    /// The first key of partition `i`.
    fn partition_start(&self, i: usize) -> (key: &[u8])
        requires
            i < self.starts().len(),
        ensures
            key@ == self.starts()[i as int],
    ;
}

/// The number of partitions that start at or before `key`.
pub fn partitions_started<P: Partitioned>(space: &P, key: &[u8]) -> (n: usize)
    requires
        ascending(space.starts()),
    ensures
        n <= space.starts().len(),
        forall|i: int| 0 <= i < n ==> lex_le(#[trigger] space.starts()[i], key@),
        forall|i: int| n <= i < space.starts().len() ==> !lex_le(#[trigger] space.starts()[i], key@),
{
    let mut low: usize = 0;
    let mut high: usize = space.partitions();
    while low < high
        invariant
            low <= high <= space.starts().len(),
            ascending(space.starts()),
            forall|i: int| 0 <= i < low ==> lex_le(#[trigger] space.starts()[i], key@),
            forall|i: int|
                high <= i < space.starts().len() ==> !lex_le(#[trigger] space.starts()[i], key@),
        decreases high - low,
    {
        let mid: usize = low + (high - low) / 2;
        let start = space.partition_start(mid);
        if key_le(start, key) {
            proof {
                assert forall|i: int| 0 <= i <= mid implies lex_le(#[trigger] space.starts()[i], key@) by {
                    lemma_lex_transitive(space.starts()[i], space.starts()[mid as int], key@);
                }
            }
            low = mid + 1;
        } else {
            proof {
                assert forall|i: int| mid <= i < space.starts().len() implies !lex_le(
                    #[trigger] space.starts()[i],
                    key@,
                ) by {
                    if lex_le(space.starts()[i], key@) {
                        lemma_lex_transitive(space.starts()[mid as int], space.starts()[i], key@);
                    }
                }
            }
            high = mid;
        }
    }
    low
}

/// The partitions that can hold `key`, when `last` is the last partition that
/// starts at or before it.
pub fn partitions_ending_at<P: Partitioned>(space: &P, key: &[u8], last: usize) -> (r: Range<usize>)
    requires
        ascending(space.starts()),
        last < space.starts().len(),
        lex_le(space.starts()[last as int], key@),
        last + 1 < space.starts().len() ==> !lex_le(space.starts()[last + 1], key@),
    ensures
        r.start <= last,
        r.end == last + 1,
        forall|i: int| r.start <= i < r.end <==> #[trigger] covers(space.starts(), i, key@),
{
    let ghost starts = space.starts();
    let count: usize = space.partitions();
    let mut first: usize = last;
    proof {
        assert(last < count);
        if last + 1 < starts.len() {
            lemma_lex_lt_is_not_ge(key@, starts[last + 1]);
        }
    }
    while first > 0 && key_le(key, space.partition_start(first))
        invariant
            ascending(space.starts()),
            starts == space.starts(),
            first <= last < starts.len(),
            lex_le(starts[last as int], key@),
            last + 1 < starts.len() ==> lex_le(key@, starts[last + 1]),
            forall|i: int| first < i <= last ==> lex_le(key@, #[trigger] starts[i]),
        decreases first,
    {
        first = first - 1;
    }
    proof {
        assert forall|i: int| first <= i < last + 1 <==> #[trigger] covers(starts, i, key@) by {
            if first <= i <= last {
                lemma_lex_transitive(starts[i], starts[last as int], key@);
                if i < last {
                    assert(lex_le(key@, starts[i + 1]));
                }
            }
            if covers(starts, i, key@) {
                if i > last {
                    lemma_lex_transitive(starts[last + 1], starts[i], key@);
                }
                if i < first {
                    lemma_lex_transitive(key@, starts[i + 1], starts[first as int]);
                }
            }
        }
    }
    first..last + 1
}

/// The partitions that can hold `key`. They are consecutive.
pub fn partitions_covering_key<P: Partitioned>(space: &P, key: &[u8]) -> (r: Range<usize>)
    requires
        ascending(space.starts()),
    ensures
        r.start <= r.end <= space.starts().len(),
        forall|i: int| r.start <= i < r.end <==> #[trigger] covers(space.starts(), i, key@),
{
    let started = partitions_started(space, key);
    if started == 0 {
        return 0..0;
    }
    partitions_ending_at(space, key, started - 1)
}

/// A partition covers the keys from its start to the start of the next one,
/// both of them too, and the last one covers all keys from its start on.
pub proof fn law_a_partition_covers_the_keys_up_to_the_next(
    starts: Seq<Seq<u8>>,
    i: int,
    key: Seq<u8>,
)
    requires
        0 <= i < starts.len(),
    ensures
        covers(starts, i, key) ==> lex_le(starts[i], key),
        covers(starts, i, key) && i < starts.len() - 1 ==> lex_le(key, starts[i + 1]),
        i < starts.len() - 1 && lex_le(starts[i], key) && lex_le(key, starts[i + 1]) ==> covers(
            starts,
            i,
            key,
        ),
        i == starts.len() - 1 && lex_le(starts[i], key) ==> covers(starts, i, key),
{
}

} // verus!
