//! The inside of an SST: its index, its blocks, and the reads of both.

use bytes::Bytes;
use core::ops::Range;
use std::sync::Arc;
use vstd::prelude::*;

use crate::octets::{as_slice, content, contents, share};
use crate::partitions::{ascending, covers, partitions_covering_key, Partitioned};
use crate::sort::{merge_sort, ranked, Ranked};
use crate::types::{rows, EntryView, RowEntry};

verus! {

/// The index of an SST: where its blocks start, in the key space and in the
/// object.
#[derive(Debug)]
pub struct SsTableIndex {
    /// No key of a block comes before its first key, and no key of the block
    /// before it comes after.
    pub first_keys: Vec<Bytes>,
    /// The byte offset of each block, and the end of the last block.
    pub offsets: Vec<u64>,
}

impl Partitioned for SsTableIndex {
    open spec fn starts(&self) -> Seq<Seq<u8>> {
        contents(self.first_keys@)
    }

    fn partitions(&self) -> usize {
        self.first_keys.len()
    }

    fn partition_start(&self, i: usize) -> &[u8] {
        as_slice(&self.first_keys[i])
    }
}

/// Offsets that never go back.
pub open spec fn offsets_in_order(offsets: Seq<u64>) -> bool {
    forall|i: int, j: int| 0 <= i <= j < offsets.len() ==> (#[trigger] offsets[i]) <= (
    #[trigger] offsets[j])
}

impl SsTableIndex {
    /// The blocks are in order.
    pub open spec fn wf(self) -> bool {
        &&& ascending(self.starts())
        &&& self.offsets.len() == self.first_keys.len() + 1
        &&& offsets_in_order(self.offsets@)
    }

    /// Whether the SST has no block.
    pub fn is_empty(&self) -> (empty: bool)
        ensures
            empty == (self.starts().len() == 0),
    {
        self.first_keys.len() == 0
    }
}

/// One decoded block: its rows in key order, and the versions of one key
/// newest first.
#[derive(Debug)]
pub struct Block {
    pub entries: Vec<RowEntry>,
}

/// The rows of a block.
pub open spec fn block_rows(block: Arc<Block>) -> Seq<EntryView> {
    rows(block.entries@)
}

/// A key of the batch with the slot that it resolves into.
#[derive(Debug)]
pub struct PendingKey {
    /// The index of the key in the keys of the batch.
    pub idx: usize,
    pub key: Bytes,
}

/// What a [`PendingKey`] says.
pub struct PendingView {
    pub idx: usize,
    pub key: Seq<u8>,
}

impl View for PendingKey {
    type V = PendingView;

    open spec fn view(&self) -> PendingView {
        PendingView { idx: self.idx, key: content(self.key) }
    }
}

impl Clone for PendingKey {
    fn clone(&self) -> (copy: Self)
        ensures
            copy@ == self@,
    {
        PendingKey { idx: self.idx, key: share(&self.key) }
    }
}

/// What a list of keys says.
pub open spec fn pending_views(keys: Seq<PendingKey>) -> Seq<PendingView> {
    keys.map_values(|key: PendingKey| key@)
}

/// A key with the block range that can hold its versions.
#[derive(Debug)]
pub struct KeyBlocks {
    pub key: PendingKey,
    pub blocks: Range<usize>,
}

/// The entries that one SST holds for one key of the batch.
#[derive(Debug)]
pub struct KeyEntries {
    /// The slot of the key, as in [`PendingKey::idx`].
    pub idx: usize,
    /// Newest first, and never empty.
    pub entries: Vec<RowEntry>,
}

/// What a [`KeyEntries`] says.
pub struct FoundView {
    pub idx: usize,
    pub entries: Seq<EntryView>,
}

impl View for KeyEntries {
    type V = FoundView;

    open spec fn view(&self) -> FoundView {
        FoundView { idx: self.idx, entries: rows(self.entries@) }
    }
}

/// What a list of found keys says.
pub open spec fn found_views(found: Seq<KeyEntries>) -> Seq<FoundView> {
    found.map_values(|key: KeyEntries| key@)
}

// ---------------------------------------------------------------------------
// The blocks of the keys
// ---------------------------------------------------------------------------

/// The blocks of `range` are those that can hold the key.
pub open spec fn covering(range: Range<usize>, starts: Seq<Seq<u8>>, key: Seq<u8>) -> bool {
    &&& range.start <= range.end <= starts.len()
    &&& forall|b: int| range.start <= b < range.end <==> #[trigger] covers(starts, b, key)
}

/// Each key has the blocks that can hold it.
pub open spec fn mapped(keys: Seq<KeyBlocks>, starts: Seq<Seq<u8>>) -> bool {
    forall|i: int|
        0 <= i < keys.len() ==> covering(
            (#[trigger] keys[i]).blocks,
            starts,
            content(keys[i].key.key),
        )
}

/// The keys of a list with block ranges.
pub open spec fn mapped_keys(keys: Seq<KeyBlocks>) -> Seq<PendingView> {
    keys.map_values(|key: KeyBlocks| key.key@)
}

/// Map each key to the block range that may hold its versions. The versions
/// of a key can cross the border of two blocks.
pub fn key_blocks(keys: Vec<PendingKey>, index: &SsTableIndex) -> (mapped_to: Vec<KeyBlocks>)
    requires
        index.wf(),
    ensures
        mapped_keys(mapped_to@) == pending_views(keys@),
        mapped(mapped_to@, index.starts()),
{
    let mut mapped_to: Vec<KeyBlocks> = Vec::new();
    for key in it: keys
        invariant
            index.wf(),
            it.seq() == keys@,
            mapped_to@.len() == it.index(),
            mapped(mapped_to@, index.starts()),
            forall|i: int| 0 <= i < it.index() ==> (#[trigger] mapped_to@[i]).key == keys@[i],
    {
        let blocks = partitions_covering_key(index, as_slice(&key.key));
        mapped_to.push(KeyBlocks { key, blocks });
    }
    assert(mapped_keys(mapped_to@) =~= pending_views(keys@));
    mapped_to
}

impl Ranked for usize {
    open spec fn ranks_le(self, other: Self) -> bool {
        self <= other
    }

    proof fn rank_total(a: Self, b: Self) {
    }

    proof fn rank_transitive(a: Self, b: Self, c: Self) {
    }

    fn rank_le(&self, other: &Self) -> bool {
        *self <= *other
    }
}

/// Each number is greater than those before it.
pub open spec fn increasing(numbers: Seq<usize>) -> bool {
    forall|i: int, j: int| 0 <= i < j < numbers.len() ==> (#[trigger] numbers[i]) < (
    #[trigger] numbers[j])
}

/// Some key wants block `b`.
pub open spec fn wanted(keys: Seq<KeyBlocks>, b: usize) -> bool {
    exists|i: int|
        0 <= i < keys.len() && (#[trigger] keys[i]).blocks.start <= b < keys[i].blocks.end
}

/// The blocks that the keys want, in order and with no duplicates.
pub fn needed_blocks(keys: &Vec<KeyBlocks>) -> (needed: Vec<usize>)
    ensures
        increasing(needed@),
        forall|b: usize| #[trigger] needed@.contains(b) <==> wanted(keys@, b),
{
    let mut all: Vec<usize> = Vec::new();
    for i in 0..keys.len()
        invariant
            forall|b: usize| #[trigger] all@.contains(b) <==> wanted(keys@.take(i as int), b),
    {
        let ghost before = all@;
        let ghost past = keys@.take(i as int);
        let ghost now = keys@.take(i + 1);
        let start: usize = keys[i].blocks.start;
        let end: usize = keys[i].blocks.end;
        let mut b: usize = start;
        while b < end
            invariant
                start <= b,
                b <= end || b == start,
                forall|x: usize|
                    #[trigger] all@.contains(x) <==> before.contains(x) || start <= x < b,
            decreases end - b,
        {
            let ghost last = all@;
            all.push(b);
            proof {
                assert forall|x: usize| #[trigger] all@.contains(x) <==> before.contains(x) || start
                    <= x < b + 1 by {
                    if last.contains(x) {
                        let k = choose|k: int| 0 <= k < last.len() && last[k] == x;
                        assert(all@[k] == x);
                    }
                    if x == b {
                        assert(all@[last.len() as int] == b);
                    }
                    if all@.contains(x) && x != b {
                        let k = choose|k: int| 0 <= k < all@.len() && all@[k] == x;
                        assert(last[k] == x);
                    }
                }
            }
            b = b + 1;
        }
        proof {
            assert forall|x: usize| #[trigger] all@.contains(x) <==> wanted(now, x) by {
                if wanted(past, x) {
                    let k = choose|k: int|
                        0 <= k < past.len() && (#[trigger] past[k]).blocks.start <= x
                            < past[k].blocks.end;
                    assert(now[k] == past[k]);
                }
                if start <= x < end {
                    assert(now[i as int].blocks.start <= x < now[i as int].blocks.end);
                }
                if wanted(now, x) {
                    let k = choose|k: int|
                        0 <= k < now.len() && (#[trigger] now[k]).blocks.start <= x
                            < now[k].blocks.end;
                    if k < i {
                        assert(past[k] == now[k]);
                    }
                }
            }
        }
    }
    assert(keys@.take(keys@.len() as int) =~= keys@);
    let sorted = merge_sort(all.as_slice());
    let mut needed: Vec<usize> = Vec::new();
    for k in 0..sorted.len()
        invariant
            ranked(sorted@),
            increasing(needed@),
            k == 0 ==> needed@.len() == 0,
            k > 0 ==> needed@.len() > 0 && needed@.last() == sorted@[k - 1],
            forall|b: usize| #[trigger] needed@.contains(b) <==> sorted@.take(k as int).contains(b),
    {
        let b: usize = sorted[k];
        let ghost before = needed@;
        let ghost past = sorted@.take(k as int);
        let ghost now = sorted@.take(k + 1);
        if k > 0 {
            assert(sorted@[k - 1].ranks_le(sorted@[k as int]));
        }
        if needed.len() == 0 || needed[needed.len() - 1] != b {
            needed.push(b);
        }
        proof {
            assert forall|x: usize| #[trigger] needed@.contains(x) <==> now.contains(x) by {
                if before.contains(x) {
                    let j = choose|j: int| 0 <= j < before.len() && before[j] == x;
                    assert(needed@[j] == x);
                }
                if past.contains(x) {
                    let j = choose|j: int| 0 <= j < past.len() && past[j] == x;
                    assert(now[j] == x);
                }
                if x == b {
                    assert(now[k as int] == b);
                    assert(needed@[needed@.len() - 1] == b);
                }
                if now.contains(x) && x != b {
                    let j = choose|j: int| 0 <= j < now.len() && now[j] == x;
                    assert(past[j] == x);
                }
                if needed@.contains(x) && x != b {
                    let j = choose|j: int| 0 <= j < needed@.len() && needed@[j] == x;
                    assert(before[j] == x);
                }
            }
        }
    }
    proof {
        broadcast use vstd::seq_lib::group_to_multiset_ensures;
        assert(sorted@.take(sorted@.len() as int) =~= sorted@);
        assert forall|b: usize| #[trigger] needed@.contains(b) <==> wanted(keys@, b) by {
            assert(sorted@.contains(b) <==> sorted@.to_multiset().count(b) > 0);
            assert(all@.contains(b) <==> all@.to_multiset().count(b) > 0);
        }
    }
    needed
}

} // verus!
