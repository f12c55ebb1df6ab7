//! How a batch reads one SST for a group of its keys.
//!
//! The read loads the index, takes the wanted blocks from the cache, merges
//! the missing blocks into ranges, fetches the ranges in parallel, and scans
//! the blocks for each key. [`SstRead`] is the state of such a read: it says
//! what it needs next, and it takes what came.

use core::ops::Range;
use std::collections::BTreeMap;
use std::sync::Arc;
use vstd::prelude::*;

use crate::coalesce::{
    blocks_in_order,
    coalesce_runs,
    coalesced,
    in_runs,
    law_runs_hold_the_blocks,
    runs_in_order,
};
use crate::config::MultiGetOptions;
use crate::partitions::{covers, Partitioned};
use crate::octets::content;
use crate::scan::{
    all_rows,
    describes,
    held_versions,
    law_scan_finds_each_version,
    read_rows,
    rows_in_order,
    scan,
    scanned,
};
use crate::sstable::{
    block_rows,
    covering,
    found_views,
    increasing,
    key_blocks,
    mapped,
    mapped_keys,
    needed_blocks,
    pending_views,
    wanted,
    Block,
    FoundView,
    KeyBlocks,
    KeyEntries,
    PendingKey,
    PendingView,
    SsTableIndex,
};
use crate::types::EntryView;

verus! {

/// The result of a read of one SST.
#[derive(Debug)]
pub struct SstEntries {
    /// The keys that the SST holds. A key that it does not hold has no entry.
    pub found: Vec<KeyEntries>,
    /// The index that the read used. The batch keeps it for later reads.
    pub index: Arc<SsTableIndex>,
    /// The keys that the filters passed and that the SST does not hold.
    pub false_positives: u64,
}

/// The state of a read of one SST.
#[derive(Debug)]
pub enum SstRead {
    /// The read needs the index of the SST.
    NeedIndex {
        pending: Vec<PendingKey>,
        /// The SST has filters, and they passed the keys.
        filtered: bool,
    },
    /// The read needs what the cache holds of the blocks `needed`.
    NeedCached {
        index: Arc<SsTableIndex>,
        keys: Vec<KeyBlocks>,
        needed: Vec<usize>,
        filtered: bool,
    },
    /// The read needs the block ranges `runs`, and has the blocks `blocks`.
    NeedRuns {
        index: Arc<SsTableIndex>,
        keys: Vec<KeyBlocks>,
        blocks: BTreeMap<usize, Arc<Block>>,
        runs: Vec<Range<usize>>,
        filtered: bool,
    },
    /// The read is complete.
    Done(SstEntries),
}

// ---------------------------------------------------------------------------
// The blocks that come
// ---------------------------------------------------------------------------

/// The blocks that the cache holds.
pub open spec fn cached_blocks(needed: Seq<usize>, cached: Seq<Option<Arc<Block>>>) -> Map<
    usize,
    Arc<Block>,
>
    decreases needed.len(),
{
    if needed.len() == 0 {
        Map::empty()
    } else {
        let before = cached_blocks(needed.drop_last(), cached);
        match cached[needed.len() - 1] {
            Some(block) => before.insert(needed.last(), block),
            None => before,
        }
    }
}

/// The blocks that the cache does not hold.
pub open spec fn missing_blocks(needed: Seq<usize>, cached: Seq<Option<Arc<Block>>>) -> Seq<usize>
    decreases needed.len(),
{
    if needed.len() == 0 {
        Seq::empty()
    } else {
        let before = missing_blocks(needed.drop_last(), cached);
        match cached[needed.len() - 1] {
            Some(_) => before,
            None => before.push(needed.last()),
        }
    }
}

/// The blocks of one fetched range.
pub open spec fn with_run(
    blocks: Map<usize, Arc<Block>>,
    start: usize,
    fetched: Seq<Arc<Block>>,
) -> Map<usize, Arc<Block>>
    decreases fetched.len(),
{
    if fetched.len() == 0 {
        blocks
    } else {
        with_run(blocks, start, fetched.drop_last()).insert(
            (start + fetched.len() - 1) as usize,
            fetched.last(),
        )
    }
}

/// The blocks after the ranges were fetched.
pub open spec fn with_runs(
    blocks: Map<usize, Arc<Block>>,
    runs: Seq<Range<usize>>,
    fetched: Seq<Seq<Arc<Block>>>,
) -> Map<usize, Arc<Block>>
    decreases runs.len(),
{
    if runs.len() == 0 {
        blocks
    } else {
        with_run(
            with_runs(blocks, runs.drop_last(), fetched),
            runs.last().start,
            fetched[runs.len() - 1],
        )
    }
}

/// Each range came whole.
pub open spec fn whole(runs: Seq<Range<usize>>, fetched: Seq<Seq<Arc<Block>>>) -> bool {
    &&& fetched.len() == runs.len()
    &&& forall|r: int|
        0 <= r < runs.len() ==> (#[trigger] fetched[r]).len() == runs[r].end - runs[r].start
}

/// The fetched blocks by range.
pub open spec fn fetched_views(fetched: Seq<Vec<Arc<Block>>>) -> Seq<Seq<Arc<Block>>> {
    fetched.map_values(|blocks: Vec<Arc<Block>>| blocks@)
}

/// Take the blocks that the cache holds, and list the others.
pub(crate) fn take_cached(needed: &Vec<usize>, cached: Vec<Option<Arc<Block>>>) -> (parts: (
    BTreeMap<usize, Arc<Block>>,
    Vec<usize>,
))
    requires
        cached@.len() == needed@.len(),
    ensures
        parts.0@ == cached_blocks(needed@, cached@),
        parts.1@ == missing_blocks(needed@, cached@),
{
    let mut blocks: BTreeMap<usize, Arc<Block>> = BTreeMap::new();
    let mut missing: Vec<usize> = Vec::new();
    let count: usize = needed.len();
    let mut i: usize = 0;
    assert(needed@.take(0) =~= Seq::<usize>::empty());
    for block in it: cached
        invariant
            i == it.index(),
            count == needed@.len(),
            it.seq() == cached@,
            cached@.len() == needed@.len(),
            blocks@ == cached_blocks(needed@.take(it.index() as int), cached@),
            missing@ == missing_blocks(needed@.take(it.index() as int), cached@),
    {
        let ghost k = it.index() as int;
        proof {
            let now = needed@.take(k + 1);
            assert(now.drop_last() =~= needed@.take(k));
            assert(now.last() == needed@[k]);
        }
        match block {
            Some(block) => {
                blocks.insert(needed[i], block);
            },
            None => {
                missing.push(needed[i]);
            },
        }
        i = i + 1;
    }
    assert(needed@.take(needed@.len() as int) =~= needed@);
    (blocks, missing)
}

/// Add the blocks of the fetched ranges.
pub(crate) fn add_runs(
    blocks: BTreeMap<usize, Arc<Block>>,
    runs: &Vec<Range<usize>>,
    fetched: Vec<Vec<Arc<Block>>>,
) -> (all: BTreeMap<usize, Arc<Block>>)
    requires
        whole(runs@, fetched_views(fetched@)),
        forall|r: int| 0 <= r < runs@.len() ==> (#[trigger] runs@[r]).start <= runs@[r].end,
    ensures
        all@ == with_runs(blocks@, runs@, fetched_views(fetched@)),
{
    let ghost start = blocks@;
    let ghost views = fetched_views(fetched@);
    let mut all = blocks;
    let count: usize = runs.len();
    let mut r: usize = 0;
    assert(runs@.take(0) =~= Seq::<Range<usize>>::empty());
    for run_blocks in it: fetched
        invariant
            r == it.index(),
            count == runs@.len(),
            it.seq() == fetched@,
            views == fetched_views(fetched@),
            whole(runs@, views),
            forall|r: int| 0 <= r < runs@.len() ==> (#[trigger] runs@[r]).start <= runs@[r].end,
            all@ == with_runs(start, runs@.take(r as int), views),
    {
        let ghost before = all@;
        let ghost n = runs@.take(r + 1);
        proof {
            assert(n.drop_last() =~= runs@.take(r as int));
            assert(n.last() == runs@[r as int]);
            assert(views[r as int] == run_blocks@);
            assert(run_blocks@.len() == runs@[r as int].end - runs@[r as int].start);
            assert(run_blocks@.take(0) =~= Seq::<Arc<Block>>::empty());
        }
        let first: usize = runs[r].start;
        let mut offset: usize = 0;
        for block in inner: run_blocks
            invariant
                offset == inner.index(),
                inner.seq() == run_blocks@,
                first + run_blocks@.len() <= usize::MAX,
                all@ == with_run(before, first, run_blocks@.take(offset as int)),
        {
            proof {
                let now = run_blocks@.take(offset + 1);
                assert(now.drop_last() =~= run_blocks@.take(offset as int));
                assert(now.last() == block);
            }
            all.insert(first + offset, block);
            offset = offset + 1;
        }
        assert(run_blocks@.take(run_blocks@.len() as int) =~= run_blocks@);
        r = r + 1;
    }
    assert(runs@.take(runs@.len() as int) =~= runs@);
    all
}

// ---------------------------------------------------------------------------
// The steps of a read
// ---------------------------------------------------------------------------

/// The keys of the read, or those with block ranges.
pub open spec fn opened(
    read: SstRead,
    keys: Seq<PendingView>,
    index: Arc<SsTableIndex>,
    filtered: bool,
) -> bool {
    if index.starts().len() == 0 {
        read matches SstRead::Done(entries) && entries.index == index && entries.found@.len() == 0
            && entries.false_positives == 0
    } else {
        &&& read matches SstRead::NeedCached { index: used, keys: mapped_to, needed, filtered: f }
        &&& used == index
        &&& f == filtered
        &&& mapped_keys(mapped_to@) == keys
        &&& mapped(mapped_to@, index.starts())
        &&& increasing(needed@)
        &&& forall|b: usize| #[trigger] needed@.contains(b) <==> wanted(mapped_to@, b)
    }
}

/// The read is complete, and it scanned `blocks` for the keys.
pub open spec fn complete(
    read: SstRead,
    keys: Seq<KeyBlocks>,
    blocks: Map<usize, Arc<Block>>,
    index: Arc<SsTableIndex>,
    filtered: bool,
) -> bool {
    &&& read matches SstRead::Done(entries)
    &&& entries.index == index
    &&& found_views(entries.found@) == scanned(keys, read_rows(blocks))
    &&& entries.false_positives == if filtered {
        keys.len() - scanned(keys, read_rows(blocks)).len()
    } else {
        0
    }
}

impl SstRead {
    /// The state is one that a read can be in.
    pub open spec fn wf(self) -> bool {
        match self {
            SstRead::NeedIndex { .. } => true,
            SstRead::NeedCached { index, keys, needed, .. } => {
                &&& index.wf()
                &&& mapped(keys@, index.starts())
                &&& increasing(needed@)
                &&& forall|b: usize| #[trigger] needed@.contains(b) <==> wanted(keys@, b)
            },
            SstRead::NeedRuns { index, keys, blocks, runs, .. } => {
                &&& index.wf()
                &&& mapped(keys@, index.starts())
                &&& runs@.len() > 0
                &&& runs_in_order(runs@, index.offsets@)
                &&& forall|b: usize| #[trigger]
                    wanted(keys@, b) ==> blocks@.contains_key(b) || in_runs(runs@, b)
            },
            SstRead::Done(_) => true,
        }
    }

    /// Start a read of `keys` from an SST whose filters passed them. `index`
    /// is the index from an earlier read of the batch. `filtered` says that
    /// the SST has filters, for the false positive count.
    pub fn start(keys: Vec<PendingKey>, index: Option<Arc<SsTableIndex>>, filtered: bool) -> (read:
        Self)
        requires
            index matches Some(index) ==> index.wf(),
        ensures
            read.wf(),
            match index {
                Some(index) => opened(read, pending_views(keys@), index, filtered),
                None => read == (SstRead::NeedIndex { pending: keys, filtered }),
            },
    {
        match index {
            Some(index) => Self::open(keys, index, filtered),
            None => SstRead::NeedIndex { pending: keys, filtered },
        }
    }

    /// Map the keys to the blocks that the read needs. An SST with no block
    /// holds no key.
    fn open(keys: Vec<PendingKey>, index: Arc<SsTableIndex>, filtered: bool) -> (read: Self)
        requires
            index.wf(),
        ensures
            read.wf(),
            opened(read, pending_views(keys@), index, filtered),
    {
        if index.is_empty() {
            return SstRead::Done(SstEntries { found: Vec::new(), index, false_positives: 0 });
        }
        let mapped_to = key_blocks(keys, &index);
        let needed = needed_blocks(&mapped_to);
        SstRead::NeedCached { index, keys: mapped_to, needed, filtered }
    }

    /// Take the index of the SST.
    pub fn on_index(self, index: Arc<SsTableIndex>) -> (read: Self)
        requires
            self is NeedIndex,
            index.wf(),
        ensures
            read.wf(),
            self matches SstRead::NeedIndex { pending, filtered } ==> opened(
                read,
                pending_views(pending@),
                index,
                filtered,
            ),
    {
        match self {
            SstRead::NeedIndex { pending, filtered } => Self::open(pending, index, filtered),
            other => other,
        }
    }

    /// Take what the cache holds of the needed blocks, block by block. The
    /// other blocks merge into ranges. With no block to fetch, the read is
    /// complete.
    pub fn on_cached(self, cached: Vec<Option<Arc<Block>>>, options: &MultiGetOptions) -> (read:
        Self)
        requires
            self.wf(),
            self matches SstRead::NeedCached { needed, .. } && needed@.len() == cached@.len(),
        ensures
            read.wf(),
            self matches SstRead::NeedCached { index, keys, needed, filtered } ==> {
                let missing = missing_blocks(needed@, cached@);
                let have = cached_blocks(needed@, cached@);
                if missing.len() == 0 {
                    complete(read, keys@, have, index, filtered)
                } else {
                    &&& read matches SstRead::NeedRuns {
                        index: i,
                        keys: k,
                        blocks,
                        runs,
                        filtered: f,
                    }
                    &&& i == index
                    &&& k == keys
                    &&& f == filtered
                    &&& blocks@ == have
                    &&& runs@ == coalesced(
                        missing,
                        index.offsets@,
                        options.coalesce_gap_bytes as u64,
                        options.max_coalesced_bytes as u64,
                    )
                }
            },
    {
        match self {
            SstRead::NeedCached { index, keys, needed, filtered } => {
                let (blocks, missing) = take_cached(&needed, cached);
                let gap: u64 = options.coalesce_gap_bytes as u64;
                let max: u64 = options.max_coalesced_bytes as u64;
                let ends: usize = index.offsets.len();
                proof {
                    lemma_missing_in_order(needed@, cached@);
                    assert forall|i: int| 0 <= i < missing@.len() implies (#[trigger] missing@[i])
                        + 1 < ends by {
                        assert(needed@.contains(missing@[i]));
                        assert(wanted(keys@, missing@[i]));
                    }
                    assert(blocks_in_order(missing@, index.offsets@));
                }
                if missing.len() == 0 {
                    return Self::finish(index, keys, blocks, filtered);
                }
                let runs = coalesce_runs(missing.as_slice(), index.offsets.as_slice(), gap, max);
                proof {
                    law_runs_hold_the_blocks(missing@, index.offsets@, gap, max, 0);
                    assert(in_runs(runs@, missing@[0]));
                    assert forall|b: usize| #[trigger] wanted(keys@, b) implies
                        blocks@.contains_key(b) || in_runs(runs@, b) by {
                        assert(needed@.contains(b));
                        lemma_cached_or_missing(needed@, cached@, b);
                        if missing@.contains(b) {
                            let i = choose|i: int| 0 <= i < missing@.len() && missing@[i] == b;
                            law_runs_hold_the_blocks(missing@, index.offsets@, gap, max, i);
                        }
                    }
                }
                SstRead::NeedRuns { index, keys, blocks, runs, filtered }
            },
            other => other,
        }
    }

    /// Take the blocks of the ranges, range by range.
    pub fn on_runs(self, fetched: Vec<Vec<Arc<Block>>>) -> (read: Self)
        requires
            self.wf(),
            self matches SstRead::NeedRuns { runs, .. } && whole(runs@, fetched_views(fetched@)),
        ensures
            read.wf(),
            self matches SstRead::NeedRuns { index, keys, blocks, runs, filtered } ==> complete(
                read,
                keys@,
                with_runs(blocks@, runs@, fetched_views(fetched@)),
                index,
                filtered,
            ),
    {
        match self {
            SstRead::NeedRuns { index, keys, blocks, runs, filtered } => {
                let all = add_runs(blocks, &runs, fetched);
                Self::finish(index, keys, all, filtered)
            },
            other => other,
        }
    }

    /// Scan the blocks.
    fn finish(
        index: Arc<SsTableIndex>,
        keys: Vec<KeyBlocks>,
        blocks: BTreeMap<usize, Arc<Block>>,
        filtered: bool,
    ) -> (read: Self)
        ensures
            read.wf(),
            complete(read, keys@, blocks@, index, filtered),
    {
        let result = scan(&keys, &blocks, filtered);
        proof {
            assert(found_views(result.found@).len() == result.found@.len());
        }
        SstRead::Done(
            SstEntries { found: result.found, index, false_positives: result.false_positives },
        )
    }
}

/// The missing blocks are some of the needed ones, in order.
proof fn lemma_missing_in_order(needed: Seq<usize>, cached: Seq<Option<Arc<Block>>>)
    requires
        increasing(needed),
    ensures
        increasing(missing_blocks(needed, cached)),
        forall|i: int|
            0 <= i < missing_blocks(needed, cached).len() ==> needed.contains(
                #[trigger] missing_blocks(needed, cached)[i],
            ),
    decreases needed.len(),
{
    if needed.len() > 0 {
        let front = needed.drop_last();
        let before = missing_blocks(front, cached);
        let after = missing_blocks(needed, cached);
        assert forall|i: int, j: int| 0 <= i < j < front.len() implies (#[trigger] front[i]) < (
        #[trigger] front[j]) by {
            assert(needed[i] < needed[j]);
        }
        lemma_missing_in_order(front, cached);
        assert forall|i: int| 0 <= i < after.len() implies needed.contains(#[trigger] after[i]) by {
            if i < before.len() {
                assert(front.contains(before[i]));
                let k = choose|k: int| 0 <= k < front.len() && front[k] == before[i];
                assert(needed[k] == after[i]);
            } else {
                assert(needed[needed.len() - 1] == after[i]);
            }
        }
        assert forall|i: int, j: int| 0 <= i < j < after.len() implies (#[trigger] after[i]) < (
        #[trigger] after[j]) by {
            if j == before.len() {
                assert(front.contains(before[i]));
                let k = choose|k: int| 0 <= k < front.len() && front[k] == before[i];
                assert(needed[k] < needed[needed.len() - 1]);
            } else {
                assert(before[i] < before[j]);
            }
        }
    }
}

/// Each needed block is cached or missing.
proof fn lemma_cached_or_missing(needed: Seq<usize>, cached: Seq<Option<Arc<Block>>>, b: usize)
    requires
        needed.contains(b),
    ensures
        cached_blocks(needed, cached).contains_key(b) || missing_blocks(needed, cached).contains(b),
    decreases needed.len(),
{
    let front = needed.drop_last();
    let before = missing_blocks(front, cached);
    let after = missing_blocks(needed, cached);
    if needed.last() == b {
        if cached[needed.len() - 1] is None {
            assert(after[before.len() as int] == b);
        }
    } else {
        let k = choose|k: int| 0 <= k < needed.len() && needed[k] == b;
        assert(front[k] == b);
        lemma_cached_or_missing(front, cached, b);
        if before.contains(b) {
            let i = choose|i: int| 0 <= i < before.len() && before[i] == b;
            assert(after[i] == b);
        }
    }
}

// ---------------------------------------------------------------------------
// What a read returns
// ---------------------------------------------------------------------------

/// The keys that an SST holds, each with its versions, newest first.
/// `content` is the rows of the blocks of the SST.
pub open spec fn sst_answers(keys: Seq<PendingView>, content: Seq<Seq<EntryView>>) -> Seq<FoundView>
    decreases keys.len(),
{
    if keys.len() == 0 {
        Seq::empty()
    } else {
        let before = sst_answers(keys.drop_last(), content);
        let entries = held_versions(content, keys.last().key);
        if entries.len() == 0 {
            before
        } else {
            before.push(FoundView { idx: keys.last().idx, entries })
        }
    }
}

/// Each block has the rows of its place in the SST.
pub open spec fn sound_blocks(blocks: Map<usize, Arc<Block>>, content: Seq<Seq<EntryView>>) -> bool {
    forall|b: usize| #[trigger]
        blocks.contains_key(b) ==> b < content.len() && read_rows(blocks)[b] == content[b as int]
}

/// Each fetched block has the rows of its place in the SST.
pub open spec fn sound_runs(
    runs: Seq<Range<usize>>,
    fetched: Seq<Seq<Arc<Block>>>,
    content: Seq<Seq<EntryView>>,
) -> bool {
    &&& forall|r: int|
        0 <= r < runs.len() ==> runs[r].start + (#[trigger] fetched[r]).len() <= content.len()
    &&& forall|r: int, o: int|
        0 <= r < runs.len() && 0 <= o < fetched[r].len() ==> block_rows(#[trigger] fetched[r][o])
            == content[runs[r].start + o]
}

/// What one fetched range adds.
proof fn lemma_with_run(
    blocks: Map<usize, Arc<Block>>,
    start: usize,
    fetched: Seq<Arc<Block>>,
    content: Seq<Seq<EntryView>>,
)
    requires
        start + fetched.len() <= usize::MAX,
        sound_blocks(blocks, content),
        start + fetched.len() <= content.len(),
        forall|o: int|
            0 <= o < fetched.len() ==> block_rows(#[trigger] fetched[o]) == content[start + o],
    ensures
        sound_blocks(with_run(blocks, start, fetched), content),
        forall|b: usize|
            #![trigger with_run(blocks, start, fetched).contains_key(b)]
            blocks.contains_key(b) || start <= b < start + fetched.len() ==> with_run(
                blocks,
                start,
                fetched,
            ).contains_key(b),
    decreases fetched.len(),
{
    if fetched.len() > 0 {
        let front = fetched.drop_last();
        assert forall|o: int| 0 <= o < front.len() implies block_rows(#[trigger] front[o])
            == content[start + o] by {
            assert(front[o] == fetched[o]);
        }
        lemma_with_run(blocks, start, front, content);
        let last = fetched.len() - 1;
        let before = with_run(blocks, start, front);
        let after = with_run(blocks, start, fetched);
        assert(block_rows(fetched[last]) == content[start + last]);
        assert forall|b: usize| #[trigger] after.contains_key(b) implies b < content.len()
            && read_rows(after)[b] == content[b as int] by {
            if b != (start + last) as usize {
                assert(before.contains_key(b));
                assert(read_rows(before)[b] == content[b as int]);
            }
        }
        assert forall|b: usize|
            blocks.contains_key(b) || start <= b < start
                + fetched.len() implies #[trigger] after.contains_key(b) by {
            if b != (start + last) as usize {
                assert(before.contains_key(b));
            }
        }
    }
}

/// What the fetched ranges add.
proof fn lemma_with_runs(
    blocks: Map<usize, Arc<Block>>,
    runs: Seq<Range<usize>>,
    fetched: Seq<Seq<Arc<Block>>>,
    content: Seq<Seq<EntryView>>,
)
    requires
        sound_blocks(blocks, content),
        runs.len() <= fetched.len(),
        forall|r: int|
            0 <= r < runs.len() ==> (#[trigger] fetched[r]).len() == runs[r].end - runs[r].start,
        sound_runs(runs, fetched, content),
    ensures
        sound_blocks(with_runs(blocks, runs, fetched), content),
        forall|b: usize|
            #![trigger with_runs(blocks, runs, fetched).contains_key(b)]
            blocks.contains_key(b) || in_runs(runs, b) ==> with_runs(
                blocks,
                runs,
                fetched,
            ).contains_key(b),
    decreases runs.len(),
{
    if runs.len() > 0 {
        let front = runs.drop_last();
        let last = runs.len() - 1;
        assert forall|r: int, o: int|
            0 <= r < front.len() && 0 <= o < fetched[r].len() implies block_rows(
            #[trigger] fetched[r][o],
        ) == content[front[r].start + o] by {
            assert(front[r] == runs[r]);
        }
        lemma_with_runs(blocks, front, fetched, content);
        let before = with_runs(blocks, front, fetched);
        let after = with_runs(blocks, runs, fetched);
        let start = runs[last].start;
        assert(fetched[last].len() == runs[last].end - runs[last].start);
        assert forall|o: int| 0 <= o < fetched[last].len() implies block_rows(
            #[trigger] fetched[last][o],
        ) == content[start + o] by {}
        lemma_with_run(before, start, fetched[last], content);
        assert forall|b: usize| blocks.contains_key(b) || in_runs(runs, b) implies
            #[trigger] after.contains_key(b) by {
            if in_runs(runs, b) {
                let r = choose|r: int|
                    0 <= r < runs.len() && (#[trigger] runs[r]).start <= b < runs[r].end;
                if r < last {
                    assert(front[r].start <= b < front[r].end);
                    assert(in_runs(front, b));
                    assert(before.contains_key(b));
                } else {
                    assert(start <= b < start + fetched[last].len());
                }
            } else {
                assert(before.contains_key(b));
            }
        }
    }
}

/// A scan of sound blocks answers like the SST.
proof fn lemma_scan_answers(
    keys: Seq<KeyBlocks>,
    starts: Seq<Seq<u8>>,
    blocks: Map<usize, Arc<Block>>,
    content: Seq<Seq<EntryView>>,
)
    requires
        content.len() <= usize::MAX,
        rows_in_order(all_rows(content)),
        describes(starts, content),
        mapped(keys, starts),
        sound_blocks(blocks, content),
        forall|b: usize| #[trigger] wanted(keys, b) ==> blocks.contains_key(b),
    ensures
        scanned(keys, read_rows(blocks)) == sst_answers(mapped_keys(keys), content),
    decreases keys.len(),
{
    let read = read_rows(blocks);
    if keys.len() > 0 {
        let front = keys.drop_last();
        let n = keys.len() - 1;
        let last = keys[n];
        assert forall|i: int| 0 <= i < front.len() implies covering(
            (#[trigger] front[i]).blocks,
            starts,
            crate::octets::content(front[i].key.key),
        ) by {
            assert(front[i] == keys[i]);
        }
        assert forall|b: usize| #[trigger] wanted(front, b) implies blocks.contains_key(b) by {
            let i = choose|i: int|
                0 <= i < front.len() && (#[trigger] front[i]).blocks.start <= b
                    < front[i].blocks.end;
            assert(keys[i].blocks.start <= b < keys[i].blocks.end);
            assert(wanted(keys, b));
        }
        lemma_scan_answers(front, starts, blocks, content);
        assert(mapped_keys(front) =~= mapped_keys(keys).drop_last());
        let key = crate::octets::content(last.key.key);
        assert(covering(last.blocks, starts, key));
        assert forall|b: int| last.blocks.start <= b < last.blocks.end implies
            #[trigger] read.contains_key(b as usize) && read[b as usize] == content[b] by {
            assert(keys[n].blocks.start <= b as usize && (b as usize) < keys[n].blocks.end);
            assert(wanted(keys, b as usize));
            assert(blocks.contains_key(b as usize));
        }
        law_scan_finds_each_version(content, starts, read, last.blocks, key);
        assert(mapped_keys(keys).last() == last.key@);
    }
}

/// A read returns each version that the SST holds of each of its keys, and
/// nothing else, however its blocks come: from the cache, or in ranges.
pub proof fn law_read_returns_what_the_sst_holds(
    keys: Seq<KeyBlocks>,
    starts: Seq<Seq<u8>>,
    blocks: Map<usize, Arc<Block>>,
    runs: Seq<Range<usize>>,
    fetched: Seq<Seq<Arc<Block>>>,
    content: Seq<Seq<EntryView>>,
)
    requires
        content.len() <= usize::MAX,
        rows_in_order(all_rows(content)),
        describes(starts, content),
        mapped(keys, starts),
        forall|b: usize| #[trigger]
            wanted(keys, b) ==> blocks.contains_key(b) || in_runs(runs, b),
        whole(runs, fetched),
        sound_blocks(blocks, content),
        sound_runs(runs, fetched, content),
    ensures
        scanned(keys, read_rows(with_runs(blocks, runs, fetched))) == sst_answers(
            mapped_keys(keys),
            content,
        ),
{
    let all = with_runs(blocks, runs, fetched);
    lemma_with_runs(blocks, runs, fetched, content);
    assert forall|b: usize| #[trigger] wanted(keys, b) implies all.contains_key(b) by {}
    lemma_scan_answers(keys, starts, all, content);
}

/// An SST answers a key exactly when it holds a version of it, with the slot
/// of the key and all its versions.
pub proof fn law_an_sst_answers_each_key_that_it_holds(
    keys: Seq<PendingView>,
    key: PendingView,
    content: Seq<Seq<EntryView>>,
)
    ensures
        sst_answers(keys.push(key), content) == if held_versions(content, key.key).len() > 0 {
            sst_answers(keys, content).push(
                FoundView { idx: key.idx, entries: held_versions(content, key.key) },
            )
        } else {
            sst_answers(keys, content)
        },
        sst_answers(Seq::empty(), content).len() == 0,
{
    assert(keys.push(key).drop_last() =~= keys);
}

/// What the cache holds of a block is taken from the cache, and exactly the
/// blocks that it does not hold are missing, in their order.
pub proof fn law_each_block_is_cached_or_missing(
    needed: Seq<usize>,
    cached: Seq<Option<Arc<Block>>>,
    b: usize,
    block: Option<Arc<Block>>,
)
    requires
        needed.len() == cached.len(),
    ensures
        missing_blocks(needed.push(b), cached.push(block)) == if block is None {
            missing_blocks(needed, cached).push(b)
        } else {
            missing_blocks(needed, cached)
        },
        block matches Some(block) ==> cached_blocks(needed.push(b), cached.push(Some(block)))
            == cached_blocks(needed, cached).insert(b, block),
        block is None ==> cached_blocks(needed.push(b), cached.push(block)) == cached_blocks(
            needed,
            cached,
        ),
        missing_blocks(Seq::empty(), cached).len() == 0,
        cached_blocks(Seq::empty(), cached) == Map::<usize, Arc<Block>>::empty(),
{
    let all = needed.push(b);
    assert(all.drop_last() =~= needed);
    lemma_cached_front(needed, cached, block);
}

/// What the cache says behind the blocks that are needed does not matter.
proof fn lemma_cached_front(
    needed: Seq<usize>,
    cached: Seq<Option<Arc<Block>>>,
    block: Option<Arc<Block>>,
)
    requires
        needed.len() <= cached.len(),
    ensures
        missing_blocks(needed, cached.push(block)) == missing_blocks(needed, cached),
        cached_blocks(needed, cached.push(block)) == cached_blocks(needed, cached),
    decreases needed.len(),
{
    if needed.len() > 0 {
        lemma_cached_front(needed.drop_last(), cached, block);
    }
}

/// A read with an index asks for exactly the blocks that can hold one of its
/// keys, each one time and in order. An SST with no block ends the read: it
/// holds no key.
pub proof fn law_a_read_asks_for_the_blocks_of_its_keys(
    read: SstRead,
    keys: Seq<PendingView>,
    index: Arc<SsTableIndex>,
    filtered: bool,
)
    requires
        opened(read, keys, index, filtered),
    ensures
        index.starts().len() == 0 <==> read is Done,
        read matches SstRead::Done(entries) ==> entries.found@.len() == 0
            && entries.false_positives == 0 && entries.index == index,
        index.starts().len() > 0 ==> read is NeedCached,
        read matches SstRead::NeedCached { index: used, keys: mapped_to, needed, filtered: flag }
            ==> {
            &&& used == index
            &&& flag == filtered
            &&& mapped_to@.len() == keys.len()
            &&& forall|i: int| 0 <= i < keys.len() ==> (#[trigger] mapped_to@[i]).key@ == keys[i]
            &&& increasing(needed@)
            &&& forall|b: usize| #[trigger]
                needed@.contains(b) <==> exists|i: int|
                    0 <= i < keys.len() && covers(index.starts(), b as int, (#[trigger] keys[i]).key)
        },
{
    if let SstRead::NeedCached { index: used, keys: mapped_to, needed, filtered: flag } = read {
        let starts = index.starts();
        assert forall|i: int| 0 <= i < keys.len() implies (#[trigger] mapped_to@[i]).key@
            == keys[i] by {
            assert(mapped_keys(mapped_to@)[i] == keys[i]);
        }
        assert forall|b: usize| #[trigger] needed@.contains(b) <==> exists|i: int|
            0 <= i < keys.len() && covers(starts, b as int, (#[trigger] keys[i]).key) by {
            if needed@.contains(b) {
                let i = choose|i: int|
                    0 <= i < mapped_to@.len() && (#[trigger] mapped_to@[i]).blocks.start <= b
                        < mapped_to@[i].blocks.end;
                assert(covering(mapped_to@[i].blocks, starts, content(mapped_to@[i].key.key)));
                assert(mapped_to@[i].key@ == keys[i]);
                assert(covers(starts, b as int, keys[i].key));
            }
            if exists|i: int|
                0 <= i < keys.len() && covers(starts, b as int, (#[trigger] keys[i]).key) {
                let i = choose|i: int|
                    0 <= i < keys.len() && covers(starts, b as int, (#[trigger] keys[i]).key);
                assert(covering(mapped_to@[i].blocks, starts, content(mapped_to@[i].key.key)));
                assert(mapped_to@[i].key@ == keys[i]);
                assert(wanted(mapped_to@, b));
            }
        }
    }
}

/// A read ends with each key that its blocks hold. With filters, each other
/// key is a false positive, and without filters there is none.
pub proof fn law_a_key_that_passed_and_is_not_there_is_a_false_positive(
    read: SstRead,
    keys: Seq<KeyBlocks>,
    blocks: Map<usize, Arc<Block>>,
    index: Arc<SsTableIndex>,
    filtered: bool,
)
    requires
        complete(read, keys, blocks, index, filtered),
    ensures
        read matches SstRead::Done(entries) && entries.index == index && found_views(
            entries.found@,
        ) == scanned(keys, read_rows(blocks)) && (filtered ==> entries.found@.len()
            + entries.false_positives == keys.len()) && (!filtered ==> entries.false_positives
            == 0),
{
}

} // verus!
