//! Batched reads of one SST that bring their own filters.
//!
//! A visit of one SST for all the keys that it can hold has two parts:
//!
//! - [`CacheRead`] answers the keys whose index and blocks are in the block
//!   cache. It sends no object store request.
//! - [`SstTask`] reads the keys that missed. It loads the filters and the
//!   index one time, prunes the keys, merges the wanted blocks into ranges,
//!   and reads all ranges in parallel.
//!
//! Both return the rows that the SST holds for each key, newest first. What
//! the versions of a key come to is left to the caller.

use core::ops::Range;
use std::collections::BTreeMap;
use std::sync::Arc;
use vstd::prelude::*;

use crate::coalesce::{
    blocks_in_order,
    coalesce_runs,
    coalesced,
    in_runs,
    law_runs_hold_the_blocks,
    runs_in_order,
};
use crate::config::MultiGetOptions;
use crate::filter::{all_filters_might_match, all_pass, Filter, NamedFilter};
use crate::manifest::{view_holds_key, SsTableView};
use crate::multi_get::sst::{
    add_runs,
    cached_blocks,
    fetched_views,
    law_read_returns_what_the_sst_holds,
    sound_blocks,
    sst_answers,
    take_cached,
    whole,
    with_runs,
};
use crate::octets::{as_slice, content};
use crate::partitions::{covers, Partitioned};
use crate::scan::{all_rows, describes, read_rows, rows_in_order, scan, scanned};
use crate::sstable::{
    found_views,
    increasing,
    key_blocks,
    mapped,
    mapped_keys,
    needed_blocks,
    pending_views,
    wanted,
    Block,
    KeyBlocks,
    KeyEntries,
    PendingKey,
    PendingView,
    SsTableIndex,
};
use crate::types::EntryView;

verus! {

// ---------------------------------------------------------------------------
// Pruning
// ---------------------------------------------------------------------------

/// The keys that are left after pruning, and the filter counts.
pub struct Pruned {
    pub survivors: Vec<PendingKey>,
    /// The keys that the filters passed.
    pub positives: u64,
    /// The keys that the filters rejected.
    pub negatives: u64,
}

/// The SST might hold the key: the key is in the view, and the filters pass
/// it.
pub open spec fn survives<F: Filter>(
    key: PendingView,
    view: SsTableView,
    filters: Seq<NamedFilter<F>>,
    context: Option<F::Context>,
) -> bool {
    view.holds(key.key) && all_pass(filters, key.key, context)
}

/// The keys that the SST might hold.
pub open spec fn survivors_of<F: Filter>(
    keys: Seq<PendingView>,
    view: SsTableView,
    filters: Seq<NamedFilter<F>>,
    context: Option<F::Context>,
) -> Seq<PendingView> {
    keys.filter(|key: PendingView| survives(key, view, filters, context))
}

/// The keys that only the filters reject. A key outside the view is not a
/// filter negative.
pub open spec fn rejected_by<F: Filter>(
    keys: Seq<PendingView>,
    view: SsTableView,
    filters: Seq<NamedFilter<F>>,
    context: Option<F::Context>,
) -> Seq<PendingView> {
    keys.filter(
        |key: PendingView| view.holds(key.key) && !all_pass(filters, key.key, context),
    )
}

/// Prune keys by visible range and filters. With no filter, nothing counts.
pub fn prune_keys<F: Filter>(
    view: &SsTableView,
    keys: &Vec<PendingKey>,
    filters: &Vec<NamedFilter<F>>,
    context: &Option<F::Context>,
) -> (pruned: Pruned)
    ensures
        pending_views(pruned.survivors@) == survivors_of(
            pending_views(keys@),
            *view,
            filters@,
            *context,
        ),
        pruned.positives == if filters@.len() > 0 {
            survivors_of(pending_views(keys@), *view, filters@, *context).len()
        } else {
            0
        },
        pruned.negatives == rejected_by(pending_views(keys@), *view, filters@, *context).len(),
{
    let mut survivors: Vec<PendingKey> = Vec::new();
    let mut positives: u64 = 0;
    let mut negatives: u64 = 0;
    let ghost all = pending_views(keys@);
    let ghost pass = |key: PendingView| survives(key, *view, filters@, *context);
    let ghost reject = |key: PendingView|
        view.holds(key.key) && !all_pass(filters@, key.key, *context);
    proof {
        all.take(0).lemma_filter_len(pass);
        all.take(0).lemma_filter_len(reject);
        assert(pending_views(survivors@) =~= all.take(0).filter(pass));
    }
    for i in 0..keys.len()
        invariant
            all == pending_views(keys@),
            pass == (|key: PendingView| survives(key, *view, filters@, *context)),
            reject == (|key: PendingView|
                view.holds(key.key) && !all_pass(filters@, key.key, *context)),
            pending_views(survivors@) == all.take(i as int).filter(pass),
            positives == if filters@.len() > 0 {
                all.take(i as int).filter(pass).len()
            } else {
                0
            },
            negatives == all.take(i as int).filter(reject).len(),
            positives <= i,
            negatives <= i,
    {
        let ghost before = pending_views(survivors@);
        let key = &keys[i];
        proof {
            assert(all.take(i + 1) =~= all.take(i as int).push(key@));
            all.take(i as int).lemma_filter_push(key@, pass);
            all.take(i as int).lemma_filter_push(key@, reject);
        }
        // Keys outside the view are out of range, not filter negatives.
        if view_holds_key(view, as_slice(&key.key)) {
            if all_filters_might_match(filters, &key.key, context) {
                if filters.len() > 0 {
                    positives = positives + 1;
                }
                survivors.push(key.clone());
                assert(pending_views(survivors@) =~= before.push(key@));
            } else {
                negatives = negatives + 1;
            }
        }
    }
    assert(all.take(all.len() as int) =~= all);
    Pruned { survivors, positives, negatives }
}

// ---------------------------------------------------------------------------
// A read from the cache
// ---------------------------------------------------------------------------

/// What a read from the cache comes to.
pub struct CacheResult<F> {
    /// The entries of the keys that the cache answered.
    pub found: Vec<KeyEntries>,
    /// The keys that need a [`SstTask`]. The cached filters already pruned
    /// them.
    pub misses: Vec<PendingKey>,
    /// The cached parts, so that [`SstTask`] does not look them up again.
    pub filters: Option<Arc<Vec<NamedFilter<F>>>>,
    pub index: Option<Arc<SsTableIndex>>,
    /// The keys that the filters passed and that the SST does not hold.
    pub false_positives: u64,
}

/// The state of a read from the cache.
pub enum CacheRead<F> {
    /// The read needs the index, if the cache holds it.
    NeedIndex {
        filters: Option<Arc<Vec<NamedFilter<F>>>>,
        pending: Vec<PendingKey>,
        /// The SST has filters, and they passed the keys.
        filtered: bool,
    },
    /// The read needs what the cache holds of the blocks `needed`.
    NeedCached {
        filters: Option<Arc<Vec<NamedFilter<F>>>>,
        index: Arc<SsTableIndex>,
        keys: Vec<KeyBlocks>,
        needed: Vec<usize>,
        filtered: bool,
    },
    /// The read is complete.
    Done(CacheResult<F>),
}

/// The filters that the cache holds. With none, each key passes.
pub open spec fn known_filters<F>(filters: Option<Arc<Vec<NamedFilter<F>>>>) -> Seq<
    NamedFilter<F>,
> {
    match filters {
        Some(filters) => filters@,
        None => Seq::empty(),
    }
}

/// Each block that the key wants is in the cache.
pub open spec fn is_hit(key: KeyBlocks, blocks: Map<usize, Arc<Block>>) -> bool {
    forall|b: usize|
        key.blocks.start <= b < key.blocks.end ==> #[trigger] blocks.contains_key(b)
}

/// The keys that the cache answers.
pub open spec fn hit_keys(keys: Seq<KeyBlocks>, blocks: Map<usize, Arc<Block>>) -> Seq<KeyBlocks> {
    keys.filter(|key: KeyBlocks| is_hit(key, blocks))
}

/// The keys that the cache does not answer.
pub open spec fn missed_keys(keys: Seq<KeyBlocks>, blocks: Map<usize, Arc<Block>>) -> Seq<
    KeyBlocks,
> {
    keys.filter(|key: KeyBlocks| !is_hit(key, blocks))
}

/// The read ended before it looked at a block.
pub open spec fn ended_early<F>(
    read: CacheRead<F>,
    misses: Seq<PendingView>,
    filters: Option<Arc<Vec<NamedFilter<F>>>>,
    index: Option<Arc<SsTableIndex>>,
) -> bool {
    &&& read matches CacheRead::Done(result)
    &&& result.found@.len() == 0
    &&& pending_views(result.misses@) == misses
    &&& result.filters == filters
    &&& result.index == index
    &&& result.false_positives == 0
}

impl<F: Filter> CacheRead<F> {
    /// The state is one that a read can be in.
    pub open spec fn wf(self) -> bool {
        match self {
            CacheRead::NeedCached { index, keys, needed, .. } => {
                &&& index.wf()
                &&& mapped(keys@, index.starts())
                &&& increasing(needed@)
                &&& forall|b: usize| #[trigger] needed@.contains(b) <==> wanted(keys@, b)
            },
            _ => true,
        }
    }

    /// Start with the filters that the cache holds. When they reject each
    /// key, the read is complete, and it does not look for the index. Also
    /// returns how many keys the filters passed and rejected.
    pub fn start(
        view: &SsTableView,
        keys: &Vec<PendingKey>,
        filters: Option<Arc<Vec<NamedFilter<F>>>>,
        context: &Option<F::Context>,
    ) -> (started: (Self, u64, u64))
        ensures
            started.0.wf(),
            ({
                let left = survivors_of(
                    pending_views(keys@),
                    *view,
                    known_filters(filters),
                    *context,
                );
                &&& if left.len() == 0 {
                    ended_early(started.0, left, filters, None)
                } else {
                    &&& started.0 matches CacheRead::NeedIndex { filters: f, pending, filtered }
                    &&& f == filters
                    &&& pending_views(pending@) == left
                    &&& filtered == (known_filters(filters).len() > 0)
                }
                &&& started.1 == if known_filters(filters).len() > 0 {
                    left.len()
                } else {
                    0
                }
                &&& started.2 == rejected_by(
                    pending_views(keys@),
                    *view,
                    known_filters(filters),
                    *context,
                ).len()
            }),
    {
        let no_filters: Vec<NamedFilter<F>> = Vec::new();
        let known = match &filters {
            Some(filters) => filters,
            None => &no_filters,
        };
        assert(known@ =~= known_filters(filters));
        let filtered = known.len() > 0;
        let pruned = prune_keys(view, keys, known, context);
        assert(pending_views(pruned.survivors@).len() == pruned.survivors@.len());
        let read = if pruned.survivors.len() == 0 {
            CacheRead::Done(
                CacheResult {
                    found: Vec::new(),
                    misses: pruned.survivors,
                    filters,
                    index: None,
                    false_positives: 0,
                },
            )
        } else {
            CacheRead::NeedIndex { filters, pending: pruned.survivors, filtered }
        };
        (read, pruned.positives, pruned.negatives)
    }

    /// Start with keys that the batch already checked. `filtered` says that
    /// the SST has filters, and that they passed the keys.
    pub fn start_checked(keys: Vec<PendingKey>, filtered: bool) -> (read: Self)
        ensures
            read.wf(),
            read == (CacheRead::<F>::NeedIndex { filters: None, pending: keys, filtered }),
    {
        CacheRead::NeedIndex { filters: None, pending: keys, filtered }
    }

    /// Take the index, if the cache holds it. With no index, each key is a
    /// miss. An SST with no block holds no key.
    pub fn on_index(self, index: Option<Arc<SsTableIndex>>) -> (read: Self)
        requires
            self is NeedIndex,
            index matches Some(index) ==> index.wf(),
        ensures
            read.wf(),
            self matches CacheRead::NeedIndex { filters, pending, filtered } ==> match index {
                None => ended_early(read, pending_views(pending@), filters, None),
                Some(index) => if index.starts().len() == 0 {
                    ended_early(read, Seq::empty(), filters, Some(index))
                } else {
                    &&& read matches CacheRead::NeedCached {
                        filters: f,
                        index: i,
                        keys: mapped_to,
                        needed,
                        filtered: passed,
                    }
                    &&& f == filters
                    &&& i == index
                    &&& mapped_keys(mapped_to@) == pending_views(pending@)
                    &&& passed == filtered
                },
            },
    {
        match self {
            CacheRead::NeedIndex { filters, pending, filtered } => {
                let index = match index {
                    Some(index) => index,
                    None => {
                        return CacheRead::Done(
                            CacheResult {
                                found: Vec::new(),
                                misses: pending,
                                filters,
                                index: None,
                                false_positives: 0,
                            },
                        );
                    },
                };
                if index.is_empty() {
                    let none: Vec<PendingKey> = Vec::new();
                    assert(pending_views(none@) =~= Seq::<PendingView>::empty());
                    return CacheRead::Done(
                        CacheResult {
                            found: Vec::new(),
                            misses: none,
                            filters,
                            index: Some(index),
                            false_positives: 0,
                        },
                    );
                }
                let mapped_to = key_blocks(pending, &index);
                let needed = needed_blocks(&mapped_to);
                CacheRead::NeedCached { filters, index, keys: mapped_to, needed, filtered }
            },
            other => other,
        }
    }

    /// Take what the cache holds of the needed blocks, block by block. A key
    /// is a hit when each of its blocks is in the cache.
    pub fn on_cached(self, cached: Vec<Option<Arc<Block>>>) -> (read: Self)
        requires
            self.wf(),
            self matches CacheRead::NeedCached { needed, .. } && needed@.len() == cached@.len(),
        ensures
            read.wf(),
            self matches CacheRead::NeedCached { filters, index, keys, needed, filtered } ==> {
                let blocks = cached_blocks(needed@, cached@);
                let hits = hit_keys(keys@, blocks);
                &&& read matches CacheRead::Done(result)
                &&& found_views(result.found@) == scanned(hits, read_rows(blocks))
                &&& pending_views(result.misses@) == mapped_keys(missed_keys(keys@, blocks))
                &&& result.filters == filters
                &&& result.index == Some(index)
                &&& result.false_positives == if filtered {
                    hits.len() - scanned(hits, read_rows(blocks)).len()
                } else {
                    0
                }
            },
    {
        match self {
            CacheRead::NeedCached { filters, index, keys, needed, filtered } => {
                let (blocks, _) = take_cached(&needed, cached);
                let (hits, misses) = split_hits(keys, &blocks);
                let result = scan(&hits, &blocks, filtered);
                assert(found_views(result.found@).len() == result.found@.len());
                CacheRead::Done(
                    CacheResult {
                        found: result.found,
                        misses,
                        filters,
                        index: Some(index),
                        false_positives: result.false_positives,
                    },
                )
            },
            other => other,
        }
    }
}

/// Whether each block that the key wants is in the cache.
fn all_cached(key: &KeyBlocks, blocks: &BTreeMap<usize, Arc<Block>>) -> (hit: bool)
    ensures
        hit == is_hit(*key, blocks@),
{
    let end: usize = key.blocks.end;
    let mut b: usize = key.blocks.start;
    while b < end
        invariant
            end == key.blocks.end,
            key.blocks.start <= b,
            forall|x: usize| key.blocks.start <= x < b ==> #[trigger] blocks@.contains_key(x),
        decreases end - b,
    {
        if !blocks.contains_key(&b) {
            assert(!blocks@.contains_key(b));
            return false;
        }
        b = b + 1;
    }
    true
}

/// Part the keys that the cache answers from the others.
fn split_hits(keys: Vec<KeyBlocks>, blocks: &BTreeMap<usize, Arc<Block>>) -> (parts: (
    Vec<KeyBlocks>,
    Vec<PendingKey>,
))
    ensures
        parts.0@ == hit_keys(keys@, blocks@),
        pending_views(parts.1@) == mapped_keys(missed_keys(keys@, blocks@)),
{
    let mut hits: Vec<KeyBlocks> = Vec::new();
    let mut misses: Vec<PendingKey> = Vec::new();
    let ghost hit = |key: KeyBlocks| is_hit(key, blocks@);
    let ghost miss = |key: KeyBlocks| !is_hit(key, blocks@);
    proof {
        keys@.take(0).lemma_filter_len(hit);
        keys@.take(0).lemma_filter_len(miss);
        assert(hits@ =~= keys@.take(0).filter(hit));
        assert(pending_views(misses@) =~= mapped_keys(keys@.take(0).filter(miss)));
    }
    for key in it: keys
        invariant
            it.seq() == keys@,
            hit == (|key: KeyBlocks| is_hit(key, blocks@)),
            miss == (|key: KeyBlocks| !is_hit(key, blocks@)),
            hits@ == keys@.take(it.index() as int).filter(hit),
            pending_views(misses@) == mapped_keys(keys@.take(it.index() as int).filter(miss)),
    {
        let ghost k = it.index() as int;
        let ghost past = keys@.take(k);
        let ghost before = pending_views(misses@);
        proof {
            assert(keys@.take(k + 1) =~= past.push(key));
            past.lemma_filter_push(key, hit);
            past.lemma_filter_push(key, miss);
        }
        if all_cached(&key, blocks) {
            hits.push(key);
        } else {
            let KeyBlocks { key: pending, blocks: _ } = key;
            misses.push(pending);
            assert(pending_views(misses@) =~= before.push(pending@));
            assert(mapped_keys(past.filter(miss).push(key)) =~= mapped_keys(past.filter(miss)).push(
                pending@,
            ));
        }
    }
    assert(keys@.take(keys@.len() as int) =~= keys@);
    (hits, misses)
}

// ---------------------------------------------------------------------------
// A read from the object store
// ---------------------------------------------------------------------------

/// The state of a read from the object store.
pub enum SstTask<F> {
    /// The read needs the filters of the SST.
    NeedFilters {
        pending: Vec<PendingKey>,
        known_index: Option<Arc<SsTableIndex>>,
    },
    /// The read needs the index of the SST.
    NeedIndex {
        filters: Arc<Vec<NamedFilter<F>>>,
        pending: Vec<PendingKey>,
    },
    /// The read needs the block ranges `runs`.
    NeedRuns {
        filters: Arc<Vec<NamedFilter<F>>>,
        index: Arc<SsTableIndex>,
        keys: Vec<KeyBlocks>,
        runs: Vec<Range<usize>>,
    },
    /// The read is complete.
    Done {
        found: Vec<KeyEntries>,
        /// The keys that the filters passed and that the SST does not hold.
        false_positives: u64,
    },
}

/// The read found nothing, and no key was a false positive.
pub open spec fn found_nothing<F>(task: SstTask<F>) -> bool {
    task matches SstTask::Done { found, false_positives } && found@.len() == 0 && false_positives
        == 0
}

/// The ranges that hold the blocks of the keys.
pub open spec fn ranges_of(
    runs: Seq<Range<usize>>,
    keys: Seq<KeyBlocks>,
    index: SsTableIndex,
    options: MultiGetOptions,
) -> bool {
    exists|needed: Seq<usize>|
        #![trigger increasing(needed)]
        increasing(needed) && (forall|b: usize| #[trigger] needed.contains(b) <==> wanted(keys, b))
            && runs == coalesced(
            needed,
            index.offsets@,
            options.coalesce_gap_bytes as u64,
            options.max_coalesced_bytes as u64,
        )
}

/// The read of some keys that are left, once the filters are known.
pub open spec fn opened_task<F>(
    task: SstTask<F>,
    keys: Seq<PendingView>,
    filters: Arc<Vec<NamedFilter<F>>>,
    index: Option<Arc<SsTableIndex>>,
    options: MultiGetOptions,
) -> bool {
    if keys.len() == 0 {
        found_nothing(task)
    } else {
        match index {
            None => task matches SstTask::NeedIndex { filters: f, pending } && f == filters
                && pending_views(pending@) == keys,
            Some(index) => mapped_task(task, keys, filters, index, options),
        }
    }
}

/// The read of some keys that are left, once the index is known.
pub open spec fn mapped_task<F>(
    task: SstTask<F>,
    keys: Seq<PendingView>,
    filters: Arc<Vec<NamedFilter<F>>>,
    index: Arc<SsTableIndex>,
    options: MultiGetOptions,
) -> bool {
    if index.starts().len() == 0 {
        found_nothing(task)
    } else {
        &&& task matches SstTask::NeedRuns { filters: f, index: i, keys: mapped_to, runs }
        &&& f == filters
        &&& i == index
        &&& mapped_keys(mapped_to@) == keys
        &&& ranges_of(runs@, mapped_to@, *index, options)
    }
}

impl<F: Filter> SstTask<F> {
    /// The state is one that a read can be in.
    pub open spec fn wf(self) -> bool {
        match self {
            SstTask::NeedFilters { known_index, .. } => known_index matches Some(index) ==> index.wf(),
            SstTask::NeedRuns { index, keys, runs, .. } => {
                &&& index.wf()
                &&& mapped(keys@, index.starts())
                &&& runs_in_order(runs@, index.offsets@)
                &&& forall|b: usize| #[trigger] wanted(keys@, b) ==> in_runs(runs@, b)
            },
            _ => true,
        }
    }

    /// Start a read. `filters` are known when they already pruned the keys,
    /// and `index` is known from an earlier read.
    pub fn start(
        keys: Vec<PendingKey>,
        filters: Option<Arc<Vec<NamedFilter<F>>>>,
        index: Option<Arc<SsTableIndex>>,
        options: &MultiGetOptions,
    ) -> (task: Self)
        requires
            index matches Some(index) ==> index.wf(),
        ensures
            task.wf(),
            match filters {
                None => task == (SstTask::<F>::NeedFilters { pending: keys, known_index: index }),
                Some(filters) => opened_task(
                    task,
                    pending_views(keys@),
                    filters,
                    index,
                    *options,
                ),
            },
    {
        match filters {
            None => SstTask::NeedFilters { pending: keys, known_index: index },
            Some(filters) => Self::open(keys, filters, index, options),
        }
    }

    /// Take the filters of the SST, and prune the keys. An SST that rules out
    /// every key never reads its index. Also returns how many keys the
    /// filters passed and rejected.
    pub fn on_filters(
        self,
        view: &SsTableView,
        filters: Arc<Vec<NamedFilter<F>>>,
        context: &Option<F::Context>,
        options: &MultiGetOptions,
    ) -> (taken: (Self, u64, u64))
        requires
            self.wf(),
            self is NeedFilters,
        ensures
            taken.0.wf(),
            self matches SstTask::NeedFilters { pending, known_index } ==> {
                let left = survivors_of(pending_views(pending@), *view, filters@, *context);
                &&& opened_task(taken.0, left, filters, known_index, *options)
                &&& taken.1 == if filters@.len() > 0 {
                    left.len()
                } else {
                    0
                }
                &&& taken.2 == rejected_by(
                    pending_views(pending@),
                    *view,
                    filters@,
                    *context,
                ).len()
            },
    {
        match self {
            SstTask::NeedFilters { pending, known_index } => {
                let pruned = prune_keys(view, &pending, &filters, context);
                let task = Self::open(pruned.survivors, filters, known_index, options);
                (task, pruned.positives, pruned.negatives)
            },
            other => (other, 0, 0),
        }
    }

    /// Take the index of the SST.
    pub fn on_index(self, index: Arc<SsTableIndex>, options: &MultiGetOptions) -> (task: Self)
        requires
            self is NeedIndex,
            index.wf(),
        ensures
            task.wf(),
            self matches SstTask::NeedIndex { filters, pending } ==> mapped_task(
                task,
                pending_views(pending@),
                filters,
                index,
                *options,
            ),
    {
        match self {
            SstTask::NeedIndex { filters, pending } => Self::map(pending, filters, index, options),
            other => other,
        }
    }

    /// The read of the keys that are left.
    fn open(
        keys: Vec<PendingKey>,
        filters: Arc<Vec<NamedFilter<F>>>,
        index: Option<Arc<SsTableIndex>>,
        options: &MultiGetOptions,
    ) -> (task: Self)
        requires
            index matches Some(index) ==> index.wf(),
        ensures
            task.wf(),
            opened_task(task, pending_views(keys@), filters, index, *options),
    {
        assert(pending_views(keys@).len() == keys@.len());
        if keys.len() == 0 {
            return SstTask::Done { found: Vec::new(), false_positives: 0 };
        }
        match index {
            None => SstTask::NeedIndex { filters, pending: keys },
            Some(index) => Self::map(keys, filters, index, options),
        }
    }

    /// Map the keys to their blocks, and the blocks to ranges.
    fn map(
        keys: Vec<PendingKey>,
        filters: Arc<Vec<NamedFilter<F>>>,
        index: Arc<SsTableIndex>,
        options: &MultiGetOptions,
    ) -> (task: Self)
        requires
            index.wf(),
        ensures
            task.wf(),
            mapped_task(task, pending_views(keys@), filters, index, *options),
    {
        if index.is_empty() {
            return SstTask::Done { found: Vec::new(), false_positives: 0 };
        }
        let mapped_to = key_blocks(keys, &index);
        let needed = needed_blocks(&mapped_to);
        let gap: u64 = options.coalesce_gap_bytes as u64;
        let max: u64 = options.max_coalesced_bytes as u64;
        let ends: usize = index.offsets.len();
        proof {
            assert forall|i: int| 0 <= i < needed@.len() implies (#[trigger] needed@[i]) + 1
                < ends by {
                assert(needed@.contains(needed@[i]));
                assert(wanted(mapped_to@, needed@[i]));
            }
            assert(blocks_in_order(needed@, index.offsets@));
        }
        let runs = coalesce_runs(needed.as_slice(), index.offsets.as_slice(), gap, max);
        proof {
            assert forall|b: usize| #[trigger] wanted(mapped_to@, b) implies in_runs(runs@, b) by {
                assert(needed@.contains(b));
                let i = choose|i: int| 0 <= i < needed@.len() && needed@[i] == b;
                law_runs_hold_the_blocks(needed@, index.offsets@, gap, max, i);
            }
        }
        SstTask::NeedRuns { filters, index, keys: mapped_to, runs }
    }

    /// Take the blocks of the ranges, range by range, and scan them.
    pub fn on_runs(self, fetched: Vec<Vec<Arc<Block>>>) -> (task: Self)
        requires
            self.wf(),
            self matches SstTask::NeedRuns { runs, .. } && whole(runs@, fetched_views(fetched@)),
        ensures
            task.wf(),
            self matches SstTask::NeedRuns { filters, index, keys, runs } ==> {
                let blocks = with_runs(Map::empty(), runs@, fetched_views(fetched@));
                &&& task matches SstTask::Done { found, false_positives }
                &&& found_views(found@) == scanned(keys@, read_rows(blocks))
                &&& false_positives == if filters@.len() > 0 {
                    keys@.len() - scanned(keys@, read_rows(blocks)).len()
                } else {
                    0
                }
            },
    {
        match self {
            SstTask::NeedRuns { filters, index, keys, runs } => {
                let none: BTreeMap<usize, Arc<Block>> = BTreeMap::new();
                assert(none@ =~= Map::<usize, Arc<Block>>::empty());
                let blocks = add_runs(none, &runs, fetched);
                let result = scan(&keys, &blocks, filters.len() > 0);
                assert(found_views(result.found@).len() == result.found@.len());
                SstTask::Done { found: result.found, false_positives: result.false_positives }
            },
            other => other,
        }
    }
}

/// The cache answers a hit as the SST does.
pub proof fn law_cache_hits_answer_like_the_sst(
    keys: Seq<KeyBlocks>,
    starts: Seq<Seq<u8>>,
    blocks: Map<usize, Arc<Block>>,
    rows: Seq<Seq<EntryView>>,
)
    requires
        rows.len() <= usize::MAX,
        rows_in_order(all_rows(rows)),
        describes(starts, rows),
        mapped(keys, starts),
        sound_blocks(blocks, rows),
    ensures
        scanned(hit_keys(keys, blocks), read_rows(blocks)) == sst_answers(
            mapped_keys(hit_keys(keys, blocks)),
            rows,
        ),
{
    let hit = |key: KeyBlocks| is_hit(key, blocks);
    let hits = hit_keys(keys, blocks);
    assert forall|i: int| 0 <= i < hits.len() implies crate::sstable::covering(
        (#[trigger] hits[i]).blocks,
        starts,
        content(hits[i].key.key),
    ) && is_hit(hits[i], blocks) by {
        keys.lemma_filter_pred(hit, i);
        keys.lemma_filter_contains_rev(hit, hits[i]);
        let j = choose|j: int| 0 <= j < keys.len() && keys[j] == hits[i];
        assert(keys[j] == hits[i]);
    }
    assert forall|b: usize| #[trigger] wanted(hits, b) implies blocks.contains_key(b) || in_runs(
        Seq::<Range<usize>>::empty(),
        b,
    ) by {
        let i = choose|i: int|
            0 <= i < hits.len() && (#[trigger] hits[i]).blocks.start <= b < hits[i].blocks.end;
        assert(is_hit(hits[i], blocks));
    }
    law_read_returns_what_the_sst_holds(
        hits,
        starts,
        blocks,
        Seq::empty(),
        Seq::empty(),
        rows,
    );
}

/// Each key is a hit or a miss, and not both.
pub proof fn law_each_key_hits_or_misses(
    keys: Seq<KeyBlocks>,
    blocks: Map<usize, Arc<Block>>,
    key: KeyBlocks,
)
    requires
        keys.contains(key),
    ensures
        hit_keys(keys, blocks).contains(key) != missed_keys(keys, blocks).contains(key),
{
    let hit = |key: KeyBlocks| is_hit(key, blocks);
    let miss = |key: KeyBlocks| !is_hit(key, blocks);
    let i = choose|i: int| 0 <= i < keys.len() && keys[i] == key;
    if is_hit(key, blocks) {
        keys.lemma_filter_contains(hit, i);
        if missed_keys(keys, blocks).contains(key) {
            let missed = missed_keys(keys, blocks);
            let j = choose|j: int| 0 <= j < missed.len() && missed[j] == key;
            keys.lemma_filter_pred(miss, j);
        }
    } else {
        keys.lemma_filter_contains(miss, i);
        if hit_keys(keys, blocks).contains(key) {
            let hits = hit_keys(keys, blocks);
            let j = choose|j: int| 0 <= j < hits.len() && hits[j] == key;
            keys.lemma_filter_pred(hit, j);
        }
    }
}

/// Pruning keeps a key exactly when the view holds it and each filter passes
/// it. It counts a key as rejected when the view holds it and some filter does
/// not pass it. The order of the keys stays.
pub proof fn law_pruning_keeps_what_the_sst_might_hold<F: Filter>(
    keys: Seq<PendingView>,
    key: PendingView,
    view: SsTableView,
    filters: Seq<NamedFilter<F>>,
    context: Option<F::Context>,
)
    ensures
        ({
            let passes = forall|i: int|
                0 <= i < filters.len() ==> (#[trigger] filters[i]).filter.passes(key.key, context);
            &&& survivors_of(keys.push(key), view, filters, context) == if view.holds(key.key)
                && passes {
                survivors_of(keys, view, filters, context).push(key)
            } else {
                survivors_of(keys, view, filters, context)
            }
            &&& rejected_by(keys.push(key), view, filters, context) == if view.holds(key.key)
                && !passes {
                rejected_by(keys, view, filters, context).push(key)
            } else {
                rejected_by(keys, view, filters, context)
            }
        }),
        survivors_of(Seq::empty(), view, filters, context).len() == 0,
        rejected_by(Seq::empty(), view, filters, context).len() == 0,
{
    let pass = |k: PendingView| survives(k, view, filters, context);
    let reject = |k: PendingView| view.holds(k.key) && !all_pass(filters, k.key, context);
    keys.lemma_filter_push(key, pass);
    keys.lemma_filter_push(key, reject);
    Seq::<PendingView>::empty().lemma_filter_len(pass);
    Seq::<PendingView>::empty().lemma_filter_len(reject);
}

/// The cache answers a key exactly when it holds each block that can hold the
/// key. One block that is not there makes the key a miss.
pub proof fn law_a_hit_has_each_of_its_blocks(
    keys: Seq<KeyBlocks>,
    key: KeyBlocks,
    blocks: Map<usize, Arc<Block>>,
)
    ensures
        ({
            let hit = forall|b: usize|
                key.blocks.start <= b < key.blocks.end ==> #[trigger] blocks.contains_key(b);
            &&& hit_keys(keys.push(key), blocks) == if hit {
                hit_keys(keys, blocks).push(key)
            } else {
                hit_keys(keys, blocks)
            }
            &&& missed_keys(keys.push(key), blocks) == if hit {
                missed_keys(keys, blocks)
            } else {
                missed_keys(keys, blocks).push(key)
            }
        }),
{
    keys.lemma_filter_push(key, |k: KeyBlocks| is_hit(k, blocks));
    keys.lemma_filter_push(key, |k: KeyBlocks| !is_hit(k, blocks));
}

/// A read from the cache that ends early found nothing, counts no false
/// positive, and leaves exactly the keys that it had to the read behind it.
pub proof fn law_a_read_that_ends_early_leaves_its_keys<F>(
    read: CacheRead<F>,
    misses: Seq<PendingView>,
    filters: Option<Arc<Vec<NamedFilter<F>>>>,
    index: Option<Arc<SsTableIndex>>,
    i: int,
)
    requires
        ended_early(read, misses, filters, index),
        0 <= i < misses.len(),
    ensures
        read matches CacheRead::Done(result) && result.found@.len() == 0 && result.misses@.len()
            == misses.len() && result.misses@[i].idx == misses[i].idx && content(
            result.misses@[i].key,
        ) == misses[i].key && result.filters == filters && result.index == index
            && result.false_positives == 0,
{
    if let CacheRead::Done(result) = read {
        assert(pending_views(result.misses@)[i] == misses[i]);
    }
}

/// Filters that the cache does not hold reject no key. Those that it holds all
/// have their say.
pub proof fn law_cached_filters_have_their_say<F>(
    filters: Option<Arc<Vec<NamedFilter<F>>>>,
    i: int,
)
    ensures
        filters is None ==> known_filters(filters).len() == 0,
        filters matches Some(all) ==> known_filters(filters).len() == all@.len() && (0 <= i
            < all@.len() ==> known_filters(filters)[i] == all@[i]),
{
}

/// A read with no key left ends with nothing. Without an index it asks for the
/// index, for the keys that it has. With an index it fetches ranges that hold
/// each block that can hold one of its keys, and an SST with no block ends it.
pub proof fn law_a_task_fetches_the_blocks_of_its_keys<F: Filter>(
    task: SstTask<F>,
    keys: Seq<PendingView>,
    filters: Arc<Vec<NamedFilter<F>>>,
    index: Option<Arc<SsTableIndex>>,
    options: MultiGetOptions,
)
    requires
        task.wf(),
        opened_task(task, keys, filters, index, options),
    ensures
        task is Done <==> keys.len() == 0 || (index matches Some(index) && index.starts().len()
            == 0),
        task matches SstTask::Done { found, false_positives } ==> found@.len() == 0
            && false_positives == 0,
        task is NeedIndex <==> keys.len() > 0 && index is None,
        task matches SstTask::NeedIndex { filters: f, pending } ==> f == filters && pending_views(
            pending@,
        ) == keys,
        task matches SstTask::NeedRuns { filters: f, index: used, keys: mapped_to, runs } ==> {
            &&& f == filters
            &&& index == Some(used)
            &&& mapped_keys(mapped_to@) == keys
            &&& forall|i: int, b: int|
                0 <= i < keys.len() && #[trigger] covers(used.starts(), b, (
                #[trigger] keys[i]).key) ==> in_runs(runs@, b as usize)
        },
        !(task is NeedFilters),
{
    if let SstTask::NeedRuns { filters: f, index: used, keys: mapped_to, runs } = task {
        let starts = used.starts();
        assert forall|i: int, b: int|
            0 <= i < keys.len() && #[trigger] covers(starts, b, (
            #[trigger] keys[i]).key) implies in_runs(runs@, b as usize) by {
            assert(mapped_keys(mapped_to@)[i] == keys[i]);
            assert(crate::sstable::covering(
                mapped_to@[i].blocks,
                starts,
                content(mapped_to@[i].key.key),
            ));
            assert(mapped_to@[i].key@ == keys[i]);
            assert(wanted(mapped_to@, b as usize));
        }
    }
}

} // verus!
