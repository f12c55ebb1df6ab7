//! How many requests a batch sends.
//!
//! A batch must not cost more than a loop of point reads. The requests of both
//! are counted against what the cache holds when they start: a request loads
//! the filters of an SST, or its index, or one range of its blocks. The law of
//! this module says that a batch sends no more requests than the point reads
//! of its keys send for indexes and blocks, and one filter load for each SST
//! whose filters were not in the cache.

use std::sync::Arc;
use vstd::prelude::*;

use super::candidates::{names_of, FiltersView, SstState};
use super::economy::{
    agrees,
    law_a_read_takes_the_newest_ssts_that_pass,
    law_the_other_keys_add_no_reads,
    lemma_kept_is_passing,
    passing,
};
use super::events::{
    arrivals_hold,
    law_each_key_comes_to_its_walk,
    lemma_arrive_one_outcome,
    lemma_index_keeps_the_truth,
    of_key,
    Event,
};
use super::invariants::{
    lemma_arrive_middle,
    lemma_arrive_one,
    lemma_pick_in_order,
    lemma_room_for_pick,
    lemma_schedule,
    lemma_started,
    lemma_wake_middle,
    lemma_with_filters,
    lemma_with_index,
    lemma_with_loads,
    lemma_woken,
};
use super::key::{
    checked_ssts,
    filled,
    joined,
    kept,
    lemma_kept_push,
    lemma_reach_bound,
    ready,
    unknowns,
    Candidate,
    KeyState,
    PickView,
};
use super::outcome::{
    faithful,
    held,
    lemma_held_add,
    lemma_joined_is_held,
    lemma_ready_is_a_start,
    lemma_slot_of_finds,
    slot_ssts,
};
use super::pipeline::{key_ok, queued, started_loads, with_loads, PipelineState};
use super::sst::missing_blocks;
use super::walk::{has_base, law_walk_over_two_layers, taken};
use crate::coalesce::{
    blocks_in_order,
    coalesced,
    holds_both,
    law_shared_ranges_are_no_more,
};
use crate::filter::{all_pass, Filter, NamedFilter};
use crate::octets::content;
use crate::partitions::{covers, Partitioned};
use crate::sstable::{
    covering,
    increasing,
    mapped,
    mapped_keys,
    offsets_in_order,
    wanted,
    Block,
    KeyBlocks,
    PendingView,
    SsTableIndex,
};
use crate::types::EntryView;

verus! {

// ---------------------------------------------------------------------------
// The requests for one SST
// ---------------------------------------------------------------------------

/// The blocks of an SST, and what the cache holds of it.
pub struct SstLayout {
    /// The first key of each block.
    pub starts: Seq<Seq<u8>>,
    /// The byte offset of each block, and the end of the last block.
    pub offsets: Seq<u64>,
    /// The cache holds the index.
    pub index_cached: bool,
    /// The blocks that the cache holds.
    pub cached: spec_fn(usize) -> bool,
}

/// The first `n` blocks of an SST.
pub open spec fn first_blocks(n: nat) -> Seq<usize> {
    Seq::new(n, |b: int| b as usize)
}

/// How a batch merges block ranges.
pub struct MergeLimits {
    pub gap: u64,
    pub max: u64,
}

impl SstLayout {
    /// The blocks are in order.
    pub open spec fn wf(self) -> bool {
        &&& self.offsets.len() == self.starts.len() + 1
        &&& self.offsets.len() <= usize::MAX
        &&& offsets_in_order(self.offsets)
    }

    /// One of the keys wants block `b`, and the cache does not hold it.
    pub open spec fn misses(self, keys: Seq<Seq<u8>>, b: usize) -> bool {
        !(self.cached)(b) && exists|i: int|
            0 <= i < keys.len() && covers(self.starts, b as int, #[trigger] keys[i])
    }

    /// The blocks that the keys want and that the cache does not hold, in
    /// order.
    pub open spec fn missing(self, keys: Seq<Seq<u8>>) -> Seq<usize> {
        first_blocks(self.starts.len()).filter(|b: usize| self.misses(keys, b))
    }

    /// The requests of one read of the keys: the index, unless the cache
    /// holds it, and the ranges of the blocks that the cache does not hold.
    pub open spec fn requests(self, keys: Seq<Seq<u8>>, limits: MergeLimits) -> nat {
        (if keys.len() > 0 && !self.index_cached {
            1nat
        } else {
            0
        }) + coalesced(self.missing(keys), self.offsets, limits.gap, limits.max).len()
    }

    /// The requests of one read for each key.
    pub open spec fn requests_one_by_one(self, keys: Seq<Seq<u8>>, limits: MergeLimits) -> nat
        decreases keys.len(),
    {
        if keys.len() == 0 {
            0
        } else {
            self.requests_one_by_one(keys.drop_last(), limits) + self.requests(
                seq![keys.last()],
                limits,
            )
        }
    }
}

/// A part of the first blocks is in order.
proof fn lemma_filtered_blocks(n: nat, pred: spec_fn(usize) -> bool)
    requires
        n <= usize::MAX,
    ensures
        increasing(first_blocks(n).filter(pred)),
        forall|b: usize| #[trigger]
            first_blocks(n).filter(pred).contains(b) <==> b < n && pred(b),
    decreases n,
{
    let all = first_blocks(n);
    if n == 0 {
        all.lemma_filter_len(pred);
    } else {
        let m = (n - 1) as nat;
        let front = first_blocks(m);
        let last = m as usize;
        lemma_filtered_blocks(m, pred);
        assert(all =~= front.push(last));
        front.lemma_filter_push(last, pred);
        let before = front.filter(pred);
        let after = all.filter(pred);
        assert forall|i: int, j: int| 0 <= i < j < after.len() implies (#[trigger] after[i]) < (
        #[trigger] after[j]) by {
            if j == before.len() {
                assert(before.contains(before[i]));
            }
        }
        assert forall|b: usize| #[trigger] after.contains(b) <==> b < n && pred(b) by {
            if after.contains(b) {
                let i = choose|i: int| 0 <= i < after.len() && after[i] == b;
                if i < before.len() {
                    assert(before.contains(before[i]));
                }
            }
            if b < n && pred(b) {
                if b < m {
                    assert(before.contains(b));
                    let i = choose|i: int| 0 <= i < before.len() && before[i] == b;
                    assert(after[i] == b);
                } else {
                    assert(after[before.len() as int] == b);
                }
            }
        }
    }
}

impl SstLayout {
    /// The missing blocks are in order.
    proof fn lemma_missing(self, keys: Seq<Seq<u8>>)
        requires
            self.wf(),
        ensures
            increasing(self.missing(keys)),
            blocks_in_order(self.missing(keys), self.offsets),
            forall|b: usize| #[trigger]
                self.missing(keys).contains(b) <==> b < self.starts.len() && self.misses(keys, b),
    {
        lemma_filtered_blocks(self.starts.len(), |b: usize| self.misses(keys, b));
        let missing = self.missing(keys);
        assert forall|i: int| 0 <= i < missing.len() implies (#[trigger] missing[i]) + 1
            < self.offsets.len() by {
            assert(missing.contains(missing[i]));
        }
    }
}

/// One read of an SST for many keys sends no more requests than one read for
/// each of them.
pub proof fn law_one_read_for_many_keys(
    layout: SstLayout,
    keys: Seq<Seq<u8>>,
    limits: MergeLimits,
)
    requires
        layout.wf(),
    ensures
        layout.requests(keys, limits) <= layout.requests_one_by_one(keys, limits),
    decreases keys.len(),
{
    layout.lemma_missing(keys);
    if keys.len() == 0 {
        let missing = layout.missing(keys);
        if missing.len() > 0 {
            assert(missing.contains(missing[0]));
        }
        assert(coalesced(missing, layout.offsets, limits.gap, limits.max).len() == 0);
    } else {
        let front = keys.drop_last();
        let last = seq![keys.last()];
        law_one_read_for_many_keys(layout, front, limits);
        layout.lemma_missing(front);
        layout.lemma_missing(last);
        assert forall|b: usize| #[trigger]
            layout.missing(keys).contains(b) <==> layout.missing(front).contains(b)
                || layout.missing(last).contains(b) by {
            if layout.misses(keys, b) {
                let i = choose|i: int|
                    0 <= i < keys.len() && covers(layout.starts, b as int, #[trigger] keys[i]);
                if i < front.len() {
                    assert(covers(layout.starts, b as int, front[i]));
                } else {
                    assert(covers(layout.starts, b as int, last[0]));
                }
            }
            if layout.misses(front, b) {
                let i = choose|i: int|
                    0 <= i < front.len() && covers(layout.starts, b as int, #[trigger] front[i]);
                assert(covers(layout.starts, b as int, keys[i]));
            }
            if layout.misses(last, b) {
                assert(covers(layout.starts, b as int, last[0]));
                assert(covers(layout.starts, b as int, keys[keys.len() - 1]));
            }
        }
        assert(holds_both(layout.missing(keys), layout.missing(front), layout.missing(last)));
        law_shared_ranges_are_no_more(
            layout.missing(keys),
            layout.missing(front),
            layout.missing(last),
            layout.offsets,
            limits.gap,
            limits.max,
        );
    }
}

/// Two lists in order with the same blocks are the same.
proof fn lemma_same_blocks(a: Seq<usize>, b: Seq<usize>)
    requires
        increasing(a),
        increasing(b),
        forall|x: usize| #[trigger] a.contains(x) <==> b.contains(x),
    ensures
        a == b,
    decreases a.len(),
{
    if a.len() == 0 {
        if b.len() > 0 {
            assert(b.contains(b[0]));
            assert(a.contains(b[0]));
        }
        assert(a =~= b);
    } else {
        assert(a.contains(a[0]));
        assert(b.contains(a[0]));
        let x = a.last();
        let y = b.last();
        assert(a.contains(a[a.len() - 1]));
        assert(b.contains(x));
        let i = choose|i: int| 0 <= i < b.len() && b[i] == x;
        assert(x <= y) by {
            if i < b.len() - 1 {
                assert(b[i] < b[b.len() - 1]);
            }
        }
        assert(b.contains(b[b.len() - 1]));
        assert(a.contains(y));
        let j = choose|j: int| 0 <= j < a.len() && a[j] == y;
        assert(y <= x) by {
            if j < a.len() - 1 {
                assert(a[j] < a[a.len() - 1]);
            }
        }
        let fa = a.drop_last();
        let fb = b.drop_last();
        assert forall|z: usize| #[trigger] fa.contains(z) <==> fb.contains(z) by {
            if fa.contains(z) {
                let k = choose|k: int| 0 <= k < fa.len() && fa[k] == z;
                assert(a[k] < a[a.len() - 1]);
                assert(a.contains(z));
                let l = choose|l: int| 0 <= l < b.len() && b[l] == z;
                assert(fb[l] == z);
            }
            if fb.contains(z) {
                let k = choose|k: int| 0 <= k < fb.len() && fb[k] == z;
                assert(b[k] < b[b.len() - 1]);
                assert(a.contains(z));
                let l = choose|l: int| 0 <= l < a.len() && a[l] == z;
                assert(fa[l] == z);
            }
        }
        lemma_same_blocks(fa, fb);
        assert(a =~= fa.push(x));
        assert(b =~= fb.push(y));
    }
}

/// What a read misses of the blocks that it needs.
proof fn lemma_missing_blocks(needed: Seq<usize>, cached: Seq<Option<Arc<Block>>>)
    requires
        increasing(needed),
        needed.len() <= cached.len(),
    ensures
        increasing(missing_blocks(needed, cached)),
        forall|b: usize| #[trigger]
            missing_blocks(needed, cached).contains(b) <==> exists|i: int|
                0 <= i < needed.len() && needed[i] == b && #[trigger] cached[i] is None,
    decreases needed.len(),
{
    if needed.len() > 0 {
        let front = needed.drop_last();
        let n = front.len() as int;
        let before = missing_blocks(front, cached);
        let after = missing_blocks(needed, cached);
        lemma_missing_blocks(front, cached);
        assert forall|i: int, j: int| 0 <= i < j < after.len() implies (#[trigger] after[i]) < (
        #[trigger] after[j]) by {
            if j == before.len() {
                assert(before.contains(before[i]));
                let k = choose|k: int|
                    0 <= k < front.len() && front[k] == before[i] && #[trigger] cached[k] is None;
                assert(needed[k] < needed[n]);
            }
        }
        assert forall|b: usize| #[trigger] after.contains(b) <==> exists|i: int|
            0 <= i < needed.len() && needed[i] == b && #[trigger] cached[i] is None by {
            if after.contains(b) {
                let k = choose|k: int| 0 <= k < after.len() && after[k] == b;
                if k < before.len() {
                    assert(before.contains(b));
                    let i = choose|i: int|
                        0 <= i < front.len() && front[i] == b && #[trigger] cached[i] is None;
                    assert(needed[i] == b);
                } else {
                    assert(needed[n] == b && cached[n] is None);
                }
            }
            if exists|i: int|
                0 <= i < needed.len() && needed[i] == b && #[trigger] cached[i] is None {
                let i = choose|i: int|
                    0 <= i < needed.len() && needed[i] == b && #[trigger] cached[i] is None;
                if i < n {
                    assert(front[i] == b);
                    assert(before.contains(b));
                    let k = choose|k: int| 0 <= k < before.len() && before[k] == b;
                    assert(after[k] == b);
                } else {
                    assert(after[after.len() - 1] == b);
                }
            }
        }
    }
}

/// The names of some keys of a batch.
pub open spec fn pending_names(keys: Seq<PendingView>) -> Seq<Seq<u8>> {
    keys.map_values(|key: PendingView| key.key)
}

/// A read fetches exactly what its keys miss: the blocks that it merges into
/// ranges are the missing blocks of the layout.
pub proof fn law_a_read_fetches_what_its_keys_miss(
    layout: SstLayout,
    index: SsTableIndex,
    keys: Seq<KeyBlocks>,
    needed: Seq<usize>,
    cached: Seq<Option<Arc<Block>>>,
)
    requires
        index.wf(),
        layout.starts == index.starts(),
        layout.offsets == index.offsets@,
        layout.offsets.len() <= usize::MAX,
        mapped(keys, index.starts()),
        increasing(needed),
        forall|b: usize| #[trigger] needed.contains(b) <==> wanted(keys, b),
        cached.len() == needed.len(),
        forall|i: int|
            0 <= i < needed.len() ==> ((#[trigger] cached[i]) is Some <==> (layout.cached)(
                needed[i],
            )),
    ensures
        missing_blocks(needed, cached) == layout.missing(pending_names(mapped_keys(keys))),
{
    let names = pending_names(mapped_keys(keys));
    let missed = missing_blocks(needed, cached);
    lemma_missing_blocks(needed, cached);
    layout.lemma_missing(names);
    assert forall|b: usize| #[trigger] missed.contains(b) <==> layout.missing(names).contains(b) by {
        if missed.contains(b) {
            let i = choose|i: int|
                0 <= i < needed.len() && needed[i] == b && #[trigger] cached[i] is None;
            assert(needed.contains(b));
            assert(wanted(keys, b));
            let k = choose|k: int|
                0 <= k < keys.len() && (#[trigger] keys[k]).blocks.start <= b < keys[k].blocks.end;
            assert(covering(keys[k].blocks, layout.starts, content(keys[k].key.key)));
            assert(covers(layout.starts, b as int, names[k]));
        }
        if layout.missing(names).contains(b) {
            assert(layout.misses(names, b));
            let k = choose|k: int|
                0 <= k < names.len() && covers(layout.starts, b as int, #[trigger] names[k]);
            assert(covering(keys[k].blocks, layout.starts, content(keys[k].key.key)));
            assert(wanted(keys, b));
            assert(needed.contains(b));
            let i = choose|i: int| 0 <= i < needed.len() && needed[i] == b;
            assert(cached[i] is None);
        }
    }
    lemma_same_blocks(missed, layout.missing(names));
}

// ---------------------------------------------------------------------------
// The SSTs that a point read reads
// ---------------------------------------------------------------------------

/// How many SSTs that pass a point read takes at once: one at first, then
/// `lookahead`, and all of them when it holds a merge operand.
pub open spec fn read_limit(operand: bool, rounds: nat, lookahead: usize) -> nat {
    if operand {
        usize::MAX as nat
    } else if rounds == 0 || lookahead == 0 {
        1
    } else {
        lookahead as nat
    }
}

/// The smaller of two numbers.
pub open spec fn at_most(n: nat, limit: nat) -> nat {
    if n < limit {
        n
    } else {
        limit
    }
}

/// The SSTs that a point read reads, of those whose filters pass its key,
/// newest first. It reads on until it meets a base value.
pub open spec fn point_reads(
    passing: Seq<usize>,
    operand: bool,
    rounds: nat,
    lookahead: usize,
    versions: spec_fn(usize) -> Seq<EntryView>,
    max_seq: Option<u64>,
) -> Seq<usize>
    decreases passing.len(),
{
    if passing.len() == 0 {
        Seq::empty()
    } else {
        let n = at_most(passing.len(), read_limit(operand, rounds, lookahead)) as int;
        let now = passing.take(n);
        let found = held(now, versions);
        if has_base(found, max_seq) {
            now
        } else {
            now + point_reads(
                passing.skip(n),
                operand || taken(found, max_seq).len() > 0,
                rounds + 1,
                lookahead,
                versions,
                max_seq,
            )
        }
    }
}

/// What a batch reads from: one state of the store, and what the cache holds
/// of it.
pub struct Scene<F: Filter> {
    /// The keys of the batch.
    pub names: Seq<Seq<u8>>,
    /// The filters of each SST.
    pub filters: spec_fn(usize) -> Seq<NamedFilter<F>>,
    /// The versions that each SST holds of each key, newest first.
    pub versions: spec_fn(int, usize) -> Seq<EntryView>,
    /// The blocks of each SST.
    pub layouts: spec_fn(usize) -> SstLayout,
    pub context: Option<F::Context>,
    pub max_seq: Option<u64>,
    pub lookahead: usize,
    pub limits: MergeLimits,
}

impl<F: Filter> Scene<F> {
    /// What the filters of each SST say about key `u`.
    pub open spec fn answers(self, u: int) -> spec_fn(usize) -> Option<bool> {
        |sst: usize| Some(all_pass((self.filters)(sst), self.names[u], self.context))
    }

    /// The SSTs that key `u` of the batch still reads: it waits for the
    /// current read, and goes on when that brings no base value.
    pub open spec fn reads_left(self, u: int, key: KeyState) -> Seq<usize> {
        let found = held(slot_ssts(key.inflight), of_key(self.versions, u));
        if key.done || has_base(found, self.max_seq) {
            Seq::empty()
        } else {
            point_reads(
                passing(key.candidates, self.answers(u)),
                key.has_operand() || taken(found, self.max_seq).len() > 0,
                key.rounds as nat,
                self.lookahead,
                of_key(self.versions, u),
                self.max_seq,
            )
        }
    }

    /// The requests of a read of one SST for key `u` alone.
    pub open spec fn requests(self, u: int, sst: usize) -> nat {
        (self.layouts)(sst).requests(seq![self.names[u]], self.limits)
    }

    /// The requests of reads of some SSTs for key `u` alone.
    pub open spec fn requests_for(self, u: int, ssts: Seq<usize>) -> nat
        decreases ssts.len(),
    {
        if ssts.len() == 0 {
            0
        } else {
            self.requests_for(u, ssts.drop_last()) + self.requests(u, ssts.last())
        }
    }

    /// The requests that the keys still send, when each of them reads alone.
    pub open spec fn requests_left(self, keys: Seq<KeyState>) -> nat
        decreases keys.len(),
    {
        if keys.len() == 0 {
            0
        } else {
            let u = keys.len() - 1;
            self.requests_left(keys.drop_last()) + self.requests_for(
                u,
                self.reads_left(u, keys.last()),
            )
        }
    }

    /// The names of some keys of the batch.
    pub open spec fn names_of(self, us: Seq<usize>) -> Seq<Seq<u8>> {
        us.map_values(|u: usize| self.names[u as int])
    }

    /// The requests of reads of one SST, one for each of the keys.
    pub open spec fn requests_of_queue(self, sst: usize, us: Seq<usize>) -> nat {
        (self.layouts)(sst).requests_one_by_one(self.names_of(us), self.limits)
    }

    /// The requests of the keys that wait for a read, one read for each key
    /// and SST.
    pub open spec fn requests_ready(self, ready: Seq<Seq<usize>>) -> nat
        decreases ready.len(),
    {
        if ready.len() == 0 {
            0
        } else {
            self.requests_ready(ready.drop_last()) + self.requests_of_queue(
                (ready.len() - 1) as usize,
                ready.last(),
            )
        }
    }

    /// The requests that a batch still sends at most.
    pub open spec fn bound(self, batch: PipelineState<F>) -> nat {
        self.requests_left(batch.keys) + self.requests_ready(batch.ready) + unloaded(batch.ssts)
            + batch.loads.len()
    }

    /// The batch reads from the scene.
    pub open spec fn fits(self, batch: PipelineState<F>) -> bool {
        &&& names_of(batch.keys) == self.names
        &&& batch.context == self.context
        &&& batch.max_seq == self.max_seq
        &&& batch.lookahead == self.lookahead
        &&& forall|s: int|
            0 <= s < batch.ssts.len() ==> ((
            #[trigger] batch.ssts[s]).filters matches FiltersView::Loaded(filters) ==> filters
                == (self.filters)(s as usize))
        &&& forall|s: usize| (#[trigger] (self.layouts)(s)).wf()
    }

    /// The requests that an event starts.
    pub open spec fn requests_at(self, batch: PipelineState<F>, event: Event<F>) -> nat {
        match event {
            Event::HandOut { sst } => (self.layouts)(sst).requests(
                self.names_of(batch.ready[sst as int]),
                self.limits,
            ),
            Event::HandOutLoads => batch.loads.len(),
            _ => 0,
        }
    }

    /// The requests that some events start, one after the other.
    pub open spec fn requests_over(self, batch: PipelineState<F>, events: Seq<Event<F>>) -> nat
        decreases events.len(),
    {
        if events.len() == 0 {
            0
        } else {
            self.requests_over(batch, events.drop_last()) + self.requests_at(
                batch.after_all(events.drop_last()),
                events.last(),
            )
        }
    }

    /// The filters that come are those of their SSTs.
    pub open spec fn brings_its_filters(self, event: Event<F>) -> bool {
        event matches Event::Filters { sst, filters } ==> filters == (self.filters)(sst)
    }
}

/// The SSTs whose filters nobody asked for yet.
pub open spec fn unloaded<F>(ssts: Seq<SstState<F>>) -> nat
    decreases ssts.len(),
{
    if ssts.len() == 0 {
        0
    } else {
        unloaded(ssts.drop_last()) + if ssts.last().filters is NotLoaded {
            1nat
        } else {
            0
        }
    }
}

// ---------------------------------------------------------------------------
// Sums
// ---------------------------------------------------------------------------

/// How the count of unloaded filters changes with one SST.
proof fn lemma_unloaded_update<F>(ssts: Seq<SstState<F>>, s: int, sst: SstState<F>)
    requires
        0 <= s < ssts.len(),
    ensures
        unloaded(ssts.update(s, sst)) == unloaded(ssts) - (if ssts[s].filters is NotLoaded {
            1int
        } else {
            0
        }) + (if sst.filters is NotLoaded {
            1int
        } else {
            0
        }),
    decreases ssts.len(),
{
    let front = ssts.drop_last();
    let after = ssts.update(s, sst);
    if s == ssts.len() - 1 {
        assert(after.drop_last() =~= front);
    } else {
        assert(after.drop_last() =~= front.update(s, sst));
        lemma_unloaded_update(front, s, sst);
    }
}

/// SSTs with the same filters have the same count.
proof fn lemma_unloaded_same<F>(a: Seq<SstState<F>>, b: Seq<SstState<F>>)
    requires
        a.len() == b.len(),
        forall|s: int| 0 <= s < a.len() ==> (#[trigger] a[s]).filters == b[s].filters,
    ensures
        unloaded(a) == unloaded(b),
    decreases a.len(),
{
    if a.len() > 0 {
        assert forall|s: int| 0 <= s < a.drop_last().len() implies (
        #[trigger] a.drop_last()[s]).filters == b.drop_last()[s].filters by {
            assert(a[s].filters == b[s].filters);
        }
        lemma_unloaded_same(a.drop_last(), b.drop_last());
        assert(a[a.len() - 1].filters == b[b.len() - 1].filters);
    }
}

/// Each load that starts is for an SST whose filters nobody asked for.
proof fn lemma_loads_are_counted<F>(ssts: Seq<SstState<F>>, wanted: Seq<usize>)
    requires
        forall|i: int| 0 <= i < wanted.len() ==> (#[trigger] wanted[i]) < ssts.len(),
    ensures
        unloaded(with_loads(ssts, wanted)) + started_loads(ssts, wanted).len() == unloaded(ssts),
        with_loads(ssts, wanted).len() == ssts.len(),
    decreases wanted.len(),
{
    if wanted.len() > 0 {
        let front = wanted.drop_last();
        assert forall|i: int| 0 <= i < front.len() implies (#[trigger] front[i]) < ssts.len() by {
            assert(wanted[i] < ssts.len());
        }
        lemma_loads_are_counted(ssts, front);
        let before = with_loads(ssts, front);
        let last = wanted[wanted.len() - 1] as int;
        assert(last < ssts.len());
        lemma_unloaded_update(
            before,
            last,
            SstState { filters: FiltersView::Loading, ..before[last] },
        );
    }
}

impl<F: Filter> Scene<F> {
    /// The requests of two lists of reads.
    proof fn lemma_requests_add(self, u: int, a: Seq<usize>, b: Seq<usize>)
        ensures
            self.requests_for(u, a + b) == self.requests_for(u, a) + self.requests_for(u, b),
        decreases b.len(),
    {
        if b.len() == 0 {
            assert(a + b =~= a);
        } else {
            assert((a + b).drop_last() =~= a + b.drop_last());
            self.lemma_requests_add(u, a, b.drop_last());
        }
    }

    /// How the requests of the keys change with one key.
    proof fn lemma_left_update(self, keys: Seq<KeyState>, u: int, key: KeyState)
        requires
            0 <= u < keys.len(),
        ensures
            self.requests_left(keys.update(u, key)) == self.requests_left(keys)
                - self.requests_for(u, self.reads_left(u, keys[u])) + self.requests_for(
                u,
                self.reads_left(u, key),
            ),
        decreases keys.len(),
    {
        let front = keys.drop_last();
        let after = keys.update(u, key);
        if u == keys.len() - 1 {
            assert(after.drop_last() =~= front);
        } else {
            assert(after.drop_last() =~= front.update(u, key));
            self.lemma_left_update(front, u, key);
        }
    }

    /// How the requests of the queues change with one queue.
    proof fn lemma_ready_update(self, ready: Seq<Seq<usize>>, s: int, queue: Seq<usize>)
        requires
            0 <= s < ready.len(),
        ensures
            self.requests_ready(ready.update(s, queue)) == self.requests_ready(ready)
                - self.requests_of_queue(s as usize, ready[s]) + self.requests_of_queue(
                s as usize,
                queue,
            ),
        decreases ready.len(),
    {
        let front = ready.drop_last();
        let after = ready.update(s, queue);
        if s == ready.len() - 1 {
            assert(after.drop_last() =~= front);
        } else {
            assert(after.drop_last() =~= front.update(s, queue));
            self.lemma_ready_update(front, s, queue);
        }
    }

    /// What a key sends goes to the queues.
    proof fn lemma_queued_requests(self, ready: Seq<Seq<usize>>, sent: Seq<usize>, u: usize)
        requires
            forall|i: int| 0 <= i < sent.len() ==> (#[trigger] sent[i]) < ready.len(),
        ensures
            queued(ready, sent, u).len() == ready.len(),
            self.requests_ready(queued(ready, sent, u)) == self.requests_ready(ready)
                + self.requests_for(u as int, sent),
        decreases sent.len(),
    {
        if sent.len() > 0 {
            let front = sent.drop_last();
            assert forall|i: int| 0 <= i < front.len() implies (#[trigger] front[i])
                < ready.len() by {
                assert(sent[i] < ready.len());
            }
            self.lemma_queued_requests(ready, front, u);
            let before = queued(ready, front, u);
            let s = sent[sent.len() - 1] as int;
            assert(s < ready.len());
            self.lemma_ready_update(before, s, before[s].push(u));
            let names = self.names_of(before[s]);
            let more = self.names_of(before[s].push(u));
            assert(more =~= names.push(self.names[u as int]));
            assert(more.drop_last() =~= names);
        }
    }
}

// ---------------------------------------------------------------------------
// The steps of a batch
// ---------------------------------------------------------------------------

/// What passes in two lists of candidates.
proof fn lemma_passing_add(
    a: Seq<Candidate>,
    b: Seq<Candidate>,
    answers: spec_fn(usize) -> Option<bool>,
)
    ensures
        passing(a + b, answers) == passing(a, answers) + passing(b, answers),
{
    let pred = |c: Candidate| c.passes(answers);
    Seq::filter_distributes_over_add(a, b, pred);
    assert(passing(a + b, answers) =~= passing(a, answers) + passing(b, answers));
}

/// A pick that loads filters keeps what passes.
proof fn lemma_kept_passes_the_same(
    candidates: Seq<Candidate>,
    known: spec_fn(usize) -> Option<bool>,
    all: spec_fn(usize) -> Option<bool>,
)
    requires
        agrees(known, all),
    ensures
        passing(kept(candidates, known), all) == passing(candidates, all),
    decreases candidates.len(),
{
    let pred = |c: Candidate| c.passes(all);
    if candidates.len() == 0 {
        candidates.lemma_filter_len(|c: Candidate| !c.rejected(known));
        assert(kept(candidates, known) =~= candidates);
    } else {
        let front = candidates.drop_last();
        let last = candidates.last();
        assert(candidates =~= front.push(last));
        lemma_kept_passes_the_same(front, known, all);
        lemma_kept_push(front, last, known);
        let before = kept(front, known);
        front.lemma_filter_push(last, pred);
        before.lemma_filter_push(last.marked(known), pred);
        assert(known(last.sst) is Some ==> known(last.sst) == all(last.sst));
        if last.passes(all) {
            assert(!last.rejected(known));
            assert(last.marked(known).passes(all));
            assert(passing(candidates, all) =~= passing(front, all).push(last.sst));
            assert(passing(before.push(last.marked(known)), all) =~= passing(before, all).push(
                last.sst,
            ));
        } else {
            assert(passing(candidates, all) =~= passing(front, all));
            assert(!last.marked(known).passes(all));
            assert(passing(before.push(last.marked(known)), all) =~= passing(before, all));
        }
    }
}

impl<F: Filter> Scene<F> {
    /// What the batch knows of the filters agrees with the scene.
    proof fn lemma_agrees(self, batch: PipelineState<F>, u: int)
        requires
            self.fits(batch),
            0 <= u < batch.keys.len(),
        ensures
            agrees(batch.answers(u), self.answers(u)),
            batch.keys[u].key == self.names[u],
    {
        assert(names_of(batch.keys)[u] == batch.keys[u].key);
        assert forall|sst: usize| (#[trigger] batch.answers(u)(sst)) is Some implies batch.answers(
            u,
        )(sst) == self.answers(u)(sst) by {
            let state = batch.ssts[sst as int];
            assert(state.filters is Loaded);
        }
    }

    /// A pick that reads takes the first of the reads that are left.
    proof fn lemma_read_is_next(
        self,
        u: int,
        key: KeyState,
        known: spec_fn(usize) -> Option<bool>,
        sent: Seq<usize>,
    )
        requires
            agrees(known, self.answers(u)),
            !key.done,
            key.inflight.len() == 0,
            key.rounds < u64::MAX,
            key.pick_step(self.lookahead, known) == PickView::Read(sent),
        ensures
            self.reads_left(u, key) == sent + self.reads_left(
                u,
                key.pick(self.lookahead, known).send(sent),
            ),
    {
        let all = self.answers(u);
        let versions = of_key(self.versions, u);
        let passes = passing(key.candidates, all);
        let after = key.pick(self.lookahead, known).send(sent);
        law_the_other_keys_add_no_reads(key, self.lookahead, known, all);
        law_a_read_takes_the_newest_ssts_that_pass(key, self.lookahead, all);
        let limit = key.pick_limit(self.lookahead);
        assert(limit == read_limit(key.has_operand(), key.rounds as nat, self.lookahead));
        lemma_reach_bound(key.candidates, all, limit);
        let reached = key.reached(self.lookahead, all);
        let rest = key.candidates.skip(reached.len() as int);
        assert(unknowns(reached, all).len() == 0);
        lemma_kept_is_passing(reached, all);
        assert(sent == passing(reached, all));
        lemma_passing_add(reached, rest, all);
        assert(reached + rest =~= key.candidates);
        assert(after.candidates == rest);
        let n = at_most(passes.len(), limit) as int;
        assert(sent == passes.take(n));
        assert(passing(rest, all) =~= passes.skip(n));
        assert(slot_ssts(after.inflight) =~= sent);
        assert(slot_ssts(key.inflight) =~= Seq::<usize>::empty());
        let none = Seq::<EntryView>::empty();
        assert(held(slot_ssts(key.inflight), versions) == none);
        assert(!has_base(none, self.max_seq));
        assert(taken(none, self.max_seq).len() == 0);
        assert(sent.len() > 0);
        assert(self.reads_left(u, key) == point_reads(
            passes,
            key.has_operand(),
            key.rounds as nat,
            self.lookahead,
            versions,
            self.max_seq,
        ));
        let found = held(sent, versions);
        if has_base(found, self.max_seq) {
            assert(sent + Seq::<usize>::empty() =~= sent);
        }
    }

    /// The next pick of a key sends no request that is not counted.
    proof fn lemma_schedule_bound(self, batch: PipelineState<F>, u: int, known: int)
        requires
            batch.wf_waking(known),
            batch.can_pick(u),
            self.fits(batch),
        ensures
            self.fits(batch.schedule(u)),
            self.bound(batch.schedule(u)) <= self.bound(batch),
    {
        let key = batch.keys[u];
        let answers = batch.answers(u);
        let after = batch.schedule(u);
        let picked = key.pick(batch.lookahead, answers);
        lemma_schedule(batch, u, known);
        lemma_room_for_pick(batch, u, known);
        lemma_pick_in_order(key, batch.lookahead, answers, batch.ssts.len());
        self.lemma_agrees(batch, u);
        assert(key_ok(key, batch.ssts.len()));
        let checked = checked_ssts(
            batch.ssts,
            key.reached(batch.lookahead, answers),
            key.key,
            batch.context,
        );
        assert forall|s: int| 0 <= s < checked.len() implies (#[trigger] checked[s]).filters
            == batch.ssts[s].filters by {}
        lemma_unloaded_same(checked, batch.ssts);
        assert(names_of(after.keys) =~= names_of(batch.keys)) by {
            assert forall|v: int| 0 <= v < after.keys.len() implies (#[trigger] after.keys[v]).key
                == batch.keys[v].key by {
                if v != u {
                    assert(after.keys[v] == batch.keys[v]);
                }
            }
        }
        self.lemma_left_update(batch.keys, u, after.keys[u]);
        match batch.next_step(u) {
            PickView::Load(wanted) => {
                lemma_with_loads(checked, wanted);
                lemma_loads_are_counted(checked, wanted);
                let all = self.answers(u);
                let reached = key.reached(batch.lookahead, answers);
                let rest = key.candidates.skip(reached.len() as int);
                lemma_reach_bound(key.candidates, answers, key.pick_limit(batch.lookahead));
                lemma_kept_passes_the_same(reached, answers, all);
                lemma_passing_add(reached, rest, all);
                lemma_passing_add(kept(reached, answers), rest, all);
                assert(reached + rest =~= key.candidates);
                assert(passing(after.keys[u].candidates, all) == passing(key.candidates, all));
                assert(self.reads_left(u, after.keys[u]) == self.reads_left(u, key));
                assert forall|s: int| 0 <= s < after.ssts.len() implies ((
                #[trigger] after.ssts[s]).filters matches FiltersView::Loaded(filters) ==> filters
                    == (self.filters)(s as usize)) by {
                    assert(after.ssts[s] == with_loads(checked, wanted)[s]);
                    assert(checked[s].filters == batch.ssts[s].filters);
                }
            },
            PickView::Read(sent) => {
                self.lemma_read_is_next(u, key, answers, sent);
                self.lemma_requests_add(u, sent, self.reads_left(u, after.keys[u]));
                self.lemma_queued_requests(batch.ready, sent, u as usize);
                assert forall|s: int| 0 <= s < after.ssts.len() implies ((
                #[trigger] after.ssts[s]).filters matches FiltersView::Loaded(filters) ==> filters
                    == (self.filters)(s as usize)) by {
                    assert(checked[s].filters == batch.ssts[s].filters);
                }
            },
            PickView::Done => {
                assert(self.reads_left(u, after.keys[u]) =~= Seq::<usize>::empty());
                assert forall|s: int| 0 <= s < after.ssts.len() implies ((
                #[trigger] after.ssts[s]).filters matches FiltersView::Loaded(filters) ==> filters
                    == (self.filters)(s as usize)) by {
                    assert(checked[s].filters == batch.ssts[s].filters);
                }
            },
        }
    }
}

impl<F: Filter> Scene<F> {
    /// An arrival changes nothing of what a key still reads.
    proof fn lemma_arrival_keeps_the_reads(self, u: int, key: KeyState, sst: usize)
        requires
            faithful(key.inflight, of_key(self.versions, u)),
        ensures
            self.reads_left(
                u,
                key.arrive(sst, (self.versions)(u, sst), self.max_seq),
            ) == self.reads_left(u, key),
    {
        let versions = of_key(self.versions, u);
        let slots = filled(key.inflight, sst, versions(sst));
        let n = ready(slots) as int;
        let after = key.arrive(sst, versions(sst), self.max_seq);
        lemma_slot_of_finds(key.inflight, sst);
        lemma_ready_is_a_start(slots);
        if !key.done {
            let first = slots.take(n);
            let rest = slots.skip(n);
            assert forall|i: int| 0 <= i < first.len() implies ((
            #[trigger] first[i]).entries matches Some(entries) ==> entries == versions(
                first[i].sst,
            )) by {
                assert(first[i] == slots[i]);
            }
            assert forall|i: int| 0 <= i < first.len() implies (#[trigger] first[i]).entries
                is Some by {
                assert(first[i] == slots[i]);
            }
            lemma_joined_is_held(first, versions);
            assert(slot_ssts(slots) =~= slot_ssts(key.inflight));
            assert(slot_ssts(key.inflight) =~= slot_ssts(first) + slot_ssts(rest));
            lemma_held_add(slot_ssts(first), slot_ssts(rest), versions);
            let newer = joined(first);
            let older = held(slot_ssts(rest), versions);
            law_walk_over_two_layers(newer, older, self.max_seq);
            if !has_base(newer, self.max_seq) {
                assert(after.inflight == rest);
                assert(after.acc == key.acc + taken(newer, self.max_seq));
            }
        }
    }

    /// An arrival for one key sends no request that is not counted.
    proof fn lemma_arrive_one_bound(self, batch: PipelineState<F>, sst: usize, u: int)
        requires
            batch.wf(),
            batch.all_busy(),
            batch.truthful(self.versions),
            self.fits(batch),
            0 <= u < batch.keys.len(),
        ensures
            self.fits(batch.arrive_one(sst, u, (self.versions)(u, sst))),
            self.bound(batch.arrive_one(sst, u, (self.versions)(u, sst))) <= self.bound(batch),
    {
        let entries = (self.versions)(u, sst);
        let key = batch.keys[u].arrive(sst, entries, batch.max_seq);
        let middle = PipelineState { keys: batch.keys.update(u, key), ..batch };
        lemma_arrive_middle(batch, sst, u, entries);
        assert(faithful(batch.keys[u].inflight, of_key(self.versions, u)));
        self.lemma_arrival_keeps_the_reads(u, batch.keys[u], sst);
        self.lemma_left_update(batch.keys, u, key);
        assert(names_of(middle.keys) =~= names_of(batch.keys));
        if !key.done && key.idle() {
            self.lemma_schedule_bound(middle, u, middle.keys.len() as int);
        }
    }

    /// The arrival of a read sends no request that is not counted.
    proof fn lemma_arrive_bound(
        self,
        batch: PipelineState<F>,
        sst: usize,
        us: Seq<usize>,
        entries: Map<usize, Seq<EntryView>>,
    )
        requires
            batch.wf(),
            batch.all_busy(),
            batch.truthful(self.versions),
            self.fits(batch),
            forall|i: int| 0 <= i < us.len() ==> (#[trigger] us[i]) < batch.keys.len(),
            arrivals_hold(sst, us, entries, self.versions),
        ensures
            self.fits(batch.arrive(sst, us, entries)),
            self.bound(batch.arrive(sst, us, entries)) <= self.bound(batch),
        decreases us.len(),
    {
        if us.len() > 0 {
            let u = us[0];
            let rest = us.skip(1);
            let found = if entries.contains_key(u) {
                entries[u]
            } else {
                Seq::empty()
            };
            let next = batch.arrive_one(sst, u as int, found);
            assert(found == (self.versions)(u as int, sst));
            lemma_arrive_one(batch, sst, u as int, found);
            lemma_arrive_one_outcome(batch, sst, u as int, self.versions);
            self.lemma_arrive_one_bound(batch, sst, u as int);
            assert forall|i: int| 0 <= i < rest.len() implies (#[trigger] rest[i])
                < next.keys.len() by {
                assert(us[i + 1] < batch.keys.len());
            }
            assert(rest.no_duplicates()) by {
                assert forall|i: int, j: int|
                    0 <= i < rest.len() && 0 <= j < rest.len() && i != j implies rest[i]
                    != rest[j] by {
                    assert(us[i + 1] != us[j + 1]);
                }
            }
            let fewer = entries.remove(u);
            assert forall|i: int| 0 <= i < rest.len() implies (self.versions)(
                (#[trigger] rest[i]) as int,
                sst,
            ) == if fewer.contains_key(rest[i]) {
                fewer[rest[i]]
            } else {
                Seq::empty()
            } by {
                assert(us[i + 1] == rest[i]);
                assert(us[0] != us[i + 1]);
            }
            self.lemma_arrive_bound(next, sst, rest, fewer);
        }
    }

    /// The wake-ups send no request that is not counted.
    proof fn lemma_woken_bound(self, batch: PipelineState<F>, n: int)
        requires
            batch.wf_waking(0),
            batch.all_busy(),
            self.fits(batch),
            0 <= n <= batch.keys.len(),
        ensures
            self.fits(batch.woken(n)),
            self.bound(batch.woken(n)) <= self.bound(batch),
        decreases n,
    {
        if n > 0 {
            let u = n - 1;
            let before = batch.woken(u);
            lemma_woken(batch, u);
            self.lemma_woken_bound(batch, u);
            if before.keys[u].waiting > 0 && !before.keys[u].done {
                let key = KeyState { waiting: 0, ..before.keys[u] };
                let middle = PipelineState { keys: before.keys.update(u, key), ..before };
                lemma_wake_middle(before, u, u);
                self.lemma_left_update(before.keys, u, key);
                assert(self.reads_left(u, key) == self.reads_left(u, before.keys[u]));
                assert(names_of(middle.keys) =~= names_of(before.keys));
                self.lemma_schedule_bound(middle, u, u);
            }
        }
    }

    /// The first picks send no request that is not counted.
    proof fn lemma_started_bound(self, batch: PipelineState<F>, n: int)
        requires
            batch.wf(),
            0 <= n <= batch.keys.len(),
            forall|u: int| 0 <= u < batch.keys.len() ==> (#[trigger] batch.keys[u]).idle(),
            self.fits(batch),
        ensures
            self.fits(batch.started(n)),
            self.bound(batch.started(n)) <= self.bound(batch),
        decreases n,
    {
        if n > 0 {
            let before = batch.started(n - 1);
            self.lemma_started_bound(batch, n - 1);
            lemma_started(batch, n - 1);
            assert(before.keys[n - 1] == batch.keys[n - 1]);
            if !before.keys[n - 1].done {
                self.lemma_schedule_bound(before, n - 1, before.keys.len() as int);
            }
        }
    }

    /// Each request of an event was counted.
    proof fn lemma_event_bound(self, batch: PipelineState<F>, event: Event<F>)
        requires
            batch.wf(),
            batch.all_busy(),
            batch.truthful(self.versions),
            batch.can_happen(event, self.versions),
            self.fits(batch),
            self.brings_its_filters(event),
        ensures
            self.fits(batch.after(event)),
            self.requests_at(batch, event) + self.bound(batch.after(event)) <= self.bound(batch),
    {
        match event {
            Event::Filters { sst, filters } => {
                let at = sst as int;
                let loaded = batch.with_filters(at, filters);
                lemma_with_filters(batch, at, filters);
                lemma_unloaded_update(batch.ssts, at, loaded.ssts[at]);
                assert forall|s: int| 0 <= s < loaded.ssts.len() implies ((
                #[trigger] loaded.ssts[s]).filters matches FiltersView::Loaded(f) ==> f == (
                self.filters)(s as usize)) by {
                    if s != at {
                        assert(loaded.ssts[s] == batch.ssts[s]);
                    }
                }
                self.lemma_woken_bound(loaded, loaded.keys.len() as int);
            },
            Event::Read { sst, us, entries, index } => {
                let indexed = batch.with_index(sst, index);
                lemma_with_index(batch, sst, index);
                assert forall|s: int| 0 <= s < indexed.ssts.len() implies (
                #[trigger] indexed.ssts[s]).filters == batch.ssts[s].filters by {}
                lemma_unloaded_same(indexed.ssts, batch.ssts);
                lemma_index_keeps_the_truth(batch, sst, index, self.versions);
                assert forall|s: int| 0 <= s < indexed.ssts.len() implies ((
                #[trigger] indexed.ssts[s]).filters matches FiltersView::Loaded(f) ==> f == (
                self.filters)(s as usize)) by {
                    assert(indexed.ssts[s].filters == batch.ssts[s].filters);
                }
                self.lemma_arrive_bound(indexed, sst, us, entries);
            },
            Event::HandOut { sst } => {
                let at = sst as int;
                self.lemma_ready_update(batch.ready, at, Seq::empty());
                law_one_read_for_many_keys(
                    (self.layouts)(sst),
                    self.names_of(batch.ready[at]),
                    self.limits,
                );
                assert(self.names_of(Seq::empty()) =~= Seq::<Seq<u8>>::empty());
            },
            Event::HandOutLoads => {},
        }
    }

    /// Each request of a run was counted when it started.
    proof fn lemma_run_bound(self, batch: PipelineState<F>, events: Seq<Event<F>>)
        requires
            batch.wf(),
            batch.truthful(self.versions),
            self.fits(batch),
            forall|u: int| 0 <= u < batch.keys.len() ==> (#[trigger] batch.keys[u]).idle(),
            batch.started(batch.keys.len() as int).can_all_happen(events, self.versions),
            forall|i: int| 0 <= i < events.len() ==> self.brings_its_filters(#[trigger] events[i]),
        ensures
            ({
                let start = batch.started(batch.keys.len() as int);
                &&& self.fits(start.after_all(events))
                &&& self.requests_over(start, events) + self.bound(start.after_all(events))
                    <= self.bound(batch)
            }),
        decreases events.len(),
    {
        let start = batch.started(batch.keys.len() as int);
        if events.len() == 0 {
            self.lemma_started_bound(batch, batch.keys.len() as int);
        } else {
            let front = events.drop_last();
            let before = start.after_all(front);
            assert forall|i: int| 0 <= i < front.len() implies self.brings_its_filters(
                #[trigger] front[i],
            ) by {
                assert(self.brings_its_filters(events[i]));
            }
            self.lemma_run_bound(batch, front);
            law_each_key_comes_to_its_walk(batch, front, self.versions);
            assert(self.brings_its_filters(events[events.len() - 1]));
            self.lemma_event_bound(before, events.last());
        }
    }

    /// The requests of a loop of point reads over the keys, for indexes and
    /// blocks alone. A point read of a key that the memory answers reads no
    /// SST.
    pub open spec fn loop_requests(self, keys: Seq<KeyState>) -> nat
        decreases keys.len(),
    {
        if keys.len() == 0 {
            0
        } else {
            let u = keys.len() - 1;
            let key = keys.last();
            self.loop_requests(keys.drop_last()) + if key.done {
                0
            } else {
                self.requests_for(
                    u,
                    point_reads(
                        passing(key.candidates, self.answers(u)),
                        key.has_operand(),
                        0,
                        self.lookahead,
                        of_key(self.versions, u),
                        self.max_seq,
                    ),
                )
            }
        }
    }

    /// What is left of the reads of keys that read nothing yet is a loop of
    /// point reads.
    proof fn lemma_all_is_left(self, keys: Seq<KeyState>)
        requires
            forall|u: int|
                0 <= u < keys.len() ==> (#[trigger] keys[u]).inflight.len() == 0 && keys[u].rounds
                    == 0,
        ensures
            self.requests_left(keys) == self.loop_requests(keys),
        decreases keys.len(),
    {
        if keys.len() > 0 {
            let front = keys.drop_last();
            let u = keys.len() - 1;
            let key = keys[u];
            assert forall|v: int| 0 <= v < front.len() implies (#[trigger] front[v]).inflight.len()
                == 0 && front[v].rounds == 0 by {
                assert(keys[v] == front[v]);
            }
            self.lemma_all_is_left(front);
            let none = Seq::<EntryView>::empty();
            assert(slot_ssts(key.inflight) =~= Seq::<usize>::empty());
            assert(held(slot_ssts(key.inflight), of_key(self.versions, u)) == none);
            assert(!has_base(none, self.max_seq));
            assert(taken(none, self.max_seq).len() == 0);
        }
    }

    /// Queues with no key need no request.
    proof fn lemma_empty_queues(self, ready: Seq<Seq<usize>>)
        requires
            forall|s: int| 0 <= s < ready.len() ==> (#[trigger] ready[s]).len() == 0,
        ensures
            self.requests_ready(ready) == 0,
        decreases ready.len(),
    {
        if ready.len() > 0 {
            assert forall|s: int| 0 <= s < ready.drop_last().len() implies (
            #[trigger] ready.drop_last()[s]).len() == 0 by {
                assert(ready[s].len() == 0);
            }
            self.lemma_empty_queues(ready.drop_last());
            assert(ready[ready.len() - 1].len() == 0);
        }
    }
}

/// A batch never costs more than the loop. Whatever comes, and in whatever
/// order it comes, the requests that a batch sends are no more than those of
/// a loop of point reads for indexes and blocks, and one filter load for each
/// SST whose filters were not in the cache. The filter loads of the loop are
/// not even counted.
///
/// Both count against what the cache holds at the start. A cache that fills
/// between the point reads of a loop is another matter: it can save the loop
/// an index that two reads of the batch load at the same time.
pub proof fn law_a_batch_sends_no_more_requests_than_a_loop<F: Filter>(
    scene: Scene<F>,
    batch: PipelineState<F>,
    events: Seq<Event<F>>,
)
    requires
        batch.wf(),
        batch.truthful(scene.versions),
        scene.fits(batch),
        forall|u: int|
            0 <= u < batch.keys.len() ==> (#[trigger] batch.keys[u]).idle() && batch.keys[u].rounds
                == 0,
        forall|s: int| 0 <= s < batch.ready.len() ==> (#[trigger] batch.ready[s]).len() == 0,
        batch.loads.len() == 0,
        batch.started(batch.keys.len() as int).can_all_happen(events, scene.versions),
        forall|i: int| 0 <= i < events.len() ==> scene.brings_its_filters(#[trigger] events[i]),
    ensures
        scene.requests_over(batch.started(batch.keys.len() as int), events)
            <= scene.loop_requests(batch.keys) + unloaded(batch.ssts),
{
    assert forall|u: int| 0 <= u < batch.keys.len() implies (#[trigger] batch.keys[u]).inflight.len()
        == 0 && batch.keys[u].rounds == 0 by {
        assert(batch.keys[u].idle());
    }
    scene.lemma_run_bound(batch, events);
    scene.lemma_all_is_left(batch.keys);
    scene.lemma_empty_queues(batch.ready);
}

} // verus!
