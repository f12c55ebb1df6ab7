//! The read phase of a batch: pipelined reads of the candidate SSTs.
//!
//! Each open key reads its candidates newest first, in rounds. One round is
//! one pick ([`KeyRead::pick`]) and the reads of the picked SSTs. The keys do
//! not wait for each other: when the read of one SST returns, the keys of that
//! read make their next pick at once. A batch that reads in lockstep pays the
//! tail latency of the object store one time per step. A pipeline pays it
//! about one time.
//!
//! The [`Pipeline`] holds the state of the read phase. Its driver starts the
//! filter loads of [`Pipeline::take_loads`] and the reads of
//! [`Pipeline::next_group`], and it hands back what came.

use std::collections::{BTreeMap, BTreeSet};
use std::sync::Arc;
use vstd::prelude::*;

use super::candidates::{sst_states, states, BatchSst, FiltersView, SstState, SstTarget};
use super::key::{
    answers_of,
    candidates_within,
    checked_ssts,
    checks,
    KeyRead,
    KeyState,
    Pick,
    PickView,
};
use super::invariants::{
    in_order,
    lemma_arrive,
    lemma_arrive_middle,
    lemma_arrive_one,
    lemma_candidates_fit,
    lemma_less_ready,
    lemma_pending_bound,
    lemma_pick_in_order,
    lemma_room_for_pick,
    lemma_schedule,
    lemma_started,
    lemma_wake,
    lemma_wake_middle,
    lemma_with_filters,
    lemma_woken,
    lemma_with_index,
};
use crate::filter::{Filter, NamedFilter};
use crate::octets::{content, share};
use crate::sort::{merge_sort, Ranked};
use crate::sstable::{found_views, FoundView, KeyEntries, PendingKey, SsTableIndex};
use crate::types::{rows, EntryView, RowEntry};

verus! {

/// The read phase of one batch.
pub struct Pipeline<F: Filter> {
    pub keys: Vec<KeyRead>,
    pub ssts: Vec<BatchSst<F>>,
    /// What the filters are told about the read.
    pub context: Option<F::Context>,
    pub max_seq: Option<u64>,
    pub lookahead: usize,
    /// The keys that wait for a read of each SST.
    pub ready: Vec<Vec<usize>>,
    /// The SSTs whose filter load did not start yet.
    pub loads: Vec<usize>,
}

/// What a [`Pipeline`] says.
#[verifier::ext_equal]
pub struct PipelineState<F: Filter> {
    pub keys: Seq<KeyState>,
    pub ssts: Seq<SstState<F>>,
    pub context: Option<F::Context>,
    pub max_seq: Option<u64>,
    pub lookahead: usize,
    pub ready: Seq<Seq<usize>>,
    pub loads: Seq<usize>,
}

impl<F: Filter> View for Pipeline<F> {
    type V = PipelineState<F>;

    open spec fn view(&self) -> PipelineState<F> {
        PipelineState {
            keys: states(self.keys@),
            ssts: sst_states(self.ssts@),
            context: self.context,
            max_seq: self.max_seq,
            lookahead: self.lookahead,
            ready: self.ready@.map_values(|keys: Vec<usize>| keys@),
            loads: self.loads@,
        }
    }
}

// ---------------------------------------------------------------------------
// The steps of the read phase
// ---------------------------------------------------------------------------

/// The keys after key `u` was sent to the SSTs of `picked`.
pub open spec fn queued(ready: Seq<Seq<usize>>, picked: Seq<usize>, u: usize) -> Seq<Seq<usize>>
    decreases picked.len(),
{
    if picked.len() == 0 {
        ready
    } else {
        let before = queued(ready, picked.drop_last(), u);
        let sst = picked.last() as int;
        before.update(sst, before[sst].push(u))
    }
}

/// The SSTs after a key asked for the filters of `wanted`.
pub open spec fn with_loads<F>(ssts: Seq<SstState<F>>, wanted: Seq<usize>) -> Seq<SstState<F>>
    decreases wanted.len(),
{
    if wanted.len() == 0 {
        ssts
    } else {
        let before = with_loads(ssts, wanted.drop_last());
        let sst = wanted.last() as int;
        if before[sst].filters is NotLoaded {
            before.update(sst, SstState { filters: FiltersView::Loading, ..before[sst] })
        } else {
            before
        }
    }
}

/// The filter loads that start when a key asks for the filters of `wanted`.
/// A load that is in flight does not start again.
pub open spec fn started_loads<F>(ssts: Seq<SstState<F>>, wanted: Seq<usize>) -> Seq<usize>
    decreases wanted.len(),
{
    if wanted.len() == 0 {
        Seq::empty()
    } else {
        let before = with_loads(ssts, wanted.drop_last());
        let loads = started_loads(ssts, wanted.drop_last());
        if before[wanted.last() as int].filters is NotLoaded {
            loads.push(wanted.last())
        } else {
            loads
        }
    }
}

/// The entries that came for each key, by slot.
pub open spec fn entries_by_key(found: Seq<FoundView>) -> Map<usize, Seq<EntryView>>
    decreases found.len(),
{
    if found.len() == 0 {
        Map::empty()
    } else {
        entries_by_key(found.drop_last()).insert(found.last().idx, found.last().entries)
    }
}

impl<F: Filter> PipelineState<F> {
    /// What the filters say about key `u`.
    pub open spec fn answers(self, u: int) -> spec_fn(usize) -> Option<bool> {
        answers_of(self.ssts, self.keys[u].key, self.context)
    }

    /// The next step of key `u`.
    pub open spec fn next_step(self, u: int) -> PickView {
        self.keys[u].pick_step(self.lookahead, self.answers(u))
    }

    /// The batch after the next pick of an idle open key. The pick goes to
    /// `ready`, or the key waits for the filter loads of its SSTs, or no SST
    /// is left to read: then the key is absent, or it has only merge
    /// operands.
    pub open spec fn schedule(self, u: int) -> Self {
        let key = self.keys[u];
        let picked = key.pick(self.lookahead, self.answers(u));
        let ssts = checked_ssts(
            self.ssts,
            key.reached(self.lookahead, self.answers(u)),
            key.key,
            self.context,
        );
        match self.next_step(u) {
            PickView::Load(wanted) => PipelineState {
                keys: self.keys.update(
                    u,
                    KeyState { waiting: wanted.len() as usize, ..picked },
                ),
                ssts: with_loads(ssts, wanted),
                loads: self.loads + started_loads(ssts, wanted),
                ..self
            },
            PickView::Read(sent) => PipelineState {
                keys: self.keys.update(u, picked.send(sent)),
                ssts,
                ready: queued(self.ready, sent, u as usize),
                ..self
            },
            PickView::Done => PipelineState {
                keys: self.keys.update(u, KeyState { done: true, ..picked }),
                ssts,
                ..self
            },
        }
    }

    /// The batch after the first picks of the keys `0..n`.
    pub open spec fn started(self, n: int) -> Self
        decreases n,
    {
        if n <= 0 {
            self
        } else {
            let before = self.started(n - 1);
            if before.keys[n - 1].done {
                before
            } else {
                before.schedule(n - 1)
            }
        }
    }

    /// The batch after one read arrived for key `u`. A key whose pick is
    /// complete makes its next pick.
    pub open spec fn arrive_one(self, sst: usize, u: int, entries: Seq<EntryView>) -> Self {
        let key = self.keys[u].arrive(sst, entries, self.max_seq);
        let after = PipelineState { keys: self.keys.update(u, key), ..self };
        if !key.done && key.idle() {
            after.schedule(u)
        } else {
            after
        }
    }

    /// The batch after one read arrived for the keys `us`. A key that the SST
    /// does not hold has no entries, but it still arrives.
    pub open spec fn arrive(
        self,
        sst: usize,
        us: Seq<usize>,
        entries: Map<usize, Seq<EntryView>>,
    ) -> Self
        decreases us.len(),
    {
        if us.len() == 0 {
            self
        } else {
            let u = us[0];
            let found = if entries.contains_key(u) {
                entries[u]
            } else {
                Seq::empty()
            };
            self.arrive_one(sst, u as int, found).arrive(sst, us.skip(1), entries.remove(u))
        }
    }

    /// The batch with the index that a read of `sst` used.
    pub open spec fn with_index(self, sst: usize, index: Option<Arc<SsTableIndex>>) -> Self {
        if index is Some {
            PipelineState {
                ssts: self.ssts.update(
                    sst as int,
                    SstState { index, ..self.ssts[sst as int] },
                ),
                ..self
            }
        } else {
            self
        }
    }

    /// The batch after key `u` picked again, if it waits for filters.
    pub open spec fn wake(self, u: int) -> Self {
        let key = self.keys[u];
        if key.waiting > 0 && !key.done {
            PipelineState {
                keys: self.keys.update(u, KeyState { waiting: 0, ..key }),
                ..self
            }.schedule(u)
        } else {
            self
        }
    }

    /// The batch after those of the keys `0..n` that wait for filters picked
    /// again.
    pub open spec fn woken(self, n: int) -> Self
        decreases n,
    {
        if n <= 0 {
            self
        } else {
            self.woken(n - 1).wake(n - 1)
        }
    }

    /// The batch with the filters of `sst`.
    pub open spec fn with_filters(self, sst: int, filters: Seq<NamedFilter<F>>) -> Self {
        PipelineState {
            ssts: self.ssts.update(
                sst,
                SstState { filters: FiltersView::Loaded(filters), ..self.ssts[sst] },
            ),
            ..self
        }
    }

    /// The batch after the filters of `sst` came. Each key that waits for
    /// filters picks again.
    pub open spec fn on_filters(self, sst: int, filters: Seq<NamedFilter<F>>) -> Self {
        self.with_filters(sst, filters).woken(self.keys.len() as int)
    }
}

// ---------------------------------------------------------------------------
// The states of the read phase
// ---------------------------------------------------------------------------

/// A key of the read phase is in order. A key with a read in flight waits for
/// the newest SST of its pick, and a key that waits for filters has no read
/// in flight.
pub open spec fn key_ok(key: KeyState, ssts: nat) -> bool {
    &&& candidates_within(key.candidates, ssts)
    &&& forall|i: int, j: int|
        0 <= i < j < key.candidates.len() ==> (#[trigger] key.candidates[i]).sst < (
        #[trigger] key.candidates[j]).sst
    &&& key.rounds + key.candidates.len() <= u64::MAX
    &&& forall|i: int| 0 <= i < key.inflight.len() ==> (#[trigger] key.inflight[i]).sst < ssts
    &&& forall|i: int, j: int|
        0 <= i < j < key.inflight.len() ==> (#[trigger] key.inflight[i]).sst < (
        #[trigger] key.inflight[j]).sst
    &&& key.inflight.len() > 0 ==> key.inflight[0].entries is None
    &&& key.waiting > 0 ==> key.inflight.len() == 0
    &&& key.done ==> key.inflight.len() == 0 && key.waiting == 0
}

/// The checks that the keys can still ask of `sst`.
pub open spec fn pending_checks(keys: Seq<KeyState>, sst: int) -> nat
    decreases keys.len(),
{
    if keys.len() == 0 {
        0
    } else {
        pending_checks(keys.drop_last(), sst) + checks(keys.last().candidates, sst)
    }
}

/// An SST of the read phase is in order: its counts have room for the checks
/// that are left.
pub open spec fn sst_ok<F>(sst: SstState<F>, pending: nat) -> bool {
    &&& sst.index matches Some(index) ==> index.wf()
    &&& sst.probes + pending <= u64::MAX
    &&& sst.positives <= sst.probes
}

impl<F: Filter> PipelineState<F> {
    /// The filters of a candidate of key `u` are on their way.
    pub open spec fn expects_filters(self, u: int) -> bool {
        exists|i: int|
            0 <= i < self.keys[u].candidates.len() && self.ssts[(
            #[trigger] self.keys[u].candidates[i]).sst as int].filters is Loading
    }

    /// The batch is in order, when a load came and the keys from `known` on
    /// did not pick again yet. A key that waits for filters has a load that
    /// is in flight.
    pub open spec fn wf_waking(self, known: int) -> bool {
        &&& self.keys.len() <= usize::MAX
        &&& self.ssts.len() <= usize::MAX
        &&& self.ready.len() == self.ssts.len()
        &&& forall|u: int|
            0 <= u < self.keys.len() ==> key_ok(#[trigger] self.keys[u], self.ssts.len())
        &&& forall|s: int|
            0 <= s < self.ssts.len() ==> sst_ok(
                #[trigger] self.ssts[s],
                pending_checks(self.keys, s),
            )
        &&& forall|s: int, i: int|
            0 <= s < self.ready.len() && 0 <= i < self.ready[s].len() ==> (
            #[trigger] self.ready[s][i]) < self.keys.len()
        &&& forall|u: int|
            0 <= u < known && u < self.keys.len() && (#[trigger] self.keys[u]).waiting > 0
                ==> self.expects_filters(u)
    }

    /// The batch is in order.
    pub open spec fn wf(self) -> bool {
        self.wf_waking(self.keys.len() as int)
    }

    /// Key `u` is done, or it waits for something.
    pub open spec fn busy(self, u: int) -> bool {
        self.keys[u].done || !self.keys[u].idle()
    }

    /// Each key is done, or it waits for something.
    pub open spec fn all_busy(self) -> bool {
        forall|u: int| 0 <= u < self.keys.len() ==> #[trigger] self.busy(u)
    }

    /// Key `u` can make its pick.
    pub open spec fn can_pick(self, u: int) -> bool {
        0 <= u < self.keys.len() && !self.keys[u].done && self.keys[u].idle()
    }
}

/// A key that the read phase did not touch yet.
pub open spec fn unread(key: KeyState, ssts: nat) -> bool {
    &&& in_order(key.candidates, ssts)
    &&& key.rounds == 0
    &&& key.waiting == 0
    &&& key.inflight.len() == 0
}

/// An SST that the read phase did not touch yet. Its filters can come from
/// the cache.
pub open spec fn untouched<F>(sst: SstState<F>) -> bool {
    &&& !(sst.filters is Loading)
    &&& sst.index matches Some(index) ==> index.wf()
    &&& sst.probes == 0
    &&& sst.positives == 0
}

/// A group of keys that read one SST.
pub struct ReadGroup {
    pub sst: usize,
    pub target: SstTarget,
    /// In the order of their slots.
    pub keys: Vec<PendingKey>,
    /// The index from an earlier read of the batch.
    pub index: Option<Arc<SsTableIndex>>,
    /// The SST has filters, and they passed the keys.
    pub filtered: bool,
}

/// What the cache answers for a group.
pub struct CacheAnswer {
    /// The keys that the cache answered and the SST holds.
    pub found: Vec<KeyEntries>,
    /// The keys that need a read.
    pub misses: Vec<PendingKey>,
    /// The index, when the cache holds it.
    pub index: Option<Arc<SsTableIndex>>,
}

/// The slots of some keys.
pub open spec fn slots_of(keys: Seq<PendingKey>) -> Seq<usize> {
    keys.map_values(|key: PendingKey| key.idx)
}

/// The keys of a group that the cache answered.
pub open spec fn hits_of(keys: Seq<usize>, missed: Seq<usize>) -> Seq<usize> {
    keys.filter(|u: usize| !missed.contains(u))
}

impl<F: Filter> Pipeline<F> {
    /// The read phase of a batch over its candidate SSTs.
    pub fn new(
        keys: Vec<KeyRead>,
        ssts: Vec<BatchSst<F>>,
        context: Option<F::Context>,
        max_seq: Option<u64>,
        lookahead: usize,
    ) -> (pipeline: Self)
        requires
            forall|u: int| 0 <= u < keys@.len() ==> unread((#[trigger] keys@[u])@, ssts@.len()),
            forall|s: int| 0 <= s < ssts@.len() ==> untouched((#[trigger] ssts@[s])@),
        ensures
            pipeline@.wf(),
            pipeline@ == (PipelineState {
                keys: states(keys@),
                ssts: sst_states(ssts@),
                context,
                max_seq,
                lookahead,
                ready: Seq::new(ssts@.len(), |s: int| Seq::empty()),
                loads: Seq::empty(),
            }),
            forall|u: int| 0 <= u < keys@.len() ==> (#[trigger] pipeline@.keys[u]).idle(),
    {
        let mut ready: Vec<Vec<usize>> = Vec::new();
        let n: usize = ssts.len();
        let count: usize = keys.len();
        for s in 0..n
            invariant
                ready@.len() == s,
                forall|i: int| 0 <= i < s ==> (#[trigger] ready@[i])@ == Seq::<usize>::empty(),
        {
            let none: Vec<usize> = Vec::new();
            assert(none@ =~= Seq::<usize>::empty());
            ready.push(none);
        }
        let pipeline = Pipeline { keys, ssts, context, max_seq, lookahead, ready, loads: Vec::new() };
        proof {
            let batch = pipeline@;
            assert(batch.ready =~= Seq::new(n as nat, |s: int| Seq::<usize>::empty()));
            assert(batch.loads =~= Seq::<usize>::empty());
            assert forall|u: int| 0 <= u < batch.keys.len() implies key_ok(
                #[trigger] batch.keys[u],
                batch.ssts.len(),
            ) && batch.keys[u].idle() by {
                assert(unread(keys@[u]@, ssts@.len()));
                lemma_candidates_fit(batch.keys[u].candidates, batch.ssts.len());
            }
            assert forall|s: int| 0 <= s < batch.ssts.len() implies sst_ok(
                #[trigger] batch.ssts[s],
                pending_checks(batch.keys, s),
            ) by {
                assert(untouched(ssts@[s]@));
                lemma_pending_bound(batch.keys, batch.ssts.len(), s);
            }
        }
        pipeline
    }

    /// Make the first pick of each open key.
    pub fn start(&mut self)
        requires
            old(self)@.wf(),
            forall|u: int| 0 <= u < old(self)@.keys.len() ==> (#[trigger] old(self)@.keys[u]).idle(),
        ensures
            final(self)@ == old(self)@.started(old(self)@.keys.len() as int),
            final(self)@.wf(),
            final(self)@.all_busy(),
    {
        let n: usize = self.keys.len();
        let ghost start = self@;
        for u in 0..n
            invariant
                start == old(self)@,
                start.wf(),
                n == start.keys.len(),
                forall|u: int| 0 <= u < start.keys.len() ==> (#[trigger] start.keys[u]).idle(),
                self@ == start.started(u as int),
                self@.wf(),
                self.keys@.len() == n,
        {
            proof {
                lemma_started(start, u as int);
                lemma_started(start, u + 1);
                assert(self@.keys[u as int] == start.keys[u as int]);
            }
            if !self.keys[u].done {
                self.schedule(u, Ghost(n as int));
            }
        }
        proof {
            lemma_started(start, n as int);
        }
    }

    /// Make the next pick of an idle open key. The pick goes to `ready`, or
    /// the key waits for the filter loads of its SSTs. When no SST is left to
    /// read, the key is absent, or it has only merge operands.
    fn schedule(&mut self, u: usize, Ghost(known): Ghost<int>)
        requires
            old(self)@.wf_waking(known),
            old(self)@.can_pick(u as int),
        ensures
            final(self)@ == old(self)@.schedule(u as int),
            final(self)@.wf_waking(known),
            final(self)@.keys[u as int].waiting > 0 ==> final(self)@.expects_filters(u as int),
            final(self).keys@.len() == old(self).keys@.len(),
            final(self).ssts@.len() == old(self).ssts@.len(),
    {
        let ghost start = self@;
        let ghost answers = start.answers(u as int);
        proof {
            lemma_room_for_pick(start, u as int, known);
            lemma_schedule(start, u as int, known);
            lemma_pick_in_order(
                start.keys[u as int],
                start.lookahead,
                answers,
                start.ssts.len(),
            );
            assert(key_ok(start.keys[u as int], start.ssts.len()));
            assert(start.keys[u as int] == self.keys@[u as int]@);
        }
        let pick = self.keys[u].pick(self.lookahead, &mut self.ssts, &self.context);
        let ghost picked = start.keys[u as int].pick(start.lookahead, answers);
        let ghost checked = checked_ssts(
            start.ssts,
            start.keys[u as int].reached(start.lookahead, answers),
            start.keys[u as int].key,
            start.context,
        );
        assert(self@.keys =~= start.keys.update(u as int, picked));
        assert(self@.ssts == checked);
        match pick {
            Pick::Load(wanted) => {
                self.keys[u].waiting = wanted.len();
                let ghost key = KeyState { waiting: wanted@.len() as usize, ..picked };
                assert(self@.keys =~= start.keys.update(u as int, key));
                assert(wanted@.take(0) =~= Seq::<usize>::empty());
                assert(start.loads + Seq::<usize>::empty() =~= start.loads);
                for i in 0..wanted.len()
                    invariant
                        forall|i: int|
                            0 <= i < wanted@.len() ==> (#[trigger] wanted@[i]) < checked.len(),
                        self@ == (PipelineState {
                            keys: start.keys.update(u as int, key),
                            ssts: with_loads(checked, wanted@.take(i as int)),
                            loads: start.loads + started_loads(
                                checked,
                                wanted@.take(i as int),
                            ),
                            ..start
                        }),
                        self.ssts@.len() == checked.len(),
                {
                    let sst: usize = wanted[i];
                    let ghost before = self@;
                    proof {
                        let now = wanted@.take(i + 1);
                        assert(now.drop_last() =~= wanted@.take(i as int));
                        assert(now.last() == sst);
                        assert(before.ssts[sst as int] == self.ssts@[sst as int]@);
                    }
                    let load = self.ssts[sst].start_load();
                    assert(self@.ssts =~= with_loads(checked, wanted@.take(i + 1)));
                    if load {
                        self.loads.push(sst);
                    }
                    assert(self@.loads =~= start.loads + started_loads(
                        checked,
                        wanted@.take(i + 1),
                    ));
                }
                assert(wanted@.take(wanted@.len() as int) =~= wanted@);
            },
            Pick::Read(sent) => {
                assert(self.keys@[u as int]@ == self@.keys[u as int]);
                self.keys[u].send(&sent);
                let ghost key = picked.send(sent@);
                assert(self@.keys =~= start.keys.update(u as int, key));
                assert(sent@.take(0) =~= Seq::<usize>::empty());
                for i in 0..sent.len()
                    invariant
                        forall|i: int|
                            0 <= i < sent@.len() ==> (#[trigger] sent@[i]) < start.ready.len(),
                        self@ == (PipelineState {
                            keys: start.keys.update(u as int, key),
                            ssts: checked,
                            ready: queued(start.ready, sent@.take(i as int), u),
                            ..start
                        }),
                        self.ready@.len() == start.ready.len(),
                {
                    let sst: usize = sent[i];
                    let ghost before = self@;
                    proof {
                        let now = sent@.take(i + 1);
                        assert(now.drop_last() =~= sent@.take(i as int));
                        assert(now.last() == sst);
                        assert(before.ready[sst as int] == self.ready@[sst as int]@);
                    }
                    self.ready[sst].push(u);
                    assert(self@.ready =~= queued(start.ready, sent@.take(i + 1), u));
                }
                assert(sent@.take(sent@.len() as int) =~= sent@);
            },
            Pick::Done => {
                self.keys[u].done = true;
                assert(self@.keys =~= start.keys.update(
                    u as int,
                    KeyState { done: true, ..picked },
                ));
            },
        }
        assert(self@ =~= start.schedule(u as int));
    }

    /// Take the filter loads that must start.
    pub fn take_loads(&mut self) -> (loads: Vec<usize>)
        ensures
            loads@ == old(self)@.loads,
            final(self)@ == (PipelineState { loads: Seq::empty(), ..old(self)@ }),
    {
        let mut loads: Vec<usize> = Vec::new();
        assert(loads@ =~= Seq::<usize>::empty());
        std::mem::swap(&mut loads, &mut self.loads);
        loads
    }

    /// Take the next group of keys that can read an SST: the first SST with
    /// such keys.
    pub fn next_group(&mut self) -> (group: Option<ReadGroup>)
        requires
            old(self)@.wf(),
        ensures
            match group {
                None => final(self)@ == old(self)@ && forall|s: int|
                    0 <= s < old(self)@.ready.len() ==> (#[trigger] old(self)@.ready[s]).len()
                        == 0,
                Some(group) => {
                    let sst = group.sst as int;
                    &&& sst < old(self)@.ssts.len()
                    &&& old(self)@.ready[sst].len() > 0
                    &&& forall|s: int|
                        0 <= s < sst ==> (#[trigger] old(self)@.ready[s]).len() == 0
                    &&& final(self)@ == (PipelineState {
                        ready: old(self)@.ready.update(sst, Seq::empty()),
                        ..old(self)@
                    })
                    &&& group.target@ == old(self)@.ssts[sst].target
                    &&& group.index == old(self)@.ssts[sst].index
                    &&& group.filtered == old(self)@.ssts[sst].filtered()
                    &&& slots_of(group.keys@).to_multiset()
                        == old(self)@.ready[sst].to_multiset()
                    &&& forall|i: int, j: int|
                        0 <= i < j < group.keys@.len() ==> (#[trigger] group.keys@[i]).idx <= (
                        #[trigger] group.keys@[j]).idx
                    &&& forall|i: int|
                        0 <= i < group.keys@.len() ==> (#[trigger] group.keys@[i]).idx
                            < old(self)@.keys.len() && content(group.keys@[i].key)
                            == old(self)@.keys[group.keys@[i].idx as int].key
                },
            },
            final(self)@.wf(),
    {
        let ghost start = self@;
        let n: usize = self.ready.len();
        let mut sst: usize = 0;
        while sst < n && self.ready[sst].len() == 0
            invariant
                sst <= n,
                n == self.ready@.len(),
                self@ == start,
                forall|s: int| 0 <= s < sst ==> (#[trigger] start.ready[s]).len() == 0,
            decreases n - sst,
        {
            assert(start.ready[sst as int] == self.ready@[sst as int]@);
            sst = sst + 1;
        }
        if sst == n {
            return None;
        }
        assert(start.ready[sst as int] == self.ready@[sst as int]@);
        let emptied: Vec<usize> = Vec::new();
        assert(emptied@ =~= Seq::<usize>::empty());
        let ghost queue = self.ready@[sst as int]@;
        let sorted = merge_sort(self.ready[sst].as_slice());
        proof {
            broadcast use vstd::seq_lib::group_to_multiset_ensures;
            assert forall|i: int| 0 <= i < sorted@.len() implies (#[trigger] sorted@[i])
                < self.keys@.len() by {
                assert(sorted@.contains(sorted@[i]));
                assert(queue.to_multiset().count(sorted@[i]) > 0);
                assert(queue.contains(sorted@[i]));
                let j = choose|j: int| 0 <= j < queue.len() && queue[j] == sorted@[i];
                assert(start.ready[sst as int][j] < start.keys.len());
            }
        }
        self.ready.set(sst, emptied);
        assert(self@.ready =~= start.ready.update(sst as int, Seq::empty()));
        let mut keys: Vec<PendingKey> = Vec::new();
        for i in 0..sorted.len()
            invariant
                forall|i: int| 0 <= i < sorted@.len() ==> (#[trigger] sorted@[i]) < self.keys@.len(),
                keys@.len() == i,
                forall|j: int|
                    0 <= j < i ==> (#[trigger] keys@[j]).idx == sorted@[j] && content(keys@[j].key)
                        == content(self.keys@[sorted@[j] as int].key),
        {
            let idx: usize = sorted[i];
            keys.push(PendingKey { idx, key: share(&self.keys[idx].key) });
        }
        let sst_of = &self.ssts[sst];
        let index = match &sst_of.index {
            Some(index) => Some(Arc::clone(index)),
            None => None,
        };
        let group = ReadGroup {
            sst,
            target: sst_of.target.clone(),
            keys,
            index,
            filtered: sst_of.has_filters(),
        };
        proof {
            assert(slots_of(group.keys@) =~= sorted@);
            assert(start.ssts[sst as int] == self.ssts@[sst as int]@);
            assert forall|i: int| 0 <= i < group.keys@.len() implies (#[trigger] group.keys@[i]).idx
                < start.keys.len() && content(group.keys@[i].key)
                == start.keys[group.keys@[i].idx as int].key by {
                assert(start.keys[sorted@[i] as int] == self.keys@[sorted@[i] as int]@);
            }
            assert forall|i: int, j: int| 0 <= i < j < group.keys@.len() implies (
            #[trigger] group.keys@[i]).idx <= (#[trigger] group.keys@[j]).idx by {
                assert(sorted@[i].ranks_le(sorted@[j]));
            }
            lemma_less_ready(start, sst as int);
        }
        Some(group)
    }

    /// Apply the read of one SST to its keys. A key whose pick is complete
    /// makes its next pick. A key that the SST does not hold has no entries,
    /// but it still arrives. The index is the one that the read used, and the
    /// batch keeps it for later reads.
    pub fn arrive(
        &mut self,
        sst: usize,
        us: Vec<usize>,
        found: Vec<KeyEntries>,
        index: Option<Arc<SsTableIndex>>,
    )
        requires
            old(self)@.wf(),
            old(self)@.all_busy(),
            sst < old(self)@.ssts.len(),
            forall|i: int| 0 <= i < us@.len() ==> (#[trigger] us@[i]) < old(self)@.keys.len(),
            index matches Some(index) ==> index.wf(),
        ensures
            final(self)@ == old(self)@.with_index(sst, index).arrive(
                sst,
                us@,
                entries_by_key(found_views(found@)),
            ),
            final(self)@.wf(),
            final(self)@.all_busy(),
            final(self)@.keys.len() == old(self)@.keys.len(),
            final(self)@.ssts.len() == old(self)@.ssts.len(),
    {
        proof {
            lemma_with_index(self@, sst, index);
        }
        let ghost start = self@.with_index(sst, index);
        let ghost arrived = us@;
        if index.is_some() {
            self.ssts[sst].index = index;
        }
        assert(self@ =~= start);
        let ghost all = entries_by_key(found_views(found@));
        let mut map = by_key(found);
        let ghost done = start.arrive(sst, arrived, all);
        proof {
            lemma_arrive(start, sst, arrived, all);
        }
        let mut i: usize = 0;
        assert(arrived.skip(0) =~= arrived);
        while i < us.len()
            invariant
                i <= us@.len(),
                arrived == us@,
                self@.wf(),
                self@.all_busy(),
                self.keys@.len() == start.keys.len(),
                forall|i: int| 0 <= i < us@.len() ==> (#[trigger] us@[i]) < start.keys.len(),
                self@.arrive(sst, arrived.skip(i as int), entry_rows(map@)) == done,
            decreases us@.len() - i,
        {
            let u: usize = us[i];
            let ghost before = self@;
            let ghost rest = arrived.skip(i as int);
            let ghost old_map = entry_rows(map@);
            let entries = match map.remove(&u) {
                Some(entries) => entries,
                None => Vec::new(),
            };
            let ghost came = if old_map.contains_key(u) {
                old_map[u]
            } else {
                Seq::empty()
            };
            proof {
                assert(rest[0] == u);
                assert(rest.skip(1) =~= arrived.skip(i + 1));
                assert(rows(entries@) =~= came);
                assert(entry_rows(map@) =~= old_map.remove(u));
                lemma_arrive_one(before, sst, u as int, came);
                assert(self.keys@[u as int]@ == before.keys[u as int]);
            }
            let ghost key = before.keys[u as int].arrive(sst, came, before.max_seq);
            self.keys[u].arrive(sst, entries, self.max_seq);
            assert(self@.keys =~= before.keys.update(u as int, key));
            let ghost middle = PipelineState { keys: before.keys.update(u as int, key), ..before };
            assert(self@ =~= middle);
            if !self.keys[u].done && self.keys[u].is_idle() {
                proof {
                    lemma_arrive_middle(before, sst, u as int, came);
                }
                self.schedule(u, Ghost(self@.keys.len() as int));
            }
            assert(self@ == before.arrive_one(sst, u as int, came));
            i = i + 1;
        }
        assert(arrived.skip(i as int) =~= Seq::<usize>::empty());
    }

    /// Take the filters of one SST. Each key that waits for filters picks
    /// again: it reads as soon as it meets nothing that is not loaded.
    pub fn on_filters(&mut self, sst: usize, filters: Vec<NamedFilter<F>>)
        requires
            old(self)@.wf(),
            old(self)@.all_busy(),
            sst < old(self)@.ssts.len(),
        ensures
            final(self)@ == old(self)@.on_filters(sst as int, filters@),
            final(self)@.wf(),
            final(self)@.all_busy(),
            final(self)@.keys.len() == old(self)@.keys.len(),
            final(self)@.ssts.len() == old(self)@.ssts.len(),
    {
        let ghost start = self@;
        let ghost loaded = start.with_filters(sst as int, filters@);
        proof {
            lemma_with_filters(start, sst as int, filters@);
            assert(start.ssts[sst as int] == self.ssts@[sst as int]@);
        }
        self.ssts[sst].load(filters);
        assert(self@ =~= loaded);
        let n: usize = self.keys.len();
        for u in 0..n
            invariant
                n == loaded.keys.len(),
                loaded.wf_waking(0),
                loaded.all_busy(),
                self@ == loaded.woken(u as int),
                self.keys@.len() == n,
        {
            let ghost before = self@;
            proof {
                lemma_woken(loaded, u as int);
                lemma_wake(before, u as int);
                assert(self.keys@[u as int]@ == before.keys[u as int]);
            }
            if self.keys[u].waiting > 0 && !self.keys[u].done {
                let ghost key = KeyState { waiting: 0, ..before.keys[u as int] };
                self.keys[u].waiting = 0;
                assert(self@.keys =~= before.keys.update(u as int, key));
                assert(self@ =~= (PipelineState {
                    keys: before.keys.update(u as int, key),
                    ..before
                }));
                proof {
                    lemma_wake_middle(before, u as int, u as int);
                }
                self.schedule(u, Ghost(u as int));
            }
            assert(self@ == before.wake(u as int));
        }
        proof {
            lemma_woken(loaded, n as int);
        }
    }

    /// Take what the cache answers for a group. The keys that it answered
    /// arrive at once. The result is the read of the others, if any. With no
    /// index in the cache, the read takes the index of an earlier read.
    pub fn read_group(&mut self, group: ReadGroup, cached: CacheAnswer) -> (misses: Option<
        ReadGroup,
    >)
        requires
            old(self)@.wf(),
            old(self)@.all_busy(),
            group.sst < old(self)@.ssts.len(),
            forall|i: int|
                0 <= i < group.keys@.len() ==> (#[trigger] group.keys@[i]).idx
                    < old(self)@.keys.len(),
            cached.index matches Some(index) ==> index.wf(),
        ensures
            final(self)@ == old(self)@.with_index(group.sst, cached.index).arrive(
                group.sst,
                hits_of(slots_of(group.keys@), slots_of(cached.misses@)),
                entries_by_key(found_views(cached.found@)),
            ),
            match misses {
                None => cached.misses@.len() == 0,
                Some(read) => {
                    &&& cached.misses@.len() > 0
                    &&& read.sst == group.sst
                    &&& read.target == group.target
                    &&& read.keys == cached.misses
                    &&& read.index == if cached.index is Some {
                        cached.index
                    } else {
                        group.index
                    }
                    &&& read.filtered == group.filtered
                },
            },
            final(self)@.wf(),
            final(self)@.all_busy(),
            final(self)@.keys.len() == old(self)@.keys.len(),
            final(self)@.ssts.len() == old(self)@.ssts.len(),
    {
        let hits = hit_slots(&group.keys, &cached.misses);
        proof {
            assert forall|i: int| 0 <= i < hits@.len() implies (#[trigger] hits@[i])
                < self@.keys.len() by {
                let slots = slots_of(group.keys@);
                slots.lemma_filter_contains_rev(
                    |u: usize| !slots_of(cached.misses@).contains(u),
                    hits@[i],
                );
                let j = choose|j: int| 0 <= j < slots.len() && slots[j] == hits@[i];
                assert(group.keys@[j].idx < self@.keys.len());
            }
        }
        let ReadGroup { sst, target, keys: _, index, filtered } = group;
        let CacheAnswer { found, misses, index: cached_index } = cached;
        let read = if misses.len() == 0 {
            None
        } else {
            let index = match &cached_index {
                Some(index) => Some(Arc::clone(index)),
                None => index,
            };
            Some(ReadGroup { sst, target, keys: misses, index, filtered })
        };
        self.arrive(sst, hits, found, cached_index);
        read
    }

    /// The number of rounds of the slowest key.
    pub fn rounds(&self) -> (rounds: u64)
        ensures
            forall|u: int| 0 <= u < self@.keys.len() ==> (#[trigger] self@.keys[u]).rounds <= rounds,
            self@.keys.len() == 0 ==> rounds == 0,
            self@.keys.len() > 0 ==> exists|u: int|
                0 <= u < self@.keys.len() && (#[trigger] self@.keys[u]).rounds == rounds,
    {
        let mut rounds: u64 = 0;
        for u in 0..self.keys.len()
            invariant
                forall|v: int| 0 <= v < u ==> (#[trigger] self@.keys[v]).rounds <= rounds,
                u == 0 ==> rounds == 0,
                u > 0 ==> exists|v: int| 0 <= v < u && (#[trigger] self@.keys[v]).rounds == rounds,
        {
            let ghost before = rounds;
            assert(self@.keys[u as int] == self.keys@[u as int]@);
            if self.keys[u].rounds > rounds || u == 0 {
                rounds = self.keys[u].rounds;
                assert(self@.keys[u as int].rounds == rounds);
            } else {
                let ghost v = choose|v: int|
                    0 <= v < u && (#[trigger] self@.keys[v]).rounds == before;
                assert(self@.keys[v].rounds == rounds);
            }
        }
        rounds
    }
}

/// The entries of a map of found keys.
pub open spec fn entry_rows(map: Map<usize, Vec<RowEntry>>) -> Map<usize, Seq<EntryView>> {
    map.map_values(|entries: Vec<RowEntry>| rows(entries@))
}

/// The entries that came for each key, by slot.
fn by_key(found: Vec<KeyEntries>) -> (map: BTreeMap<usize, Vec<RowEntry>>)
    ensures
        entry_rows(map@) == entries_by_key(found_views(found@)),
{
    let mut map: BTreeMap<usize, Vec<RowEntry>> = BTreeMap::new();
    let ghost all = found_views(found@);
    assert(all.take(0) =~= Seq::<FoundView>::empty());
    assert(entry_rows(map@) =~= Map::<usize, Seq<EntryView>>::empty());
    for key in it: found
        invariant
            it.seq() == found@,
            all == found_views(found@),
            entry_rows(map@) == entries_by_key(all.take(it.index() as int)),
    {
        let ghost k = it.index() as int;
        let ghost before = entry_rows(map@);
        proof {
            let now = all.take(k + 1);
            assert(now.drop_last() =~= all.take(k));
            assert(now.last() == key@);
        }
        let KeyEntries { idx, entries } = key;
        let ghost came = rows(entries@);
        map.insert(idx, entries);
        assert(entry_rows(map@) =~= before.insert(idx, came));
    }
    assert(all.take(all.len() as int) =~= all);
    map
}

/// The slots of the keys of a group that are not among the misses.
fn hit_slots(keys: &Vec<PendingKey>, misses: &Vec<PendingKey>) -> (hits: Vec<usize>)
    ensures
        hits@ == hits_of(slots_of(keys@), slots_of(misses@)),
{
    let ghost missed = slots_of(misses@);
    let ghost slots = slots_of(keys@);
    let ghost pred = |u: usize| !missed.contains(u);
    let mut set: BTreeSet<usize> = BTreeSet::new();
    for i in 0..misses.len()
        invariant
            missed == slots_of(misses@),
            forall|u: usize| #[trigger] set@.contains(u) <==> missed.take(i as int).contains(u),
    {
        let idx: usize = misses[i].idx;
        let ghost past = missed.take(i as int);
        let ghost now = missed.take(i + 1);
        let ghost before = set@;
        set.insert(idx);
        proof {
            assert(now =~= past.push(idx));
            assert forall|u: usize| #[trigger] set@.contains(u) <==> now.contains(u) by {
                if past.contains(u) {
                    let j = choose|j: int| 0 <= j < past.len() && past[j] == u;
                    assert(now[j] == u);
                }
                if u == idx {
                    assert(now[i as int] == idx);
                }
                if now.contains(u) && u != idx {
                    let j = choose|j: int| 0 <= j < now.len() && now[j] == u;
                    assert(past[j] == u);
                }
                assert(before.contains(u) <==> past.contains(u));
            }
        }
    }
    assert(missed.take(missed.len() as int) =~= missed);
    let mut hits: Vec<usize> = Vec::new();
    proof {
        slots.take(0).lemma_filter_len(pred);
        assert(hits@ =~= slots.take(0).filter(pred));
    }
    for i in 0..keys.len()
        invariant
            slots == slots_of(keys@),
            pred == (|u: usize| !missed.contains(u)),
            forall|u: usize| #[trigger] set@.contains(u) <==> missed.contains(u),
            hits@ == slots.take(i as int).filter(pred),
    {
        let idx: usize = keys[i].idx;
        proof {
            assert(slots.take(i + 1) =~= slots.take(i as int).push(idx));
            slots.take(i as int).lemma_filter_push(idx, pred);
        }
        if !set.contains(&idx) {
            hits.push(idx);
        }
    }
    assert(slots.take(slots.len() as int) =~= slots);
    hits
}

/// A key of a group arrives from the cache exactly when the cache did not
/// miss it. A key that missed waits for its read.
pub proof fn law_the_keys_that_missed_do_not_arrive(keys: Seq<usize>, missed: Seq<usize>, u: usize)
    ensures
        hits_of(keys, missed).contains(u) <==> keys.contains(u) && !missed.contains(u),
{
    let pred = |u: usize| !missed.contains(u);
    let hits = hits_of(keys, missed);
    if hits.contains(u) {
        keys.lemma_filter_contains_rev(pred, u);
        let i = choose|i: int| 0 <= i < hits.len() && hits[i] == u;
        keys.lemma_filter_pred(pred, i);
    }
    if keys.contains(u) && !missed.contains(u) {
        let i = choose|i: int| 0 <= i < keys.len() && keys[i] == u;
        keys.lemma_filter_contains(pred, i);
    }
}

} // verus!
