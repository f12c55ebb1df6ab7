//! A run that is complete ends with no open key.
//!
//! A driver takes the filter loads and the reads that a batch asks for, and
//! brings back what they return. Once nothing is left to take, and each load
//! and each read came back, each key of the batch is done.

use vstd::prelude::*;

use super::candidates::SstState;
use super::events::{law_an_open_key_waits, law_each_key_comes_to_its_walk, Event};
use super::invariants::{
    lemma_arrive_middle,
    lemma_arrive_one,
    lemma_pick_in_order,
    lemma_queued,
    lemma_room_for_pick,
    lemma_schedule,
    lemma_started,
    lemma_wake_middle,
    lemma_with_filters,
    lemma_with_index,
    lemma_with_loads,
    lemma_woken,
};
use super::key::{checked_ssts, filled, ready, slot_of, KeyState, PickView};
use super::outcome::{lemma_ready_is_a_start, lemma_slot_of_finds};
use super::pipeline::{key_ok, queued, started_loads, with_loads, PipelineState};
use crate::filter::Filter;
use crate::types::EntryView;

verus! {

// ---------------------------------------------------------------------------
// Complete runs
// ---------------------------------------------------------------------------

/// The event brings the filters of `sst`.
pub open spec fn brings_filters<F>(event: Event<F>, sst: usize) -> bool {
    event matches Event::Filters { sst: s, .. } && s == sst
}

/// The event brings what `sst` holds for key `u`.
pub open spec fn brings_read<F>(event: Event<F>, sst: usize, u: usize) -> bool {
    event matches Event::Read { sst: s, us, .. } && s == sst && us.contains(u)
}

impl<F: Filter> PipelineState<F> {
    /// The batch after the first `n` events.
    pub open spec fn after_first(self, events: Seq<Event<F>>, n: int) -> Self {
        self.after_all(events.take(n))
    }

    /// Event `i` hands out the filter load of `sst`.
    pub open spec fn hands_out_load(self, events: Seq<Event<F>>, i: int, sst: usize) -> bool {
        &&& 0 <= i < events.len()
        &&& events[i] is HandOutLoads
        &&& self.after_first(events, i).loads.contains(sst)
    }

    /// Event `i` hands out the read of `sst` for key `u`.
    pub open spec fn hands_out_read(
        self,
        events: Seq<Event<F>>,
        i: int,
        sst: usize,
        u: usize,
    ) -> bool {
        &&& 0 <= i < events.len()
        &&& events[i] == Event::<F>::HandOut { sst }
        &&& self.after_first(events, i).ready[sst as int].contains(u)
    }

    /// The run is complete: nothing is left to hand out, and each filter load
    /// and each read that was handed out came back.
    pub open spec fn complete(self, events: Seq<Event<F>>) -> bool {
        &&& self.after_all(events).loads.len() == 0
        &&& forall|s: int|
            0 <= s < self.after_all(events).ready.len() ==> (#[trigger] self.after_all(
                events,
            ).ready[s]).len() == 0
        &&& forall|i: int, sst: usize| #[trigger]
            self.hands_out_load(events, i, sst) ==> exists|j: int|
                i < j < events.len() && brings_filters(#[trigger] events[j], sst)
        &&& forall|i: int, sst: usize, u: usize| #[trigger]
            self.hands_out_read(events, i, sst, u) ==> exists|j: int|
                i < j < events.len() && brings_read(#[trigger] events[j], sst, u)
    }

    /// Key `u` waits for the read of `sst`.
    pub open spec fn waits_for(self, u: int, sst: usize) -> bool {
        exists|i: int|
            0 <= i < self.keys[u].inflight.len() && (
            #[trigger] self.keys[u].inflight[i]).sst == sst && self.keys[u].inflight[i].entries
                is None
    }
}

// ---------------------------------------------------------------------------
// What a step asks for
// ---------------------------------------------------------------------------

/// What a step of the batch asks for, it also hands to the driver: a load that
/// starts is in `loads`, and a read that starts is in `ready`.
spec fn moved<F: Filter>(before: PipelineState<F>, after: PipelineState<F>) -> bool {
    &&& before.keys.len() == after.keys.len()
    &&& before.ssts.len() == after.ssts.len()
    &&& before.ready.len() == after.ready.len()
    &&& forall|s: usize| before.loads.contains(s) ==> #[trigger] after.loads.contains(s)
    &&& forall|s: int|
        0 <= s < after.ssts.len() && (#[trigger] after.ssts[s]).filters is Loading
            ==> before.ssts[s].filters is Loading || after.loads.contains(s as usize)
    &&& forall|s: int|
        0 <= s < after.ssts.len() && before.ssts[s].filters is Loaded ==> (
        #[trigger] after.ssts[s]).filters is Loaded
    &&& forall|s: int, u: usize|
        0 <= s < after.ready.len() && before.ready[s].contains(u)
            ==> #[trigger] after.ready[s].contains(u)
    &&& forall|u: int, s: usize|
        0 <= u < after.keys.len() && #[trigger] after.waits_for(u, s) ==> before.waits_for(u, s)
            || after.ready[s as int].contains(u as usize)
}

/// Two steps that follow each other.
proof fn lemma_chain_moved<F: Filter>(
    a: PipelineState<F>,
    b: PipelineState<F>,
    c: PipelineState<F>,
)
    requires
        moved(a, b),
        moved(b, c),
        c.keys.len() <= usize::MAX,
        forall|u: int, s: usize|
            0 <= u < c.keys.len() && #[trigger] b.waits_for(u, s) ==> s < b.ssts.len(),
        b.ready.len() == b.ssts.len(),
    ensures
        moved(a, c),
{
    assert forall|s: usize| a.loads.contains(s) implies #[trigger] c.loads.contains(s) by {
        assert(b.loads.contains(s));
    }
    assert forall|s: int|
        0 <= s < c.ssts.len() && (#[trigger] c.ssts[s]).filters is Loading implies a.ssts[s].filters
        is Loading || c.loads.contains(s as usize) by {
        if b.ssts[s].filters is Loading {
            if b.loads.contains(s as usize) {
                assert(c.loads.contains(s as usize));
            }
        }
    }
    assert forall|s: int| 0 <= s < c.ssts.len() && a.ssts[s].filters is Loaded implies (
    #[trigger] c.ssts[s]).filters is Loaded by {
        assert(b.ssts[s].filters is Loaded);
    }
    assert forall|s: int, u: usize|
        0 <= s < c.ready.len() && a.ready[s].contains(u) implies #[trigger] c.ready[s].contains(
        u,
    ) by {
        assert(b.ready[s].contains(u));
    }
    assert forall|u: int, s: usize|
        0 <= u < c.keys.len() && #[trigger] c.waits_for(u, s) implies a.waits_for(u, s)
        || c.ready[s as int].contains(u as usize) by {
        if b.waits_for(u, s) && b.ready[s as int].contains(u as usize) {
            assert(c.ready[s as int].contains(u as usize));
        }
    }
}

/// A batch in order waits only for its SSTs.
proof fn lemma_waits_within<F: Filter>(batch: PipelineState<F>, known: int)
    requires
        batch.wf_waking(known),
    ensures
        forall|u: int, s: usize|
            0 <= u < batch.keys.len() && #[trigger] batch.waits_for(u, s) ==> s < batch.ssts.len(),
        batch.ready.len() == batch.ssts.len(),
        batch.keys.len() <= usize::MAX,
{
    assert forall|u: int, s: usize|
        0 <= u < batch.keys.len() && #[trigger] batch.waits_for(u, s) implies s
        < batch.ssts.len() by {
        assert(key_ok(batch.keys[u], batch.ssts.len()));
        let i = choose|i: int|
            0 <= i < batch.keys[u].inflight.len() && (
            #[trigger] batch.keys[u].inflight[i]).sst == s && batch.keys[u].inflight[i].entries
                is None;
        assert(batch.keys[u].inflight[i].sst < batch.ssts.len());
    }
}

/// A load that starts is one of the started loads.
proof fn lemma_started_loads<F>(ssts: Seq<SstState<F>>, wanted: Seq<usize>)
    requires
        ssts.len() <= usize::MAX,
        forall|i: int| 0 <= i < wanted.len() ==> (#[trigger] wanted[i]) < ssts.len(),
    ensures
        forall|s: int|
            0 <= s < ssts.len() && (#[trigger] with_loads(ssts, wanted)[s]).filters is Loading
                ==> ssts[s].filters is Loading || started_loads(ssts, wanted).contains(s as usize),
    decreases wanted.len(),
{
    if wanted.len() > 0 {
        let front = wanted.drop_last();
        let before = with_loads(ssts, front);
        let after = with_loads(ssts, wanted);
        let old_loads = started_loads(ssts, front);
        let loads = started_loads(ssts, wanted);
        assert forall|i: int| 0 <= i < front.len() implies (#[trigger] front[i]) < ssts.len() by {
            assert(wanted[i] < ssts.len());
        }
        lemma_started_loads(ssts, front);
        lemma_with_loads(ssts, front);
        assert(wanted[wanted.len() - 1] < ssts.len());
        assert forall|s: int| 0 <= s < ssts.len() && (#[trigger] after[s]).filters
            is Loading implies ssts[s].filters is Loading || loads.contains(s as usize) by {
            if before[s].filters is Loading {
                if old_loads.contains(s as usize) {
                    let k = choose|k: int|
                        0 <= k < old_loads.len() && old_loads[k] == s as usize;
                    assert(loads[k] == s as usize);
                }
            } else {
                assert(s == wanted.last() as int);
                assert(loads[loads.len() - 1] == s as usize);
            }
        }
    }
}

/// The next pick of a key hands out what it asks for.
proof fn lemma_schedule_moves<F: Filter>(batch: PipelineState<F>, u: int, known: int)
    requires
        batch.wf_waking(known),
        batch.can_pick(u),
    ensures
        moved(batch, batch.schedule(u)),
{
    let key = batch.keys[u];
    let answers = batch.answers(u);
    let after = batch.schedule(u);
    lemma_schedule(batch, u, known);
    lemma_room_for_pick(batch, u, known);
    lemma_pick_in_order(key, batch.lookahead, answers, batch.ssts.len());
    let checked = checked_ssts(
        batch.ssts,
        key.reached(batch.lookahead, answers),
        key.key,
        batch.context,
    );
    assert forall|s: int| 0 <= s < checked.len() implies (#[trigger] checked[s]).filters
        == batch.ssts[s].filters by {}
    assert forall|v: int, s: usize|
        0 <= v < after.keys.len() && v != u && #[trigger] after.waits_for(
            v,
            s,
        ) implies batch.waits_for(v, s) by {
        assert(after.keys[v] == batch.keys[v]);
        let i = choose|i: int|
            0 <= i < after.keys[v].inflight.len() && (#[trigger] after.keys[v].inflight[i]).sst
                == s && after.keys[v].inflight[i].entries is None;
        assert(batch.keys[v].inflight[i].sst == s);
    }
    match batch.next_step(u) {
        PickView::Load(wanted) => {
            lemma_with_loads(checked, wanted);
            lemma_started_loads(checked, wanted);
            let more = started_loads(checked, wanted);
            assert(after.loads == batch.loads + more);
            assert forall|s: usize| batch.loads.contains(s) implies #[trigger] after.loads.contains(
                s,
            ) by {
                let k = choose|k: int| 0 <= k < batch.loads.len() && batch.loads[k] == s;
                assert(after.loads[k] == s);
            }
            assert forall|s: int|
                0 <= s < after.ssts.len() && (#[trigger] after.ssts[s]).filters
                    is Loading implies batch.ssts[s].filters is Loading || after.loads.contains(
                s as usize,
            ) by {
                assert(after.ssts[s] == with_loads(checked, wanted)[s]);
                if more.contains(s as usize) {
                    let k = choose|k: int| 0 <= k < more.len() && more[k] == s as usize;
                    assert(after.loads[batch.loads.len() + k] == s as usize);
                }
            }
            assert forall|s: int|
                0 <= s < after.ssts.len() && batch.ssts[s].filters is Loaded implies (
            #[trigger] after.ssts[s]).filters is Loaded by {
                assert(after.ssts[s] == with_loads(checked, wanted)[s]);
                assert(checked[s].filters == batch.ssts[s].filters);
            }
        },
        PickView::Read(sent) => {
            lemma_queued(batch.ready, sent, u as usize, batch.keys.len());
            assert forall|s: int| 0 <= s < after.ssts.len() implies (
            #[trigger] after.ssts[s]).filters == batch.ssts[s].filters by {
                assert(checked[s].filters == batch.ssts[s].filters);
            }
            assert forall|s: int, v: usize|
                0 <= s < after.ready.len() && batch.ready[s].contains(
                    v,
                ) implies #[trigger] after.ready[s].contains(v) by {
                assert(after.ready[s] == queued(batch.ready, sent, u as usize)[s]);
                let k = choose|k: int| 0 <= k < batch.ready[s].len() && batch.ready[s][k] == v;
                assert(after.ready[s][k] == v);
            }
            assert forall|s: usize| #[trigger] after.waits_for(u, s) implies after.ready[
            s as int].contains(u as usize) by {
                let i = choose|i: int|
                    0 <= i < after.keys[u].inflight.len() && (
                    #[trigger] after.keys[u].inflight[i]).sst == s
                        && after.keys[u].inflight[i].entries is None;
                assert(sent[i] == s);
                assert(sent.contains(s));
                assert(after.ready[s as int] == queued(batch.ready, sent, u as usize)[s as int]);
                let queue = batch.ready[s as int].push(u as usize);
                assert(queue[batch.ready[s as int].len() as int] == u as usize);
            }
        },
        PickView::Done => {
            assert forall|s: int| 0 <= s < after.ssts.len() implies (
            #[trigger] after.ssts[s]).filters == batch.ssts[s].filters by {
                assert(checked[s].filters == batch.ssts[s].filters);
            }
        },
    }
}

/// An arrival takes the wait for its SST from the key, and adds none.
proof fn lemma_arrive_waits(key: KeyState, sst: usize, entries: Seq<EntryView>, max_seq: Option<
    u64,
>, ssts: nat)
    requires
        key_ok(key, ssts),
    ensures
        forall|i: int|
            0 <= i < key.arrive(sst, entries, max_seq).inflight.len() && (#[trigger] key.arrive(
                sst,
                entries,
                max_seq,
            ).inflight[i]).entries is None ==> key.arrive(sst, entries, max_seq).inflight[i].sst
                != sst && key.inflight.contains(key.arrive(sst, entries, max_seq).inflight[i]),
{
    let slots = filled(key.inflight, sst, entries);
    let n = ready(slots) as int;
    let after = key.arrive(sst, entries, max_seq);
    lemma_slot_of_finds(key.inflight, sst);
    lemma_ready_is_a_start(slots);
    assert forall|i: int|
        0 <= i < after.inflight.len() && (#[trigger] after.inflight[i]).entries
            is None implies after.inflight[i].sst != sst && key.inflight.contains(
        after.inflight[i],
    ) by {
        let k = n + i;
        let at = slot_of(key.inflight, sst) as int;
        assert(after.inflight[i] == slots[k]);
        assert(k != at || at >= key.inflight.len());
        assert(slots[k] == key.inflight[k]);
        if key.inflight[k].sst == sst {
            assert(at <= k) by {
                if k < at {
                    assert(key.inflight[k].sst != sst);
                }
            }
            if at < k {
                assert(key.inflight[at].sst < key.inflight[k].sst);
            }
        }
    }
}

/// An arrival for one key hands out what it asks for, and the key does not
/// wait for the SST any more, unless it asks for it again.
proof fn lemma_arrive_one_moves<F: Filter>(
    batch: PipelineState<F>,
    sst: usize,
    u: int,
    entries: Seq<EntryView>,
)
    requires
        batch.wf(),
        batch.all_busy(),
        0 <= u < batch.keys.len(),
    ensures
        moved(batch, batch.arrive_one(sst, u, entries)),
        batch.arrive_one(sst, u, entries).waits_for(u, sst) ==> batch.arrive_one(
            sst,
            u,
            entries,
        ).ready[sst as int].contains(u as usize),
{
    let key = batch.keys[u].arrive(sst, entries, batch.max_seq);
    let middle = PipelineState { keys: batch.keys.update(u, key), ..batch };
    let after = batch.arrive_one(sst, u, entries);
    assert(key_ok(batch.keys[u], batch.ssts.len()));
    lemma_arrive_middle(batch, sst, u, entries);
    lemma_arrive_waits(batch.keys[u], sst, entries, batch.max_seq, batch.ssts.len());
    assert forall|v: int, s: usize|
        0 <= v < middle.keys.len() && #[trigger] middle.waits_for(v, s) implies batch.waits_for(
        v,
        s,
    ) && !(v == u && s == sst) by {
        let i = choose|i: int|
            0 <= i < middle.keys[v].inflight.len() && (#[trigger] middle.keys[v].inflight[i]).sst
                == s && middle.keys[v].inflight[i].entries is None;
        if v == u {
            assert(key.inflight[i].entries is None);
            let slot = key.inflight[i];
            let k = choose|k: int|
                0 <= k < batch.keys[u].inflight.len() && batch.keys[u].inflight[k] == slot;
            assert(batch.keys[u].inflight[k].sst == s);
        } else {
            assert(batch.keys[v].inflight[i].sst == s);
        }
    }
    assert(moved(batch, middle));
    if !key.done && key.idle() {
        lemma_schedule_moves(middle, u, middle.keys.len() as int);
        lemma_schedule(middle, u, middle.keys.len() as int);
        lemma_waits_within(middle, middle.keys.len() as int);
        lemma_chain_moved(batch, middle, after);
    }
}

/// The arrival of a read hands out what it asks for, and none of its keys
/// waits for the SST any more, unless it asks for it again.
proof fn lemma_arrive_moves<F: Filter>(
    batch: PipelineState<F>,
    sst: usize,
    us: Seq<usize>,
    entries: Map<usize, Seq<EntryView>>,
)
    requires
        batch.wf(),
        batch.all_busy(),
        forall|i: int| 0 <= i < us.len() ==> (#[trigger] us[i]) < batch.keys.len(),
    ensures
        moved(batch, batch.arrive(sst, us, entries)),
        forall|u: usize|
            us.contains(u) && #[trigger] batch.arrive(sst, us, entries).waits_for(u as int, sst)
                ==> batch.arrive(sst, us, entries).ready[sst as int].contains(u),
    decreases us.len(),
{
    let after = batch.arrive(sst, us, entries);
    if us.len() > 0 {
        let first = us[0];
        let rest = us.skip(1);
        let found = if entries.contains_key(first) {
            entries[first]
        } else {
            Seq::empty()
        };
        let next = batch.arrive_one(sst, first as int, found);
        lemma_arrive_one(batch, sst, first as int, found);
        lemma_arrive_one_moves(batch, sst, first as int, found);
        assert forall|i: int| 0 <= i < rest.len() implies (#[trigger] rest[i]) < next.keys.len() by {
            assert(us[i + 1] < batch.keys.len());
        }
        lemma_arrive_moves(next, sst, rest, entries.remove(first));
        lemma_waits_within(next, next.keys.len() as int);
        lemma_chain_moved(batch, next, after);
        assert forall|u: usize|
            us.contains(u) && #[trigger] after.waits_for(u as int, sst) implies after.ready[
        sst as int].contains(u) by {
            let i = choose|i: int| 0 <= i < us.len() && us[i] == u;
            if i > 0 {
                assert(rest[i - 1] == u);
                assert(rest.contains(u));
            } else {
                assert((u as int) < after.keys.len());
                if next.waits_for(u as int, sst) {
                    assert(next.ready[sst as int].contains(u));
                    assert(after.ready[sst as int].contains(u));
                }
            }
        }
    }
}

/// The wake-ups hand out what they ask for.
proof fn lemma_woken_moves<F: Filter>(batch: PipelineState<F>, n: int)
    requires
        batch.wf_waking(0),
        batch.all_busy(),
        0 <= n <= batch.keys.len(),
    ensures
        moved(batch, batch.woken(n)),
    decreases n,
{
    if n > 0 {
        let u = n - 1;
        let before = batch.woken(u);
        let next = before.wake(u);
        lemma_woken(batch, u);
        lemma_woken_moves(batch, u);
        if before.keys[u].waiting > 0 && !before.keys[u].done {
            let key = KeyState { waiting: 0, ..before.keys[u] };
            let middle = PipelineState { keys: before.keys.update(u, key), ..before };
            lemma_wake_middle(before, u, u);
            assert forall|v: int, s: usize|
                0 <= v < middle.keys.len() && #[trigger] middle.waits_for(
                    v,
                    s,
                ) implies before.waits_for(v, s) by {
                let i = choose|i: int|
                    0 <= i < middle.keys[v].inflight.len() && (
                    #[trigger] middle.keys[v].inflight[i]).sst == s
                        && middle.keys[v].inflight[i].entries is None;
                assert(before.keys[v].inflight[i].sst == s);
            }
            assert(moved(before, middle));
            lemma_schedule_moves(middle, u, u);
            lemma_schedule(middle, u, u);
            lemma_waits_within(middle, u);
            lemma_chain_moved(before, middle, next);
            lemma_waits_within(before, u);
            lemma_chain_moved(batch, before, next);
        }
    }
}

/// The first picks hand out what they ask for.
proof fn lemma_started_moves<F: Filter>(batch: PipelineState<F>, n: int)
    requires
        batch.wf(),
        0 <= n <= batch.keys.len(),
        forall|u: int| 0 <= u < batch.keys.len() ==> (#[trigger] batch.keys[u]).idle(),
    ensures
        moved(batch, batch.started(n)),
    decreases n,
{
    if n > 0 {
        let before = batch.started(n - 1);
        lemma_started_moves(batch, n - 1);
        lemma_started(batch, n - 1);
        assert(before.keys[n - 1] == batch.keys[n - 1]);
        if !before.keys[n - 1].done {
            lemma_schedule_moves(before, n - 1, before.keys.len() as int);
            lemma_schedule(before, n - 1, before.keys.len() as int);
            lemma_waits_within(before, before.keys.len() as int);
            lemma_chain_moved(batch, before, batch.started(n));
        }
    }
}

// ---------------------------------------------------------------------------
// What is on its way
// ---------------------------------------------------------------------------

impl<F: Filter> PipelineState<F> {
    /// The load of `sst` was handed out, and it did not come back in the first
    /// `n` events.
    spec fn load_is_out(self, events: Seq<Event<F>>, n: int, sst: usize) -> bool {
        exists|i: int|
            i < n && #[trigger] self.hands_out_load(events, i, sst) && forall|j: int|
                i < j < n ==> !brings_filters(#[trigger] events[j], sst)
    }

    /// The read of `sst` for key `u` was handed out, and it did not come back
    /// in the first `n` events.
    spec fn read_is_out(self, events: Seq<Event<F>>, n: int, sst: usize, u: usize) -> bool {
        exists|i: int|
            i < n && #[trigger] self.hands_out_read(events, i, sst, u) && forall|j: int|
                i < j < n ==> !brings_read(#[trigger] events[j], sst, u)
    }

    /// After the first `n` events, all that the batch waits for is to be
    /// handed out, or was handed out and did not come back.
    spec fn accounted(self, events: Seq<Event<F>>, n: int) -> bool {
        let now = self.after_first(events, n);
        &&& forall|s: int|
            0 <= s < now.ssts.len() && (#[trigger] now.ssts[s]).filters is Loading
                ==> now.loads.contains(s as usize) || self.load_is_out(events, n, s as usize)
        &&& forall|u: int, s: usize|
            0 <= u < now.keys.len() && #[trigger] now.waits_for(u, s)
                ==> now.ready[s as int].contains(u as usize) || self.read_is_out(
                events,
                n,
                s,
                u as usize,
            )
    }
}

/// What is out stays out when the event brings something else.
proof fn lemma_still_out<F: Filter>(start: PipelineState<F>, events: Seq<Event<F>>, n: int)
    requires
        0 <= n < events.len(),
    ensures
        forall|s: usize| #[trigger]
            start.load_is_out(events, n, s) && !brings_filters(events[n], s) ==> start.load_is_out(
                events,
                n + 1,
                s,
            ),
        forall|s: usize, u: usize| #[trigger]
            start.read_is_out(events, n, s, u) && !brings_read(events[n], s, u)
                ==> start.read_is_out(events, n + 1, s, u),
{
    assert forall|s: usize| #[trigger]
        start.load_is_out(events, n, s) && !brings_filters(
            events[n],
            s,
        ) implies start.load_is_out(events, n + 1, s) by {
        let i = choose|i: int|
            i < n && #[trigger] start.hands_out_load(events, i, s) && forall|j: int|
                i < j < n ==> !brings_filters(#[trigger] events[j], s);
        assert(start.hands_out_load(events, i, s));
    }
    assert forall|s: usize, u: usize| #[trigger]
        start.read_is_out(events, n, s, u) && !brings_read(
            events[n],
            s,
            u,
        ) implies start.read_is_out(events, n + 1, s, u) by {
        let i = choose|i: int|
            i < n && #[trigger] start.hands_out_read(events, i, s, u) && forall|j: int|
                i < j < n ==> !brings_read(#[trigger] events[j], s, u);
        assert(start.hands_out_read(events, i, s, u));
    }
}

/// One more event leaves all waits accounted for.
proof fn lemma_accounted_step<F: Filter>(
    start: PipelineState<F>,
    events: Seq<Event<F>>,
    versions: spec_fn(int, usize) -> Seq<EntryView>,
    n: int,
)
    requires
        0 <= n < events.len(),
        start.after_first(events, n).wf(),
        start.after_first(events, n).all_busy(),
        start.after_first(events, n).can_happen(events[n], versions),
        start.accounted(events, n),
    ensures
        start.accounted(events, n + 1),
{
    let before = start.after_first(events, n);
    let event = events[n];
    let after = start.after_first(events, n + 1);
    assert(events.take(n + 1).drop_last() =~= events.take(n));
    assert(events.take(n + 1).last() == event);
    assert(after == before.after(event));
    lemma_still_out(start, events, n);
    lemma_waits_within(before, before.keys.len() as int);
    match event {
        Event::Filters { sst, filters } => {
            let loaded = before.with_filters(sst as int, filters);
            let count = before.keys.len() as int;
            lemma_with_filters(before, sst as int, filters);
            lemma_woken_moves(loaded, count);
            assert(loaded.ssts[sst as int].filters is Loaded);
            assert(after.ssts[sst as int].filters is Loaded);
            assert forall|s: int|
                0 <= s < after.ssts.len() && (#[trigger] after.ssts[s]).filters
                    is Loading implies after.loads.contains(s as usize) || start.load_is_out(
                events,
                n + 1,
                s as usize,
            ) by {
                assert(s != sst as int);
                if loaded.ssts[s].filters is Loading {
                    assert(before.ssts[s].filters is Loading);
                    if before.loads.contains(s as usize) {
                        assert(loaded.loads.contains(s as usize));
                        assert(after.loads.contains(s as usize));
                    } else {
                        assert(start.load_is_out(events, n, s as usize));
                        assert(!brings_filters(event, s as usize));
                    }
                }
            }
            assert forall|u: int, s: usize|
                0 <= u < after.keys.len() && #[trigger] after.waits_for(u, s) implies after.ready[
            s as int].contains(u as usize) || start.read_is_out(
                events,
                n + 1,
                s,
                u as usize,
            ) by {
                if loaded.waits_for(u, s) {
                    lemma_same_waits(before, loaded, u, s);
                    if before.ready[s as int].contains(u as usize) {
                        assert(loaded.ready[s as int].contains(u as usize));
                        assert(after.ready[s as int].contains(u as usize));
                    } else {
                        assert(start.read_is_out(events, n, s, u as usize));
                    }
                }
            }
        },
        Event::Read { sst, us, entries, index } => {
            let indexed = before.with_index(sst, index);
            lemma_with_index(before, sst, index);
            lemma_arrive_moves(indexed, sst, us, entries);
            assert forall|s: int|
                0 <= s < after.ssts.len() && (#[trigger] after.ssts[s]).filters
                    is Loading implies after.loads.contains(s as usize) || start.load_is_out(
                events,
                n + 1,
                s as usize,
            ) by {
                if indexed.ssts[s].filters is Loading {
                    assert(before.ssts[s].filters is Loading);
                    if before.loads.contains(s as usize) {
                        assert(indexed.loads.contains(s as usize));
                        assert(after.loads.contains(s as usize));
                    } else {
                        assert(start.load_is_out(events, n, s as usize));
                        assert(!brings_filters(event, s as usize));
                    }
                }
            }
            assert forall|u: int, s: usize|
                0 <= u < after.keys.len() && #[trigger] after.waits_for(u, s) implies after.ready[
            s as int].contains(u as usize) || start.read_is_out(
                events,
                n + 1,
                s,
                u as usize,
            ) by {
                if s == sst && us.contains(u as usize) {
                    assert(after.waits_for(u as usize as int, sst));
                } else if indexed.waits_for(u, s) {
                    lemma_same_waits(before, indexed, u, s);
                    if before.ready[s as int].contains(u as usize) {
                        assert(indexed.ready[s as int].contains(u as usize));
                        assert(after.ready[s as int].contains(u as usize));
                    } else {
                        assert(start.read_is_out(events, n, s, u as usize));
                        assert(!brings_read(event, s, u as usize));
                    }
                }
            }
        },
        Event::HandOut { sst } => {
            assert forall|s: int|
                0 <= s < after.ssts.len() && (#[trigger] after.ssts[s]).filters
                    is Loading implies after.loads.contains(s as usize) || start.load_is_out(
                events,
                n + 1,
                s as usize,
            ) by {
                assert(before.ssts[s].filters is Loading);
                if !before.loads.contains(s as usize) {
                    assert(start.load_is_out(events, n, s as usize));
                    assert(!brings_filters(event, s as usize));
                }
            }
            assert forall|u: int, s: usize|
                0 <= u < after.keys.len() && #[trigger] after.waits_for(u, s) implies after.ready[
            s as int].contains(u as usize) || start.read_is_out(
                events,
                n + 1,
                s,
                u as usize,
            ) by {
                lemma_same_waits(before, after, u, s);
                if before.ready[s as int].contains(u as usize) {
                    if s == sst {
                        assert(start.hands_out_read(events, n, s, u as usize));
                    }
                } else {
                    assert(start.read_is_out(events, n, s, u as usize));
                    assert(!brings_read(event, s, u as usize));
                }
            }
        },
        Event::HandOutLoads => {
            assert forall|s: int|
                0 <= s < after.ssts.len() && (#[trigger] after.ssts[s]).filters
                    is Loading implies after.loads.contains(s as usize) || start.load_is_out(
                events,
                n + 1,
                s as usize,
            ) by {
                assert(before.ssts[s].filters is Loading);
                if before.loads.contains(s as usize) {
                    assert(start.hands_out_load(events, n, s as usize));
                } else {
                    assert(start.load_is_out(events, n, s as usize));
                    assert(!brings_filters(event, s as usize));
                }
            }
            assert forall|u: int, s: usize|
                0 <= u < after.keys.len() && #[trigger] after.waits_for(u, s) implies after.ready[
            s as int].contains(u as usize) || start.read_is_out(
                events,
                n + 1,
                s,
                u as usize,
            ) by {
                lemma_same_waits(before, after, u, s);
                if !before.ready[s as int].contains(u as usize) {
                    assert(start.read_is_out(events, n, s, u as usize));
                    assert(!brings_read(event, s, u as usize));
                }
            }
        },
    }
}

/// What does not touch the keys leaves their waits.
proof fn lemma_same_waits<F: Filter>(
    before: PipelineState<F>,
    after: PipelineState<F>,
    u: int,
    s: usize,
)
    requires
        before.keys == after.keys,
        after.waits_for(u, s),
    ensures
        before.waits_for(u, s),
{
    let i = choose|i: int|
        0 <= i < after.keys[u].inflight.len() && (#[trigger] after.keys[u].inflight[i]).sst == s
            && after.keys[u].inflight[i].entries is None;
    assert(before.keys[u].inflight[i].sst == s);
}

/// The first events of a run can happen too.
proof fn lemma_first_can_happen<F: Filter>(
    start: PipelineState<F>,
    events: Seq<Event<F>>,
    versions: spec_fn(int, usize) -> Seq<EntryView>,
    n: int,
)
    requires
        start.can_all_happen(events, versions),
        0 <= n <= events.len(),
    ensures
        start.can_all_happen(events.take(n), versions),
        n < events.len() ==> start.after_first(events, n).can_happen(events[n], versions),
    decreases events.len(),
{
    assert(events.take(events.len() as int) =~= events);
    if n < events.len() {
        let front = events.drop_last();
        lemma_first_can_happen(start, front, versions, n);
        assert(front.take(n) =~= events.take(n));
        if n == front.len() {
            assert(front =~= events.take(n));
        }
    }
}

/// All waits of a run are accounted for.
proof fn lemma_accounted<F: Filter>(
    batch: PipelineState<F>,
    events: Seq<Event<F>>,
    versions: spec_fn(int, usize) -> Seq<EntryView>,
    n: int,
)
    requires
        batch.wf(),
        batch.truthful(versions),
        forall|u: int| 0 <= u < batch.keys.len() ==> (#[trigger] batch.keys[u]).idle(),
        forall|s: int|
            0 <= s < batch.ssts.len() ==> !((#[trigger] batch.ssts[s]).filters is Loading),
        batch.started(batch.keys.len() as int).can_all_happen(events, versions),
        0 <= n <= events.len(),
    ensures
        batch.started(batch.keys.len() as int).accounted(events, n),
    decreases n,
{
    let start = batch.started(batch.keys.len() as int);
    if n == 0 {
        assert(events.take(0) =~= Seq::<Event<F>>::empty());
        lemma_started_moves(batch, batch.keys.len() as int);
        assert forall|u: int, s: usize|
            0 <= u < start.keys.len() && #[trigger] start.waits_for(u, s) implies start.ready[
        s as int].contains(u as usize) by {
            if batch.waits_for(u, s) {
                assert(batch.keys[u].idle());
            }
        }
    } else {
        lemma_accounted(batch, events, versions, n - 1);
        lemma_first_can_happen(start, events, versions, n - 1);
        law_each_key_comes_to_its_walk(batch, events.take(n - 1), versions);
        lemma_accounted_step(start, events, versions, n - 1);
    }
}

/// A driver that hands out each filter load and each read, and brings each of
/// them back, ends with no open key: each key has a base value, or no
/// candidate is left.
pub proof fn law_a_complete_run_ends_with_no_open_key<F: Filter>(
    batch: PipelineState<F>,
    events: Seq<Event<F>>,
    versions: spec_fn(int, usize) -> Seq<EntryView>,
)
    requires
        batch.wf(),
        batch.truthful(versions),
        forall|u: int| 0 <= u < batch.keys.len() ==> (#[trigger] batch.keys[u]).idle(),
        forall|s: int|
            0 <= s < batch.ssts.len() ==> !((#[trigger] batch.ssts[s]).filters is Loading),
        batch.started(batch.keys.len() as int).can_all_happen(events, versions),
        batch.started(batch.keys.len() as int).complete(events),
    ensures
        forall|u: int|
            0 <= u < batch.keys.len() ==> (#[trigger] batch.started(
                batch.keys.len() as int,
            ).after_all(events).keys[u]).done,
{
    let start = batch.started(batch.keys.len() as int);
    let after = start.after_all(events);
    let n = events.len() as int;
    assert(events.take(n) =~= events);
    lemma_accounted(batch, events, versions, n);
    law_each_key_comes_to_its_walk(batch, events, versions);
    lemma_waits_within(after, after.keys.len() as int);
    assert forall|s: int| 0 <= s < after.ssts.len() implies !((#[trigger] after.ssts[s]).filters
        is Loading) by {
        if after.ssts[s].filters is Loading {
            let sst = s as usize;
            assert(start.load_is_out(events, n, sst));
            let i = choose|i: int|
                i < n && #[trigger] start.hands_out_load(events, i, sst) && forall|j: int|
                    i < j < n ==> !brings_filters(#[trigger] events[j], sst);
            let j = choose|j: int| i < j < n && brings_filters(#[trigger] events[j], sst);
            assert(!brings_filters(events[j], sst));
        }
    }
    assert forall|u: int, s: usize| 0 <= u < after.keys.len() implies !(#[trigger] after.waits_for(
        u,
        s,
    )) by {
        if after.waits_for(u, s) {
            assert(after.ready[s as int].len() == 0);
            assert(start.read_is_out(events, n, s, u as usize));
            let i = choose|i: int|
                i < n && #[trigger] start.hands_out_read(events, i, s, u as usize) && forall|j: int|
                    i < j < n ==> !brings_read(#[trigger] events[j], s, u as usize);
            let j = choose|j: int| i < j < n && brings_read(#[trigger] events[j], s, u as usize);
            assert(!brings_read(events[j], s, u as usize));
        }
    }
    assert forall|u: int| 0 <= u < batch.keys.len() implies (#[trigger] after.keys[u]).done by {
        if !after.keys[u].done {
            law_an_open_key_waits(after, u);
            assert(key_ok(after.keys[u], after.ssts.len()));
            if after.expects_filters(u) {
                let i = choose|i: int|
                    0 <= i < after.keys[u].candidates.len() && after.ssts[(
                    #[trigger] after.keys[u].candidates[i]).sst as int].filters is Loading;
                assert(!(after.ssts[after.keys[u].candidates[i].sst as int].filters is Loading));
            } else {
                let s = after.keys[u].inflight[0].sst;
                assert(after.keys[u].inflight[0].entries is None);
                assert(after.waits_for(u, s));
            }
        }
    }
}

} // verus!
