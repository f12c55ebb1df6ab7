//! What a run of the read phase comes to.
//!
//! The reads and the filter loads of a batch return in any order. The laws of
//! this module say that the order makes no difference: each key comes to what
//! a walk over its SSTs comes to, and an open key always waits for something.

use std::sync::Arc;
use vstd::prelude::*;

use super::invariants::{
    lemma_arrive,
    lemma_arrive_one,
    lemma_less_ready,
    lemma_pick_in_order,
    lemma_room_for_pick,
    lemma_schedule,
    lemma_started,
    lemma_wake_middle,
    lemma_with_filters,
    lemma_with_index,
    lemma_with_loads,
    lemma_woken,
};
use super::key::{checked_ssts, KeyState, PickView};
use super::outcome::{
    awaited,
    faithful,
    honest,
    law_arrival_keeps_the_outcome,
    law_pick_keeps_the_outcome,
};
use super::pipeline::{
    entries_by_key,
    key_ok,
    with_loads,
    Pipeline,
    PipelineState,
};
use super::sst::{sst_answers, SstEntries};
use crate::filter::{all_pass, each_filter_rejects_only, Filter, NamedFilter};
use crate::scan::held_versions;
use crate::sstable::{found_views, PendingView, SsTableIndex};
use crate::types::EntryView;

verus! {

/// The versions that the SSTs hold for key `u`.
pub open spec fn of_key(versions: spec_fn(int, usize) -> Seq<EntryView>, u: int) -> spec_fn(
    usize,
) -> Seq<EntryView> {
    |sst: usize| versions(u, sst)
}

impl<F: Filter> PipelineState<F> {
    /// The batch knows nothing wrong about the SSTs: its filters reject only
    /// keys that their SST does not hold, and what arrived is what the SSTs
    /// hold.
    pub open spec fn truthful(self, versions: spec_fn(int, usize) -> Seq<EntryView>) -> bool {
        &&& forall|u: int|
            0 <= u < self.keys.len() ==> honest(#[trigger] self.answers(u), of_key(versions, u))
        &&& forall|u: int|
            0 <= u < self.keys.len() ==> faithful(
                (#[trigger] self.keys[u]).inflight,
                of_key(versions, u),
            )
    }

    /// What key `u` comes to.
    pub open spec fn outcome_of(
        self,
        u: int,
        versions: spec_fn(int, usize) -> Seq<EntryView>,
    ) -> Seq<EntryView> {
        self.keys[u].outcome(of_key(versions, u), self.max_seq)
    }

    /// No key comes to anything else than in `other`.
    pub open spec fn same_outcomes(
        self,
        other: Self,
        versions: spec_fn(int, usize) -> Seq<EntryView>,
    ) -> bool {
        &&& self.keys.len() == other.keys.len()
        &&& forall|u: int|
            0 <= u < self.keys.len() ==> #[trigger] self.outcome_of(u, versions)
                == other.outcome_of(u, versions) && self.keys[u].key == other.keys[u].key
                && self.keys[u].wb == other.keys[u].wb
    }
}

/// SSTs with the same loaded filters give the same answers.
proof fn lemma_same_answers<F: Filter>(
    a: PipelineState<F>,
    b: PipelineState<F>,
    versions: spec_fn(int, usize) -> Seq<EntryView>,
)
    requires
        a.keys.len() == b.keys.len(),
        forall|u: int| 0 <= u < a.keys.len() ==> (#[trigger] a.keys[u]).key == b.keys[u].key,
        a.context == b.context,
        a.ssts.len() == b.ssts.len(),
        forall|s: int|
            0 <= s < b.ssts.len() && (#[trigger] b.ssts[s]).filters is Loaded
                ==> a.ssts[s].filters == b.ssts[s].filters,
        a.truthful(versions),
    ensures
        forall|u: int|
            0 <= u < b.keys.len() ==> honest(#[trigger] b.answers(u), of_key(versions, u)),
{
    assert forall|u: int| 0 <= u < b.keys.len() implies honest(
        #[trigger] b.answers(u),
        of_key(versions, u),
    ) by {
        assert(honest(a.answers(u), of_key(versions, u)));
        assert(a.keys[u].key == b.keys[u].key);
        assert forall|sst: usize| (#[trigger] b.answers(u)(sst)) == Some(false) implies of_key(
            versions,
            u,
        )(sst) == Seq::<EntryView>::empty() by {
            assert(a.ssts[sst as int].filters == b.ssts[sst as int].filters);
            assert(a.answers(u)(sst) == Some(false));
        }
    }
}

/// The next pick of a key changes no outcome.
pub proof fn law_schedule_keeps_the_outcomes<F: Filter>(
    batch: PipelineState<F>,
    u: int,
    known: int,
    versions: spec_fn(int, usize) -> Seq<EntryView>,
)
    requires
        batch.wf_waking(known),
        batch.can_pick(u),
        batch.truthful(versions),
    ensures
        batch.schedule(u).truthful(versions),
        batch.schedule(u).same_outcomes(batch, versions),
{
    let key = batch.keys[u];
    let answers = batch.answers(u);
    let after = batch.schedule(u);
    lemma_schedule(batch, u, known);
    lemma_room_for_pick(batch, u, known);
    lemma_pick_in_order(key, batch.lookahead, answers, batch.ssts.len());
    law_pick_keeps_the_outcome(
        key,
        batch.lookahead,
        answers,
        of_key(versions, u),
        batch.max_seq,
    );
    let checked = checked_ssts(
        batch.ssts,
        key.reached(batch.lookahead, answers),
        key.key,
        batch.context,
    );
    assert(after.outcome_of(u, versions) == batch.outcome_of(u, versions));
    assert forall|v: int| 0 <= v < after.keys.len() implies #[trigger] after.outcome_of(v, versions)
        == batch.outcome_of(v, versions) && after.keys[v].key == batch.keys[v].key
        && after.keys[v].wb == batch.keys[v].wb by {
        if v != u {
            assert(after.keys[v] == batch.keys[v]);
        }
    }
    assert forall|v: int| 0 <= v < after.keys.len() implies (#[trigger] batch.keys[v]).key
        == after.keys[v].key by {
        if v != u {
            assert(after.keys[v] == batch.keys[v]);
        }
    }
    match batch.next_step(u) {
        PickView::Load(wanted) => {
            lemma_with_loads(checked, wanted);
            assert forall|s: int|
                0 <= s < after.ssts.len() && (#[trigger] after.ssts[s]).filters
                    is Loaded implies batch.ssts[s].filters == after.ssts[s].filters by {
                assert(after.ssts[s] == with_loads(checked, wanted)[s]);
                assert(checked[s].filters == batch.ssts[s].filters);
            }
        },
        _ => {
            assert forall|s: int|
                0 <= s < after.ssts.len() && (#[trigger] after.ssts[s]).filters
                    is Loaded implies batch.ssts[s].filters == after.ssts[s].filters by {
                assert(checked[s].filters == batch.ssts[s].filters);
            }
        },
    }
    lemma_same_answers(batch, after, versions);
    assert forall|v: int| 0 <= v < after.keys.len() implies faithful(
        (#[trigger] after.keys[v]).inflight,
        of_key(versions, v),
    ) by {
        if v != u {
            assert(after.keys[v] == batch.keys[v]);
        }
    }
}

/// The first picks change no outcome.
pub proof fn law_start_keeps_the_outcomes<F: Filter>(
    batch: PipelineState<F>,
    n: int,
    versions: spec_fn(int, usize) -> Seq<EntryView>,
)
    requires
        batch.wf(),
        batch.truthful(versions),
        0 <= n <= batch.keys.len(),
        forall|u: int| 0 <= u < batch.keys.len() ==> (#[trigger] batch.keys[u]).idle(),
    ensures
        batch.started(n).truthful(versions),
        batch.started(n).same_outcomes(batch, versions),
    decreases n,
{
    if n > 0 {
        let before = batch.started(n - 1);
        law_start_keeps_the_outcomes(batch, n - 1, versions);
        lemma_started(batch, n - 1);
        assert(before.keys[n - 1] == batch.keys[n - 1]);
        if !before.keys[n - 1].done {
            law_schedule_keeps_the_outcomes(before, n - 1, before.keys.len() as int, versions);
            lemma_chain(batch.started(n), before, batch, versions);
        }
    }
}

/// Outcomes that stay the same twice stay the same.
proof fn lemma_chain<F: Filter>(
    a: PipelineState<F>,
    b: PipelineState<F>,
    c: PipelineState<F>,
    versions: spec_fn(int, usize) -> Seq<EntryView>,
)
    requires
        a.same_outcomes(b, versions),
        b.same_outcomes(c, versions),
    ensures
        a.same_outcomes(c, versions),
{
    assert forall|u: int| 0 <= u < a.keys.len() implies #[trigger] a.outcome_of(u, versions)
        == c.outcome_of(u, versions) && a.keys[u].key == c.keys[u].key && a.keys[u].wb
        == c.keys[u].wb by {
        assert(a.outcome_of(u, versions) == b.outcome_of(u, versions));
        assert(b.outcome_of(u, versions) == c.outcome_of(u, versions));
    }
}

/// What one SST holds for a key changes no outcome when it arrives.
pub proof fn lemma_arrive_one_outcome<F: Filter>(
    batch: PipelineState<F>,
    sst: usize,
    u: int,
    versions: spec_fn(int, usize) -> Seq<EntryView>,
)
    requires
        batch.wf(),
        batch.all_busy(),
        batch.truthful(versions),
        0 <= u < batch.keys.len(),
    ensures
        batch.arrive_one(sst, u, versions(u, sst)).truthful(versions),
        batch.arrive_one(sst, u, versions(u, sst)).same_outcomes(batch, versions),
{
    let entries = versions(u, sst);
    let key = batch.keys[u].arrive(sst, entries, batch.max_seq);
    let middle = PipelineState { keys: batch.keys.update(u, key), ..batch };
    assert(faithful(batch.keys[u].inflight, of_key(versions, u)));
    law_arrival_keeps_the_outcome(batch.keys[u], sst, of_key(versions, u), batch.max_seq);
    super::invariants::lemma_arrive_middle(batch, sst, u, entries);
    assert forall|v: int| 0 <= v < middle.keys.len() implies #[trigger] middle.outcome_of(
        v,
        versions,
    ) == batch.outcome_of(v, versions) && middle.keys[v].key == batch.keys[v].key
        && middle.keys[v].wb == batch.keys[v].wb by {}
    assert forall|v: int| 0 <= v < middle.keys.len() implies (#[trigger] batch.keys[v]).key
        == middle.keys[v].key by {}
    lemma_same_answers(batch, middle, versions);
    assert forall|v: int| 0 <= v < middle.keys.len() implies faithful(
        (#[trigger] middle.keys[v]).inflight,
        of_key(versions, v),
    ) by {
        if v != u {
            assert(faithful(batch.keys[v].inflight, of_key(versions, v)));
        }
    }
    if !key.done && key.idle() {
        law_schedule_keeps_the_outcomes(middle, u, middle.keys.len() as int, versions);
        lemma_chain(middle.schedule(u), middle, batch, versions);
    }
}

/// The arrivals of one read are what the SST holds for the keys.
pub open spec fn arrivals_hold(
    sst: usize,
    us: Seq<usize>,
    entries: Map<usize, Seq<EntryView>>,
    versions: spec_fn(int, usize) -> Seq<EntryView>,
) -> bool {
    &&& us.no_duplicates()
    &&& forall|i: int|
        0 <= i < us.len() ==> versions((#[trigger] us[i]) as int, sst) == if entries.contains_key(
            us[i],
        ) {
            entries[us[i]]
        } else {
            Seq::empty()
        }
}

/// The arrival of a read changes no outcome.
proof fn lemma_arrive_outcome<F: Filter>(
    batch: PipelineState<F>,
    sst: usize,
    us: Seq<usize>,
    entries: Map<usize, Seq<EntryView>>,
    versions: spec_fn(int, usize) -> Seq<EntryView>,
)
    requires
        batch.wf(),
        batch.all_busy(),
        batch.truthful(versions),
        forall|i: int| 0 <= i < us.len() ==> (#[trigger] us[i]) < batch.keys.len(),
        arrivals_hold(sst, us, entries, versions),
    ensures
        batch.arrive(sst, us, entries).truthful(versions),
        batch.arrive(sst, us, entries).same_outcomes(batch, versions),
    decreases us.len(),
{
    if us.len() > 0 {
        let u = us[0];
        let rest = us.skip(1);
        let found = if entries.contains_key(u) {
            entries[u]
        } else {
            Seq::empty()
        };
        let next = batch.arrive_one(sst, u as int, found);
        assert(found == versions(u as int, sst));
        lemma_arrive_one(batch, sst, u as int, found);
        lemma_arrive_one_outcome(batch, sst, u as int, versions);
        assert forall|i: int| 0 <= i < rest.len() implies (#[trigger] rest[i])
            < next.keys.len() by {
            assert(us[i + 1] < batch.keys.len());
        }
        assert(rest.no_duplicates()) by {
            assert forall|i: int, j: int|
                0 <= i < rest.len() && 0 <= j < rest.len() && i != j implies rest[i] != rest[j] by {
                assert(us[i + 1] != us[j + 1]);
            }
        }
        let fewer = entries.remove(u);
        assert forall|i: int| 0 <= i < rest.len() implies versions(
            (#[trigger] rest[i]) as int,
            sst,
        ) == if fewer.contains_key(rest[i]) {
            fewer[rest[i]]
        } else {
            Seq::empty()
        } by {
            assert(us[i + 1] == rest[i]);
            assert(us[0] != us[i + 1]);
        }
        lemma_arrive_outcome(next, sst, rest, fewer, versions);
        lemma_chain(batch.arrive(sst, us, entries), next, batch, versions);
    }
}

/// The wake-ups of the first keys change no outcome.
proof fn lemma_woken_outcome<F: Filter>(
    batch: PipelineState<F>,
    n: int,
    versions: spec_fn(int, usize) -> Seq<EntryView>,
)
    requires
        batch.wf_waking(0),
        batch.all_busy(),
        batch.truthful(versions),
        0 <= n <= batch.keys.len(),
    ensures
        batch.woken(n).truthful(versions),
        batch.woken(n).same_outcomes(batch, versions),
    decreases n,
{
    if n > 0 {
        let u = n - 1;
        let before = batch.woken(u);
        let next = before.wake(u);
        lemma_woken(batch, u);
        lemma_woken_outcome(batch, u, versions);
        if before.keys[u].waiting > 0 && !before.keys[u].done {
            let key = KeyState { waiting: 0, ..before.keys[u] };
            let middle = PipelineState { keys: before.keys.update(u, key), ..before };
            lemma_wake_middle(before, u, u);
            assert forall|v: int| 0 <= v < middle.keys.len() implies #[trigger] middle.outcome_of(
                v,
                versions,
            ) == before.outcome_of(v, versions) && middle.keys[v].key == before.keys[v].key
                && middle.keys[v].wb == before.keys[v].wb by {
                if v == u {
                    assert(key.open_ssts() =~= before.keys[u].open_ssts());
                }
            }
            assert forall|v: int| 0 <= v < middle.keys.len() implies (#[trigger] before.keys[v]).key
                == middle.keys[v].key by {}
            lemma_same_answers(before, middle, versions);
            assert forall|v: int| 0 <= v < middle.keys.len() implies faithful(
                (#[trigger] middle.keys[v]).inflight,
                of_key(versions, v),
            ) by {
                assert(faithful(before.keys[v].inflight, of_key(versions, v)));
            }
            law_schedule_keeps_the_outcomes(middle, u, u, versions);
            lemma_chain(next, middle, before, versions);
            lemma_chain(next, before, batch, versions);
        }
    }
}

/// What happens to a batch in its read phase.
pub enum Event<F> {
    /// The filters of an SST came.
    Filters { sst: usize, filters: Seq<NamedFilter<F>> },
    /// The read of an SST came for some of its keys.
    Read {
        sst: usize,
        us: Seq<usize>,
        entries: Map<usize, Seq<EntryView>>,
        index: Option<Arc<SsTableIndex>>,
    },
    /// The keys that wait for an SST were handed out.
    HandOut { sst: usize },
    /// The filter loads were handed out.
    HandOutLoads,
}

impl<F: Filter> PipelineState<F> {
    /// The batch after an event.
    pub open spec fn after(self, event: Event<F>) -> Self {
        match event {
            Event::Filters { sst, filters } => self.on_filters(sst as int, filters),
            Event::Read { sst, us, entries, index } => self.with_index(sst, index).arrive(
                sst,
                us,
                entries,
            ),
            Event::HandOut { sst } => PipelineState {
                ready: self.ready.update(sst as int, Seq::empty()),
                ..self
            },
            Event::HandOutLoads => PipelineState { loads: Seq::empty(), ..self },
        }
    }

    /// The event can happen to the batch, and it tells the truth about the
    /// SSTs: each single filter rejects only keys that the SST does not hold,
    /// and a read brings what the SST holds.
    pub open spec fn can_happen(
        self,
        event: Event<F>,
        versions: spec_fn(int, usize) -> Seq<EntryView>,
    ) -> bool {
        match event {
            Event::Filters { sst, filters } => {
                &&& sst < self.ssts.len()
                &&& forall|u: int|
                    0 <= u < self.keys.len() ==> each_filter_rejects_only(
                        filters,
                        (#[trigger] self.keys[u]).key,
                        self.context,
                        versions(u, sst) == Seq::<EntryView>::empty(),
                    )
            },
            Event::Read { sst, us, entries, index } => {
                &&& sst < self.ssts.len()
                &&& forall|i: int| 0 <= i < us.len() ==> (#[trigger] us[i]) < self.keys.len()
                &&& arrivals_hold(sst, us, entries, versions)
                &&& index matches Some(index) ==> index.wf()
            },
            Event::HandOut { sst } => sst < self.ready.len(),
            Event::HandOutLoads => true,
        }
    }

    /// The batch after some events.
    pub open spec fn after_all(self, events: Seq<Event<F>>) -> Self
        decreases events.len(),
    {
        if events.len() == 0 {
            self
        } else {
            self.after_all(events.drop_last()).after(events.last())
        }
    }

    /// The events can happen, one after the other.
    pub open spec fn can_all_happen(
        self,
        events: Seq<Event<F>>,
        versions: spec_fn(int, usize) -> Seq<EntryView>,
    ) -> bool
        decreases events.len(),
    {
        events.len() == 0 || (self.can_all_happen(events.drop_last(), versions) && self.after_all(
            events.drop_last(),
        ).can_happen(events.last(), versions))
    }
}

/// What one task of the read phase returns.
pub enum ReadEvent<F> {
    /// The filters of one SST.
    Filters { sst: usize, filters: Vec<NamedFilter<F>> },
    /// The read of one SST for some of its keys.
    Read {
        sst: usize,
        /// The keys that the read got. A key that the SST does not hold has
        /// no entries, but it still arrives.
        keys: Vec<usize>,
        entries: SstEntries,
    },
}

impl<F> View for ReadEvent<F> {
    type V = Event<F>;

    open spec fn view(&self) -> Event<F> {
        match *self {
            ReadEvent::Filters { sst, filters } => Event::Filters { sst, filters: filters@ },
            ReadEvent::Read { sst, keys, entries } => Event::Read {
                sst,
                us: keys@,
                entries: entries_by_key(found_views(entries.found@)),
                index: Some(entries.index),
            },
        }
    }
}

impl<F: Filter> Pipeline<F> {
    /// Take what one task returned.
    pub fn on_event(&mut self, event: ReadEvent<F>)
        requires
            old(self)@.wf(),
            old(self)@.all_busy(),
            match event {
                ReadEvent::Filters { sst, .. } => sst < old(self)@.ssts.len(),
                ReadEvent::Read { sst, keys, entries } => {
                    &&& sst < old(self)@.ssts.len()
                    &&& forall|i: int|
                        0 <= i < keys@.len() ==> (#[trigger] keys@[i]) < old(self)@.keys.len()
                    &&& entries.index.wf()
                },
            },
        ensures
            final(self)@ == old(self)@.after(event@),
            final(self)@.wf(),
            final(self)@.all_busy(),
            final(self)@.keys.len() == old(self)@.keys.len(),
            final(self)@.ssts.len() == old(self)@.ssts.len(),
    {
        match event {
            ReadEvent::Filters { sst, filters } => {
                self.on_filters(sst, filters);
            },
            ReadEvent::Read { sst, keys, entries } => {
                self.arrive(sst, keys, entries.found, Some(entries.index));
            },
        }
    }
}

/// The filters of an SST change no outcome.
proof fn lemma_filters_outcome<F: Filter>(
    batch: PipelineState<F>,
    sst: usize,
    filters: Seq<NamedFilter<F>>,
    versions: spec_fn(int, usize) -> Seq<EntryView>,
)
    requires
        batch.wf(),
        batch.all_busy(),
        batch.truthful(versions),
        batch.can_happen(Event::Filters { sst, filters }, versions),
    ensures
        batch.on_filters(sst as int, filters).truthful(versions),
        batch.on_filters(sst as int, filters).same_outcomes(batch, versions),
{
    let at = sst as int;
    let loaded = batch.with_filters(at, filters);
    lemma_with_filters(batch, at, filters);
    assert forall|u: int| 0 <= u < loaded.keys.len() implies honest(
        #[trigger] loaded.answers(u),
        of_key(versions, u),
    ) by {
        assert(honest(batch.answers(u), of_key(versions, u)));
        assert forall|s: usize| (#[trigger] loaded.answers(u)(s)) == Some(false) implies of_key(
            versions,
            u,
        )(s) == Seq::<EntryView>::empty() by {
            if s == sst {
                assert(!all_pass(filters, batch.keys[u].key, batch.context));
                let i = choose|i: int|
                    0 <= i < filters.len() && !(#[trigger] filters[i]).filter.passes(
                        batch.keys[u].key,
                        batch.context,
                    );
                assert(!filters[i].filter.passes(batch.keys[u].key, batch.context));
                assert(each_filter_rejects_only(
                    filters,
                    batch.keys[u].key,
                    batch.context,
                    versions(u, sst) == Seq::<EntryView>::empty(),
                ));
                assert(of_key(versions, u)(sst) == versions(u, sst));
            } else {
                assert(batch.answers(u)(s) == Some(false));
            }
        }
    }
    assert forall|v: int| 0 <= v < loaded.keys.len() implies faithful(
        (#[trigger] loaded.keys[v]).inflight,
        of_key(versions, v),
    ) by {
        assert(faithful(batch.keys[v].inflight, of_key(versions, v)));
    }
    assert forall|v: int| 0 <= v < loaded.keys.len() implies #[trigger] loaded.outcome_of(
        v,
        versions,
    ) == batch.outcome_of(v, versions) && loaded.keys[v].key == batch.keys[v].key
        && loaded.keys[v].wb == batch.keys[v].wb by {}
    lemma_woken_outcome(loaded, loaded.keys.len() as int, versions);
    lemma_chain(batch.on_filters(at, filters), loaded, batch, versions);
}

/// The index of a read changes no outcome.
pub proof fn lemma_index_keeps_the_truth<F: Filter>(
    batch: PipelineState<F>,
    sst: usize,
    index: Option<Arc<SsTableIndex>>,
    versions: spec_fn(int, usize) -> Seq<EntryView>,
)
    requires
        sst < batch.ssts.len(),
        batch.truthful(versions),
    ensures
        batch.with_index(sst, index).truthful(versions),
        batch.with_index(sst, index).same_outcomes(batch, versions),
{
    let indexed = batch.with_index(sst, index);
    assert forall|v: int| 0 <= v < indexed.keys.len() implies (#[trigger] batch.keys[v]).key
        == indexed.keys[v].key by {}
    lemma_same_answers(batch, indexed, versions);
    assert forall|v: int| 0 <= v < indexed.keys.len() implies faithful(
        (#[trigger] indexed.keys[v]).inflight,
        of_key(versions, v),
    ) by {
        assert(faithful(batch.keys[v].inflight, of_key(versions, v)));
    }
    assert forall|v: int| 0 <= v < indexed.keys.len() implies #[trigger] indexed.outcome_of(
        v,
        versions,
    ) == batch.outcome_of(v, versions) && indexed.keys[v].key == batch.keys[v].key
        && indexed.keys[v].wb == batch.keys[v].wb by {}
}

/// No event changes what a key comes to, and after each event each open key
/// still waits for something.
pub proof fn law_event_keeps_the_outcomes<F: Filter>(
    batch: PipelineState<F>,
    event: Event<F>,
    versions: spec_fn(int, usize) -> Seq<EntryView>,
)
    requires
        batch.wf(),
        batch.all_busy(),
        batch.truthful(versions),
        batch.can_happen(event, versions),
    ensures
        batch.after(event).wf(),
        batch.after(event).all_busy(),
        batch.after(event).truthful(versions),
        batch.after(event).same_outcomes(batch, versions),
{
    let after = batch.after(event);
    match event {
        Event::Filters { sst, filters } => {
            lemma_with_filters(batch, sst as int, filters);
            lemma_woken(batch.with_filters(sst as int, filters), batch.keys.len() as int);
            lemma_filters_outcome(batch, sst, filters, versions);
        },
        Event::Read { sst, us, entries, index } => {
            let indexed = batch.with_index(sst, index);
            lemma_with_index(batch, sst, index);
            lemma_index_keeps_the_truth(batch, sst, index, versions);
            lemma_arrive(indexed, sst, us, entries);
            lemma_arrive_outcome(indexed, sst, us, entries, versions);
            lemma_chain(after, indexed, batch, versions);
        },
        Event::HandOut { sst } => {
            lemma_less_ready(batch, sst as int);
            lemma_same_keys(batch, after, versions);
        },
        Event::HandOutLoads => {
            lemma_same_keys(batch, after, versions);
        },
    }
}

/// What does not touch the keys and the SSTs changes no outcome.
proof fn lemma_same_keys<F: Filter>(
    batch: PipelineState<F>,
    after: PipelineState<F>,
    versions: spec_fn(int, usize) -> Seq<EntryView>,
)
    requires
        batch.all_busy(),
        batch.truthful(versions),
        after.keys == batch.keys,
        after.ssts == batch.ssts,
        after.context == batch.context,
        after.max_seq == batch.max_seq,
    ensures
        after.all_busy(),
        after.truthful(versions),
        after.same_outcomes(batch, versions),
{
    assert forall|v: int| 0 <= v < after.keys.len() implies #[trigger] after.busy(v) by {
        assert(batch.busy(v));
    }
    assert forall|v: int| 0 <= v < after.keys.len() implies honest(
        #[trigger] after.answers(v),
        of_key(versions, v),
    ) by {
        assert(honest(batch.answers(v), of_key(versions, v)));
    }
    assert forall|v: int| 0 <= v < after.keys.len() implies #[trigger] after.outcome_of(v, versions)
        == batch.outcome_of(v, versions) by {}
}

/// Whatever comes, and in whatever order it comes, each key of a batch comes
/// to what the walk over its SSTs comes to: when the key is done, it has
/// exactly that.
pub proof fn law_each_key_comes_to_its_walk<F: Filter>(
    batch: PipelineState<F>,
    events: Seq<Event<F>>,
    versions: spec_fn(int, usize) -> Seq<EntryView>,
)
    requires
        batch.wf(),
        batch.truthful(versions),
        forall|u: int| 0 <= u < batch.keys.len() ==> (#[trigger] batch.keys[u]).idle(),
        batch.started(batch.keys.len() as int).can_all_happen(events, versions),
    ensures
        ({
            let after = batch.started(batch.keys.len() as int).after_all(events);
            &&& after.wf()
            &&& after.all_busy()
            &&& after.truthful(versions)
            &&& after.same_outcomes(batch, versions)
            &&& forall|u: int|
                0 <= u < batch.keys.len() && (#[trigger] after.keys[u]).done ==> after.keys[u].acc
                    == batch.outcome_of(u, versions)
        }),
    decreases events.len(),
{
    let start = batch.started(batch.keys.len() as int);
    let after = start.after_all(events);
    if events.len() == 0 {
        lemma_started(batch, batch.keys.len() as int);
        law_start_keeps_the_outcomes(batch, batch.keys.len() as int, versions);
    } else {
        let front = events.drop_last();
        law_each_key_comes_to_its_walk(batch, front, versions);
        let before = start.after_all(front);
        law_event_keeps_the_outcomes(before, events.last(), versions);
        lemma_chain(after, before, batch, versions);
    }
    assert forall|u: int| 0 <= u < batch.keys.len() && (
    #[trigger] after.keys[u]).done implies after.keys[u].acc == batch.outcome_of(u, versions) by {
        assert(after.outcome_of(u, versions) == batch.outcome_of(u, versions));
    }
}

/// An open key always waits for something: for the filters of one of its
/// candidates, whose load is in flight, or for the newest SST of its pick.
pub proof fn law_an_open_key_waits<F: Filter>(batch: PipelineState<F>, u: int)
    requires
        batch.wf(),
        batch.all_busy(),
        0 <= u < batch.keys.len(),
        !batch.keys[u].done,
    ensures
        batch.expects_filters(u) || (batch.keys[u].inflight.len() > 0 && awaited(
            batch.keys[u].inflight,
            batch.keys[u].inflight[0].sst,
        )),
{
    assert(batch.busy(u));
    assert(key_ok(batch.keys[u], batch.ssts.len()));
}

/// No two keys have the same slot.
pub open spec fn distinct_slots(keys: Seq<PendingView>) -> bool {
    forall|i: int, j: int|
        0 <= i < keys.len() && 0 <= j < keys.len() && i != j ==> (#[trigger] keys[i]).idx != (
        #[trigger] keys[j]).idx
}

/// What an SST answers for a key, by slot.
proof fn lemma_answers_by_slot(keys: Seq<PendingView>, content: Seq<Seq<EntryView>>)
    requires
        distinct_slots(keys),
    ensures
        forall|x: usize| #[trigger]
            entries_by_key(sst_answers(keys, content)).contains_key(x) ==> exists|i: int|
                0 <= i < keys.len() && (#[trigger] keys[i]).idx == x,
        forall|i: int|
            0 <= i < keys.len() ==> held_versions(content, (#[trigger] keys[i]).key)
                == if entries_by_key(sst_answers(keys, content)).contains_key(keys[i].idx) {
                entries_by_key(sst_answers(keys, content))[keys[i].idx]
            } else {
                Seq::empty()
            },
    decreases keys.len(),
{
    if keys.len() > 0 {
        let front = keys.drop_last();
        let n = keys.len() - 1;
        let last = keys[n];
        assert forall|i: int, j: int|
            0 <= i < front.len() && 0 <= j < front.len() && i != j implies (
        #[trigger] front[i]).idx != (#[trigger] front[j]).idx by {
            assert(keys[i].idx != keys[j].idx);
        }
        lemma_answers_by_slot(front, content);
        let before = entries_by_key(sst_answers(front, content));
        let answers = sst_answers(keys, content);
        let after = entries_by_key(answers);
        let entries = held_versions(content, last.key);
        if entries.len() > 0 {
            assert(answers.drop_last() =~= sst_answers(front, content));
            assert(after == before.insert(last.idx, entries));
        }
        assert(!before.contains_key(last.idx)) by {
            if before.contains_key(last.idx) {
                let i = choose|i: int| 0 <= i < front.len() && (#[trigger] front[i]).idx == last.idx;
                assert(keys[i].idx != keys[n].idx);
            }
        }
        assert forall|x: usize| #[trigger] after.contains_key(x) implies exists|i: int|
            0 <= i < keys.len() && (#[trigger] keys[i]).idx == x by {
            if x != last.idx {
                assert(before.contains_key(x));
                let i = choose|i: int| 0 <= i < front.len() && (#[trigger] front[i]).idx == x;
                assert(keys[i].idx == x);
            } else {
                assert(keys[n].idx == x);
            }
        }
        assert forall|i: int| 0 <= i < keys.len() implies held_versions(
            content,
            (#[trigger] keys[i]).key,
        ) == if after.contains_key(keys[i].idx) {
            after[keys[i].idx]
        } else {
            Seq::empty()
        } by {
            if i < n {
                assert(front[i] == keys[i]);
                assert(keys[i].idx != keys[n].idx);
            } else {
                assert(entries.len() == 0 ==> entries =~= Seq::<EntryView>::empty());
            }
        }
    }
}

/// A read of an SST that answers like the SST brings each of its keys what
/// the SST holds of it.
pub proof fn law_a_read_brings_what_the_sst_holds(
    keys: Seq<PendingView>,
    content: Seq<Seq<EntryView>>,
    sst: usize,
    versions: spec_fn(int, usize) -> Seq<EntryView>,
)
    requires
        distinct_slots(keys),
        forall|i: int|
            0 <= i < keys.len() ==> versions((#[trigger] keys[i]).idx as int, sst)
                == held_versions(content, keys[i].key),
    ensures
        arrivals_hold(
            sst,
            keys.map_values(|key: PendingView| key.idx),
            entries_by_key(sst_answers(keys, content)),
            versions,
        ),
{
    let us = keys.map_values(|key: PendingView| key.idx);
    let entries = entries_by_key(sst_answers(keys, content));
    lemma_answers_by_slot(keys, content);
    assert(us.no_duplicates()) by {
        assert forall|i: int, j: int| 0 <= i < us.len() && 0 <= j < us.len() && i != j implies us[i]
            != us[j] by {
            assert(keys[i].idx != keys[j].idx);
        }
    }
    assert forall|i: int| 0 <= i < us.len() implies versions((#[trigger] us[i]) as int, sst)
        == if entries.contains_key(us[i]) {
        entries[us[i]]
    } else {
        Seq::empty()
    } by {
        assert(versions(keys[i].idx as int, sst) == held_versions(content, keys[i].key));
    }
}

} // verus!
