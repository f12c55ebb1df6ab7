//! The plan of a batch: which SSTs can hold which keys, with what the cached
//! filters say about them.
//!
//! The functions here are pure. They read the manifest and the filters that
//! are in the cache, and they send no request.

use bytes::Bytes;
use std::sync::Arc;
use vstd::prelude::*;

use super::batch::sorted_keys;
use super::candidates::{
    group_by_segment,
    group_views,
    grouped,
    in_groups,
    law_each_open_key_has_one_group,
    layer_views,
    states,
    tree_layers,
    tree_views,
    views_of_run,
    GroupView,
    LeveledView,
};
use super::key::{KeyRead, KeyState};
use crate::filter::{all_filters_might_match, all_pass, Filter, NamedFilter};
use crate::manifest::{
    view_holds_key,
    LsmTree,
    ManifestCore,
    SortedRun,
    SsTableView,
    SstTraceLevel,
    SstViewState,
};
use crate::octets::{
    as_slice,
    content,
    contents,
    key_le,
    lemma_lex_transitive,
    lex_le,
    lex_lt,
    share,
};
use crate::partitions::{covers, Partitioned};
use crate::sstable::{pending_views, PendingKey, PendingView};

verus! {

/// What the cached filters say about one key in one SST. A key that the
/// filters reject is no candidate at all.
#[derive(Clone, Copy, Debug, PartialEq, Eq, Structural)]
pub enum FilterState {
    /// The filters are not in the cache.
    Unknown,
    /// The filters passed the key, or the SST has no filter.
    Positive,
}

/// One SST of the plan with the keys that it can hold.
pub struct PlanSst<F> {
    pub view: SsTableView,
    pub segment: Bytes,
    pub level: SstTraceLevel,
    /// The filters from the cache. `None` means that they are not cached.
    pub filters: Option<Arc<Vec<NamedFilter<F>>>>,
    /// Sorted. `idx` points into the keys of the batch.
    pub keys: Vec<PendingKey>,
}

/// What a [`PlanSst`] says.
#[verifier::ext_equal]
pub struct PlanSstView<F> {
    pub view: SstViewState,
    pub segment: Seq<u8>,
    pub level: SstTraceLevel,
    pub filters: Option<Arc<Vec<NamedFilter<F>>>>,
    pub keys: Seq<PendingView>,
}

impl<F> View for PlanSst<F> {
    type V = PlanSstView<F>;

    open spec fn view(&self) -> PlanSstView<F> {
        PlanSstView {
            view: self.view@,
            segment: content(self.segment),
            level: self.level,
            filters: self.filters,
            keys: pending_views(self.keys@),
        }
    }
}

/// What the SSTs of a plan say.
pub open spec fn plan_views<F>(ssts: Seq<PlanSst<F>>) -> Seq<PlanSstView<F>> {
    ssts.map_values(|sst: PlanSst<F>| sst@)
}

/// One SST of a key.
#[derive(Clone, Copy, Debug, PartialEq, Eq, Structural)]
pub struct Candidate {
    /// Index into [`Plan::ssts`].
    pub sst: usize,
    pub state: FilterState,
}

/// Which SSTs a batch can read, and for which keys.
pub struct Plan<F> {
    /// Newest first inside each LSM tree.
    pub ssts: Vec<PlanSst<F>>,
    /// For each key, its SSTs, newest first.
    pub candidates: Vec<Vec<Candidate>>,
    /// The keys that the cached filters passed and rejected.
    pub positives: u64,
    pub negatives: u64,
}

// ---------------------------------------------------------------------------
// The cached filters
// ---------------------------------------------------------------------------

impl<F: Filter> PlanSstView<F> {
    /// What the cached filters say about the keys that they keep.
    pub open spec fn state(self) -> FilterState {
        match self.filters {
            None => FilterState::Unknown,
            Some(_) => FilterState::Positive,
        }
    }

    /// The SST with the keys that its cached filters pass. With no cached
    /// filters, each key stays.
    pub open spec fn kept(self, context: Option<F::Context>) -> Self {
        match self.filters {
            None => self,
            Some(filters) => PlanSstView {
                keys: self.keys.filter(
                    |key: PendingView| all_pass(filters@, key.key, context),
                ),
                ..self
            },
        }
    }

    /// The candidates of key `u` in this SST, when it has the number `sst`.
    pub open spec fn candidates_of(self, u: usize, sst: nat) -> Seq<Candidate> {
        self.keys.filter(|key: PendingView| key.idx == u).map_values(
            |key: PendingView| Candidate { sst: sst as usize, state: self.state() },
        )
    }
}

/// The SSTs of the plan. An SST that keeps no key leaves it.
pub open spec fn planned<F: Filter>(
    ssts: Seq<PlanSstView<F>>,
    context: Option<F::Context>,
) -> Seq<PlanSstView<F>>
    decreases ssts.len(),
{
    if ssts.len() == 0 {
        Seq::empty()
    } else {
        let before = planned(ssts.drop_last(), context);
        let last = ssts.last().kept(context);
        if last.keys.len() == 0 {
            before
        } else {
            before.push(last)
        }
    }
}

/// The candidates of key `u` in the plan.
pub open spec fn planned_candidates<F: Filter>(
    ssts: Seq<PlanSstView<F>>,
    context: Option<F::Context>,
    u: usize,
) -> Seq<Candidate>
    decreases ssts.len(),
{
    if ssts.len() == 0 {
        Seq::empty()
    } else {
        planned_candidates(ssts.drop_last(), context, u) + ssts.last().kept(context).candidates_of(
            u,
            planned(ssts.drop_last(), context).len(),
        )
    }
}

/// How many keys the cached filters kept. An SST with no filter counts
/// nothing.
pub open spec fn passed_count<F: Filter>(
    ssts: Seq<PlanSstView<F>>,
    context: Option<F::Context>,
) -> nat
    decreases ssts.len(),
{
    if ssts.len() == 0 {
        0
    } else {
        passed_count(ssts.drop_last(), context) + match ssts.last().filters {
            Some(filters) if filters@.len() > 0 => ssts.last().kept(context).keys.len(),
            _ => 0,
        }
    }
}

/// How many keys the cached filters rejected.
pub open spec fn rejected_count<F: Filter>(
    ssts: Seq<PlanSstView<F>>,
    context: Option<F::Context>,
) -> int
    decreases ssts.len(),
{
    if ssts.len() == 0 {
        0
    } else {
        rejected_count(ssts.drop_last(), context) + ssts.last().keys.len() - ssts.last().kept(
            context,
        ).keys.len()
    }
}

/// How many keys the SSTs have in all.
pub open spec fn key_count<F>(ssts: Seq<PlanSstView<F>>) -> nat
    decreases ssts.len(),
{
    if ssts.len() == 0 {
        0
    } else {
        key_count(ssts.drop_last()) + ssts.last().keys.len()
    }
}

/// The counts of a part of the SSTs are no more than their keys.
proof fn lemma_counts<F: Filter>(
    ssts: Seq<PlanSstView<F>>,
    context: Option<F::Context>,
    n: int,
)
    requires
        0 <= n <= ssts.len(),
    ensures
        passed_count(ssts.take(n), context) <= key_count(ssts.take(n)),
        0 <= rejected_count(ssts.take(n), context) <= key_count(ssts.take(n)),
        key_count(ssts.take(n)) <= key_count(ssts),
    decreases ssts.len(), n,
{
    if n < ssts.len() {
        lemma_counts(ssts.drop_last(), context, n);
        assert(ssts.drop_last().take(n) =~= ssts.take(n));
    } else {
        assert(ssts.take(n) =~= ssts);
        if n > 0 {
            let front = ssts.drop_last();
            lemma_counts(front, context, n - 1);
            assert(front.take(n - 1) =~= front);
            let last = ssts.last();
            if let Some(filters) = last.filters {
                last.keys.lemma_filter_len(
                    |key: PendingView| all_pass(filters@, key.key, context),
                );
            }
        }
    }
}

/// Keep the keys that the filters pass.
fn filter_keys<F: Filter>(
    keys: Vec<PendingKey>,
    filters: &Vec<NamedFilter<F>>,
    context: &Option<F::Context>,
) -> (kept: Vec<PendingKey>)
    ensures
        pending_views(kept@) == pending_views(keys@).filter(
            |key: PendingView| all_pass(filters@, key.key, *context),
        ),
{
    let mut kept: Vec<PendingKey> = Vec::new();
    let ghost all = pending_views(keys@);
    let ghost pass = |key: PendingView| all_pass(filters@, key.key, *context);
    proof {
        all.take(0).lemma_filter_len(pass);
        assert(pending_views(kept@) =~= all.take(0).filter(pass));
    }
    for key in it: keys
        invariant
            it.seq() == keys@,
            all == pending_views(keys@),
            pass == (|key: PendingView| all_pass(filters@, key.key, *context)),
            pending_views(kept@) == all.take(it.index() as int).filter(pass),
    {
        let ghost k = it.index() as int;
        let ghost before = pending_views(kept@);
        let ghost name = key@;
        proof {
            assert(all.take(k + 1) =~= all.take(k).push(name));
            all.take(k).lemma_filter_push(name, pass);
        }
        if all_filters_might_match(filters, &key.key, context) {
            kept.push(key);
            assert(pending_views(kept@) =~= before.push(name));
        }
    }
    assert(all.take(all.len() as int) =~= all);
    kept
}

impl<F: Filter> Plan<F> {
    /// Apply the cached filters of each SST to its keys. An SST that keeps no
    /// key leaves the plan.
    pub fn new(ssts: Vec<PlanSst<F>>, num_keys: usize, context: &Option<F::Context>) -> (plan: Self)
        requires
            forall|s: int, i: int|
                0 <= s < ssts@.len() && 0 <= i < ssts@[s].keys@.len() ==> (
                #[trigger] ssts@[s].keys@[i]).idx < num_keys,
            key_count(plan_views(ssts@)) <= u64::MAX,
        ensures
            plan_views(plan.ssts@) == planned(plan_views(ssts@), *context),
            plan.candidates@.len() == num_keys,
            forall|u: int|
                0 <= u < num_keys ==> (#[trigger] plan.candidates@[u])@ == planned_candidates(
                    plan_views(ssts@),
                    *context,
                    u as usize,
                ),
            plan.positives == passed_count(plan_views(ssts@), *context),
            plan.negatives == rejected_count(plan_views(ssts@), *context),
    {
        let ghost all = plan_views(ssts@);
        let mut kept_ssts: Vec<PlanSst<F>> = Vec::new();
        let mut candidates: Vec<Vec<Candidate>> = Vec::new();
        let mut positives: u64 = 0;
        let mut negatives: u64 = 0;
        for u in 0..num_keys
            invariant
                candidates@.len() == u,
                forall|v: int|
                    0 <= v < u ==> (#[trigger] candidates@[v])@ == Seq::<Candidate>::empty(),
        {
            let none: Vec<Candidate> = Vec::new();
            assert(none@ =~= Seq::<Candidate>::empty());
            candidates.push(none);
        }
        assert(all.take(0) =~= Seq::<PlanSstView<F>>::empty());
        assert(plan_views(kept_ssts@) =~= Seq::<PlanSstView<F>>::empty());
        for sst in it: ssts
            invariant
                it.seq() == ssts@,
                all == plan_views(ssts@),
                key_count(all) <= u64::MAX,
                forall|s: int, i: int|
                    0 <= s < ssts@.len() && 0 <= i < ssts@[s].keys@.len() ==> (
                    #[trigger] ssts@[s].keys@[i]).idx < num_keys,
                plan_views(kept_ssts@) == planned(all.take(it.index() as int), *context),
                candidates@.len() == num_keys,
                forall|u: int|
                    0 <= u < num_keys ==> (#[trigger] candidates@[u])@ == planned_candidates(
                        all.take(it.index() as int),
                        *context,
                        u as usize,
                    ),
                positives == passed_count(all.take(it.index() as int), *context),
                negatives == rejected_count(all.take(it.index() as int), *context),
        {
            let ghost k = it.index() as int;
            let ghost now = all.take(k + 1);
            let ghost seen = sst@;
            let ghost before = plan_views(kept_ssts@);
            proof {
                assert(now.drop_last() =~= all.take(k));
                assert(now.last() == seen);
                lemma_counts(all, *context, k + 1);
                assert forall|i: int| 0 <= i < sst.keys@.len() implies (
                #[trigger] sst.keys@[i]).idx < num_keys by {
                    assert(ssts@[k].keys@[i].idx < num_keys);
                }
            }
            let PlanSst { view, segment, level, filters, keys } = sst;
            let offered: usize = keys.len();
            let ghost old_keys = pending_views(keys@);
            let keys = match &filters {
                None => keys,
                Some(filters) => {
                    let kept = filter_keys(keys, filters, context);
                    proof {
                        lemma_kept_below(
                            old_keys,
                            |key: PendingView| all_pass(filters@, key.key, *context),
                            num_keys,
                        );
                        assert(pending_views(kept@).len() == kept@.len());
                    }
                    if filters.len() > 0 {
                        positives = positives + kept.len() as u64;
                    }
                    negatives = negatives + (offered - kept.len()) as u64;
                    kept
                },
            };
            let state = match &filters {
                None => FilterState::Unknown,
                Some(_) => FilterState::Positive,
            };
            let ghost last = seen.kept(*context);
            proof {
                assert(pending_views(keys@) =~= last.keys);
                assert forall|i: int| 0 <= i < keys@.len() implies (#[trigger] keys@[i]).idx
                    < num_keys by {
                    assert(pending_views(keys@)[i].idx == keys@[i].idx);
                }
            }
            let number: usize = kept_ssts.len();
            add_candidates(&mut candidates, &keys, Candidate { sst: number, state });
            proof {
                assert forall|u: int| 0 <= u < num_keys implies (#[trigger] candidates@[u])@
                    == planned_candidates(now, *context, u as usize) by {
                    assert(plan_views(kept_ssts@).len() == number);
                    assert(last.candidates_of(u as usize, number as nat) =~= pending_views(
                        keys@,
                    ).filter(|key: PendingView| key.idx == u as usize).map_values(
                        |key: PendingView| Candidate { sst: number, state },
                    ));
                }
            }
            assert(pending_views(keys@).len() == keys@.len());
            if keys.len() > 0 {
                let kept_sst = PlanSst { view, segment, level, filters, keys };
                assert(kept_sst@ =~= last);
                kept_ssts.push(kept_sst);
                assert(plan_views(kept_ssts@) =~= before.push(last));
            }
        }
        assert(all.take(all.len() as int) =~= all);
        Plan { ssts: kept_ssts, candidates, positives, negatives }
    }
}

/// A part of the keys points to the same slots.
proof fn lemma_kept_below(
    keys: Seq<PendingView>,
    pred: spec_fn(PendingView) -> bool,
    num_keys: usize,
)
    requires
        forall|i: int| 0 <= i < keys.len() ==> (#[trigger] keys[i]).idx < num_keys,
    ensures
        keys.filter(pred).len() <= keys.len(),
        forall|i: int|
            0 <= i < keys.filter(pred).len() ==> (#[trigger] keys.filter(pred)[i]).idx < num_keys,
{
    keys.lemma_filter_len(pred);
    assert forall|i: int| 0 <= i < keys.filter(pred).len() implies (
    #[trigger] keys.filter(pred)[i]).idx < num_keys by {
        assert(keys.filter(pred).contains(keys.filter(pred)[i]));
        keys.lemma_filter_contains_rev(pred, keys.filter(pred)[i]);
        let j = choose|j: int| 0 <= j < keys.len() && keys[j] == keys.filter(pred)[i];
        assert(keys[j].idx < num_keys);
    }
}

/// Give each key of an SST the SST as a candidate.
fn add_candidates(
    candidates: &mut Vec<Vec<Candidate>>,
    keys: &Vec<PendingKey>,
    candidate: Candidate,
)
    requires
        forall|i: int| 0 <= i < keys@.len() ==> (#[trigger] keys@[i]).idx < old(candidates)@.len(),
    ensures
        final(candidates)@.len() == old(candidates)@.len(),
        forall|u: int|
            0 <= u < old(candidates)@.len() ==> (#[trigger] final(candidates)@[u])@ == old(
                candidates,
            )@[u]@ + pending_views(keys@).filter(
                |key: PendingView| key.idx == u as usize,
            ).map_values(|key: PendingView| candidate),
{
    let ghost start = candidates@;
    let ghost all = pending_views(keys@);
    let count: usize = candidates.len();
    proof {
        assert forall|u: int| 0 <= u < start.len() implies (#[trigger] candidates@[u])@
            == start[u]@ + all.take(0).filter(
            |key: PendingView| key.idx == u as usize,
        ).map_values(|key: PendingView| candidate) by {
            all.take(0).lemma_filter_len(|key: PendingView| key.idx == u as usize);
            assert(candidates@[u]@ =~= start[u]@ + all.take(0).filter(
                |key: PendingView| key.idx == u as usize,
            ).map_values(|key: PendingView| candidate));
        }
    }
    for i in 0..keys.len()
        invariant
            all == pending_views(keys@),
            count == start.len(),
            candidates@.len() == start.len(),
            start == old(candidates)@,
            forall|i: int| 0 <= i < keys@.len() ==> (#[trigger] keys@[i]).idx < start.len(),
            forall|u: int|
                0 <= u < start.len() ==> (#[trigger] candidates@[u])@ == start[u]@ + all.take(
                    i as int,
                ).filter(|key: PendingView| key.idx == u as usize).map_values(
                    |key: PendingView| candidate,
                ),
    {
        let at: usize = keys[i].idx;
        let ghost before = candidates@;
        let ghost name = keys@[i as int]@;
        candidates[at].push(candidate);
        proof {
            assert(all.take(i + 1) =~= all.take(i as int).push(name));
            assert forall|u: int| 0 <= u < start.len() implies (#[trigger] candidates@[u])@
                == start[u]@ + all.take(i + 1).filter(
                |key: PendingView| key.idx == u as usize,
            ).map_values(|key: PendingView| candidate) by {
                let pred = |key: PendingView| key.idx == u as usize;
                let give = |key: PendingView| candidate;
                all.take(i as int).lemma_filter_push(name, pred);
                assert(before[u]@ == start[u]@ + all.take(i as int).filter(pred).map_values(give));
                assert(candidates@[u]@ =~= start[u]@ + all.take(i + 1).filter(pred).map_values(
                    give,
                ));
            }
        }
    }
    assert(all.take(all.len() as int) =~= all);
}

/// Some key of the list has the slot `u`.
pub open spec fn has_slot(keys: Seq<PendingView>, u: usize) -> bool {
    exists|i: int| 0 <= i < keys.len() && (#[trigger] keys[i]).idx == u
}

/// The candidates of a key are SSTs of the plan that keep the key, newest
/// first, each with the state of its filters.
pub proof fn law_planned_candidates_keep_the_key<F: Filter>(
    ssts: Seq<PlanSstView<F>>,
    context: Option<F::Context>,
    u: usize,
)
    requires
        ssts.len() <= usize::MAX,
    ensures
        planned(ssts, context).len() <= ssts.len(),
        forall|i: int|
            0 <= i < planned_candidates(ssts, context, u).len() ==> {
                let c = #[trigger] planned_candidates(ssts, context, u)[i];
                &&& c.sst < planned(ssts, context).len()
                &&& c.state == planned(ssts, context)[c.sst as int].state()
                &&& has_slot(planned(ssts, context)[c.sst as int].keys, u)
            },
        forall|i: int, j: int|
            0 <= i < j < planned_candidates(ssts, context, u).len() ==> (
            #[trigger] planned_candidates(ssts, context, u)[i]).sst <= (
            #[trigger] planned_candidates(ssts, context, u)[j]).sst,
    decreases ssts.len(),
{
    if ssts.len() > 0 {
        let front = ssts.drop_last();
        law_planned_candidates_keep_the_key(front, context, u);
        let before = planned(front, context);
        let after = planned(ssts, context);
        let last = ssts.last().kept(context);
        let old_found = planned_candidates(front, context, u);
        let own = last.keys.filter(|key: PendingView| key.idx == u);
        let more = last.candidates_of(u, before.len());
        let found = planned_candidates(ssts, context, u);
        assert(found == old_found + more);
        assert forall|i: int| 0 <= i < found.len() implies {
            let c = #[trigger] found[i];
            &&& c.sst < after.len()
            &&& c.state == after[c.sst as int].state()
            &&& has_slot(after[c.sst as int].keys, u)
        } by {
            if i < old_found.len() {
                assert(found[i] == old_found[i]);
                assert(after[found[i].sst as int] == before[found[i].sst as int]);
            } else {
                let k = i - old_found.len();
                assert(found[i] == more[k]);
                last.keys.lemma_filter_pred(|key: PendingView| key.idx == u, k);
                assert(own.contains(own[k]));
                last.keys.lemma_filter_contains_rev(|key: PendingView| key.idx == u, own[k]);
                let j = choose|j: int| 0 <= j < last.keys.len() && last.keys[j] == own[k];
                assert(last.keys[j].idx == u);
                assert(after == before.push(last));
            }
        }
        assert forall|i: int, j: int| 0 <= i < j < found.len() implies (#[trigger] found[i]).sst
            <= (#[trigger] found[j]).sst by {
            if j < old_found.len() {
                assert(found[i] == old_found[i]);
                assert(found[j] == old_found[j]);
            } else {
                assert(found[j] == more[j - old_found.len()]);
                if i < old_found.len() {
                    assert(found[i] == old_found[i]);
                } else {
                    assert(found[i] == more[i - old_found.len()]);
                }
            }
        }
    }
}

// ---------------------------------------------------------------------------
// The SSTs of the open keys
// ---------------------------------------------------------------------------

/// Keys in order. A key can come more than one time.
pub open spec fn keys_in_order(keys: Seq<PendingView>) -> bool {
    forall|i: int, j: int|
        0 <= i <= j < keys.len() ==> lex_le((#[trigger] keys[i]).key, (#[trigger] keys[j]).key)
}

/// The keys that view `vi` of a run can hold, by the start keys alone.
pub open spec fn covered(
    keys: Seq<PendingView>,
    starts: Seq<Seq<u8>>,
    vi: int,
) -> Seq<PendingView> {
    keys.filter(|key: PendingView| covers(starts, vi, key.key))
}

/// Pair the sorted `keys` with the views of `run` that can hold them, in one
/// forward pass. The result gives each view its keys.
///
/// A key can have more than one view: its versions can cross the border of
/// two views, and `get` reads such views in ascending order too.
pub fn merge_join(keys: &Vec<PendingKey>, run: &SortedRun) -> (joined: Vec<Vec<PendingKey>>)
    requires
        run.wf(),
        keys_in_order(pending_views(keys@)),
    ensures
        joined@.len() == run.views@.len(),
        forall|vi: int|
            0 <= vi < joined@.len() ==> pending_views((#[trigger] joined@[vi])@) == covered(
                pending_views(keys@),
                run.starts(),
                vi,
            ),
{
    let views = run.sst_views();
    let ghost all = pending_views(keys@);
    let ghost starts = run.starts();
    let n: usize = views.len();
    let mut joined: Vec<Vec<PendingKey>> = Vec::new();
    for vi in 0..n
        invariant
            joined@.len() == vi,
            forall|j: int| 0 <= j < vi ==> (#[trigger] joined@[j])@ == Seq::<PendingKey>::empty(),
    {
        let none: Vec<PendingKey> = Vec::new();
        assert(none@ =~= Seq::<PendingKey>::empty());
        joined.push(none);
    }
    proof {
        assert forall|vi: int| 0 <= vi < n implies pending_views((#[trigger] joined@[vi])@)
            == covered(all.take(0), starts, vi) by {
            all.take(0).lemma_filter_len(|key: PendingView| covers(starts, vi, key.key));
            assert(pending_views(joined@[vi]@) =~= covered(all.take(0), starts, vi));
        }
    }
    // The number of views whose start key is at most the current key.
    let mut started: usize = 0;
    for i in 0..keys.len()
        invariant
            run.wf(),
            *views == run.views,
            n == run.views@.len(),
            starts == run.starts(),
            starts.len() == n,
            all == pending_views(keys@),
            keys_in_order(all),
            joined@.len() == n,
            started <= n,
            i > 0 ==> forall|v: int|
                0 <= v < started ==> lex_le(#[trigger] starts[v], all[i - 1].key),
            i == 0 ==> started == 0,
            forall|vi: int|
                0 <= vi < n ==> pending_views((#[trigger] joined@[vi])@) == covered(
                    all.take(i as int),
                    starts,
                    vi,
                ),
    {
        let ghost before = joined@;
        let ghost key = all[i as int].key;
        proof {
            assert forall|v: int| 0 <= v < started implies lex_le(#[trigger] starts[v], key) by {
                assert(lex_le(all[i - 1].key, all[i as int].key));
                lemma_lex_transitive(starts[v], all[i - 1].key, key);
            }
        }
        while started < n && key_le(
            views[started].compacted_effective_start_key(),
            as_slice(&keys[i].key),
        )
            invariant
                i < keys@.len(),
                *views == run.views,
                n == run.views@.len(),
                starts == run.starts(),
                starts.len() == n,
                started <= n,
                all == pending_views(keys@),
                key == all[i as int].key,
                forall|v: int| 0 <= v < started ==> lex_le(#[trigger] starts[v], key),
            decreases n - started,
        {
            assert(starts[started as int] == views@[started as int].effective_start());
            started = started + 1;
        }
        proof {
            if started < n {
                assert(starts[started as int] == views@[started as int].effective_start());
                assert(!lex_le(starts[started as int], key));
            }
        }
        let mut first: usize = 0;
        let mut end: usize = 0;
        if started > 0 {
            let range = run.point_table_idx_ending_at(as_slice(&keys[i].key), started - 1);
            first = range.start;
            end = range.end;
        }
        proof {
            assert forall|v: int| first <= v < end <==> #[trigger] covers(starts, v, key) by {
                if started == 0 && covers(starts, v, key) {
                    lemma_lex_transitive(starts[0], starts[v], key);
                }
            }
        }
        let mut vi: usize = first;
        while vi < end
            invariant
                i < keys@.len(),
                first <= vi,
                vi <= end || vi == first,
                end <= n,
                joined@.len() == n,
                before.len() == n,
                forall|v: int|
                    0 <= v < n ==> pending_views((#[trigger] joined@[v])@) == (if first <= v < vi {
                        pending_views(before[v]@).push(keys@[i as int]@)
                    } else {
                        pending_views(before[v]@)
                    }),
            decreases end - vi,
        {
            let ghost middle = joined@;
            let ghost list = joined@[vi as int]@;
            let copy = keys[i].clone();
            joined[vi].push(copy);
            proof {
                assert(pending_views(joined@[vi as int]@) =~= pending_views(list).push(
                    keys@[i as int]@,
                ));
                assert forall|v: int| 0 <= v < n implies pending_views((#[trigger] joined@[v])@)
                    == (if first <= v < vi + 1 {
                    pending_views(before[v]@).push(keys@[i as int]@)
                } else {
                    pending_views(before[v]@)
                }) by {
                    assert(pending_views(middle[v]@) == (if first <= v < vi {
                        pending_views(before[v]@).push(keys@[i as int]@)
                    } else {
                        pending_views(before[v]@)
                    }));
                }
            }
            vi = vi + 1;
        }
        proof {
            let name = all[i as int];
            assert(all.take(i + 1) =~= all.take(i as int).push(name));
            assert forall|v: int| 0 <= v < n implies pending_views((#[trigger] joined@[v])@)
                == covered(all.take(i + 1), starts, v) by {
                all.take(i as int).lemma_filter_push(
                    name,
                    |key: PendingView| covers(starts, v, key.key),
                );
                assert(pending_views(before[v]@) == covered(all.take(i as int), starts, v));
                assert((first <= v < end) == covers(starts, v, key));
            }
        }
    }
    assert(all.take(all.len() as int) =~= all);
    joined
}

/// A group of keys, with their slots.
pub open spec fn members(names: Seq<Seq<u8>>, group: Seq<usize>) -> Seq<PendingView> {
    group.map_values(|u: usize| PendingView { idx: u, key: names[u as int] })
}

/// The SST of a view with some keys, before its filters are looked up.
pub open spec fn offer<F>(
    view: SsTableView,
    segment: Seq<u8>,
    level: SstTraceLevel,
    keys: Seq<PendingView>,
) -> PlanSstView<F> {
    PlanSstView { view: view@, segment, level, filters: None, keys }
}

/// One more SST, when it has a key.
pub open spec fn with_offer<F>(ssts: Seq<PlanSstView<F>>, sst: PlanSstView<F>) -> Seq<
    PlanSstView<F>,
> {
    if sst.keys.len() > 0 {
        ssts.push(sst)
    } else {
        ssts
    }
}

/// The SSTs of L0 for the keys of a group. An L0 SST can hold each key of its
/// range.
pub open spec fn l0_offers<F>(
    views: Seq<SsTableView>,
    segment: Seq<u8>,
    keys: Seq<PendingView>,
) -> Seq<PlanSstView<F>>
    decreases views.len(),
{
    if views.len() == 0 {
        Seq::empty()
    } else {
        with_offer(
            l0_offers(views.drop_last(), segment, keys),
            offer(
                views.last(),
                segment,
                SstTraceLevel::L0,
                keys.filter(|key: PendingView| views.last().holds(key.key)),
            ),
        )
    }
}

/// The first `n` SSTs of a run for the keys of a group.
pub open spec fn run_offers<F>(
    run: SortedRun,
    n: int,
    segment: Seq<u8>,
    keys: Seq<PendingView>,
) -> Seq<PlanSstView<F>>
    decreases n,
{
    if n <= 0 {
        Seq::empty()
    } else {
        with_offer(
            run_offers(run, n - 1, segment, keys),
            offer(
                run.views[n - 1],
                segment,
                SstTraceLevel::SortedRun(run.id),
                covered(keys, run.starts(), n - 1),
            ),
        )
    }
}

/// The SSTs of the sorted runs for the keys of a group.
pub open spec fn runs_offers<F>(
    runs: Seq<SortedRun>,
    segment: Seq<u8>,
    keys: Seq<PendingView>,
) -> Seq<PlanSstView<F>>
    decreases runs.len(),
{
    if runs.len() == 0 {
        Seq::empty()
    } else {
        runs_offers(runs.drop_last(), segment, keys) + run_offers(
            runs.last(),
            runs.last().views@.len() as int,
            segment,
            keys,
        )
    }
}

/// The SSTs of the groups: per tree, the L0 SSTs, then the sorted runs.
pub open spec fn offers<F>(
    core: ManifestCore,
    names: Seq<Seq<u8>>,
    groups: Seq<GroupView>,
) -> Seq<PlanSstView<F>>
    decreases groups.len(),
{
    if groups.len() == 0 {
        Seq::empty()
    } else {
        let last = groups.last();
        let tree = core.tree_at(last.tree);
        let segment = core.prefix_at(last.tree);
        let keys = members(names, last.keys);
        offers(core, names, groups.drop_last()) + (l0_offers(tree.l0@, segment, keys)
            + runs_offers(tree.compacted@, segment, keys))
    }
}

/// The keys of a plan as the batch knows them.
pub open spec fn plan_keys(keys: Seq<Bytes>, resolved: Seq<bool>) -> Seq<KeyState> {
    Seq::new(
        keys.len(),
        |u: int|
            KeyState {
                key: content(keys[u]),
                wb: Seq::empty(),
                acc: Seq::empty(),
                done: resolved[u],
                candidates: Seq::empty(),
                rounds: 0,
                waiting: 0,
                inflight: Seq::empty(),
            },
    )
}

/// Add one SST, when it has a key.
fn push_offer<F>(
    ssts: &mut Vec<PlanSst<F>>,
    view: &SsTableView,
    segment: &Bytes,
    level: SstTraceLevel,
    keys: Vec<PendingKey>,
)
    ensures
        plan_views(final(ssts)@) == with_offer(
            plan_views(old(ssts)@),
            offer(*view, content(*segment), level, pending_views(keys@)),
        ),
{
    let ghost before = plan_views(ssts@);
    assert(pending_views(keys@).len() == keys@.len());
    if keys.len() > 0 {
        let ghost names = pending_views(keys@);
        let sst = PlanSst {
            view: view.clone(),
            segment: share(segment),
            level,
            filters: None,
            keys,
        };
        assert(sst@ =~= offer(*view, content(*segment), level, names));
        ssts.push(sst);
        assert(plan_views(ssts@) =~= before.push(
            offer(*view, content(*segment), level, names),
        ));
    }
}

/// The keys that a view can hold.
fn keys_inside(view: &SsTableView, keys: &Vec<PendingKey>) -> (inside: Vec<PendingKey>)
    ensures
        pending_views(inside@) == pending_views(keys@).filter(
            |key: PendingView| view.holds(key.key),
        ),
{
    let mut inside: Vec<PendingKey> = Vec::new();
    let ghost all = pending_views(keys@);
    let ghost pass = |key: PendingView| view.holds(key.key);
    proof {
        all.take(0).lemma_filter_len(pass);
        assert(pending_views(inside@) =~= all.take(0).filter(pass));
    }
    for i in 0..keys.len()
        invariant
            all == pending_views(keys@),
            pass == (|key: PendingView| view.holds(key.key)),
            pending_views(inside@) == all.take(i as int).filter(pass),
    {
        let ghost before = pending_views(inside@);
        let key = &keys[i];
        proof {
            assert(all.take(i + 1) =~= all.take(i as int).push(key@));
            all.take(i as int).lemma_filter_push(key@, pass);
        }
        if view_holds_key(view, as_slice(&key.key)) {
            inside.push(key.clone());
            assert(pending_views(inside@) =~= before.push(key@));
        }
    }
    assert(all.take(all.len() as int) =~= all);
    inside
}

/// Add the SSTs of one tree for the keys of its group.
fn tree_offers<F>(
    ssts: &mut Vec<PlanSst<F>>,
    tree: &LsmTree,
    segment: &Bytes,
    keys: &Vec<PendingKey>,
)
    requires
        tree.wf(),
        keys_in_order(pending_views(keys@)),
    ensures
        plan_views(final(ssts)@) == plan_views(old(ssts)@) + (l0_offers(
            tree.l0@,
            content(*segment),
            pending_views(keys@),
        ) + runs_offers(tree.compacted@, content(*segment), pending_views(keys@))),
{
    let ghost start = plan_views(ssts@);
    let ghost prefix = content(*segment);
    let ghost all = pending_views(keys@);
    assert(tree.l0@.take(0) =~= Seq::<SsTableView>::empty());
    assert(start + Seq::<PlanSstView<F>>::empty() =~= start);
    for i in 0..tree.l0.len()
        invariant
            prefix == content(*segment),
            all == pending_views(keys@),
            plan_views(ssts@) == start + l0_offers(tree.l0@.take(i as int), prefix, all),
    {
        let view = &tree.l0[i];
        let ghost before = plan_views(ssts@);
        let ghost now = tree.l0@.take(i + 1);
        proof {
            assert(now.drop_last() =~= tree.l0@.take(i as int));
            assert(now.last() == *view);
        }
        let inside = keys_inside(view, keys);
        push_offer(ssts, view, segment, SstTraceLevel::L0, inside);
        assert(plan_views(ssts@) =~= start + l0_offers(now, prefix, all));
    }
    let ghost l0 = l0_offers::<F>(tree.l0@, prefix, all);
    let ghost middle = plan_views(ssts@);
    assert(tree.l0@.take(tree.l0@.len() as int) =~= tree.l0@);
    assert(tree.compacted@.take(0) =~= Seq::<SortedRun>::empty());
    assert(middle + Seq::<PlanSstView<F>>::empty() =~= middle);
    for r in 0..tree.compacted.len()
        invariant
            tree.wf(),
            prefix == content(*segment),
            all == pending_views(keys@),
            keys_in_order(all),
            plan_views(ssts@) == middle + runs_offers(tree.compacted@.take(r as int), prefix, all),
    {
        let run = &tree.compacted[r];
        let ghost past = plan_views(ssts@);
        let ghost level = SstTraceLevel::SortedRun(run.id);
        let joined = merge_join(keys, run);
        let n: usize = joined.len();
        assert(past + Seq::<PlanSstView<F>>::empty() =~= past);
        let mut vi: usize = 0;
        for view_keys in it: joined
            invariant
                it.seq() == joined@,
                vi == it.index(),
                n == joined@.len(),
                n == run.views@.len(),
                prefix == content(*segment),
                all == pending_views(keys@),
                forall|v: int|
                    0 <= v < n ==> pending_views((#[trigger] joined@[v])@) == covered(
                        all,
                        run.starts(),
                        v,
                    ),
                plan_views(ssts@) == past + run_offers(*run, vi as int, prefix, all),
        {
            let ghost before = plan_views(ssts@);
            assert(pending_views(joined@[vi as int]@) == covered(all, run.starts(), vi as int));
            push_offer(
                ssts,
                &run.views[vi],
                segment,
                SstTraceLevel::SortedRun(run.id),
                view_keys,
            );
            assert(plan_views(ssts@) =~= past + run_offers(*run, vi + 1, prefix, all));
            vi = vi + 1;
        }
        proof {
            let now = tree.compacted@.take(r + 1);
            assert(now.drop_last() =~= tree.compacted@.take(r as int));
            assert(now.last() == *run);
            assert(plan_views(ssts@) =~= middle + runs_offers(now, prefix, all));
        }
    }
    assert(tree.compacted@.take(tree.compacted@.len() as int) =~= tree.compacted@);
    assert(plan_views(ssts@) =~= start + (l0 + runs_offers(tree.compacted@, prefix, all)));
}

/// The SSTs that can hold the open keys, newest first inside each LSM tree.
/// The `filters` of each SST start as `None`.
pub fn candidate_ssts<F>(core: &ManifestCore, keys: &Vec<Bytes>, resolved: &Vec<bool>) -> (ssts:
    Vec<PlanSst<F>>)
    requires
        core.wf(),
        sorted_keys(contents(keys@)),
        resolved@.len() == keys@.len(),
    ensures
        plan_views(ssts@) == offers::<F>(
            *core,
            contents(keys@),
            grouped(*core, plan_keys(keys@, resolved@)),
        ),
{
    let ghost names = contents(keys@);
    let ghost open = plan_keys(keys@, resolved@);
    let mut reads: Vec<KeyRead> = Vec::new();
    for u in 0..keys.len()
        invariant
            resolved@.len() == keys@.len(),
            open == plan_keys(keys@, resolved@),
            reads@.len() == u,
            forall|v: int| 0 <= v < u ==> (#[trigger] reads@[v])@ == open[v],
    {
        let mut read = KeyRead::new(share(&keys[u]));
        read.done = resolved[u];
        reads.push(read);
    }
    assert(states(reads@) =~= open);
    let groups = group_by_segment(core, &reads);
    let ghost all = group_views(groups@);
    let mut ssts: Vec<PlanSst<F>> = Vec::new();
    proof {
        law_each_open_key_has_one_group(*core, open);
        assert(all.take(0) =~= Seq::<GroupView>::empty());
        assert(plan_views(ssts@) =~= Seq::<PlanSstView<F>>::empty());
    }
    for g in 0..groups.len()
        invariant
            core.wf(),
            names == contents(keys@),
            sorted_keys(names),
            open == plan_keys(keys@, resolved@),
            all == group_views(groups@),
            in_groups(all, *core, open),
            plan_views(ssts@) == offers::<F>(*core, names, all.take(g as int)),
    {
        let group = &groups[g];
        let ghost seen = all[g as int];
        proof {
            assert(seen == group@);
            assert(all.take(g + 1).drop_last() =~= all.take(g as int));
            assert(all.take(g + 1).last() == seen);
            assert forall|i: int| 0 <= i < seen.keys.len() implies (#[trigger] seen.keys[i])
                < keys@.len() by {
                assert((all[g as int].keys[i] as int) < open.len());
            }
        }
        let mut pending: Vec<PendingKey> = Vec::new();
        for i in 0..group.keys.len()
            invariant
                seen.keys == group.keys@,
                names == contents(keys@),
                forall|i: int|
                    0 <= i < seen.keys.len() ==> (#[trigger] seen.keys[i]) < keys@.len(),
                pending@.len() == i,
                forall|j: int|
                    0 <= j < i ==> (#[trigger] pending@[j])@ == (PendingView {
                        idx: seen.keys[j],
                        key: names[seen.keys[j] as int],
                    }),
        {
            let idx: usize = group.keys[i];
            pending.push(PendingKey { idx, key: share(&keys[idx]) });
        }
        let ghost inside = members(names, seen.keys);
        proof {
            assert(pending_views(pending@) =~= inside);
            assert forall|i: int, j: int| 0 <= i <= j < inside.len() implies lex_le(
                (#[trigger] inside[i]).key,
                (#[trigger] inside[j]).key,
            ) by {
                if i < j {
                    assert(all[g as int].keys[i] < all[g as int].keys[j]);
                    assert(lex_lt(names[seen.keys[i] as int], names[seen.keys[j] as int]));
                } else {
                    crate::octets::lemma_lex_reflexive(inside[i].key);
                }
            }
        }
        let segment = core.prefix(group.tree);
        tree_offers(&mut ssts, core.tree(group.tree), &segment, &pending);
    }
    assert(all.take(all.len() as int) =~= all);
    ssts
}

// ---------------------------------------------------------------------------
// What a plan offers
// ---------------------------------------------------------------------------

/// A view with the prefix of its tree and its level.
pub struct OfferView {
    pub view: SstViewState,
    pub segment: Seq<u8>,
    pub level: SstTraceLevel,
}

/// The SSTs of a plan that have the key in slot `u`, in the order of the plan.
pub open spec fn offered<F>(ssts: Seq<PlanSstView<F>>, u: usize) -> Seq<OfferView> {
    ssts.filter(|sst: PlanSstView<F>| has_slot(sst.keys, u)).map_values(
        |sst: PlanSstView<F>|
            OfferView { view: sst.view, segment: sst.segment, level: sst.level },
    )
}

/// The view has a place for the key: an L0 view by the range of its keys, and a
/// view of a run by the start keys of the run.
pub open spec fn has_room(view: LeveledView, key: Seq<u8>) -> bool {
    match view.place {
        None => view.view.holds(key),
        Some((starts, i)) => covers(starts, i, key),
    }
}

/// The views that have a place for `key`, in their order.
pub open spec fn rooms(views: Seq<LeveledView>, key: Seq<u8>, segment: Seq<u8>) -> Seq<OfferView> {
    views.filter(|v: LeveledView| has_room(v, key)).map_values(
        |v: LeveledView| OfferView { view: v.view@, segment, level: v.level },
    )
}

/// What one more SST offers.
proof fn lemma_offered_push<F>(ssts: Seq<PlanSstView<F>>, sst: PlanSstView<F>, u: usize)
    ensures
        offered(ssts.push(sst), u) == if has_slot(sst.keys, u) {
            offered(ssts, u).push(
                OfferView { view: sst.view, segment: sst.segment, level: sst.level },
            )
        } else {
            offered(ssts, u)
        },
{
    let pred = |sst: PlanSstView<F>| has_slot(sst.keys, u);
    let give = |sst: PlanSstView<F>|
        OfferView { view: sst.view, segment: sst.segment, level: sst.level };
    ssts.lemma_filter_push(sst, pred);
    if has_slot(sst.keys, u) {
        assert(ssts.filter(pred).push(sst).map_values(give) =~= ssts.filter(pred).map_values(
            give,
        ).push(give(sst)));
    }
}

/// What the SSTs of two lists offer.
proof fn lemma_offered_add<F>(a: Seq<PlanSstView<F>>, b: Seq<PlanSstView<F>>, u: usize)
    ensures
        offered(a + b, u) == offered(a, u) + offered(b, u),
{
    let pred = |sst: PlanSstView<F>| has_slot(sst.keys, u);
    Seq::filter_distributes_over_add(a, b, pred);
    assert(offered(a + b, u) =~= offered(a, u) + offered(b, u));
}

/// No SST offers nothing.
proof fn lemma_offered_none<F>(u: usize)
    ensures
        offered(Seq::<PlanSstView<F>>::empty(), u) == Seq::<OfferView>::empty(),
{
    let pred = |sst: PlanSstView<F>| has_slot(sst.keys, u);
    Seq::<PlanSstView<F>>::empty().lemma_filter_len(pred);
    assert(offered(Seq::<PlanSstView<F>>::empty(), u) =~= Seq::<OfferView>::empty());
}

/// The rooms of two lists.
proof fn lemma_rooms_add(
    a: Seq<LeveledView>,
    b: Seq<LeveledView>,
    key: Seq<u8>,
    segment: Seq<u8>,
)
    ensures
        rooms(a + b, key, segment) == rooms(a, key, segment) + rooms(b, key, segment),
{
    let pred = |v: LeveledView| has_room(v, key);
    Seq::filter_distributes_over_add(a, b, pred);
    assert(rooms(a + b, key, segment) =~= rooms(a, key, segment) + rooms(b, key, segment));
}

/// The rooms of one view.
proof fn lemma_rooms_one(v: LeveledView, key: Seq<u8>, segment: Seq<u8>)
    ensures
        rooms(seq![v], key, segment) == if has_room(v, key) {
            seq![OfferView { view: v.view@, segment, level: v.level }]
        } else {
            Seq::empty()
        },
        rooms(Seq::empty(), key, segment) == Seq::<OfferView>::empty(),
{
    let pred = |v: LeveledView| has_room(v, key);
    let none = Seq::<LeveledView>::empty();
    none.lemma_filter_len(pred);
    assert(rooms(none, key, segment) =~= Seq::<OfferView>::empty());
    assert(none.push(v) =~= seq![v]);
    none.lemma_filter_push(v, pred);
    if has_room(v, key) {
        assert(none.filter(pred).push(v) =~= seq![v]);
        assert(rooms(seq![v], key, segment) =~= seq![
            OfferView { view: v.view@, segment, level: v.level },
        ]);
    } else {
        assert(rooms(seq![v], key, segment) =~= Seq::<OfferView>::empty());
    }
}

/// The keys have the key `key` in slot `u`, if they have that slot.
spec fn slot_has(keys: Seq<PendingView>, u: usize, key: Seq<u8>) -> bool {
    forall|i: int| 0 <= i < keys.len() && (#[trigger] keys[i]).idx == u ==> keys[i].key == key
}

/// The rooms of a key that is there, and none of a key that is not.
spec fn rooms_if(
    inside: bool,
    views: Seq<LeveledView>,
    key: Seq<u8>,
    segment: Seq<u8>,
) -> Seq<OfferView> {
    if inside {
        rooms(views, key, segment)
    } else {
        Seq::empty()
    }
}

/// A filter by key keeps a slot exactly when it keeps the key of the slot.
proof fn lemma_slot_stays(
    keys: Seq<PendingView>,
    u: usize,
    key: Seq<u8>,
    pred: spec_fn(PendingView) -> bool,
    keeps: bool,
)
    requires
        slot_has(keys, u, key),
        forall|k: PendingView| k.key == key ==> (#[trigger] pred(k) <==> keeps),
    ensures
        has_slot(keys.filter(pred), u) <==> has_slot(keys, u) && keeps,
{
    let left = keys.filter(pred);
    if has_slot(left, u) {
        let i = choose|i: int| 0 <= i < left.len() && (#[trigger] left[i]).idx == u;
        keys.lemma_filter_pred(pred, i);
        assert(left.contains(left[i]));
        keys.lemma_filter_contains_rev(pred, left[i]);
        let j = choose|j: int| 0 <= j < keys.len() && keys[j] == left[i];
        assert(keys[j].idx == u);
        assert(pred(keys[j]));
    }
    if has_slot(keys, u) && keeps {
        let j = choose|j: int| 0 <= j < keys.len() && (#[trigger] keys[j]).idx == u;
        assert(pred(keys[j]));
        keys.lemma_filter_contains(pred, j);
        let i = choose|i: int| 0 <= i < left.len() && left[i] == keys[j];
        assert(left[i].idx == u);
    }
}

/// One more offer, for a view that may have a place for the key.
proof fn lemma_with_offer<F>(
    ssts: Seq<PlanSstView<F>>,
    sst: PlanSstView<F>,
    u: usize,
)
    ensures
        offered(with_offer(ssts, sst), u) == if has_slot(sst.keys, u) {
            offered(ssts, u).push(
                OfferView { view: sst.view, segment: sst.segment, level: sst.level },
            )
        } else {
            offered(ssts, u)
        },
{
    lemma_offered_push(ssts, sst, u);
}

/// The first `n` SSTs of L0 offer what they have room for.
proof fn lemma_l0_offered<F>(
    tree: LsmTree,
    n: int,
    segment: Seq<u8>,
    keys: Seq<PendingView>,
    u: usize,
    key: Seq<u8>,
)
    requires
        0 <= n <= tree.l0@.len(),
        slot_has(keys, u, key),
    ensures
        offered(l0_offers::<F>(tree.l0@.take(n), segment, keys), u) == rooms_if(
            has_slot(keys, u),
            layer_views(tree_layers(tree).take(n)),
            key,
            segment,
        ),
    decreases n,
{
    let views = tree.l0@.take(n);
    let layers = tree_layers(tree).take(n);
    lemma_offered_none::<F>(u);
    if n == 0 {
        lemma_rooms_one(arbitrary(), key, segment);
    } else {
        lemma_l0_offered::<F>(tree, n - 1, segment, keys, u, key);
        let v = LeveledView { view: tree.l0@[n - 1], level: SstTraceLevel::L0, place: None };
        assert(views.drop_last() =~= tree.l0@.take(n - 1));
        assert(layers.drop_last() =~= tree_layers(tree).take(n - 1));
        assert(layers.last() == seq![v]);
        let pred = |key: PendingView| views.last().holds(key.key);
        lemma_slot_stays(keys, u, key, pred, has_room(v, key));
        lemma_with_offer(
            l0_offers::<F>(views.drop_last(), segment, keys),
            offer(views.last(), segment, SstTraceLevel::L0, keys.filter(pred)),
            u,
        );
        let before = layer_views(layers.drop_last());
        lemma_rooms_add(before, seq![v], key, segment);
        lemma_rooms_one(v, key, segment);
        assert(offered(l0_offers::<F>(views, segment, keys), u) =~= rooms_if(
            has_slot(keys, u),
            before + seq![v],
            key,
            segment,
        ));
    }
}

/// The first `n` views of a run offer what they have room for.
proof fn lemma_run_offered<F>(
    run: SortedRun,
    n: int,
    segment: Seq<u8>,
    keys: Seq<PendingView>,
    u: usize,
    key: Seq<u8>,
)
    requires
        0 <= n <= run.views@.len(),
        slot_has(keys, u, key),
    ensures
        offered(run_offers::<F>(run, n, segment, keys), u) == rooms_if(
            has_slot(keys, u),
            views_of_run(run).take(n),
            key,
            segment,
        ),
    decreases n,
{
    lemma_offered_none::<F>(u);
    if n == 0 {
        lemma_rooms_one(arbitrary(), key, segment);
        assert(views_of_run(run).take(0) =~= Seq::<LeveledView>::empty());
    } else {
        lemma_run_offered::<F>(run, n - 1, segment, keys, u, key);
        let v = views_of_run(run)[n - 1];
        let before = views_of_run(run).take(n - 1);
        assert(views_of_run(run).take(n) =~= before + seq![v]);
        let starts = run.starts();
        let pred = |key: PendingView| covers(starts, n - 1, key.key);
        lemma_slot_stays(keys, u, key, pred, has_room(v, key));
        assert(covered(keys, starts, n - 1) == keys.filter(pred));
        lemma_with_offer(
            run_offers::<F>(run, n - 1, segment, keys),
            offer(
                run.views[n - 1],
                segment,
                SstTraceLevel::SortedRun(run.id),
                covered(keys, starts, n - 1),
            ),
            u,
        );
        lemma_rooms_add(before, seq![v], key, segment);
        lemma_rooms_one(v, key, segment);
        assert(offered(run_offers::<F>(run, n, segment, keys), u) =~= rooms_if(
            has_slot(keys, u),
            before + seq![v],
            key,
            segment,
        ));
    }
}

/// The L0 part of a tree and its first `n` runs offer what they have room for.
proof fn lemma_tree_offered<F>(
    tree: LsmTree,
    n: int,
    segment: Seq<u8>,
    keys: Seq<PendingView>,
    u: usize,
    key: Seq<u8>,
)
    requires
        0 <= n <= tree.compacted@.len(),
        slot_has(keys, u, key),
    ensures
        offered(
            l0_offers::<F>(tree.l0@, segment, keys) + runs_offers::<F>(
                tree.compacted@.take(n),
                segment,
                keys,
            ),
            u,
        ) == rooms_if(
            has_slot(keys, u),
            layer_views(tree_layers(tree).take(tree.l0@.len() + n)),
            key,
            segment,
        ),
    decreases n,
{
    let l0 = l0_offers::<F>(tree.l0@, segment, keys);
    let runs = tree.compacted@.take(n);
    let m = tree.l0@.len() as int;
    if n == 0 {
        lemma_l0_offered::<F>(tree, m, segment, keys, u, key);
        assert(tree.l0@.take(m) =~= tree.l0@);
        assert(l0 + runs_offers::<F>(runs, segment, keys) =~= l0);
    } else {
        lemma_tree_offered::<F>(tree, n - 1, segment, keys, u, key);
        let run = tree.compacted@[n - 1];
        let len = run.views@.len() as int;
        assert(runs.drop_last() =~= tree.compacted@.take(n - 1));
        assert(runs.last() == run);
        let before = l0 + runs_offers::<F>(runs.drop_last(), segment, keys);
        let more = run_offers::<F>(run, len, segment, keys);
        assert(l0 + runs_offers::<F>(runs, segment, keys) =~= before + more);
        lemma_offered_add(before, more, u);
        lemma_run_offered::<F>(run, len, segment, keys, u, key);
        assert(views_of_run(run).take(len) =~= views_of_run(run));
        let layers = tree_layers(tree).take(m + n);
        assert(layers.drop_last() =~= tree_layers(tree).take(m + n - 1));
        assert(layers.last() == views_of_run(run));
        lemma_rooms_add(layer_views(layers.drop_last()), views_of_run(run), key, segment);
        assert(offered(l0 + runs_offers::<F>(runs, segment, keys), u) =~= rooms_if(
            has_slot(keys, u),
            layer_views(layers),
            key,
            segment,
        ));
    }
}

/// The groups offer a key what its own group offers it.
proof fn lemma_groups_offered<F>(
    core: ManifestCore,
    names: Seq<Seq<u8>>,
    groups: Seq<GroupView>,
    m: int,
    g: int,
    u: usize,
)
    requires
        0 <= m <= groups.len(),
        0 <= g < groups.len() ==> groups[g].keys.contains(u),
        forall|h: int|
            0 <= h < groups.len() && h != g ==> !(#[trigger] groups[h]).keys.contains(u),
    ensures
        offered(offers::<F>(core, names, groups.take(m)), u) == if 0 <= g < m {
            rooms(
                tree_views(core.tree_at(groups[g].tree)),
                names[u as int],
                core.prefix_at(groups[g].tree),
            )
        } else {
            Seq::empty()
        },
    decreases m,
{
    if m == 0 {
        lemma_offered_none::<F>(u);
    } else {
        lemma_groups_offered::<F>(core, names, groups, m - 1, g, u);
        let some = groups.take(m);
        let last = groups[m - 1];
        assert(some.drop_last() =~= groups.take(m - 1));
        assert(some.last() == last);
        let tree = core.tree_at(last.tree);
        let segment = core.prefix_at(last.tree);
        let keys = members(names, last.keys);
        let own = l0_offers::<F>(tree.l0@, segment, keys) + runs_offers::<F>(
            tree.compacted@,
            segment,
            keys,
        );
        lemma_offered_add(offers::<F>(core, names, some.drop_last()), own, u);
        assert(slot_has(keys, u, names[u as int]));
        if last.keys.contains(u) {
            let i = choose|i: int| 0 <= i < last.keys.len() && last.keys[i] == u;
            assert(keys[i].idx == u);
        } else {
            assert forall|i: int| 0 <= i < keys.len() implies (#[trigger] keys[i]).idx != u by {
                assert(last.keys[i] == keys[i].idx);
            }
        }
        let n = tree.compacted@.len() as int;
        lemma_tree_offered::<F>(tree, n, segment, keys, u, names[u as int]);
        assert(tree.compacted@.take(n) =~= tree.compacted@);
        assert(tree_layers(tree).take(tree.l0@.len() + n) =~= tree_layers(tree));
        assert(offered(offers::<F>(core, names, some), u) =~= if 0 <= g < m {
            rooms(
                tree_views(core.tree_at(groups[g].tree)),
                names[u as int],
                core.prefix_at(groups[g].tree),
            )
        } else {
            Seq::empty()
        });
    }
}

/// A plan offers an open key each SST of its tree that has a place for it, and
/// no other: first those of L0 and then those of the sorted runs, newest first
/// and one time each. A key that is resolved, or that no tree covers, is offered
/// nothing.
pub proof fn law_a_plan_offers_each_open_key_its_ssts<F>(
    core: ManifestCore,
    keys: Seq<Bytes>,
    resolved: Seq<bool>,
    u: int,
)
    requires
        keys.len() <= usize::MAX,
        resolved.len() == keys.len(),
        0 <= u < keys.len(),
    ensures
        ({
            let ssts = offers::<F>(
                core,
                contents(keys),
                grouped(core, plan_keys(keys, resolved)),
            );
            let key = content(keys[u]);
            match core.tree_of(key) {
                Some(tree) if !resolved[u] => offered(ssts, u as usize) == rooms(
                    tree_views(core.tree_at(tree)),
                    key,
                    core.prefix_at(tree),
                ),
                _ => offered(ssts, u as usize).len() == 0,
            }
        }),
{
    let starts = plan_keys(keys, resolved);
    let groups = grouped(core, starts);
    law_each_open_key_has_one_group(core, starts);
    let key = content(keys[u]);
    assert(starts[u].key == key && starts[u].done == resolved[u]);
    assert(contents(keys)[u] == key);
    let slot = u as usize;
    assert forall|h: int| 0 <= h < groups.len() && (#[trigger] groups[h]).keys.contains(
        slot,
    ) implies !resolved[u] && core.tree_of(key) == Some(groups[h].tree) by {
        let i = choose|i: int| 0 <= i < groups[h].keys.len() && groups[h].keys[i] == slot;
        assert(groups[h].keys[i] as int == u);
    }
    let g = if !resolved[u] && core.tree_of(key) is Some {
        choose|g: int| 0 <= g < groups.len() && (#[trigger] groups[g]).keys.contains(slot)
    } else {
        -1
    };
    assert forall|h: int| 0 <= h < groups.len() && h != g implies !(
    #[trigger] groups[h]).keys.contains(slot) by {
        if groups[h].keys.contains(slot) {
            assert(groups[g].keys.contains(slot));
            assert(groups[g].tree == groups[h].tree);
        }
    }
    lemma_groups_offered::<F>(core, contents(keys), groups, groups.len() as int, g, slot);
    assert(groups.take(groups.len() as int) =~= groups);
}

/// The rooms of a key are the views that have one, in their order. A view of
/// L0 has a place for the keys that it holds, and a view of a run for the keys
/// that the start keys of the run leave to it.
pub proof fn law_each_view_with_a_place_is_offered(
    views: Seq<LeveledView>,
    older: LeveledView,
    key: Seq<u8>,
    segment: Seq<u8>,
)
    ensures
        rooms(Seq::empty(), key, segment).len() == 0,
        rooms(views.push(older), key, segment) == if (older.place is None && older.view.holds(key))
            || (older.place matches Some((starts, i)) && covers(starts, i, key)) {
            rooms(views, key, segment).push(
                OfferView { view: older.view@, segment, level: older.level },
            )
        } else {
            rooms(views, key, segment)
        },
{
    lemma_rooms_one(older, key, segment);
    lemma_rooms_add(views, seq![older], key, segment);
    assert(views.push(older) =~= views + seq![older]);
    assert(rooms(views.push(older), key, segment) =~= if has_room(older, key) {
        rooms(views, key, segment).push(
            OfferView { view: older.view@, segment, level: older.level },
        )
    } else {
        rooms(views, key, segment)
    });
}

/// The cached filters of an SST drop the keys that one of them rejects, and
/// keep each other key in its place. With no filters in the cache, each key
/// stays. Nothing else of the SST changes.
pub proof fn law_cached_filters_drop_what_one_rejects<F: Filter>(
    sst: PlanSstView<F>,
    key: PendingView,
    context: Option<F::Context>,
)
    ensures
        ({
            let more = PlanSstView { keys: sst.keys.push(key), ..sst };
            let passes = match sst.filters {
                None => true,
                Some(filters) => forall|i: int|
                    0 <= i < filters@.len() ==> (#[trigger] filters@[i]).filter.passes(
                        key.key,
                        context,
                    ),
            };
            &&& more.kept(context).keys == if passes {
                sst.kept(context).keys.push(key)
            } else {
                sst.kept(context).keys
            }
        }),
        sst.keys.len() == 0 ==> sst.kept(context).keys.len() == 0,
        sst.kept(context).view == sst.view,
        sst.kept(context).segment == sst.segment,
        sst.kept(context).level == sst.level,
        sst.kept(context).filters == sst.filters,
{
    if let Some(filters) = sst.filters {
        let pred = |key: PendingView| all_pass(filters@, key.key, context);
        sst.keys.lemma_filter_push(key, pred);
        sst.keys.lemma_filter_len(pred);
    }
}

/// A plan keeps an SST exactly when a key is left for it. The key that is left
/// has that SST as its next candidate, and the candidate passed when the filters
/// of the SST are in the cache. What the filters passed and what they rejected
/// is counted by key, and what passed only where there is a filter.
pub proof fn law_a_plan_goes_on_by_one_sst<F: Filter>(
    ssts: Seq<PlanSstView<F>>,
    sst: PlanSstView<F>,
    context: Option<F::Context>,
    u: usize,
)
    ensures
        ({
            let left = sst.kept(context);
            let all = ssts.push(sst);
            &&& planned(all, context) == if left.keys.len() > 0 {
                planned(ssts, context).push(left)
            } else {
                planned(ssts, context)
            }
            &&& !has_slot(left.keys, u) ==> planned_candidates(all, context, u)
                == planned_candidates(ssts, context, u)
            &&& has_slot(left.keys, u) ==> planned_candidates(all, context, u).len()
                > planned_candidates(ssts, context, u).len()
            &&& forall|i: int|
                0 <= i < planned_candidates(ssts, context, u).len()
                    ==> #[trigger] planned_candidates(all, context, u)[i] == planned_candidates(
                    ssts,
                    context,
                    u,
                )[i]
            &&& forall|i: int|
                planned_candidates(ssts, context, u).len() <= i < planned_candidates(
                    all,
                    context,
                    u,
                ).len() ==> (#[trigger] planned_candidates(all, context, u)[i]).sst
                    == planned(ssts, context).len() as usize && (planned_candidates(
                    all,
                    context,
                    u,
                )[i].state is Positive <==> sst.filters is Some)
            &&& passed_count(all, context) == passed_count(ssts, context) + (
            if sst.filters matches Some(filters) && filters@.len() > 0 {
                left.keys.len()
            } else {
                0
            })
            &&& rejected_count(all, context) == rejected_count(ssts, context) + sst.keys.len()
                - left.keys.len()
        }),
        planned(Seq::<PlanSstView<F>>::empty(), context).len() == 0,
        planned_candidates(Seq::<PlanSstView<F>>::empty(), context, u).len() == 0,
        passed_count(Seq::<PlanSstView<F>>::empty(), context) == 0,
        rejected_count(Seq::<PlanSstView<F>>::empty(), context) == 0,
{
    let left = sst.kept(context);
    let all = ssts.push(sst);
    assert(all.drop_last() =~= ssts);
    assert(all.last() == sst);
    let pred = |key: PendingView| key.idx == u;
    let own = left.keys.filter(pred);
    let more = left.candidates_of(u, planned(ssts, context).len());
    assert(more.len() == own.len());
    assert(planned_candidates(all, context, u) == planned_candidates(ssts, context, u) + more);
    if has_slot(left.keys, u) {
        let i = choose|i: int| 0 <= i < left.keys.len() && (#[trigger] left.keys[i]).idx == u;
        left.keys.lemma_filter_contains(pred, i);
        assert(own.len() > 0);
    } else {
        if own.len() > 0 {
            left.keys.lemma_filter_pred(pred, 0);
            assert(own.contains(own[0]));
            left.keys.lemma_filter_contains_rev(pred, own[0]);
            let j = choose|j: int| 0 <= j < left.keys.len() && left.keys[j] == own[0];
            assert(left.keys[j].idx == u);
        }
        assert(more =~= Seq::<Candidate>::empty());
        assert(planned_candidates(ssts, context, u) + more =~= planned_candidates(
            ssts,
            context,
            u,
        ));
    }
    assert forall|i: int|
        planned_candidates(ssts, context, u).len() <= i < planned_candidates(
            all,
            context,
            u,
        ).len() implies (#[trigger] planned_candidates(all, context, u)[i]).sst
        == planned(ssts, context).len() as usize && (planned_candidates(all, context, u)[i].state
        is Positive <==> sst.filters is Some) by {
        assert(planned_candidates(all, context, u)[i] == more[i - planned_candidates(
            ssts,
            context,
            u,
        ).len()]);
    }
}

} // verus!
