//! What a batch does not do twice, and what it does not do at all.
//!
//! A batch must not cost more than a loop of point reads. A read takes no more
//! SSTs than a point read would take, a key reads an SST one time, the filters
//! of an SST load one time for all keys of the batch, and a key takes no more
//! rounds than it has candidates.

use vstd::prelude::*;

use super::candidates::{FiltersView, SstState};
use super::events::{law_each_key_comes_to_its_walk, Event};
use super::invariants::{
    in_order,
    lemma_arrive_middle,
    lemma_arrive_one,
    lemma_candidates_fit,
    lemma_pick_in_order,
    lemma_queued,
    lemma_room_for_pick,
    lemma_schedule,
    lemma_started,
    lemma_wake_middle,
    lemma_with_filters,
    lemma_with_index,
    lemma_with_loads,
    lemma_woken,
};
use super::key::{
    checked_ssts,
    kept,
    lemma_kept_push,
    lemma_reach_bound,
    reach,
    ssts_of,
    unknowns,
    Candidate,
    KeyState,
    PickView,
};
use super::pipeline::{key_ok, started_loads, with_loads, PipelineState};
use crate::filter::Filter;
use crate::types::EntryView;

verus! {

// ---------------------------------------------------------------------------
// The reads of one key
// ---------------------------------------------------------------------------

/// The candidates whose filters pass the key, newest first.
pub open spec fn passing(
    candidates: Seq<Candidate>,
    answers: spec_fn(usize) -> Option<bool>,
) -> Seq<usize> {
    ssts_of(candidates.filter(|c: Candidate| c.passes(answers)))
}

/// A walk takes the newest candidates that pass, up to its limit.
proof fn lemma_reach_takes_the_newest(
    candidates: Seq<Candidate>,
    answers: spec_fn(usize) -> Option<bool>,
    left: nat,
)
    ensures
        ({
            let reached = candidates.take(reach(candidates, answers, left) as int);
            let all = passing(candidates, answers);
            passing(reached, answers) == all.take(
                if left < all.len() {
                    left as int
                } else {
                    all.len() as int
                },
            )
        }),
    decreases candidates.len(),
{
    let pred = |c: Candidate| c.passes(answers);
    let n = reach(candidates, answers, left) as int;
    let reached = candidates.take(n);
    let all = passing(candidates, answers);
    lemma_reach_bound(candidates, answers, left);
    if left == 0 || candidates.len() == 0 {
        assert(reached =~= Seq::<Candidate>::empty());
        reached.lemma_filter_len(pred);
        candidates.lemma_filter_len(pred);
        assert(passing(reached, answers) =~= all.take(
            if left < all.len() {
                left as int
            } else {
                all.len() as int
            },
        ));
    } else {
        let first = candidates[0];
        let rest = candidates.skip(1);
        let fewer = if first.passes(answers) {
            (left - 1) as nat
        } else {
            left
        };
        lemma_reach_takes_the_newest(rest, answers, fewer);
        lemma_reach_bound(rest, answers, fewer);
        let rest_reached = rest.take(reach(rest, answers, fewer) as int);
        assert(reached =~= seq![first] + rest_reached);
        assert(candidates =~= seq![first] + rest);
        rest_reached.lemma_filter_prepend(first, pred);
        rest.lemma_filter_prepend(first, pred);
        let more = passing(rest, answers);
        if first.passes(answers) {
            assert(all =~= seq![first.sst] + more);
            assert(passing(reached, answers) =~= seq![first.sst] + passing(rest_reached, answers));
        } else {
            assert(all =~= more);
            assert(passing(reached, answers) =~= passing(rest_reached, answers));
        }
        assert(passing(reached, answers) =~= all.take(
            if left < all.len() {
                left as int
            } else {
                all.len() as int
            },
        ));
    }
}

/// With nothing to load, what a pick keeps is what passes.
pub proof fn lemma_kept_is_passing(
    candidates: Seq<Candidate>,
    answers: spec_fn(usize) -> Option<bool>,
)
    requires
        unknowns(candidates, answers).len() == 0,
    ensures
        ssts_of(kept(candidates, answers)) == passing(candidates, answers),
    decreases candidates.len(),
{
    let pred = |c: Candidate| c.passes(answers);
    if candidates.len() == 0 {
        candidates.lemma_filter_len(pred);
        candidates.lemma_filter_len(|c: Candidate| !c.rejected(answers));
        assert(ssts_of(kept(candidates, answers)) =~= passing(candidates, answers));
    } else {
        let front = candidates.drop_last();
        let last = candidates.last();
        assert(candidates =~= front.push(last));
        lemma_kept_push(front, last, answers);
        assert(!last.unknown(answers));
        lemma_kept_is_passing(front, answers);
        front.lemma_filter_push(last, pred);
        assert(last.passes(answers) == !last.rejected(answers)) by {
            if !last.passed && answers(last.sst) is Some {
                let pass: bool = answers(last.sst)->0;
                assert(answers(last.sst) == Some(pass));
            }
        }
        let before = kept(front, answers);
        if last.passes(answers) {
            assert(ssts_of(before.push(last.marked(answers))) =~= ssts_of(before).push(last.sst));
            assert(passing(candidates, answers) =~= passing(front, answers).push(last.sst));
        } else {
            assert(passing(candidates, answers) =~= passing(front, answers));
        }
    }
}

/// A read takes the newest SSTs whose filters pass the key: one in the first
/// read, at most `lookahead` in a later one, and all of them when the key has
/// a merge operand. It takes no other SST.
pub proof fn law_a_read_takes_the_newest_ssts_that_pass(
    key: KeyState,
    lookahead: usize,
    answers: spec_fn(usize) -> Option<bool>,
)
    ensures
        key.pick_step(lookahead, answers) matches PickView::Read(ssts) ==> {
            let all = passing(key.candidates, answers);
            let limit = key.pick_limit(lookahead);
            ssts == all.take(
                if limit < all.len() {
                    limit as int
                } else {
                    all.len() as int
                },
            )
        },
        !key.has_operand() && key.rounds == 0 ==> key.pick_limit(lookahead) == 1,
        !key.has_operand() && key.rounds > 0 && lookahead > 0 ==> key.pick_limit(lookahead)
            == lookahead,
{
    let limit = key.pick_limit(lookahead);
    let reached = key.reached(lookahead, answers);
    lemma_reach_takes_the_newest(key.candidates, answers, limit);
    if key.pick_step(lookahead, answers) is Read {
        lemma_kept_is_passing(reached, answers);
    }
}

/// What a batch knows of the filters agrees with what they say.
pub open spec fn agrees(
    known: spec_fn(usize) -> Option<bool>,
    all: spec_fn(usize) -> Option<bool>,
) -> bool {
    forall|sst: usize| (#[trigger] known(sst)) is Some ==> known(sst) == all(sst)
}

/// A walk that meets nothing to load reaches as far as with all filters.
proof fn lemma_reach_agrees(
    candidates: Seq<Candidate>,
    known: spec_fn(usize) -> Option<bool>,
    all: spec_fn(usize) -> Option<bool>,
    left: nat,
)
    requires
        agrees(known, all),
        forall|i: int|
            0 <= i < reach(candidates, known, left) ==> !(#[trigger] candidates[i]).unknown(known),
    ensures
        reach(candidates, all, left) == reach(candidates, known, left),
    decreases candidates.len(),
{
    if left > 0 && candidates.len() > 0 {
        let rest = candidates.skip(1);
        let after = if candidates[0].passes(known) {
            (left - 1) as nat
        } else {
            left
        };
        lemma_reach_bound(rest, known, after);
        assert(!candidates[0].unknown(known));
        assert(candidates[0].passes(known) == candidates[0].passes(all));
        assert forall|i: int| 0 <= i < reach(rest, known, after) implies !(
        #[trigger] rest[i]).unknown(known) by {
            assert(rest[i] == candidates[i + 1]);
        }
        lemma_reach_agrees(rest, known, all, after);
    }
}

/// Where nothing is left to load, what passes is what passes with all
/// filters.
proof fn lemma_passing_agrees(
    candidates: Seq<Candidate>,
    known: spec_fn(usize) -> Option<bool>,
    all: spec_fn(usize) -> Option<bool>,
)
    requires
        agrees(known, all),
        forall|i: int| 0 <= i < candidates.len() ==> !(#[trigger] candidates[i]).unknown(known),
    ensures
        passing(candidates, all) == passing(candidates, known),
    decreases candidates.len(),
{
    let by_known = |c: Candidate| c.passes(known);
    let by_all = |c: Candidate| c.passes(all);
    if candidates.len() == 0 {
        candidates.lemma_filter_len(by_known);
        candidates.lemma_filter_len(by_all);
        assert(passing(candidates, all) =~= passing(candidates, known));
    } else {
        let front = candidates.drop_last();
        let last = candidates.last();
        assert(candidates =~= front.push(last));
        assert forall|i: int| 0 <= i < front.len() implies !(#[trigger] front[i]).unknown(known) by {
            assert(front[i] == candidates[i]);
        }
        lemma_passing_agrees(front, known, all);
        front.lemma_filter_push(last, by_known);
        front.lemma_filter_push(last, by_all);
        assert(!candidates[candidates.len() - 1].unknown(known));
        if last.passes(known) {
            assert(passing(candidates, known) =~= passing(front, known).push(last.sst));
            assert(passing(candidates, all) =~= passing(front, all).push(last.sst));
        } else {
            assert(passing(candidates, known) =~= passing(front, known));
            assert(passing(candidates, all) =~= passing(front, all));
        }
    }
}

/// A read takes the SSTs that it would take with all filters loaded. So it
/// makes no difference which filters the other keys of the batch loaded, and
/// when they came: a key reads no SST for their sake.
pub proof fn law_the_other_keys_add_no_reads(
    key: KeyState,
    lookahead: usize,
    known: spec_fn(usize) -> Option<bool>,
    all: spec_fn(usize) -> Option<bool>,
)
    requires
        agrees(known, all),
        forall|i: int|
            0 <= i < key.candidates.len() ==> all((#[trigger] key.candidates[i]).sst) is Some,
        key.pick_step(lookahead, known) is Read,
    ensures
        key.pick_step(lookahead, known) == key.pick_step(lookahead, all),
        key.pick(lookahead, known) == key.pick(lookahead, all),
{
    let limit = key.pick_limit(lookahead);
    let reached = key.reached(lookahead, known);
    lemma_reach_bound(key.candidates, known, limit);
    assert forall|i: int| 0 <= i < reach(key.candidates, known, limit) implies !(
    #[trigger] key.candidates[i]).unknown(known) by {
        assert(reached[i] == key.candidates[i]);
        if reached[i].unknown(known) {
            reached.lemma_filter_contains(|c: Candidate| c.unknown(known), i);
        }
    }
    assert forall|i: int| 0 <= i < reached.len() implies !(#[trigger] reached[i]).unknown(
        known,
    ) by {
        assert(reached[i] == key.candidates[i]);
    }
    lemma_reach_agrees(key.candidates, known, all, limit);
    lemma_passing_agrees(reached, known, all);
    lemma_kept_is_passing(reached, known);
    assert(unknowns(reached, all).len() == 0) by {
        let pred = |c: Candidate| c.unknown(all);
        if reached.filter(pred).len() > 0 {
            reached.lemma_filter_pred(pred, 0);
            reached.lemma_filter_contains_rev(pred, reached.filter(pred)[0]);
            let j = choose|j: int| 0 <= j < reached.len() && reached[j] == reached.filter(pred)[0];
            assert(all(key.candidates[j].sst) is Some);
        }
    }
    lemma_kept_is_passing(reached, all);
    assert(ssts_of(kept(reached, all)).len() == kept(reached, all).len());
    assert(ssts_of(kept(reached, known)).len() == kept(reached, known).len());
}

/// A key reads an SST one time: what a read takes is no candidate any more.
pub proof fn law_a_key_reads_an_sst_one_time(
    key: KeyState,
    lookahead: usize,
    answers: spec_fn(usize) -> Option<bool>,
    ssts: nat,
    sst: usize,
)
    requires
        in_order(key.candidates, ssts),
        key.pick_step(lookahead, answers) matches PickView::Read(picked) && picked.contains(sst),
    ensures
        !ssts_of(key.pick(lookahead, answers).candidates).contains(sst),
{
    let limit = key.pick_limit(lookahead);
    lemma_reach_bound(key.candidates, answers, limit);
    let reached = key.reached(lookahead, answers);
    let n = reached.len() as int;
    let after = kept(reached, answers);
    let picked = ssts_of(after);
    let i = choose|i: int| 0 <= i < picked.len() && picked[i] == sst;
    let from = reached.filter(|c: Candidate| !c.rejected(answers));
    assert(from.contains(from[i]));
    reached.lemma_filter_contains_rev(|c: Candidate| !c.rejected(answers), from[i]);
    let j = choose|j: int| 0 <= j < reached.len() && reached[j] == from[i];
    assert(reached[j].sst == sst);
    assert(key.candidates[j].sst == sst);
    let rest = ssts_of(key.candidates.skip(n));
    if rest.contains(sst) {
        let k = choose|k: int| 0 <= k < rest.len() && rest[k] == sst;
        assert(key.candidates[n + k].sst == sst);
        assert(key.candidates[j].sst < key.candidates[n + k].sst);
    }
}

// ---------------------------------------------------------------------------
// The filter loads of the batch
// ---------------------------------------------------------------------------

/// An SST whose filters are loaded, or on their way.
pub open spec fn load_started<F>(sst: SstState<F>) -> bool {
    !(sst.filters is NotLoaded)
}

/// What was loaded, or on its way, stays so.
pub open spec fn loads_stay<F>(before: Seq<SstState<F>>, after: Seq<SstState<F>>) -> bool {
    &&& before.len() == after.len()
    &&& forall|s: int|
        0 <= s < before.len() && load_started(#[trigger] before[s]) ==> load_started(after[s])
}

/// Each new load is for an SST that had none, and then it has one.
pub open spec fn loads_are_new<F: Filter>(
    before: PipelineState<F>,
    after: PipelineState<F>,
) -> bool {
    &&& before.loads.len() <= after.loads.len()
    &&& before.loads == after.loads.take(before.loads.len() as int)
    &&& forall|i: int|
        before.loads.len() <= i < after.loads.len() ==> {
            let sst = (#[trigger] after.loads[i]) as int;
            &&& 0 <= sst < before.ssts.len()
            &&& !load_started(before.ssts[sst])
            &&& load_started(after.ssts[sst])
        }
    &&& forall|i: int, j: int|
        before.loads.len() <= i < j < after.loads.len() ==> (#[trigger] after.loads[i]) != (
        #[trigger] after.loads[j])
}

/// What `with_loads` and `started_loads` do to the filters.
proof fn lemma_waits_start_loads<F>(ssts: Seq<SstState<F>>, wanted: Seq<usize>)
    requires
        forall|i: int| 0 <= i < wanted.len() ==> (#[trigger] wanted[i]) < ssts.len(),
    ensures
        loads_stay(ssts, with_loads(ssts, wanted)),
        forall|i: int|
            0 <= i < started_loads(ssts, wanted).len() ==> {
                let sst = (#[trigger] started_loads(ssts, wanted)[i]) as int;
                &&& 0 <= sst < ssts.len()
                &&& !load_started(ssts[sst])
                &&& load_started(with_loads(ssts, wanted)[sst])
            },
        forall|i: int, j: int|
            0 <= i < j < started_loads(ssts, wanted).len() ==> (#[trigger] started_loads(
                ssts,
                wanted,
            )[i]) != (#[trigger] started_loads(ssts, wanted)[j]),
    decreases wanted.len(),
{
    if wanted.len() > 0 {
        let front = wanted.drop_last();
        let last = wanted.last() as int;
        assert forall|i: int| 0 <= i < front.len() implies (#[trigger] front[i]) < ssts.len() by {
            assert(wanted[i] < ssts.len());
        }
        lemma_waits_start_loads(ssts, front);
        let before = with_loads(ssts, front);
        let after = with_loads(ssts, wanted);
        let old_loads = started_loads(ssts, front);
        let new_loads = started_loads(ssts, wanted);
        assert(wanted[wanted.len() - 1] < ssts.len());
        assert(loads_stay(before, after));
        assert forall|s: int| 0 <= s < ssts.len() && load_started(
            #[trigger] ssts[s],
        ) implies load_started(after[s]) by {
            assert(load_started(before[s]));
        }
        assert forall|i: int| 0 <= i < new_loads.len() implies {
            let sst = (#[trigger] new_loads[i]) as int;
            &&& 0 <= sst < ssts.len()
            &&& !load_started(ssts[sst])
            &&& load_started(after[sst])
        } by {
            if i < old_loads.len() {
                assert(new_loads[i] == old_loads[i]);
                assert(load_started(before[old_loads[i] as int]));
            } else {
                assert(!load_started(before[last]));
                if load_started(ssts[last]) {
                    assert(load_started(before[last]));
                }
            }
        }
        assert forall|i: int, j: int| 0 <= i < j < new_loads.len() implies (
        #[trigger] new_loads[i]) != (#[trigger] new_loads[j]) by {
            assert(new_loads[i] == old_loads[i]);
            assert(load_started(before[old_loads[i] as int]));
            if j < old_loads.len() {
                assert(new_loads[j] == old_loads[j]);
            } else {
                assert(!load_started(before[last]));
            }
        }
    }
}

/// The next pick of a key starts only loads that no key started before.
proof fn lemma_schedule_loads<F: Filter>(batch: PipelineState<F>, u: int, known: int)
    requires
        batch.wf_waking(known),
        batch.can_pick(u),
    ensures
        loads_stay(batch.ssts, batch.schedule(u).ssts),
        loads_are_new(batch, batch.schedule(u)),
{
    let key = batch.keys[u];
    let answers = batch.answers(u);
    let after = batch.schedule(u);
    lemma_room_for_pick(batch, u, known);
    lemma_pick_in_order(key, batch.lookahead, answers, batch.ssts.len());
    lemma_schedule(batch, u, known);
    let checked = checked_ssts(
        batch.ssts,
        key.reached(batch.lookahead, answers),
        key.key,
        batch.context,
    );
    assert forall|s: int| 0 <= s < checked.len() implies (#[trigger] checked[s]).filters
        == batch.ssts[s].filters by {}
    match batch.next_step(u) {
        PickView::Load(wanted) => {
            lemma_waits_start_loads(checked, wanted);
            let new_loads = started_loads(checked, wanted);
            let n = batch.loads.len() as int;
            assert(after.loads == batch.loads + new_loads);
            assert(after.loads.take(n) =~= batch.loads);
            assert forall|s: int|
                0 <= s < batch.ssts.len() && load_started(
                    #[trigger] batch.ssts[s],
                ) implies load_started(after.ssts[s]) by {
                assert(load_started(checked[s]));
            }
            assert forall|i: int| n <= i < after.loads.len() implies {
                let sst = (#[trigger] after.loads[i]) as int;
                &&& 0 <= sst < batch.ssts.len()
                &&& !load_started(batch.ssts[sst])
                &&& load_started(after.ssts[sst])
            } by {
                assert(after.loads[i] == new_loads[i - n]);
                assert(checked[new_loads[i - n] as int].filters
                    == batch.ssts[new_loads[i - n] as int].filters);
            }
            assert forall|i: int, j: int| n <= i < j < after.loads.len() implies (
            #[trigger] after.loads[i]) != (#[trigger] after.loads[j]) by {
                assert(after.loads[i] == new_loads[i - n]);
                assert(after.loads[j] == new_loads[j - n]);
            }
        },
        _ => {
            assert(after.loads.take(batch.loads.len() as int) =~= batch.loads);
            assert forall|s: int|
                0 <= s < batch.ssts.len() && load_started(
                    #[trigger] batch.ssts[s],
                ) implies load_started(after.ssts[s]) by {
                assert(checked[s].filters == batch.ssts[s].filters);
            }
        },
    }
}

/// Loads that are new in each of two steps are new in both.
proof fn lemma_chain_loads<F: Filter>(
    a: PipelineState<F>,
    b: PipelineState<F>,
    c: PipelineState<F>,
)
    requires
        loads_stay(a.ssts, b.ssts),
        loads_are_new(a, b),
        loads_stay(b.ssts, c.ssts),
        loads_are_new(b, c),
    ensures
        loads_stay(a.ssts, c.ssts),
        loads_are_new(a, c),
{
    let n = a.loads.len() as int;
    let m = b.loads.len() as int;
    assert(c.loads.take(n) =~= b.loads.take(n)) by {
        assert forall|i: int| 0 <= i < n implies c.loads.take(n)[i] == b.loads.take(n)[i] by {
            assert(c.loads.take(m)[i] == b.loads[i]);
        }
    }
    assert forall|s: int| 0 <= s < a.ssts.len() && load_started(
        #[trigger] a.ssts[s],
    ) implies load_started(c.ssts[s]) by {
        assert(load_started(b.ssts[s]));
    }
    assert forall|i: int| n <= i < m implies #[trigger] c.loads[i] == b.loads[i] by {
        assert(c.loads.take(m)[i] == b.loads[i]);
    }
    assert forall|i: int| n <= i < c.loads.len() implies {
        let sst = (#[trigger] c.loads[i]) as int;
        &&& 0 <= sst < a.ssts.len()
        &&& !load_started(a.ssts[sst])
        &&& load_started(c.ssts[sst])
    } by {
        if i < m {
            assert(c.loads[i] == b.loads[i]);
            let sst = b.loads[i] as int;
            assert(load_started(b.ssts[sst]));
        } else {
            let sst = c.loads[i] as int;
            assert(!load_started(b.ssts[sst]));
            if load_started(a.ssts[sst]) {
                assert(load_started(b.ssts[sst]));
            }
        }
    }
    assert forall|i: int, j: int| n <= i < j < c.loads.len() implies (#[trigger] c.loads[i]) != (
    #[trigger] c.loads[j]) by {
        if j < m {
            assert(c.loads[i] == b.loads[i]);
            assert(c.loads[j] == b.loads[j]);
        } else if i < m {
            assert(c.loads[i] == b.loads[i]);
            assert(load_started(b.ssts[b.loads[i] as int]));
            assert(!load_started(b.ssts[c.loads[j] as int]));
        }
    }
}

/// A change of the keys alone starts no load.
proof fn lemma_same_ssts<F: Filter>(a: PipelineState<F>, b: PipelineState<F>)
    requires
        a.ssts == b.ssts,
        a.loads == b.loads,
    ensures
        loads_stay(a.ssts, b.ssts),
        loads_are_new(a, b),
{
    assert(b.loads.take(a.loads.len() as int) =~= a.loads);
}

/// An arrival starts only loads that no key started before.
proof fn lemma_arrive_loads<F: Filter>(
    batch: PipelineState<F>,
    sst: usize,
    us: Seq<usize>,
    entries: Map<usize, Seq<EntryView>>,
)
    requires
        batch.wf(),
        batch.all_busy(),
        forall|i: int| 0 <= i < us.len() ==> (#[trigger] us[i]) < batch.keys.len(),
    ensures
        loads_stay(batch.ssts, batch.arrive(sst, us, entries).ssts),
        loads_are_new(batch, batch.arrive(sst, us, entries)),
    decreases us.len(),
{
    if us.len() == 0 {
        lemma_same_ssts(batch, batch);
    } else {
        let u = us[0] as int;
        let found = if entries.contains_key(us[0]) {
            entries[us[0]]
        } else {
            Seq::empty()
        };
        let key = batch.keys[u].arrive(sst, found, batch.max_seq);
        let middle = PipelineState { keys: batch.keys.update(u, key), ..batch };
        let next = batch.arrive_one(sst, u, found);
        lemma_same_ssts(batch, middle);
        lemma_arrive_middle(batch, sst, u, found);
        lemma_arrive_one(batch, sst, u, found);
        if !key.done && key.idle() {
            lemma_schedule_loads(middle, u, middle.keys.len() as int);
            lemma_chain_loads(batch, middle, next);
        }
        assert forall|i: int| 0 <= i < us.skip(1).len() implies (#[trigger] us.skip(1)[i])
            < next.keys.len() by {
            assert(us[i + 1] < batch.keys.len());
        }
        lemma_arrive_loads(next, sst, us.skip(1), entries.remove(us[0]));
        lemma_chain_loads(batch, next, batch.arrive(sst, us, entries));
    }
}

/// The wake-ups start only loads that no key started before.
proof fn lemma_woken_loads<F: Filter>(batch: PipelineState<F>, n: int)
    requires
        batch.wf_waking(0),
        batch.all_busy(),
        0 <= n <= batch.keys.len(),
    ensures
        loads_stay(batch.ssts, batch.woken(n).ssts),
        loads_are_new(batch, batch.woken(n)),
    decreases n,
{
    if n > 0 {
        let u = n - 1;
        let before = batch.woken(u);
        let next = before.wake(u);
        lemma_woken(batch, u);
        lemma_woken_loads(batch, u);
        if before.keys[u].waiting > 0 && !before.keys[u].done {
            let key = KeyState { waiting: 0, ..before.keys[u] };
            let middle = PipelineState { keys: before.keys.update(u, key), ..before };
            lemma_wake_middle(before, u, u);
            lemma_same_ssts(before, middle);
            lemma_schedule_loads(middle, u, u);
            lemma_chain_loads(before, middle, next);
            lemma_chain_loads(batch, before, next);
        }
    } else {
        lemma_same_ssts(batch, batch);
    }
}

/// The filters of an SST load one time for the whole batch: a read or a
/// filter load that comes starts only loads of SSTs whose filters nobody
/// asked for before, and no SST forgets that its load started.
pub proof fn law_the_filters_of_an_sst_load_one_time<F: Filter>(
    batch: PipelineState<F>,
    event: Event<F>,
)
    requires
        batch.wf(),
        batch.all_busy(),
        match event {
            Event::Filters { sst, .. } => sst < batch.ssts.len(),
            Event::Read { sst, us, index, .. } => {
                &&& sst < batch.ssts.len()
                &&& forall|i: int| 0 <= i < us.len() ==> (#[trigger] us[i]) < batch.keys.len()
                &&& index matches Some(index) ==> index.wf()
            },
            _ => false,
        },
    ensures
        loads_stay(batch.ssts, batch.after(event).ssts),
        loads_are_new(batch, batch.after(event)),
{
    match event {
        Event::Filters { sst, filters } => {
            let loaded = batch.with_filters(sst as int, filters);
            lemma_with_filters(batch, sst as int, filters);
            assert(loaded.loads.take(batch.loads.len() as int) =~= batch.loads);
            assert(loads_stay(batch.ssts, loaded.ssts));
            assert(loads_are_new(batch, loaded));
            lemma_woken_loads(loaded, batch.keys.len() as int);
            lemma_chain_loads(batch, loaded, batch.after(event));
        },
        Event::Read { sst, us, entries, index } => {
            let indexed = batch.with_index(sst, index);
            lemma_with_index(batch, sst, index);
            assert(indexed.loads.take(batch.loads.len() as int) =~= batch.loads);
            assert forall|s: int|
                0 <= s < batch.ssts.len() && load_started(
                    #[trigger] batch.ssts[s],
                ) implies load_started(indexed.ssts[s]) by {}
            assert(loads_are_new(batch, indexed));
            lemma_arrive_loads(indexed, sst, us, entries);
            lemma_chain_loads(batch, indexed, batch.after(event));
        },
        _ => {},
    }
}

/// The first picks start only loads that no key started before.
pub proof fn law_the_first_picks_load_one_time<F: Filter>(batch: PipelineState<F>, n: int)
    requires
        batch.wf(),
        0 <= n <= batch.keys.len(),
        forall|u: int| 0 <= u < batch.keys.len() ==> (#[trigger] batch.keys[u]).idle(),
    ensures
        loads_stay(batch.ssts, batch.started(n).ssts),
        loads_are_new(batch, batch.started(n)),
    decreases n,
{
    if n <= 0 {
        lemma_same_ssts(batch, batch);
    } else {
        let before = batch.started(n - 1);
        law_the_first_picks_load_one_time(batch, n - 1);
        lemma_started(batch, n - 1);
        assert(before.keys[n - 1] == batch.keys[n - 1]);
        if !before.keys[n - 1].done {
            lemma_schedule_loads(before, n - 1, before.keys.len() as int);
            lemma_chain_loads(batch, before, batch.started(n));
        }
    }
}

// ---------------------------------------------------------------------------
// The rounds and the indexes of the batch
// ---------------------------------------------------------------------------

/// The batch went on: each new round of a key took one of its candidates at
/// least, and an index that was known stays known.
pub open spec fn went_on<F: Filter>(before: PipelineState<F>, after: PipelineState<F>) -> bool {
    &&& before.keys.len() == after.keys.len()
    &&& before.ssts.len() == after.ssts.len()
    &&& forall|u: int|
        0 <= u < before.keys.len() ==> before.keys[u].rounds <= (#[trigger] after.keys[u]).rounds
            && after.keys[u].rounds + after.keys[u].candidates.len() <= before.keys[u].rounds
            + before.keys[u].candidates.len()
    &&& forall|s: int|
        0 <= s < before.ssts.len() && before.ssts[s].index is Some ==> (
        #[trigger] after.ssts[s]).index is Some
}

/// A batch that goes on twice goes on.
proof fn lemma_chain_went_on<F: Filter>(
    a: PipelineState<F>,
    b: PipelineState<F>,
    c: PipelineState<F>,
)
    requires
        went_on(a, b),
        went_on(b, c),
    ensures
        went_on(a, c),
{
    assert forall|u: int| 0 <= u < a.keys.len() implies a.keys[u].rounds <= (
    #[trigger] c.keys[u]).rounds && c.keys[u].rounds + c.keys[u].candidates.len()
        <= a.keys[u].rounds + a.keys[u].candidates.len() by {
        assert(a.keys[u].rounds <= b.keys[u].rounds);
    }
    assert forall|s: int| 0 <= s < a.ssts.len() && a.ssts[s].index is Some implies (
    #[trigger] c.ssts[s]).index is Some by {
        assert(b.ssts[s].index is Some);
    }
}

/// The next pick of a key goes on.
proof fn lemma_schedule_goes_on<F: Filter>(batch: PipelineState<F>, u: int, known: int)
    requires
        batch.wf_waking(known),
        batch.can_pick(u),
    ensures
        went_on(batch, batch.schedule(u)),
{
    let key = batch.keys[u];
    let answers = batch.answers(u);
    let after = batch.schedule(u);
    lemma_room_for_pick(batch, u, known);
    lemma_pick_in_order(key, batch.lookahead, answers, batch.ssts.len());
    lemma_schedule(batch, u, known);
    assert(key_ok(key, batch.ssts.len()));
    let checked = checked_ssts(
        batch.ssts,
        key.reached(batch.lookahead, answers),
        key.key,
        batch.context,
    );
    assert forall|s: int| 0 <= s < checked.len() implies (#[trigger] checked[s]).index
        == batch.ssts[s].index by {}
    if let PickView::Load(wanted) = batch.next_step(u) {
        lemma_with_loads(checked, wanted);
    }
    assert forall|s: int| 0 <= s < batch.ssts.len() && batch.ssts[s].index is Some implies (
    #[trigger] after.ssts[s]).index is Some by {
        assert(checked[s].index == batch.ssts[s].index);
    }
}

/// An arrival goes on.
proof fn lemma_arrive_goes_on<F: Filter>(
    batch: PipelineState<F>,
    sst: usize,
    us: Seq<usize>,
    entries: Map<usize, Seq<EntryView>>,
)
    requires
        batch.wf(),
        batch.all_busy(),
        forall|i: int| 0 <= i < us.len() ==> (#[trigger] us[i]) < batch.keys.len(),
    ensures
        went_on(batch, batch.arrive(sst, us, entries)),
    decreases us.len(),
{
    if us.len() > 0 {
        let u = us[0] as int;
        let found = if entries.contains_key(us[0]) {
            entries[us[0]]
        } else {
            Seq::empty()
        };
        let key = batch.keys[u].arrive(sst, found, batch.max_seq);
        let middle = PipelineState { keys: batch.keys.update(u, key), ..batch };
        let next = batch.arrive_one(sst, u, found);
        assert(went_on(batch, middle));
        lemma_arrive_middle(batch, sst, u, found);
        lemma_arrive_one(batch, sst, u, found);
        if !key.done && key.idle() {
            lemma_schedule_goes_on(middle, u, middle.keys.len() as int);
            lemma_chain_went_on(batch, middle, next);
        }
        assert forall|i: int| 0 <= i < us.skip(1).len() implies (#[trigger] us.skip(1)[i])
            < next.keys.len() by {
            assert(us[i + 1] < batch.keys.len());
        }
        lemma_arrive_goes_on(next, sst, us.skip(1), entries.remove(us[0]));
        lemma_chain_went_on(batch, next, batch.arrive(sst, us, entries));
    }
}

/// The wake-ups go on.
proof fn lemma_woken_goes_on<F: Filter>(batch: PipelineState<F>, n: int)
    requires
        batch.wf_waking(0),
        batch.all_busy(),
        0 <= n <= batch.keys.len(),
    ensures
        went_on(batch, batch.woken(n)),
    decreases n,
{
    if n > 0 {
        let u = n - 1;
        let before = batch.woken(u);
        let next = before.wake(u);
        lemma_woken(batch, u);
        lemma_woken_goes_on(batch, u);
        if before.keys[u].waiting > 0 && !before.keys[u].done {
            let key = KeyState { waiting: 0, ..before.keys[u] };
            let middle = PipelineState { keys: before.keys.update(u, key), ..before };
            lemma_wake_middle(before, u, u);
            assert(went_on(before, middle));
            lemma_schedule_goes_on(middle, u, u);
            lemma_chain_went_on(before, middle, next);
            lemma_chain_went_on(batch, before, next);
        }
    }
}

/// Whatever comes, each new round of a key takes one of its candidates at
/// least. And an index that the batch knows stays known, so no later read of
/// the SST loads it again.
pub proof fn law_each_round_takes_a_candidate<F: Filter>(
    batch: PipelineState<F>,
    event: Event<F>,
    versions: spec_fn(int, usize) -> Seq<EntryView>,
)
    requires
        batch.wf(),
        batch.all_busy(),
        batch.can_happen(event, versions),
    ensures
        went_on(batch, batch.after(event)),
        event matches Event::Read { sst, index, .. } ==> (index is Some ==> batch.after(
            event,
        ).ssts[sst as int].index is Some),
{
    match event {
        Event::Filters { sst, filters } => {
            let loaded = batch.with_filters(sst as int, filters);
            lemma_with_filters(batch, sst as int, filters);
            assert(went_on(batch, loaded));
            lemma_woken_goes_on(loaded, batch.keys.len() as int);
            lemma_chain_went_on(batch, loaded, batch.after(event));
        },
        Event::Read { sst, us, entries, index } => {
            let indexed = batch.with_index(sst, index);
            lemma_with_index(batch, sst, index);
            assert(went_on(batch, indexed));
            lemma_arrive_goes_on(indexed, sst, us, entries);
            if index is Some {
                assert(indexed.ssts[sst as int].index is Some);
                assert(batch.after(event).ssts[sst as int].index is Some);
            }
            lemma_chain_went_on(batch, indexed, batch.after(event));
        },
        _ => {},
    }
}

/// The first picks go on.
proof fn lemma_started_goes_on<F: Filter>(batch: PipelineState<F>, n: int)
    requires
        batch.wf(),
        0 <= n <= batch.keys.len(),
        forall|u: int| 0 <= u < batch.keys.len() ==> (#[trigger] batch.keys[u]).idle(),
    ensures
        went_on(batch, batch.started(n)),
    decreases n,
{
    if n > 0 {
        let before = batch.started(n - 1);
        lemma_started_goes_on(batch, n - 1);
        lemma_started(batch, n - 1);
        assert(before.keys[n - 1] == batch.keys[n - 1]);
        if !before.keys[n - 1].done {
            lemma_schedule_goes_on(before, n - 1, before.keys.len() as int);
            lemma_chain_went_on(batch, before, batch.started(n));
        }
    }
}

/// A key takes no more rounds than it has candidates, whatever the other keys
/// of the batch do.
pub proof fn law_rounds_are_no_more_than_the_candidates<F: Filter>(
    batch: PipelineState<F>,
    events: Seq<Event<F>>,
    versions: spec_fn(int, usize) -> Seq<EntryView>,
)
    requires
        batch.wf(),
        batch.truthful(versions),
        forall|u: int|
            0 <= u < batch.keys.len() ==> (#[trigger] batch.keys[u]).idle() && batch.keys[u].rounds
                == 0,
        batch.started(batch.keys.len() as int).can_all_happen(events, versions),
    ensures
        went_on(batch, batch.started(batch.keys.len() as int).after_all(events)),
        forall|u: int|
            0 <= u < batch.keys.len() ==> (#[trigger] batch.started(
                batch.keys.len() as int,
            ).after_all(events).keys[u]).rounds <= batch.keys[u].candidates.len(),
    decreases events.len(),
{
    let start = batch.started(batch.keys.len() as int);
    if events.len() == 0 {
        lemma_started_goes_on(batch, batch.keys.len() as int);
    } else {
        let front = events.drop_last();
        let before = start.after_all(front);
        law_rounds_are_no_more_than_the_candidates(batch, front, versions);
        law_each_key_comes_to_its_walk(batch, front, versions);
        law_each_round_takes_a_candidate(before, events.last(), versions);
        lemma_chain_went_on(batch, before, start.after_all(events));
    }
}

/// A read takes one SST at first and `lookahead` later, but at least one. A
/// key that holds a version holds merge operands only, and takes all.
pub proof fn law_how_many_ssts_a_read_takes(key: KeyState, lookahead: usize)
    ensures
        key.wb.len() > 0 || key.acc.len() > 0 ==> key.pick_limit(lookahead) == usize::MAX,
        key.wb.len() == 0 && key.acc.len() == 0 && key.rounds == 0 ==> key.pick_limit(lookahead)
            == 1,
        key.wb.len() == 0 && key.acc.len() == 0 && key.rounds > 0 && lookahead > 0
            ==> key.pick_limit(lookahead) == lookahead,
        key.wb.len() == 0 && key.acc.len() == 0 && key.rounds > 0 && lookahead == 0
            ==> key.pick_limit(lookahead) == 1,
{
}

/// A candidate passes when its filters passed the key, now or before. It is
/// rejected when they say no, and unknown when they are not loaded. It is
/// always one of the three.
pub proof fn law_a_candidate_passes_fails_or_is_unknown(
    c: Candidate,
    answers: spec_fn(usize) -> Option<bool>,
)
    ensures
        c.passed ==> c.passes(answers) && !c.rejected(answers) && !c.unknown(answers),
        !c.passed && answers(c.sst) == Some(true) ==> c.passes(answers) && !c.rejected(answers)
            && !c.unknown(answers),
        !c.passed && answers(c.sst) == Some(false) ==> !c.passes(answers) && c.rejected(answers)
            && !c.unknown(answers),
        !c.passed && answers(c.sst) is None ==> !c.passes(answers) && !c.rejected(answers)
            && c.unknown(answers),
{
}

/// A pick asks for the filters of exactly those SSTs that are not loaded, down
/// to the SST at which the read would end. It reads nothing before they came.
pub proof fn law_a_pick_loads_what_it_does_not_know(
    key: KeyState,
    lookahead: usize,
    answers: spec_fn(usize) -> Option<bool>,
    i: int,
)
    requires
        0 <= i < key.candidates.len(),
        !key.candidates[i].passed,
        answers(key.candidates[i].sst) is None,
        passing(key.candidates.take(i), answers).len() < key.pick_limit(lookahead),
    ensures
        key.pick_step(lookahead, answers) matches PickView::Load(ssts) && ssts.contains(
            key.candidates[i].sst,
        ),
{
    let limit = key.pick_limit(lookahead);
    let reached = key.reached(lookahead, answers);
    lemma_reach_bound(key.candidates, answers, limit);
    lemma_reach_goes_on(key.candidates, answers, limit, i);
    assert(reached[i] == key.candidates[i]);
    let pred = |c: Candidate| c.unknown(answers);
    reached.lemma_filter_contains(pred, i);
    let filtered = reached.filter(pred);
    let k = choose|k: int| 0 <= k < filtered.len() && filtered[k] == reached[i];
    assert(unknowns(reached, answers)[k] == key.candidates[i].sst);
}

/// A walk goes on while fewer SSTs passed than it takes.
proof fn lemma_reach_goes_on(
    candidates: Seq<Candidate>,
    answers: spec_fn(usize) -> Option<bool>,
    left: nat,
    i: int,
)
    requires
        0 <= i < candidates.len(),
        passing(candidates.take(i), answers).len() < left,
    ensures
        i < reach(candidates, answers, left),
    decreases candidates.len(),
{
    if i > 0 {
        let rest = candidates.skip(1);
        let pred = |c: Candidate| c.passes(answers);
        let first = candidates[0];
        let front = candidates.take(i);
        assert(front =~= seq![first] + rest.take(i - 1));
        rest.take(i - 1).lemma_filter_prepend(first, pred);
        let fewer = if first.passes(answers) {
            (left - 1) as nat
        } else {
            left
        };
        assert(passing(front, answers).len() == front.filter(pred).len());
        assert(passing(rest.take(i - 1), answers).len() == rest.take(i - 1).filter(pred).len());
        lemma_reach_goes_on(rest, answers, fewer, i - 1);
    }
}

// ---------------------------------------------------------------------------
// What the batch knows
// ---------------------------------------------------------------------------

/// Exactly the filters that a key asks for and that nobody asked for before
/// begin to load.
proof fn lemma_loads_begin<F>(ssts: Seq<SstState<F>>, wanted: Seq<usize>)
    requires
        ssts.len() <= usize::MAX,
        forall|i: int| 0 <= i < wanted.len() ==> (#[trigger] wanted[i]) < ssts.len(),
    ensures
        with_loads(ssts, wanted).len() == ssts.len(),
        forall|s: int|
            0 <= s < ssts.len() ==> (#[trigger] with_loads(ssts, wanted)[s]).filters == if ssts[s].filters
                is NotLoaded && wanted.contains(s as usize) {
                FiltersView::Loading
            } else {
                ssts[s].filters
            },
        forall|s: int|
            0 <= s < ssts.len() ==> (#[trigger] started_loads(ssts, wanted).contains(s as usize)
                <==> ssts[s].filters is NotLoaded && wanted.contains(s as usize)),
    decreases wanted.len(),
{
    if wanted.len() > 0 {
        let front = wanted.drop_last();
        let last = wanted.last();
        let before = with_loads(ssts, front);
        let old_loads = started_loads(ssts, front);
        let loads = started_loads(ssts, wanted);
        assert forall|i: int| 0 <= i < front.len() implies (#[trigger] front[i]) < ssts.len() by {
            assert(wanted[i] < ssts.len());
        }
        assert(wanted[wanted.len() - 1] < ssts.len());
        lemma_loads_begin(ssts, front);
        assert(wanted =~= front.push(last));
        assert forall|x: usize| #[trigger] wanted.contains(x) <==> front.contains(x) || x
            == last by {
            if front.contains(x) {
                let i = choose|i: int| 0 <= i < front.len() && front[i] == x;
                assert(wanted[i] == x);
            }
            if x == last {
                assert(wanted[wanted.len() - 1] == x);
            }
        }
        let starts = before[last as int].filters is NotLoaded;
        assert(loads == if starts {
            old_loads.push(last)
        } else {
            old_loads
        });
        assert forall|s: int| 0 <= s < ssts.len() implies (#[trigger] loads.contains(s as usize)
            <==> ssts[s].filters is NotLoaded && wanted.contains(s as usize)) by {
            let x = s as usize;
            assert(old_loads.contains(x) <==> ssts[s].filters is NotLoaded && front.contains(x));
            if old_loads.contains(x) {
                let k = choose|k: int| 0 <= k < old_loads.len() && old_loads[k] == x;
                assert(loads[k] == x);
            }
            if x == last && starts {
                assert(loads[loads.len() - 1] == x);
            }
        }
    } else {
        assert forall|s: int| 0 <= s < ssts.len() implies (#[trigger] started_loads(
            ssts,
            wanted,
        ).contains(s as usize) <==> ssts[s].filters is NotLoaded && wanted.contains(
            s as usize,
        )) by {}
    }
}

/// A key that picks waits for the filters that it does not know, or it stands
/// in the queue of each SST that it reads, or it is done. A filter load begins
/// exactly when the key asks for it and nobody asked before. The other keys stay
/// as they are.
pub proof fn law_a_pick_waits_reads_or_ends<F: Filter>(
    batch: PipelineState<F>,
    u: int,
    s: int,
)
    requires
        batch.wf(),
        batch.can_pick(u),
        0 <= s < batch.ssts.len(),
    ensures
        ({
            let after = batch.schedule(u);
            let key = after.keys[u];
            &&& after.max_seq == batch.max_seq
            &&& after.lookahead == batch.lookahead
            &&& after.context == batch.context
            &&& forall|v: int|
                0 <= v < batch.keys.len() && v != u ==> #[trigger] after.keys[v] == batch.keys[v]
            &&& match batch.next_step(u) {
                PickView::Load(wanted) => {
                    &&& key.waiting == wanted.len()
                    &&& !key.done
                    &&& key.inflight.len() == 0
                    &&& key.rounds == batch.keys[u].rounds
                    &&& after.ready == batch.ready
                    &&& after.ssts[s].filters == if batch.ssts[s].filters is NotLoaded
                        && wanted.contains(s as usize) {
                        FiltersView::Loading
                    } else {
                        batch.ssts[s].filters
                    }
                    &&& after.loads.contains(s as usize) <==> batch.loads.contains(s as usize) || (
                    batch.ssts[s].filters is NotLoaded && wanted.contains(s as usize))
                },
                PickView::Read(sent) => {
                    &&& key.waiting == 0
                    &&& !key.done
                    &&& key.inflight.len() == sent.len()
                    &&& key.rounds == batch.keys[u].rounds + 1
                    &&& after.ready[s] == if sent.contains(s as usize) {
                        batch.ready[s].push(u as usize)
                    } else {
                        batch.ready[s]
                    }
                    &&& after.ssts[s].filters == batch.ssts[s].filters
                    &&& after.loads == batch.loads
                },
                PickView::Done => {
                    &&& key.done
                    &&& key.waiting == 0
                    &&& key.inflight.len() == 0
                    &&& key.rounds == batch.keys[u].rounds
                    &&& after.ready == batch.ready
                    &&& after.ssts[s].filters == batch.ssts[s].filters
                    &&& after.loads == batch.loads
                },
            }
        }),
{
    let key = batch.keys[u];
    let answers = batch.answers(u);
    let n = batch.ssts.len();
    let checked = checked_ssts(
        batch.ssts,
        key.reached(batch.lookahead, answers),
        key.key,
        batch.context,
    );
    assert(key_ok(key, n));
    lemma_pick_in_order(key, batch.lookahead, answers, n);
    lemma_schedule(batch, u, batch.keys.len() as int);
    assert(checked[s].filters == batch.ssts[s].filters);
    match batch.next_step(u) {
        PickView::Load(wanted) => {
            lemma_loads_begin(checked, wanted);
            let started = started_loads(checked, wanted);
            let loads = batch.loads + started;
            let x = s as usize;
            if batch.loads.contains(x) {
                let k = choose|k: int| 0 <= k < batch.loads.len() && batch.loads[k] == x;
                assert(loads[k] == x);
            }
            if started.contains(x) {
                let k = choose|k: int| 0 <= k < started.len() && started[k] == x;
                assert(loads[batch.loads.len() + k] == x);
            }
            if loads.contains(x) {
                let k = choose|k: int| 0 <= k < loads.len() && loads[k] == x;
                if k < batch.loads.len() {
                    assert(batch.loads[k] == x);
                } else {
                    assert(started[k - batch.loads.len()] == x);
                }
            }
            assert(wanted.len() <= key.candidates.len());
            lemma_candidates_fit(key.candidates, n);
        },
        PickView::Read(sent) => {
            lemma_queued(batch.ready, sent, u as usize, batch.keys.len());
        },
        PickView::Done => {},
    }
}

/// The batch keeps each SST with its index, and each filter that is loaded.
pub open spec fn keeps_what_is_known<F: Filter>(
    before: PipelineState<F>,
    after: PipelineState<F>,
) -> bool {
    &&& before.ssts.len() == after.ssts.len()
    &&& forall|s: int|
        0 <= s < before.ssts.len() ==> (#[trigger] after.ssts[s]).target == before.ssts[s].target
            && after.ssts[s].index == before.ssts[s].index && (before.ssts[s].filters is Loaded
            ==> after.ssts[s].filters == before.ssts[s].filters)
}

/// What is known twice is known.
proof fn lemma_chain_known<F: Filter>(
    a: PipelineState<F>,
    b: PipelineState<F>,
    c: PipelineState<F>,
)
    requires
        keeps_what_is_known(a, b),
        keeps_what_is_known(b, c),
    ensures
        keeps_what_is_known(a, c),
{
    assert forall|s: int| 0 <= s < a.ssts.len() implies (#[trigger] c.ssts[s]).target
        == a.ssts[s].target && c.ssts[s].index == a.ssts[s].index && (a.ssts[s].filters is Loaded
        ==> c.ssts[s].filters == a.ssts[s].filters) by {
        assert(b.ssts[s].target == a.ssts[s].target);
    }
}

/// A pick forgets nothing.
proof fn lemma_schedule_knows<F: Filter>(batch: PipelineState<F>, u: int, known: int)
    requires
        batch.wf_waking(known),
        batch.can_pick(u),
    ensures
        keeps_what_is_known(batch, batch.schedule(u)),
{
    let key = batch.keys[u];
    let answers = batch.answers(u);
    let n = batch.ssts.len();
    let checked = checked_ssts(
        batch.ssts,
        key.reached(batch.lookahead, answers),
        key.key,
        batch.context,
    );
    let after = batch.schedule(u);
    assert(key_ok(key, n));
    lemma_pick_in_order(key, batch.lookahead, answers, n);
    if let PickView::Load(wanted) = batch.next_step(u) {
        lemma_with_loads(checked, wanted);
    }
    assert forall|s: int| 0 <= s < n implies (#[trigger] after.ssts[s]).target
        == batch.ssts[s].target && after.ssts[s].index == batch.ssts[s].index && (
    batch.ssts[s].filters is Loaded ==> after.ssts[s].filters == batch.ssts[s].filters) by {
        assert(checked[s].target == batch.ssts[s].target && checked[s].index
            == batch.ssts[s].index && checked[s].filters == batch.ssts[s].filters);
        if let PickView::Load(wanted) = batch.next_step(u) {
            assert(with_loads(checked, wanted)[s] == (SstState {
                filters: with_loads(checked, wanted)[s].filters,
                ..checked[s]
            }));
        }
    }
}

/// An arrival forgets nothing.
proof fn lemma_arrive_knows<F: Filter>(
    batch: PipelineState<F>,
    sst: usize,
    us: Seq<usize>,
    entries: Map<usize, Seq<EntryView>>,
)
    requires
        batch.wf(),
        batch.all_busy(),
        forall|i: int| 0 <= i < us.len() ==> (#[trigger] us[i]) < batch.keys.len(),
    ensures
        keeps_what_is_known(batch, batch.arrive(sst, us, entries)),
    decreases us.len(),
{
    if us.len() > 0 {
        let u = us[0] as int;
        let found = if entries.contains_key(us[0]) {
            entries[us[0]]
        } else {
            Seq::empty()
        };
        let key = batch.keys[u].arrive(sst, found, batch.max_seq);
        let middle = PipelineState { keys: batch.keys.update(u, key), ..batch };
        let next = batch.arrive_one(sst, u, found);
        assert(keeps_what_is_known(batch, middle));
        lemma_arrive_middle(batch, sst, u, found);
        lemma_arrive_one(batch, sst, u, found);
        if !key.done && key.idle() {
            lemma_schedule_knows(middle, u, middle.keys.len() as int);
            lemma_chain_known(batch, middle, next);
        }
        assert forall|i: int| 0 <= i < us.skip(1).len() implies (#[trigger] us.skip(1)[i])
            < next.keys.len() by {
            assert(us[i + 1] < batch.keys.len());
        }
        lemma_arrive_knows(next, sst, us.skip(1), entries.remove(us[0]));
        lemma_chain_known(batch, next, batch.arrive(sst, us, entries));
    }
}

/// The wake-ups forget nothing.
proof fn lemma_woken_knows<F: Filter>(batch: PipelineState<F>, n: int)
    requires
        batch.wf_waking(0),
        batch.all_busy(),
        0 <= n <= batch.keys.len(),
    ensures
        keeps_what_is_known(batch, batch.woken(n)),
    decreases n,
{
    if n > 0 {
        let u = n - 1;
        let before = batch.woken(u);
        let next = before.wake(u);
        lemma_woken(batch, u);
        lemma_woken_knows(batch, u);
        if before.keys[u].waiting > 0 && !before.keys[u].done {
            let key = KeyState { waiting: 0, ..before.keys[u] };
            let middle = PipelineState { keys: before.keys.update(u, key), ..before };
            lemma_wake_middle(before, u, u);
            assert(keeps_what_is_known(before, middle));
            lemma_schedule_knows(middle, u, u);
            lemma_chain_known(before, middle, next);
            lemma_chain_known(batch, before, next);
        }
    }
}

/// The filters that come are the filters of their SST from then on, and no
/// other SST loses or changes a filter that it has. An index that comes with a
/// read is the index of its SST from then on, and a read with no index changes
/// none.
pub proof fn law_what_comes_is_kept<F: Filter>(batch: PipelineState<F>, event: Event<F>, s: int)
    requires
        batch.wf(),
        batch.all_busy(),
        0 <= s < batch.ssts.len(),
        match event {
            Event::Filters { sst, .. } => sst < batch.ssts.len(),
            Event::Read { sst, us, index, .. } => {
                &&& sst < batch.ssts.len()
                &&& forall|i: int| 0 <= i < us.len() ==> (#[trigger] us[i]) < batch.keys.len()
                &&& index matches Some(index) ==> index.wf()
            },
            Event::HandOut { sst } => sst < batch.ready.len(),
            Event::HandOutLoads => true,
        },
    ensures
        batch.after(event).ssts[s].target == batch.ssts[s].target,
        match event {
            Event::Filters { sst, filters } => {
                &&& s == sst ==> batch.after(event).ssts[s].filters == FiltersView::Loaded(filters)
                &&& s != sst && batch.ssts[s].filters is Loaded ==> batch.after(event).ssts[s].filters
                    == batch.ssts[s].filters
                &&& batch.after(event).ssts[s].index == batch.ssts[s].index
            },
            Event::Read { sst, index, .. } => {
                &&& batch.ssts[s].filters is Loaded ==> batch.after(event).ssts[s].filters
                    == batch.ssts[s].filters
                &&& batch.after(event).ssts[s].index == if s == sst && index is Some {
                    index
                } else {
                    batch.ssts[s].index
                }
            },
            Event::HandOut { sst } => {
                &&& batch.after(event).ssts == batch.ssts
                &&& batch.after(event).keys == batch.keys
                &&& batch.after(event).loads == batch.loads
                &&& s == sst ==> batch.after(event).ready[s].len() == 0
                &&& s != sst ==> batch.after(event).ready[s] == batch.ready[s]
            },
            Event::HandOutLoads => {
                &&& batch.after(event).ssts == batch.ssts
                &&& batch.after(event).keys == batch.keys
                &&& batch.after(event).ready == batch.ready
                &&& batch.after(event).loads.len() == 0
            },
        },
{
    match event {
        Event::Filters { sst, filters } => {
            let loaded = batch.with_filters(sst as int, filters);
            lemma_with_filters(batch, sst as int, filters);
            lemma_woken_knows(loaded, batch.keys.len() as int);
            assert(batch.after(event).ssts[s].target == loaded.ssts[s].target);
        },
        Event::Read { sst, us, entries, index } => {
            let indexed = batch.with_index(sst, index);
            lemma_with_index(batch, sst, index);
            lemma_arrive_knows(indexed, sst, us, entries);
            assert(batch.after(event).ssts[s].target == indexed.ssts[s].target);
        },
        _ => {},
    }
}

} // verus!
