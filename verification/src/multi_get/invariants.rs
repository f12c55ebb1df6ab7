//! Why the read phase stays in order.

use vstd::prelude::*;

use super::candidates::SstState;
use super::key::{
    candidates_within,
    checked_ssts,
    checks,
    filled,
    kept,
    lemma_checks_push,
    lemma_checks_split,
    lemma_kept_push,
    lemma_reach_bound,
    ready,
    room_for_checks,
    ssts_of,
    unknowns,
    Candidate,
    KeyState,
    PickView,
    Slot,
};
use super::outcome::{
    law_pick_checks_each_filter_one_time,
    lemma_ready_is_a_start,
    lemma_slot_of_finds,
};
use super::pipeline::{
    key_ok,
    pending_checks,
    queued,
    sst_ok,
    with_loads,
    PipelineState,
};
use crate::filter::{Filter, NamedFilter};
use crate::types::EntryView;

verus! {

/// Candidates in order, all of them SSTs of the batch.
pub open spec fn in_order(candidates: Seq<Candidate>, ssts: nat) -> bool {
    &&& candidates_within(candidates, ssts)
    &&& forall|i: int, j: int|
        0 <= i < j < candidates.len() ==> (#[trigger] candidates[i]).sst < (
        #[trigger] candidates[j]).sst
}

/// Numbers in order, all of them SSTs of the batch.
pub open spec fn ssts_in_order(list: Seq<usize>, ssts: nat) -> bool {
    &&& forall|i: int| 0 <= i < list.len() ==> (#[trigger] list[i]) < ssts
    &&& forall|i: int, j: int|
        0 <= i < j < list.len() ==> (#[trigger] list[i]) < (#[trigger] list[j])
}

// ---------------------------------------------------------------------------
// One key
// ---------------------------------------------------------------------------

/// A start of candidates in order is in order.
proof fn lemma_front_in_order(candidates: Seq<Candidate>, ssts: nat)
    requires
        candidates.len() > 0,
        in_order(candidates, ssts),
    ensures
        in_order(candidates.drop_last(), ssts),
        candidates.last().sst < ssts,
        candidates.len() > 1 ==> candidates.drop_last().last().sst < candidates.last().sst,
{
    let front = candidates.drop_last();
    assert(candidates[candidates.len() - 1].sst < ssts);
    assert forall|i: int| 0 <= i < front.len() implies (#[trigger] front[i]).sst < ssts by {
        assert(candidates[i].sst < ssts);
    }
    assert forall|i: int, j: int| 0 <= i < j < front.len() implies (#[trigger] front[i]).sst < (
    #[trigger] front[j]).sst by {
        assert(candidates[i].sst < candidates[j].sst);
    }
    if candidates.len() > 1 {
        assert(candidates[candidates.len() - 2].sst < candidates[candidates.len() - 1].sst);
    }
}

/// What a pick keeps, and what it wants to load, stays in order.
proof fn lemma_kept_in_order(
    candidates: Seq<Candidate>,
    answers: spec_fn(usize) -> Option<bool>,
    ssts: nat,
)
    requires
        in_order(candidates, ssts),
    ensures
        in_order(kept(candidates, answers), ssts),
        ssts_in_order(unknowns(candidates, answers), ssts),
        kept(candidates, answers).len() <= candidates.len(),
        unknowns(candidates, answers).len() <= candidates.len(),
        forall|i: int|
            0 <= i < kept(candidates, answers).len() ==> (#[trigger] kept(
                candidates,
                answers,
            )[i]).sst <= candidates.last().sst,
        forall|i: int|
            0 <= i < unknowns(candidates, answers).len() ==> (#[trigger] unknowns(
                candidates,
                answers,
            )[i]) <= candidates.last().sst,
        forall|i: int|
            0 <= i < unknowns(candidates, answers).len() ==> answers(
                #[trigger] unknowns(candidates, answers)[i],
            ) is None,
        forall|s: int| #[trigger]
            checks(kept(candidates, answers), s) <= checks(candidates, s),
    decreases candidates.len(),
{
    if candidates.len() == 0 {
        candidates.lemma_filter_len(|c: Candidate| !c.rejected(answers));
        candidates.lemma_filter_len(|c: Candidate| c.unknown(answers));
        assert(kept(candidates, answers) =~= candidates);
    } else {
        let front = candidates.drop_last();
        let last = candidates.last();
        lemma_front_in_order(candidates, ssts);
        lemma_kept_in_order(front, answers, ssts);
        assert(candidates =~= front.push(last));
        lemma_kept_push(front, last, answers);
        let before = kept(front, answers);
        let after = kept(candidates, answers);
        let old_unknown = unknowns(front, answers);
        let new_unknown = unknowns(candidates, answers);
        assert forall|i: int| 0 <= i < after.len() implies (#[trigger] after[i]).sst
            <= last.sst by {
            if i < before.len() {
                assert(after[i] == before[i]);
            }
        }
        assert forall|i: int| 0 <= i < new_unknown.len() implies (#[trigger] new_unknown[i])
            <= last.sst by {
            if i < old_unknown.len() {
                assert(new_unknown[i] == old_unknown[i]);
            }
        }
        assert forall|i: int, j: int| 0 <= i < j < after.len() implies (#[trigger] after[i]).sst < (
        #[trigger] after[j]).sst by {
            assert(after[i] == before[i]);
            if j < before.len() {
                assert(after[j] == before[j]);
            } else {
                assert(before[i].sst <= front.last().sst);
            }
        }
        assert forall|i: int, j: int| 0 <= i < j < new_unknown.len() implies (
        #[trigger] new_unknown[i]) < (#[trigger] new_unknown[j]) by {
            assert(new_unknown[i] == old_unknown[i]);
            if j < old_unknown.len() {
                assert(new_unknown[j] == old_unknown[j]);
            } else {
                assert(old_unknown[i] <= front.last().sst);
            }
        }
        assert forall|s: int| #[trigger] checks(after, s) <= checks(candidates, s) by {
            lemma_checks_push(front, last, s);
            lemma_checks_push(before, last.marked(answers), s);
            assert(checks(before, s) <= checks(front, s));
        }
    }
}

/// The parts of candidates in order are in order.
proof fn lemma_parts_in_order(candidates: Seq<Candidate>, at: int, ssts: nat)
    requires
        0 <= at <= candidates.len(),
        in_order(candidates, ssts),
    ensures
        in_order(candidates.take(at), ssts),
        in_order(candidates.skip(at), ssts),
{
    let a = candidates.take(at);
    let b = candidates.skip(at);
    assert forall|i: int| 0 <= i < a.len() implies (#[trigger] a[i]).sst < ssts by {
        assert(candidates[i].sst < ssts);
    }
    assert forall|i: int, j: int| 0 <= i < j < a.len() implies (#[trigger] a[i]).sst < (
    #[trigger] a[j]).sst by {
        assert(candidates[i].sst < candidates[j].sst);
    }
    assert forall|i: int| 0 <= i < b.len() implies (#[trigger] b[i]).sst < ssts by {
        assert(candidates[at + i].sst < ssts);
    }
    assert forall|i: int, j: int| 0 <= i < j < b.len() implies (#[trigger] b[i]).sst < (
    #[trigger] b[j]).sst by {
        assert(candidates[at + i].sst < candidates[at + j].sst);
    }
}

/// A pick keeps the candidates in order, and it takes one at least when it
/// reads.
pub proof fn lemma_pick_in_order(
    key: KeyState,
    lookahead: usize,
    answers: spec_fn(usize) -> Option<bool>,
    ssts: nat,
)
    requires
        in_order(key.candidates, ssts),
    ensures
        in_order(key.pick(lookahead, answers).candidates, ssts),
        key.pick(lookahead, answers).candidates.len() <= key.candidates.len(),
        forall|s: int| #[trigger]
            checks(key.pick(lookahead, answers).candidates, s) <= checks(key.candidates, s),
        match key.pick_step(lookahead, answers) {
            PickView::Load(wanted) => {
                &&& wanted.len() > 0
                &&& wanted.len() <= key.candidates.len()
                &&& ssts_in_order(wanted, ssts)
                &&& forall|i: int| 0 <= i < wanted.len() ==> answers(#[trigger] wanted[i]) is None
            },
            PickView::Read(sent) => {
                &&& sent.len() > 0
                &&& ssts_in_order(sent, ssts)
                &&& key.pick(lookahead, answers).candidates.len() < key.candidates.len()
            },
            PickView::Done => true,
        },
{
    let limit = key.pick_limit(lookahead);
    lemma_reach_bound(key.candidates, answers, limit);
    let reached = key.reached(lookahead, answers);
    let n = reached.len() as int;
    let rest = key.candidates.skip(n);
    let after = kept(reached, answers);
    lemma_parts_in_order(key.candidates, n, ssts);
    lemma_kept_in_order(reached, answers, ssts);
    let all = after + rest;
    assert forall|i: int, j: int| 0 <= i < j < all.len() implies (#[trigger] all[i]).sst < (
    #[trigger] all[j]).sst by {
        if j < after.len() {
            assert(after[i].sst < after[j].sst);
        } else if i >= after.len() {
            assert(rest[i - after.len()].sst < rest[j - after.len()].sst);
        } else {
            assert(after[i].sst <= reached.last().sst);
            assert(reached.last() == key.candidates[n - 1]);
            assert(rest[j - after.len()] == key.candidates[n + j - after.len()]);
            assert(key.candidates[n - 1].sst < key.candidates[n + j - after.len()].sst);
        }
    }
    assert forall|i: int| 0 <= i < all.len() implies (#[trigger] all[i]).sst < ssts by {
        if i < after.len() {
            assert(after[i].sst < ssts);
        } else {
            assert(rest[i - after.len()].sst < ssts);
        }
    }
    assert forall|s: int| #[trigger]
        checks(key.pick(lookahead, answers).candidates, s) <= checks(key.candidates, s) by {
        lemma_checks_split(key.candidates, n, s);
        lemma_checks_split(all, after.len() as int, s);
        assert(all.take(after.len() as int) =~= after);
        assert(all.skip(after.len() as int) =~= rest);
        assert(checks(after, s) <= checks(reached, s));
    }
    let sent = ssts_of(after);
    assert forall|i: int| 0 <= i < sent.len() implies (#[trigger] sent[i]) < ssts by {
        assert(after[i].sst < ssts);
    }
    assert forall|i: int, j: int| 0 <= i < j < sent.len() implies (#[trigger] sent[i]) < (
    #[trigger] sent[j]) by {
        assert(after[i].sst < after[j].sst);
    }
}

// ---------------------------------------------------------------------------
// Counts over the batch
// ---------------------------------------------------------------------------

/// How the pending checks of an SST change with one key.
proof fn lemma_pending_update(keys: Seq<KeyState>, u: int, key: KeyState, sst: int)
    requires
        0 <= u < keys.len(),
    ensures
        pending_checks(keys.update(u, key), sst) == pending_checks(keys, sst) - checks(
            keys[u].candidates,
            sst,
        ) + checks(key.candidates, sst),
        checks(keys[u].candidates, sst) <= pending_checks(keys, sst),
    decreases keys.len(),
{
    let front = keys.drop_last();
    let after = keys.update(u, key);
    if u == keys.len() - 1 {
        assert(after.drop_last() =~= front);
    } else {
        assert(after.drop_last() =~= front.update(u, key));
        lemma_pending_update(front, u, key, sst);
    }
}

// ---------------------------------------------------------------------------
// The queues
// ---------------------------------------------------------------------------

/// Key `u` goes to the queues of its SSTs, and to no other.
pub proof fn lemma_queued(ready: Seq<Seq<usize>>, picked: Seq<usize>, u: usize, keys: nat)
    requires
        u < keys,
        ssts_in_order(picked, ready.len()),
        forall|s: int, i: int|
            0 <= s < ready.len() && 0 <= i < ready[s].len() ==> (#[trigger] ready[s][i]) < keys,
    ensures
        queued(ready, picked, u).len() == ready.len(),
        forall|s: int, i: int|
            0 <= s < ready.len() && 0 <= i < queued(ready, picked, u)[s].len() ==> (
            #[trigger] queued(ready, picked, u)[s][i]) < keys,
        forall|s: int|
            0 <= s < ready.len() ==> #[trigger] queued(ready, picked, u)[s] == if picked.contains(
                s as usize,
            ) && s <= usize::MAX {
                ready[s].push(u)
            } else {
                ready[s]
            },
    decreases picked.len(),
{
    if picked.len() > 0 {
        let front = picked.drop_last();
        let last = picked.last();
        assert forall|i: int| 0 <= i < front.len() implies (#[trigger] front[i])
            < ready.len() by {
            assert(picked[i] < ready.len());
        }
        assert forall|i: int, j: int| 0 <= i < j < front.len() implies (#[trigger] front[i]) < (
        #[trigger] front[j]) by {
            assert(picked[i] < picked[j]);
        }
        lemma_queued(ready, front, u, keys);
        let before = queued(ready, front, u);
        let after = queued(ready, picked, u);
        assert(picked[picked.len() - 1] == last);
        assert(last < ready.len());
        assert(!front.contains(last)) by {
            if front.contains(last) {
                let i = choose|i: int| 0 <= i < front.len() && front[i] == last;
                assert(picked[i] < picked[picked.len() - 1]);
            }
        }
        assert(picked.contains(last));
        assert forall|s: int| 0 <= s < ready.len() implies #[trigger] after[s]
            == if picked.contains(s as usize) && s <= usize::MAX {
            ready[s].push(u)
        } else {
            ready[s]
        } by {
            assert(before[s] == if front.contains(s as usize) && s <= usize::MAX {
                ready[s].push(u)
            } else {
                ready[s]
            });
            if s != last as int && s <= usize::MAX {
                if front.contains(s as usize) {
                    let i = choose|i: int| 0 <= i < front.len() && front[i] == s as usize;
                    assert(picked[i] == s as usize);
                }
                if picked.contains(s as usize) {
                    let i = choose|i: int| 0 <= i < picked.len() && picked[i] == s as usize;
                    assert(front[i] == s as usize);
                }
            }
        }
        assert forall|s: int, i: int|
            0 <= s < ready.len() && 0 <= i < after[s].len() implies (#[trigger] after[s][i])
            < keys by {
            if i < before[s].len() {
                assert(before[s][i] < keys);
                assert(after[s][i] == before[s][i]);
            }
        }
    }
}

/// The SSTs that a key asks for are loaded, or on their way. A load that was
/// on its way stays so.
pub proof fn lemma_with_loads<F>(ssts: Seq<SstState<F>>, wanted: Seq<usize>)
    requires
        forall|i: int| 0 <= i < wanted.len() ==> (#[trigger] wanted[i]) < ssts.len(),
    ensures
        with_loads(ssts, wanted).len() == ssts.len(),
        forall|s: int|
            0 <= s < ssts.len() ==> {
                let after = #[trigger] with_loads(ssts, wanted)[s];
                &&& after == (SstState { filters: after.filters, ..ssts[s] })
                &&& after.filters == ssts[s].filters || (ssts[s].filters is NotLoaded
                    && after.filters is Loading)
            },
        forall|i: int|
            0 <= i < wanted.len() ==> !(with_loads(
                ssts,
                wanted,
            )[#[trigger] wanted[i] as int].filters is NotLoaded),
    decreases wanted.len(),
{
    if wanted.len() > 0 {
        let front = wanted.drop_last();
        let before = with_loads(ssts, front);
        let after = with_loads(ssts, wanted);
        assert forall|i: int| 0 <= i < front.len() implies (#[trigger] front[i]) < ssts.len() by {
            assert(wanted[i] < ssts.len());
        }
        lemma_with_loads(ssts, front);
        assert(wanted[wanted.len() - 1] < ssts.len());
        assert forall|s: int| 0 <= s < ssts.len() implies {
            let now = #[trigger] after[s];
            &&& now == (SstState { filters: now.filters, ..ssts[s] })
            &&& now.filters == ssts[s].filters || (ssts[s].filters is NotLoaded && now.filters
                is Loading)
        } by {
            assert(before[s] == (SstState { filters: before[s].filters, ..ssts[s] }));
        }
        assert forall|i: int| 0 <= i < wanted.len() implies !(after[
        #[trigger] wanted[i] as int].filters is NotLoaded) by {
            if i < front.len() {
                assert(front[i] == wanted[i]);
                assert(!(before[front[i] as int].filters is NotLoaded));
            }
        }
    }
}

/// What a pick wants to load stays a candidate.
proof fn lemma_unknown_is_kept(
    candidates: Seq<Candidate>,
    answers: spec_fn(usize) -> Option<bool>,
)
    ensures
        forall|i: int|
            0 <= i < unknowns(candidates, answers).len() ==> ssts_of(
                kept(candidates, answers),
            ).contains(#[trigger] unknowns(candidates, answers)[i]),
    decreases candidates.len(),
{
    if candidates.len() == 0 {
        candidates.lemma_filter_len(|c: Candidate| c.unknown(answers));
    } else {
        let front = candidates.drop_last();
        let last = candidates.last();
        assert(candidates =~= front.push(last));
        lemma_kept_push(front, last, answers);
        lemma_unknown_is_kept(front, answers);
        let before = kept(front, answers);
        let after = kept(candidates, answers);
        let wanted = unknowns(candidates, answers);
        assert forall|i: int| 0 <= i < wanted.len() implies ssts_of(after).contains(
            #[trigger] wanted[i],
        ) by {
            if i < unknowns(front, answers).len() {
                assert(wanted[i] == unknowns(front, answers)[i]);
                assert(ssts_of(before).contains(wanted[i]));
                let j = choose|j: int|
                    0 <= j < ssts_of(before).len() && ssts_of(before)[j] == wanted[i];
                assert(after[j] == before[j]);
                assert(ssts_of(after)[j] == wanted[i]);
            } else {
                assert(ssts_of(after)[after.len() - 1] == wanted[i]);
            }
        }
    }
}

// ---------------------------------------------------------------------------
// The steps
// ---------------------------------------------------------------------------

/// A key of a batch in order has room for its next pick.
pub proof fn lemma_room_for_pick<F: Filter>(batch: PipelineState<F>, u: int, known: int)
    requires
        batch.wf_waking(known),
        0 <= u < batch.keys.len(),
    ensures
        in_order(batch.keys[u].candidates, batch.ssts.len()),
        room_for_checks(batch.keys[u].candidates, batch.ssts),
{
    assert(key_ok(batch.keys[u], batch.ssts.len()));
    assert forall|s: int| 0 <= s < batch.ssts.len() implies (#[trigger] batch.ssts[s]).probes
        + checks(batch.keys[u].candidates, s) <= u64::MAX && batch.ssts[s].positives
        <= batch.ssts[s].probes by {
        lemma_pending_update(batch.keys, u, batch.keys[u], s);
        assert(sst_ok(batch.ssts[s], pending_checks(batch.keys, s)));
    }
}

/// The checks of a pick take their room, and nobody starts or ends to wait.
proof fn lemma_checked_ssts<F: Filter>(batch: PipelineState<F>, u: int, known: int)
    requires
        batch.wf_waking(known),
        0 <= u < batch.keys.len(),
    ensures
        ({
            let key = batch.keys[u];
            let answers = batch.answers(u);
            let picked = key.pick(batch.lookahead, answers);
            let after = checked_ssts(
                batch.ssts,
                key.reached(batch.lookahead, answers),
                key.key,
                batch.context,
            );
            &&& after.len() == batch.ssts.len()
            &&& forall|s: int|
                0 <= s < after.len() ==> (#[trigger] after[s]).filters == batch.ssts[s].filters
                    && after[s].index == batch.ssts[s].index && after[s].target
                    == batch.ssts[s].target
            &&& forall|s: int, keys: Seq<KeyState>|
                #![trigger pending_checks(keys, s), after[s]]
                0 <= s < after.len() && keys.len() == batch.keys.len() && pending_checks(keys, s)
                    == pending_checks(batch.keys, s) - checks(key.candidates, s) + checks(
                    picked.candidates,
                    s,
                ) ==> sst_ok(after[s], pending_checks(keys, s))
        }),
{
    let key = batch.keys[u];
    let answers = batch.answers(u);
    let picked = key.pick(batch.lookahead, answers);
    let reached = key.reached(batch.lookahead, answers);
    let after = checked_ssts(batch.ssts, reached, key.key, batch.context);
    lemma_room_for_pick(batch, u, known);
    lemma_pick_in_order(key, batch.lookahead, answers, batch.ssts.len());
    let limit = key.pick_limit(batch.lookahead);
    lemma_reach_bound(key.candidates, answers, limit);
    assert forall|s: int, keys: Seq<KeyState>|
        #![trigger pending_checks(keys, s), after[s]]
        0 <= s < after.len() && keys.len() == batch.keys.len() && pending_checks(keys, s)
            == pending_checks(batch.keys, s) - checks(key.candidates, s) + checks(
            picked.candidates,
            s,
        ) implies sst_ok(after[s], pending_checks(keys, s)) by {
        let sst = batch.ssts[s];
        assert(sst_ok(sst, pending_checks(batch.keys, s)));
        assert(checks(picked.candidates, s) <= checks(key.candidates, s));
        lemma_checks_split(key.candidates, reached.len() as int, s);
        lemma_pending_update(batch.keys, u, key, s);
        if sst.filtered() {
            if s <= usize::MAX {
                assert(answers(s as usize) is Some);
                law_pick_checks_each_filter_one_time(key, batch.lookahead, answers, s as usize);
            } else {
                lemma_no_such_checks(key.candidates, batch.ssts.len(), s);
            }
        }
    }
}

/// No candidate has a number past the end of the numbers.
proof fn lemma_no_such_checks(candidates: Seq<Candidate>, ssts: nat, s: int)
    requires
        s > usize::MAX,
    ensures
        checks(candidates, s) == 0,
    decreases candidates.len(),
{
    if candidates.len() > 0 {
        let front = candidates.drop_last();
        lemma_no_such_checks(front, ssts, s);
        assert(candidates =~= front.push(candidates.last()));
        lemma_checks_push(front, candidates.last(), s);
    } else {
        candidates.lemma_filter_len(|c: Candidate| !c.passed && c.sst == s);
    }
}

/// The next pick of a key keeps the batch in order, and the key is done or
/// waits for something.
pub proof fn lemma_schedule<F: Filter>(batch: PipelineState<F>, u: int, known: int)
    requires
        batch.wf_waking(known),
        batch.can_pick(u),
    ensures
        batch.schedule(u).wf_waking(known),
        batch.schedule(u).keys[u].waiting > 0 ==> batch.schedule(u).expects_filters(u),
        batch.schedule(u).busy(u),
        batch.schedule(u).keys.len() == batch.keys.len(),
        batch.schedule(u).ssts.len() == batch.ssts.len(),
        forall|v: int|
            0 <= v < batch.keys.len() && v != u ==> #[trigger] batch.schedule(u).keys[v]
                == batch.keys[v],
{
    let key = batch.keys[u];
    let answers = batch.answers(u);
    let picked = key.pick(batch.lookahead, answers);
    let n = batch.ssts.len();
    let checked = checked_ssts(
        batch.ssts,
        key.reached(batch.lookahead, answers),
        key.key,
        batch.context,
    );
    let after = batch.schedule(u);
    lemma_room_for_pick(batch, u, known);
    lemma_pick_in_order(key, batch.lookahead, answers, n);
    lemma_checked_ssts(batch, u, known);
    assert(key_ok(key, n));
    assert(key.waiting == 0 && key.inflight.len() == 0);
    assert forall|s: int| #[trigger]
        pending_checks(after.keys, s) == pending_checks(batch.keys, s) - checks(key.candidates, s)
            + checks(picked.candidates, s) by {
        lemma_pending_update(batch.keys, u, after.keys[u], s);
    }
    match batch.next_step(u) {
        PickView::Load(wanted) => {
            assert forall|i: int| 0 <= i < wanted.len() implies !(checked[
            #[trigger] wanted[i] as int].filters is Loaded) by {
                assert(answers(wanted[i]) is None);
            }
            lemma_with_loads(checked, wanted);
            lemma_wanted_fits(wanted, n);
            assert(after.keys[u].waiting == wanted.len());
            assert forall|s: int| 0 <= s < after.ssts.len() implies sst_ok(
                #[trigger] after.ssts[s],
                pending_checks(after.keys, s),
            ) by {
                assert(sst_ok(checked[s], pending_checks(after.keys, s)));
                assert(after.ssts[s] == with_loads(checked, wanted)[s]);
            }
            let reached = key.reached(batch.lookahead, answers);
            lemma_unknown_is_kept(reached, answers);
            let stays = kept(reached, answers);
            assert(ssts_of(stays).contains(wanted[0]));
            let j = choose|j: int| 0 <= j < ssts_of(stays).len() && ssts_of(stays)[j] == wanted[0];
            assert(after.keys[u].candidates[j] == stays[j]);
            assert(after.ssts[after.keys[u].candidates[j].sst as int].filters is Loading);
            assert(after.expects_filters(u));
        },
        PickView::Read(sent) => {
            lemma_queued(batch.ready, sent, u as usize, batch.keys.len());
            let read = after.keys[u];
            assert(read.inflight.len() == sent.len());
            assert forall|i: int| 0 <= i < read.inflight.len() implies (
            #[trigger] read.inflight[i]).sst < n by {
                assert(sent[i] < n);
            }
            assert forall|i: int, j: int| 0 <= i < j < read.inflight.len() implies (
            #[trigger] read.inflight[i]).sst < (#[trigger] read.inflight[j]).sst by {
                assert(sent[i] < sent[j]);
            }
            assert(key_ok(read, n));
            assert forall|s: int| 0 <= s < after.ssts.len() implies sst_ok(
                #[trigger] after.ssts[s],
                pending_checks(after.keys, s),
            ) by {
                assert(sst_ok(checked[s], pending_checks(after.keys, s)));
            }
        },
        PickView::Done => {
            assert forall|s: int| 0 <= s < after.ssts.len() implies sst_ok(
                #[trigger] after.ssts[s],
                pending_checks(after.keys, s),
            ) by {
                assert(sst_ok(checked[s], pending_checks(after.keys, s)));
            }
        },
    }
    assert forall|v: int| 0 <= v < batch.keys.len() && v != u && batch.expects_filters(
        v,
    ) implies #[trigger] after.expects_filters(v) by {
        assert(key_ok(batch.keys[v], n));
        let i = choose|i: int|
            0 <= i < batch.keys[v].candidates.len() && batch.ssts[(
            #[trigger] batch.keys[v].candidates[i]).sst as int].filters is Loading;
        let at = batch.keys[v].candidates[i].sst as int;
        assert(checked[at].filters is Loading);
        assert(after.ssts[at].filters is Loading);
        assert(after.keys[v].candidates[i].sst as int == at);
    }
}

/// Numbers that ascend are no more than there are.
proof fn lemma_wanted_fits(wanted: Seq<usize>, ssts: nat)
    requires
        ssts_in_order(wanted, ssts),
        ssts <= usize::MAX,
    ensures
        wanted.len() <= usize::MAX,
        wanted.len() > 0 ==> wanted.len() - 1 <= wanted.last(),
    decreases wanted.len(),
{
    if wanted.len() > 1 {
        let front = wanted.drop_last();
        assert forall|i: int| 0 <= i < front.len() implies (#[trigger] front[i]) < ssts by {
            assert(wanted[i] < ssts);
        }
        assert forall|i: int, j: int| 0 <= i < j < front.len() implies (#[trigger] front[i]) < (
        #[trigger] front[j]) by {
            assert(wanted[i] < wanted[j]);
        }
        lemma_wanted_fits(front, ssts);
        assert(wanted[wanted.len() - 2] < wanted[wanted.len() - 1]);
    }
    if wanted.len() > 0 {
        assert(wanted[wanted.len() - 1] < ssts);
    }
}

/// A key that changes and keeps its candidates and its waits keeps the batch
/// in order.
proof fn lemma_change_key<F: Filter>(
    batch: PipelineState<F>,
    u: int,
    key: KeyState,
    known: int,
)
    requires
        batch.wf_waking(known),
        0 <= u < batch.keys.len(),
        key.candidates == batch.keys[u].candidates,
        key.waiting <= batch.keys[u].waiting,
        key_ok(key, batch.ssts.len()),
    ensures
        (PipelineState { keys: batch.keys.update(u, key), ..batch }).wf_waking(known),
{
    let after = PipelineState { keys: batch.keys.update(u, key), ..batch };
    assert forall|s: int| 0 <= s < after.ssts.len() implies sst_ok(
        #[trigger] after.ssts[s],
        pending_checks(after.keys, s),
    ) by {
        lemma_pending_update(batch.keys, u, key, s);
        assert(sst_ok(batch.ssts[s], pending_checks(batch.keys, s)));
    }
    assert forall|v: int|
        0 <= v < known && v < after.keys.len() && (
        #[trigger] after.keys[v]).waiting > 0 implies after.expects_filters(v) by {
        assert(batch.keys[v].waiting > 0);
        assert(batch.expects_filters(v));
        let i = choose|i: int|
            0 <= i < batch.keys[v].candidates.len() && batch.ssts[(
            #[trigger] batch.keys[v].candidates[i]).sst as int].filters is Loading;
        assert(after.keys[v].candidates[i] == batch.keys[v].candidates[i]);
    }
}

/// An arrival keeps a key in order.
proof fn lemma_arrive_key(
    key: KeyState,
    sst: usize,
    entries: Seq<EntryView>,
    max_seq: Option<u64>,
    ssts: nat,
)
    requires
        key_ok(key, ssts),
    ensures
        key_ok(key.arrive(sst, entries, max_seq), ssts),
        key.arrive(sst, entries, max_seq).candidates == key.candidates,
        key.arrive(sst, entries, max_seq).waiting == key.waiting,
{
    let slots = filled(key.inflight, sst, entries);
    let n = ready(slots) as int;
    let after = key.arrive(sst, entries, max_seq);
    lemma_slot_of_finds(key.inflight, sst);
    lemma_ready_is_a_start(slots);
    assert forall|i: int| 0 <= i < slots.len() implies (#[trigger] slots[i]).sst
        == key.inflight[i].sst by {}
    if key.inflight.len() == 0 {
        assert(slots.take(n) =~= Seq::<Slot>::empty());
    }
    assert forall|i: int| 0 <= i < after.inflight.len() implies (#[trigger] after.inflight[i]).sst
        < ssts by {
        assert(after.inflight[i] == slots[n + i]);
        assert(key.inflight[n + i].sst < ssts);
    }
    assert forall|i: int, j: int| 0 <= i < j < after.inflight.len() implies (
    #[trigger] after.inflight[i]).sst < (#[trigger] after.inflight[j]).sst by {
        assert(after.inflight[i] == slots[n + i]);
        assert(after.inflight[j] == slots[n + j]);
        assert(key.inflight[n + i].sst < key.inflight[n + j].sst);
    }
}

/// The batch is in order between the arrival of a key and its next pick.
pub proof fn lemma_arrive_middle<F: Filter>(
    batch: PipelineState<F>,
    sst: usize,
    u: int,
    entries: Seq<EntryView>,
)
    requires
        batch.wf(),
        0 <= u < batch.keys.len(),
    ensures
        (PipelineState {
            keys: batch.keys.update(u, batch.keys[u].arrive(sst, entries, batch.max_seq)),
            ..batch
        }).wf(),
{
    let key = batch.keys[u].arrive(sst, entries, batch.max_seq);
    assert(key_ok(batch.keys[u], batch.ssts.len()));
    lemma_arrive_key(batch.keys[u], sst, entries, batch.max_seq, batch.ssts.len());
    lemma_change_key(batch, u, key, batch.keys.len() as int);
}

/// An arrival for one key keeps the batch in order.
pub proof fn lemma_arrive_one<F: Filter>(
    batch: PipelineState<F>,
    sst: usize,
    u: int,
    entries: Seq<EntryView>,
)
    requires
        batch.wf(),
        batch.all_busy(),
        0 <= u < batch.keys.len(),
    ensures
        batch.arrive_one(sst, u, entries).wf(),
        batch.arrive_one(sst, u, entries).all_busy(),
        batch.arrive_one(sst, u, entries).keys.len() == batch.keys.len(),
        batch.arrive_one(sst, u, entries).ssts.len() == batch.ssts.len(),
{
    let key = batch.keys[u].arrive(sst, entries, batch.max_seq);
    let middle = PipelineState { keys: batch.keys.update(u, key), ..batch };
    let after = batch.arrive_one(sst, u, entries);
    lemma_arrive_middle(batch, sst, u, entries);
    if !key.done && key.idle() {
        lemma_schedule(middle, u, batch.keys.len() as int);
    }
    assert forall|v: int| 0 <= v < after.keys.len() implies #[trigger] after.busy(v) by {
        if v != u {
            assert(batch.busy(v));
            assert(after.keys[v] == batch.keys[v]);
        }
    }
}

/// The arrival of a read keeps the batch in order.
pub proof fn lemma_arrive<F: Filter>(
    batch: PipelineState<F>,
    sst: usize,
    us: Seq<usize>,
    entries: Map<usize, Seq<EntryView>>,
)
    requires
        batch.wf(),
        batch.all_busy(),
        forall|i: int| 0 <= i < us.len() ==> (#[trigger] us[i]) < batch.keys.len(),
    ensures
        batch.arrive(sst, us, entries).wf(),
        batch.arrive(sst, us, entries).all_busy(),
        batch.arrive(sst, us, entries).keys.len() == batch.keys.len(),
        batch.arrive(sst, us, entries).ssts.len() == batch.ssts.len(),
    decreases us.len(),
{
    if us.len() > 0 {
        let u = us[0];
        let found = if entries.contains_key(u) {
            entries[u]
        } else {
            Seq::empty()
        };
        lemma_arrive_one(batch, sst, u as int, found);
        let next = batch.arrive_one(sst, u as int, found);
        assert forall|i: int| 0 <= i < us.skip(1).len() implies (#[trigger] us.skip(1)[i])
            < next.keys.len() by {
            assert(us[i + 1] < batch.keys.len());
        }
        lemma_arrive(next, sst, us.skip(1), entries.remove(u));
    }
}

/// The batch is in order between the wake-up of a key and its pick.
pub proof fn lemma_wake_middle<F: Filter>(batch: PipelineState<F>, u: int, known: int)
    requires
        batch.wf_waking(known),
        0 <= u < batch.keys.len(),
    ensures
        (PipelineState {
            keys: batch.keys.update(u, KeyState { waiting: 0, ..batch.keys[u] }),
            ..batch
        }).wf_waking(known),
        batch.keys[u].waiting > 0 ==> batch.keys[u].inflight.len() == 0,
{
    assert(key_ok(batch.keys[u], batch.ssts.len()));
    lemma_change_key(batch, u, KeyState { waiting: 0, ..batch.keys[u] }, known);
}

/// A wake-up of the next key keeps the batch in order.
pub proof fn lemma_wake<F: Filter>(batch: PipelineState<F>, u: int)
    requires
        batch.wf_waking(u),
        batch.all_busy(),
        0 <= u < batch.keys.len(),
    ensures
        batch.wake(u).wf_waking(u + 1),
        batch.wake(u).all_busy(),
        batch.wake(u).keys.len() == batch.keys.len(),
        batch.wake(u).ssts.len() == batch.ssts.len(),
{
    let key = KeyState { waiting: 0, ..batch.keys[u] };
    let middle = PipelineState { keys: batch.keys.update(u, key), ..batch };
    let after = batch.wake(u);
    assert(key_ok(batch.keys[u], batch.ssts.len()));
    if batch.keys[u].waiting > 0 && !batch.keys[u].done {
        lemma_wake_middle(batch, u, u);
        lemma_schedule(middle, u, u);
    }
    assert forall|v: int| 0 <= v < after.keys.len() implies #[trigger] after.busy(v) by {
        if v != u {
            assert(batch.busy(v));
            assert(after.keys[v] == batch.keys[v]);
        } else {
            assert(batch.busy(u));
        }
    }
}

/// The wake-ups of the first keys keep the batch in order.
pub proof fn lemma_woken<F: Filter>(batch: PipelineState<F>, n: int)
    requires
        batch.wf_waking(0),
        batch.all_busy(),
        0 <= n <= batch.keys.len(),
    ensures
        batch.woken(n).wf_waking(n),
        batch.woken(n).all_busy(),
        batch.woken(n).keys.len() == batch.keys.len(),
        batch.woken(n).ssts.len() == batch.ssts.len(),
    decreases n,
{
    if n > 0 {
        lemma_woken(batch, n - 1);
        lemma_wake(batch.woken(n - 1), n - 1);
    }
}

/// The filters of an SST end the wait for them: each key can pick again.
pub proof fn lemma_with_filters<F: Filter>(
    batch: PipelineState<F>,
    sst: int,
    filters: Seq<NamedFilter<F>>,
)
    requires
        batch.wf(),
        batch.all_busy(),
        0 <= sst < batch.ssts.len(),
    ensures
        batch.with_filters(sst, filters).wf_waking(0),
        batch.with_filters(sst, filters).all_busy(),
{
    let after = batch.with_filters(sst, filters);
    assert(sst_ok(batch.ssts[sst], pending_checks(batch.keys, sst)));
    assert forall|s: int| 0 <= s < after.ssts.len() implies sst_ok(
        #[trigger] after.ssts[s],
        pending_checks(after.keys, s),
    ) by {
        assert(sst_ok(batch.ssts[s], pending_checks(batch.keys, s)));
    }
    assert forall|u: int| 0 <= u < after.keys.len() implies key_ok(
        #[trigger] after.keys[u],
        after.ssts.len(),
    ) by {
        assert(key_ok(batch.keys[u], batch.ssts.len()));
    }
    assert forall|v: int| 0 <= v < after.keys.len() implies #[trigger] after.busy(v) by {
        assert(batch.busy(v));
    }
}

/// The first picks keep the batch in order.
pub proof fn lemma_started<F: Filter>(batch: PipelineState<F>, n: int)
    requires
        batch.wf(),
        0 <= n <= batch.keys.len(),
        forall|u: int| 0 <= u < batch.keys.len() ==> (#[trigger] batch.keys[u]).idle(),
    ensures
        batch.started(n).wf(),
        batch.started(n).keys.len() == batch.keys.len(),
        batch.started(n).ssts.len() == batch.ssts.len(),
        forall|u: int| 0 <= u < n ==> #[trigger] batch.started(n).busy(u),
        forall|u: int|
            n <= u < batch.keys.len() ==> #[trigger] batch.started(n).keys[u] == batch.keys[u],
    decreases n,
{
    if n > 0 {
        lemma_started(batch, n - 1);
        let before = batch.started(n - 1);
        let after = batch.started(n);
        assert(before.keys[n - 1] == batch.keys[n - 1]);
        if !before.keys[n - 1].done {
            lemma_schedule(before, n - 1, batch.keys.len() as int);
        }
        assert forall|u: int| 0 <= u < n implies #[trigger] after.busy(u) by {
            if u < n - 1 {
                assert(before.busy(u));
                assert(after.keys[u] == before.keys[u]);
            }
        }
        assert forall|u: int| n <= u < batch.keys.len() implies #[trigger] after.keys[u]
            == batch.keys[u] by {
            assert(before.keys[u] == batch.keys[u]);
            assert(after.keys[u] == before.keys[u]);
        }
    }
}

/// The index of a read keeps the batch in order.
pub proof fn lemma_with_index<F: Filter>(
    batch: PipelineState<F>,
    sst: usize,
    index: Option<std::sync::Arc<crate::sstable::SsTableIndex>>,
)
    requires
        batch.wf(),
        batch.all_busy(),
        sst < batch.ssts.len(),
        index matches Some(index) ==> index.wf(),
    ensures
        batch.with_index(sst, index).wf(),
        batch.with_index(sst, index).all_busy(),
{
    let after = batch.with_index(sst, index);
    if index is Some {
        let at = sst as int;
        assert forall|s: int| 0 <= s < after.ssts.len() implies sst_ok(
            #[trigger] after.ssts[s],
            pending_checks(after.keys, s),
        ) by {
            assert(sst_ok(batch.ssts[s], pending_checks(batch.keys, s)));
        }
        assert forall|v: int|
            0 <= v < after.keys.len() && (
            #[trigger] after.keys[v]).waiting > 0 implies after.expects_filters(v) by {
            assert(batch.keys[v].waiting > 0);
            assert(batch.expects_filters(v));
            assert(key_ok(batch.keys[v], batch.ssts.len()));
            let i = choose|i: int|
                0 <= i < batch.keys[v].candidates.len() && batch.ssts[(
                #[trigger] batch.keys[v].candidates[i]).sst as int].filters is Loading;
            let t = batch.keys[v].candidates[i].sst as int;
            assert(after.ssts[t].filters == batch.ssts[t].filters);
            assert(after.keys[v].candidates[i].sst as int == t);
        }
        assert forall|u: int| 0 <= u < after.keys.len() implies key_ok(
            #[trigger] after.keys[u],
            after.ssts.len(),
        ) by {
            assert(key_ok(batch.keys[u], batch.ssts.len()));
        }
        assert forall|v: int| 0 <= v < after.keys.len() implies #[trigger] after.busy(v) by {
            assert(batch.busy(v));
        }
    }
}

/// A queue that was handed out keeps the batch in order.
pub proof fn lemma_less_ready<F: Filter>(batch: PipelineState<F>, sst: int)
    requires
        batch.wf(),
        0 <= sst < batch.ready.len(),
    ensures
        (PipelineState { ready: batch.ready.update(sst, Seq::empty()), ..batch }).wf(),
{
    let after = PipelineState { ready: batch.ready.update(sst, Seq::empty()), ..batch };
    assert forall|s: int, i: int|
        0 <= s < after.ready.len() && 0 <= i < after.ready[s].len() implies (
    #[trigger] after.ready[s][i]) < after.keys.len() by {
        assert(batch.ready[s][i] < batch.keys.len());
    }
}

/// Candidates in order are no more than there are SSTs.
pub proof fn lemma_candidates_fit(candidates: Seq<Candidate>, ssts: nat)
    requires
        in_order(candidates, ssts),
    ensures
        candidates.len() <= ssts,
        candidates.len() > 0 ==> candidates.len() - 1 <= candidates.last().sst,
    decreases candidates.len(),
{
    if candidates.len() > 0 {
        lemma_front_in_order(candidates, ssts);
        lemma_candidates_fit(candidates.drop_last(), ssts);
    }
}

/// Candidates in order ask each SST at most one time.
proof fn lemma_one_check(candidates: Seq<Candidate>, ssts: nat, s: int)
    requires
        in_order(candidates, ssts),
    ensures
        checks(candidates, s) <= 1,
        candidates.len() > 0 && candidates.last().sst < s ==> checks(candidates, s) == 0,
    decreases candidates.len(),
{
    if candidates.len() > 0 {
        let front = candidates.drop_last();
        lemma_front_in_order(candidates, ssts);
        lemma_one_check(front, ssts, s);
        assert(candidates =~= front.push(candidates.last()));
        lemma_checks_push(front, candidates.last(), s);
        if front.len() == 0 {
            front.lemma_filter_len(|c: Candidate| !c.passed && c.sst == s);
        }
    } else {
        candidates.lemma_filter_len(|c: Candidate| !c.passed && c.sst == s);
    }
}

/// The keys ask an SST at most one time each.
pub proof fn lemma_pending_bound(keys: Seq<KeyState>, ssts: nat, s: int)
    requires
        forall|u: int| 0 <= u < keys.len() ==> in_order((#[trigger] keys[u]).candidates, ssts),
    ensures
        pending_checks(keys, s) <= keys.len(),
    decreases keys.len(),
{
    if keys.len() > 0 {
        let front = keys.drop_last();
        assert forall|u: int| 0 <= u < front.len() implies in_order(
            (#[trigger] front[u]).candidates,
            ssts,
        ) by {
            assert(in_order(keys[u].candidates, ssts));
        }
        lemma_pending_bound(front, ssts, s);
        lemma_one_check(keys[keys.len() - 1].candidates, ssts, s);
    }
}

} // verus!
