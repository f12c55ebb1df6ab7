//! What the reads of a key come to.
//!
//! A point read of one key walks the SSTs that can hold it, newest first, and
//! stops at the first base value. The batch reads the same SSTs in another
//! order: it asks filters first, it reads several SSTs at once, and the reads
//! return as they like. The laws of this module say that no step of a key
//! changes what the key comes to.

use vstd::prelude::*;

use super::key::{
    checks,
    filled,
    joined,
    kept,
    lemma_checks_bound,
    lemma_checks_push,
    lemma_checks_split,
    lemma_kept_push,
    lemma_reach_bound,
    lemma_ready,
    lemma_slot_of,
    reach,
    ready,
    slot_of,
    ssts_of,
    unknowns,
    Candidate,
    KeyState,
    PickView,
    Slot,
};
use super::walk::{has_base, law_walk_over_two_layers, taken, visible};
use crate::types::EntryView;

verus! {

/// The versions of a key in a list of SSTs, one SST after the other.
/// `versions` gives the versions that each SST holds, newest first.
pub open spec fn held(ssts: Seq<usize>, versions: spec_fn(usize) -> Seq<EntryView>) -> Seq<
    EntryView,
>
    decreases ssts.len(),
{
    if ssts.len() == 0 {
        Seq::empty()
    } else {
        held(ssts.drop_last(), versions) + versions(ssts.last())
    }
}

/// The SSTs of the current read of a key.
pub open spec fn slot_ssts(slots: Seq<Slot>) -> Seq<usize> {
    slots.map_values(|slot: Slot| slot.sst)
}

/// Each slot that has entries has those of its SST.
pub open spec fn faithful(slots: Seq<Slot>, versions: spec_fn(usize) -> Seq<EntryView>) -> bool {
    forall|i: int|
        0 <= i < slots.len() ==> ((#[trigger] slots[i]).entries matches Some(entries) ==> entries
            == versions(slots[i].sst))
}

/// A filter that rejects the key tells the truth: its SST has no version of
/// the key.
pub open spec fn honest(
    answers: spec_fn(usize) -> Option<bool>,
    versions: spec_fn(usize) -> Seq<EntryView>,
) -> bool {
    forall|sst: usize|
        (#[trigger] answers(sst)) == Some(false) ==> versions(sst) == Seq::<EntryView>::empty()
}

impl KeyState {
    /// The SSTs that the key still looks at: those of its current read, then
    /// its candidates.
    pub open spec fn open_ssts(self) -> Seq<usize> {
        slot_ssts(self.inflight) + ssts_of(self.candidates)
    }

    /// What the key comes to: the entries that it has, and, when it is open,
    /// what a walk over its SSTs adds to them.
    pub open spec fn outcome(
        self,
        versions: spec_fn(usize) -> Seq<EntryView>,
        max_seq: Option<u64>,
    ) -> Seq<EntryView> {
        if self.done {
            self.acc
        } else {
            self.acc + taken(held(self.open_ssts(), versions), max_seq)
        }
    }
}

// ---------------------------------------------------------------------------
// Facts about `held`
// ---------------------------------------------------------------------------

/// The versions in two lists of SSTs are those of the first, then those of
/// the second.
pub proof fn lemma_held_add(
    a: Seq<usize>,
    b: Seq<usize>,
    versions: spec_fn(usize) -> Seq<EntryView>,
)
    ensures
        held(a + b, versions) == held(a, versions) + held(b, versions),
    decreases b.len(),
{
    if b.len() == 0 {
        assert(a + b =~= a);
        assert(held(a, versions) + held(b, versions) =~= held(a, versions));
    } else {
        assert((a + b).drop_last() =~= a + b.drop_last());
        lemma_held_add(a, b.drop_last(), versions);
        assert(held(a, versions) + held(b, versions) =~= held(a, versions) + held(
            b.drop_last(),
            versions,
        ) + versions(b.last()));
    }
}

/// The entries of slots that all arrived are the versions in their SSTs.
pub proof fn lemma_joined_is_held(slots: Seq<Slot>, versions: spec_fn(usize) -> Seq<EntryView>)
    requires
        faithful(slots, versions),
        forall|i: int| 0 <= i < slots.len() ==> (#[trigger] slots[i]).entries is Some,
    ensures
        joined(slots) == held(slot_ssts(slots), versions),
    decreases slots.len(),
{
    if slots.len() > 0 {
        let front = slots.drop_last();
        assert(slot_ssts(front) =~= slot_ssts(slots).drop_last());
        assert forall|i: int| 0 <= i < front.len() implies (#[trigger] front[i]).entries is Some by {
            assert(front[i] == slots[i]);
        }
        assert forall|i: int| 0 <= i < front.len() implies ((#[trigger] front[i]).entries matches Some(
            entries,
        ) ==> entries == versions(front[i].sst)) by {
            assert(front[i] == slots[i]);
        }
        lemma_joined_is_held(front, versions);
        let last = slots[slots.len() - 1];
        assert(last.entries is Some);
    }
}

/// What honest filters reject holds no version of the key.
proof fn lemma_kept_holds_all(
    candidates: Seq<Candidate>,
    answers: spec_fn(usize) -> Option<bool>,
    versions: spec_fn(usize) -> Seq<EntryView>,
)
    requires
        honest(answers, versions),
    ensures
        held(ssts_of(kept(candidates, answers)), versions) == held(ssts_of(candidates), versions),
    decreases candidates.len(),
{
    let pred = |c: Candidate| !c.rejected(answers);
    if candidates.len() == 0 {
        assert(candidates.filter(pred) =~= candidates);
        assert(ssts_of(kept(candidates, answers)) =~= ssts_of(candidates));
    } else {
        let front = candidates.drop_last();
        let last = candidates.last();
        lemma_kept_holds_all(front, answers, versions);
        assert(candidates =~= front.push(last));
        front.lemma_filter_push(last, pred);
        assert(ssts_of(candidates) =~= ssts_of(front).push(last.sst));
        assert(ssts_of(candidates).drop_last() =~= ssts_of(front));
        if last.rejected(answers) {
            assert(ssts_of(kept(candidates, answers)) =~= ssts_of(kept(front, answers)));
            assert(held(ssts_of(front), versions) + versions(last.sst) =~= held(
                ssts_of(front),
                versions,
            ));
        } else {
            assert(ssts_of(kept(candidates, answers)) =~= ssts_of(kept(front, answers)).push(
                last.sst,
            ));
            assert(ssts_of(kept(candidates, answers)).drop_last() =~= ssts_of(kept(front, answers)));
        }
    }
}

/// A walk that finds nothing to read and nothing to load reaches every
/// candidate.
proof fn lemma_reach_all(
    candidates: Seq<Candidate>,
    answers: spec_fn(usize) -> Option<bool>,
    left: nat,
)
    requires
        left > 0,
        forall|i: int|
            0 <= i < reach(candidates, answers, left) ==> !(#[trigger] candidates[i]).passes(
                answers,
            ),
    ensures
        reach(candidates, answers, left) == candidates.len(),
    decreases candidates.len(),
{
    if candidates.len() > 0 {
        assert(!candidates[0].passes(answers));
        let rest = candidates.skip(1);
        lemma_reach_bound(rest, answers, left);
        assert forall|i: int| 0 <= i < reach(rest, answers, left) implies !(
        #[trigger] rest[i]).passes(answers) by {
            assert(rest[i] == candidates[i + 1]);
        }
        lemma_reach_all(rest, answers, left);
    }
}

// ---------------------------------------------------------------------------
// The laws
// ---------------------------------------------------------------------------

/// A pick does not change what the key comes to. A pick that loads keeps the
/// outcome. A pick that reads keeps it once the key is sent to the SSTs of
/// the pick. And when a pick is `Done`, the key has all that it comes to.
pub proof fn law_pick_keeps_the_outcome(
    key: KeyState,
    lookahead: usize,
    answers: spec_fn(usize) -> Option<bool>,
    versions: spec_fn(usize) -> Seq<EntryView>,
    max_seq: Option<u64>,
)
    requires
        !key.done,
        key.inflight.len() == 0,
        honest(answers, versions),
    ensures
        match key.pick_step(lookahead, answers) {
            PickView::Load(_) => key.pick(lookahead, answers).outcome(versions, max_seq)
                == key.outcome(versions, max_seq),
            PickView::Read(ssts) => key.pick(lookahead, answers).send(ssts).outcome(
                versions,
                max_seq,
            ) == key.outcome(versions, max_seq),
            PickView::Done => key.outcome(versions, max_seq) == key.acc && key.pick(
                lookahead,
                answers,
            ).candidates.len() == 0,
        },
{
    let limit = key.pick_limit(lookahead);
    lemma_reach_bound(key.candidates, answers, limit);
    let reached = key.reached(lookahead, answers);
    let rest = key.candidates.skip(reached.len() as int);
    let all = ssts_of(key.candidates);
    assert(slot_ssts(key.inflight) =~= Seq::<usize>::empty());
    assert(key.open_ssts() =~= all);
    assert(all =~= ssts_of(reached) + ssts_of(rest));
    lemma_held_add(ssts_of(reached), ssts_of(rest), versions);
    lemma_kept_holds_all(reached, answers, versions);
    let picked = ssts_of(kept(reached, answers));
    lemma_held_add(picked, ssts_of(rest), versions);
    match key.pick_step(lookahead, answers) {
        PickView::Load(_) => {
            assert(key.pick(lookahead, answers).open_ssts() =~= picked + ssts_of(rest));
        },
        PickView::Read(ssts) => {
            let sent = key.pick(lookahead, answers).send(ssts);
            assert(slot_ssts(sent.inflight) =~= picked);
            assert(sent.open_ssts() =~= picked + ssts_of(rest));
        },
        PickView::Done => {
            assert forall|i: int| 0 <= i < reach(key.candidates, answers, limit) implies !(
            #[trigger] key.candidates[i]).passes(answers) by {
                let c = key.candidates[i];
                if c.passes(answers) {
                    assert(reached[i] == c);
                    assert(!c.rejected(answers));
                    reached.lemma_filter_contains(|c: Candidate| !c.rejected(answers), i);
                    assert(kept(reached, answers).len() == reached.filter(
                        |c: Candidate| !c.rejected(answers),
                    ).len());
                }
            }
            lemma_reach_all(key.candidates, answers, limit);
            assert(rest =~= Seq::<Candidate>::empty());
            assert(ssts_of(rest) =~= Seq::<usize>::empty());
            assert(picked =~= Seq::<usize>::empty());
            assert(held(all, versions) =~= Seq::<EntryView>::empty());
            assert(key.acc + taken(held(all, versions), max_seq) =~= key.acc);
        },
    }
}

/// An arrival does not change what the key comes to, whichever SST of the
/// pick arrives.
pub proof fn law_arrival_keeps_the_outcome(
    key: KeyState,
    sst: usize,
    versions: spec_fn(usize) -> Seq<EntryView>,
    max_seq: Option<u64>,
)
    requires
        faithful(key.inflight, versions),
    ensures
        key.arrive(sst, versions(sst), max_seq).outcome(versions, max_seq) == key.outcome(
            versions,
            max_seq,
        ),
        faithful(key.arrive(sst, versions(sst), max_seq).inflight, versions),
{
    let slots = filled(key.inflight, sst, versions(sst));
    let n = ready(slots) as int;
    let after = key.arrive(sst, versions(sst), max_seq);
    lemma_slot_of_finds(key.inflight, sst);
    lemma_ready_is_a_start(slots);
    assert(faithful(slots, versions));
    if !key.done {
        let first = slots.take(n);
        let rest = slots.skip(n);
        assert forall|i: int| 0 <= i < first.len() implies ((#[trigger] first[i]).entries matches Some(
            entries,
        ) ==> entries == versions(first[i].sst)) by {
            assert(first[i] == slots[i]);
        }
        assert forall|i: int| 0 <= i < first.len() implies (#[trigger] first[i]).entries is Some by {
            assert(first[i] == slots[i]);
        }
        assert forall|i: int| 0 <= i < rest.len() implies ((#[trigger] rest[i]).entries matches Some(
            entries,
        ) ==> entries == versions(rest[i].sst)) by {
            assert(rest[i] == slots[i + n]);
        }
        lemma_joined_is_held(first, versions);
        assert(slot_ssts(slots) =~= slot_ssts(key.inflight));
        let older = slot_ssts(rest) + ssts_of(key.candidates);
        assert(key.open_ssts() =~= slot_ssts(first) + older);
        lemma_held_add(slot_ssts(first), older, versions);
        law_walk_over_two_layers(joined(first), held(older, versions), max_seq);
        if !after.done {
            assert(after.open_ssts() =~= older);
            assert(after.acc + taken(held(older, versions), max_seq) =~= key.acc + (taken(
                joined(first),
                max_seq,
            ) + taken(held(older, versions), max_seq)));
        }
    }
}

/// `sst` is in the current read of the key, and its entries did not arrive.
pub open spec fn awaited(slots: Seq<Slot>, sst: usize) -> bool {
    slot_of(slots, sst) < slots.len() && slots[slot_of(slots, sst) as int].entries is None
}

/// The order of two arrivals makes no difference.
pub proof fn law_arrivals_commute(
    key: KeyState,
    a: usize,
    from_a: Seq<EntryView>,
    b: usize,
    from_b: Seq<EntryView>,
    max_seq: Option<u64>,
)
    requires
        a != b,
        awaited(key.inflight, a),
        awaited(key.inflight, b),
    ensures
        key.arrive(a, from_a, max_seq).arrive(b, from_b, max_seq) == key.arrive(
            b,
            from_b,
            max_seq,
        ).arrive(a, from_a, max_seq),
{
    lemma_two_arrivals(key, a, from_a, b, from_b, max_seq);
    lemma_two_arrivals(key, b, from_b, a, from_a, max_seq);
    lemma_fill_keeps_the_slots(key.inflight, a, from_a, b);
    lemma_fill_keeps_the_slots(key.inflight, b, from_b, a);
    lemma_slot_of_finds(key.inflight, a);
    lemma_slot_of_finds(key.inflight, b);
    assert(filled(filled(key.inflight, a, from_a), b, from_b) =~= filled(
        filled(key.inflight, b, from_b),
        a,
        from_a,
    ));
}

/// An arrival fills one slot and moves none.
proof fn lemma_fill_keeps_the_slots(
    slots: Seq<Slot>,
    sst: usize,
    entries: Seq<EntryView>,
    other: usize,
)
    ensures
        slot_of(filled(slots, sst, entries), other) == slot_of(slots, other),
{
    let after = filled(slots, sst, entries);
    let i = slot_of(slots, other) as int;
    lemma_slot_of_finds(slots, sst);
    lemma_slot_of_finds(slots, other);
    assert forall|j: int| 0 <= j < slots.len() implies (#[trigger] after[j]).sst == slots[j].sst by {}
    assert forall|j: int| 0 <= j < i implies (#[trigger] after[j]).sst != other by {
        assert(slots[j].sst != other);
    }
    lemma_slot_of(after, other, i);
}

/// The entries of two lists of slots are those of the first, then those of
/// the second.
proof fn lemma_joined_add(a: Seq<Slot>, b: Seq<Slot>)
    ensures
        joined(a + b) == joined(a) + joined(b),
    decreases b.len(),
{
    if b.len() == 0 {
        assert(a + b =~= a);
        assert(joined(a) + joined(b) =~= joined(a));
    } else {
        assert((a + b).drop_last() =~= a + b.drop_last());
        lemma_joined_add(a, b.drop_last());
        assert(joined(a) + joined(b) =~= joined(a) + joined(b.drop_last()) + b.last().found());
    }
}

/// Two arrivals come to the read with both slots filled.
proof fn lemma_two_arrivals(
    key: KeyState,
    a: usize,
    from_a: Seq<EntryView>,
    b: usize,
    from_b: Seq<EntryView>,
    max_seq: Option<u64>,
)
    requires
        a != b,
        awaited(key.inflight, a),
        awaited(key.inflight, b),
    ensures
        key.arrive(a, from_a, max_seq).arrive(b, from_b, max_seq) == key.settle(
            filled(filled(key.inflight, a, from_a), b, from_b),
            max_seq,
        ),
{
    let one = filled(key.inflight, a, from_a);
    let both = filled(one, b, from_b);
    let at = slot_of(one, b) as int;
    let n = ready(one) as int;
    let mid = key.arrive(a, from_a, max_seq);
    lemma_slot_of_finds(key.inflight, a);
    lemma_slot_of_finds(key.inflight, b);
    lemma_fill_keeps_the_slots(key.inflight, a, from_a, b);
    lemma_slot_of_finds(one, b);
    lemma_ready_is_a_start(one);
    assert(one[at].entries is None);
    assert(n <= at);
    // The slots that applied with the first arrival are ready with both.
    let rest = one.skip(n);
    let m = ready(filled(rest, b, from_b)) as int;
    assert forall|j: int| 0 <= j < at - n implies (#[trigger] rest[j]).sst != b by {
        assert(rest[j] == one[j + n]);
    }
    lemma_slot_of(rest, b, at - n);
    assert(filled(rest, b, from_b) =~= both.skip(n));
    lemma_ready_is_a_start(both.skip(n));
    assert forall|j: int| 0 <= j < n + m implies (#[trigger] both[j]).entries is Some by {
        if j < n {
            assert(both[j] == one[j]);
        } else {
            assert(both[j] == both.skip(n)[j - n]);
        }
    }
    if n + m < both.len() {
        assert(both[n + m] == both.skip(n)[m]);
    }
    lemma_ready(both, n + m);
    let first = one.take(n);
    let second = both.skip(n).take(m);
    assert(both.take(n + m) =~= first + second);
    lemma_joined_add(first, second);
    law_walk_over_two_layers(joined(first), joined(second), max_seq);
    assert(both.skip(n + m) =~= both.skip(n).skip(m));
    let after = mid.arrive(b, from_b, max_seq);
    if mid.done {
        assert(filled(mid.inflight, b, from_b) =~= Seq::<Slot>::empty());
        assert(after =~= key.settle(both, max_seq));
    } else {
        assert(mid.inflight == rest);
        assert(after.acc =~= key.settle(both, max_seq).acc);
        assert(after =~= key.settle(both, max_seq));
    }
}

/// The first slot of an SST is the first one that has it.
pub proof fn lemma_slot_of_finds(slots: Seq<Slot>, sst: usize)
    ensures
        slot_of(slots, sst) <= slots.len(),
        slot_of(slots, sst) < slots.len() ==> slots[slot_of(slots, sst) as int].sst == sst,
        forall|i: int| 0 <= i < slot_of(slots, sst) ==> (#[trigger] slots[i]).sst != sst,
    decreases slots.len(),
{
    if slots.len() > 0 && slots[0].sst != sst {
        lemma_slot_of_finds(slots.skip(1), sst);
        assert forall|i: int| 0 <= i < slot_of(slots, sst) implies (#[trigger] slots[i]).sst != sst by {
            if i > 0 {
                assert(slots[i] == slots.skip(1)[i - 1]);
            }
        }
    }
}

/// The ready slots are the first ones that have entries.
pub proof fn lemma_ready_is_a_start(slots: Seq<Slot>)
    ensures
        ready(slots) <= slots.len(),
        ready(slots) < slots.len() ==> slots[ready(slots) as int].entries is None,
        forall|i: int| 0 <= i < ready(slots) ==> (#[trigger] slots[i]).entries is Some,
    decreases slots.len(),
{
    if slots.len() > 0 && slots[0].entries is Some {
        lemma_ready_is_a_start(slots.skip(1));
        assert forall|i: int| 0 <= i < ready(slots) implies (#[trigger] slots[i]).entries is Some by {
            if i > 0 {
                assert(slots[i] == slots.skip(1)[i - 1]);
            }
        }
    }
}

/// A filter that is loaded checks a key at most one time: the checks that a
/// pick makes and the checks that are left after it are no more than the
/// checks that were left before it.
pub proof fn law_pick_checks_each_filter_one_time(
    key: KeyState,
    lookahead: usize,
    answers: spec_fn(usize) -> Option<bool>,
    sst: usize,
)
    requires
        answers(sst) is Some,
    ensures
        checks(key.reached(lookahead, answers), sst as int) + checks(
            key.pick(lookahead, answers).candidates,
            sst as int,
        ) == checks(key.candidates, sst as int),
{
    let limit = key.pick_limit(lookahead);
    lemma_reach_bound(key.candidates, answers, limit);
    let reached = key.reached(lookahead, answers);
    let rest = key.candidates.skip(reached.len() as int);
    lemma_checks_split(key.candidates, reached.len() as int, sst as int);
    let after = kept(reached, answers);
    lemma_kept_leaves_no_checks(reached, answers, sst);
    lemma_checks_split(after + rest, after.len() as int, sst as int);
    assert((after + rest).take(after.len() as int) =~= after);
    assert((after + rest).skip(after.len() as int) =~= rest);
}

/// A loaded filter has answered for each candidate that a pick keeps.
proof fn lemma_kept_leaves_no_checks(
    candidates: Seq<Candidate>,
    answers: spec_fn(usize) -> Option<bool>,
    sst: usize,
)
    requires
        answers(sst) is Some,
    ensures
        checks(kept(candidates, answers), sst as int) == 0,
    decreases candidates.len(),
{
    if candidates.len() > 0 {
        let front = candidates.drop_last();
        let last = candidates.last();
        lemma_kept_leaves_no_checks(front, answers, sst);
        assert(candidates =~= front.push(last));
        lemma_kept_push(front, last, answers);
        lemma_checks_push(kept(front, answers), last.marked(answers), sst as int);
        if last.sst == sst {
            let pass: bool = answers(last.sst)->0;
            assert(answers(last.sst) == Some(pass));
        }
    } else {
        candidates.lemma_filter_len(|c: Candidate| !c.rejected(answers));
        lemma_checks_bound(kept(candidates, answers), sst as int);
    }
}

// ---------------------------------------------------------------------------
// All arrivals of one pick
// ---------------------------------------------------------------------------

/// The key after the reads of some SSTs arrived, one after the other.
pub open spec fn arrived(
    key: KeyState,
    order: Seq<usize>,
    versions: spec_fn(usize) -> Seq<EntryView>,
    max_seq: Option<u64>,
) -> KeyState
    decreases order.len(),
{
    if order.len() == 0 {
        key
    } else {
        arrived(key, order.drop_last(), versions, max_seq).arrive(
            order.last(),
            versions(order.last()),
            max_seq,
        )
    }
}

/// The key after it appended what some SSTs hold, newest first. It stops once
/// it is done.
pub open spec fn appended(
    key: KeyState,
    ssts: Seq<usize>,
    versions: spec_fn(usize) -> Seq<EntryView>,
    max_seq: Option<u64>,
) -> KeyState
    decreases ssts.len(),
{
    if ssts.len() == 0 {
        key
    } else {
        let before = appended(key, ssts.drop_last(), versions, max_seq);
        if before.done {
            before
        } else {
            before.append(versions(ssts.last()), max_seq)
        }
    }
}

/// What an open key appends is one walk over what the SSTs hold.
proof fn lemma_appended(
    key: KeyState,
    ssts: Seq<usize>,
    versions: spec_fn(usize) -> Seq<EntryView>,
    max_seq: Option<u64>,
)
    requires
        !key.done,
    ensures
        appended(key, ssts, versions, max_seq) == (KeyState {
            acc: key.acc + taken(held(ssts, versions), max_seq),
            done: has_base(held(ssts, versions), max_seq),
            ..key
        }),
    decreases ssts.len(),
{
    if ssts.len() == 0 {
        assert(key.acc + taken(held(ssts, versions), max_seq) =~= key.acc);
    } else {
        let front = ssts.drop_last();
        lemma_appended(key, front, versions, max_seq);
        law_walk_over_two_layers(held(front, versions), versions(ssts.last()), max_seq);
        assert(key.acc + taken(held(ssts, versions), max_seq) =~= appended(
            key,
            ssts,
            versions,
            max_seq,
        ).acc);
    }
}

/// The slots of some SSTs, when the reads of `order` arrived.
spec fn slots_after(
    ssts: Seq<usize>,
    order: Seq<usize>,
    versions: spec_fn(usize) -> Seq<EntryView>,
) -> Seq<Slot> {
    ssts.map_values(
        |sst: usize|
            Slot {
                sst,
                entries: if order.contains(sst) {
                    Some(versions(sst))
                } else {
                    None
                },
            },
    )
}

/// One more arrival fills its slot.
proof fn lemma_fill_one(
    ssts: Seq<usize>,
    order: Seq<usize>,
    sst: usize,
    versions: spec_fn(usize) -> Seq<EntryView>,
)
    requires
        ssts.no_duplicates(),
    ensures
        filled(slots_after(ssts, order, versions), sst, versions(sst)) == slots_after(
            ssts,
            order.push(sst),
            versions,
        ),
{
    let slots = slots_after(ssts, order, versions);
    let now = order.push(sst);
    let at = slot_of(slots, sst) as int;
    lemma_slot_of_finds(slots, sst);
    let after = filled(slots, sst, versions(sst));
    assert(now[order.len() as int] == sst);
    assert forall|i: int| 0 <= i < ssts.len() implies after[i] == #[trigger] slots_after(
        ssts,
        now,
        versions,
    )[i] by {
        let x = ssts[i];
        assert(slots[i].sst == x);
        if x == sst {
            assert(now.contains(x));
            assert(at <= i) by {
                if i < at {
                    assert(slots[i].sst != sst);
                }
            }
            assert(slots[at].sst == sst);
            assert(ssts[at] == ssts[i]);
        } else {
            if order.contains(x) {
                let k = choose|k: int| 0 <= k < order.len() && order[k] == x;
                assert(now[k] == x);
            }
            if now.contains(x) {
                let k = choose|k: int| 0 <= k < now.len() && now[k] == x;
                assert(order[k] == x);
            }
        }
    }
    assert(after =~= slots_after(ssts, now, versions));
}

/// A key in the middle of its arrivals appended the newest `m` SSTs, and
/// waits for the next one.
spec fn in_the_middle(
    key: KeyState,
    sent: Seq<usize>,
    order: Seq<usize>,
    versions: spec_fn(usize) -> Seq<EntryView>,
    max_seq: Option<u64>,
    m: int,
) -> bool {
    let now = arrived(key, order, versions, max_seq);
    &&& 0 <= m <= sent.len()
    &&& if now.done {
        now == (KeyState { inflight: Seq::empty(), ..appended(key, sent, versions, max_seq) })
    } else {
        &&& now == (KeyState {
            inflight: slots_after(sent.skip(m), order, versions),
            ..appended(key, sent.take(m), versions, max_seq)
        })
        &&& m < sent.len() ==> !order.contains(sent[m])
    }
}

/// Each arrival leaves the key in the middle of its arrivals.
proof fn lemma_in_the_middle(
    key: KeyState,
    sent: Seq<usize>,
    order: Seq<usize>,
    versions: spec_fn(usize) -> Seq<EntryView>,
    max_seq: Option<u64>,
) -> (m: int)
    requires
        !key.done,
        key.inflight == sent.map_values(|sst: usize| Slot { sst, entries: None }),
        sent.no_duplicates(),
    ensures
        in_the_middle(key, sent, order, versions, max_seq, m),
    decreases order.len(),
{
    if order.len() == 0 {
        assert(sent.skip(0) =~= sent);
        assert(sent.take(0) =~= Seq::<usize>::empty());
        assert(slots_after(sent, order, versions) =~= key.inflight);
        0
    } else {
        let front = order.drop_last();
        let sst = order.last();
        let m = lemma_in_the_middle(key, sent, front, versions, max_seq);
        let before = arrived(key, front, versions, max_seq);
        let now = arrived(key, order, versions, max_seq);
        assert(order =~= front.push(sst));
        lemma_appended(key, sent, versions, max_seq);
        if before.done {
            assert(filled(before.inflight, sst, versions(sst)) =~= Seq::<Slot>::empty());
            assert(Seq::<Slot>::empty().skip(0) =~= Seq::<Slot>::empty());
            m
        } else {
            let rest = sent.skip(m);
            assert forall|i: int, j: int| 0 <= i < rest.len() && 0 <= j < rest.len() && i
                != j implies rest[i] != rest[j] by {
                assert(sent[m + i] != sent[m + j]);
            }
            lemma_fill_one(rest, front, sst, versions);
            let slots = slots_after(rest, order, versions);
            let r = ready(slots) as int;
            let first = slots.take(r);
            lemma_ready_is_a_start(slots);
            assert forall|i: int| 0 <= i < first.len() implies (#[trigger] first[i]).entries
                is Some by {
                assert(first[i] == slots[i]);
            }
            assert forall|i: int| 0 <= i < first.len() implies ((
            #[trigger] first[i]).entries matches Some(entries) ==> entries == versions(
                first[i].sst,
            )) by {
                assert(first[i] == slots[i]);
            }
            lemma_joined_is_held(first, versions);
            let mid = sent.subrange(m, m + r);
            assert(slot_ssts(first) =~= mid);
            assert(sent.take(m + r) =~= sent.take(m) + mid);
            assert(sent =~= sent.take(m + r) + sent.skip(m + r));
            lemma_held_add(sent.take(m), mid, versions);
            lemma_held_add(sent.take(m + r), sent.skip(m + r), versions);
            lemma_appended(key, sent.take(m), versions, max_seq);
            lemma_appended(key, sent.take(m + r), versions, max_seq);
            law_walk_over_two_layers(held(sent.take(m), versions), held(mid, versions), max_seq);
            law_walk_over_two_layers(
                held(sent.take(m + r), versions),
                held(sent.skip(m + r), versions),
                max_seq,
            );
            assert(now == before.settle(slots, max_seq));
            assert(before.acc + taken(held(mid, versions), max_seq) =~= key.acc + taken(
                held(sent.take(m + r), versions),
                max_seq,
            ));
            assert(slots.skip(r) =~= slots_after(sent.skip(m + r), order, versions));
            if m + r < sent.len() {
                assert(slots[r].entries is None);
                assert(slots[r].sst == sent[m + r]);
            }
            m + r
        }
    }
}

/// The order of the arrivals of a pick makes no difference. When the read of
/// each SST of the pick arrived, in whatever order, the key has what it gets
/// when it appends the SSTs newest first and stops once it is done, and no
/// read is in flight.
pub proof fn law_arrivals_in_any_order(
    key: KeyState,
    sent: Seq<usize>,
    order: Seq<usize>,
    versions: spec_fn(usize) -> Seq<EntryView>,
    max_seq: Option<u64>,
)
    requires
        !key.done,
        key.inflight == sent.map_values(|sst: usize| Slot { sst, entries: None }),
        sent.no_duplicates(),
        forall|i: int| 0 <= i < sent.len() ==> order.contains(#[trigger] sent[i]),
    ensures
        arrived(key, order, versions, max_seq) == (KeyState {
            inflight: Seq::empty(),
            ..appended(key, sent, versions, max_seq)
        }),
        appended(key, sent, versions, max_seq).acc == key.acc + taken(
            held(sent, versions),
            max_seq,
        ),
        appended(key, sent, versions, max_seq).done == has_base(held(sent, versions), max_seq),
        key.waiting == 0 ==> arrived(key, order, versions, max_seq).idle(),
{
    let m = lemma_in_the_middle(key, sent, order, versions, max_seq);
    lemma_appended(key, sent, versions, max_seq);
    if !arrived(key, order, versions, max_seq).done {
        if m < sent.len() {
            assert(order.contains(sent[m]));
        }
        assert(sent.take(m) =~= sent);
        assert(slots_after(sent.skip(m), order, versions) =~= Seq::<Slot>::empty());
    }
}

// ---------------------------------------------------------------------------
// The steps of one key
// ---------------------------------------------------------------------------

/// A write of the transaction goes behind the writes that the key has. A value
/// or a deletion ends the read, and a merge operand does not.
pub proof fn law_a_write_ends_the_read_unless_it_merges(key: KeyState, entry: EntryView)
    ensures
        ({
            let after = key.push_write(entry);
            &&& after.wb == key.wb.push(entry)
            &&& after.done <==> key.done || !(entry.value is Merge)
            &&& after.acc == key.acc
            &&& after.key == key.key
            &&& after.candidates == key.candidates
            &&& after.inflight == key.inflight
            &&& after.rounds == key.rounds
            &&& after.waiting == key.waiting
        }),
{
}

/// The versions that a key takes go behind the versions that it has. A value or
/// a deletion at or below the bound ends the read, and nothing else does.
pub proof fn law_a_visible_base_value_ends_the_read(
    key: KeyState,
    entries: Seq<EntryView>,
    max_seq: Option<u64>,
)
    ensures
        ({
            let after = key.append(entries, max_seq);
            &&& after.acc == key.acc + taken(entries, max_seq)
            &&& after.done <==> key.done || exists|i: int|
                0 <= i < entries.len() && !((#[trigger] entries[i]).value is Merge) && (
                max_seq matches Some(bound) ==> entries[i].seq <= bound)
            &&& after.wb == key.wb
            &&& after.key == key.key
            &&& after.candidates == key.candidates
            &&& after.inflight == key.inflight
            &&& after.rounds == key.rounds
            &&& after.waiting == key.waiting
        }),
{
    if has_base(entries, max_seq) {
        let i = choose|i: int|
            0 <= i < entries.len() && visible(#[trigger] entries[i], max_seq) && entries[i].base();
        assert(!(entries[i].value is Merge));
    }
    if exists|i: int|
        0 <= i < entries.len() && !((#[trigger] entries[i]).value is Merge) && (
        max_seq matches Some(bound) ==> entries[i].seq <= bound) {
        let i = choose|i: int|
            0 <= i < entries.len() && !((#[trigger] entries[i]).value is Merge) && (
            max_seq matches Some(bound) ==> entries[i].seq <= bound);
        assert(visible(entries[i], max_seq) && entries[i].base());
    }
}

/// What an SST returns goes to its own slot, and the other slots stay as they
/// are. An SST that has no slot changes nothing.
pub proof fn law_an_arrival_fills_its_own_slot(
    slots: Seq<Slot>,
    sst: usize,
    entries: Seq<EntryView>,
    i: int,
)
    requires
        0 <= i < slots.len(),
        forall|j: int, k: int|
            0 <= j < k < slots.len() ==> (#[trigger] slots[j]).sst != (#[trigger] slots[k]).sst,
    ensures
        filled(slots, sst, entries).len() == slots.len(),
        filled(slots, sst, entries)[i].sst == slots[i].sst,
        slots[i].sst == sst ==> filled(slots, sst, entries)[i].entries == Some(entries),
        slots[i].sst != sst ==> filled(slots, sst, entries)[i].entries == slots[i].entries,
{
    lemma_slot_of_finds(slots, sst);
    if slots[i].sst == sst {
        lemma_slot_of(slots, sst, i);
    }
}

/// A key takes what its slots brought from the first slot on, as long as no
/// slot is open, in the order of the slots. The slots behind an open slot wait.
/// When the read is over, the key waits for no slot any more.
pub proof fn law_slots_are_taken_in_their_order(
    key: KeyState,
    slots: Seq<Slot>,
    n: int,
    max_seq: Option<u64>,
)
    requires
        0 <= n <= slots.len(),
        forall|i: int| 0 <= i < n ==> (#[trigger] slots[i]).entries is Some,
        n < slots.len() ==> slots[n].entries is None,
    ensures
        ({
            let after = key.settle(slots, max_seq);
            &&& key.done ==> after == (KeyState { inflight: Seq::empty(), ..key })
            &&& !key.done ==> {
                let taken_up = key.append(joined(slots.take(n)), max_seq);
                &&& after.acc == taken_up.acc
                &&& after.done == taken_up.done
                &&& after.wb == key.wb
                &&& after.key == key.key
                &&& after.candidates == key.candidates
                &&& after.rounds == key.rounds
                &&& after.waiting == key.waiting
                &&& after.done ==> after.inflight.len() == 0
                &&& !after.done ==> after.inflight == slots.skip(n)
            }
        }),
{
    lemma_ready(slots, n);
}

/// What some slots brought is what each of them brought, one after the other.
pub proof fn law_slots_bring_their_entries(slots: Seq<Slot>, slot: Slot, entries: Seq<EntryView>)
    ensures
        slot.entries == Some(entries) ==> joined(slots.push(slot)) == joined(slots) + entries,
        joined(Seq::empty()).len() == 0,
{
    assert(slots.push(slot).drop_last() =~= slots);
}

/// A read that a key sends is one more round, with one open slot for each SST,
/// in the order of the SSTs. An idle key waits for no slot and for no filter.
pub proof fn law_a_sent_read_is_one_round(key: KeyState, ssts: Seq<usize>, i: int)
    requires
        key.rounds < u64::MAX,
        0 <= i < ssts.len(),
    ensures
        ({
            let after = key.send(ssts);
            &&& after.rounds == key.rounds + 1
            &&& after.inflight.len() == ssts.len()
            &&& after.inflight[i].sst == ssts[i]
            &&& after.inflight[i].entries is None
            &&& after.candidates == key.candidates
            &&& after.acc == key.acc
            &&& after.wb == key.wb
            &&& after.key == key.key
            &&& after.done == key.done
            &&& after.waiting == key.waiting
            &&& !after.idle()
        }),
        key.idle() <==> key.inflight.len() == 0 && key.waiting == 0,
{
}

/// A pick goes over its candidates one by one. One that a loaded filter
/// rejects is dropped, one that passed stays and is not asked again, and one
/// that is not loaded stays and is to be loaded.
pub proof fn law_a_pick_asks_each_candidate(
    candidates: Seq<Candidate>,
    c: Candidate,
    answers: spec_fn(usize) -> Option<bool>,
)
    ensures
        !c.passed && answers(c.sst) == Some(false) ==> kept(candidates.push(c), answers) == kept(
            candidates,
            answers,
        ) && unknowns(candidates.push(c), answers) == unknowns(candidates, answers),
        c.passed || answers(c.sst) == Some(true) ==> kept(candidates.push(c), answers) == kept(
            candidates,
            answers,
        ).push(Candidate { sst: c.sst, passed: true }) && unknowns(candidates.push(c), answers)
            == unknowns(candidates, answers),
        !c.passed && answers(c.sst) is None ==> kept(candidates.push(c), answers) == kept(
            candidates,
            answers,
        ).push(Candidate { sst: c.sst, passed: false }) && unknowns(candidates.push(c), answers)
            == unknowns(candidates, answers).push(c.sst),
        kept(Seq::empty(), answers).len() == 0,
        unknowns(Seq::empty(), answers).len() == 0,
        ssts_of(candidates.push(c)) == ssts_of(candidates).push(c.sst),
{
    lemma_kept_push(candidates, c, answers);
    Seq::<Candidate>::empty().lemma_filter_len(|c: Candidate| !c.rejected(answers));
    Seq::<Candidate>::empty().lemma_filter_len(|c: Candidate| c.unknown(answers));
    assert(ssts_of(candidates.push(c)) =~= ssts_of(candidates).push(c.sst));
}

/// A pick loads when it meets an SST that is not loaded. Otherwise it reads
/// what is left of the SSTs that it went over, and the key is done when nothing
/// is left. The SSTs that it did not reach stay as they are, and those that it
/// went over stay only while it loads.
pub proof fn law_a_pick_loads_reads_or_ends(
    key: KeyState,
    lookahead: usize,
    answers: spec_fn(usize) -> Option<bool>,
)
    ensures
        ({
            let reached = key.reached(lookahead, answers);
            let rest = key.candidates.skip(reached.len() as int);
            let after = key.pick(lookahead, answers);
            &&& key.candidates == reached + rest
            &&& match key.pick_step(lookahead, answers) {
                PickView::Load(wanted) => wanted.len() > 0 && wanted == unknowns(reached, answers)
                    && after.candidates == kept(reached, answers) + rest,
                PickView::Read(sent) => sent.len() > 0 && sent == ssts_of(kept(reached, answers))
                    && unknowns(reached, answers).len() == 0 && after.candidates == rest,
                PickView::Done => kept(reached, answers).len() == 0 && unknowns(
                    reached,
                    answers,
                ).len() == 0 && after.candidates == rest,
            }
            &&& after.acc == key.acc
            &&& after.wb == key.wb
            &&& after.key == key.key
            &&& after.done == key.done
            &&& after.rounds == key.rounds
            &&& after.waiting == key.waiting
            &&& after.inflight == key.inflight
        }),
{
    let reached = key.reached(lookahead, answers);
    lemma_reach_bound(key.candidates, answers, key.pick_limit(lookahead));
    assert(key.candidates =~= reached + key.candidates.skip(reached.len() as int));
}

/// A candidate that did not pass yet is checked one time by the filters of its
/// SST, and by no other.
pub proof fn law_a_candidate_is_checked_one_time(candidates: Seq<Candidate>, c: Candidate, sst: int)
    ensures
        checks(candidates.push(c), sst) == checks(candidates, sst) + (if !c.passed && c.sst == sst {
            1int
        } else {
            0
        }),
        checks(Seq::empty(), sst) == 0,
{
    lemma_checks_push(candidates, c, sst);
    lemma_checks_bound(Seq::empty(), sst);
}

} // verus!
