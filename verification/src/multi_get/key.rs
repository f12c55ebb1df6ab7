//! The read state of one key of a batch.

use bytes::Bytes;
use vstd::prelude::*;

use super::candidates::{sst_states, BatchSst, SstState};
use super::walk::{has_base, law_walk_over_two_layers, lemma_has_base_unfold, taken};
use crate::filter::Filter;
use crate::octets::content;
use crate::types::{rows, EntryView, RowEntry};

verus! {

/// One SST that can hold a key.
#[derive(Clone, Copy, Debug, PartialEq, Eq, Structural)]
pub struct Candidate {
    /// Index into the SSTs of the batch.
    pub sst: usize,
    /// The filters of the SST passed the key.
    pub passed: bool,
}

/// The next step of a key. See [`KeyRead::pick`].
#[derive(Debug, PartialEq, Eq)]
pub enum Pick {
    /// Load the filters of these SSTs, then pick again.
    Load(Vec<usize>),
    /// Read these SSTs, newest first.
    Read(Vec<usize>),
    /// No candidate is left.
    Done,
}

/// What a [`Pick`] says.
pub enum PickView {
    Load(Seq<usize>),
    Read(Seq<usize>),
    Done,
}

impl View for Pick {
    type V = PickView;

    open spec fn view(&self) -> PickView {
        match *self {
            Pick::Load(ssts) => PickView::Load(ssts@),
            Pick::Read(ssts) => PickView::Read(ssts@),
            Pick::Done => PickView::Done,
        }
    }
}

/// One SST of the current pick of a key.
#[derive(Debug)]
pub struct Inflight {
    /// Index into the SSTs of the batch.
    pub sst: usize,
    /// The entries of the SST for the key, once its read arrived.
    pub entries: Option<Vec<RowEntry>>,
}

/// What an [`Inflight`] says.
pub struct Slot {
    pub sst: usize,
    pub entries: Option<Seq<EntryView>>,
}

impl Slot {
    /// The entries that came for the slot so far.
    pub open spec fn found(self) -> Seq<EntryView> {
        match self.entries {
            Some(entries) => entries,
            None => Seq::empty(),
        }
    }
}

impl View for Inflight {
    type V = Slot;

    open spec fn view(&self) -> Slot {
        Slot {
            sst: self.sst,
            entries: match self.entries {
                Some(entries) => Some(rows(entries@)),
                None => None,
            },
        }
    }
}

/// Everything that the batch knows about one unique key.
#[derive(Debug)]
pub struct KeyRead {
    pub key: Bytes,
    /// Write batch entries. They are not filtered by `max_seq`.
    pub wb: Vec<RowEntry>,
    /// Memtable and SST entries, newest first, filtered by `max_seq`.
    pub acc: Vec<RowEntry>,
    /// The key has a base value, or it has nothing left to read.
    pub done: bool,
    /// The SSTs that can hold the key and that it did not read yet, newest
    /// first.
    pub candidates: Vec<Candidate>,
    /// How many reads the key sent.
    pub rounds: u64,
    /// The number of filter loads that the key waits for.
    pub waiting: usize,
    /// The SSTs of the current read, newest first.
    pub inflight: Vec<Inflight>,
}

/// What a [`KeyRead`] says.
#[verifier::ext_equal]
pub struct KeyState {
    pub key: Seq<u8>,
    pub wb: Seq<EntryView>,
    pub acc: Seq<EntryView>,
    pub done: bool,
    pub candidates: Seq<Candidate>,
    pub rounds: u64,
    pub waiting: usize,
    pub inflight: Seq<Slot>,
}

impl View for KeyRead {
    type V = KeyState;

    open spec fn view(&self) -> KeyState {
        KeyState {
            key: content(self.key),
            wb: rows(self.wb@),
            acc: rows(self.acc@),
            done: self.done,
            candidates: self.candidates@,
            rounds: self.rounds,
            waiting: self.waiting,
            inflight: self.inflight@.map_values(|slot: Inflight| slot@),
        }
    }
}

// ---------------------------------------------------------------------------
// The filter answers of a pick
// ---------------------------------------------------------------------------

/// What the filters of each SST say about `key`.
pub open spec fn answers_of<F: Filter>(
    ssts: Seq<SstState<F>>,
    key: Seq<u8>,
    context: Option<F::Context>,
) -> spec_fn(usize) -> Option<bool> {
    |sst: usize|
        if sst < ssts.len() {
            ssts[sst as int].answer(key, context)
        } else {
            None
        }
}

impl Candidate {
    /// The filters of the SST passed the key, now or before.
    pub open spec fn passes(self, answers: spec_fn(usize) -> Option<bool>) -> bool {
        self.passed || answers(self.sst) == Some(true)
    }

    /// The filters of the SST reject the key.
    pub open spec fn rejected(self, answers: spec_fn(usize) -> Option<bool>) -> bool {
        !self.passed && answers(self.sst) == Some(false)
    }

    /// The filters of the SST are not loaded.
    pub open spec fn unknown(self, answers: spec_fn(usize) -> Option<bool>) -> bool {
        !self.passed && answers(self.sst) is None
    }

    /// The candidate with the answer of its filters.
    pub open spec fn marked(self, answers: spec_fn(usize) -> Option<bool>) -> Candidate {
        Candidate { sst: self.sst, passed: self.passes(answers) }
    }
}

/// How many candidates a walk reaches when it stops after `left` candidates
/// that pass.
pub open spec fn reach(
    candidates: Seq<Candidate>,
    answers: spec_fn(usize) -> Option<bool>,
    left: nat,
) -> nat
    decreases candidates.len(),
{
    if left == 0 || candidates.len() == 0 {
        0
    } else {
        let left = if candidates[0].passes(answers) {
            (left - 1) as nat
        } else {
            left
        };
        1 + reach(candidates.skip(1), answers, left)
    }
}

/// The candidates that the filters do not reject, with their answers.
pub open spec fn kept(
    candidates: Seq<Candidate>,
    answers: spec_fn(usize) -> Option<bool>,
) -> Seq<Candidate> {
    candidates.filter(|c: Candidate| !c.rejected(answers)).map_values(
        |c: Candidate| c.marked(answers),
    )
}

/// The SSTs whose filters are not loaded.
pub open spec fn unknowns(
    candidates: Seq<Candidate>,
    answers: spec_fn(usize) -> Option<bool>,
) -> Seq<usize> {
    candidates.filter(|c: Candidate| c.unknown(answers)).map_values(|c: Candidate| c.sst)
}

/// The SSTs of a list of candidates.
pub open spec fn ssts_of(candidates: Seq<Candidate>) -> Seq<usize> {
    candidates.map_values(|c: Candidate| c.sst)
}

/// How many of the candidates ask the filters of `sst`. A candidate that
/// passed before does not ask again.
pub open spec fn checks(candidates: Seq<Candidate>, sst: int) -> nat {
    candidates.filter(|c: Candidate| !c.passed && c.sst == sst).len()
}

/// Each candidate is one of the SSTs of the batch.
pub open spec fn candidates_within(candidates: Seq<Candidate>, ssts: nat) -> bool {
    forall|i: int| 0 <= i < candidates.len() ==> (#[trigger] candidates[i]).sst < ssts
}

/// The counts of the SSTs have room for the checks of the candidates.
pub open spec fn room_for_checks<F>(candidates: Seq<Candidate>, ssts: Seq<SstState<F>>) -> bool {
    forall|s: int|
        0 <= s < ssts.len() ==> (#[trigger] ssts[s]).probes + checks(candidates, s) <= u64::MAX
            && ssts[s].positives <= ssts[s].probes
}

/// The SSTs after a pick reached `reached`: each of them counts its checks.
pub open spec fn checked_ssts<F: Filter>(
    ssts: Seq<SstState<F>>,
    reached: Seq<Candidate>,
    key: Seq<u8>,
    context: Option<F::Context>,
) -> Seq<SstState<F>> {
    Seq::new(
        ssts.len(),
        |s: int|
            ssts[s].probed(
                checks(reached, s) as int,
                ssts[s].answer(key, context),
            ),
    )
}

// ---------------------------------------------------------------------------
// The arrivals of a pick
// ---------------------------------------------------------------------------

/// The first slot of `sst`, or the number of slots when there is none.
pub open spec fn slot_of(slots: Seq<Slot>, sst: usize) -> nat
    decreases slots.len(),
{
    if slots.len() == 0 || slots[0].sst == sst {
        0
    } else {
        1 + slot_of(slots.skip(1), sst)
    }
}

/// The slots after the entries of `sst` came.
pub open spec fn filled(slots: Seq<Slot>, sst: usize, entries: Seq<EntryView>) -> Seq<Slot> {
    let i = slot_of(slots, sst) as int;
    if i < slots.len() {
        slots.update(i, Slot { sst, entries: Some(entries) })
    } else {
        slots
    }
}

/// How many slots, newest first, have their entries.
pub open spec fn ready(slots: Seq<Slot>) -> nat
    decreases slots.len(),
{
    if slots.len() == 0 || slots[0].entries is None {
        0
    } else {
        1 + ready(slots.skip(1))
    }
}

/// The entries of the slots, newest first. A slot that waits has none yet.
pub open spec fn joined(slots: Seq<Slot>) -> Seq<EntryView>
    decreases slots.len(),
{
    if slots.len() == 0 {
        Seq::empty()
    } else {
        joined(slots.drop_last()) + slots.last().found()
    }
}

impl KeyState {
    /// An open key holds only merge operands.
    pub open spec fn has_operand(self) -> bool {
        self.wb.len() > 0 || self.acc.len() > 0
    }

    /// The key has no read in flight and waits for no filter.
    pub open spec fn idle(self) -> bool {
        self.inflight.len() == 0 && self.waiting == 0
    }

    /// The key after one more write batch entry.
    pub open spec fn push_write(self, entry: EntryView) -> Self {
        KeyState { wb: self.wb.push(entry), done: self.done || entry.base(), ..self }
    }

    /// The key after the versions of one more layer.
    pub open spec fn append(self, entries: Seq<EntryView>, max_seq: Option<u64>) -> Self {
        KeyState {
            acc: self.acc + taken(entries, max_seq),
            done: self.done || has_base(entries, max_seq),
            ..self
        }
    }

    /// How many SSTs that pass the next read takes. The first read takes one,
    /// and a key with a merge operand needs its base value, so it has no
    /// limit.
    pub open spec fn pick_limit(self, lookahead: usize) -> nat {
        if self.has_operand() {
            usize::MAX as nat
        } else if self.rounds == 0 || lookahead == 0 {
            1
        } else {
            lookahead as nat
        }
    }

    /// The candidates that the next pick looks at.
    pub open spec fn reached(
        self,
        lookahead: usize,
        answers: spec_fn(usize) -> Option<bool>,
    ) -> Seq<Candidate> {
        self.candidates.take(
            reach(self.candidates, answers, self.pick_limit(lookahead)) as int,
        )
    }

    /// The next step: load what is unknown among the reached candidates, or
    /// read those that pass.
    pub open spec fn pick_step(
        self,
        lookahead: usize,
        answers: spec_fn(usize) -> Option<bool>,
    ) -> PickView {
        let reached = self.reached(lookahead, answers);
        if unknowns(reached, answers).len() > 0 {
            PickView::Load(unknowns(reached, answers))
        } else if kept(reached, answers).len() == 0 {
            PickView::Done
        } else {
            PickView::Read(ssts_of(kept(reached, answers)))
        }
    }

    /// The key after the pick. What the filters reject leaves the candidates,
    /// and so does what the key reads.
    pub open spec fn pick(
        self,
        lookahead: usize,
        answers: spec_fn(usize) -> Option<bool>,
    ) -> Self {
        let reached = self.reached(lookahead, answers);
        let rest = self.candidates.skip(reached.len() as int);
        KeyState {
            candidates: if unknowns(reached, answers).len() > 0 {
                kept(reached, answers) + rest
            } else {
                rest
            },
            ..self
        }
    }

    /// The key after it was sent to the SSTs of one read.
    pub open spec fn send(self, ssts: Seq<usize>) -> Self {
        KeyState {
            rounds: (self.rounds + 1) as u64,
            inflight: ssts.map_values(|sst: usize| Slot { sst, entries: None }),
            ..self
        }
    }

    /// The key after its current read came to `slots`. The entries apply
    /// newest SST first only, and a base value drops the rest of the pick.
    pub open spec fn settle(self, slots: Seq<Slot>, max_seq: Option<u64>) -> Self {
        let n = ready(slots) as int;
        let applied = if self.done {
            self
        } else {
            self.append(joined(slots.take(n)), max_seq)
        };
        KeyState {
            inflight: if applied.done {
                Seq::empty()
            } else {
                slots.skip(n)
            },
            ..applied
        }
    }

    /// The key after the entries of `sst` arrived.
    pub open spec fn arrive(
        self,
        sst: usize,
        entries: Seq<EntryView>,
        max_seq: Option<u64>,
    ) -> Self {
        self.settle(filled(self.inflight, sst, entries), max_seq)
    }
}

// ---------------------------------------------------------------------------
// Facts about the walks
// ---------------------------------------------------------------------------

/// A pick reaches no more than there is.
pub proof fn lemma_reach_bound(
    candidates: Seq<Candidate>,
    answers: spec_fn(usize) -> Option<bool>,
    left: nat,
)
    ensures
        reach(candidates, answers, left) <= candidates.len(),
    decreases candidates.len(),
{
    if left > 0 && candidates.len() > 0 {
        let left = if candidates[0].passes(answers) {
            (left - 1) as nat
        } else {
            left
        };
        lemma_reach_bound(candidates.skip(1), answers, left);
    }
}

/// One more candidate is kept unless its filters reject it.
pub proof fn lemma_kept_push(
    candidates: Seq<Candidate>,
    c: Candidate,
    answers: spec_fn(usize) -> Option<bool>,
)
    ensures
        kept(candidates.push(c), answers) == if c.rejected(answers) {
            kept(candidates, answers)
        } else {
            kept(candidates, answers).push(c.marked(answers))
        },
        unknowns(candidates.push(c), answers) == if c.unknown(answers) {
            unknowns(candidates, answers).push(c.sst)
        } else {
            unknowns(candidates, answers)
        },
{
    candidates.lemma_filter_push(c, |c: Candidate| !c.rejected(answers));
    candidates.lemma_filter_push(c, |c: Candidate| c.unknown(answers));
    assert(kept(candidates.push(c), answers) =~= if c.rejected(answers) {
        kept(candidates, answers)
    } else {
        kept(candidates, answers).push(c.marked(answers))
    });
    assert(unknowns(candidates.push(c), answers) =~= if c.unknown(answers) {
        unknowns(candidates, answers).push(c.sst)
    } else {
        unknowns(candidates, answers)
    });
}

/// One more candidate asks the filters of its SST, unless it passed before.
pub proof fn lemma_checks_push(candidates: Seq<Candidate>, c: Candidate, sst: int)
    ensures
        checks(candidates.push(c), sst) == checks(candidates, sst) + if !c.passed && c.sst == sst {
            1nat
        } else {
            0
        },
{
    candidates.lemma_filter_push(c, |c: Candidate| !c.passed && c.sst == sst);
}

/// A list asks at most one time per candidate.
pub proof fn lemma_checks_bound(candidates: Seq<Candidate>, sst: int)
    ensures
        checks(candidates, sst) <= candidates.len(),
{
    candidates.lemma_filter_len(|c: Candidate| !c.passed && c.sst == sst);
}

/// The checks of a list are those of its start and those of its end.
pub proof fn lemma_checks_split(candidates: Seq<Candidate>, at: int, sst: int)
    requires
        0 <= at <= candidates.len(),
    ensures
        checks(candidates, sst) == checks(candidates.take(at), sst) + checks(
            candidates.skip(at),
            sst,
        ),
{
    assert(candidates =~= candidates.take(at) + candidates.skip(at));
    Seq::filter_distributes_over_add(
        candidates.take(at),
        candidates.skip(at),
        |c: Candidate| !c.passed && c.sst == sst,
    );
}

/// How to recognise the first slot of an SST.
pub proof fn lemma_slot_of(slots: Seq<Slot>, sst: usize, i: int)
    requires
        0 <= i <= slots.len(),
        forall|j: int| 0 <= j < i ==> (#[trigger] slots[j]).sst != sst,
        i < slots.len() ==> slots[i].sst == sst,
    ensures
        slot_of(slots, sst) == i,
    decreases slots.len(),
{
    if slots.len() > 0 && i > 0 {
        assert(slots[0].sst != sst);
        assert forall|j: int| 0 <= j < i - 1 implies (#[trigger] slots.skip(1)[j]).sst != sst by {
            assert(slots.skip(1)[j] == slots[j + 1]);
        }
        if i < slots.len() {
            assert(slots.skip(1)[i - 1] == slots[i]);
        }
        lemma_slot_of(slots.skip(1), sst, i - 1);
    }
}

/// How to recognise the ready slots.
pub proof fn lemma_ready(slots: Seq<Slot>, n: int)
    requires
        0 <= n <= slots.len(),
        forall|j: int| 0 <= j < n ==> (#[trigger] slots[j]).entries is Some,
        n < slots.len() ==> slots[n].entries is None,
    ensures
        ready(slots) == n,
    decreases slots.len(),
{
    if slots.len() > 0 && n > 0 {
        assert(slots[0].entries is Some);
        assert forall|j: int| 0 <= j < n - 1 implies (#[trigger] slots.skip(1)[j]).entries is Some by {
            assert(slots.skip(1)[j] == slots[j + 1]);
        }
        if n < slots.len() {
            assert(slots.skip(1)[n - 1] == slots[n]);
        }
        lemma_ready(slots.skip(1), n - 1);
    }
}

// ---------------------------------------------------------------------------
// The steps of a key
// ---------------------------------------------------------------------------

impl KeyRead {
    pub fn new(key: Bytes) -> (read: Self)
        ensures
            read.key == key,
            read@ == (KeyState {
                key: content(key),
                wb: Seq::empty(),
                acc: Seq::empty(),
                done: false,
                candidates: Seq::empty(),
                rounds: 0,
                waiting: 0,
                inflight: Seq::empty(),
            }),
    {
        let read = KeyRead {
            key,
            wb: Vec::new(),
            acc: Vec::new(),
            done: false,
            candidates: Vec::new(),
            rounds: 0,
            waiting: 0,
            inflight: Vec::new(),
        };
        assert(read@.inflight =~= Seq::<Slot>::empty());
        assert(read@.wb =~= Seq::<EntryView>::empty());
        assert(read@.acc =~= Seq::<EntryView>::empty());
        read
    }

    /// Add an SST that can hold the key. The SSTs come newest first.
    pub fn add_candidate(&mut self, sst: usize)
        ensures
            final(self).key == old(self).key,
            final(self)@ == (KeyState {
                candidates: old(self)@.candidates.push(Candidate { sst, passed: false }),
                ..old(self)@
            }),
    {
        self.candidates.push(Candidate { sst, passed: false });
    }

    /// The SSTs that the key can still read, newest first.
    pub fn candidate_ssts(&self) -> (ssts: Vec<usize>)
        ensures
            ssts@ == ssts_of(self@.candidates),
    {
        let mut ssts: Vec<usize> = Vec::new();
        let mut i: usize = 0;
        while i < self.candidates.len()
            invariant
                i <= self.candidates.len(),
                ssts@ == ssts_of(self.candidates@.take(i as int)),
            decreases self.candidates.len() - i,
        {
            assert(self.candidates@.take(i + 1) =~= self.candidates@.take(i as int).push(
                self.candidates@[i as int],
            ));
            ssts.push(self.candidates[i].sst);
            i = i + 1;
            assert(ssts@ =~= ssts_of(self.candidates@.take(i as int)));
        }
        assert(self.candidates@.take(i as int) =~= self.candidates@);
        ssts
    }

    /// Add one entry of the write batch. A base value resolves the key.
    pub fn push_write(&mut self, entry: RowEntry)
        ensures
            final(self).key == old(self).key,
            final(self)@ == old(self)@.push_write(entry@),
    {
        let ghost before = self.wb@;
        if entry.is_base() {
            self.done = true;
        }
        self.wb.push(entry);
        assert(rows(self.wb@) =~= rows(before).push(entry@));
    }

    /// Append the versions of one layer, newest first. An entry above
    /// `max_seq` is not visible, so a too-new base value must not resolve
    /// the key. The first visible base value resolves the key and stops the
    /// append, because it shadows everything older. Merge operands keep
    /// accumulating, because they can span layers.
    pub fn append(&mut self, entries: Vec<RowEntry>, max_seq: Option<u64>)
        ensures
            final(self).key == old(self).key,
            final(self)@ == old(self)@.append(rows(entries@), max_seq),
    {
        let ghost all = rows(entries@);
        let ghost start = self@;
        assert(all.skip(0) =~= all);
        for entry in it: entries
            invariant
                it.seq() == entries@,
                all == rows(entries@),
                self.key == old(self).key,
                start == old(self)@,
                self@ == (KeyState { acc: self@.acc, ..start }),
                self@.acc + taken(all.skip(it.index() as int), max_seq) == start.acc + taken(
                    all,
                    max_seq,
                ),
                has_base(all, max_seq) == has_base(all.skip(it.index() as int), max_seq),
        {
            let ghost i = it.index() as int;
            let ghost rest = all.skip(i);
            let ghost before = self@.acc;
            proof {
                lemma_has_base_unfold(rest, max_seq);
                assert(rest.skip(1) =~= all.skip(i + 1));
                assert(rest[0] == entry@);
            }
            let hidden = match max_seq {
                Some(bound) => entry.seq > bound,
                None => false,
            };
            if !hidden {
                let is_base = entry.is_base();
                self.acc.push(entry);
                assert(self@.acc =~= before + seq![entry@]);
                assert(self@.acc + taken(rest.skip(1), max_seq) =~= before + (seq![entry@] + taken(
                    rest.skip(1),
                    max_seq,
                )));
                if is_base {
                    self.done = true;
                    assert(self@ =~= start.append(all, max_seq));
                    return;
                }
            }
        }
        assert(all.skip(all.len() as int) =~= Seq::<EntryView>::empty());
        assert(self@.acc =~= start.acc + taken(all, max_seq));
    }

    /// An open key holds only merge operands.
    pub fn has_operand(&self) -> (operand: bool)
        ensures
            operand == self@.has_operand(),
    {
        self.wb.len() > 0 || self.acc.len() > 0
    }

    /// Walk the candidates newest first and pick the next step, as `get`
    /// does. The first read takes one SST whose filters pass the key, and
    /// each later read takes `lookahead` of them. A key with a merge operand
    /// needs its base value, so it has no limit.
    ///
    /// An SST with no loaded filters does not count against the limit,
    /// because the pick only loads its filters. An SST whose filters reject
    /// the key leaves the candidates.
    pub fn pick<F: Filter>(
        &mut self,
        lookahead: usize,
        ssts: &mut Vec<BatchSst<F>>,
        context: &Option<F::Context>,
    ) -> (pick: Pick)
        requires
            candidates_within(old(self)@.candidates, old(ssts)@.len()),
            room_for_checks(old(self)@.candidates, sst_states(old(ssts)@)),
        ensures
            final(self).key == old(self).key,
            final(self)@ == old(self)@.pick(
                lookahead,
                answers_of(sst_states(old(ssts)@), old(self)@.key, *context),
            ),
            pick@ == old(self)@.pick_step(
                lookahead,
                answers_of(sst_states(old(ssts)@), old(self)@.key, *context),
            ),
            sst_states(final(ssts)@) == checked_ssts(
                sst_states(old(ssts)@),
                old(self)@.reached(
                    lookahead,
                    answers_of(sst_states(old(ssts)@), old(self)@.key, *context),
                ),
                old(self)@.key,
                *context,
            ),
    {
        let ghost start = self@;
        let ghost all = self.candidates@;
        let ghost before = sst_states(ssts@);
        let ghost answers = answers_of(before, self@.key, *context);
        let ghost mut seen: int = 0;
        let mut left: usize = if self.has_operand() {
            usize::MAX
        } else if self.rounds == 0 || lookahead == 0 {
            1
        } else {
            lookahead
        };
        let mut load: Vec<usize> = Vec::new();
        let mut end: usize = 0;
        proof {
            assert(all.take(0) =~= Seq::<Candidate>::empty());
            assert(all.skip(0) =~= all);
            assert(kept(all.take(0), answers) =~= Seq::<Candidate>::empty());
            assert(unknowns(all.take(0), answers) =~= Seq::<usize>::empty());
            assert(self.candidates@ =~= kept(all.take(0), answers) + all.skip(0));
            assert forall|s: int| 0 <= s < before.len() implies (#[trigger] ssts@[s])@
                == before[s].probed(0, before[s].answer(start.key, *context)) by {};
        }
        while end < self.candidates.len() && left > 0
            invariant
                0 <= seen <= all.len(),
                answers == answers_of(before, start.key, *context),
                start == old(self)@,
                all == start.candidates,
                before == sst_states(old(ssts)@),
                self.key == old(self).key,
                self@ == (KeyState { candidates: self@.candidates, ..start }),
                self.candidates@ == kept(all.take(seen), answers) + all.skip(seen),
                end == kept(all.take(seen), answers).len(),
                load@ == unknowns(all.take(seen), answers),
                reach(all, answers, start.pick_limit(lookahead)) == seen + reach(
                    all.skip(seen),
                    answers,
                    left as nat,
                ),
                candidates_within(all, before.len()),
                room_for_checks(all, before),
                ssts@.len() == before.len(),
                forall|s: int|
                    0 <= s < before.len() ==> (#[trigger] ssts@[s])@ == before[s].probed(
                        checks(all.take(seen), s) as int,
                        before[s].answer(start.key, *context),
                    ),
            decreases all.len() - seen,
        {
            let ghost rest = all.skip(seen);
            let ghost c = all[seen];
            proof {
                assert(rest.len() > 0);
                assert(rest[0] == c);
                assert(rest.skip(1) =~= all.skip(seen + 1));
                assert(self.candidates@[end as int] == c);
                assert(all.take(seen + 1) =~= all.take(seen).push(c));
                lemma_kept_push(all.take(seen), c, answers);
                assert(c.sst < before.len());
                assert forall|s: int| #[trigger] checks(
                    all.take(seen + 1),
                    s,
                ) == checks(all.take(seen), s) + if !c.passed && c.sst == s {
                    1nat
                } else {
                    0
                } by {
                    lemma_checks_push(all.take(seen), c, s);
                }
                lemma_checks_split(all, seen + 1, c.sst as int);
            }
            let candidate = self.candidates[end];
            let ghost counted = sst_states(ssts@);
            let sst: usize = candidate.sst;
            if !candidate.passed {
                assert(counted[sst as int] == before[sst as int].probed(
                    checks(all.take(seen), sst as int) as int,
                    before[sst as int].answer(start.key, *context),
                ));
                let pass = ssts[sst].might_hold(&self.key, context);
                proof {
                    assert(pass == answers(sst));
                    assert forall|s: int| 0 <= s < before.len() implies (#[trigger] ssts@[s])@
                        == before[s].probed(
                        checks(all.take(seen + 1), s) as int,
                        before[s].answer(start.key, *context),
                    ) by {
                        assert(counted[s] == before[s].probed(
                            checks(all.take(seen), s) as int,
                            before[s].answer(start.key, *context),
                        ));
                    }
                    seen = seen + 1;
                }
                match pass {
                    None => {
                        load.push(sst);
                        end = end + 1;
                        assert(self.candidates@ =~= kept(all.take(seen), answers) + all.skip(seen));
                        continue;
                    },
                    Some(false) => {
                        self.candidates.remove(end);
                        assert(self.candidates@ =~= kept(all.take(seen), answers) + all.skip(seen));
                        continue;
                    },
                    Some(true) => {
                        self.candidates.set(end, Candidate { sst, passed: true });
                    },
                }
            } else {
                proof {
                    assert forall|s: int| 0 <= s < before.len() implies (#[trigger] ssts@[s])@
                        == before[s].probed(
                        checks(all.take(seen + 1), s) as int,
                        before[s].answer(start.key, *context),
                    ) by {
                        assert(counted[s] == before[s].probed(
                            checks(all.take(seen), s) as int,
                            before[s].answer(start.key, *context),
                        ));
                    }
                    seen = seen + 1;
                }
            }
            left = left - 1;
            end = end + 1;
            assert(self.candidates@ =~= kept(all.take(seen), answers) + all.skip(seen));
        }
        let ghost reached = start.reached(lookahead, answers);
        proof {
            lemma_reach_bound(all, answers, start.pick_limit(lookahead));
            assert(reach(all.skip(seen), answers, left as nat) == 0);
            assert(reached =~= all.take(seen));
            assert(all.skip(seen) =~= all.skip(reached.len() as int));
            assert(sst_states(ssts@) =~= checked_ssts(before, reached, start.key, *context));
        }
        if load.len() > 0 {
            return Pick::Load(load);
        }
        if end == 0 {
            assert(self.candidates@ =~= all.skip(seen));
            return Pick::Done;
        }
        let rest = self.candidates.split_off(end);
        assert(self.candidates@ =~= kept(reached, answers));
        assert(rest@ =~= all.skip(seen));
        let picked = self.candidate_ssts();
        self.candidates = rest;
        Pick::Read(picked)
    }

    /// Send the key to the SSTs of one read, newest first.
    pub fn send(&mut self, ssts: &Vec<usize>)
        requires
            old(self)@.rounds < u64::MAX,
        ensures
            final(self).key == old(self).key,
            final(self)@ == old(self)@.send(ssts@),
    {
        self.rounds = self.rounds + 1;
        let mut inflight: Vec<Inflight> = Vec::new();
        for i in 0..ssts.len()
            invariant
                inflight@.len() == i,
                forall|j: int|
                    0 <= j < i ==> (#[trigger] inflight@[j])@ == (Slot { sst: ssts@[j], entries: None }),
        {
            inflight.push(Inflight { sst: ssts[i], entries: None });
        }
        self.inflight = inflight;
        assert(self@.inflight =~= old(self)@.send(ssts@).inflight);
    }

    /// Record the entries that `sst` holds for the key, and apply each read
    /// of the pick that arrived. The entries apply newest SST first only, so
    /// a read waits until every newer SST of the pick arrived. A base value
    /// resolves the key and drops the rest of the pick.
    pub fn arrive(&mut self, sst: usize, entries: Vec<RowEntry>, max_seq: Option<u64>)
        ensures
            final(self).key == old(self).key,
            final(self)@ == old(self)@.arrive(sst, rows(entries@), max_seq),
    {
        let ghost start = self@;
        let ghost slots = filled(start.inflight, sst, rows(entries@));
        let n: usize = self.inflight.len();
        let mut i: usize = 0;
        while i < n && self.inflight[i].sst != sst
            invariant
                i <= n,
                n == self.inflight.len(),
                forall|j: int| 0 <= j < i ==> (#[trigger] self.inflight@[j]).sst != sst,
            decreases n - i,
        {
            i = i + 1;
        }
        proof {
            assert forall|j: int| 0 <= j < i implies (#[trigger] start.inflight[j]).sst != sst by {
                assert(start.inflight[j] == self.inflight@[j]@);
            }
            if i < n {
                assert(start.inflight[i as int] == self.inflight@[i as int]@);
            }
            lemma_slot_of(start.inflight, sst, i as int);
        }
        if i < n {
            self.inflight.set(i, Inflight { sst, entries: Some(entries) });
        }
        assert(self@.inflight =~= slots);
        let mut ready: usize = 0;
        while ready < n && self.inflight[ready].entries.is_some()
            invariant
                ready <= n,
                n == self.inflight.len(),
                forall|j: int| 0 <= j < ready ==> (#[trigger] self.inflight@[j]).entries is Some,
            decreases n - ready,
        {
            ready = ready + 1;
        }
        proof {
            assert forall|j: int| 0 <= j < ready implies (#[trigger] slots[j]).entries is Some by {
                assert(slots[j] == self.inflight@[j]@);
            }
            if ready < n {
                assert(slots[ready as int] == self.inflight@[ready as int]@);
            }
            lemma_ready(slots, ready as int);
        }
        let mut arrived = self.inflight.split_off(ready);
        std::mem::swap(&mut arrived, &mut self.inflight);
        let ghost first = slots.take(ready as int);
        assert(self@.inflight =~= slots.skip(ready as int));
        assert(first.take(0) =~= Seq::<Slot>::empty());
        assert(start.acc + taken(Seq::empty(), max_seq) =~= start.acc);
        assert(arrived@.len() == first.len());
        for slot in it: arrived
            invariant
                it.seq() == arrived@,
                arrived@.len() == first.len(),
                forall|j: int| 0 <= j < first.len() ==> (#[trigger] arrived@[j])@ == first[j],
                self.key == old(self).key,
                self@ == (KeyState {
                    inflight: self@.inflight,
                    ..(if start.done {
                        start
                    } else {
                        start.append(joined(first.take(it.index() as int)), max_seq)
                    })
                }),
                self@.inflight == slots.skip(ready as int),
        {
            let ghost k = it.index() as int;
            let ghost older = slot@.found();
            proof {
                assert(arrived@[k]@ == first[k]);
                assert(first.take(k + 1).drop_last() =~= first.take(k));
                assert(first.take(k + 1).last() == first[k]);
                law_walk_over_two_layers(joined(first.take(k)), older, max_seq);
                assert(start.acc + taken(joined(first.take(k)), max_seq) + taken(older, max_seq)
                    =~= start.acc + (taken(joined(first.take(k)), max_seq) + taken(older, max_seq)));
            }
            let arrived_entries = match slot.entries {
                Some(entries) => entries,
                None => Vec::new(),
            };
            assert(rows(arrived_entries@) =~= older);
            if !self.done {
                self.append(arrived_entries, max_seq);
            }
        }
        assert(first.take(first.len() as int) =~= first);
        if self.done {
            self.inflight.clear();
            assert(self@.inflight =~= Seq::<Slot>::empty());
        }
    }

    /// The key has no read in flight and waits for no filter.
    pub fn is_idle(&self) -> (idle: bool)
        ensures
            idle == self@.idle(),
    {
        self.inflight.len() == 0 && self.waiting == 0
    }
}

} // verus!
