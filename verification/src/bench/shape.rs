//! The shape of a database, and how a benchmark waits until it settles.

use vstd::prelude::*;

use crate::manifest::{ManifestCore, SortedRun};

verus! {

/// The number of L0 SSTs, sorted runs, and SSTs of the database.
#[derive(Clone, Copy, Debug, PartialEq, Eq, Structural)]
pub struct ManifestShape {
    pub l0_ssts: usize,
    pub sorted_runs: usize,
    pub ssts: usize,
}

/// The record that a benchmark logs for a shape.
#[derive(Clone, Copy, Debug)]
pub struct ShapeRecord {
    pub message: &'static str,
    pub l0_ssts: usize,
    pub sorted_runs: usize,
    pub ssts: usize,
}

/// The number of SSTs in the sorted runs.
pub open spec fn run_ssts(runs: Seq<SortedRun>) -> nat
    decreases runs.len(),
{
    if runs.len() == 0 {
        0
    } else {
        run_ssts(runs.drop_last()) + runs.last().views@.len()
    }
}

/// A start of the runs has no more SSTs than all of them.
proof fn lemma_run_ssts_grow(runs: Seq<SortedRun>, n: int)
    requires
        0 <= n <= runs.len(),
    ensures
        run_ssts(runs.take(n)) <= run_ssts(runs),
    decreases runs.len(),
{
    if n == runs.len() {
        assert(runs.take(n) =~= runs);
    } else {
        lemma_run_ssts_grow(runs.drop_last(), n);
        assert(runs.drop_last().take(n) =~= runs.take(n));
    }
}

impl ManifestShape {
    /// The shape of a manifest.
    pub fn of(manifest: &ManifestCore) -> (shape: Self)
        requires
            manifest.tree.l0@.len() + run_ssts(manifest.tree.compacted@) <= usize::MAX,
        ensures
            shape.l0_ssts == manifest.tree.l0@.len(),
            shape.sorted_runs == manifest.tree.compacted@.len(),
            shape.ssts == manifest.tree.l0@.len() + run_ssts(manifest.tree.compacted@),
    {
        let l0_ssts: usize = manifest.tree.l0.len();
        let sorted_runs: usize = manifest.tree.compacted.len();
        let mut ssts: usize = l0_ssts;
        assert(manifest.tree.compacted@.take(0) =~= Seq::<SortedRun>::empty());
        for r in 0..sorted_runs
            invariant
                sorted_runs == manifest.tree.compacted@.len(),
                l0_ssts + run_ssts(manifest.tree.compacted@) <= usize::MAX,
                ssts == l0_ssts + run_ssts(manifest.tree.compacted@.take(r as int)),
        {
            proof {
                let now = manifest.tree.compacted@.take(r + 1);
                assert(now.drop_last() =~= manifest.tree.compacted@.take(r as int));
                lemma_run_ssts_grow(manifest.tree.compacted@, r + 1);
            }
            ssts = ssts + manifest.tree.compacted[r].sst_views().len();
        }
        assert(manifest.tree.compacted@.take(sorted_runs as int) =~= manifest.tree.compacted@);
        ManifestShape { l0_ssts, sorted_runs, ssts }
    }

    /// The log record of the shape.
    pub fn log(&self) -> (record: ShapeRecord)
        ensures
            record.message@ == "manifest shape"@,
            record.l0_ssts == self.l0_ssts,
            record.sorted_runs == self.sorted_runs,
            record.ssts == self.ssts,
    {
        ShapeRecord {
            message: "manifest shape",
            l0_ssts: self.l0_ssts,
            sorted_runs: self.sorted_runs,
            ssts: self.ssts,
        }
    }
}

/// How often the wait reads the manifest, in milliseconds.
pub const POLL_MILLIS: u64 = 500;

/// A shape that stays the same this long is final, in milliseconds. The time
/// must be longer than the poll interval of the compactor, which is 5 seconds
/// by default, so the compactor had a chance to schedule the next step.
pub const COMPACTION_SETTLE_MILLIS: u64 = 12_000;

/// How many polls in a row must see the same shape.
pub const STABLE_POLLS: u64 = 24;

/// What the wait does next.
#[derive(Clone, Copy, Debug, PartialEq, Eq, Structural)]
pub enum WaitStep {
    /// Sleep for [`POLL_MILLIS`], then read the manifest.
    Poll,
    /// The shape is final.
    Settled,
    /// The time is up, and the shape still changes.
    TimedOut,
}

/// A wait until the shape of the manifest stays the same.
#[derive(Clone, Copy, Debug)]
pub struct CompactionWait {
    pub last_shape: ManifestShape,
    /// How many polls in a row saw the last shape.
    pub stable: u64,
}

/// The shape did not change in the last `polls` polls of `seen`.
pub open spec fn unchanged_for(seen: Seq<ManifestShape>, polls: nat) -> bool {
    polls < seen.len() && forall|i: int|
        seen.len() - 1 - polls <= i < seen.len() ==> #[trigger] seen[i] == seen.last()
}

impl CompactionWait {
    /// The wait stands for the shapes `seen`: the one at the start, and one
    /// per poll. It counts up to the polls that it needs.
    pub open spec fn stands_for(self, seen: Seq<ManifestShape>) -> bool {
        &&& seen.len() > 0
        &&& self.last_shape == seen.last()
        &&& self.stable <= STABLE_POLLS
        &&& unchanged_for(seen, self.stable as nat)
        &&& !unchanged_for(seen, (self.stable + 1) as nat) || self.stable == STABLE_POLLS
    }

    /// Start with the shape after the flush.
    pub fn new(shape: ManifestShape) -> (wait: Self)
        ensures
            wait.stands_for(seq![shape]),
            wait.stable == 0,
            wait.last_shape == shape,
    {
        CompactionWait { last_shape: shape, stable: 0 }
    }

    /// What to do after `elapsed` nanoseconds: the wait ends when the shape is
    /// settled, and in any case after `timeout` nanoseconds.
    pub fn step(&self, elapsed: u128, timeout: u128) -> (step: WaitStep)
        ensures
            step == if self.stable >= STABLE_POLLS {
                WaitStep::Settled
            } else if elapsed < timeout {
                WaitStep::Poll
            } else {
                WaitStep::TimedOut
            },
    {
        if self.stable >= STABLE_POLLS {
            WaitStep::Settled
        } else if elapsed < timeout {
            WaitStep::Poll
        } else {
            WaitStep::TimedOut
        }
    }

    /// The wait after one more poll.
    pub open spec fn polled(self, shape: ManifestShape) -> Self {
        CompactionWait {
            last_shape: shape,
            stable: if shape != self.last_shape {
                0
            } else if self.stable < STABLE_POLLS {
                (self.stable + 1) as u64
            } else {
                self.stable
            },
        }
    }

    /// Take the shape of one poll.
    pub fn poll(&mut self, shape: ManifestShape)
        ensures
            *final(self) == old(self).polled(shape),
    {
        if shape == self.last_shape {
            if self.stable < STABLE_POLLS {
                self.stable = self.stable + 1;
            }
        } else {
            self.stable = 0;
            self.last_shape = shape;
        }
    }
}

/// The wait settles exactly when the last polls all saw the same shape, for
/// the whole settle time.
pub proof fn law_settled_means_unchanged(
    wait: CompactionWait,
    seen: Seq<ManifestShape>,
    shape: ManifestShape,
)
    requires
        wait.stands_for(seen),
    ensures
        wait.polled(shape).stands_for(seen.push(shape)),
        wait.polled(shape).stable >= STABLE_POLLS <==> unchanged_for(
            seen.push(shape),
            STABLE_POLLS as nat,
        ),
        STABLE_POLLS * POLL_MILLIS == COMPACTION_SETTLE_MILLIS,
{
    let now = seen.push(shape);
    let after = wait.polled(shape);
    let n = seen.len() as int;
    if shape == wait.last_shape {
        assert forall|i: int| n - after.stable <= i < n + 1 implies #[trigger] now[i]
            == now.last() by {
            if i < n {
                assert(now[i] == seen[i]);
            }
        }
        assert(unchanged_for(now, after.stable as nat));
        if after.stable < STABLE_POLLS && unchanged_for(now, (after.stable + 1) as nat) {
            assert forall|i: int| n - 1 - (wait.stable + 1) <= i < n implies #[trigger] seen[i]
                == seen.last() by {
                assert(now[i] == now.last());
                assert(now[i] == seen[i]);
            }
            assert(unchanged_for(seen, (wait.stable + 1) as nat));
        }
    } else {
        assert(unchanged_for(now, 0));
        if unchanged_for(now, 1) {
            assert(now[n - 1] == now.last());
        }
    }
    if unchanged_for(now, STABLE_POLLS as nat) {
        assert forall|m: nat| m <= STABLE_POLLS implies #[trigger] unchanged_for(now, m) by {}
        if after.stable < STABLE_POLLS {
            assert(unchanged_for(now, (after.stable + 1) as nat));
        }
    }
}

/// Each SST of each sorted run counts one time.
pub proof fn law_each_run_counts(runs: Seq<SortedRun>, run: SortedRun)
    ensures
        run_ssts(runs.push(run)) == run_ssts(runs) + run.views@.len(),
        run_ssts(Seq::empty()) == 0,
{
    assert(runs.push(run).drop_last() =~= runs);
}

/// A poll that sees another shape starts the count over. A poll that sees the
/// same shape counts one more, up to the polls that fill the settle time of
/// twelve seconds at two polls per second.
pub proof fn law_a_change_starts_the_wait_over(wait: CompactionWait, shape: ManifestShape)
    ensures
        wait.polled(shape).last_shape == shape,
        shape != wait.last_shape ==> wait.polled(shape).stable == 0,
        shape == wait.last_shape && wait.stable < 24 ==> wait.polled(shape).stable == wait.stable
            + 1,
        shape == wait.last_shape && wait.stable >= 24 ==> wait.polled(shape).stable == wait.stable,
        POLL_MILLIS == 500,
        COMPACTION_SETTLE_MILLIS == 12_000,
{
}

} // verus!
