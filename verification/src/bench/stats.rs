//! What the benchmark reports, and when.
//!
//! Times are in nanoseconds.

use rand_xorshift::XorShiftRng;
use vstd::prelude::*;

use super::counters::{wrapped, Counters};
use super::rng::{from_os_rng, random_below, range_draw, rng_state};
use crate::sort::{merge_sort, Ranked};

verus! {

/// How frequently to dump stats to the console.
pub const STAT_DUMP_INTERVAL: u128 = 10_000_000_000;

/// How far back to look when dumping stats.
pub const STAT_DUMP_LOOKBACK: u128 = 60_000_000_000;

/// How frequently to update stats between puts and gets and how frequently
/// to check if we need to dump new stats.
pub const REPORT_INTERVAL: u128 = 100_000_000;

/// Maximum number of read latency samples between two stats dumps. Above this
/// limit, a new sample replaces a random old one.
pub const MAX_LATENCY_SAMPLES: usize = 200_000;

// ---------------------------------------------------------------------------
// Latencies
// ---------------------------------------------------------------------------

/// A bounded set of latency samples. Above [`MAX_LATENCY_SAMPLES`], a new
/// sample replaces a random old one, so recent calls weigh more.
pub struct LatencySamples {
    pub samples: Vec<u128>,
    pub rng: XorShiftRng,
}

/// What a [`LatencySamples`] says.
pub struct SampleState {
    pub samples: Seq<u128>,
    pub rng: Seq<u32>,
}

impl View for LatencySamples {
    type V = SampleState;

    open spec fn view(&self) -> SampleState {
        SampleState { samples: self.samples@, rng: rng_state(self.rng) }
    }
}

impl SampleState {
    /// The samples after one more.
    pub open spec fn record(self, sample: u128) -> Self {
        if self.samples.len() < MAX_LATENCY_SAMPLES {
            SampleState { samples: self.samples.push(sample), ..self }
        } else {
            let (i, rng) = range_draw(self.rng, self.samples.len() as usize);
            SampleState { samples: self.samples.update(i as int, sample), rng }
        }
    }

    /// The samples after some more.
    pub open spec fn record_all(self, samples: Seq<u128>) -> Self
        decreases samples.len(),
    {
        if samples.len() == 0 {
            self
        } else {
            self.record_all(samples.drop_last()).record(samples.last())
        }
    }
}

impl Ranked for u128 {
    open spec fn ranks_le(self, other: Self) -> bool {
        self <= other
    }

    proof fn rank_total(a: Self, b: Self) {
    }

    proof fn rank_transitive(a: Self, b: Self, c: Self) {
    }

    fn rank_le(&self, other: &Self) -> bool {
        *self <= *other
    }
}

/// The number of samples that are left of `n`.
pub open spec fn bounded(n: nat) -> nat {
    if n < MAX_LATENCY_SAMPLES {
        n
    } else {
        MAX_LATENCY_SAMPLES as nat
    }
}

/// Each of the samples `some` is one of `all`.
pub open spec fn samples_among(some: Seq<u128>, all: Seq<u128>) -> bool {
    forall|i: int| 0 <= i < some.len() ==> all.contains(#[trigger] some[i])
}

/// Samples from the smallest to the largest.
pub open spec fn samples_in_order(samples: Seq<u128>) -> bool {
    forall|i: int, j: int| 0 <= i < j < samples.len() ==> (#[trigger] samples[i]) <= (
    #[trigger] samples[j])
}

/// The index of the sample at `percent` percent of `n` samples, rounded to
/// the nearest and half up.
pub open spec fn percentile_rank(n: int, percent: int) -> int {
    (2 * (n - 1) * percent + 100) / 200
}

impl LatencySamples {
    /// The set stays bounded.
    pub open spec fn wf(self) -> bool {
        self.samples@.len() <= MAX_LATENCY_SAMPLES
    }

    /// An empty set.
    pub fn new() -> (samples: Self)
        ensures
            samples.wf(),
            samples@.samples == Seq::<u128>::empty(),
    {
        LatencySamples { samples: Vec::new(), rng: from_os_rng() }
    }

    /// Add one sample.
    pub fn record(&mut self, sample: u128)
        requires
            old(self).wf(),
        ensures
            final(self).wf(),
            final(self)@ == old(self)@.record(sample),
            final(self)@.samples.len() == bounded(old(self)@.samples.len() + 1),
            final(self)@.samples.contains(sample),
            samples_among(final(self)@.samples, old(self)@.samples.push(sample)),
    {
        let ghost all = self.samples@.push(sample);
        let n: usize = self.samples.len();
        assert(all[n as int] == sample);
        if n < MAX_LATENCY_SAMPLES {
            self.samples.push(sample);
            assert(self.samples@[n as int] == sample);
        } else {
            let idx: usize = random_below(&mut self.rng, n);
            self.samples.set(idx, sample);
            assert(self.samples@[idx as int] == sample);
        }
        proof {
            assert forall|i: int| 0 <= i < self.samples@.len() implies all.contains(
                #[trigger] self.samples@[i],
            ) by {
                assert(self.samples@[i] == sample || self.samples@[i] == all[i]);
            }
        }
    }

    /// Returns the sorted samples and leaves the set empty.
    pub fn take_sorted(&mut self) -> (sorted: Vec<u128>)
        requires
            old(self).wf(),
        ensures
            samples_in_order(sorted@),
            sorted@.to_multiset() == old(self)@.samples.to_multiset(),
            sorted@.len() == old(self)@.samples.len(),
            samples_among(sorted@, old(self)@.samples),
            final(self).wf(),
            final(self)@ == (SampleState { samples: Seq::empty(), ..old(self)@ }),
    {
        let sorted = merge_sort(self.samples.as_slice());
        proof {
            broadcast use vstd::seq_lib::group_to_multiset_ensures;
            assert(sorted@.to_multiset().len() == sorted@.len());
            assert(self.samples@.to_multiset().len() == self.samples@.len());
            assert forall|i: int, j: int| 0 <= i < j < sorted@.len() implies (#[trigger] sorted@[i])
                <= (#[trigger] sorted@[j]) by {
                assert(sorted@[i].ranks_le(sorted@[j]));
            }
            assert forall|i: int| 0 <= i < sorted@.len() implies self.samples@.contains(
                #[trigger] sorted@[i],
            ) by {
                assert(sorted@.contains(sorted@[i]));
                assert(sorted@.to_multiset().count(sorted@[i]) > 0);
            }
        }
        self.samples.clear();
        assert(self.samples@ =~= Seq::<u128>::empty());
        sorted
    }

    /// Returns the value at `percent` percent of sorted samples, or zero with
    /// no samples.
    pub fn percentile(sorted: &Vec<u128>, percent: u64) -> (value: u128)
        requires
            percent <= 100,
        ensures
            value == if sorted@.len() == 0 {
                0
            } else {
                sorted@[percentile_rank(sorted@.len() as int, percent as int)]
            },
            sorted@.len() > 0 ==> 0 <= percentile_rank(sorted@.len() as int, percent as int)
                < sorted@.len(),
    {
        let n: usize = sorted.len();
        if n == 0 {
            return 0;
        }
        let last: u128 = (n - 1) as u128;
        proof {
            lemma_rank_in_range(n as int, percent as int);
            assert(2 * last * percent <= 2 * last * 100) by (nonlinear_arith)
                requires
                    percent <= 100,
            ;
        }
        let rank: u128 = (2 * last * (percent as u128) + 100) / 200;
        sorted[rank as usize]
    }
}

/// The rank of a percentile is one of the samples.
proof fn lemma_rank_in_range(n: int, percent: int)
    requires
        0 < n,
        0 <= percent <= 100,
    ensures
        0 <= percentile_rank(n, percent) < n,
{
    let x = 2 * (n - 1) * percent;
    assert(0 <= x <= 200 * (n - 1)) by (nonlinear_arith)
        requires
            0 < n,
            0 <= percent <= 100,
            x == 2 * (n - 1) * percent,
    ;
    assert((x + 100) / 200 < n) by (nonlinear_arith)
        requires
            0 <= x <= 200 * (n - 1),
    ;
}

/// A larger percentile is no smaller value.
pub proof fn law_percentiles_ascend(sorted: Seq<u128>, a: int, b: int)
    requires
        sorted.len() > 0,
        samples_in_order(sorted),
        0 <= a <= b <= 100,
    ensures
        sorted[percentile_rank(sorted.len() as int, a)] <= sorted[percentile_rank(
            sorted.len() as int,
            b,
        )],
        percentile_rank(sorted.len() as int, 0) == 0,
        percentile_rank(sorted.len() as int, 100) == sorted.len() - 1,
{
    let n = sorted.len() as int;
    lemma_rank_in_range(n, a);
    lemma_rank_in_range(n, b);
    assert(2 * (n - 1) * a <= 2 * (n - 1) * b) by (nonlinear_arith)
        requires
            0 < n,
            a <= b,
    ;
    let x = 2 * (n - 1) * a + 100;
    let y = 2 * (n - 1) * b + 100;
    vstd::arithmetic::div_mod::lemma_div_is_ordered(x, y, 200);
}

// ---------------------------------------------------------------------------
// Totals
// ---------------------------------------------------------------------------

/// What one task did since its last report.
#[derive(Clone, Copy, Debug, PartialEq, Eq, Structural)]
pub struct OpCounts {
    pub puts: u64,
    pub gets: u64,
    pub puts_bytes: u64,
    pub gets_bytes: u64,
    pub gets_hits: u64,
}

impl OpCounts {
    /// Nothing happened.
    pub open spec fn zero() -> Self {
        OpCounts { puts: 0, gets: 0, puts_bytes: 0, gets_bytes: 0, gets_hits: 0 }
    }

    /// Nothing happened.
    pub fn none() -> (counts: Self)
        ensures
            counts == Self::zero(),
    {
        OpCounts { puts: 0, gets: 0, puts_bytes: 0, gets_bytes: 0, gets_hits: 0 }
    }

    /// The sum of two counts fits.
    pub open spec fn fits(self, more: Self) -> bool {
        &&& self.puts + more.puts <= u64::MAX
        &&& self.gets + more.gets <= u64::MAX
        &&& self.puts_bytes + more.puts_bytes <= u64::MAX
        &&& self.gets_bytes + more.gets_bytes <= u64::MAX
        &&& self.gets_hits + more.gets_hits <= u64::MAX
    }

    /// The sum of two counts.
    pub open spec fn plus(self, more: Self) -> Self {
        OpCounts {
            puts: (self.puts + more.puts) as u64,
            gets: (self.gets + more.gets) as u64,
            puts_bytes: (self.puts_bytes + more.puts_bytes) as u64,
            gets_bytes: (self.gets_bytes + more.gets_bytes) as u64,
            gets_hits: (self.gets_hits + more.gets_hits) as u64,
        }
    }

    /// Add the counts of one report to a window.
    pub fn record(&mut self, more: &OpCounts)
        requires
            old(self).fits(*more),
        ensures
            *final(self) == old(self).plus(*more),
    {
        self.puts = self.puts + more.puts;
        self.gets = self.gets + more.gets;
        self.puts_bytes = self.puts_bytes + more.puts_bytes;
        self.gets_bytes = self.gets_bytes + more.gets_bytes;
        self.gets_hits = self.gets_hits + more.gets_hits;
    }
}

/// The sum of some windows.
pub open spec fn window_sum(windows: Seq<OpCounts>) -> OpCounts
    decreases windows.len(),
{
    if windows.len() == 0 {
        OpCounts::zero()
    } else {
        window_sum(windows.drop_last()).plus(windows.last())
    }
}

/// Each partial sum of the windows fits.
pub open spec fn windows_fit(windows: Seq<OpCounts>) -> bool {
    forall|i: int|
        0 <= i < windows.len() ==> window_sum(windows.take(i)).fits(#[trigger] windows[i])
}

/// The sum goes on by one window, and that fits.
proof fn lemma_one_more_window(windows: Seq<OpCounts>, i: int)
    requires
        windows_fit(windows),
        0 <= i < windows.len(),
    ensures
        window_sum(windows.take(i)).fits(windows[i]),
        window_sum(windows.take(i + 1)) == window_sum(windows.take(i)).plus(windows[i]),
{
    let now = windows.take(i + 1);
    assert(now.drop_last() =~= windows.take(i));
    assert(now.last() == windows[i]);
}

/// The operations of some windows: the sum over the windows.
pub fn operations_since(windows: &Vec<OpCounts>) -> (sum: OpCounts)
    requires
        windows_fit(windows@),
    ensures
        sum == window_sum(windows@),
{
    let mut sum = OpCounts::none();
    assert(windows@.take(0) =~= Seq::<OpCounts>::empty());
    for i in 0..windows.len()
        invariant
            windows_fit(windows@),
            sum == window_sum(windows@.take(i as int)),
    {
        proof {
            lemma_one_more_window(windows@, i as int);
        }
        sum.record(&windows[i]);
    }
    assert(windows@.take(windows@.len() as int) =~= windows@);
    sum
}

/// The totals since the start of the run.
pub struct DbStatsRecorder {
    pub totals: OpCounts,
    /// Read calls since the start. One call reads one key or one batch.
    pub total_calls: u64,
    /// Latency samples of the read calls since the last stats dump.
    pub latencies: LatencySamples,
}

impl DbStatsRecorder {
    /// Nothing happened yet.
    pub fn new() -> (stats: Self)
        ensures
            stats.latencies.wf(),
            stats.totals == OpCounts::zero(),
            stats.total_calls == 0,
            stats.latencies@.samples == Seq::<u128>::empty(),
    {
        DbStatsRecorder {
            totals: OpCounts::none(),
            total_calls: 0,
            latencies: LatencySamples::new(),
        }
    }

    /// Count some puts. The totals wrap at the end of their range.
    pub fn record_puts(&mut self, puts: u64, bytes: u64)
        ensures
            final(self).totals == (OpCounts {
                puts: wrapped(old(self).totals.puts, puts as int),
                puts_bytes: wrapped(old(self).totals.puts_bytes, bytes as int),
                ..old(self).totals
            }),
            final(self).total_calls == old(self).total_calls,
            final(self).latencies == old(self).latencies,
    {
        self.totals.puts = self.totals.puts.wrapping_add(puts);
        self.totals.puts_bytes = self.totals.puts_bytes.wrapping_add(bytes);
    }

    /// Count some gets. The totals wrap at the end of their range.
    pub fn record_gets(&mut self, gets: u64, bytes: u64, hits: u64)
        ensures
            final(self).totals == (OpCounts {
                gets: wrapped(old(self).totals.gets, gets as int),
                gets_bytes: wrapped(old(self).totals.gets_bytes, bytes as int),
                gets_hits: wrapped(old(self).totals.gets_hits, hits as int),
                ..old(self).totals
            }),
            final(self).total_calls == old(self).total_calls,
            final(self).latencies == old(self).latencies,
    {
        self.totals.gets = self.totals.gets.wrapping_add(gets);
        self.totals.gets_bytes = self.totals.gets_bytes.wrapping_add(bytes);
        self.totals.gets_hits = self.totals.gets_hits.wrapping_add(hits);
    }

    /// Moves the samples of `samples.len()` read calls into the recorder.
    pub fn record_latencies(&mut self, samples: &mut Vec<u128>)
        requires
            old(self).latencies.wf(),
        ensures
            final(self).latencies.wf(),
            final(self).totals == old(self).totals,
            final(self).total_calls == wrapped(
                old(self).total_calls,
                old(samples)@.len() as int,
            ),
            final(self).latencies@ == old(self).latencies@.record_all(old(samples)@),
            final(self).latencies@.samples.len() == bounded(
                old(self).latencies@.samples.len() + old(samples)@.len(),
            ),
            samples_among(
                final(self).latencies@.samples,
                old(self).latencies@.samples + old(samples)@,
            ),
            final(samples)@ == Seq::<u128>::empty(),
    {
        let n: usize = samples.len();
        self.total_calls = self.total_calls.wrapping_add(n as u64);
        let ghost start = self.latencies@;
        proof {
            let all = start.samples + samples@;
            assert forall|k: int| 0 <= k < start.samples.len() implies all.contains(
                #[trigger] start.samples[k],
            ) by {
                assert(all[k] == start.samples[k]);
            }
        }
        assert(samples@.take(0) =~= Seq::<u128>::empty());
        for i in 0..n
            invariant
                n == samples@.len(),
                samples@ == old(samples)@,
                self.latencies.wf(),
                self.totals == old(self).totals,
                self.total_calls == wrapped(old(self).total_calls, n as int),
                self.latencies@ == start.record_all(samples@.take(i as int)),
                start == old(self).latencies@,
                self.latencies@.samples.len() == bounded(start.samples.len() + i as nat),
                samples_among(self.latencies@.samples, start.samples + samples@),
        {
            let ghost before = self.latencies@.samples;
            proof {
                let now = samples@.take(i + 1);
                assert(now.drop_last() =~= samples@.take(i as int));
                assert(now.last() == samples@[i as int]);
            }
            self.latencies.record(samples[i]);
            proof {
                let all = start.samples + samples@;
                assert(all[start.samples.len() + i] == samples@[i as int]);
                assert forall|k: int| 0 <= k < self.latencies@.samples.len() implies all.contains(
                    #[trigger] self.latencies@.samples[k],
                ) by {
                    let some = before.push(samples@[i as int]);
                    assert(some.contains(self.latencies@.samples[k]));
                    let j = choose|j: int|
                        0 <= j < some.len() && some[j] == self.latencies@.samples[k];
                    if j < before.len() {
                        assert(all.contains(before[j]));
                    }
                }
            }
        }
        assert(samples@.take(n as int) =~= samples@);
        samples.clear();
        assert(samples@ =~= Seq::<u128>::empty());
    }

    /// Returns the sorted samples since the last call.
    pub fn take_latencies(&mut self) -> (sorted: Vec<u128>)
        requires
            old(self).latencies.wf(),
        ensures
            samples_in_order(sorted@),
            sorted@.to_multiset() == old(self).latencies@.samples.to_multiset(),
            sorted@.len() == old(self).latencies@.samples.len(),
            samples_among(sorted@, old(self).latencies@.samples),
            final(self).latencies.wf(),
            final(self).latencies@ == (SampleState {
                samples: Seq::empty(),
                ..old(self).latencies@
            }),
            final(self).totals == old(self).totals,
            final(self).total_calls == old(self).total_calls,
    {
        self.latencies.take_sorted()
    }
}

// ---------------------------------------------------------------------------
// Dumps
// ---------------------------------------------------------------------------

/// The value of a metric.
#[derive(Clone, Copy, Debug, PartialEq, Eq, Structural)]
pub enum MetricValue {
    Counter(u64),
    /// A gauge, a histogram, or any other kind.
    Other,
}

/// The read call counters since the start of the run. The difference of two
/// snapshots gives the numbers of one dump interval. The counters are shared
/// by all tasks, so the per call numbers are averages over the tasks.
#[derive(Clone, Copy, Debug, PartialEq, Eq, Structural)]
pub struct ReadCallCounters {
    /// Read calls. One call reads one key or one batch.
    pub calls: u64,
    /// GET requests for `.sst` objects.
    pub sst_gets: u64,
    /// Bytes read from `.sst` objects.
    pub sst_bytes: u64,
    /// GET requests for all other objects, for example manifests.
    pub other_gets: u64,
    /// Rounds of the `multi_get` calls.
    pub rounds: u64,
}

impl ReadCallCounters {
    /// The counters now. `metric` is the first metric with the name of the
    /// round counter.
    pub fn snapshot(calls: u64, counters: &Counters, metric: &Option<MetricValue>) -> (snapshot:
        Self)
        ensures
            snapshot == (ReadCallCounters {
                calls,
                sst_gets: counters.sst_gets,
                sst_bytes: counters.sst_bytes,
                other_gets: counters.other_gets,
                rounds: match *metric {
                    Some(MetricValue::Counter(value)) => value,
                    _ => 0,
                },
            }),
    {
        ReadCallCounters {
            calls,
            sst_gets: counters.sst_gets,
            sst_bytes: counters.sst_bytes,
            other_gets: counters.other_gets,
            rounds: Self::rounds(metric),
        }
    }

    /// Reads the `multi_get` rounds from the metric of that name. A missing
    /// metric, or one that is no counter, counts as zero.
    pub fn rounds(metric: &Option<MetricValue>) -> (rounds: u64)
        ensures
            rounds == match *metric {
                Some(MetricValue::Counter(value)) => value,
                _ => 0,
            },
    {
        match metric {
            Some(MetricValue::Counter(value)) => *value,
            _ => 0,
        }
    }

    /// No counter went back since `last`.
    pub open spec fn after(self, last: Self) -> bool {
        &&& last.calls <= self.calls
        &&& last.sst_gets <= self.sst_gets
        &&& last.sst_bytes <= self.sst_bytes
        &&& last.other_gets <= self.other_gets
        &&& last.rounds <= self.rounds
    }

    /// The counts between the `last` snapshot and this one.
    pub open spec fn minus(self, last: Self) -> Self {
        ReadCallCounters {
            calls: (self.calls - last.calls) as u64,
            sst_gets: (self.sst_gets - last.sst_gets) as u64,
            sst_bytes: (self.sst_bytes - last.sst_bytes) as u64,
            other_gets: (self.other_gets - last.other_gets) as u64,
            rounds: (self.rounds - last.rounds) as u64,
        }
    }

    /// Returns the counts between the `last` snapshot and this one.
    pub fn since(&self, last: &Self) -> (counts: Self)
        requires
            self.after(*last),
        ensures
            counts == self.minus(*last),
    {
        ReadCallCounters {
            calls: self.calls - last.calls,
            sst_gets: self.sst_gets - last.sst_gets,
            sst_bytes: self.sst_bytes - last.sst_bytes,
            other_gets: self.other_gets - last.other_gets,
            rounds: self.rounds - last.rounds,
        }
    }
}

/// The counts of two dump intervals that follow each other add up to the
/// counts of both.
pub proof fn law_dump_intervals_add_up(
    first: ReadCallCounters,
    second: ReadCallCounters,
    third: ReadCallCounters,
)
    requires
        second.after(first),
        third.after(second),
    ensures
        third.after(first),
        third.minus(first).calls == second.minus(first).calls + third.minus(second).calls,
        third.minus(first).sst_gets == second.minus(first).sst_gets + third.minus(second).sst_gets,
        third.minus(first).sst_bytes == second.minus(first).sst_bytes + third.minus(
            second,
        ).sst_bytes,
        third.minus(first).other_gets == second.minus(first).other_gets + third.minus(
            second,
        ).other_gets,
        third.minus(first).rounds == second.minus(first).rounds + third.minus(second).rounds,
{
}

/// The sums of the counts of some dumps.
pub struct DumpSums {
    pub calls: nat,
    pub sst_gets: nat,
    pub sst_bytes: nat,
    pub other_gets: nat,
    pub rounds: nat,
}

/// The sums of the counts that the dumps at `snapshots` report. The first
/// snapshot is the start of the run, and each other one is that of a dump.
pub open spec fn dumped(snapshots: Seq<ReadCallCounters>) -> DumpSums
    decreases snapshots.len(),
{
    if snapshots.len() <= 1 {
        DumpSums { calls: 0, sst_gets: 0, sst_bytes: 0, other_gets: 0, rounds: 0 }
    } else {
        let before = dumped(snapshots.drop_last());
        let counts = snapshots.last().minus(snapshots[snapshots.len() - 2]);
        DumpSums {
            calls: before.calls + counts.calls as nat,
            sst_gets: before.sst_gets + counts.sst_gets as nat,
            sst_bytes: before.sst_bytes + counts.sst_bytes as nat,
            other_gets: before.other_gets + counts.other_gets as nat,
            rounds: before.rounds + counts.rounds as nat,
        }
    }
}

/// The counts of all dumps of a run add up to the counts from its start to
/// its last dump.
pub proof fn law_all_dumps_add_up(snapshots: Seq<ReadCallCounters>)
    requires
        snapshots.len() > 0,
        forall|i: int|
            0 <= i < snapshots.len() - 1 ==> (#[trigger] snapshots[i + 1]).after(snapshots[i]),
    ensures
        snapshots.last().after(snapshots[0]),
        dumped(snapshots).calls == snapshots.last().minus(snapshots[0]).calls,
        dumped(snapshots).sst_gets == snapshots.last().minus(snapshots[0]).sst_gets,
        dumped(snapshots).sst_bytes == snapshots.last().minus(snapshots[0]).sst_bytes,
        dumped(snapshots).other_gets == snapshots.last().minus(snapshots[0]).other_gets,
        dumped(snapshots).rounds == snapshots.last().minus(snapshots[0]).rounds,
    decreases snapshots.len(),
{
    if snapshots.len() > 1 {
        let front = snapshots.drop_last();
        let n = snapshots.len() - 2;
        assert forall|i: int| 0 <= i < front.len() - 1 implies (#[trigger] front[i + 1]).after(
            front[i],
        ) by {
            assert(snapshots[i + 1].after(snapshots[i]));
        }
        law_all_dumps_add_up(front);
        assert(snapshots[n + 1].after(snapshots[n]));
        law_dump_intervals_add_up(snapshots[0], snapshots[n], snapshots.last());
    }
}

/// The dump state after the dumps at `dumps`, one after the other.
pub open spec fn after_dumps(dump: StatsDump, dumps: Seq<ReadCallCounters>) -> StatsDump
    decreases dumps.len(),
{
    if dumps.len() == 0 {
        dump
    } else {
        StatsDump { last_counters: dumps.last(), ..after_dumps(dump, dumps.drop_last()) }
    }
}

/// Each dump reports the counts since the one before it, or since the start,
/// so the counts of all dumps are those of [`dumped`].
pub proof fn law_a_dump_counts_from_the_last_one(
    dump: StatsDump,
    dumps: Seq<ReadCallCounters>,
    counters: ReadCallCounters,
)
    ensures
        ({
            let snapshots = seq![dump.last_counters] + dumps;
            let now = snapshots.push(counters);
            let counts = counters.minus(after_dumps(dump, dumps).last_counters);
            &&& after_dumps(dump, dumps).last_counters == snapshots.last()
            &&& dumped(now).calls == dumped(snapshots).calls + counts.calls
            &&& dumped(now).sst_gets == dumped(snapshots).sst_gets + counts.sst_gets
            &&& dumped(now).sst_bytes == dumped(snapshots).sst_bytes + counts.sst_bytes
            &&& dumped(now).other_gets == dumped(snapshots).other_gets + counts.other_gets
            &&& dumped(now).rounds == dumped(snapshots).rounds + counts.rounds
        }),
{
    let snapshots = seq![dump.last_counters] + dumps;
    let now = snapshots.push(counters);
    assert(now.drop_last() =~= snapshots);
    assert(now[now.len() - 2] == snapshots.last());
}

/// The time from `start` to `end`, or zero when `end` is earlier.
pub open spec fn time_between(start: u128, end: u128) -> u128 {
    if start <= end {
        (end - start) as u128
    } else {
        0
    }
}

/// The time from `start` to `end`, or zero when `end` is earlier.
fn duration(start: u128, end: u128) -> (time: u128)
    ensures
        time == time_between(start, end),
{
    if start <= end {
        end - start
    } else {
        0
    }
}

/// The numbers of one dump.
#[derive(Clone, Copy, Debug, PartialEq, Eq, Structural)]
pub struct DumpTimes {
    /// The time that the sums of the windows cover.
    pub interval: u128,
    /// The time since the first window that the benchmark saw.
    pub elapsed: u128,
}

/// When the benchmark dumps its stats.
#[derive(Clone, Copy, Debug, PartialEq, Eq, Structural)]
pub struct StatsDump {
    pub last_stats_dump: Option<u128>,
    pub first_dump_start: Option<u128>,
    pub last_counters: ReadCallCounters,
}

impl StatsDump {
    /// Start with the counters of the start of the run.
    pub fn new(counters: ReadCallCounters) -> (dump: Self)
        ensures
            dump == (StatsDump {
                last_stats_dump: None,
                first_dump_start: None,
                last_counters: counters,
            }),
    {
        StatsDump { last_stats_dump: None, first_dump_start: None, last_counters: counters }
    }

    /// A dump is due when the last one, or the start of the windows, is
    /// [`STAT_DUMP_INTERVAL`] before the end of the windows.
    pub open spec fn due(self, start: u128, end: u128) -> bool {
        time_between(
            match self.last_stats_dump {
                Some(last) => last,
                None => start,
            },
            end,
        ) >= STAT_DUMP_INTERVAL
    }

    /// The start of the first window that the benchmark saw.
    pub open spec fn first_start(self, start: u128) -> u128 {
        match self.first_dump_start {
            Some(first) => first,
            None => start,
        }
    }

    /// Look at the windows `start..end`. The result says that a dump is due,
    /// and what it covers.
    pub fn tick(&mut self, start: u128, end: u128) -> (times: Option<DumpTimes>)
        ensures
            times == if old(self).due(start, end) {
                Some(
                    DumpTimes {
                        interval: time_between(start, end),
                        elapsed: time_between(old(self).first_start(start), end),
                    },
                )
            } else {
                None
            },
            *final(self) == (StatsDump {
                first_dump_start: Some(old(self).first_start(start)),
                last_stats_dump: if old(self).due(start, end) {
                    Some(end)
                } else {
                    old(self).last_stats_dump
                },
                ..*old(self)
            }),
    {
        let since: u128 = match self.last_stats_dump {
            Some(last) => last,
            None => start,
        };
        let first: u128 = match self.first_dump_start {
            Some(first) => first,
            None => start,
        };
        self.first_dump_start = Some(first);
        if duration(since, end) >= STAT_DUMP_INTERVAL {
            self.last_stats_dump = Some(end);
            Some(DumpTimes { interval: duration(start, end), elapsed: duration(first, end) })
        } else {
            None
        }
    }

    /// The read calls since the last dump.
    pub fn call_stats(&mut self, counters: ReadCallCounters) -> (stats: ReadCallCounters)
        requires
            counters.after(old(self).last_counters),
        ensures
            stats == counters.minus(old(self).last_counters),
            *final(self) == (StatsDump { last_counters: counters, ..*old(self) }),
    {
        let stats = counters.since(&self.last_counters);
        self.last_counters = counters;
        stats
    }
}

/// Two dumps are at least [`STAT_DUMP_INTERVAL`] apart.
pub proof fn law_dumps_keep_their_distance(
    dump: StatsDump,
    last: u128,
    start: u128,
    end: u128,
)
    requires
        dump.last_stats_dump == Some(last),
        dump.due(start, end),
    ensures
        end >= last + STAT_DUMP_INTERVAL,
{
}

/// The rank of a percentile is the whole number that is nearest to
/// `(n - 1) * percent / 100`. A half goes up.
pub proof fn law_a_percentile_is_the_nearest_rank(n: int, percent: int)
    requires
        0 < n,
        0 <= percent <= 100,
    ensures
        2 * ((n - 1) * percent) - 100 < 200 * percentile_rank(n, percent) <= 2 * ((n - 1)
            * percent) + 100,
{
    let exact = (n - 1) * percent;
    assert(2 * (n - 1) * percent == 2 * exact) by (nonlinear_arith)
        requires
            exact == (n - 1) * percent,
    ;
    vstd::arithmetic::div_mod::lemma_fundamental_div_mod(2 * exact + 100, 200);
    vstd::arithmetic::div_mod::lemma_mod_bound(2 * exact + 100, 200);
}

/// Below the limit, a sample joins the others. At the limit it takes the place
/// of the one that a draw picks, and all others stay.
pub proof fn law_a_sample_joins_or_replaces(state: SampleState, sample: u128)
    ensures
        state.samples.len() < 200_000 ==> state.record(sample).samples == state.samples.push(sample)
            && state.record(sample).rng == state.rng,
        state.samples.len() >= 200_000 ==> {
            let (i, rng) = range_draw(state.rng, state.samples.len() as usize);
            let after = state.record(sample);
            &&& after.rng == rng
            &&& i < state.samples.len() ==> after.samples.len() == state.samples.len()
                && after.samples[i as int] == sample && forall|j: int|
                0 <= j < state.samples.len() && j != i ==> #[trigger] after.samples[j]
                    == state.samples[j]
        },
{
}

/// The samples of a report are recorded one after the other. As long as all of
/// them fit, they stand behind the samples of before, in order.
pub proof fn law_samples_are_recorded_in_order(state: SampleState, samples: Seq<u128>, last: u128)
    ensures
        state.record_all(Seq::empty()) == state,
        state.record_all(samples.push(last)) == state.record_all(samples).record(last),
        state.samples.len() + samples.len() <= 200_000 ==> state.record_all(samples)
            == (SampleState { samples: state.samples + samples, rng: state.rng }),
    decreases samples.len(),
{
    assert(samples.push(last).drop_last() =~= samples);
    if samples.len() == 0 {
        assert(state.samples + samples =~= state.samples);
    } else {
        law_samples_are_recorded_in_order(state, samples.drop_last(), samples.last());
        assert(samples.drop_last().push(samples.last()) =~= samples);
        assert((state.samples + samples.drop_last()).push(samples.last()) =~= state.samples
            + samples);
    }
}

/// The sum of some windows is, count by count, the sum without the last
/// window plus the last window.
pub proof fn law_windows_add_up(windows: Seq<OpCounts>, last: OpCounts)
    requires
        window_sum(windows).puts + last.puts <= u64::MAX,
        window_sum(windows).gets + last.gets <= u64::MAX,
        window_sum(windows).puts_bytes + last.puts_bytes <= u64::MAX,
        window_sum(windows).gets_bytes + last.gets_bytes <= u64::MAX,
        window_sum(windows).gets_hits + last.gets_hits <= u64::MAX,
    ensures
        window_sum(windows).fits(last),
        windows_fit(windows) ==> windows_fit(windows.push(last)),
        ({
            let before = window_sum(windows);
            let sum = window_sum(windows.push(last));
            &&& sum.puts == before.puts + last.puts
            &&& sum.gets == before.gets + last.gets
            &&& sum.puts_bytes == before.puts_bytes + last.puts_bytes
            &&& sum.gets_bytes == before.gets_bytes + last.gets_bytes
            &&& sum.gets_hits == before.gets_hits + last.gets_hits
        }),
        ({
            let none = window_sum(Seq::empty());
            none.puts == 0 && none.gets == 0 && none.puts_bytes == 0 && none.gets_bytes == 0
                && none.gets_hits == 0
        }),
{
    let all = windows.push(last);
    assert(all.drop_last() =~= windows);
    if windows_fit(windows) {
        assert forall|i: int| 0 <= i < all.len() implies window_sum(all.take(i)).fits(
            #[trigger] all[i],
        ) by {
            assert(all.take(i) =~= windows.take(i));
            if i < windows.len() {
                assert(all[i] == windows[i]);
            } else {
                assert(windows.take(i) =~= windows);
            }
        }
    }
}

/// What a dump reports and what the counters were at the dump before it give
/// the counters now.
pub proof fn law_the_counts_since_the_last_dump_lead_to_now(
    last: ReadCallCounters,
    now: ReadCallCounters,
)
    requires
        last.calls <= now.calls,
        last.sst_gets <= now.sst_gets,
        last.sst_bytes <= now.sst_bytes,
        last.other_gets <= now.other_gets,
        last.rounds <= now.rounds,
    ensures
        now.after(last),
        last.calls + now.minus(last).calls == now.calls,
        last.sst_gets + now.minus(last).sst_gets == now.sst_gets,
        last.sst_bytes + now.minus(last).sst_bytes == now.sst_bytes,
        last.other_gets + now.minus(last).other_gets == now.other_gets,
        last.rounds + now.minus(last).rounds == now.rounds,
{
}

/// A dump is due exactly ten seconds after the last one, or after the start of
/// the windows when there was none. It covers the time from the start of the
/// windows to their end, and the run started with the first window that the
/// benchmark saw.
pub proof fn law_a_dump_is_due_after_ten_seconds(dump: StatsDump, start: u128, end: u128)
    ensures
        dump.last_stats_dump matches Some(last) ==> (dump.due(start, end) <==> end >= last
            + 10_000_000_000),
        dump.last_stats_dump is None ==> (dump.due(start, end) <==> end >= start + 10_000_000_000),
        dump.first_dump_start matches Some(first) ==> dump.first_start(start) == first,
        dump.first_dump_start is None ==> dump.first_start(start) == start,
        start <= end ==> start + time_between(start, end) == end,
        start > end ==> time_between(start, end) == 0,
{
}

/// A task reports a hundred times between two dumps, and a dump looks back over
/// six intervals, which are one minute.
pub proof fn law_the_intervals_fit_together()
    ensures
        STAT_DUMP_INTERVAL == 100 * REPORT_INTERVAL,
        STAT_DUMP_LOOKBACK == 6 * STAT_DUMP_INTERVAL,
        STAT_DUMP_LOOKBACK == 60 * 1_000_000_000,
{
}

} // verus!
