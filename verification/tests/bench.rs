use std::collections::BTreeSet;
use std::sync::Arc;
use std::time::Duration;

use bytes::Bytes;
use rand::{RngCore, SeedableRng};
use rand_xorshift::XorShiftRng;
use slatedb_mget::bench::args::{
    isolation_level, parse_isolation_level, task_seed, DbArgs, Delay, DelayProfileKind, Generator,
    IsolationLevel, KeyArgs, KeyGeneratorType, MemoryCache, MetaCache, MgetArgs,
    ObjectStoreCacheOptions,
};
use slatedb_mget::bench::counters::Counters;
use slatedb_mget::bench::keys::{FixedSetKeyGenerator, KeyGenerator, RandomKeyGenerator};
use slatedb_mget::bench::reader::{ReadMode, ReadPlan, Reader};
use slatedb_mget::bench::rng::rng_from;
use slatedb_mget::bench::shape::{
    CompactionWait, ManifestShape, WaitStep, COMPACTION_SETTLE_MILLIS, POLL_MILLIS, STABLE_POLLS,
};
use slatedb_mget::bench::stats::{
    operations_since, DbStatsRecorder, LatencySamples, MetricValue, OpCounts, ReadCallCounters,
    StatsDump, MAX_LATENCY_SAMPLES, REPORT_INTERVAL, STAT_DUMP_INTERVAL, STAT_DUMP_LOOKBACK,
};
use slatedb_mget::bench::task::{Task, TaskArgs, TaskOp};
use slatedb_mget::config::MultiGetOptions;
use slatedb_mget::manifest::{
    LsmTree, ManifestCore, SortedRun, SsTableHandle, SsTableInfo, SsTableView,
};

// ---------------------------------------------------------------------------
// Keys
// ---------------------------------------------------------------------------

/// The CDF of a Zipf distribution with exponent `s` over `key_count` ranks.
fn zipf_cdf(key_count: u64, s: f64) -> Vec<f64> {
    let mut cdf = Vec::with_capacity(key_count as usize);
    let mut sum = 0.0;
    for rank in 1..=key_count {
        sum += (rank as f64).powf(-s);
        cdf.push(sum);
    }
    for c in cdf.iter_mut() {
        *c /= sum;
    }
    cdf
}

/// The CDF in units of one part in 2^53, rounded down.
fn thresholds(cdf: &[f64]) -> Arc<Vec<u64>> {
    Arc::new(cdf.iter().map(|&c| (c * (1u64 << 53) as f64).floor() as u64).collect())
}

#[test]
fn test_zipf_picks_the_first_keys_most() {
    let key_count = 1000;
    let cdf = zipf_cdf(key_count, 1.3);
    assert!((cdf[cdf.len() - 1] - 1.0).abs() < 1e-9);
    let mut picker = FixedSetKeyGenerator::new(8, key_count, Some(7), Some(1))
        .walk(0, 1)
        .with_zipf(thresholds(&cdf));
    let first = picker.keys[0].clone();
    let hits = (0..10_000).filter(|_| picker.used_key() == first).count();
    // Rank 1 has 1 / H(1000, 1.3) of the mass, about 30 percent.
    assert!((2_500..3_500).contains(&hits), "hits: {hits}");
}

#[test]
fn a_zipf_pick_is_the_rank_of_a_uniform_draw() {
    let key_count = 50;
    let cdf = zipf_cdf(key_count, 0.9);
    let mut picker = FixedSetKeyGenerator::new(8, key_count, Some(7), Some(3))
        .walk(0, 1)
        .with_zipf(thresholds(&cdf));
    let keys = picker.keys.clone();
    let mut rng = XorShiftRng::seed_from_u64(3);
    for _ in 0..2_000 {
        let u = (rng.next_u64() >> 11) as f64 / (1u64 << 53) as f64;
        let rank = cdf.partition_point(|&c| c < u).min(keys.len() - 1);
        assert_eq!(picker.used_key(), keys[rank]);
    }
}

#[test]
fn test_walk_covers_the_set_one_time() {
    let key_count = 10;
    let tasks = 3;
    let set: BTreeSet<Bytes> = FixedSetKeyGenerator::new(8, key_count, Some(7), None)
        .keys
        .iter()
        .cloned()
        .collect();
    let mut walked = Vec::new();
    for task in 0..tasks {
        let mut walker = FixedSetKeyGenerator::new(8, key_count, Some(7), None).walk(task, tasks);
        let share = (key_count as usize - task).div_ceil(tasks);
        for _ in 0..share {
            walked.push(walker.next_key());
        }
    }
    assert_eq!(walked.len(), key_count as usize);
    let walked: BTreeSet<Bytes> = walked.into_iter().collect();
    assert_eq!(walked, set);
}

#[test]
fn a_walk_goes_around_the_set() {
    let mut walker = FixedSetKeyGenerator::new(8, 4, Some(7), None).walk(3, 6);
    let keys = walker.keys.clone();
    let walked: Vec<Bytes> = (0..4).map(|_| walker.next_key()).collect();
    assert_eq!(walked, [3, 1, 3, 1].map(|i: usize| keys[i].clone()));
    // The offset and the step can be as large as numbers get.
    let mut far = FixedSetKeyGenerator::new(8, 4, Some(7), None).walk(usize::MAX, usize::MAX);
    let walked: Vec<Bytes> = (0..3).map(|_| far.next_key()).collect();
    assert_eq!(walked, [3, 2, 1].map(|i: usize| keys[i].clone()));
}

#[test]
fn test_same_seeds_give_the_same_keys() {
    let mut first = FixedSetKeyGenerator::new(8, 100, Some(1), Some(2));
    let mut second = FixedSetKeyGenerator::new(8, 100, Some(1), Some(2));
    let mut other_pick = FixedSetKeyGenerator::new(8, 100, Some(1), Some(3));
    assert_eq!(first.keys, second.keys);
    assert_eq!(first.keys, other_pick.keys);
    let first_keys: Vec<_> = (0..20).map(|_| first.next_key()).collect();
    let second_keys: Vec<_> = (0..20).map(|_| second.next_key()).collect();
    let other_keys: Vec<_> = (0..20).map(|_| other_pick.next_key()).collect();
    assert_eq!(first_keys, second_keys);
    assert_ne!(first_keys, other_keys);
}

#[test]
fn keys_have_their_length_and_come_from_the_set() {
    let mut picker = FixedSetKeyGenerator::new(8, 100, Some(1), Some(2));
    assert_eq!(picker.keys.len(), 100);
    assert!(picker.keys.iter().all(|key| key.len() == 8));
    let mut given = Vec::new();
    for _ in 0..20 {
        let next = picker.next_key();
        assert!(picker.keys.contains(&next));
        given.push(next);
        assert!(given.contains(&picker.used_key()));
    }
    let mut random = RandomKeyGenerator::new(5, Some(3));
    let first = random.next_key();
    assert_eq!(first.len(), 5);
    assert_eq!(random.used_key(), first);
}

#[test]
fn random_keys_are_the_bytes_of_the_generator() {
    let mut generator = RandomKeyGenerator::new(8, Some(42));
    let mut rng = XorShiftRng::seed_from_u64(42);
    for _ in 0..5 {
        let mut bytes = [0u8; 8];
        rng.fill_bytes(&mut bytes);
        assert_eq!(generator.next_key().as_ref(), bytes);
    }
    assert_eq!(generator.used_keys.len(), 5);
    let used: BTreeSet<Bytes> = generator.used_keys.iter().cloned().collect();
    for _ in 0..20 {
        assert!(used.contains(&generator.used_key()));
    }
}

#[test]
fn random_keys_stay_bounded() {
    let mut generator = RandomKeyGenerator::new(4, Some(1));
    // With no used key, the generator makes one.
    let first = generator.used_key();
    assert_eq!(generator.used_keys, [first]);
    for _ in 0..10_020 {
        generator.next_key();
    }
    assert_eq!(generator.used_keys.len(), 10_000);
}

#[test]
fn a_fixed_set_picks_only_its_own_keys() {
    let mut generator = FixedSetKeyGenerator::new(8, 10, Some(5), Some(6));
    let set: BTreeSet<Bytes> = generator.keys.iter().cloned().collect();
    let first = generator.used_key();
    assert_eq!(generator.used_keys, [first]);
    for _ in 0..50 {
        assert!(set.contains(&generator.next_key()));
        assert!(set.contains(&generator.used_key()));
    }
    assert_eq!(generator.used_keys.len(), 51);
}

#[test]
fn a_generator_with_no_seed_still_works() {
    let mut a = rng_from(None);
    let mut b = rng_from(None);
    assert_ne!([a.next_u64(), a.next_u64()], [b.next_u64(), b.next_u64()]);
}

fn key_args(key_generator: KeyGeneratorType, all_keys: bool) -> KeyArgs {
    KeyArgs { key_generator, key_len: 8, key_count: 10, seed: Some(7), concurrency: 2, all_keys }
}

#[test]
fn each_task_gets_its_own_generator() {
    assert_eq!(task_seed(None, 3), None);
    assert_eq!(task_seed(Some(7), 3), Some(10));
    assert_eq!(task_seed(Some(u64::MAX), 2), Some(1));

    let mut supplier = key_args(KeyGeneratorType::Random, false).key_gen_supplier(None);
    let mut first = supplier.supply();
    let mut second = supplier.supply();
    assert_eq!(supplier.next_task, 2);
    assert_eq!(first.next_key(), RandomKeyGenerator::new(8, Some(7)).next_key());
    assert_eq!(second.next_key(), RandomKeyGenerator::new(8, Some(8)).next_key());
}

#[test]
fn the_tasks_of_a_walk_share_the_set() {
    let cdf = thresholds(&zipf_cdf(10, 1.0));
    let mut supplier =
        key_args(KeyGeneratorType::FixedSet, true).key_gen_supplier(Some(cdf.clone()));
    let set = FixedSetKeyGenerator::key_set(8, 10, Some(7));
    let mut walked = Vec::new();
    for _ in 0..2 {
        let mut generator = supplier.supply();
        for _ in 0..5 {
            walked.push(generator.next_key());
        }
        match generator {
            Generator::FixedSet(generator) => assert_eq!(generator.zipf, Some(cdf.clone())),
            Generator::Random(_) => panic!("the generator walks a fixed set"),
        }
    }
    let expected: Vec<Bytes> =
        [0, 2, 4, 6, 8, 1, 3, 5, 7, 9].map(|i: usize| set[i].clone()).to_vec();
    assert_eq!(walked, expected);

    // Only a walk uses the Zipf thresholds.
    let mut supplier = key_args(KeyGeneratorType::FixedSet, false).key_gen_supplier(Some(cdf));
    match supplier.supply() {
        Generator::FixedSet(generator) => {
            assert!(generator.zipf.is_none() && generator.walk.is_none());
        }
        Generator::Random(_) => panic!("the generator picks from a fixed set"),
    }
}

// ---------------------------------------------------------------------------
// Stats
// ---------------------------------------------------------------------------

fn nanos(duration: Duration) -> u128 {
    duration.as_nanos()
}

#[test]
fn test_percentile() {
    assert_eq!(LatencySamples::percentile(&vec![], 50), nanos(Duration::ZERO));
    let sorted: Vec<u128> = (1..=100).map(|ms| nanos(Duration::from_millis(ms))).collect();
    assert_eq!(LatencySamples::percentile(&sorted, 50), nanos(Duration::from_millis(51)));
    assert_eq!(LatencySamples::percentile(&sorted, 99), nanos(Duration::from_millis(99)));
    assert_eq!(LatencySamples::percentile(&sorted, 100), nanos(Duration::from_millis(100)));
}

#[test]
fn percentiles_round_like_floating_point_quantiles() {
    for n in 1..400usize {
        let sorted: Vec<u128> = (0..n as u128).collect();
        for (percent, q) in [(0, 0.0), (50, 0.5), (99, 0.99), (100, 1.0)] {
            let idx = ((n - 1) as f64 * q).round() as usize;
            assert_eq!(LatencySamples::percentile(&sorted, percent), sorted[idx]);
        }
    }
}

#[test]
fn test_samples_stay_bounded() {
    let mut samples = LatencySamples::new();
    for millis in 0..(MAX_LATENCY_SAMPLES as u64 + 10) {
        samples.record(nanos(Duration::from_millis(millis)));
    }
    let sorted = samples.take_sorted();
    assert_eq!(sorted.len(), MAX_LATENCY_SAMPLES);
    let slowest = nanos(Duration::from_millis(MAX_LATENCY_SAMPLES as u64 + 9));
    assert!(sorted.iter().all(|sample| sample % 1_000_000 == 0 && *sample <= slowest));
    assert!(sorted.windows(2).all(|pair| pair[0] <= pair[1]));
    assert!(samples.take_sorted().is_empty());
}

#[test]
fn the_recorder_keeps_totals_and_samples() {
    let mut stats = DbStatsRecorder::new();
    stats.record_puts(2, 20);
    stats.record_gets(3, 30, 1);
    stats.record_gets(u64::MAX, 0, 0);
    let mut samples = vec![5, 1, 3];
    stats.record_latencies(&mut samples);
    assert!(samples.is_empty());
    assert_eq!(stats.total_calls, 3);
    assert_eq!(
        stats.totals,
        OpCounts { puts: 2, gets: 2, puts_bytes: 20, gets_bytes: 30, gets_hits: 1 }
    );
    assert_eq!(stats.take_latencies(), [1, 3, 5]);
    assert!(stats.take_latencies().is_empty());
}

#[test]
fn operations_are_the_sum_of_the_windows() {
    let window =
        OpCounts { puts: 1, gets: 2, puts_bytes: 3, gets_bytes: 4, gets_hits: 1 };
    let sum = operations_since(&vec![window, OpCounts::none(), window]);
    assert_eq!(
        sum,
        OpCounts { puts: 2, gets: 4, puts_bytes: 6, gets_bytes: 8, gets_hits: 2 }
    );
}

#[test]
fn the_calls_of_all_dumps_add_up() {
    let at = |calls: u64| {
        let counters = Counters { sst_gets: 2 * calls, sst_bytes: 50 * calls, other_gets: 1 };
        ReadCallCounters::snapshot(calls, &counters, &Some(MetricValue::Counter(calls)))
    };
    let start = at(3);
    let mut dump = StatsDump::new(start);
    let dumped: Vec<u64> =
        [10, 10, 25, 90].into_iter().map(|calls| dump.call_stats(at(calls)).calls).collect();
    assert_eq!(dumped, [7, 0, 15, 65]);
    assert_eq!(dumped.iter().sum::<u64>(), at(90).since(&start).calls);
}

#[test]
fn read_calls_count_from_dump_to_dump() {
    let counters = Counters { sst_gets: 4, sst_bytes: 400, other_gets: 1 };
    let first = ReadCallCounters::snapshot(10, &counters, &None);
    assert_eq!(first.rounds, 0);
    assert_eq!(ReadCallCounters::rounds(&Some(MetricValue::Other)), 0);
    let counters = Counters { sst_gets: 9, sst_bytes: 900, other_gets: 1 };
    let second = ReadCallCounters::snapshot(15, &counters, &Some(MetricValue::Counter(7)));
    let mut dump = StatsDump::new(first);
    let stats = dump.call_stats(second);
    assert_eq!(
        stats,
        ReadCallCounters { calls: 5, sst_gets: 5, sst_bytes: 500, other_gets: 0, rounds: 7 }
    );
    assert_eq!(dump.last_counters, second);
    assert_eq!(second.since(&second).calls, 0);
}

#[test]
fn a_dump_is_due_every_ten_seconds() {
    let counters = ReadCallCounters::snapshot(0, &Counters::default(), &None);
    let mut dump = StatsDump::new(counters);
    let second: u128 = 1_000_000_000;
    assert_eq!(STAT_DUMP_INTERVAL, 10 * second);
    assert_eq!(STAT_DUMP_LOOKBACK, 60 * second);
    assert_eq!(dump.tick(100 * second, 109 * second), None);
    let times = dump.tick(101 * second, 111 * second).unwrap();
    assert_eq!((times.interval, times.elapsed), (10 * second, 11 * second));
    assert_eq!(dump.tick(101 * second, 120 * second), None);
    let times = dump.tick(101 * second, 121 * second).unwrap();
    assert_eq!((times.interval, times.elapsed), (20 * second, 21 * second));
}

// ---------------------------------------------------------------------------
// Tasks
// ---------------------------------------------------------------------------

fn task_args(put_percentage: u32, get_hit_percentage: u32, read_mode: ReadMode) -> TaskArgs {
    TaskArgs {
        val_len: 16,
        num_keys: Some(5),
        duration: None,
        put_percentage,
        get_hit_percentage,
        read_mode,
    }
}

fn mget(reader: Reader, batch_size: usize) -> ReadMode {
    ReadMode::Mget { reader, batch_size, options: MultiGetOptions::new().with_max_fetch_tasks(9) }
}

#[test]
fn a_task_puts_and_reads_by_its_percentages() {
    let generator = FixedSetKeyGenerator::new(8, 10, Some(1), Some(2)).walk(0, 1);
    let keys = generator.keys.clone();
    let mut task = Task::new(generator, task_args(100, 0, ReadMode::Get));
    for key in keys.iter() {
        match task.next_op() {
            TaskOp::Put { key: put, value } => {
                assert_eq!(put, *key);
                assert_eq!(value.len(), 16);
            }
            TaskOp::Read { .. } => panic!("the task only puts"),
        }
    }

    let generator = FixedSetKeyGenerator::new(8, 10, Some(1), Some(2)).walk(0, 1);
    let mut task = Task::new(generator, task_args(0, 0, mget(Reader::MultiGet, 4)));
    match task.next_op() {
        // No key is a hit, so each one is the next key of the walk.
        TaskOp::Read { keys: read } => assert_eq!(read[..], keys[..4]),
        TaskOp::Put { .. } => panic!("the task only reads"),
    }
    let mut task = Task::new(
        FixedSetKeyGenerator::new(8, 10, Some(1), Some(2)),
        task_args(0, 100, mget(Reader::MultiGet, 6)),
    );
    // Each key is a hit, so the first key comes again and again.
    let read = task.read_keys();
    assert_eq!(read.len(), 6);
    assert!(read.iter().all(|key| *key == read[0]));
}

#[test]
fn a_task_counts_and_reports() {
    let mut task = Task::new(RandomKeyGenerator::new(8, Some(1)), task_args(50, 50, ReadMode::Get));
    assert!(task.goes_on(4, u128::MAX - 1));
    assert!(!task.goes_on(5, 0));
    task.on_put();
    let keys = vec![Bytes::from_static(b"aa"), Bytes::from_static(b"bbb")];
    task.on_read(&keys, &vec![Some(Bytes::from_static(b"value")), None], 77);
    assert!(task.report(REPORT_INTERVAL - 1).is_none());
    let (counts, latencies) = task.report(REPORT_INTERVAL).unwrap();
    assert_eq!(
        counts,
        OpCounts { puts: 1, gets: 2, puts_bytes: 16, gets_bytes: 10, gets_hits: 1 }
    );
    assert_eq!(latencies, [77]);
    assert_eq!(task.counts, OpCounts::none());
    assert!(task.latencies.is_empty());

    task.args.duration = Some(10);
    task.args.num_keys = None;
    assert!(task.goes_on(u64::MAX - 1, 9));
    assert!(!task.goes_on(0, 10));
}

#[test]
fn each_reader_has_its_plan() {
    let keys = vec![Bytes::new(); 3];
    assert_eq!(ReadMode::Get.batch_size(), 1);
    assert_eq!(mget(Reader::Sequential, 100).batch_size(), 100);
    assert_eq!(ReadMode::Get.read(&keys), ReadPlan::Gets { keys: 1, at_once: 1 });
    assert_eq!(
        mget(Reader::Sequential, 3).read(&keys),
        ReadPlan::Gets { keys: 3, at_once: 1 }
    );
    assert_eq!(
        mget(Reader::Concurrent, 3).read(&keys),
        ReadPlan::Gets { keys: 3, at_once: 9 }
    );
    let options = MultiGetOptions::new().with_max_fetch_tasks(9);
    assert_eq!(mget(Reader::MultiGet, 3).read(&keys), ReadPlan::MultiGet { options });
    let names = [Reader::Sequential, Reader::Concurrent, Reader::MultiGet].map(|r| r.name());
    assert_eq!(names, ["seq", "concurrent", "multi-get"]);
}

// ---------------------------------------------------------------------------
// The store
// ---------------------------------------------------------------------------

#[test]
fn test_counts_sst_range_reads() {
    let mut counters = Counters::default();
    let sst = b"compacted/x.sst";
    let manifest = b"manifest/1.manifest";
    counters.count_one(sst, false, 0..100);
    counters.count_one(sst, false, 500..800);
    counters.count_one(manifest, false, 0..10);
    counters.count_one(sst, true, 0..1000);

    assert_eq!(counters, Counters { sst_gets: 2, sst_bytes: 400, other_gets: 1 });

    counters.count_ranges(sst, 3, &vec![10, 20, 30]);
    counters.count_ranges(manifest, 2, &vec![10, 20]);
    assert_eq!(counters, Counters { sst_gets: 5, sst_bytes: 460, other_gets: 3 });
    // Only the end of the name counts, and a range can be empty.
    counters.count_one(b"sst", false, 0..5);
    counters.count_one(b"a.sst.tmp", false, 0..5);
    counters.count_one(b".sst", false, 9..5);
    assert_eq!(counters, Counters { sst_gets: 6, sst_bytes: 460, other_gets: 5 });
    counters.count_get(sst, u64::MAX, 1);
    assert_eq!(counters, Counters { sst_gets: 5, sst_bytes: 461, other_gets: 5 });
}

fn view() -> SsTableView {
    SsTableView::identity(SsTableHandle {
        id: 1,
        format_version: 2,
        info: SsTableInfo { first_entry: None, last_entry: None },
    })
}

#[test]
fn the_shape_counts_ssts_and_runs() {
    let manifest = ManifestCore {
        tree: LsmTree {
            l0: vec![view(), view()],
            compacted: vec![
                SortedRun { id: 1, views: vec![view(), view(), view()] },
                SortedRun { id: 0, views: vec![view()] },
            ],
        },
        segments: Vec::new(),
    };
    let shape = ManifestShape::of(&manifest);
    assert_eq!(shape, ManifestShape { l0_ssts: 2, sorted_runs: 2, ssts: 6 });
    let record = shape.log();
    assert_eq!(record.message, "manifest shape");
    assert_eq!((record.l0_ssts, record.sorted_runs, record.ssts), (2, 2, 6));
}

#[test]
fn a_shape_is_final_when_it_stays_for_the_settle_time() {
    let a = ManifestShape { l0_ssts: 1, sorted_runs: 0, ssts: 1 };
    let b = ManifestShape { l0_ssts: 0, sorted_runs: 1, ssts: 1 };
    assert_eq!(STABLE_POLLS * POLL_MILLIS, COMPACTION_SETTLE_MILLIS);
    let mut wait = CompactionWait::new(a);
    for _ in 0..23 {
        wait.poll(a);
        assert_eq!(wait.step(0, 1), WaitStep::Poll);
    }
    // A change starts the count over.
    wait.poll(b);
    for _ in 0..23 {
        wait.poll(b);
        assert_eq!(wait.step(0, 1), WaitStep::Poll);
    }
    assert_eq!(wait.step(1, 1), WaitStep::TimedOut);
    wait.poll(b);
    assert_eq!(wait.step(0, 1), WaitStep::Settled);
    assert_eq!(wait.step(2, 1), WaitStep::Settled);
}

// ---------------------------------------------------------------------------
// Arguments
// ---------------------------------------------------------------------------

fn db_args() -> DbArgs {
    DbArgs {
        block_cache_size: Some(100),
        meta_cache_size: Some(50),
        unified_cache: false,
        disk_cache: false,
        disk_cache_size: Some(7),
        disk_cache_part_size: None,
        delay_profile: DelayProfileKind::S3,
        delay_ms: None,
    }
}

fn cache_options() -> ObjectStoreCacheOptions {
    ObjectStoreCacheOptions {
        root_folder: Some("/cache".to_string()),
        max_cache_size_bytes: Some(1),
        part_size_bytes: 2,
    }
}

#[test]
fn the_disk_cache_is_off_by_default() {
    let (options, memory) = db_args().config(cache_options());
    assert_eq!(options, ObjectStoreCacheOptions { root_folder: None, ..cache_options() });
    assert_eq!(memory, MemoryCache { block: Some(100), meta: MetaCache::Own(50) });

    let args = DbArgs { disk_cache: true, unified_cache: true, ..db_args() };
    let (options, memory) = args.config(cache_options());
    assert_eq!(
        options,
        ObjectStoreCacheOptions { max_cache_size_bytes: Some(7), ..cache_options() }
    );
    assert_eq!(memory, MemoryCache { block: Some(100), meta: MetaCache::Unified });

    let args = DbArgs {
        disk_cache: true,
        disk_cache_size: None,
        disk_cache_part_size: Some(9),
        block_cache_size: None,
        unified_cache: true,
        ..db_args()
    };
    let (options, memory) = args.config(cache_options());
    assert_eq!(options, ObjectStoreCacheOptions { part_size_bytes: 9, ..cache_options() });
    assert_eq!(memory, MemoryCache { block: None, meta: MetaCache::Absent });
}

#[test]
fn a_fixed_delay_overrides_the_profile() {
    assert_eq!(db_args().wrap_store(), Delay::S3);
    assert_eq!(DbArgs { delay_ms: Some(20), ..db_args() }.wrap_store(), Delay::Fixed(20));
    let none = DbArgs { delay_profile: DelayProfileKind::NoDelay, ..db_args() };
    assert_eq!(none.wrap_store(), Delay::NoDelay);
    let express = DbArgs { delay_profile: DelayProfileKind::S3x, ..db_args() };
    assert_eq!(express.wrap_store(), Delay::S3Express);
    let kinds = [DelayProfileKind::NoDelay, DelayProfileKind::S3, DelayProfileKind::S3x];
    assert_eq!(kinds.map(|kind| kind.name()), ["none", "s3", "s3x"]);
    let types = [KeyGeneratorType::Random, KeyGeneratorType::FixedSet];
    assert_eq!(types.map(|kind| kind.name()), ["Random", "FixedSet"]);
}

#[test]
fn the_read_mode_takes_the_options_of_the_arguments() {
    let args = MgetArgs {
        reader: Reader::Concurrent,
        batch_size: 100,
        read_concurrency: 11,
        lookahead: 12,
        coalesce_gap_bytes: 13,
        max_coalesced_bytes: 14,
    };
    let options = args.mget_options();
    assert_eq!(
        options,
        MultiGetOptions {
            cache_blocks: true,
            max_fetch_tasks: 11,
            lookahead: 12,
            coalesce_gap_bytes: 13,
            max_coalesced_bytes: 14,
        }
    );
    assert_eq!(MgetArgs::read_mode(&None), ReadMode::Get);
    assert_eq!(
        MgetArgs::read_mode(&Some(args)),
        ReadMode::Mget { reader: Reader::Concurrent, batch_size: 100, options }
    );
    let defaults = MultiGetOptions::default();
    assert_eq!(defaults.lookahead, 4);
    assert_eq!(defaults.coalesce_gap_bytes, 64 * 1024);
    assert_eq!(defaults.max_coalesced_bytes, 4 * 1024 * 1024);
    assert!(!defaults.with_cache_blocks(false).cache_blocks);
}

#[test]
fn isolation_levels_parse_in_any_case() {
    assert_eq!(parse_isolation_level("snapshot"), Ok(IsolationLevel::Snapshot));
    assert_eq!(parse_isolation_level("SnapShot"), Ok(IsolationLevel::Snapshot));
    assert_eq!(
        parse_isolation_level("SERIALIZABLE"),
        Ok(IsolationLevel::SerializableSnapshot)
    );
    assert_eq!(
        parse_isolation_level("None"),
        Err("invalid isolation level: 'None'. Valid options: 'snapshot', 'serializable'"
            .to_string())
    );
    assert_eq!(
        isolation_level(&"serializable".to_string(), "X"),
        Ok(IsolationLevel::SerializableSnapshot)
    );
}
