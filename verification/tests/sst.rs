use std::collections::BTreeMap;
use std::ops::Range;
use std::sync::Arc;

use bytes::Bytes;
use slatedb_mget::coalesce::coalesce_runs;
use slatedb_mget::config::MultiGetOptions;
use slatedb_mget::filter::{Filter, NamedFilter};
use slatedb_mget::manifest::{SsTableHandle, SsTableInfo, SsTableView};
use slatedb_mget::multi_get::sst::SstRead;
use slatedb_mget::multi_sst::{prune_keys, CacheRead, CacheResult, SstTask};
use slatedb_mget::scan::scan;
use slatedb_mget::sstable::{
    key_blocks, needed_blocks, Block, KeyBlocks, KeyEntries, PendingKey, SsTableIndex,
};
use slatedb_mget::types::RowEntry;

/// Keys per SST. A value has 1 KiB, so a 4 KiB block holds about 3 keys.
const NUM_KEYS: usize = 200;

/// A filter that passes exactly its keys.
struct KeySet(Vec<Bytes>);

impl Filter for KeySet {
    type Context = ();

    fn might_match(&self, key: &Bytes, _context: &Option<()>) -> bool {
        self.0.contains(key)
    }
}

type Filters = Arc<Vec<NamedFilter<KeySet>>>;

fn key(i: usize) -> Bytes {
    Bytes::from(format!("k{i:03}"))
}

fn pending(keys: &[usize]) -> Vec<PendingKey> {
    keys.iter().map(|&i| PendingKey { idx: i, key: key(i) }).collect()
}

fn index_of(blocks: &[Arc<Block>]) -> Arc<SsTableIndex> {
    let mut offsets = vec![0];
    for block in blocks {
        let bytes: usize = block.entries.len() * 1100;
        offsets.push(offsets[offsets.len() - 1] + bytes as u64);
    }
    Arc::new(SsTableIndex {
        first_keys: blocks.iter().map(|block| block.entries[0].key.clone()).collect(),
        offsets,
    })
}

/// One SST with the even keys of `0..NUM_KEYS`, behind a cache that starts
/// cold. It counts the requests that reach the object store.
struct Fixture {
    cached: bool,
    blocks: Vec<Arc<Block>>,
    index: Arc<SsTableIndex>,
    view: SsTableView,
    filters: Filters,
    cached_index: Option<Arc<SsTableIndex>>,
    cached_filters: Option<Filters>,
    cached_blocks: BTreeMap<usize, Arc<Block>>,
    gets: usize,
    /// The most block ranges that one step asked for at the same time.
    most_at_once: usize,
}

fn fixture(cached: bool) -> Fixture {
    let keys: Vec<usize> = (0..NUM_KEYS).step_by(2).collect();
    let blocks: Vec<Arc<Block>> = keys
        .chunks(3)
        .map(|keys| {
            let entries = keys
                .iter()
                .map(|&i| RowEntry::new_value(&key(i), &[7u8; 1024], 1))
                .collect();
            Arc::new(Block { entries })
        })
        .collect();
    let index = index_of(&blocks);
    let handle = SsTableHandle {
        id: 1,
        format_version: 2,
        info: SsTableInfo {
            first_entry: Some(key(0)),
            last_entry: Some(key(NUM_KEYS - 2)),
        },
    };
    Fixture {
        cached,
        blocks,
        index,
        view: SsTableView::identity(handle),
        filters: Arc::new(vec![NamedFilter {
            name: "set".to_string(),
            filter: KeySet(keys.iter().map(|&i| key(i)).collect()),
        }]),
        cached_index: None,
        cached_filters: None,
        cached_blocks: BTreeMap::new(),
        gets: 0,
        most_at_once: 0,
    }
}

fn found_keys(found: &[KeyEntries]) -> Vec<usize> {
    let mut keys: Vec<usize> = found.iter().map(|key| key.idx).collect();
    keys.sort_unstable();
    keys
}

impl Fixture {
    fn read_index(&mut self) -> Arc<SsTableIndex> {
        if self.cached_index.is_none() {
            self.gets += 1;
        }
        if self.cached {
            self.cached_index = Some(self.index.clone());
        }
        self.index.clone()
    }

    fn read_filters(&mut self) -> Filters {
        if self.cached_filters.is_none() {
            self.gets += 1;
        }
        if self.cached {
            self.cached_filters = Some(self.filters.clone());
        }
        self.filters.clone()
    }

    fn look_up(&self, needed: &[usize]) -> Vec<Option<Arc<Block>>> {
        needed.iter().map(|b| self.cached_blocks.get(b).cloned()).collect()
    }

    fn read_runs(&mut self, runs: &[Range<usize>]) -> Vec<Vec<Arc<Block>>> {
        self.most_at_once = self.most_at_once.max(runs.len());
        let mut fetched = Vec::new();
        for run in runs {
            if run.clone().any(|b| !self.cached_blocks.contains_key(&b)) {
                self.gets += 1;
            }
            let blocks: Vec<Arc<Block>> = self.blocks[run.clone()].to_vec();
            if self.cached {
                for (b, block) in run.clone().zip(&blocks) {
                    self.cached_blocks.insert(b, block.clone());
                }
            }
            fetched.push(blocks);
        }
        fetched
    }

    /// Read `keys` and return the found keys, sorted.
    fn read_with_index(
        &mut self,
        keys: &[usize],
        index: Option<Arc<SsTableIndex>>,
        options: MultiGetOptions,
    ) -> Vec<usize> {
        let mut read = SstRead::start(pending(keys), index, true);
        loop {
            read = match read {
                SstRead::NeedIndex { .. } => {
                    let index = self.read_index();
                    read.on_index(index)
                }
                SstRead::NeedCached { ref needed, .. } => {
                    let cached = self.look_up(needed);
                    read.on_cached(cached, &options)
                }
                SstRead::NeedRuns { ref runs, .. } => {
                    let fetched = self.read_runs(runs);
                    read.on_runs(fetched)
                }
                SstRead::Done(entries) => {
                    assert_eq!(
                        entries.false_positives,
                        (keys.len() - entries.found.len()) as u64
                    );
                    return found_keys(&entries.found);
                }
            };
        }
    }

    /// Read `keys` with no index from an earlier read.
    fn read(&mut self, keys: &[usize], options: MultiGetOptions) -> Vec<usize> {
        self.read_with_index(keys, None, options)
    }

    fn read_sst(
        &mut self,
        keys: Vec<PendingKey>,
        filters: Option<Filters>,
        index: Option<Arc<SsTableIndex>>,
        options: MultiGetOptions,
    ) -> Vec<KeyEntries> {
        let mut task = SstTask::start(keys, filters, index, &options);
        loop {
            task = match task {
                SstTask::NeedFilters { .. } => {
                    let filters = self.read_filters();
                    task.on_filters(&self.view, filters, &None, &options).0
                }
                SstTask::NeedIndex { .. } => {
                    let index = self.read_index();
                    task.on_index(index, &options)
                }
                SstTask::NeedRuns { ref runs, .. } => {
                    let fetched = self.read_runs(runs);
                    task.on_runs(fetched)
                }
                SstTask::Done { found, .. } => return found,
            };
        }
    }

    fn read_from_cache(&mut self, keys: &[usize]) -> CacheResult<KeySet> {
        let filters = self.cached_filters.clone();
        let (mut read, _, _) = CacheRead::start(&self.view, &pending(keys), filters, &None);
        loop {
            read = match read {
                CacheRead::NeedIndex { .. } => read.on_index(self.cached_index.clone()),
                CacheRead::NeedCached { ref needed, .. } => {
                    let cached = self.look_up(needed);
                    read.on_cached(cached)
                }
                CacheRead::Done(result) => return result,
            };
        }
    }
}

fn check_gets(keys: &[usize], coalesce_gap_bytes: usize, expected_block_gets: usize) {
    let mut fx = fixture(false);
    let options = MultiGetOptions::default().with_coalesce_gap_bytes(coalesce_gap_bytes);
    let found = fx.read(keys, options);

    assert_eq!(found, keys);
    // One GET for the index, and the block ranges.
    assert_eq!(fx.gets, 1 + expected_block_gets);
}

#[test]
fn sst_should_send_one_get_per_range() {
    check_gets(&[0, 100, 198], 0, 3);
    check_gets(&[0, 20, 40], 64 * 1024, 1);
    check_gets(&[0, 20, 40], 0, 3);
    check_gets(&[0, 2], 0, 1);
}

#[test]
fn sst_should_read_ranges_in_parallel() {
    let mut fx = fixture(false);
    let index = fx.index.clone();
    let options = MultiGetOptions::default().with_coalesce_gap_bytes(0);

    let found = fx.read_with_index(&[0, 100, 198], Some(index), options);

    // One step asks for all three ranges.
    assert_eq!(fx.most_at_once, 3);
    assert_eq!(found, [0, 100, 198]);
}

#[test]
fn sst_should_bound_requests_with_semaphore() {
    let mut fx = fixture(false);
    let index = fx.index.clone();
    let options =
        MultiGetOptions::default().with_coalesce_gap_bytes(0).with_max_fetch_tasks(2);

    assert_eq!(options.request_permits(), 2);
    let found = fx.read_with_index(&[0, 60, 120, 198], Some(index), options);

    assert_eq!(found, [0, 60, 120, 198]);
    assert_eq!(fx.gets, 4);
}

#[test]
fn a_batch_always_has_a_permit() {
    assert_eq!(MultiGetOptions::new().with_max_fetch_tasks(0).request_permits(), 1);
    assert_eq!(MultiGetOptions::new().request_permits(), 256);
}

#[test]
fn sst_should_answer_warm_sst_from_cache() {
    let mut fx = fixture(true);
    let keys = [0, 100, 198];
    fx.read(&keys, MultiGetOptions::default());
    fx.gets = 0;

    // Key 1 is absent. Its block is in the cache, so the read sends no
    // request for it.
    let found = fx.read(&[0, 1, 100, 198], MultiGetOptions::default());

    assert_eq!(found, keys);
    assert_eq!(fx.gets, 0);
}

#[test]
fn sst_should_read_only_the_misses_of_a_partly_warm_sst() {
    let mut fx = fixture(true);
    fx.read(&[0], MultiGetOptions::default());
    fx.gets = 0;

    let found = fx.read(&[0, 198], MultiGetOptions::default());

    assert_eq!(found, [0, 198]);
    // One block read. The index and the block of key 0 came from the cache.
    assert_eq!(fx.gets, 1);
}

#[test]
fn should_skip_index_read_when_filters_reject_every_key() {
    let mut fx = fixture(false);
    // Odd keys are absent.
    let result = fx.read_sst(pending(&[1, 101]), None, None, MultiGetOptions::default());

    assert!(result.is_empty());
    // Only the filter read reaches the object store.
    assert_eq!(fx.gets, 1);
}

fn check_task_gets(keys: &[usize], coalesce_gap_bytes: usize, expected_block_gets: usize) {
    let mut fx = fixture(false);
    let options = MultiGetOptions::default().with_coalesce_gap_bytes(coalesce_gap_bytes);
    let result = fx.read_sst(pending(keys), None, None, options);

    assert_eq!(found_keys(&result), keys);
    // One GET for the filters, one for the index, and the block ranges.
    assert_eq!(fx.gets, 2 + expected_block_gets);
}

#[test]
fn multi_sst_should_send_one_get_per_range() {
    check_task_gets(&[0, 100, 198], 0, 3);
    check_task_gets(&[0, 20, 40], 64 * 1024, 1);
    check_task_gets(&[0, 20, 40], 0, 3);
    check_task_gets(&[0, 2], 0, 1);
}

#[test]
fn multi_sst_should_read_ranges_in_parallel() {
    let mut fx = fixture(false);
    let (filters, index) = (fx.filters.clone(), fx.index.clone());
    let options = MultiGetOptions::default().with_coalesce_gap_bytes(0);

    let result = fx.read_sst(pending(&[0, 100, 198]), Some(filters), Some(index), options);

    assert_eq!(fx.most_at_once, 3);
    assert_eq!(found_keys(&result), [0, 100, 198]);
}

#[test]
fn multi_sst_should_bound_requests_with_semaphore() {
    let mut fx = fixture(false);
    let (filters, index) = (fx.filters.clone(), fx.index.clone());
    let options =
        MultiGetOptions::default().with_coalesce_gap_bytes(0).with_max_fetch_tasks(2);

    assert_eq!(options.request_permits(), 2);
    let result =
        fx.read_sst(pending(&[0, 60, 120, 198]), Some(filters), Some(index), options);

    assert_eq!(found_keys(&result), [0, 60, 120, 198]);
    assert_eq!(fx.gets, 4);
}

#[test]
fn multi_sst_should_answer_warm_sst_from_cache() {
    let mut fx = fixture(true);
    let keys = [0, 100, 198];
    let cold = fx.read_from_cache(&keys);
    assert!(cold.found.is_empty());
    assert_eq!(cold.misses.len(), keys.len());
    fx.read_sst(pending(&keys), None, None, MultiGetOptions::default());
    fx.gets = 0;

    // Key 1 is absent. The cached filter removes it.
    let warm = fx.read_from_cache(&[0, 1, 100, 198]);

    assert_eq!(found_keys(&warm.found), keys);
    assert!(warm.misses.is_empty());
    assert_eq!(fx.gets, 0);
}

#[test]
fn multi_sst_should_read_only_the_misses_of_a_partly_warm_sst() {
    let mut fx = fixture(true);
    fx.read_sst(pending(&[0]), None, None, MultiGetOptions::default());
    fx.gets = 0;

    let cached = fx.read_from_cache(&[0, 198]);
    assert_eq!(found_keys(&cached.found), [0]);
    let missed: Vec<usize> = cached.misses.iter().map(|pk| pk.idx).collect();
    assert_eq!(missed, [198]);
    assert!(cached.filters.is_some() && cached.index.is_some());

    let result =
        fx.read_sst(cached.misses, cached.filters, cached.index, MultiGetOptions::default());

    assert_eq!(found_keys(&result), [198]);
    // One block read. The filters and the index came from the cache.
    assert_eq!(fx.gets, 1);
}

#[test]
fn a_warm_read_counts_the_false_positives_of_the_filters() {
    let mut fx = fixture(true);
    fx.read(&[0], MultiGetOptions::default());
    for filtered in [true, false] {
        // Key 1 is absent. Its block is in the cache.
        let started: CacheRead<KeySet> = CacheRead::start_checked(pending(&[0, 1]), filtered);
        let read = started.on_index(fx.cached_index.clone());
        let CacheRead::NeedCached { ref needed, .. } = read else {
            panic!("the read needs no block");
        };
        let cached = fx.look_up(needed);
        let CacheRead::Done(result) = read.on_cached(cached) else {
            panic!("the read is not complete");
        };
        assert_eq!(found_keys(&result.found), [0]);
        assert!(result.misses.is_empty());
        assert_eq!(result.false_positives, u64::from(filtered));
    }
}

#[test]
fn pruning_counts_only_what_the_filters_decide() {
    let fx = fixture(false);
    // Key 0 passes, key 1 is rejected, and key 999 is outside the SST.
    let keys = vec![
        PendingKey { idx: 0, key: key(0) },
        PendingKey { idx: 1, key: key(1) },
        PendingKey { idx: 2, key: Bytes::from_static(b"z") },
    ];
    let pruned = prune_keys(&fx.view, &keys, &fx.filters, &None);
    let left: Vec<usize> = pruned.survivors.iter().map(|pk| pk.idx).collect();
    assert_eq!(left, [0]);
    assert_eq!((pruned.positives, pruned.negatives), (1, 1));

    let none: Vec<NamedFilter<KeySet>> = Vec::new();
    let pruned = prune_keys(&fx.view, &keys, &none, &None);
    let left: Vec<usize> = pruned.survivors.iter().map(|pk| pk.idx).collect();
    assert_eq!(left, [0, 1]);
    assert_eq!((pruned.positives, pruned.negatives), (0, 0));
}

#[test]
fn an_sst_with_no_block_holds_no_key() {
    let index = Arc::new(SsTableIndex { first_keys: vec![], offsets: vec![0] });
    let read = SstRead::start(pending(&[0, 2]), Some(index.clone()), true);
    match read {
        SstRead::Done(entries) => {
            assert!(entries.found.is_empty());
            assert_eq!(entries.false_positives, 0);
        }
        other => panic!("unexpected state {other:?}"),
    }
    let filters: Filters = Arc::new(vec![]);
    let task =
        SstTask::start(pending(&[0]), Some(filters), Some(index), &MultiGetOptions::new());
    assert!(matches!(task, SstTask::Done { ref found, false_positives: 0 } if found.is_empty()));
}

#[test]
fn a_scan_finds_versions_on_both_sides_of_a_block_border() {
    let blocks = vec![
        Arc::new(Block {
            entries: vec![
                RowEntry::new_value(b"a", b"1", 9),
                RowEntry::new_merge(b"b", b"2", 8),
            ],
        }),
        Arc::new(Block {
            entries: vec![
                RowEntry::new_merge(b"b", b"3", 7),
                RowEntry::new_value(b"b", b"4", 6),
                RowEntry::new_value(b"c", b"5", 5),
            ],
        }),
        Arc::new(Block { entries: vec![RowEntry::new_value(b"d", b"6", 4)] }),
    ];
    let index = index_of(&blocks);
    let wanted = vec![
        PendingKey { idx: 0, key: Bytes::from_static(b"b") },
        PendingKey { idx: 1, key: Bytes::from_static(b"bb") },
        PendingKey { idx: 2, key: Bytes::from_static(b"d") },
    ];
    let keys = key_blocks(wanted, &index);
    let ranges: Vec<Range<usize>> = keys.iter().map(|key| key.blocks.clone()).collect();
    // Block 2 starts with `d`, so versions of `d` could end block 1.
    assert_eq!(ranges, [0..2, 1..2, 1..3]);
    assert_eq!(needed_blocks(&keys), [0, 1, 2]);

    let read: BTreeMap<usize, Arc<Block>> = blocks.into_iter().enumerate().collect();
    let result = scan(&keys, &read, true);
    let found: Vec<(usize, Vec<u64>)> = result
        .found
        .iter()
        .map(|key| (key.idx, key.entries.iter().map(|entry| entry.seq).collect()))
        .collect();
    assert_eq!(found, [(0, vec![8, 7, 6]), (2, vec![4])]);
    assert_eq!(result.false_positives, 1);
}

#[test]
fn a_scan_stops_at_a_block_that_was_not_read() {
    let key = KeyBlocks {
        key: PendingKey { idx: 0, key: Bytes::from_static(b"b") },
        blocks: 0..2,
    };
    let blocks: BTreeMap<usize, Arc<Block>> = [(
        1,
        Arc::new(Block { entries: vec![RowEntry::new_value(b"b", b"1", 1)] }),
    )]
    .into_iter()
    .collect();
    assert!(scan(&vec![key], &blocks, false).found.is_empty());
}

fn check_runs(blocks: &[usize], gap_bytes: u64, max_bytes: u64, expected: Vec<Range<usize>>) {
    let offsets: Vec<u64> = (0..=8).map(|block| block * 4096).collect();
    assert_eq!(coalesce_runs(blocks, &offsets, gap_bytes, max_bytes), expected);
    assert!(expected.len() <= blocks.len());
}

#[test]
fn should_coalesce_runs_by_bytes() {
    check_runs(&[], 0, u64::MAX, vec![]);
    check_runs(&[7], 0, u64::MAX, vec![7..8]);
    // Adjacent blocks merge with a gap of 0.
    check_runs(&[2, 3], 0, u64::MAX, vec![2..4]);
    // A gap of 0 splits.
    check_runs(&[0, 2], 0, u64::MAX, vec![0..1, 2..3]);
    // A gap at the limit merges.
    check_runs(&[0, 2], 4096, u64::MAX, vec![0..3]);
    // A gap above the limit splits.
    check_runs(&[0, 3], 4096, u64::MAX, vec![0..1, 3..4]);
    // The size cap splits.
    check_runs(&[0, 1, 2], 4096, 8192, vec![0..2, 2..3]);
    // A block that is already covered changes nothing.
    check_runs(&[1, 1, 2], 0, u64::MAX, vec![1..3]);
}

#[test]
fn a_single_block_can_be_above_the_cap() {
    check_runs(&[3, 4], 0, 100, vec![3..4, 4..5]);
}
