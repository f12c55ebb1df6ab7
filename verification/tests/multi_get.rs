use std::collections::BTreeMap;
use std::sync::Arc;

use bytes::Bytes;
use rand::rngs::StdRng;
use rand::{Rng, SeedableRng};
use slatedb_mget::bench::reader::{ReadMode, ReadPlan, Reader};
use slatedb_mget::config::MultiGetOptions;
use slatedb_mget::filter::{Filter, NamedFilter};
use slatedb_mget::manifest::{
    LsmTree, ManifestCore, SortedRun, SsTableHandle, SsTableInfo, SsTableView,
};
use slatedb_mget::memtable::{kv_table_get_versions, KvTable};
use slatedb_mget::merge::{resolve_entry, MergeOperator, ResolveError};
use slatedb_mget::multi_get::events::ReadEvent;
use slatedb_mget::multi_get::pipeline::{CacheAnswer, Pipeline, ReadGroup};
use slatedb_mget::multi_get::read::{finish, open_batch, scatter};
use slatedb_mget::multi_get::sst::{SstEntries, SstRead};
use slatedb_mget::multi_sst::CacheRead;
use slatedb_mget::sstable::{Block, PendingKey, SsTableIndex};
use slatedb_mget::types::{RowEntry, ValueDeletable};

/// A merge operator that concatenates operands onto the base value.
struct ConcatMergeOperator;

impl MergeOperator for ConcatMergeOperator {
    type Error = String;

    fn merge(
        &self,
        _key: &Bytes,
        existing: Option<Bytes>,
        operand: Bytes,
    ) -> Result<Bytes, String> {
        match existing {
            Some(base) => {
                let mut merged = base.to_vec();
                merged.extend_from_slice(&operand);
                Ok(Bytes::from(merged))
            }
            None => Ok(operand),
        }
    }
}

/// A filter that passes its keys, and some others.
struct LooseSet(Vec<Bytes>);

impl Filter for LooseSet {
    type Context = ();

    fn might_match(&self, key: &Bytes, _context: &Option<()>) -> bool {
        let sum: u32 = key.iter().map(|&b| b as u32).sum();
        self.0.contains(key) || sum % 5 == 0
    }
}

/// An SST with its index, its blocks, and the keys of its filter.
struct Sst {
    index: Arc<SsTableIndex>,
    blocks: Vec<Arc<Block>>,
    keys: Vec<Bytes>,
}

/// What a batch asked of the object store.
#[derive(Default)]
struct Requests {
    filters: usize,
    indexes: usize,
    ranges: usize,
}

/// A database in memory.
struct Db {
    seq: u64,
    memtable: Vec<RowEntry>,
    core: ManifestCore,
    ssts: BTreeMap<u128, Sst>,
    operator: Option<ConcatMergeOperator>,
    cache: Option<BTreeMap<(u128, usize), Arc<Block>>>,
    cached_indexes: BTreeMap<u128, Arc<SsTableIndex>>,
    cached_filters: BTreeMap<u128, bool>,
    requests: Requests,
}

fn key(id: usize) -> Vec<u8> {
    format!("key{id:05}").into_bytes()
}

impl Db {
    fn new(cached: bool, operator: Option<ConcatMergeOperator>) -> Self {
        Db {
            seq: 0,
            memtable: Vec::new(),
            core: ManifestCore {
                tree: LsmTree { l0: Vec::new(), compacted: Vec::new() },
                segments: Vec::new(),
            },
            ssts: BTreeMap::new(),
            operator,
            cache: cached.then_some(BTreeMap::new()),
            cached_indexes: BTreeMap::new(),
            cached_filters: BTreeMap::new(),
            requests: Requests::default(),
        }
    }

    fn write(&mut self, mut entry: RowEntry) {
        self.seq += 1;
        entry.seq = self.seq;
        let at = self.memtable.partition_point(|other| other.key < entry.key);
        self.memtable.insert(at, entry);
    }

    fn put(&mut self, key: &[u8], value: &[u8]) {
        self.write(RowEntry::new_value(key, value, 0));
    }

    fn merge(&mut self, key: &[u8], value: &[u8]) {
        self.write(RowEntry::new_merge(key, value, 0));
    }

    fn delete(&mut self, key: &[u8]) {
        self.write(RowEntry::new_tombstone(key, 0));
    }

    /// Write some rows to SSTs of at most `max` rows, with 3 rows per block.
    fn write_ssts(&mut self, rows: Vec<RowEntry>, max: usize) -> Vec<SsTableView> {
        let mut views = Vec::new();
        for rows in rows.chunks(max) {
            let id = self.ssts.len() as u128;
            let blocks: Vec<Arc<Block>> = rows
                .chunks(3)
                .map(|rows| Arc::new(Block { entries: rows.to_vec() }))
                .collect();
            let index = SsTableIndex {
                first_keys: blocks.iter().map(|block| block.entries[0].key.clone()).collect(),
                offsets: (0..=blocks.len() as u64).map(|b| b * 100).collect(),
            };
            let info = SsTableInfo {
                first_entry: rows.first().map(|row| row.key.clone()),
                last_entry: rows.last().map(|row| row.key.clone()),
            };
            self.ssts.insert(
                id,
                Sst {
                    index: Arc::new(index),
                    blocks,
                    keys: rows.iter().map(|row| row.key.clone()).collect(),
                },
            );
            views.push(SsTableView::identity(SsTableHandle { id, format_version: 2, info }));
        }
        views
    }

    fn flush_memtable(&mut self) {
        let rows = std::mem::take(&mut self.memtable);
        if !rows.is_empty() {
            let views = self.write_ssts(rows, usize::MAX);
            for view in views {
                self.core.tree.l0.insert(0, view);
            }
        }
    }

    /// Move all L0 SSTs into a sorted run of many small SSTs.
    fn compact_l0(&mut self) {
        self.flush_memtable();
        let views = std::mem::take(&mut self.core.tree.l0);
        let mut rows: Vec<RowEntry> = Vec::new();
        for view in &views {
            for block in &self.ssts[&view.sst.id].blocks {
                rows.extend(block.entries.iter().cloned());
            }
        }
        rows.sort_by(|a, b| a.key.cmp(&b.key).then(b.seq.cmp(&a.seq)));
        let id = self.core.tree.compacted.len() as u32;
        let views = self.write_ssts(rows, 4);
        self.core.tree.compacted.insert(0, SortedRun { id, views });
    }

    fn filters_of(&self, id: u128) -> Vec<NamedFilter<LooseSet>> {
        let filter = LooseSet(self.ssts[&id].keys.clone());
        vec![NamedFilter { name: "loose".to_string(), filter }]
    }

    /// All versions of `key`, newest first.
    fn versions(&self, key: &[u8], max_seq: Option<u64>) -> Vec<RowEntry> {
        let mut versions: Vec<RowEntry> =
            self.memtable.iter().filter(|row| row.key.as_ref() == key).cloned().collect();
        let runs = self.core.tree.compacted.iter().flat_map(|run| run.views.iter());
        for view in self.core.tree.l0.iter().chain(runs) {
            for block in &self.ssts[&view.sst.id].blocks {
                versions.extend(
                    block.entries.iter().filter(|row| row.key.as_ref() == key).cloned(),
                );
            }
        }
        versions.retain(|row| max_seq.is_none_or(|max_seq| row.seq <= max_seq));
        versions.sort_by(|a, b| b.seq.cmp(&a.seq));
        versions
    }

    /// One point read, straight from the versions of the key.
    fn get(&self, key: &[u8], max_seq: Option<u64>) -> Option<Bytes> {
        let mut operands: Vec<Bytes> = Vec::new();
        let mut value: Option<Bytes> = None;
        for row in self.versions(key, max_seq) {
            match row.value {
                ValueDeletable::Merge(operand) => operands.push(operand),
                ValueDeletable::Value(base) => {
                    value = Some(base);
                    break;
                }
                ValueDeletable::Tombstone => break,
            }
        }
        for operand in operands.into_iter().rev() {
            let merged = ConcatMergeOperator.merge(&Bytes::new(), value, operand);
            value = Some(merged.unwrap());
        }
        value
    }

    /// What the cache answers for a group.
    fn read_from_cache(&self, group: &ReadGroup) -> CacheAnswer {
        let keys: Vec<PendingKey> = group.keys.to_vec();
        let id = group.target.handle.id;
        let mut read: CacheRead<LooseSet> = CacheRead::start_checked(keys, group.filtered);
        loop {
            read = match read {
                CacheRead::NeedIndex { .. } => read.on_index(self.cached_indexes.get(&id).cloned()),
                CacheRead::NeedCached { ref needed, .. } => {
                    let blocks = self.cache.as_ref();
                    let cached = needed
                        .iter()
                        .map(|&b| blocks.and_then(|blocks| blocks.get(&(id, b)).cloned()))
                        .collect();
                    read.on_cached(cached)
                }
                CacheRead::Done(result) => {
                    return CacheAnswer {
                        found: result.found,
                        misses: result.misses,
                        index: result.index,
                    };
                }
            };
        }
    }

    /// Read a group from the object store.
    fn read_sst(&mut self, group: ReadGroup, options: &MultiGetOptions) -> SstEntries {
        let id = group.target.handle.id;
        let mut read = SstRead::start(group.keys, group.index, group.filtered);
        loop {
            read = match read {
                SstRead::NeedIndex { .. } => {
                    self.requests.indexes += 1;
                    let index = self.ssts[&id].index.clone();
                    if self.cache.is_some() {
                        self.cached_indexes.insert(id, index.clone());
                    }
                    read.on_index(index)
                }
                SstRead::NeedCached { ref needed, .. } => {
                    let blocks = self.cache.as_ref();
                    let cached = needed
                        .iter()
                        .map(|&b| blocks.and_then(|blocks| blocks.get(&(id, b)).cloned()))
                        .collect();
                    read.on_cached(cached, options)
                }
                SstRead::NeedRuns { ref runs, .. } => {
                    self.requests.ranges += runs.len();
                    let mut fetched = Vec::new();
                    for run in runs {
                        let blocks = self.ssts[&id].blocks[run.clone()].to_vec();
                        if let Some(cache) = &mut self.cache {
                            for (b, block) in run.clone().zip(&blocks) {
                                cache.insert((id, b), block.clone());
                            }
                        }
                        fetched.push(blocks);
                    }
                    read.on_runs(fetched)
                }
                SstRead::Done(entries) => return entries,
            };
        }
    }

    /// A batched read. What is in flight returns in an order that `rng` picks.
    fn multi_get_at(
        &mut self,
        keys: &[Vec<u8>],
        write_batch: Option<KvTable>,
        max_seq: Option<u64>,
        rng: &mut StdRng,
    ) -> Result<Vec<Option<Bytes>>, ResolveError<String>> {
        let options = MultiGetOptions::default().with_coalesce_gap_bytes(100);
        let input: Vec<&[u8]> = keys.iter().map(|key| key.as_slice()).collect();
        let tables = vec![KvTable { entries: self.memtable.clone() }];
        let open = open_batch(&input, &write_batch, &tables, &self.core, max_seq);
        let candidates: Vec<u64> =
            open.keys.iter().map(|key| key.candidate_ssts().len() as u64).collect();
        let mut ssts = open.ssts;
        for sst in ssts.iter_mut() {
            let id = sst.target.handle.id;
            if self.cached_filters.contains_key(&id) {
                let filters = self.filters_of(id);
                sst.load(filters);
            }
        }
        let mut pipeline = Pipeline::new(open.keys, ssts, None, max_seq, options.lookahead);
        let mut loads: Vec<usize> = Vec::new();
        let mut reads: Vec<ReadGroup> = Vec::new();
        pipeline.start();
        loop {
            loads.extend(pipeline.take_loads());
            while let Some(group) = pipeline.next_group() {
                let cached = self.read_from_cache(&group);
                reads.extend(pipeline.read_group(group, cached));
                loads.extend(pipeline.take_loads());
            }
            let in_flight = loads.len() + reads.len();
            if in_flight == 0 {
                break;
            }
            let next = rng.random_range(0..in_flight);
            if next < loads.len() {
                let sst = loads.swap_remove(next);
                let id = pipeline.ssts[sst].target.handle.id;
                self.requests.filters += 1;
                if self.cache.is_some() {
                    self.cached_filters.insert(id, true);
                }
                let filters = self.filters_of(id);
                pipeline.on_event(ReadEvent::Filters { sst, filters });
            } else {
                let group = reads.swap_remove(next - loads.len());
                let sst = group.sst;
                let keys: Vec<usize> = group.keys.iter().map(|pk| pk.idx).collect();
                let entries = self.read_sst(group, &options);
                pipeline.on_event(ReadEvent::Read { sst, keys, entries });
            }
        }
        assert!(pipeline.keys.iter().all(|key| key.done));
        let slowest = pipeline.keys.iter().map(|key| key.rounds).max().unwrap_or(0);
        assert_eq!(pipeline.rounds(), slowest);
        assert!(pipeline.keys.iter().zip(candidates).all(|(key, n)| key.rounds <= n));
        let values = finish(&open.batch, pipeline.keys, &self.operator)?;
        Ok(values
            .into_iter()
            .map(|entry| {
                entry.map(|entry| match entry.value {
                    ValueDeletable::Value(value) | ValueDeletable::Merge(value) => value,
                    ValueDeletable::Tombstone => panic!("a deleted key has no entry"),
                })
            })
            .collect())
    }

    fn multi_get(&mut self, keys: &[Vec<u8>], rng: &mut StdRng) -> Vec<Option<Bytes>> {
        self.multi_get_at(keys, None, None, rng).unwrap()
    }
}

/// The batch must agree key by key with single point reads.
fn assert_multi_get_matches_get_loop(db: &mut Db, keys: &[Vec<u8>], rng: &mut StdRng) {
    let multi = db.multi_get(keys, rng);
    assert_eq!(multi.len(), keys.len(), "one result slot per input key");
    for (i, k) in keys.iter().enumerate() {
        let single = db.get(k, None);
        assert_eq!(
            multi[i],
            single,
            "multi_get disagreed with get for {:?}",
            String::from_utf8_lossy(k)
        );
    }
}

/// Apply a deterministic sequence of random put/delete ops over `key_space`
/// keys, flushing periodically so data spreads across the memtable and many
/// L0 SSTs.
fn populate_random(db: &mut Db, seed: u64, key_space: usize, ops: usize) -> StdRng {
    let mut rng = StdRng::seed_from_u64(seed);
    for _ in 0..ops {
        let k = key(rng.random_range(0..key_space));
        if rng.random_bool(0.2) {
            db.delete(&k);
        } else {
            let v = format!("v{}", rng.random_range(0..1_000_000)).into_bytes();
            db.put(&k, &v);
        }
        if rng.random_bool(0.04) {
            db.flush_memtable();
        }
    }
    db.flush_memtable();
    rng
}

/// Query many random batches (with duplicates and absent keys) plus a full
/// sweep.
fn assert_random_batches(db: &mut Db, rng: &mut StdRng, key_space: usize) {
    for _ in 0..15 {
        let batch_size = rng.random_range(0..12);
        let keys: Vec<Vec<u8>> =
            (0..batch_size).map(|_| key(rng.random_range(0..key_space + 20))).collect();
        assert_multi_get_matches_get_loop(db, &keys, rng);
    }
    let sweep: Vec<Vec<u8>> = (0..key_space + 20).map(key).collect();
    assert_multi_get_matches_get_loop(db, &sweep, rng);
}

#[test]
fn test_multi_get_matches_get_loop_no_cache() {
    let mut db = Db::new(false, None);
    let key_space = 80;
    let mut rng = populate_random(&mut db, 0xA11CE, key_space, 500);
    assert_random_batches(&mut db, &mut rng, key_space);

    // Explicit edge cases.
    assert!(db.multi_get(&[], &mut rng).is_empty());
    let dup = vec![key(0), key(0), key(1), key(0)];
    let got = db.multi_get(&dup, &mut rng);
    assert_eq!(got[0], got[1]);
    assert_eq!(got[0], got[3]);
}

#[test]
fn test_multi_get_matches_get_loop_with_block_cache() {
    let mut db = Db::new(true, None);
    let key_space = 80;
    let mut rng = populate_random(&mut db, 0xCACE, key_space, 500);
    // Warm the cache with one sweep, then run batches against warm caches.
    let sweep: Vec<Vec<u8>> = (0..key_space).map(key).collect();
    assert_multi_get_matches_get_loop(&mut db, &sweep, &mut rng);
    db.requests = Requests::default();
    assert_multi_get_matches_get_loop(&mut db, &sweep, &mut rng);
    assert_eq!(db.requests.indexes + db.requests.ranges + db.requests.filters, 0);
    assert_random_batches(&mut db, &mut rng, key_space);
}

#[test]
fn test_multi_get_matches_get_loop_with_merge_operator() {
    let mut db = Db::new(false, Some(ConcatMergeOperator));
    // Random put / merge / delete so values are built from operands that span
    // the memtable and multiple L0 SSTs.
    let key_space = 50;
    let mut rng = StdRng::seed_from_u64(0x3E26E);
    for _ in 0..600 {
        let k = key(rng.random_range(0..key_space));
        let roll = rng.random_range(0..10);
        if roll < 2 {
            db.delete(&k);
        } else if roll < 6 {
            let v = format!("v{}", rng.random_range(0..1000)).into_bytes();
            db.put(&k, &v);
        } else {
            let v = format!("m{}", rng.random_range(0..1000)).into_bytes();
            db.merge(&k, &v);
        }
        if rng.random_bool(0.04) {
            db.flush_memtable();
        }
    }
    db.flush_memtable();
    assert_random_batches(&mut db, &mut rng, key_space);
}

#[test]
fn test_multi_get_matches_get_loop_after_compaction() {
    let mut db = Db::new(false, None);
    let key_space = 80;
    let mut rng = populate_random(&mut db, 0xC0FFEE, key_space, 300);
    db.compact_l0();
    let run_ssts: usize = db.core.tree.compacted.iter().map(|run| run.sst_views().len()).sum();
    assert!(run_ssts > 1, "the fixture must build a sorted run of many SSTs");

    assert_random_batches(&mut db, &mut rng, key_space);
}

#[test]
fn test_multi_get_transaction_sees_buffered_writes() {
    let mut db = Db::new(false, None);
    let mut rng = StdRng::seed_from_u64(1);
    db.put(&key(1), b"committed1");
    db.put(&key(2), b"committed2");

    // Buffered (uncommitted) writes are visible to the transaction's own reads.
    let buffered = KvTable {
        entries: vec![
            RowEntry::new_value(&key(1), b"txn1", u64::MAX),
            RowEntry::new_tombstone(&key(2), u64::MAX),
            RowEntry::new_value(&key(3), b"txn3", u64::MAX),
        ],
    };
    let max_seq = Some(db.seq);
    let got = db
        .multi_get_at(&[key(1), key(2), key(3), key(4)], Some(buffered), max_seq, &mut rng)
        .unwrap();
    assert_eq!(got[0].as_deref(), Some(b"txn1".as_ref())); // overwritten in txn
    assert_eq!(got[1], None); // deleted in txn
    assert_eq!(got[2].as_deref(), Some(b"txn3".as_ref())); // new in txn
    assert_eq!(got[3], None); // absent

    // The base DB does not see the uncommitted writes.
    let base = db.multi_get(&[key(1), key(2), key(3)], &mut rng);
    assert_eq!(base[0].as_deref(), Some(b"committed1".as_ref()));
    assert_eq!(base[1].as_deref(), Some(b"committed2".as_ref()));
    assert_eq!(base[2], None);
}

#[test]
fn a_snapshot_hides_newer_versions_in_every_layer() {
    let mut db = Db::new(false, None);
    let key_space = 40;
    let mut rng = populate_random(&mut db, 0x5EED, key_space, 200);
    db.compact_l0();
    let snapshot = db.seq;
    for id in 0..key_space {
        db.put(&key(id), b"new");
        if id == 10 || id == 20 {
            db.flush_memtable();
        }
    }
    let keys: Vec<Vec<u8>> = (0..key_space).map(key).collect();
    let got = db.multi_get_at(&keys, None, Some(snapshot), &mut rng).unwrap();
    for (value, k) in got.iter().zip(&keys) {
        assert_eq!(*value, db.get(k, Some(snapshot)));
    }
    assert!(db.multi_get(&keys, &mut rng).iter().all(|value| value.is_some()));
}

#[test]
fn order_and_duplicates_change_no_read() {
    let mut db = Db::new(false, None);
    populate_random(&mut db, 0xD0D0, 30, 250);
    let keys: Vec<Vec<u8>> = (0..30).map(key).collect();
    let read = |db: &mut Db, keys: &[Vec<u8>]| {
        let values = db.multi_get(keys, &mut StdRng::seed_from_u64(4));
        let requests = std::mem::take(&mut db.requests);
        (values, [requests.filters, requests.indexes, requests.ranges])
    };
    let (values, requests) = read(&mut db, &keys);

    let mut more = keys.clone();
    more.push(key(7));
    let (with_duplicate, same_requests) = read(&mut db, &more);
    assert_eq!(with_duplicate[..30], values[..]);
    assert_eq!(with_duplicate[30], values[7]);
    assert_eq!(same_requests, requests);

    let reversed: Vec<Vec<u8>> = keys.iter().rev().cloned().collect();
    let (backwards, same_requests) = read(&mut db, &reversed);
    assert!(backwards.iter().rev().eq(values.iter()));
    assert_eq!(same_requests, requests);
}

#[test]
fn each_reader_returns_the_same_values() {
    let mut db = Db::new(true, None);
    let mut rng = populate_random(&mut db, 0xCAFE, 40, 300);
    let keys: Vec<Bytes> = (0..50).map(|id| Bytes::from(key(id % 45))).collect();
    let expected: Vec<Option<Bytes>> = keys.iter().map(|k| db.get(k, None)).collect();
    let options = MultiGetOptions::default();
    for reader in [Reader::Sequential, Reader::Concurrent, Reader::MultiGet] {
        let mode = ReadMode::Mget { reader, batch_size: keys.len(), options };
        let values = match mode.read(&keys) {
            ReadPlan::Gets { keys: n, at_once } => {
                assert!(at_once >= 1 && at_once <= options.max_fetch_tasks);
                keys[..n].iter().map(|k| db.get(k, None)).collect()
            }
            ReadPlan::MultiGet { .. } => {
                let input: Vec<Vec<u8>> = keys.iter().map(|k| k.to_vec()).collect();
                db.multi_get(&input, &mut rng)
            }
        };
        assert_eq!(values, expected);
    }
    let ReadPlan::Gets { keys: n, .. } = ReadMode::Get.read(&keys) else {
        panic!("one get per read");
    };
    assert_eq!(n, 1);
}

#[test]
fn a_batch_sends_no_more_requests_than_single_reads() {
    let mut db = Db::new(false, None);
    let key_space = 60;
    let mut rng = populate_random(&mut db, 0xB0B, key_space, 400);
    let keys: Vec<Vec<u8>> = (0..key_space).map(key).collect();
    db.multi_get(&keys, &mut rng);
    let batch = std::mem::take(&mut db.requests);
    for k in &keys {
        db.multi_get(std::slice::from_ref(k), &mut rng);
    }
    let single = std::mem::take(&mut db.requests);
    assert!(batch.filters <= single.filters);
    assert!(batch.indexes <= single.indexes);
    assert!(batch.ranges <= single.ranges);
    // The filters of an SST load one time for the whole batch.
    assert!(batch.filters <= db.ssts.len());
}

#[test]
fn an_operand_with_no_operator_fails_the_batch() {
    let mut db = Db::new(false, None);
    let mut rng = StdRng::seed_from_u64(1);
    db.put(&key(1), b"a");
    db.merge(&key(2), b"b");
    let result = db.multi_get_at(&[key(1), key(2)], None, None, &mut rng);
    assert_eq!(result, Err(ResolveError::MergeOperatorMissing));
}

/// A merge operator that always fails.
struct Broken;

impl MergeOperator for Broken {
    type Error = String;

    fn merge(&self, _: &Bytes, _: Option<Bytes>, _: Bytes) -> Result<Bytes, String> {
        Err("broken".to_string())
    }
}

#[test]
fn versions_resolve_to_the_newest_base_and_the_operands_above_it() {
    let k = Bytes::from_static(b"k");
    let operator = Some(ConcatMergeOperator);
    let resolve = |wb: Vec<RowEntry>, rest: Vec<RowEntry>| {
        resolve_entry(&operator, &k, wb, rest).unwrap()
    };
    let value = |s: &str, seq| RowEntry::new_value(b"k", s.as_bytes(), seq);
    let merge = |s: &str, seq| RowEntry::new_merge(b"k", s.as_bytes(), seq);

    assert_eq!(resolve(vec![], vec![]), None);
    assert_eq!(resolve(vec![], vec![value("v", 3)]), Some(value("v", 3)));
    assert_eq!(resolve(vec![RowEntry::new_tombstone(b"k", 3)], vec![value("v", 2)]), None);
    // The oldest operand merges first, and the newest gives the sequence.
    assert_eq!(
        resolve(vec![merge("c", 9)], vec![merge("b", 4), value("a", 3), value("x", 1)]),
        Some(value("abc", 9))
    );
    // A deletion below the operands is no value.
    assert_eq!(
        resolve(vec![], vec![merge("b", 4), RowEntry::new_tombstone(b"k", 3), value("x", 1)]),
        Some(value("b", 4))
    );
    assert_eq!(
        resolve(vec![], vec![merge("b", 4), merge("a", 3)]),
        Some(value("ab", 4))
    );
    let broken = resolve_entry(&Some(Broken), &k, vec![merge("b", 4)], vec![]);
    assert_eq!(broken, Err(ResolveError::Merge("broken".to_string())));
}

#[test]
fn results_go_to_every_position_of_their_key() {
    let value = |s: &str| Some(RowEntry::new_value(b"k", s.as_bytes(), 1));
    let values = vec![value("a"), None, value("c")];
    let results = scatter(values, &vec![2, 0, 1, 0, 2, 2]);
    assert_eq!(
        results,
        [value("c"), value("a"), None, value("a"), value("c"), value("c")]
    );
    assert!(scatter(vec![], &vec![]).is_empty());
}

#[test]
fn a_table_returns_all_versions_of_a_key() {
    let table = KvTable {
        entries: vec![
            RowEntry::new_value(b"a", b"1", 4),
            RowEntry::new_merge(b"b", b"2", 9),
            RowEntry::new_value(b"b", b"3", 7),
            RowEntry::new_value(b"ba", b"4", 8),
        ],
    };
    let seqs = |key: &'static [u8]| -> Vec<u64> {
        let versions = kv_table_get_versions(&table, &Bytes::from_static(key));
        versions.iter().map(|entry| entry.seq).collect()
    };
    assert_eq!(seqs(b"a"), [4]);
    assert_eq!(seqs(b"b"), [9, 7]);
    assert_eq!(seqs(b"ba"), [8]);
    assert!(seqs(b"c").is_empty());
    assert!(seqs(b"").is_empty());
}
