# slatedb_mget

Batched point reads (`multi_get`) of an LSM store, and the benchmark that
measures them. The library in `src/` is verified with Verus. A batch returns
what a loop of point reads over one snapshot returns: see
`law_multi_get_reads_like_a_loop_of_gets` in `src/multi_get/read.rs`. It sends no
more requests than the loop, apart from one filter load for each SST whose
filters are not in the cache: see
`law_a_batch_sends_no_more_requests_than_a_loop` in `src/multi_get/requests.rs`.

| Where | What |
| --- | --- |
| `src/multi_get/` | A batch: its keys, its candidate SSTs, the read phase, and the results |
| `src/multi_sst.rs` | The read of one SST that brings its own filters |
| `src/coalesce.rs`, `src/scan.rs`, `src/sstable.rs` | Block ranges, and the versions that blocks hold |
| `src/manifest.rs`, `src/partitions.rs` | Which SSTs and blocks cover a key |
| `src/memtable.rs`, `src/merge.rs`, `src/types.rs` | Rows, tables in memory, and what versions come to |
| `src/filter.rs`, `src/config.rs`, `src/octets.rs`, `src/sort.rs` | Filters, options, keys, sorting |
| `src/bench/` | Key generators, tasks, statistics, and arguments of the benchmark |
| `app/` | The async drivers, the object store wrapper, and the command line |

The read phase is a set of state machines. They say which filters, indexes and
block ranges to fetch, and take what came back. `app/` does the fetching.
