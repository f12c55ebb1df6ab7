//! Options of a batched read.

use vstd::prelude::*;

verus! {

/// The options of `multi_get` that shape its reads.
#[derive(Clone, Copy, Debug, PartialEq, Eq, Structural)]
pub struct MultiGetOptions {
    /// Put the blocks that the batch fetches into the block cache.
    pub cache_blocks: bool,
    /// Max object store requests of one batch in flight.
    pub max_fetch_tasks: usize,
    /// Max known-positive SSTs that a key reads in its second round and
    /// later. The first round always reads one.
    pub lookahead: usize,
    /// Two blocks go into one ranged GET when the gap between them is at most
    /// this many bytes. With 0, only adjacent blocks merge.
    pub coalesce_gap_bytes: usize,
    /// Upper size of one merged ranged GET.
    pub max_coalesced_bytes: usize,
}

/// Max object store requests in flight, by default.
pub const DEFAULT_MAX_FETCH_TASKS: usize = 256;

/// Max SSTs per read of a key, by default.
pub const DEFAULT_LOOKAHEAD: usize = 4;

/// Max gap in a merged read, by default: 64 KiB.
pub const DEFAULT_COALESCE_GAP_BYTES: usize = 65_536;

/// Max size of a merged read, by default: 4 MiB.
pub const DEFAULT_MAX_COALESCED_BYTES: usize = 4_194_304;

impl MultiGetOptions {
    /// The default options.
    pub fn new() -> (options: Self)
        ensures
            options == (MultiGetOptions {
                cache_blocks: true,
                max_fetch_tasks: DEFAULT_MAX_FETCH_TASKS,
                lookahead: DEFAULT_LOOKAHEAD,
                coalesce_gap_bytes: DEFAULT_COALESCE_GAP_BYTES,
                max_coalesced_bytes: DEFAULT_MAX_COALESCED_BYTES,
            }),
    {
        MultiGetOptions {
            cache_blocks: true,
            max_fetch_tasks: DEFAULT_MAX_FETCH_TASKS,
            lookahead: DEFAULT_LOOKAHEAD,
            coalesce_gap_bytes: DEFAULT_COALESCE_GAP_BYTES,
            max_coalesced_bytes: DEFAULT_MAX_COALESCED_BYTES,
        }
    }

    /// The options with another cache choice.
    pub fn with_cache_blocks(self, cache_blocks: bool) -> (options: Self)
        ensures
            options == (MultiGetOptions { cache_blocks, ..self }),
    {
        MultiGetOptions { cache_blocks, ..self }
    }

    /// The options with another limit of requests in flight.
    pub fn with_max_fetch_tasks(self, max_fetch_tasks: usize) -> (options: Self)
        ensures
            options == (MultiGetOptions { max_fetch_tasks, ..self }),
    {
        MultiGetOptions { max_fetch_tasks, ..self }
    }

    /// The options with another lookahead.
    pub fn with_lookahead(self, lookahead: usize) -> (options: Self)
        ensures
            options == (MultiGetOptions { lookahead, ..self }),
    {
        MultiGetOptions { lookahead, ..self }
    }

    /// The options with another gap of a merged read.
    pub fn with_coalesce_gap_bytes(self, coalesce_gap_bytes: usize) -> (options: Self)
        ensures
            options == (MultiGetOptions { coalesce_gap_bytes, ..self }),
    {
        MultiGetOptions { coalesce_gap_bytes, ..self }
    }

    /// The options with another size of a merged read.
    pub fn with_max_coalesced_bytes(self, max_coalesced_bytes: usize) -> (options: Self)
        ensures
            options == (MultiGetOptions { max_coalesced_bytes, ..self }),
    {
        MultiGetOptions { max_coalesced_bytes, ..self }
    }

    /// The permits of the request semaphore of a batch. A limit of 0 would
    /// let no request through.
    pub fn request_permits(&self) -> (permits: usize)
        ensures
            permits == if self.max_fetch_tasks == 0 {
                1
            } else {
                self.max_fetch_tasks
            },
    {
        if self.max_fetch_tasks == 0 {
            1
        } else {
            self.max_fetch_tasks
        }
    }
}

impl Default for MultiGetOptions {
    fn default() -> (options: Self)
        ensures
            options == (MultiGetOptions {
                cache_blocks: true,
                max_fetch_tasks: DEFAULT_MAX_FETCH_TASKS,
                lookahead: DEFAULT_LOOKAHEAD,
                coalesce_gap_bytes: DEFAULT_COALESCE_GAP_BYTES,
                max_coalesced_bytes: DEFAULT_MAX_COALESCED_BYTES,
            }),
    {
        Self::new()
    }
}

/// By default a batch has at most 256 requests in flight and reads four SSTs
/// ahead. A merged read bridges 64 KiB and has at most 4 MiB.
pub proof fn law_the_default_limits()
    ensures
        DEFAULT_MAX_FETCH_TASKS == 256,
        DEFAULT_LOOKAHEAD == 4,
        DEFAULT_COALESCE_GAP_BYTES == 64 * 1024,
        DEFAULT_MAX_COALESCED_BYTES == 4 * 1024 * 1024,
{
}

} // verus!
