//! The arguments of the benchmark, and what follows from them.

use bytes::Bytes;
use std::sync::Arc;
use vstd::prelude::*;
use vstd::string::StringExecFns;

use super::keys::{
    is_key_set,
    thresholds_in_order,
    FixedSetKeyGenerator,
    FixedSetState,
    KeyGenerator,
    RandomKeyGenerator,
    RandomState,
    Walk,
};
use super::reader::{ReadMode, Reader};
use super::rng::seeded_state;
use crate::config::MultiGetOptions;
use crate::octets::contents;

verus! {

// ---------------------------------------------------------------------------
// The database
// ---------------------------------------------------------------------------

/// The delay that the benchmark adds to each object store read.
#[derive(Clone, Copy, Debug, PartialEq, Eq, Structural)]
pub enum DelayProfileKind {
    /// No delay.
    NoDelay,
    /// S3 in one region.
    S3,
    /// S3 Express One Zone.
    S3x,
}

impl DelayProfileKind {
    /// The name of the profile on the command line.
    pub open spec fn named(self) -> Seq<char> {
        match self {
            DelayProfileKind::NoDelay => "none"@,
            DelayProfileKind::S3 => "s3"@,
            DelayProfileKind::S3x => "s3x"@,
        }
    }

    /// The name of the profile on the command line.
    pub fn name(&self) -> (name: &'static str)
        ensures
            name@ == self.named(),
    {
        match self {
            DelayProfileKind::NoDelay => "none",
            DelayProfileKind::S3 => "s3",
            DelayProfileKind::S3x => "s3x",
        }
    }
}

/// The delay of each object store read.
#[derive(Clone, Copy, Debug, PartialEq, Eq, Structural)]
pub enum Delay {
    /// Reads are not delayed.
    NoDelay,
    /// A fixed delay in milliseconds.
    Fixed(u64),
    /// The measured latency of S3 in one region.
    S3,
    /// The measured latency of S3 Express One Zone.
    S3Express,
}

/// The options of the object store disk cache.
#[derive(Debug, PartialEq, Eq)]
pub struct ObjectStoreCacheOptions {
    /// The folder of the cache. With none, there is no cache.
    pub root_folder: Option<String>,
    pub max_cache_size_bytes: Option<usize>,
    pub part_size_bytes: usize,
}

/// The cache of the filters and the indexes.
#[derive(Clone, Copy, Debug, PartialEq, Eq, Structural)]
pub enum MetaCache {
    /// There is none.
    Absent,
    /// The block cache is also the meta cache.
    Unified,
    /// A cache of its own, with this capacity in bytes.
    Own(u64),
}

/// The caches in memory.
#[derive(Clone, Copy, Debug, PartialEq, Eq, Structural)]
pub struct MemoryCache {
    /// The capacity of the block cache in bytes, if there is one.
    pub block: Option<u64>,
    pub meta: MetaCache,
}

/// The arguments that configure the database.
#[derive(Clone, Copy, Debug, PartialEq, Eq, Structural)]
pub struct DbArgs {
    pub block_cache_size: Option<u64>,
    pub meta_cache_size: Option<u64>,
    pub unified_cache: bool,
    pub disk_cache: bool,
    pub disk_cache_size: Option<usize>,
    pub disk_cache_part_size: Option<usize>,
    pub delay_profile: DelayProfileKind,
    pub delay_ms: Option<u64>,
}

impl DbArgs {
    /// The options of the disk cache. By default the benchmark disables it,
    /// so reads go to the object store.
    pub open spec fn disk_cache_of(
        self,
        options: ObjectStoreCacheOptions,
    ) -> ObjectStoreCacheOptions {
        if self.disk_cache {
            ObjectStoreCacheOptions {
                max_cache_size_bytes: if self.disk_cache_size is Some {
                    self.disk_cache_size
                } else {
                    options.max_cache_size_bytes
                },
                part_size_bytes: match self.disk_cache_part_size {
                    Some(size) => size,
                    None => options.part_size_bytes,
                },
                ..options
            }
        } else {
            ObjectStoreCacheOptions { root_folder: None, ..options }
        }
    }

    /// The caches in memory. A unified cache uses the block cache for both.
    pub open spec fn memory_cache_of(self) -> MemoryCache {
        MemoryCache {
            block: self.block_cache_size,
            meta: if self.unified_cache {
                if self.block_cache_size is Some {
                    MetaCache::Unified
                } else {
                    MetaCache::Absent
                }
            } else {
                match self.meta_cache_size {
                    Some(capacity) => MetaCache::Own(capacity),
                    None => MetaCache::Absent,
                }
            },
        }
    }

    /// The disk cache options of the database, from those of its
    /// configuration file, and its caches in memory.
    pub fn config(&self, options: ObjectStoreCacheOptions) -> (config: (
        ObjectStoreCacheOptions,
        MemoryCache,
    ))
        ensures
            config.0 == self.disk_cache_of(options),
            config.1 == self.memory_cache_of(),
    {
        let mut options = options;
        if self.disk_cache {
            if self.disk_cache_size.is_some() {
                options.max_cache_size_bytes = self.disk_cache_size;
            }
            if let Some(size) = self.disk_cache_part_size {
                options.part_size_bytes = size;
            }
        } else {
            options.root_folder = None;
        }
        let meta = if self.unified_cache {
            if self.block_cache_size.is_some() {
                MetaCache::Unified
            } else {
                MetaCache::Absent
            }
        } else {
            match self.meta_cache_size {
                Some(capacity) => MetaCache::Own(capacity),
                None => MetaCache::Absent,
            }
        };
        (options, MemoryCache { block: self.block_cache_size, meta })
    }

    /// The delay of the object store. A fixed delay overrides the profile.
    pub fn wrap_store(&self) -> (delay: Delay)
        ensures
            delay == match self.delay_ms {
                Some(millis) => Delay::Fixed(millis),
                None => match self.delay_profile {
                    DelayProfileKind::NoDelay => Delay::NoDelay,
                    DelayProfileKind::S3 => Delay::S3,
                    DelayProfileKind::S3x => Delay::S3Express,
                },
            },
    {
        match self.delay_ms {
            Some(millis) => Delay::Fixed(millis),
            None => match self.delay_profile {
                DelayProfileKind::NoDelay => Delay::NoDelay,
                DelayProfileKind::S3 => Delay::S3,
                DelayProfileKind::S3x => Delay::S3Express,
            },
        }
    }
}

// ---------------------------------------------------------------------------
// The reads
// ---------------------------------------------------------------------------

/// The arguments of the `mget` mode.
#[derive(Clone, Copy, Debug, PartialEq, Eq, Structural)]
pub struct MgetArgs {
    pub reader: Reader,
    /// The number of keys in one batch.
    pub batch_size: usize,
    /// Max object store requests in flight for one batch.
    pub read_concurrency: usize,
    pub lookahead: usize,
    pub coalesce_gap_bytes: usize,
    pub max_coalesced_bytes: usize,
}

impl MgetArgs {
    /// The options of the batched reads.
    pub fn mget_options(&self) -> (options: MultiGetOptions)
        ensures
            options == (MultiGetOptions {
                cache_blocks: true,
                max_fetch_tasks: self.read_concurrency,
                lookahead: self.lookahead,
                coalesce_gap_bytes: self.coalesce_gap_bytes,
                max_coalesced_bytes: self.max_coalesced_bytes,
            }),
    {
        MultiGetOptions::new().with_max_fetch_tasks(self.read_concurrency).with_lookahead(
            self.lookahead,
        ).with_coalesce_gap_bytes(self.coalesce_gap_bytes).with_max_coalesced_bytes(
            self.max_coalesced_bytes,
        )
    }

    /// The read mode of a benchmark. With no `mget` mode, each read is one
    /// `get`.
    pub fn read_mode(mode: &Option<MgetArgs>) -> (read_mode: ReadMode)
        ensures
            match *mode {
                None => read_mode is Get,
                Some(args) => {
                    &&& read_mode matches ReadMode::Mget { reader, batch_size, options }
                    &&& reader == args.reader
                    &&& batch_size == args.batch_size
                    &&& options.cache_blocks
                    &&& options.max_fetch_tasks == args.read_concurrency
                    &&& options.lookahead == args.lookahead
                    &&& options.coalesce_gap_bytes == args.coalesce_gap_bytes
                    &&& options.max_coalesced_bytes == args.max_coalesced_bytes
                },
            },
    {
        match mode {
            None => ReadMode::Get,
            Some(args) => ReadMode::Mget {
                reader: args.reader,
                batch_size: args.batch_size,
                options: args.mget_options(),
            },
        }
    }
}

// ---------------------------------------------------------------------------
// The keys
// ---------------------------------------------------------------------------

/// How the benchmark makes its keys.
#[derive(Clone, Copy, Debug, PartialEq, Eq, Structural)]
pub enum KeyGeneratorType {
    Random,
    FixedSet,
}

impl KeyGeneratorType {
    /// The name of the generator on the command line.
    pub open spec fn named(self) -> Seq<char> {
        match self {
            KeyGeneratorType::Random => "Random"@,
            KeyGeneratorType::FixedSet => "FixedSet"@,
        }
    }

    /// The name of the generator on the command line.
    pub fn name(&self) -> (name: &'static str)
        ensures
            name@ == self.named(),
    {
        match self {
            KeyGeneratorType::Random => "Random",
            KeyGeneratorType::FixedSet => "FixedSet",
        }
    }
}

/// The pick seed of one task.
pub open spec fn seed_of(seed: Option<u64>, task: u64) -> Option<u64> {
    match seed {
        Some(seed) => Some(((seed + task) % 0x1_0000_0000_0000_0000) as u64),
        None => None,
    }
}

/// The pick seed of one task. Each task gets its own seed, so the tasks do
/// not read the same keys in the same order.
pub fn task_seed(seed: Option<u64>, task: u64) -> (own: Option<u64>)
    ensures
        own == seed_of(seed, task),
{
    match seed {
        Some(seed) => Some(seed.wrapping_add(task)),
        None => None,
    }
}

/// Two tasks with a seed never share a pick seed.
pub proof fn law_tasks_get_their_own_seeds(seed: u64, a: u64, b: u64)
    ensures
        seed_of(Some(seed), a) == seed_of(Some(seed), b) ==> a == b,
{
}

/// What the keys of a run rest on.
#[derive(Clone, Copy, Debug, PartialEq, Eq, Structural)]
pub struct KeyArgs {
    pub key_generator: KeyGeneratorType,
    pub key_len: usize,
    pub key_count: u64,
    pub seed: Option<u64>,
    /// The number of tasks that share the key set.
    pub concurrency: u32,
    /// The fixed set generator walks the whole set.
    pub all_keys: bool,
}

/// The key generator of one task.
pub enum Generator {
    Random(RandomKeyGenerator),
    FixedSet(FixedSetKeyGenerator),
}

/// What a [`Generator`] rests on.
pub enum GeneratorState {
    Random(RandomState),
    FixedSet(FixedSetState),
}

impl KeyGenerator for Generator {
    type State = GeneratorState;

    open spec fn state(&self) -> GeneratorState {
        match *self {
            Generator::Random(generator) => GeneratorState::Random(generator.state()),
            Generator::FixedSet(generator) => GeneratorState::FixedSet(generator.state()),
        }
    }

    open spec fn ready(&self) -> bool {
        match *self {
            Generator::Random(generator) => generator.ready(),
            Generator::FixedSet(generator) => generator.ready(),
        }
    }

    open spec fn gives(state: GeneratorState, key: Seq<u8>) -> bool {
        match state {
            GeneratorState::Random(state) => RandomKeyGenerator::gives(state, key),
            GeneratorState::FixedSet(state) => FixedSetKeyGenerator::gives(state, key),
        }
    }

    open spec fn next(state: GeneratorState) -> (Seq<u8>, GeneratorState) {
        match state {
            GeneratorState::Random(state) => {
                let (key, after) = RandomKeyGenerator::next(state);
                (key, GeneratorState::Random(after))
            },
            GeneratorState::FixedSet(state) => {
                let (key, after) = FixedSetKeyGenerator::next(state);
                (key, GeneratorState::FixedSet(after))
            },
        }
    }

    open spec fn used(state: GeneratorState) -> (Seq<u8>, GeneratorState) {
        match state {
            GeneratorState::Random(state) => {
                let (key, after) = RandomKeyGenerator::used(state);
                (key, GeneratorState::Random(after))
            },
            GeneratorState::FixedSet(state) => {
                let (key, after) = FixedSetKeyGenerator::used(state);
                (key, GeneratorState::FixedSet(after))
            },
        }
    }

    fn next_key(&mut self) -> Bytes {
        match self {
            Generator::Random(generator) => generator.next_key(),
            Generator::FixedSet(generator) => generator.next_key(),
        }
    }

    fn used_key(&mut self) -> Bytes {
        match self {
            Generator::Random(generator) => generator.used_key(),
            Generator::FixedSet(generator) => generator.used_key(),
        }
    }
}

/// Supplies each task with its key generator. The tasks share one key set and
/// one set of Zipf thresholds.
pub struct KeySupplier {
    pub args: KeyArgs,
    /// The shared set of the fixed set generators.
    pub keys: Option<Arc<Vec<Bytes>>>,
    /// The shared Zipf thresholds of the walks.
    pub zipf: Option<Arc<Vec<u64>>>,
    /// The index of the next task.
    pub next_task: u64,
}

impl KeyArgs {
    /// The number of tasks that walk the set.
    pub open spec fn tasks(self) -> usize {
        if self.concurrency == 0 {
            1
        } else {
            self.concurrency as usize
        }
    }

    /// The supplier of the key generators. `zipf` are the thresholds of the
    /// read picks, see [`FixedSetKeyGenerator::with_zipf`]. Only a walk over
    /// a fixed set uses them.
    pub fn key_gen_supplier(&self, zipf: Option<Arc<Vec<u64>>>) -> (supplier: KeySupplier)
        requires
            self.key_len <= isize::MAX,
            self.key_count <= usize::MAX,
            zipf matches Some(thresholds) ==> thresholds_in_order(thresholds@),
        ensures
            supplier.wf(),
            supplier.args == *self,
            supplier.next_task == 0,
            supplier.zipf == if self.key_generator is FixedSet && self.all_keys {
                zipf
            } else {
                None
            },
    {
        match self.key_generator {
            KeyGeneratorType::Random => KeySupplier {
                args: *self,
                keys: None,
                zipf: None,
                next_task: 0,
            },
            KeyGeneratorType::FixedSet => {
                let keys = FixedSetKeyGenerator::key_set(self.key_len, self.key_count, self.seed);
                let zipf = if self.all_keys {
                    zipf
                } else {
                    None
                };
                KeySupplier { args: *self, keys: Some(keys), zipf, next_task: 0 }
            },
        }
    }
}

impl KeySupplier {
    /// The supplier has what its generators share.
    pub open spec fn wf(self) -> bool {
        &&& self.args.key_len <= isize::MAX
        &&& self.args.key_generator is FixedSet <==> self.keys is Some
        &&& self.keys matches Some(keys) ==> keys@.len() == self.args.key_count && is_key_set(
            contents(keys@),
            self.args.key_len as nat,
            self.args.key_count as nat,
            self.args.seed,
        )
        &&& self.zipf matches Some(thresholds) ==> thresholds_in_order(thresholds@)
        &&& self.zipf is Some ==> self.args.all_keys && self.args.key_generator is FixedSet
    }

    /// The key generator of the next task. Each task has its own pick seed,
    /// and walks its own slice of the set.
    pub fn supply(&mut self) -> (generator: Generator)
        requires
            old(self).wf(),
        ensures
            final(self).wf(),
            final(self).args == old(self).args,
            final(self).keys == old(self).keys,
            final(self).zipf == old(self).zipf,
            final(self).next_task == ((old(self).next_task + 1) % 0x1_0000_0000_0000_0000) as u64,
            generator.ready() <==> (old(self).keys matches Some(keys) ==> keys@.len() > 0),
            ({
                let args = old(self).args;
                let task = old(self).next_task;
                match old(self).keys {
                    None => {
                        &&& generator.state() matches GeneratorState::Random(state)
                        &&& state.key_len == args.key_len
                        &&& state.used == Seq::<Seq<u8>>::empty()
                        &&& seed_of(args.seed, task) matches Some(seed) ==> state.rng
                            == seeded_state(seed)
                    },
                    Some(keys) => {
                        &&& generator.state() matches GeneratorState::FixedSet(state)
                        &&& state.keys == contents(keys@)
                        &&& state.used == Seq::<Seq<u8>>::empty()
                        &&& seed_of(args.seed, task) matches Some(seed) ==> state.rng
                            == seeded_state(seed)
                        &&& state.walk == if args.all_keys {
                            Some(Walk { next: task as usize, stride: args.tasks() })
                        } else {
                            None
                        }
                        &&& state.zipf == match old(self).zipf {
                            Some(thresholds) => Some(thresholds@),
                            None => None,
                        }
                    },
                }
            }),
    {
        let task: u64 = self.next_task;
        self.next_task = task.wrapping_add(1);
        let seed = task_seed(self.args.seed, task);
        let keys = match &self.keys {
            None => {
                return Generator::Random(RandomKeyGenerator::new(self.args.key_len, seed));
            },
            Some(keys) => Arc::clone(keys),
        };
        let generator = FixedSetKeyGenerator::from_set(keys, seed);
        if !self.args.all_keys {
            return Generator::FixedSet(generator);
        }
        let tasks: usize = if self.args.concurrency == 0 {
            1
        } else {
            self.args.concurrency as usize
        };
        let walker = generator.walk(task as usize, tasks);
        match &self.zipf {
            Some(thresholds) => Generator::FixedSet(walker.with_zipf(Arc::clone(thresholds))),
            None => Generator::FixedSet(walker),
        }
    }
}

// ---------------------------------------------------------------------------
// Transactions
// ---------------------------------------------------------------------------

/// The isolation level of a transaction.
#[derive(Clone, Copy, Debug, PartialEq, Eq, Structural)]
pub enum IsolationLevel {
    Snapshot,
    SerializableSnapshot,
}

/// What `str::to_lowercase` returns.
pub uninterp spec fn lowercase(s: Seq<char>) -> Seq<char>;

/// `str::to_lowercase`: the result rests on the string alone.
#[verifier::external_body]
fn to_lowercase(s: &str) -> (lower: String)
    ensures
        lower@ == lowercase(s@),
{
    s.to_lowercase()
}

/// The level with the lower case name `lower`, or what is wrong with the
/// argument `s`.
pub open spec fn level_of(lower: Seq<char>, s: Seq<char>) -> Result<IsolationLevel, Seq<char>> {
    if lower == "snapshot"@ {
        Ok(IsolationLevel::Snapshot)
    } else if lower == "serializable"@ {
        Ok(IsolationLevel::SerializableSnapshot)
    } else {
        Err(
            "invalid isolation level: '"@ + s
                + "'. Valid options: 'snapshot', 'serializable'"@,
        )
    }
}

/// What the result of a parse says.
pub open spec fn parsed(result: Result<IsolationLevel, String>) -> Result<
    IsolationLevel,
    Seq<char>,
> {
    match result {
        Ok(level) => Ok(level),
        Err(message) => Err(message@),
    }
}

/// The level with the lower case name `lower`. `s` is the argument as it was
/// written.
pub fn isolation_level(lower: &String, s: &str) -> (level: Result<IsolationLevel, String>)
    ensures
        parsed(level) == level_of(lower@, s@),
{
    if *lower == "snapshot".to_owned() {
        Ok(IsolationLevel::Snapshot)
    } else if *lower == "serializable".to_owned() {
        Ok(IsolationLevel::SerializableSnapshot)
    } else {
        Err(
            "invalid isolation level: '".to_owned().concat(s).concat(
                "'. Valid options: 'snapshot', 'serializable'",
            ),
        )
    }
}

/// Parse an isolation level. Upper and lower case are the same.
pub fn parse_isolation_level(s: &str) -> (level: Result<IsolationLevel, String>)
    ensures
        parsed(level) == level_of(lowercase(s@), s@),
{
    let lower = to_lowercase(s);
    isolation_level(&lower, s)
}

/// The disk cache has a folder only when the arguments ask for the cache. An
/// argument for a size replaces that of the configuration, and without one the
/// configuration stands. The arguments add no folder of their own.
pub proof fn law_the_arguments_decide_on_the_disk_cache(
    args: DbArgs,
    options: ObjectStoreCacheOptions,
)
    ensures
        ({
            let cache = args.disk_cache_of(options);
            &&& !args.disk_cache ==> cache.root_folder is None && cache.max_cache_size_bytes
                == options.max_cache_size_bytes && cache.part_size_bytes == options.part_size_bytes
            &&& args.disk_cache ==> cache.root_folder == options.root_folder
            &&& args.disk_cache && args.disk_cache_size is Some ==> cache.max_cache_size_bytes
                == args.disk_cache_size
            &&& args.disk_cache && args.disk_cache_size is None ==> cache.max_cache_size_bytes
                == options.max_cache_size_bytes
            &&& args.disk_cache && args.disk_cache_part_size is Some ==> Some(cache.part_size_bytes)
                == args.disk_cache_part_size
            &&& args.disk_cache && args.disk_cache_part_size is None ==> cache.part_size_bytes
                == options.part_size_bytes
        }),
{
}

/// The block cache has the size of its argument, and with none there is no
/// block cache. A unified cache has no meta cache of its own: the meta entries
/// go to the block cache, if there is one. Otherwise the meta cache has the size
/// of its argument, and with none there is no meta cache.
pub proof fn law_the_arguments_decide_on_the_memory_caches(args: DbArgs)
    ensures
        ({
            let cache = args.memory_cache_of();
            &&& cache.block == args.block_cache_size
            &&& cache.meta is Unified <==> args.unified_cache && cache.block is Some
            &&& cache.meta is Own <==> !args.unified_cache && args.meta_cache_size is Some
            &&& cache.meta matches MetaCache::Own(size) ==> Some(size) == args.meta_cache_size
        }),
{
}

/// With no seed, a task has none. With a seed, the first task has that seed,
/// and each task has the seed that comes after the one of the task before it.
pub proof fn law_task_seeds_follow_each_other(seed: u64, task: u64)
    requires
        task < u64::MAX,
    ensures
        seed_of(None, task) is None,
        seed_of(Some(seed), 0) == Some(seed),
        seed + task <= u64::MAX ==> seed_of(Some(seed), task) == Some((seed + task) as u64),
        seed_of(Some(seed), task) matches Some(own) && (own < u64::MAX ==> seed_of(
            Some(seed),
            (task + 1) as u64,
        ) == Some((own + 1) as u64)) && (own == u64::MAX ==> seed_of(
            Some(seed),
            (task + 1) as u64,
        ) == Some(0u64)),
{
}

/// At least one task walks the set, and otherwise as many as run at once.
pub proof fn law_each_task_walks(args: KeyArgs)
    ensures
        args.tasks() >= 1,
        args.concurrency >= 1 ==> args.tasks() == args.concurrency,
        args.concurrency == 0 ==> args.tasks() == 1,
{
}

/// A generator gives what the generator inside it gives, and stays of its
/// type.
pub proof fn law_a_generator_gives_what_its_type_gives(random: RandomState, fixed: FixedSetState)
    ensures
        ({
            let (key, after) = Generator::next(GeneratorState::Random(random));
            after matches GeneratorState::Random(state) && (key, state) == RandomKeyGenerator::next(
                random,
            )
        }),
        ({
            let (key, after) = Generator::used(GeneratorState::Random(random));
            after matches GeneratorState::Random(state) && (key, state) == RandomKeyGenerator::used(
                random,
            )
        }),
        ({
            let (key, after) = Generator::next(GeneratorState::FixedSet(fixed));
            after matches GeneratorState::FixedSet(state) && (key, state)
                == FixedSetKeyGenerator::next(fixed)
        }),
        ({
            let (key, after) = Generator::used(GeneratorState::FixedSet(fixed));
            after matches GeneratorState::FixedSet(state) && (key, state)
                == FixedSetKeyGenerator::used(fixed)
        }),
{
}

/// There are exactly two names of isolation levels. Any other argument is an
/// error that repeats the argument as it was written.
pub proof fn law_two_names_are_isolation_levels(lower: Seq<char>, s: Seq<char>)
    ensures
        level_of(lower, s) == Ok::<IsolationLevel, Seq<char>>(IsolationLevel::Snapshot) <==> lower
            == seq!['s', 'n', 'a', 'p', 's', 'h', 'o', 't'],
        level_of(lower, s) == Ok::<IsolationLevel, Seq<char>>(
            IsolationLevel::SerializableSnapshot,
        ) <==> lower == seq!['s', 'e', 'r', 'i', 'a', 'l', 'i', 'z', 'a', 'b', 'l', 'e'],
        level_of(lower, s) matches Err(message) ==> exists|a: Seq<char>, b: Seq<char>|
            message == #[trigger] ((a + s) + b),
{
    reveal_strlit("snapshot");
    reveal_strlit("serializable");
    assert("snapshot"@ =~= seq!['s', 'n', 'a', 'p', 's', 'h', 'o', 't']);
    assert("serializable"@ =~= seq![
        's',
        'e',
        'r',
        'i',
        'a',
        'l',
        'i',
        'z',
        'a',
        'b',
        'l',
        'e',
    ]);
    assert("snapshot"@.len() == 8);
    assert("serializable"@.len() == 12);
    if let Err(message) = level_of(lower, s) {
        assert(message == ("invalid isolation level: '"@ + s)
            + "'. Valid options: 'snapshot', 'serializable'"@);
    }
}

/// No two delay profiles share a name, and no two key generators do.
pub proof fn law_names_tell_the_choices_apart(
    a: DelayProfileKind,
    b: DelayProfileKind,
    c: KeyGeneratorType,
    d: KeyGeneratorType,
)
    ensures
        a.named() == b.named() ==> a == b,
        c.named() == d.named() ==> c == d,
{
    reveal_strlit("none");
    reveal_strlit("s3");
    reveal_strlit("s3x");
    reveal_strlit("Random");
    reveal_strlit("FixedSet");
    assert("none"@.len() == 4);
    assert("s3"@.len() == 2);
    assert("s3x"@.len() == 3);
    assert("Random"@.len() == 6);
    assert("FixedSet"@.len() == 8);
}

} // verus!
