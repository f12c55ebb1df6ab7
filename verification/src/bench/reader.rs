//! How the benchmark reads keys.

use bytes::Bytes;
use vstd::prelude::*;

use crate::config::MultiGetOptions;
use crate::filter::Filter;
use crate::manifest::ManifestCore;
use crate::memtable::KvTable;
use crate::merge::MergeOperator;
use crate::multi_get::batch::BatchKeys;
use crate::multi_get::candidates::TargetView;
use crate::multi_get::events::Event;
use crate::multi_get::pipeline::PipelineState;
use crate::multi_get::read::{
    batch_results,
    law_each_position_gets_its_point_read,
    point_read,
    runs_over,
};
use crate::octets::contents;
use crate::types::EntryView;

verus! {

/// How the `mget` mode reads one batch of keys.
#[derive(Clone, Copy, Debug, PartialEq, Eq, Structural)]
pub enum Reader {
    /// One `get` after the other.
    Sequential,
    /// Up to `read_concurrency` gets at once.
    Concurrent,
    /// One `multi_get` call.
    MultiGet,
}

impl Reader {
    /// The name of the reader on the command line.
    pub open spec fn named(self) -> Seq<char> {
        match self {
            Reader::Sequential => "seq"@,
            Reader::Concurrent => "concurrent"@,
            Reader::MultiGet => "multi-get"@,
        }
    }

    /// The name of the reader on the command line.
    pub fn name(&self) -> (name: &'static str)
        ensures
            name@ == self.named(),
    {
        match self {
            Reader::Sequential => "seq",
            Reader::Concurrent => "concurrent",
            Reader::MultiGet => "multi-get",
        }
    }
}

/// How the benchmark reads keys.
#[derive(Clone, Copy, Debug, PartialEq, Eq, Structural)]
pub enum ReadMode {
    /// One `get` call per read, as the benchmark always did.
    Get,
    /// A batch of keys per read, through one of the readers.
    Mget {
        reader: Reader,
        batch_size: usize,
        options: MultiGetOptions,
    },
}

/// What one read call asks of the database.
#[derive(Clone, Copy, Debug, PartialEq, Eq, Structural)]
pub enum ReadPlan {
    /// One `get` for each of the first `keys` keys, with up to `at_once` in
    /// flight. The values come in the order of the keys.
    Gets {
        keys: usize,
        at_once: usize,
    },
    /// One `multi_get` for all keys.
    MultiGet {
        options: MultiGetOptions,
    },
}

impl ReadPlan {
    /// What the plan returns for `keys`, when `get` gives the value of one
    /// key and `multi_get` those of a batch. The values come in the order of
    /// the keys, however many gets are in flight.
    pub open spec fn values<V>(
        self,
        keys: Seq<Seq<u8>>,
        get: spec_fn(Seq<u8>) -> V,
        multi_get: spec_fn(Seq<Seq<u8>>) -> Seq<V>,
    ) -> Seq<V> {
        match self {
            ReadPlan::Gets { keys: n, .. } => keys.take(n as int).map_values(get),
            ReadPlan::MultiGet { .. } => multi_get(keys),
        }
    }

    /// How many `get` calls the plan makes.
    pub open spec fn gets(self) -> nat {
        match self {
            ReadPlan::Gets { keys, .. } => keys as nat,
            ReadPlan::MultiGet { .. } => 0,
        }
    }

    /// How many `multi_get` calls the plan makes.
    pub open spec fn multi_gets(self) -> nat {
        match self {
            ReadPlan::Gets { .. } => 0,
            ReadPlan::MultiGet { .. } => 1,
        }
    }

    /// The most `get` calls that the plan has in flight.
    pub open spec fn in_flight(self) -> nat {
        match self {
            ReadPlan::Gets { at_once, .. } => at_once as nat,
            ReadPlan::MultiGet { .. } => 0,
        }
    }
}

impl ReadMode {
    /// How many keys one read call takes.
    pub open spec fn keys_per_call(self) -> usize {
        match self {
            ReadMode::Get => 1,
            ReadMode::Mget { batch_size, .. } => batch_size,
        }
    }

    /// How many keys one read call takes.
    pub fn batch_size(&self) -> (size: usize)
        ensures
            size == self.keys_per_call(),
    {
        match self {
            ReadMode::Get => 1,
            ReadMode::Mget { batch_size, .. } => *batch_size,
        }
    }

    /// What a read of `keys` asks of the database.
    pub open spec fn plan_of(self, keys: usize) -> ReadPlan {
        match self {
            ReadMode::Get => ReadPlan::Gets { keys: 1, at_once: 1 },
            ReadMode::Mget { reader, options, .. } => match reader {
                Reader::Sequential => ReadPlan::Gets { keys, at_once: 1 },
                Reader::Concurrent => ReadPlan::Gets { keys, at_once: options.max_fetch_tasks },
                Reader::MultiGet => ReadPlan::MultiGet { options },
            },
        }
    }

    /// What a read of the keys of one call asks of the database. The mode
    /// with one `get` per read needs a key.
    pub fn read(&self, keys: &Vec<Bytes>) -> (plan: ReadPlan)
        requires
            *self is Get ==> keys@.len() > 0,
        ensures
            plan == self.plan_of(keys@.len() as usize),
            plan matches ReadPlan::Gets { keys: n, .. } ==> n <= keys@.len(),
    {
        let n: usize = keys.len();
        match self {
            ReadMode::Get => ReadPlan::Gets { keys: 1, at_once: 1 },
            ReadMode::Mget { reader, options, .. } => match reader {
                Reader::Sequential => ReadPlan::Gets { keys: n, at_once: 1 },
                Reader::Concurrent => ReadPlan::Gets { keys: n, at_once: options.max_fetch_tasks },
                Reader::MultiGet => ReadPlan::MultiGet { options: *options },
            },
        }
    }
}

/// The readers differ in their calls only. When a `multi_get` gives each key
/// what a `get` gives it, each reader of the `mget` mode returns what a `get`
/// of each key returns, in the order of the keys. The mode with one `get` per
/// read returns the value of its first key.
pub proof fn law_readers_return_the_same_values<V>(
    keys: Seq<Seq<u8>>,
    reader: Reader,
    batch_size: usize,
    options: MultiGetOptions,
    get: spec_fn(Seq<u8>) -> V,
    multi_get: spec_fn(Seq<Seq<u8>>) -> Seq<V>,
)
    requires
        0 < keys.len() <= usize::MAX,
        options.max_fetch_tasks >= 1,
        multi_get(keys) == keys.map_values(get),
    ensures
        ({
            let plan = ReadMode::Mget { reader, batch_size, options }.plan_of(keys.len() as usize);
            &&& plan.values(keys, get, multi_get) == keys.map_values(get)
            &&& plan.values(keys, get, multi_get).len() == keys.len()
            &&& match reader {
                Reader::Sequential => plan.gets() == keys.len() && plan.multi_gets() == 0
                    && plan.in_flight() == 1,
                Reader::Concurrent => plan.gets() == keys.len() && plan.multi_gets() == 0
                    && plan.in_flight() == options.max_fetch_tasks,
                Reader::MultiGet => plan.gets() == 0 && plan.multi_gets() == 1,
            }
        }),
        ReadMode::Get.plan_of(keys.len() as usize).values(keys, get, multi_get) == seq![
            get(keys[0]),
        ],
{
    assert(keys.take(keys.len() as int) =~= keys);
    assert(keys.take(1).map_values(get) =~= seq![get(keys[0])]);
}

/// Over one state of the store, a complete run of the batched reads gives each reader
/// of the `mget` mode the values of a loop of point reads.
pub proof fn law_readers_agree_over_one_state<F: Filter, M: MergeOperator>(
    keys: Seq<Seq<u8>>,
    reader: Reader,
    batch_size: usize,
    options: MultiGetOptions,
    batch: BatchKeys,
    tables: Seq<KvTable>,
    core: ManifestCore,
    store: spec_fn(TargetView, Seq<u8>) -> Seq<EntryView>,
    reads: PipelineState<F>,
    events: Seq<Event<F>>,
    operator: Option<M>,
)
    requires
        0 < keys.len() <= usize::MAX,
        options.max_fetch_tasks >= 1,
        batch.stands_for(keys),
        runs_over(
            contents(batch.keys@),
            None,
            tables,
            core,
            store,
            reads,
            events,
        ),
        reads.started(reads.keys.len() as int).complete(events),
    ensures
        ({
            let get = |key: Seq<u8>|
                point_read(operator, key, None, tables, core, store, reads.max_seq);
            let after = reads.started(reads.keys.len() as int).after_all(events).keys;
            let plan = ReadMode::Mget { reader, batch_size, options }.plan_of(keys.len() as usize);
            plan.values(keys, get, |all: Seq<Seq<u8>>| batch_results(operator, batch, after))
                == keys.map_values(get)
        }),
{
    let get = |key: Seq<u8>| point_read(operator, key, None, tables, core, store, reads.max_seq);
    let after = reads.started(reads.keys.len() as int).after_all(events).keys;
    law_each_position_gets_its_point_read(
        batch,
        keys,
        None,
        tables,
        core,
        store,
        reads,
        events,
        operator,
    );
    law_readers_return_the_same_values(
        keys,
        reader,
        batch_size,
        options,
        get,
        |all: Seq<Seq<u8>>| batch_results(operator, batch, after),
    );
}

/// One read call takes one key, or the batch of the `mget` mode, and reads each
/// of its keys. A `multi_get` gets the options of the mode as they are.
pub proof fn law_a_read_call_reads_each_of_its_keys<V>(
    mode: ReadMode,
    keys: Seq<Seq<u8>>,
    get: spec_fn(Seq<u8>) -> V,
    multi_get: spec_fn(Seq<Seq<u8>>) -> Seq<V>,
)
    requires
        keys.len() == mode.keys_per_call(),
    ensures
        mode is Get ==> mode.keys_per_call() == 1,
        mode matches ReadMode::Mget { batch_size, .. } ==> mode.keys_per_call() == batch_size,
        ({
            let plan = mode.plan_of(keys.len() as usize);
            &&& plan matches ReadPlan::Gets { .. } ==> plan.values(keys, get, multi_get)
                == keys.map_values(get)
            &&& plan is MultiGet <==> (mode matches ReadMode::Mget { reader, .. } && reader
                == Reader::MultiGet)
            &&& plan matches ReadPlan::MultiGet { options: used } ==> (
            mode matches ReadMode::Mget { options, .. } && options == used)
        }),
{
    assert(keys.take(keys.len() as int) =~= keys);
}

/// No two readers share a name.
pub proof fn law_names_tell_the_readers_apart(a: Reader, b: Reader)
    ensures
        a.named() == b.named() ==> a == b,
{
    reveal_strlit("seq");
    reveal_strlit("concurrent");
    reveal_strlit("multi-get");
    assert("seq"@.len() == 3);
    assert("concurrent"@.len() == 10);
    assert("multi-get"@.len() == 9);
}

} // verus!
