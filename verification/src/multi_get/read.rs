//! A batched point read from end to end.
//!
//! The batch reads the write batch and the memtables, lists the candidate
//! SSTs ([`open_batch`]), runs its read phase
//! ([`super::pipeline::Pipeline`]), and resolves each key ([`finish`]).
//! Duplicates resolve one time, and the results go back to every input
//! position.

use vstd::prelude::*;

use super::batch::{law_the_keys_rest_on_the_set_of_inputs, BatchKeys};
use super::candidates::{
    candidate_ssts,
    fresh,
    grouped,
    key_targets,
    law_candidates_are_the_ssts_of_a_point_read,
    listed_candidates,
    listed_ssts,
    names_of,
    states,
    targets,
    BatchSst,
    FiltersView,
    SstState,
    TargetView,
};
use super::events::{law_each_key_comes_to_its_walk, of_key, Event};
use super::key::{ssts_of, Candidate, KeyRead, KeyState};
use super::outcome::{faithful, held, honest, slot_ssts};
use super::pipeline::{unread, untouched, Pipeline, PipelineState};
use super::progress::law_a_complete_run_ends_with_no_open_key;
use super::requests::Scene;
use super::walk::{
    has_base,
    law_a_bound_hides_each_later_version,
    law_walk_over_two_layers,
    lemma_has_base_unfold,
    taken,
};
use crate::filter::{
    each_filter_rejects_only,
    law_a_key_passes_when_each_filter_passes_it,
    Filter,
    NamedFilter,
};
use crate::manifest::ManifestCore;
use crate::memtable::{kv_table_get_versions, KvTable};
use crate::merge::{
    entry_of,
    law_an_operand_merges_into_what_is_below,
    law_the_newest_version_decides,
    resolve_entry,
    resolved,
    MergeOperator,
    ResolveError,
};
use crate::octets::{contents, share};
use crate::scan::lemma_filter_none;
use crate::types::{rows, EntryView, RowEntry, ValueView};

verus! {

// ---------------------------------------------------------------------------
// The layers in memory
// ---------------------------------------------------------------------------

/// A key that nothing is known about.
pub open spec fn new_key(key: Seq<u8>) -> KeyState {
    KeyState {
        key,
        wb: Seq::empty(),
        acc: Seq::empty(),
        done: false,
        candidates: Seq::empty(),
        rounds: 0,
        waiting: 0,
        inflight: Seq::empty(),
    }
}

/// The versions that the write batch holds of a key.
pub open spec fn written_versions(write_batch: Option<KvTable>, key: Seq<u8>) -> Seq<EntryView> {
    match write_batch {
        Some(table) => table.versions(key),
        None => Seq::empty(),
    }
}

/// The key with the versions of the write batch. They are not filtered by
/// `max_seq`.
pub open spec fn with_writes(key: KeyState, versions: Seq<EntryView>) -> KeyState {
    KeyState {
        wb: key.wb + versions,
        done: key.done || has_base(versions, None),
        ..key
    }
}

/// The key after one more table in memory. A key that is done reads no more.
pub open spec fn with_layer(
    key: KeyState,
    versions: Seq<EntryView>,
    max_seq: Option<u64>,
) -> KeyState {
    if key.done {
        key
    } else {
        key.append(versions, max_seq)
    }
}

/// The key after some tables in memory, newest first.
pub open spec fn with_layers(
    key: KeyState,
    tables: Seq<KvTable>,
    max_seq: Option<u64>,
) -> KeyState
    decreases tables.len(),
{
    if tables.len() == 0 {
        key
    } else {
        with_layer(
            with_layers(key, tables.drop_last(), max_seq),
            tables.last().versions(key.key),
            max_seq,
        )
    }
}

/// The versions of a key in some tables, newest first.
pub open spec fn memory_versions(tables: Seq<KvTable>, key: Seq<u8>) -> Seq<EntryView>
    decreases tables.len(),
{
    if tables.len() == 0 {
        Seq::empty()
    } else {
        memory_versions(tables.drop_last(), key) + tables.last().versions(key)
    }
}

/// Each table is in order.
pub open spec fn tables_in_order(tables: Seq<KvTable>) -> bool {
    forall|t: int| 0 <= t < tables.len() ==> (#[trigger] tables[t]).wf()
}

/// The layers in memory come to one walk over all their versions.
pub proof fn law_layers_come_to_one_walk(
    key: KeyState,
    tables: Seq<KvTable>,
    max_seq: Option<u64>,
)
    ensures
        with_layers(key, tables, max_seq) == with_layer(
            key,
            memory_versions(tables, key.key),
            max_seq,
        ),
    decreases tables.len(),
{
    if tables.len() == 0 {
        assert(key.acc + taken(Seq::<EntryView>::empty(), max_seq) =~= key.acc);
        assert(with_layer(key, Seq::empty(), max_seq) =~= key);
    } else {
        let front = tables.drop_last();
        let newer = memory_versions(front, key.key);
        let older = tables.last().versions(key.key);
        law_layers_come_to_one_walk(key, front, max_seq);
        law_walk_over_two_layers(newer, older, max_seq);
        if !key.done {
            assert(key.acc + taken(newer, max_seq) + taken(older, max_seq) =~= key.acc + (taken(
                newer,
                max_seq,
            ) + taken(older, max_seq)));
            assert(with_layers(key, tables, max_seq) =~= with_layer(
                key,
                newer + older,
                max_seq,
            ));
        }
    }
}

/// Read the write batch for each key. Each key is a point lookup, so the cost
/// grows with the keys and not with the batch.
pub fn read_write_batch(table: &KvTable, keys: &mut Vec<KeyRead>)
    requires
        table.wf(),
    ensures
        states(final(keys)@) == Seq::new(
            old(keys)@.len(),
            |u: int| with_writes(old(keys)@[u]@, table.versions(old(keys)@[u]@.key)),
        ),
{
    let ghost start = states(keys@);
    let n: usize = keys.len();
    for u in 0..n
        invariant
            table.wf(),
            n == start.len(),
            start == states(old(keys)@),
            keys@.len() == n,
            forall|v: int|
                0 <= v < u ==> (#[trigger] keys@[v])@ == with_writes(
                    start[v],
                    table.versions(start[v].key),
                ),
            forall|v: int| u <= v < n ==> (#[trigger] keys@[v])@ == start[v],
    {
        let versions = kv_table_get_versions(table, &keys[u].key);
        let ghost all = rows(versions@);
        let ghost first = keys@[u as int]@;
        let ghost others = keys@;
        assert(all.take(0) =~= Seq::<EntryView>::empty());
        assert(first.wb + all.take(0) =~= first.wb);
        assert(!has_base(all.take(0), None));
        for entry in it: versions
            invariant
                it.seq() == versions@,
                all == rows(versions@),
                u < keys@.len(),
                keys@.len() == others.len(),
                forall|v: int| 0 <= v < others.len() && v != u ==> #[trigger] keys@[v] == others[v],
                keys@[u as int]@ == with_writes(first, all.take(it.index() as int)),
        {
            let ghost k = it.index() as int;
            let ghost before = keys@[u as int]@;
            let ghost name = entry@;
            proof {
                assert(all.take(k + 1) =~= all.take(k) + seq![name]);
                law_walk_over_two_layers(all.take(k), seq![name], None);
                lemma_has_base_unfold(seq![name], None);
                assert(!has_base(seq![name].skip(1), None));
            }
            keys[u].push_write(entry);
            assert(keys@[u as int]@ =~= with_writes(first, all.take(k + 1)));
        }
        assert(all.take(all.len() as int) =~= all);
    }
    assert(states(keys@) =~= Seq::new(
        start.len(),
        |u: int| with_writes(start[u], table.versions(start[u].key)),
    ));
}

/// Probe a table in memory for every open key, appending its versions.
pub fn read_memtable_layer(table: &KvTable, keys: &mut Vec<KeyRead>, max_seq: Option<u64>)
    requires
        table.wf(),
    ensures
        states(final(keys)@) == Seq::new(
            old(keys)@.len(),
            |u: int| with_layer(old(keys)@[u]@, table.versions(old(keys)@[u]@.key), max_seq),
        ),
{
    let ghost start = states(keys@);
    let n: usize = keys.len();
    for u in 0..n
        invariant
            table.wf(),
            n == start.len(),
            start == states(old(keys)@),
            keys@.len() == n,
            forall|v: int|
                0 <= v < u ==> (#[trigger] keys@[v])@ == with_layer(
                    start[v],
                    table.versions(start[v].key),
                    max_seq,
                ),
            forall|v: int| u <= v < n ==> (#[trigger] keys@[v])@ == start[v],
    {
        if !keys[u].done {
            let entries = kv_table_get_versions(table, &keys[u].key);
            keys[u].append(entries, max_seq);
        }
    }
    assert(states(keys@) =~= Seq::new(
        start.len(),
        |u: int| with_layer(start[u], table.versions(start[u].key), max_seq),
    ));
}

// ---------------------------------------------------------------------------
// The start of a batch
// ---------------------------------------------------------------------------

/// A batch that knows its keys, what the memory holds of them, and which SSTs
/// can hold the others.
pub struct OpenBatch<F> {
    pub batch: BatchKeys,
    pub keys: Vec<KeyRead>,
    pub ssts: Vec<BatchSst<F>>,
}

/// What the memory holds of a key: the write batch, then the tables, newest
/// first.
pub open spec fn key_in_memory(
    key: Seq<u8>,
    write_batch: Option<KvTable>,
    tables: Seq<KvTable>,
    max_seq: Option<u64>,
) -> KeyState {
    with_layers(
        with_writes(new_key(key), written_versions(write_batch, key)),
        tables,
        max_seq,
    )
}

/// What the memory holds of some keys.
pub open spec fn keys_in_memory(
    names: Seq<Seq<u8>>,
    write_batch: Option<KvTable>,
    tables: Seq<KvTable>,
    max_seq: Option<u64>,
) -> Seq<KeyState> {
    names.map_values(|key: Seq<u8>| key_in_memory(key, write_batch, tables, max_seq))
}

/// Some keys with their candidate SSTs.
pub open spec fn with_candidates(core: ManifestCore, keys: Seq<KeyState>) -> Seq<KeyState> {
    Seq::new(
        keys.len(),
        |u: int|
            KeyState {
                candidates: keys[u].candidates + listed_candidates(
                    core,
                    names_of(keys),
                    grouped(core, keys),
                    u,
                ),
                ..keys[u]
            },
    )
}

/// Start a batch: sort the keys, read the write batch and the tables in
/// memory, newest first, and list the SSTs that can hold each open key. The
/// walk over the SSTs reads only the manifest.
pub fn open_batch<F: Filter>(
    input: &[&[u8]],
    write_batch: &Option<KvTable>,
    tables: &Vec<KvTable>,
    core: &ManifestCore,
    max_seq: Option<u64>,
) -> (open: OpenBatch<F>)
    requires
        write_batch matches Some(table) ==> table.wf(),
        tables_in_order(tables@),
        core.wf(),
    ensures
        open.batch.stands_for(input@.map_values(|key: &[u8]| key@)),
        ({
            let memory = keys_in_memory(
                contents(open.batch.keys@),
                *write_batch,
                tables@,
                max_seq,
            );
            &&& states(open.keys@) == with_candidates(*core, memory)
            &&& targets(open.ssts@) == listed_ssts(
                *core,
                contents(open.batch.keys@),
                grouped(*core, memory),
            )
        }),
        fresh(open.ssts@),
        open.keys@.len() == open.batch.keys@.len(),
        forall|u: int|
            0 <= u < open.keys@.len() ==> unread((#[trigger] open.keys@[u])@, open.ssts@.len()),
        forall|s: int| 0 <= s < open.ssts@.len() ==> untouched((#[trigger] open.ssts@[s])@),
{
    let batch = BatchKeys::new(input);
    let ghost names = contents(batch.keys@);
    let mut keys: Vec<KeyRead> = Vec::new();
    for u in 0..batch.keys.len()
        invariant
            names == contents(batch.keys@),
            keys@.len() == u,
            forall|v: int| 0 <= v < u ==> (#[trigger] keys@[v])@ == new_key(names[v]),
    {
        keys.push(KeyRead::new(share(&batch.keys[u])));
    }
    let n: usize = keys.len();
    if let Some(table) = write_batch {
        read_write_batch(table, &mut keys);
    }
    proof {
        assert forall|u: int| 0 <= u < n implies #[trigger] states(keys@)[u] == with_layers(
            with_writes(new_key(names[u]), written_versions(*write_batch, names[u])),
            tables@.take(0),
            max_seq,
        ) by {
            let key = new_key(names[u]);
            assert(key.wb + Seq::<EntryView>::empty() =~= key.wb);
            assert(with_writes(key, Seq::empty()) =~= key);
        }
    }
    for t in 0..tables.len()
        invariant
            tables_in_order(tables@),
            n == names.len(),
            states(keys@).len() == n,
            forall|u: int|
                0 <= u < n ==> #[trigger] states(keys@)[u] == with_layers(
                    with_writes(new_key(names[u]), written_versions(*write_batch, names[u])),
                    tables@.take(t as int),
                    max_seq,
                ),
    {
        let ghost before = states(keys@);
        let ghost now = tables@.take(t + 1);
        read_memtable_layer(&tables[t], &mut keys, max_seq);
        proof {
            assert(now.drop_last() =~= tables@.take(t as int));
            assert(now.last() == tables@[t as int]);
            assert forall|u: int| 0 <= u < n implies #[trigger] states(keys@)[u] == with_layers(
                with_writes(new_key(names[u]), written_versions(*write_batch, names[u])),
                now,
                max_seq,
            ) by {
                let written = with_writes(
                    new_key(names[u]),
                    written_versions(*write_batch, names[u]),
                );
                lemma_layers_keep_the_key(written, tables@.take(t as int), max_seq);
                assert(before[u] == with_layers(written, tables@.take(t as int), max_seq));
            }
        }
    }
    let ghost memory = keys_in_memory(names, *write_batch, tables@, max_seq);
    proof {
        assert(tables@.take(tables@.len() as int) =~= tables@);
        assert(states(keys@) =~= memory);
        assert forall|u: int| 0 <= u < n implies (#[trigger] memory[u]).key == names[u]
            && memory[u].candidates.len() == 0 && memory[u].rounds == 0 && memory[u].waiting == 0
            && memory[u].inflight.len() == 0 by {
            lemma_layers_keep_the_key(
                with_writes(new_key(names[u]), written_versions(*write_batch, names[u])),
                tables@,
                max_seq,
            );
        }
        assert(names_of(memory) =~= names);
    }
    let ssts: Vec<BatchSst<F>> = candidate_ssts(core, &mut keys);
    let count: usize = ssts.len();
    proof {
        assert(states(keys@) =~= with_candidates(*core, memory));
        assert(targets(ssts@).len() == ssts@.len());
        assert forall|u: int| 0 <= u < keys@.len() implies unread(
            (#[trigger] keys@[u])@,
            ssts@.len(),
        ) by {
            law_candidates_are_the_ssts_of_a_point_read(*core, memory, u);
            let found = listed_candidates(*core, names, grouped(*core, memory), u);
            assert(states(keys@)[u] == keys@[u]@);
            assert(memory[u].candidates + found =~= found);
        }
        assert forall|s: int| 0 <= s < ssts@.len() implies untouched((#[trigger] ssts@[s])@) by {}
    }
    OpenBatch { batch, keys, ssts }
}

/// The layers in memory change nothing of a key but its versions.
proof fn lemma_layers_keep_the_key(key: KeyState, tables: Seq<KvTable>, max_seq: Option<u64>)
    ensures
        ({
            let after = with_layers(key, tables, max_seq);
            &&& after.key == key.key
            &&& after.wb == key.wb
            &&& after.candidates == key.candidates
            &&& after.rounds == key.rounds
            &&& after.waiting == key.waiting
            &&& after.inflight == key.inflight
        }),
    decreases tables.len(),
{
    if tables.len() > 0 {
        lemma_layers_keep_the_key(key, tables.drop_last(), max_seq);
    }
}

// ---------------------------------------------------------------------------
// The end of a batch
// ---------------------------------------------------------------------------

/// What the versions of a key come to.
pub open spec fn key_result<M: MergeOperator>(operator: Option<M>, key: KeyState) -> Result<
    Option<EntryView>,
    ResolveError<M::Error>,
> {
    resolved(operator, key.key, key.wb + key.acc)
}

/// Key `u` is the first one whose versions have no value.
pub open spec fn first_failure<M: MergeOperator>(
    operator: Option<M>,
    keys: Seq<KeyState>,
    u: int,
) -> bool {
    &&& 0 <= u < keys.len()
    &&& key_result(operator, keys[u]) is Err
    &&& forall|v: int| 0 <= v < u ==> key_result(operator, #[trigger] keys[v]) is Ok
}

/// Resolve each key. The first key that fails fails the batch.
pub fn resolve_all<M: MergeOperator>(keys: Vec<KeyRead>, operator: &Option<M>) -> (values: Result<
    Vec<Option<RowEntry>>,
    ResolveError<M::Error>,
>)
    ensures
        match values {
            Ok(values) => {
                &&& values@.len() == keys@.len()
                &&& forall|u: int|
                    0 <= u < keys@.len() ==> key_result(*operator, states(keys@)[u]) == Ok::<
                        Option<EntryView>,
                        ResolveError<M::Error>,
                    >(entry_of(#[trigger] values@[u]))
            },
            Err(error) => exists|u: int| #[trigger]
                first_failure(*operator, states(keys@), u) && key_result(
                    *operator,
                    states(keys@)[u],
                ) == Err::<Option<EntryView>, ResolveError<M::Error>>(error),
        },
{
    let ghost all = states(keys@);
    let mut values: Vec<Option<RowEntry>> = Vec::new();
    for key in it: keys
        invariant
            it.seq() == keys@,
            all == states(keys@),
            values@.len() == it.index(),
            forall|u: int|
                0 <= u < it.index() ==> key_result(*operator, all[u]) == Ok::<
                    Option<EntryView>,
                    ResolveError<M::Error>,
                >(entry_of(#[trigger] values@[u])),
    {
        let ghost u = it.index() as int;
        let ghost seen = key@;
        assert(all[u] == seen);
        let KeyRead { key: name, wb, acc, .. } = key;
        match resolve_entry(operator, &name, wb, acc) {
            Ok(entry) => {
                values.push(entry);
            },
            Err(error) => {
                proof {
                    assert forall|v: int| 0 <= v < u implies key_result(
                        *operator,
                        #[trigger] all[v],
                    ) is Ok by {
                        assert(entry_of(values@[v]) == entry_of(values@[v]));
                    }
                    assert(first_failure(*operator, all, u));
                }
                return Err(error);
            },
        }
    }
    Ok(values)
}

/// Scatter the values of the unique keys to the input positions. A value
/// moves to the last of its positions, and the others get a copy.
pub fn scatter(values: Vec<Option<RowEntry>>, slots: &Vec<usize>) -> (results: Vec<
    Option<RowEntry>,
>)
    requires
        forall|i: int| 0 <= i < slots@.len() ==> (#[trigger] slots@[i]) < values@.len(),
    ensures
        results@.len() == slots@.len(),
        forall|i: int|
            0 <= i < slots@.len() ==> entry_of(#[trigger] results@[i]) == entry_of(
                values@[slots@[i] as int],
            ),
{
    let ghost start = values@;
    let mut values = values;
    let n: usize = slots.len();
    // The last position of each value.
    let mut last: Vec<usize> = Vec::new();
    for u in 0..values.len()
        invariant
            last@.len() == u,
    {
        last.push(0);
    }
    for i in 0..n
        invariant
            n == slots@.len(),
            last@.len() == start.len(),
            forall|i: int| 0 <= i < slots@.len() ==> (#[trigger] slots@[i]) < start.len(),
            forall|j: int| 0 <= j < i ==> j <= last@[(#[trigger] slots@[j]) as int],
    {
        last.set(slots[i], i);
    }
    let mut results: Vec<Option<RowEntry>> = Vec::new();
    for i in 0..n
        invariant
            n == slots@.len(),
            last@.len() == start.len(),
            values@.len() == start.len(),
            forall|i: int| 0 <= i < slots@.len() ==> (#[trigger] slots@[i]) < start.len(),
            forall|j: int| 0 <= j < n ==> j <= last@[(#[trigger] slots@[j]) as int],
            forall|u: int|
                0 <= u < start.len() && i <= last@[u] ==> #[trigger] values@[u] == start[u],
            results@.len() == i,
            forall|j: int|
                0 <= j < i ==> entry_of(#[trigger] results@[j]) == entry_of(
                    start[slots@[j] as int],
                ),
    {
        let u: usize = slots[i];
        assert(i <= last@[u as int]);
        assert(values@[u as int] == start[u as int]);
        let ghost before = values@;
        if last[u] == i {
            let mut value: Option<RowEntry> = None;
            std::mem::swap(&mut value, &mut values[u]);
            results.push(value);
        } else {
            let value = match &values[u] {
                Some(entry) => Some(entry.clone()),
                None => None,
            };
            results.push(value);
        }
        proof {
            assert forall|v: int| 0 <= v < start.len() && i + 1 <= last@[v] implies
                #[trigger] values@[v] == start[v] by {
                assert(before[v] == start[v]);
            }
        }
    }
    results
}

/// Resolve each unique key, then scatter to the input positions.
pub fn finish<M: MergeOperator>(
    batch: &BatchKeys,
    keys: Vec<KeyRead>,
    operator: &Option<M>,
) -> (results: Result<Vec<Option<RowEntry>>, ResolveError<M::Error>>)
    requires
        keys@.len() == batch.keys@.len(),
        forall|i: int| 0 <= i < batch.slots@.len() ==> (#[trigger] batch.slots@[i]) < keys@.len(),
    ensures
        match results {
            Ok(results) => {
                &&& results@.len() == batch.slots@.len()
                &&& forall|i: int|
                    0 <= i < results@.len() ==> key_result(
                        *operator,
                        states(keys@)[batch.slots@[i] as int],
                    ) == Ok::<Option<EntryView>, ResolveError<M::Error>>(
                        entry_of(#[trigger] results@[i]),
                    )
            },
            Err(error) => exists|u: int| #[trigger]
                first_failure(*operator, states(keys@), u) && key_result(
                    *operator,
                    states(keys@)[u],
                ) == Err::<Option<EntryView>, ResolveError<M::Error>>(error),
        },
{
    let ghost all = states(keys@);
    let values = match resolve_all(keys, operator) {
        Ok(values) => values,
        Err(error) => {
            return Err(error);
        },
    };
    let results = scatter(values, &batch.slots);
    proof {
        assert forall|i: int| 0 <= i < results@.len() implies key_result(
            *operator,
            all[batch.slots@[i] as int],
        ) == Ok::<Option<EntryView>, ResolveError<M::Error>>(entry_of(#[trigger] results@[i])) by {
            assert(batch.slots@[i] < all.len());
            assert(entry_of(values@[batch.slots@[i] as int]) == entry_of(results@[i]));
        }
    }
    Ok(results)
}

// ---------------------------------------------------------------------------
// A batch reads like a loop of point reads
// ---------------------------------------------------------------------------

/// The versions of a key in some SSTs, one SST after the other. `store` gives
/// the versions that each SST holds of each key, newest first.
pub open spec fn stored_versions(
    ssts: Seq<TargetView>,
    key: Seq<u8>,
    store: spec_fn(TargetView, Seq<u8>) -> Seq<EntryView>,
) -> Seq<EntryView>
    decreases ssts.len(),
{
    if ssts.len() == 0 {
        Seq::empty()
    } else {
        stored_versions(ssts.drop_last(), key, store) + store(ssts.last(), key)
    }
}

/// The versions that a point read takes: the write batch, and, when it has no
/// base value, a walk over the tables in memory and then over the SSTs that
/// can hold the key.
pub open spec fn point_versions(
    key: Seq<u8>,
    write_batch: Option<KvTable>,
    tables: Seq<KvTable>,
    core: ManifestCore,
    store: spec_fn(TargetView, Seq<u8>) -> Seq<EntryView>,
    max_seq: Option<u64>,
) -> Seq<EntryView> {
    let written = written_versions(write_batch, key);
    written + if has_base(written, None) {
        Seq::empty()
    } else {
        taken(
            memory_versions(tables, key) + stored_versions(key_targets(core, key), key, store),
            max_seq,
        )
    }
}

/// What a point read of one key returns.
pub open spec fn point_read<M: MergeOperator>(
    operator: Option<M>,
    key: Seq<u8>,
    write_batch: Option<KvTable>,
    tables: Seq<KvTable>,
    core: ManifestCore,
    store: spec_fn(TargetView, Seq<u8>) -> Seq<EntryView>,
    max_seq: Option<u64>,
) -> Result<Option<EntryView>, ResolveError<M::Error>> {
    resolved(
        operator,
        key,
        point_versions(key, write_batch, tables, core, store, max_seq),
    )
}

/// The versions in a list of numbered SSTs are those in their targets.
proof fn lemma_held_is_stored(
    candidates: Seq<Candidate>,
    ssts: Seq<TargetView>,
    key: Seq<u8>,
    store: spec_fn(TargetView, Seq<u8>) -> Seq<EntryView>,
    versions: spec_fn(usize) -> Seq<EntryView>,
)
    requires
        forall|i: int|
            0 <= i < candidates.len() ==> versions((#[trigger] candidates[i]).sst) == store(
                ssts[candidates[i].sst as int],
                key,
            ),
    ensures
        held(ssts_of(candidates), versions) == stored_versions(
            candidates.map_values(|c: Candidate| ssts[c.sst as int]),
            key,
            store,
        ),
    decreases candidates.len(),
{
    let named = candidates.map_values(|c: Candidate| ssts[c.sst as int]);
    if candidates.len() > 0 {
        let front = candidates.drop_last();
        assert forall|i: int| 0 <= i < front.len() implies versions((#[trigger] front[i]).sst)
            == store(ssts[front[i].sst as int], key) by {
            assert(front[i] == candidates[i]);
        }
        lemma_held_is_stored(front, ssts, key, store, versions);
        assert(ssts_of(front) =~= ssts_of(candidates).drop_last());
        assert(front.map_values(|c: Candidate| ssts[c.sst as int]) =~= named.drop_last());
        let last = candidates[candidates.len() - 1];
        assert(versions(last.sst) == store(ssts[last.sst as int], key));
    }
}

/// The read phase `batch` of the keys `names` starts from one state of the
/// store, with no filter load in flight, and the events of its run tell the
/// truth about the SSTs: each single filter passes the keys that its SST
/// holds, and the reads return what the SSTs hold.
pub open spec fn runs_over<F: Filter>(
    names: Seq<Seq<u8>>,
    write_batch: Option<KvTable>,
    tables: Seq<KvTable>,
    core: ManifestCore,
    store: spec_fn(TargetView, Seq<u8>) -> Seq<EntryView>,
    batch: PipelineState<F>,
    events: Seq<Event<F>>,
) -> bool {
    let memory = keys_in_memory(names, write_batch, tables, batch.max_seq);
    let versions = |v: int, s: usize| store(batch.ssts[s as int].target, names[v]);
    &&& names.len() <= usize::MAX
    &&& batch.wf()
    &&& batch.keys == with_candidates(core, memory)
    &&& batch.ssts.map_values(|sst: SstState<F>| sst.target) == listed_ssts(
        core,
        names,
        grouped(core, memory),
    )
    &&& forall|s: int|
        0 <= s < batch.ssts.len() ==> !((#[trigger] batch.ssts[s]).filters is Loading)
    &&& forall|s: int, v: int|
        0 <= s < batch.ssts.len() && 0 <= v < names.len() ==> ((
        #[trigger] batch.ssts[s]).filters matches FiltersView::Loaded(filters)
            ==> each_filter_rejects_only(
            filters,
            #[trigger] names[v],
            batch.context,
            store(batch.ssts[s].target, names[v]) == Seq::<EntryView>::empty(),
        ))
    &&& batch.started(batch.keys.len() as int).can_all_happen(events, versions)
}

/// A run starts with nothing in flight.
proof fn lemma_run_starts<F: Filter>(
    names: Seq<Seq<u8>>,
    write_batch: Option<KvTable>,
    tables: Seq<KvTable>,
    core: ManifestCore,
    store: spec_fn(TargetView, Seq<u8>) -> Seq<EntryView>,
    batch: PipelineState<F>,
    events: Seq<Event<F>>,
)
    requires
        runs_over(names, write_batch, tables, core, store, batch, events),
    ensures
        batch.keys.len() == names.len(),
        forall|v: int| 0 <= v < batch.keys.len() ==> (#[trigger] batch.keys[v]).idle(),
        batch.truthful(|v: int, s: usize| store(batch.ssts[s as int].target, names[v])),
{
    let versions = |v: int, s: usize| store(batch.ssts[s as int].target, names[v]);
    let memory = keys_in_memory(names, write_batch, tables, batch.max_seq);
    assert forall|v: int| 0 <= v < names.len() implies (#[trigger] memory[v]).waiting == 0
        && memory[v].inflight.len() == 0 && memory[v].key == names[v] by {
        lemma_layers_keep_the_key(
            with_writes(new_key(names[v]), written_versions(write_batch, names[v])),
            tables,
            batch.max_seq,
        );
    }
    assert forall|v: int| 0 <= v < batch.keys.len() implies (#[trigger] batch.keys[v]).idle() by {
        assert(memory[v].waiting == 0);
    }
    assert forall|v: int| 0 <= v < batch.keys.len() implies faithful(
        (#[trigger] batch.keys[v]).inflight,
        of_key(versions, v),
    ) by {
        assert(memory[v].inflight.len() == 0);
    }
    assert forall|v: int| 0 <= v < batch.keys.len() implies honest(
        #[trigger] batch.answers(v),
        of_key(versions, v),
    ) by {
        assert forall|sst: usize| (#[trigger] batch.answers(v)(sst)) == Some(false) implies of_key(
            versions,
            v,
        )(sst) == Seq::<EntryView>::empty() by {
            let s = sst as int;
            let name = batch.keys[v].key;
            assert(memory[v].key == names[v]);
            assert(name == names[v]);
            if let FiltersView::Loaded(filters) = batch.ssts[s].filters {
                law_a_key_passes_when_each_filter_passes_it(filters, name, batch.context);
                let i = choose|i: int|
                    0 <= i < filters.len() && !(#[trigger] filters[i]).filter.passes(
                        name,
                        batch.context,
                    );
                assert(each_filter_rejects_only(
                    filters,
                    names[v],
                    batch.context,
                    store(batch.ssts[s].target, names[v]) == Seq::<EntryView>::empty(),
                ));
                assert(!filters[i].filter.passes(names[v], batch.context));
                assert(store(batch.ssts[s].target, names[v]) == Seq::<EntryView>::empty());
            }
        }
    }
}

/// A batch reads like a loop of point reads over one snapshot. Whatever
/// filters and reads come, in whatever order they come, each key of a complete
/// run is done, and it resolves to what a point read of the key returns: each
/// single filter only has to pass the keys that its SST holds, and the reads
/// have to return what the SSTs hold.
pub proof fn law_multi_get_reads_like_a_loop_of_gets<F: Filter, M: MergeOperator>(
    names: Seq<Seq<u8>>,
    write_batch: Option<KvTable>,
    tables: Seq<KvTable>,
    core: ManifestCore,
    store: spec_fn(TargetView, Seq<u8>) -> Seq<EntryView>,
    batch: PipelineState<F>,
    events: Seq<Event<F>>,
    operator: Option<M>,
    u: int,
)
    requires
        runs_over(names, write_batch, tables, core, store, batch, events),
        batch.started(batch.keys.len() as int).complete(events),
        0 <= u < names.len(),
    ensures
        batch.started(batch.keys.len() as int).after_all(events).keys[u].done,
        key_result(
            operator,
            batch.started(batch.keys.len() as int).after_all(events).keys[u],
        ) == point_read(
            operator,
            names[u],
            write_batch,
            tables,
            core,
            store,
            batch.max_seq,
        ),
{
    lemma_run_starts(names, write_batch, tables, core, store, batch, events);
    law_a_complete_run_ends_with_no_open_key(
        batch,
        events,
        |v: int, s: usize| store(batch.ssts[s as int].target, names[v]),
    );
    assert(batch.started(batch.keys.len() as int).after_all(events).keys[u].done);
    law_a_done_key_reads_like_a_get(
        names,
        write_batch,
        tables,
        core,
        store,
        batch,
        events,
        operator,
        u,
    );
}

/// In the middle of a run, too, a key that is done resolves to what a point
/// read of the key returns.
pub proof fn law_a_done_key_reads_like_a_get<F: Filter, M: MergeOperator>(
    names: Seq<Seq<u8>>,
    write_batch: Option<KvTable>,
    tables: Seq<KvTable>,
    core: ManifestCore,
    store: spec_fn(TargetView, Seq<u8>) -> Seq<EntryView>,
    batch: PipelineState<F>,
    events: Seq<Event<F>>,
    operator: Option<M>,
    u: int,
)
    requires
        runs_over(names, write_batch, tables, core, store, batch, events),
        0 <= u < names.len(),
        batch.started(batch.keys.len() as int).after_all(events).keys[u].done,
    ensures
        key_result(
            operator,
            batch.started(batch.keys.len() as int).after_all(events).keys[u],
        ) == point_read(
            operator,
            names[u],
            write_batch,
            tables,
            core,
            store,
            batch.max_seq,
        ),
{
    let max_seq = batch.max_seq;
    let versions = |v: int, s: usize| store(batch.ssts[s as int].target, names[v]);
    let memory = keys_in_memory(names, write_batch, tables, max_seq);
    let groups = grouped(core, memory);
    let ssts = listed_ssts(core, names, groups);
    let after = batch.started(batch.keys.len() as int).after_all(events);
    assert forall|v: int| 0 <= v < names.len() implies (#[trigger] memory[v]).key == names[v]
        && memory[v].candidates.len() == 0 && memory[v].rounds == 0 && memory[v].waiting == 0
        && memory[v].inflight.len() == 0 && memory[v].wb == written_versions(
        write_batch,
        names[v],
    ) by {
        let written = with_writes(new_key(names[v]), written_versions(write_batch, names[v]));
        lemma_layers_keep_the_key(written, tables, max_seq);
        assert(written.wb =~= written_versions(write_batch, names[v]));
    }
    assert(names_of(memory) =~= names);
    lemma_run_starts(names, write_batch, tables, core, store, batch, events);
    law_each_key_comes_to_its_walk(batch, events, versions);
    assert(after.outcome_of(u, versions) == batch.outcome_of(u, versions));
    // What the key comes to is what the memory and the SSTs hold of it.
    let name = names[u];
    let written = written_versions(write_batch, name);
    let start = with_writes(new_key(name), written);
    let in_memory = memory_versions(tables, name);
    law_layers_come_to_one_walk(start, tables, max_seq);
    let key = batch.keys[u];
    let found = listed_candidates(core, names, groups, u);
    assert(batch.ssts.len() == ssts.len());
    law_candidates_are_the_ssts_of_a_point_read(core, memory, u);
    assert(key.candidates =~= found);
    assert(slot_ssts(key.inflight) =~= Seq::<usize>::empty());
    assert(key.open_ssts() =~= ssts_of(found));
    assert forall|i: int| 0 <= i < found.len() implies of_key(versions, u)(
        (#[trigger] found[i]).sst,
    ) == store(ssts[found[i].sst as int], name) by {
        let s = found[i].sst as int;
        assert(0 <= s < ssts.len());
        assert(batch.ssts.map_values(|sst: SstState<F>| sst.target)[s] == ssts[s]);
    }
    lemma_held_is_stored(found, ssts, name, store, of_key(versions, u));
    let walk = stored_versions(key_targets(core, name), name, store);
    law_walk_over_two_layers(in_memory, walk, max_seq);
    assert(start.wb =~= written);
    assert(Seq::<EntryView>::empty() + taken(in_memory, max_seq) =~= taken(in_memory, max_seq));
    if has_base(written, None) {
        assert(after.keys[u].acc =~= Seq::<EntryView>::empty());
    } else {
        assert(after.keys[u].acc =~= taken(in_memory + walk, max_seq));
    }
}

/// What a batch returns, position by position, when its keys came to `keys`.
pub open spec fn batch_results<M: MergeOperator>(
    operator: Option<M>,
    batch: BatchKeys,
    keys: Seq<KeyState>,
) -> Seq<Result<Option<EntryView>, ResolveError<M::Error>>> {
    batch.slots@.map_values(|u: usize| key_result(operator, keys[u as int]))
}

/// A complete run returns, in input order, what a point read of each input key
/// returns.
pub proof fn law_each_position_gets_its_point_read<F: Filter, M: MergeOperator>(
    batch: BatchKeys,
    input: Seq<Seq<u8>>,
    write_batch: Option<KvTable>,
    tables: Seq<KvTable>,
    core: ManifestCore,
    store: spec_fn(TargetView, Seq<u8>) -> Seq<EntryView>,
    reads: PipelineState<F>,
    events: Seq<Event<F>>,
    operator: Option<M>,
)
    requires
        batch.stands_for(input),
        runs_over(contents(batch.keys@), write_batch, tables, core, store, reads, events),
        reads.started(reads.keys.len() as int).complete(events),
    ensures
        batch_results(
            operator,
            batch,
            reads.started(reads.keys.len() as int).after_all(events).keys,
        ) == input.map_values(
            |key: Seq<u8>|
                point_read(operator, key, write_batch, tables, core, store, reads.max_seq),
        ),
{
    let names = contents(batch.keys@);
    let after = reads.started(reads.keys.len() as int).after_all(events).keys;
    let results = batch_results(operator, batch, after);
    let gets = input.map_values(
        |key: Seq<u8>|
            point_read(operator, key, write_batch, tables, core, store, reads.max_seq),
    );
    assert forall|i: int| 0 <= i < input.len() implies #[trigger] results[i] == gets[i] by {
        assert(batch.slots[i] < batch.keys.len() && names[batch.slots[i] as int] == input[i]);
        let u = batch.slots@[i] as int;
        law_multi_get_reads_like_a_loop_of_gets(
            names,
            write_batch,
            tables,
            core,
            store,
            reads,
            events,
            operator,
            u,
        );
    }
    assert(results =~= gets);
}

/// What the read phase of the keys `names` starts with. `cached` gives the
/// filters that the cache holds.
pub open spec fn opened<F: Filter>(
    names: Seq<Seq<u8>>,
    write_batch: Option<KvTable>,
    tables: Seq<KvTable>,
    core: ManifestCore,
    cached: spec_fn(TargetView) -> Option<Seq<NamedFilter<F>>>,
    context: Option<F::Context>,
    max_seq: Option<u64>,
    lookahead: usize,
) -> PipelineState<F> {
    let memory = keys_in_memory(names, write_batch, tables, max_seq);
    let ssts = listed_ssts(core, names, grouped(core, memory));
    PipelineState {
        keys: with_candidates(core, memory),
        ssts: ssts.map_values(
            |target: TargetView|
                SstState {
                    target,
                    filters: match cached(target) {
                        Some(filters) => FiltersView::Loaded(filters),
                        None => FiltersView::NotLoaded,
                    },
                    index: None,
                    probes: 0,
                    positives: 0,
                },
        ),
        context,
        max_seq,
        lookahead,
        ready: Seq::new(ssts.len(), |s: int| Seq::empty()),
        loads: Seq::empty(),
    }
}

/// The read phase of an open batch, whose SSTs got the filters that the cache
/// holds, starts with [`opened`].
pub proof fn law_a_batch_starts_opened<F: Filter>(
    open: OpenBatch<F>,
    pipeline: Pipeline<F>,
    write_batch: Option<KvTable>,
    tables: Seq<KvTable>,
    core: ManifestCore,
    cached: spec_fn(TargetView) -> Option<Seq<NamedFilter<F>>>,
)
    requires
        states(open.keys@) == with_candidates(
            core,
            keys_in_memory(contents(open.batch.keys@), write_batch, tables, pipeline.max_seq),
        ),
        targets(open.ssts@) == listed_ssts(
            core,
            contents(open.batch.keys@),
            grouped(
                core,
                keys_in_memory(contents(open.batch.keys@), write_batch, tables, pipeline.max_seq),
            ),
        ),
        fresh(open.ssts@),
        pipeline@.keys == states(open.keys@),
        pipeline@.ssts.len() == open.ssts@.len(),
        forall|s: int|
            0 <= s < open.ssts@.len() ==> #[trigger] pipeline@.ssts[s] == (SstState {
                filters: match cached(open.ssts@[s]@.target) {
                    Some(filters) => FiltersView::Loaded(filters),
                    None => open.ssts@[s]@.filters,
                },
                ..open.ssts@[s]@
            }),
        pipeline@.ready == Seq::new(open.ssts@.len(), |s: int| Seq::<usize>::empty()),
        pipeline@.loads == Seq::<usize>::empty(),
    ensures
        pipeline@ == opened(
            contents(open.batch.keys@),
            write_batch,
            tables,
            core,
            cached,
            pipeline.context,
            pipeline.max_seq,
            pipeline.lookahead,
        ),
{
    let start = opened(
        contents(open.batch.keys@),
        write_batch,
        tables,
        core,
        cached,
        pipeline.context,
        pipeline.max_seq,
        pipeline.lookahead,
    );
    assert(targets(open.ssts@).len() == open.ssts@.len());
    assert forall|s: int| 0 <= s < open.ssts@.len() implies pipeline@.ssts[s]
        == #[trigger] start.ssts[s] by {
        assert(targets(open.ssts@)[s] == open.ssts@[s]@.target);
        assert(open.ssts@[s]@.filters is NotLoaded);
    }
    assert(pipeline@.ssts =~= start.ssts);
    assert(pipeline@.ready =~= start.ready);
    assert(pipeline@ =~= start);
}

/// Two batches with the same keys, in another order or with other duplicates,
/// read the same: they start with the same state, the same run sends the same
/// requests and checks the same filters, and a position of one batch gets the
/// result of the position of the other batch with its key.
pub proof fn law_order_and_duplicates_change_no_read<F: Filter, M: MergeOperator>(
    a: BatchKeys,
    b: BatchKeys,
    x: Seq<Seq<u8>>,
    y: Seq<Seq<u8>>,
    write_batch: Option<KvTable>,
    tables: Seq<KvTable>,
    core: ManifestCore,
    cached: spec_fn(TargetView) -> Option<Seq<NamedFilter<F>>>,
    scene: Scene<F>,
    events: Seq<Event<F>>,
    operator: Option<M>,
    keys: Seq<KeyState>,
)
    requires
        a.stands_for(x),
        b.stands_for(y),
        forall|k: Seq<u8>| #[trigger] x.contains(k) <==> y.contains(k),
    ensures
        contents(a.keys@) == contents(b.keys@),
        ({
            let one = opened(
                contents(a.keys@),
                write_batch,
                tables,
                core,
                cached,
                scene.context,
                scene.max_seq,
                scene.lookahead,
            );
            let other = opened(
                contents(b.keys@),
                write_batch,
                tables,
                core,
                cached,
                scene.context,
                scene.max_seq,
                scene.lookahead,
            );
            let n = contents(a.keys@).len() as int;
            &&& one == other
            &&& scene.requests_over(one.started(n), events) == scene.requests_over(
                other.started(n),
                events,
            )
            &&& one.started(n).after_all(events) == other.started(n).after_all(events)
        }),
        forall|i: int, j: int|
            0 <= i < x.len() && 0 <= j < y.len() && x[i] == y[j] ==> (#[trigger] batch_results(
                operator,
                a,
                keys,
            )[i]) == (#[trigger] batch_results(operator, b, keys)[j]),
{
    law_the_keys_rest_on_the_set_of_inputs(a, b, x, y);
    assert forall|i: int, j: int|
        0 <= i < x.len() && 0 <= j < y.len() && x[i] == y[j] implies (#[trigger] batch_results(
        operator,
        a,
        keys,
    )[i]) == (#[trigger] batch_results(operator, b, keys)[j]) by {
        assert(a.slots@[i] == b.slots@[j]);
    }
}

/// One more duplicate of an input key changes nothing but the result: it gets
/// one more position, with the result of that key.
pub proof fn law_one_more_duplicate_gets_its_result<M: MergeOperator>(
    a: BatchKeys,
    b: BatchKeys,
    x: Seq<Seq<u8>>,
    j: int,
    operator: Option<M>,
    keys: Seq<KeyState>,
)
    requires
        0 <= j < x.len(),
        a.stands_for(x),
        b.stands_for(x.push(x[j])),
    ensures
        contents(a.keys@) == contents(b.keys@),
        batch_results(operator, b, keys) == batch_results(operator, a, keys).push(
            batch_results(operator, a, keys)[j],
        ),
{
    let y = x.push(x[j]);
    assert forall|k: Seq<u8>| #[trigger] x.contains(k) <==> y.contains(k) by {
        if x.contains(k) {
            let i = choose|i: int| 0 <= i < x.len() && x[i] == k;
            assert(y[i] == k);
        }
        if y.contains(k) {
            let i = choose|i: int| 0 <= i < y.len() && y[i] == k;
            if i < x.len() {
                assert(x[i] == k);
            } else {
                assert(x[j] == k);
            }
        }
    }
    law_the_keys_rest_on_the_set_of_inputs(a, b, x, y);
    let more = batch_results(operator, b, keys);
    let results = batch_results(operator, a, keys);
    assert forall|i: int| 0 <= i < y.len() implies #[trigger] more[i] == results.push(
        results[j],
    )[i] by {
        if i < x.len() {
            assert(x[i] == y[i]);
            assert(a.slots@[i] == b.slots@[i]);
        } else {
            assert(x[j] == y[i]);
            assert(a.slots@[j] == b.slots@[i]);
        }
    }
    assert(more =~= results.push(results[j]));
}

/// Each input position gets the result of its key, and duplicates of a key
/// get the same result.
pub proof fn law_duplicates_get_the_same_result<M: MergeOperator>(
    batch: BatchKeys,
    input: Seq<Seq<u8>>,
    keys: Seq<KeyState>,
    operator: Option<M>,
    i: int,
    j: int,
)
    requires
        batch.stands_for(input),
        0 <= i < input.len(),
        0 <= j < input.len(),
        input[i] == input[j],
    ensures
        batch.slots@[i] == batch.slots@[j],
        key_result(operator, keys[batch.slots@[i] as int]) == key_result(
            operator,
            keys[batch.slots@[j] as int],
        ),
{
    let a = batch.slots@[i] as int;
    let b = batch.slots@[j] as int;
    let names = contents(batch.keys@);
    assert(batch.slots[i] < batch.keys.len() && names[batch.slots[i] as int] == input[i]);
    assert(batch.slots[j] < batch.keys.len() && names[batch.slots[j] as int] == input[j]);
    if a < b {
        assert(crate::octets::lex_lt(names[a], names[b]));
    }
    if b < a {
        assert(crate::octets::lex_lt(names[b], names[a]));
    }
}

// ---------------------------------------------------------------------------
// What a point read returns
// ---------------------------------------------------------------------------

/// Hidden versions before the first visible one change nothing.
proof fn lemma_skip_hidden(entries: Seq<EntryView>, max_seq: Option<u64>, n: int)
    requires
        0 <= n <= entries.len(),
        forall|j: int|
            0 <= j < n ==> (max_seq matches Some(bound) && (#[trigger] entries[j]).seq > bound),
    ensures
        taken(entries, max_seq) == taken(entries.skip(n), max_seq),
    decreases n,
{
    if n > 0 {
        assert(entries[0].seq > max_seq->0);
        let rest = entries.skip(1);
        assert forall|j: int| 0 <= j < n - 1 implies (max_seq matches Some(bound) && (
        #[trigger] rest[j]).seq > bound) by {
            assert(entries[j + 1] == rest[j]);
        }
        lemma_skip_hidden(rest, max_seq, n - 1);
        assert(rest.skip(n - 1) =~= entries.skip(n));
    } else {
        assert(entries.skip(0) =~= entries);
    }
}

/// A point read returns the newest version that its bound lets it see: a full
/// value comes back as it is, and a deletion as no value. It looks at the
/// tables in memory first, and then at the SSTs, newest first.
pub proof fn law_a_point_read_returns_the_newest_visible_version<M: MergeOperator>(
    operator: Option<M>,
    key: Seq<u8>,
    write_batch: Option<KvTable>,
    tables: Seq<KvTable>,
    core: ManifestCore,
    store: spec_fn(TargetView, Seq<u8>) -> Seq<EntryView>,
    max_seq: Option<u64>,
    i: int,
)
    requires
        write_batch matches Some(table) ==> table.versions(key).len() == 0,
        0 <= i <= memory_versions(tables, key).len() + stored_versions(
            key_targets(core, key),
            key,
            store,
        ).len(),
        ({
            let all = memory_versions(tables, key) + stored_versions(
                key_targets(core, key),
                key,
                store,
            );
            &&& forall|j: int|
                0 <= j < i ==> (max_seq matches Some(bound) && (#[trigger] all[j]).seq > bound)
            &&& i < all.len() ==> (max_seq matches Some(bound) ==> all[i].seq <= bound)
        }),
    ensures
        ({
            let all = memory_versions(tables, key) + stored_versions(
                key_targets(core, key),
                key,
                store,
            );
            let result = point_read(operator, key, write_batch, tables, core, store, max_seq);
            &&& i < all.len() && all[i].value is Value ==> result == Ok::<
                Option<EntryView>,
                ResolveError<M::Error>,
            >(Some(all[i]))
            &&& i < all.len() && all[i].value is Tombstone ==> result == Ok::<
                Option<EntryView>,
                ResolveError<M::Error>,
            >(None)
            &&& i == all.len() ==> result == Ok::<Option<EntryView>, ResolveError<M::Error>>(None)
        }),
{
    let all = memory_versions(tables, key) + stored_versions(key_targets(core, key), key, store);
    let written = written_versions(write_batch, key);
    let rest = all.skip(i);
    lemma_skip_hidden(all, max_seq, i);
    assert(written =~= Seq::<EntryView>::empty());
    assert(!has_base(written, None));
    let found = taken(all, max_seq);
    assert(written + found =~= found);
    if i < all.len() {
        assert(rest[0] == all[i]);
        if !(all[i].value is Merge) {
            assert(found =~= seq![all[i]]);
            assert(seq![all[i]] + Seq::<EntryView>::empty() =~= found);
            law_the_newest_version_decides(operator, key, all[i], Seq::empty());
        }
    } else {
        assert(rest =~= Seq::<EntryView>::empty());
        assert(found =~= Seq::<EntryView>::empty());
    }
}

/// A write of the transaction comes before everything else, whatever the bound
/// of the read is: its newest full value or deletion decides.
pub proof fn law_a_point_read_sees_the_writes_of_its_transaction<M: MergeOperator>(
    operator: Option<M>,
    key: Seq<u8>,
    table: KvTable,
    tables: Seq<KvTable>,
    core: ManifestCore,
    store: spec_fn(TargetView, Seq<u8>) -> Seq<EntryView>,
    max_seq: Option<u64>,
)
    requires
        table.versions(key).len() > 0,
    ensures
        ({
            let newest = table.versions(key)[0];
            let result = point_read(operator, key, Some(table), tables, core, store, max_seq);
            &&& newest.value is Value ==> result == Ok::<
                Option<EntryView>,
                ResolveError<M::Error>,
            >(Some(newest))
            &&& newest.value is Tombstone ==> result == Ok::<
                Option<EntryView>,
                ResolveError<M::Error>,
            >(None)
        }),
{
    let newest = table.versions(key)[0];
    let all = point_versions(key, Some(table), tables, core, store, max_seq);
    assert(all[0] == newest);
    assert(seq![newest] + all.skip(1) =~= all);
    law_the_newest_version_decides(operator, key, newest, all.skip(1));
}

/// A merge operand of the transaction merges into what the read returns
/// without the transaction.
pub proof fn law_an_operand_of_the_transaction_merges_into_the_read<M: MergeOperator>(
    operator: M,
    key: Seq<u8>,
    table: KvTable,
    write: EntryView,
    bytes: Seq<u8>,
    tables: Seq<KvTable>,
    core: ManifestCore,
    store: spec_fn(TargetView, Seq<u8>) -> Seq<EntryView>,
    max_seq: Option<u64>,
)
    requires
        table.versions(key) == seq![write],
        write.value == ValueView::Merge(bytes),
    ensures
        ({
            let without = point_read(Some(operator), key, None, tables, core, store, max_seq);
            let result = point_read(Some(operator), key, Some(table), tables, core, store, max_seq);
            match without {
                Err(error) => result == Err::<Option<EntryView>, ResolveError<M::Error>>(error),
                Ok(older) => match operator.merged(
                    key,
                    match older {
                        Some(entry) => match entry.value {
                            ValueView::Value(value) => Some(value),
                            _ => None,
                        },
                        None => None,
                    },
                    bytes,
                ) {
                    Err(error) => result == Err::<Option<EntryView>, ResolveError<M::Error>>(
                        ResolveError::Merge(error),
                    ),
                    Ok(value) => result == Ok::<Option<EntryView>, ResolveError<M::Error>>(
                        Some(EntryView { key, value: ValueView::Value(value), seq: write.seq }),
                    ),
                },
            }
        }),
{
    let below = point_versions(key, None, tables, core, store, max_seq);
    let all = point_versions(key, Some(table), tables, core, store, max_seq);
    let walk = taken(
        memory_versions(tables, key) + stored_versions(key_targets(core, key), key, store),
        max_seq,
    );
    assert(!has_base(seq![write], None)) by {
        if has_base(seq![write], None) {
            let i = choose|i: int|
                0 <= i < seq![write].len() && #[trigger] seq![write][i].base();
            assert(seq![write][i] == write);
        }
    }
    assert(below =~= walk);
    assert(all =~= seq![write] + walk);
    law_an_operand_merges_into_what_is_below(operator, key, write, bytes, below);
}

/// The tables in memory are read newest first, and the SSTs in the order of
/// the walk: an older one adds its versions of the key behind all others.
pub proof fn law_older_layers_come_behind(
    tables: Seq<KvTable>,
    older: KvTable,
    ssts: Seq<TargetView>,
    older_sst: TargetView,
    key: Seq<u8>,
    store: spec_fn(TargetView, Seq<u8>) -> Seq<EntryView>,
)
    ensures
        memory_versions(tables.push(older), key) == memory_versions(tables, key)
            + older.versions(key),
        stored_versions(ssts.push(older_sst), key, store) == stored_versions(ssts, key, store)
            + store(older_sst, key),
        memory_versions(Seq::empty(), key).len() == 0,
        stored_versions(Seq::empty(), key, store).len() == 0,
{
    assert(tables.push(older).drop_last() =~= tables);
    assert(ssts.push(older_sst).drop_last() =~= ssts);
}

/// A snapshot does not change: versions above its bound, in whatever table and
/// whatever they are, change nothing of what a point read takes.
pub proof fn law_a_snapshot_does_not_change(
    before: Seq<EntryView>,
    later: Seq<EntryView>,
    behind: Seq<EntryView>,
    bound: u64,
)
    requires
        forall|i: int| 0 <= i < later.len() ==> (#[trigger] later[i]).seq > bound,
    ensures
        taken(before + later + behind, Some(bound)) == taken(before + behind, Some(bound)),
        has_base(before + later + behind, Some(bound)) == has_base(before + behind, Some(bound)),
{
    let below = |e: EntryView| e.seq <= bound;
    Seq::filter_distributes_over_add(before + later, behind, below);
    Seq::filter_distributes_over_add(before, later, below);
    Seq::filter_distributes_over_add(before, behind, below);
    lemma_filter_none(later, below);
    assert((before + later + behind).filter(below) =~= (before + behind).filter(below));
    law_a_bound_hides_each_later_version(before + later + behind, bound);
    law_a_bound_hides_each_later_version(before + behind, bound);
}

/// A batch fails with the error of the first key, in key order, whose versions
/// have no value: each key before it has a result. A batch has at most one such
/// key, and it has none exactly when each key has a result.
pub proof fn law_the_first_key_that_fails_decides<M: MergeOperator>(
    operator: Option<M>,
    keys: Seq<KeyState>,
    u: int,
    v: int,
)
    ensures
        first_failure(operator, keys, u) && first_failure(operator, keys, v) ==> u == v,
        first_failure(operator, keys, u) && 0 <= v < keys.len() && resolved(
            operator,
            keys[v].key,
            keys[v].wb + keys[v].acc,
        ) is Err ==> u <= v,
        first_failure(operator, keys, u) ==> 0 <= u < keys.len() && resolved(
            operator,
            keys[u].key,
            keys[u].wb + keys[u].acc,
        ) is Err,
        0 <= v < keys.len() && key_result(operator, keys[v]) is Err ==> exists|w: int|
            w <= v && #[trigger] first_failure(operator, keys, w),
{
    if 0 <= v < keys.len() && key_result(operator, keys[v]) is Err {
        lemma_some_key_fails_first(operator, keys, v);
    }
}

/// A key that fails has a first one at or before it.
proof fn lemma_some_key_fails_first<M: MergeOperator>(
    operator: Option<M>,
    keys: Seq<KeyState>,
    v: int,
)
    requires
        0 <= v < keys.len(),
        key_result(operator, keys[v]) is Err,
    ensures
        exists|w: int| w <= v && #[trigger] first_failure(operator, keys, w),
    decreases v,
{
    if first_failure(operator, keys, v) {
    } else {
        let w = choose|w: int| 0 <= w < v && !(key_result(operator, #[trigger] keys[w]) is Ok);
        lemma_some_key_fails_first(operator, keys, w);
    }
}

} // verus!
