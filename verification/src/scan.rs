//! How the blocks of an SST are scanned for keys.

use core::ops::Range;
use std::collections::BTreeMap;
use std::sync::Arc;
use vstd::prelude::*;

use crate::octets::{
    as_slice,
    content,
    lemma_lex_lt_is_not_ge,
    lemma_lex_total,
    lex_le,
    lex_lt,
    order_keys,
    KeyOrder,
};
use crate::partitions::covers;
use crate::sstable::{block_rows, covering, found_views, Block, FoundView, KeyBlocks, KeyEntries};
use crate::types::{rows, EntryView, RowEntry};

verus! {

/// The versions of `key` that a scan of `entries` finds. The scan stops at
/// the first larger key.
pub open spec fn versions_of(entries: Seq<EntryView>, key: Seq<u8>) -> Seq<EntryView>
    decreases entries.len(),
{
    if entries.len() == 0 {
        Seq::empty()
    } else if entries[0].key == key {
        seq![entries[0]] + versions_of(entries.skip(1), key)
    } else if lex_lt(entries[0].key, key) {
        versions_of(entries.skip(1), key)
    } else {
        Seq::empty()
    }
}

/// Some entry has a larger key.
pub open spec fn goes_past(entries: Seq<EntryView>, key: Seq<u8>) -> bool {
    exists|i: int| 0 <= i < entries.len() && lex_lt(key, (#[trigger] entries[i]).key)
}

/// The rows of the blocks that were read.
pub open spec fn read_rows(blocks: Map<usize, Arc<Block>>) -> Map<usize, Seq<EntryView>> {
    blocks.map_values(|block: Arc<Block>| block_rows(block))
}

/// The rows of the blocks `from..to`, up to the first block that was not
/// read.
pub open spec fn rows_in(blocks: Map<usize, Seq<EntryView>>, from: int, to: int) -> Seq<EntryView>
    decreases to - from,
{
    if from >= to || !blocks.contains_key(from as usize) {
        Seq::empty()
    } else {
        blocks[from as usize] + rows_in(blocks, from + 1, to)
    }
}

/// A scan of two parts finds nothing in the second once the first went past
/// the key.
proof fn lemma_versions_add(a: Seq<EntryView>, b: Seq<EntryView>, key: Seq<u8>)
    ensures
        versions_of(a + b, key) == if goes_past(a, key) {
            versions_of(a, key)
        } else {
            versions_of(a, key) + versions_of(b, key)
        },
    decreases a.len(),
{
    if a.len() == 0 {
        assert(a + b =~= b);
        assert(versions_of(a, key) + versions_of(b, key) =~= versions_of(b, key));
    } else {
        let rest = a.skip(1);
        assert((a + b).skip(1) =~= rest + b);
        assert((a + b)[0] == a[0]);
        lemma_versions_add(rest, b, key);
        lemma_lex_lt_is_not_ge(a[0].key, key);
        lemma_lex_lt_is_not_ge(key, a[0].key);
        if a[0].key == key || lex_lt(a[0].key, key) {
            lemma_goes_past_unfold(a, key);
            if a[0].key == key {
                assert(versions_of(a, key) + versions_of(b, key) =~= seq![a[0]] + (versions_of(
                    rest,
                    key,
                ) + versions_of(b, key)));
            }
        } else {
            assert(lex_lt(key, a[0].key));
            assert(goes_past(a, key));
        }
    }
}

/// The first entry goes past the key, or one of the others does.
proof fn lemma_goes_past_unfold(entries: Seq<EntryView>, key: Seq<u8>)
    requires
        entries.len() > 0,
    ensures
        goes_past(entries, key) == (lex_lt(key, entries[0].key) || goes_past(
            entries.skip(1),
            key,
        )),
{
    let rest = entries.skip(1);
    if goes_past(entries, key) {
        let i = choose|i: int| 0 <= i < entries.len() && lex_lt(key, (#[trigger] entries[i]).key);
        if i > 0 {
            assert(rest[i - 1] == entries[i]);
        }
    }
    if goes_past(rest, key) {
        let i = choose|i: int| 0 <= i < rest.len() && lex_lt(key, (#[trigger] rest[i]).key);
        assert(entries[i + 1] == rest[i]);
    }
}

/// Scan one block. The result says that a larger key ends the scan.
fn scan_block(block: &Block, key: &[u8], entries: &mut Vec<RowEntry>) -> (past: bool)
    ensures
        rows(final(entries)@) == rows(old(entries)@) + versions_of(rows(block.entries@), key@),
        past == goes_past(rows(block.entries@), key@),
{
    let ghost all = rows(block.entries@);
    let ghost start = rows(entries@);
    assert(all.skip(0) =~= all);
    let mut i: usize = 0;
    while i < block.entries.len()
        invariant
            i <= block.entries.len(),
            all == rows(block.entries@),
            start == rows(old(entries)@),
            rows(entries@) + versions_of(all.skip(i as int), key@) == start + versions_of(all, key@),
            goes_past(all, key@) == goes_past(all.skip(i as int), key@),
        decreases block.entries.len() - i,
    {
        let ghost rest = all.skip(i as int);
        let ghost before = rows(entries@);
        let entry = &block.entries[i];
        proof {
            assert(rest[0] == entry@);
            assert(rest.skip(1) =~= all.skip(i + 1));
            lemma_goes_past_unfold(rest, key@);
            lemma_lex_lt_is_not_ge(entry@.key, key@);
            lemma_lex_lt_is_not_ge(key@, entry@.key);
            lemma_lex_total(key@, entry@.key);
        }
        match order_keys(as_slice(&entry.key), key) {
            KeyOrder::Less => {},
            KeyOrder::Equal => {
                entries.push(entry.clone());
                proof {
                    assert(rows(entries@) =~= before + seq![entry@]);
                    assert(rows(entries@) + versions_of(rest.skip(1), key@) =~= before + (
                    seq![entry@] + versions_of(rest.skip(1), key@)));
                }
            },
            KeyOrder::Greater => {
                assert(lex_lt(key@, rest[0].key));
                assert(rows(entries@) =~= start + versions_of(all, key@));
                return true;
            },
        }
        i = i + 1;
    }
    assert(all.skip(i as int) =~= Seq::<EntryView>::empty());
    assert(rows(entries@) =~= start + versions_of(all, key@));
    false
}

/// Scan the block range of one key for its entries, in iteration
/// (sequence-descending) order. Stops at the first larger key, since later
/// blocks only hold larger keys.
pub fn scan_key(key: &KeyBlocks, blocks: &BTreeMap<usize, Arc<Block>>) -> (entries: Vec<RowEntry>)
    ensures
        rows(entries@) == versions_of(
            rows_in(read_rows(blocks@), key.blocks.start as int, key.blocks.end as int),
            content(key.key.key),
        ),
{
    let mut entries: Vec<RowEntry> = Vec::new();
    let end: usize = key.blocks.end;
    let mut b: usize = key.blocks.start;
    let ghost map = read_rows(blocks@);
    let ghost name = content(key.key.key);
    let ghost all = rows_in(map, b as int, end as int);
    assert(rows(entries@) =~= Seq::<EntryView>::empty());
    while b < end
        invariant
            map == read_rows(blocks@),
            name == content(key.key.key),
            end == key.blocks.end,
            all == rows_in(map, key.blocks.start as int, end as int),
            rows(entries@) + versions_of(rows_in(map, b as int, end as int), name) == versions_of(
                all,
                name,
            ),
        decreases end - b,
    {
        let block = match blocks.get(&b) {
            Some(block) => block,
            None => {
                // Every block in the range of a key was read, so this is
                // unreachable in practice.
                assert(rows(entries@) =~= versions_of(all, name));
                return entries;
            },
        };
        let ghost before = rows(entries@);
        let ghost first = map[b];
        let ghost rest = rows_in(map, b + 1, end as int);
        proof {
            assert(map.contains_key(b));
            assert(first == block_rows(*block));
            lemma_versions_add(first, rest, name);
        }
        let past = scan_block(block, as_slice(&key.key.key), &mut entries);
        if past {
            return entries;
        }
        proof {
            assert(rows(entries@) + versions_of(rest, name) =~= before + (versions_of(first, name)
                + versions_of(rest, name)));
        }
        b = b + 1;
    }
    assert(rows(entries@) =~= versions_of(all, name));
    entries
}

/// What a scan finds for one key.
pub open spec fn key_versions(
    key: KeyBlocks,
    blocks: Map<usize, Seq<EntryView>>,
) -> Seq<EntryView> {
    versions_of(
        rows_in(blocks, key.blocks.start as int, key.blocks.end as int),
        content(key.key.key),
    )
}

/// The keys that a scan finds, each with its entries.
pub open spec fn scanned(keys: Seq<KeyBlocks>, blocks: Map<usize, Seq<EntryView>>) -> Seq<FoundView>
    decreases keys.len(),
{
    if keys.len() == 0 {
        Seq::empty()
    } else {
        let before = scanned(keys.drop_last(), blocks);
        let entries = key_versions(keys.last(), blocks);
        if entries.len() == 0 {
            before
        } else {
            before.push(FoundView { idx: keys.last().key.idx, entries })
        }
    }
}

/// What a scan of the blocks of an SST comes to.
#[derive(Debug)]
pub struct ScanResult {
    /// The keys that the SST holds. A key that it does not hold has no entry.
    pub found: Vec<KeyEntries>,
    /// The keys that the filters passed and that the SST does not hold.
    pub false_positives: u64,
}

/// Scan the blocks of each key for its entries. A key that the filters passed
/// and that the SST does not hold is a filter false positive.
pub fn scan(
    keys: &Vec<KeyBlocks>,
    blocks: &BTreeMap<usize, Arc<Block>>,
    filtered: bool,
) -> (result: ScanResult)
    ensures
        found_views(result.found@) == scanned(keys@, read_rows(blocks@)),
        result.false_positives == if filtered {
            keys@.len() - result.found@.len()
        } else {
            0
        },
{
    let mut found: Vec<KeyEntries> = Vec::new();
    let mut false_positives: u64 = 0;
    let ghost map = read_rows(blocks@);
    assert(found_views(found@) =~= Seq::<FoundView>::empty());
    assert(keys@.take(0) =~= Seq::<KeyBlocks>::empty());
    for i in 0..keys.len()
        invariant
            map == read_rows(blocks@),
            found_views(found@) == scanned(keys@.take(i as int), map),
            found@.len() <= i,
            false_positives == if filtered {
                i - found@.len()
            } else {
                0
            },
    {
        let ghost before = found_views(found@);
        proof {
            let now = keys@.take(i + 1);
            assert(now.drop_last() =~= keys@.take(i as int));
            assert(now.last() == keys@[i as int]);
        }
        let entries = scan_key(&keys[i], blocks);
        if entries.len() > 0 {
            let idx: usize = keys[i].key.idx;
            let ghost versions = rows(entries@);
            found.push(KeyEntries { idx, entries });
            assert(found_views(found@) =~= before.push(FoundView { idx, entries: versions }));
        } else if filtered {
            false_positives = false_positives + 1;
        }
    }
    assert(keys@.take(keys@.len() as int) =~= keys@);
    ScanResult { found, false_positives }
}

// ---------------------------------------------------------------------------
// What a scan finds
// ---------------------------------------------------------------------------

/// Rows in key order.
pub open spec fn rows_in_order(entries: Seq<EntryView>) -> bool {
    forall|i: int, j: int|
        0 <= i <= j < entries.len() ==> lex_le(
            (#[trigger] entries[i]).key,
            (#[trigger] entries[j]).key,
        )
}

/// The rows of consecutive blocks, one block after the other.
pub open spec fn all_rows(blocks: Seq<Seq<EntryView>>) -> Seq<EntryView>
    decreases blocks.len(),
{
    if blocks.len() == 0 {
        Seq::empty()
    } else {
        blocks[0] + all_rows(blocks.skip(1))
    }
}

/// The start keys describe the blocks: no key of a block comes before its
/// start key, or after the start key of the next block.
pub open spec fn describes(starts: Seq<Seq<u8>>, blocks: Seq<Seq<EntryView>>) -> bool {
    &&& starts.len() == blocks.len()
    &&& forall|b: int, i: int|
        0 <= b < blocks.len() && 0 <= i < blocks[b].len() ==> lex_le(
            starts[b],
            (#[trigger] blocks[b][i]).key,
        ) && (b + 1 < blocks.len() ==> lex_le(blocks[b][i].key, starts[b + 1]))
}

/// The versions that an SST holds for `key`, newest first.
pub open spec fn held_versions(blocks: Seq<Seq<EntryView>>, key: Seq<u8>) -> Seq<EntryView> {
    all_rows(blocks).filter(|e: EntryView| e.key == key)
}

/// In rows in key order, a scan finds each version of the key.
proof fn lemma_scan_of_ordered_rows(entries: Seq<EntryView>, key: Seq<u8>)
    requires
        rows_in_order(entries),
    ensures
        versions_of(entries, key) == entries.filter(|e: EntryView| e.key == key),
    decreases entries.len(),
{
    let pred = |e: EntryView| e.key == key;
    if entries.len() == 0 {
        entries.lemma_filter_len(pred);
        assert(entries.filter(pred) =~= Seq::<EntryView>::empty());
    } else {
        let rest = entries.skip(1);
        let first = entries[0];
        assert forall|i: int, j: int| 0 <= i <= j < rest.len() implies lex_le(
            (#[trigger] rest[i]).key,
            (#[trigger] rest[j]).key,
        ) by {
            assert(lex_le(entries[i + 1].key, entries[j + 1].key));
        }
        lemma_scan_of_ordered_rows(rest, key);
        assert(entries =~= seq![first] + rest);
        rest.lemma_filter_prepend(first, pred);
        lemma_lex_lt_is_not_ge(first.key, key);
        lemma_lex_lt_is_not_ge(key, first.key);
        if first.key != key && !lex_lt(first.key, key) {
            assert forall|i: int| 0 <= i < rest.len() implies !pred(#[trigger] rest[i]) by {
                assert(lex_le(entries[0].key, entries[i + 1].key));
            }
            lemma_filter_none(rest, pred);
        }
    }
}

/// A filter that takes nothing leaves nothing.
pub proof fn lemma_filter_none(entries: Seq<EntryView>, pred: spec_fn(EntryView) -> bool)
    requires
        forall|i: int| 0 <= i < entries.len() ==> !pred(#[trigger] entries[i]),
    ensures
        entries.filter(pred) == Seq::<EntryView>::empty(),
    decreases entries.len(),
{
    if entries.len() == 0 {
        entries.lemma_filter_len(pred);
    } else {
        let front = entries.drop_last();
        assert forall|i: int| 0 <= i < front.len() implies !pred(#[trigger] front[i]) by {
            assert(front[i] == entries[i]);
        }
        lemma_filter_none(front, pred);
        assert(entries =~= front.push(entries.last()));
        front.lemma_filter_push(entries.last(), pred);
        assert(!pred(entries[entries.len() - 1]));
    }
    assert(entries.filter(pred) =~= Seq::<EntryView>::empty());
}

/// The rows of two lists of blocks are those of the first, then those of the
/// second.
proof fn lemma_all_rows_add(a: Seq<Seq<EntryView>>, b: Seq<Seq<EntryView>>)
    ensures
        all_rows(a + b) == all_rows(a) + all_rows(b),
    decreases a.len(),
{
    if a.len() == 0 {
        assert(a + b =~= b);
        assert(all_rows(a) + all_rows(b) =~= all_rows(b));
    } else {
        assert((a + b).skip(1) =~= a.skip(1) + b);
        lemma_all_rows_add(a.skip(1), b);
        assert(all_rows(a) + all_rows(b) =~= a[0] + (all_rows(a.skip(1)) + all_rows(b)));
    }
}

/// Blocks that do not hold the key give no row of it.
proof fn lemma_other_blocks(
    blocks: Seq<Seq<EntryView>>,
    key: Seq<u8>,
)
    requires
        forall|b: int, i: int|
            0 <= b < blocks.len() && 0 <= i < blocks[b].len() ==> (#[trigger] blocks[b][i]).key
                != key,
    ensures
        all_rows(blocks).filter(|e: EntryView| e.key == key) == Seq::<EntryView>::empty(),
    decreases blocks.len(),
{
    let pred = |e: EntryView| e.key == key;
    if blocks.len() == 0 {
        lemma_filter_none(all_rows(blocks), pred);
    } else {
        let rest = blocks.skip(1);
        assert forall|b: int, i: int| 0 <= b < rest.len() && 0 <= i < rest[b].len() implies (
        #[trigger] rest[b][i]).key != key by {
            assert(blocks[b + 1][i].key != key);
        }
        lemma_other_blocks(rest, key);
        assert forall|i: int| 0 <= i < blocks[0].len() implies !pred(#[trigger] blocks[0][i]) by {}
        lemma_filter_none(blocks[0], pred);
        Seq::filter_distributes_over_add(blocks[0], all_rows(rest), pred);
        assert(all_rows(blocks).filter(pred) =~= Seq::<EntryView>::empty());
    }
}

/// The rows of the blocks of a range, when each of them was read.
proof fn lemma_rows_in(
    read: Map<usize, Seq<EntryView>>,
    blocks: Seq<Seq<EntryView>>,
    from: int,
    to: int,
)
    requires
        0 <= from <= to <= blocks.len() <= usize::MAX,
        forall|b: int|
            from <= b < to ==> #[trigger] read.contains_key(b as usize) && read[b as usize]
                == blocks[b],
    ensures
        rows_in(read, from, to) == all_rows(blocks.subrange(from, to)),
    decreases to - from,
{
    let part = blocks.subrange(from, to);
    if from < to {
        assert(read.contains_key(from as usize));
        lemma_rows_in(read, blocks, from + 1, to);
        assert(part.skip(1) =~= blocks.subrange(from + 1, to));
        assert(part[0] == blocks[from]);
    } else {
        assert(part =~= Seq::<Seq<EntryView>>::empty());
    }
}

/// A scan of the blocks that can hold a key finds each version that the SST
/// holds of it, also where the versions cross the border of two blocks.
pub proof fn law_scan_finds_each_version(
    blocks: Seq<Seq<EntryView>>,
    starts: Seq<Seq<u8>>,
    read: Map<usize, Seq<EntryView>>,
    range: Range<usize>,
    key: Seq<u8>,
)
    requires
        blocks.len() <= usize::MAX,
        rows_in_order(all_rows(blocks)),
        describes(starts, blocks),
        covering(range, starts, key),
        forall|b: int|
            range.start <= b < range.end ==> #[trigger] read.contains_key(b as usize)
                && read[b as usize] == blocks[b],
    ensures
        versions_of(rows_in(read, range.start as int, range.end as int), key) == held_versions(
            blocks,
            key,
        ),
{
    let pred = |e: EntryView| e.key == key;
    let from = range.start as int;
    let to = range.end as int;
    let n = blocks.len() as int;
    let before = blocks.subrange(0, from);
    let part = blocks.subrange(from, to);
    let after = blocks.subrange(to, n);
    assert(blocks =~= before + part + after);
    lemma_all_rows_add(before + part, after);
    lemma_all_rows_add(before, part);
    lemma_rows_in(read, blocks, from, to);
    // A block outside the range does not cover the key, so it has no row of
    // it.
    assert forall|b: int, i: int|
        0 <= b < blocks.len() && 0 <= i < blocks[b].len() && !(from <= b < to) implies (
    #[trigger] blocks[b][i]).key != key by {
        assert(!covers(starts, b, key));
    }
    assert forall|b: int, i: int| 0 <= b < before.len() && 0 <= i < before[b].len() implies (
    #[trigger] before[b][i]).key != key by {
        assert(blocks[b][i].key != key);
    }
    assert forall|b: int, i: int| 0 <= b < after.len() && 0 <= i < after[b].len() implies (
    #[trigger] after[b][i]).key != key by {
        assert(blocks[to + b][i].key != key);
    }
    lemma_other_blocks(before, key);
    lemma_other_blocks(after, key);
    let first = all_rows(before);
    let middle = all_rows(part);
    let last = all_rows(after);
    Seq::filter_distributes_over_add(first + middle, last, pred);
    Seq::filter_distributes_over_add(first, middle, pred);
    assert(held_versions(blocks, key) =~= middle.filter(pred));
    let all = all_rows(blocks);
    assert forall|i: int, j: int| 0 <= i <= j < middle.len() implies lex_le(
        (#[trigger] middle[i]).key,
        (#[trigger] middle[j]).key,
    ) by {
        assert(middle[i] == all[first.len() + i]);
        assert(middle[j] == all[first.len() + j]);
    }
    lemma_scan_of_ordered_rows(middle, key);
}

/// An SST holds of a key exactly the rows with that key, in their order: a
/// row more in the last block adds itself to the versions of its own key, and
/// of no other, and a new block with no row changes nothing.
pub proof fn law_an_sst_holds_the_rows_of_its_blocks(
    blocks: Seq<Seq<EntryView>>,
    last: Seq<EntryView>,
    row: EntryView,
    key: Seq<u8>,
)
    ensures
        held_versions(blocks.push(last.push(row)), key) == if row.key == key {
            held_versions(blocks.push(last), key).push(row)
        } else {
            held_versions(blocks.push(last), key)
        },
        held_versions(blocks.push(Seq::empty()), key) == held_versions(blocks, key),
        held_versions(Seq::empty(), key).len() == 0,
{
    let pred = |e: EntryView| e.key == key;
    let one = |rows: Seq<EntryView>| seq![rows];
    lemma_all_rows_add(blocks, one(last.push(row)));
    lemma_all_rows_add(blocks, one(last));
    lemma_all_rows_add(blocks, one(Seq::empty()));
    lemma_one_block(last.push(row));
    lemma_one_block(last);
    lemma_one_block(Seq::empty());
    assert(blocks.push(last.push(row)) =~= blocks + one(last.push(row)));
    assert(blocks.push(last) =~= blocks + one(last));
    assert(blocks.push(Seq::empty()) =~= blocks + one(Seq::empty()));
    let before = all_rows(blocks) + last;
    assert(all_rows(blocks.push(last.push(row))) =~= before.push(row));
    assert(all_rows(blocks.push(last)) =~= before);
    assert(all_rows(blocks.push(Seq::empty())) =~= all_rows(blocks));
    before.lemma_filter_push(row, pred);
    all_rows(Seq::<Seq<EntryView>>::empty()).lemma_filter_len(pred);
}

/// The rows of one block.
proof fn lemma_one_block(block: Seq<EntryView>)
    ensures
        all_rows(seq![block]) == block,
{
    let one = seq![block];
    assert(all_rows(one.skip(1)) =~= Seq::<EntryView>::empty());
    assert(all_rows(one) =~= block);
}

/// A scan reports a key exactly when it finds a version of it, with the slot
/// of the key and all that it found, and in the order of the keys.
pub proof fn law_a_scan_reports_each_key_that_it_finds(
    keys: Seq<KeyBlocks>,
    key: KeyBlocks,
    blocks: Map<usize, Seq<EntryView>>,
)
    ensures
        ({
            let found = versions_of(
                rows_in(blocks, key.blocks.start as int, key.blocks.end as int),
                content(key.key.key),
            );
            scanned(keys.push(key), blocks) == if found.len() > 0 {
                scanned(keys, blocks).push(FoundView { idx: key.key.idx, entries: found })
            } else {
                scanned(keys, blocks)
            }
        }),
        scanned(Seq::empty(), blocks).len() == 0,
{
    assert(keys.push(key).drop_last() =~= keys);
}

} // verus!
