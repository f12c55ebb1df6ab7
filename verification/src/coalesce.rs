//! How wanted blocks merge into fetch ranges.

use core::ops::Range;
use vstd::prelude::*;

use crate::sstable::{increasing, offsets_in_order};

verus! {

/// The bytes of the blocks `from..to`.
pub open spec fn span(offsets: Seq<u64>, from: int, to: int) -> int {
    offsets[to] - offsets[from]
}

/// Blocks in order. Each has an offset, and so has its end.
pub open spec fn blocks_in_order(blocks: Seq<usize>, offsets: Seq<u64>) -> bool {
    &&& forall|i: int| 0 <= i < blocks.len() ==> (#[trigger] blocks[i]) + 1 < offsets.len()
    &&& forall|i: int, j: int| 0 <= i <= j < blocks.len() ==> (#[trigger] blocks[i]) <= (
    #[trigger] blocks[j])
}

/// Block `b` can join the range `run`: the gap to it is at most `gap` bytes,
/// and the merged range is at most `max` bytes.
pub open spec fn joins(run: Range<usize>, b: usize, offsets: Seq<u64>, gap: u64, max: u64) -> bool {
    span(offsets, run.end as int, b as int) <= gap && span(offsets, run.start as int, b + 1) <= max
}

/// The ranges with one more block. The block joins the last range when it
/// can, and it starts the next range otherwise.
pub open spec fn with_block(
    runs: Seq<Range<usize>>,
    b: usize,
    offsets: Seq<u64>,
    gap: u64,
    max: u64,
) -> Seq<Range<usize>> {
    let end = (b + 1) as usize;
    if runs.len() == 0 {
        runs.push(b..end)
    } else if b < runs.last().end {
        runs
    } else if joins(runs.last(), b, offsets, gap, max) {
        runs.update(runs.len() - 1, runs.last().start..end)
    } else {
        runs.push(b..end)
    }
}

/// The fetch ranges of the blocks.
pub open spec fn coalesced(blocks: Seq<usize>, offsets: Seq<u64>, gap: u64, max: u64) -> Seq<
    Range<usize>,
>
    decreases blocks.len(),
{
    if blocks.len() == 0 {
        Seq::empty()
    } else {
        with_block(
            coalesced(blocks.drop_last(), offsets, gap, max),
            blocks.last(),
            offsets,
            gap,
            max,
        )
    }
}

/// The ranges are not empty, they are in order, and none overlaps another.
pub open spec fn runs_in_order(runs: Seq<Range<usize>>, offsets: Seq<u64>) -> bool {
    &&& forall|r: int|
        0 <= r < runs.len() ==> (#[trigger] runs[r]).start < runs[r].end < offsets.len()
    &&& forall|r: int, s: int|
        0 <= r < s < runs.len() ==> (#[trigger] runs[r]).end <= (#[trigger] runs[s]).start
}

/// Block `b` is in one of the ranges.
pub open spec fn in_runs(runs: Seq<Range<usize>>, b: usize) -> bool {
    exists|r: int| 0 <= r < runs.len() && (#[trigger] runs[r]).start <= b < runs[r].end
}

/// Group sorted block indices into fetch ranges. A block joins the last range
/// when the gap to it is at most `gap_bytes` and the merged range is at most
/// `max_bytes`. Adjacent blocks have a gap of 0. The blocks `a..b` take the
/// bytes `offsets[a]..offsets[b]` of the SST object.
pub fn coalesce_runs(
    sorted_blocks: &[usize],
    offsets: &[u64],
    gap_bytes: u64,
    max_bytes: u64,
) -> (runs: Vec<Range<usize>>)
    requires
        blocks_in_order(sorted_blocks@, offsets@),
        offsets_in_order(offsets@),
    ensures
        runs@ == coalesced(sorted_blocks@, offsets@, gap_bytes, max_bytes),
        runs_in_order(runs@, offsets@),
{
    let mut runs: Vec<Range<usize>> = Vec::new();
    let ends: usize = offsets.len();
    assert(sorted_blocks@.take(0) =~= Seq::<usize>::empty());
    for i in 0..sorted_blocks.len()
        invariant
            ends == offsets@.len(),
            blocks_in_order(sorted_blocks@, offsets@),
            offsets_in_order(offsets@),
            runs@ == coalesced(sorted_blocks@.take(i as int), offsets@, gap_bytes, max_bytes),
            runs_in_order(runs@, offsets@),
    {
        let b: usize = sorted_blocks[i];
        let ghost before = runs@;
        proof {
            let now = sorted_blocks@.take(i + 1);
            assert(now.drop_last() =~= sorted_blocks@.take(i as int));
            assert(now.last() == b);
        }
        let n: usize = runs.len();
        if n == 0 {
            runs.push(b..b + 1);
        } else {
            let start: usize = runs[n - 1].start;
            let end: usize = runs[n - 1].end;
            if b >= end {
                if offsets[b] - offsets[end] <= gap_bytes && offsets[b + 1] - offsets[start]
                    <= max_bytes {
                    runs.set(n - 1, start..b + 1);
                } else {
                    runs.push(b..b + 1);
                }
            }
        }
    }
    assert(sorted_blocks@.take(sorted_blocks@.len() as int) =~= sorted_blocks@);
    runs
}

/// What one more block does to the ranges.
proof fn lemma_with_block(
    runs: Seq<Range<usize>>,
    b: usize,
    offsets: Seq<u64>,
    gap: u64,
    max: u64,
)
    requires
        runs_in_order(runs, offsets),
        b + 1 < offsets.len() <= usize::MAX,
        runs.len() > 0 ==> runs.last().end <= b + 1,
    ensures
        runs_in_order(with_block(runs, b, offsets, gap, max), offsets),
        with_block(runs, b, offsets, gap, max).len() > 0,
        with_block(runs, b, offsets, gap, max).last().start <= b,
        with_block(runs, b, offsets, gap, max).last().end == b + 1,
        runs.len() <= with_block(runs, b, offsets, gap, max).len() <= runs.len() + 1,
        forall|r: int|
            0 <= r < runs.len() ==> (#[trigger] with_block(runs, b, offsets, gap, max)[r]).start
                == runs[r].start && with_block(runs, b, offsets, gap, max)[r].end >= runs[r].end,
{
    if runs.len() > 0 {
        assert(runs[runs.len() - 1].start < runs[runs.len() - 1].end < offsets.len());
    }
}

/// The shape of the fetch ranges.
proof fn lemma_runs_shape(blocks: Seq<usize>, offsets: Seq<u64>, gap: u64, max: u64)
    requires
        blocks_in_order(blocks, offsets),
        offsets.len() <= usize::MAX,
    ensures
        runs_in_order(coalesced(blocks, offsets, gap, max), offsets),
        blocks.len() > 0 ==> coalesced(blocks, offsets, gap, max).len() > 0 && coalesced(
            blocks,
            offsets,
            gap,
            max,
        ).last().end == blocks.last() + 1,
        blocks.len() > 0 ==> coalesced(blocks, offsets, gap, max).last().start <= blocks.last(),
    decreases blocks.len(),
{
    if blocks.len() > 0 {
        let front = blocks.drop_last();
        lemma_front_in_order(blocks, offsets);
        lemma_runs_shape(front, offsets, gap, max);
        lemma_with_block(
            coalesced(front, offsets, gap, max),
            blocks.last(),
            offsets,
            gap,
            max,
        );
    }
}

/// The fetch ranges are in order, none overlaps another, and each wanted
/// block is in one of them.
pub proof fn law_runs_hold_the_blocks(
    blocks: Seq<usize>,
    offsets: Seq<u64>,
    gap: u64,
    max: u64,
    i: int,
)
    requires
        blocks_in_order(blocks, offsets),
        offsets.len() <= usize::MAX,
        0 <= i < blocks.len(),
    ensures
        runs_in_order(coalesced(blocks, offsets, gap, max), offsets),
        in_runs(coalesced(blocks, offsets, gap, max), blocks[i]),
    decreases blocks.len(),
{
    let front = blocks.drop_last();
    let b = blocks.last();
    let runs = coalesced(front, offsets, gap, max);
    let after = coalesced(blocks, offsets, gap, max);
    lemma_front_in_order(blocks, offsets);
    lemma_runs_shape(front, offsets, gap, max);
    lemma_runs_shape(blocks, offsets, gap, max);
    lemma_with_block(runs, b, offsets, gap, max);
    if i < front.len() {
        law_runs_hold_the_blocks(front, offsets, gap, max, i);
        let r = choose|r: int|
            0 <= r < runs.len() && (#[trigger] runs[r]).start <= front[i] < runs[r].end;
        assert(after[r].start == runs[r].start && after[r].end >= runs[r].end);
    } else {
        let n = after.len() - 1;
        assert(after[n].start <= b < after[n].end);
    }
}

/// There are no more fetch ranges than wanted blocks.
pub proof fn law_no_more_runs_than_blocks(
    blocks: Seq<usize>,
    offsets: Seq<u64>,
    gap: u64,
    max: u64,
)
    ensures
        coalesced(blocks, offsets, gap, max).len() <= blocks.len(),
    decreases blocks.len(),
{
    if blocks.len() > 0 {
        law_no_more_runs_than_blocks(blocks.drop_last(), offsets, gap, max);
    }
}

/// A fetch range starts and ends with a wanted block, so it fetches nothing
/// before or after them.
pub proof fn law_runs_start_and_end_with_wanted_blocks(
    blocks: Seq<usize>,
    offsets: Seq<u64>,
    gap: u64,
    max: u64,
    r: int,
)
    requires
        blocks_in_order(blocks, offsets),
        offsets.len() <= usize::MAX,
        0 <= r < coalesced(blocks, offsets, gap, max).len(),
    ensures
        blocks.contains(coalesced(blocks, offsets, gap, max)[r].start),
        blocks.contains((coalesced(blocks, offsets, gap, max)[r].end - 1) as usize),
    decreases blocks.len(),
{
    let front = blocks.drop_last();
    let b = blocks.last();
    let runs = coalesced(front, offsets, gap, max);
    lemma_front_in_order(blocks, offsets);
    assert(blocks[blocks.len() - 1] == b);
    assert(blocks.contains(b));
    if r < runs.len() {
        law_runs_start_and_end_with_wanted_blocks(front, offsets, gap, max, r);
        let i = choose|i: int| 0 <= i < front.len() && front[i] == runs[r].start;
        assert(blocks[i] == runs[r].start);
        let last = (runs[r].end - 1) as usize;
        let j = choose|j: int| 0 <= j < front.len() && front[j] == last;
        assert(blocks[j] == last);
    }
}

/// A start of a list in order is in order.
proof fn lemma_front_in_order(blocks: Seq<usize>, offsets: Seq<u64>)
    requires
        blocks.len() > 0,
        blocks_in_order(blocks, offsets),
    ensures
        blocks_in_order(blocks.drop_last(), offsets),
        blocks.last() + 1 < offsets.len(),
        blocks.len() > 1 ==> blocks.drop_last().last() <= blocks.last(),
{
    let front = blocks.drop_last();
    assert(blocks[blocks.len() - 1] + 1 < offsets.len());
    assert forall|i: int, j: int| 0 <= i <= j < front.len() implies (#[trigger] front[i]) <= (
    #[trigger] front[j]) by {
        assert(blocks[i] <= blocks[j]);
    }
    assert forall|i: int| 0 <= i < front.len() implies (#[trigger] front[i]) + 1
        < offsets.len() by {
        assert(blocks[i] + 1 < offsets.len());
    }
}

/// A range of more than one block is at most `max` bytes.
pub proof fn law_merged_runs_stay_under_the_cap(
    blocks: Seq<usize>,
    offsets: Seq<u64>,
    gap: u64,
    max: u64,
    r: int,
)
    requires
        blocks_in_order(blocks, offsets),
        offsets.len() <= usize::MAX,
        0 <= r < coalesced(blocks, offsets, gap, max).len(),
    ensures
        ({
            let run = coalesced(blocks, offsets, gap, max)[r];
            run.end == run.start + 1 || span(offsets, run.start as int, run.end as int) <= max
        }),
    decreases blocks.len(),
{
    let front = blocks.drop_last();
    let runs = coalesced(front, offsets, gap, max);
    lemma_front_in_order(blocks, offsets);
    if r < runs.len() {
        law_merged_runs_stay_under_the_cap(front, offsets, gap, max, r);
    }
}

/// A range merges over no gap of more than `gap` bytes: two wanted blocks
/// that follow each other and share a range are that close.
pub proof fn law_runs_merge_over_small_gaps_only(
    blocks: Seq<usize>,
    offsets: Seq<u64>,
    gap: u64,
    max: u64,
    i: int,
    r: int,
)
    requires
        blocks_in_order(blocks, offsets),
        offsets_in_order(offsets),
        offsets.len() <= usize::MAX,
        0 <= i < blocks.len() - 1,
        blocks[i] < blocks[i + 1],
        0 <= r < coalesced(blocks, offsets, gap, max).len(),
        coalesced(blocks, offsets, gap, max)[r].start <= blocks[i],
        blocks[i + 1] < coalesced(blocks, offsets, gap, max)[r].end,
    ensures
        span(offsets, blocks[i] + 1, blocks[i + 1] as int) <= gap,
    decreases blocks.len(),
{
    let front = blocks.drop_last();
    let b = blocks.last();
    let runs = coalesced(front, offsets, gap, max);
    let after = coalesced(blocks, offsets, gap, max);
    lemma_front_in_order(blocks, offsets);
    lemma_runs_shape(front, offsets, gap, max);
    lemma_with_block(runs, b, offsets, gap, max);
    if i + 1 < front.len() {
        // Both blocks are in ranges of the front, and the last block moves
        // no block from one range to another.
        law_runs_hold_the_blocks(front, offsets, gap, max, i + 1);
        let s = choose|s: int|
            0 <= s < runs.len() && (#[trigger] runs[s]).start <= front[i + 1] < runs[s].end;
        assert(after[s].start == runs[s].start && after[s].end >= runs[s].end);
        if r < s {
            assert(after[r].end <= after[s].start);
        }
        if s < r {
            assert(after[s].end <= after[r].start);
        }
        assert(r == s);
        assert(front[i] == blocks[i] && front[i + 1] == blocks[i + 1]);
        law_runs_merge_over_small_gaps_only(front, offsets, gap, max, i, s);
    } else {
        // The second block is the last one: it joined the last range.
        assert(front.last() == blocks[i]);
        let end = runs.last().end;
        assert(end == blocks[i] + 1);
        assert(b >= end);
        if !joins(runs.last(), b, offsets, gap, max) {
            let n = after.len() - 1;
            assert(after[n].start == b);
            if r < n {
                assert(after[r].end <= after[n].start);
            }
        }
    }
}

/// No split is needless: two ranges that follow each other are more than
/// `gap` bytes apart, or the merge would be more than `max` bytes.
pub proof fn law_runs_split_only_when_needed(
    blocks: Seq<usize>,
    offsets: Seq<u64>,
    gap: u64,
    max: u64,
    r: int,
)
    requires
        blocks_in_order(blocks, offsets),
        offsets.len() <= usize::MAX,
        0 <= r < coalesced(blocks, offsets, gap, max).len() - 1,
    ensures
        !joins(
            coalesced(blocks, offsets, gap, max)[r],
            coalesced(blocks, offsets, gap, max)[r + 1].start,
            offsets,
            gap,
            max,
        ),
    decreases blocks.len(),
{
    let front = blocks.drop_last();
    let runs = coalesced(front, offsets, gap, max);
    lemma_front_in_order(blocks, offsets);
    if r + 1 < runs.len() {
        law_runs_split_only_when_needed(front, offsets, gap, max, r);
    }
}

// ---------------------------------------------------------------------------
// Ranges for the blocks of many keys
// ---------------------------------------------------------------------------

/// The list holds exactly the blocks of the two parts.
pub open spec fn holds_both(blocks: Seq<usize>, a: Seq<usize>, b: Seq<usize>) -> bool {
    forall|x: usize| #[trigger] blocks.contains(x) <==> a.contains(x) || b.contains(x)
}

/// Where the blocks of a list pass `at`.
proof fn lemma_crossing(blocks: Seq<usize>, i: int, j: int, at: usize) -> (k: int)
    requires
        0 <= i < j < blocks.len(),
        blocks[i] < at,
        at <= blocks[j],
    ensures
        i <= k < j,
        blocks[k] < at <= blocks[k + 1],
    decreases j - i,
{
    if blocks[i + 1] < at {
        lemma_crossing(blocks, i + 1, j, at)
    } else {
        i
    }
}

/// The starts of two ranges are never in one range of a part of the blocks:
/// what a part fetches at once, the whole list fetches at once too.
proof fn lemma_starts_are_apart(
    blocks: Seq<usize>,
    part: Seq<usize>,
    offsets: Seq<u64>,
    gap: u64,
    max: u64,
    r: int,
    k: int,
)
    requires
        blocks_in_order(blocks, offsets),
        blocks_in_order(part, offsets),
        increasing(part),
        offsets_in_order(offsets),
        offsets.len() <= usize::MAX,
        forall|x: usize| #[trigger] part.contains(x) ==> blocks.contains(x),
        0 <= r < coalesced(blocks, offsets, gap, max).len() - 1,
        0 <= k < coalesced(part, offsets, gap, max).len(),
        coalesced(part, offsets, gap, max)[k].start <= coalesced(blocks, offsets, gap, max)[r].start,
    ensures
        coalesced(part, offsets, gap, max)[k].end <= coalesced(
            blocks,
            offsets,
            gap,
            max,
        )[r + 1].start,
{
    let runs = coalesced(blocks, offsets, gap, max);
    let run = coalesced(part, offsets, gap, max)[k];
    let first = runs[r].start as int;
    let second = runs[r + 1].start as int;
    let end = runs[r].end;
    lemma_runs_shape(blocks, offsets, gap, max);
    lemma_runs_shape(part, offsets, gap, max);
    if second < run.end {
        law_runs_split_only_when_needed(blocks, offsets, gap, max, r);
        law_merged_runs_stay_under_the_cap(part, offsets, gap, max, k);
        law_runs_start_and_end_with_wanted_blocks(part, offsets, gap, max, k);
        assert(first < end <= second);
        assert(span(offsets, first, second + 1) <= span(offsets, run.start as int, run.end as int));
        let last = (run.end - 1) as usize;
        let i = choose|i: int| 0 <= i < part.len() && part[i] == run.start;
        let j = choose|j: int| 0 <= j < part.len() && part[j] == last;
        assert(part[i] < part[j]);
        assert(i < j) by {
            if j < i {
                assert(part[j] < part[i]);
            }
        }
        let c = lemma_crossing(part, i, j, end);
        let after = part[c + 1];
        // No wanted block lies between the two ranges.
        assert(after >= second) by {
            assert(part.contains(after));
            assert(blocks.contains(after));
            let b = choose|b: int| 0 <= b < blocks.len() && blocks[b] == after;
            law_runs_hold_the_blocks(blocks, offsets, gap, max, b);
            let q = choose|q: int|
                0 <= q < runs.len() && (#[trigger] runs[q]).start <= after < runs[q].end;
            if q < r {
                assert(runs[q].end <= runs[r].start);
            }
            if q > r + 1 {
                assert(runs[r + 1].end <= runs[q].start);
            }
        }
        assert(part[i] <= part[c]) by {
            if i < c {
                assert(part[i] < part[c]);
            }
        }
        assert(after <= last) by {
            if c + 1 < j {
                assert(part[c + 1] < part[j]);
            }
        }
        assert(part[c] < part[c + 1]);
        law_runs_merge_over_small_gaps_only(part, offsets, gap, max, c, k);
        assert(offsets[second] <= offsets[after as int]);
        assert(offsets[part[c] + 1] <= offsets[end as int]);
        assert(joins(runs[r], second as usize, offsets, gap, max));
    }
}

/// The range of `runs` that holds block `b`.
spec fn run_of(runs: Seq<Range<usize>>, b: usize) -> int {
    choose|r: int| 0 <= r < runs.len() && (#[trigger] runs[r]).start <= b < runs[r].end
}

/// Two lists of blocks take no more ranges together than one by one.
pub proof fn law_shared_ranges_are_no_more(
    blocks: Seq<usize>,
    a: Seq<usize>,
    b: Seq<usize>,
    offsets: Seq<u64>,
    gap: u64,
    max: u64,
)
    requires
        blocks_in_order(blocks, offsets),
        blocks_in_order(a, offsets),
        blocks_in_order(b, offsets),
        increasing(a),
        increasing(b),
        holds_both(blocks, a, b),
        offsets_in_order(offsets),
        offsets.len() <= usize::MAX,
    ensures
        coalesced(blocks, offsets, gap, max).len() <= coalesced(a, offsets, gap, max).len()
            + coalesced(b, offsets, gap, max).len(),
{
    let runs = coalesced(blocks, offsets, gap, max);
    let of_a = coalesced(a, offsets, gap, max);
    let of_b = coalesced(b, offsets, gap, max);
    let n = (of_a.len() + of_b.len()) as int;
    lemma_runs_shape(blocks, offsets, gap, max);
    // Each range goes to the range of a part that holds its first block.
    let number = |r: int|
        if a.contains(runs[r].start) {
            run_of(of_a, runs[r].start)
        } else {
            of_a.len() + run_of(of_b, runs[r].start)
        };
    assert forall|r: int| 0 <= r < runs.len() implies {
        let start = (#[trigger] runs[r]).start;
        &&& a.contains(start) ==> {
            let k = run_of(of_a, start);
            0 <= k < of_a.len() && of_a[k].start <= start < of_a[k].end
        }
        &&& !a.contains(start) ==> {
            let k = run_of(of_b, start);
            0 <= k < of_b.len() && of_b[k].start <= start < of_b[k].end
        }
    } by {
        let start = runs[r].start;
        law_runs_start_and_end_with_wanted_blocks(blocks, offsets, gap, max, r);
        assert(blocks.contains(start));
        if a.contains(start) {
            let i = choose|i: int| 0 <= i < a.len() && a[i] == start;
            law_runs_hold_the_blocks(a, offsets, gap, max, i);
        } else {
            assert(b.contains(start));
            let i = choose|i: int| 0 <= i < b.len() && b[i] == start;
            law_runs_hold_the_blocks(b, offsets, gap, max, i);
        }
    }
    let numbers = Seq::new(runs.len(), number);
    assert forall|r: int, q: int| 0 <= r < q < runs.len() implies numbers[r] != numbers[q] by {
        let start = runs[r].start;
        let later = runs[q].start;
        assert(runs[r].start < runs[r].end);
        if numbers[r] == numbers[q] {
            assert(a.contains(start) == a.contains(later));
            assert(runs[r + 1].start <= runs[q].start) by {
                if r + 1 < q {
                    assert(runs[r + 1].end <= runs[q].start);
                    assert(runs[r + 1].start < runs[r + 1].end);
                }
            }
            if a.contains(start) {
                lemma_starts_are_apart(blocks, a, offsets, gap, max, r, run_of(of_a, start));
            } else {
                lemma_starts_are_apart(blocks, b, offsets, gap, max, r, run_of(of_b, start));
            }
        }
    }
    assert(numbers.no_duplicates());
    let all = vstd::set_lib::set_int_range(0, n);
    vstd::set_lib::lemma_int_range(0, n);
    numbers.unique_seq_to_set();
    assert(numbers.to_set().subset_of(all)) by {
        assert forall|x: int| numbers.to_set().contains(x) implies all.contains(x) by {
            let r = choose|r: int| 0 <= r < numbers.len() && numbers[r] == x;
            assert(runs[r].start <= runs[r].start);
        }
    }
    vstd::set_lib::lemma_len_subset(numbers.to_set(), all);
}

/// Two ranges that follow each other are apart for a reason that the offsets
/// show: the bytes between them are more than `gap`, or the bytes of the first
/// range and the next block together are more than `max`.
pub proof fn law_two_ranges_are_apart_for_a_reason(
    blocks: Seq<usize>,
    offsets: Seq<u64>,
    gap: u64,
    max: u64,
    r: int,
)
    requires
        blocks_in_order(blocks, offsets),
        offsets.len() <= usize::MAX,
        0 <= r < coalesced(blocks, offsets, gap, max).len() - 1,
    ensures
        ({
            let run = coalesced(blocks, offsets, gap, max)[r];
            let next = coalesced(blocks, offsets, gap, max)[r + 1];
            ||| offsets[next.start as int] - offsets[run.end as int] > gap
            ||| offsets[next.start + 1] - offsets[run.start as int] > max
        }),
{
    law_runs_split_only_when_needed(blocks, offsets, gap, max, r);
}

/// A range of more than one block has at most `max` bytes, and it bridges no
/// bytes of unwanted blocks beyond `gap`, as the offsets show.
pub proof fn law_a_range_is_small_and_dense(
    blocks: Seq<usize>,
    offsets: Seq<u64>,
    gap: u64,
    max: u64,
    i: int,
    r: int,
)
    requires
        blocks_in_order(blocks, offsets),
        offsets_in_order(offsets),
        offsets.len() <= usize::MAX,
        0 <= r < coalesced(blocks, offsets, gap, max).len(),
        0 <= i < blocks.len() - 1,
        blocks[i] < blocks[i + 1],
    ensures
        ({
            let run = coalesced(blocks, offsets, gap, max)[r];
            &&& run.start < run.end < offsets.len()
            &&& run.end - run.start > 1 ==> offsets[run.end as int] - offsets[run.start as int]
                <= max
            &&& run.start <= blocks[i] && blocks[i + 1] < run.end ==> offsets[blocks[i + 1] as int]
                - offsets[blocks[i] + 1] <= gap
        }),
{
    lemma_runs_shape(blocks, offsets, gap, max);
    law_merged_runs_stay_under_the_cap(blocks, offsets, gap, max, r);
    let run = coalesced(blocks, offsets, gap, max)[r];
    if run.start <= blocks[i] && blocks[i + 1] < run.end {
        law_runs_merge_over_small_gaps_only(blocks, offsets, gap, max, i, r);
    }
}

} // verus!
