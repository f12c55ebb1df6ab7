use bytes::Bytes;
use slatedb_mget::filter::{Filter, NamedFilter};
use slatedb_mget::manifest::{SsTableHandle, SsTableInfo, SsTableView, SstTraceLevel};
use slatedb_mget::multi_get::batch::BatchKeys;
use slatedb_mget::multi_get::candidates::{BatchSst, Filters};
use slatedb_mget::multi_get::events::ReadEvent;
use slatedb_mget::multi_get::key::{KeyRead, Pick};
use slatedb_mget::multi_get::pipeline::Pipeline;
use slatedb_mget::types::RowEntry;

/// A filter with one answer for all keys.
struct Answer(bool);

impl Filter for Answer {
    type Context = ();

    fn might_match(&self, _key: &Bytes, _context: &Option<()>) -> bool {
        self.0
    }
}

fn check_batch(input: &[&str], expected_keys: &[&str], expected_slots: &[usize]) {
    let input: Vec<&[u8]> = input.iter().map(|key| key.as_bytes()).collect();
    let batch = BatchKeys::new(&input);

    let expected_keys: Vec<Bytes> =
        expected_keys.iter().map(|k| Bytes::copy_from_slice(k.as_bytes())).collect();
    assert_eq!(batch.keys, expected_keys);
    assert_eq!(batch.slots, expected_slots);
    for (u, key) in batch.keys.iter().enumerate() {
        assert_eq!(batch.position(key), Some(u));
    }
    assert_eq!(batch.position(b"no such key"), None);
}

#[test]
fn should_sort_and_dedup_keys() {
    check_batch(&[], &[], &[]);
    check_batch(&["a", "b"], &["a", "b"], &[0, 1]);
    check_batch(&["c", "b", "a"], &["a", "b", "c"], &[2, 1, 0]);
    check_batch(&["b", "a", "b", "a"], &["a", "b"], &[1, 0, 1, 0]);
}

#[test]
fn a_key_comes_after_its_prefixes() {
    check_batch(&["ab", "a", "", "b", "aa"], &["", "a", "aa", "ab", "b"], &[3, 1, 0, 4, 2]);
}

/// The filter answer of each SST: passes, rejects, or not loaded.
const P: Option<bool> = Some(true);
const R: Option<bool> = Some(false);
const N: Option<bool> = None;

fn filters(answer: Option<bool>) -> Filters<Answer> {
    match answer {
        None => Filters::NotLoaded,
        Some(pass) => {
            Filters::Loaded(vec![NamedFilter { name: "answer".to_string(), filter: Answer(pass) }])
        }
    }
}

fn ssts(answers: &[Option<bool>]) -> Vec<BatchSst<Answer>> {
    answers
        .iter()
        .map(|&answer| {
            let handle = SsTableHandle {
                id: 1,
                format_version: 2,
                info: SsTableInfo { first_entry: None, last_entry: None },
            };
            let mut sst = BatchSst::new(
                &SsTableView::identity(handle),
                Bytes::new(),
                SstTraceLevel::L0,
            );
            sst.filters = filters(answer);
            sst
        })
        .collect()
}

fn value(seq: u64) -> Vec<RowEntry> {
    vec![RowEntry::new_value(b"k", b"v", seq)]
}

fn merge(seq: u64) -> Vec<RowEntry> {
    vec![RowEntry::new_merge(b"k", b"+", seq)]
}

fn seqs(acc: &[RowEntry]) -> Vec<u64> {
    acc.iter().map(|entry| entry.seq).collect()
}

fn key_read() -> KeyRead {
    KeyRead::new(Bytes::from_static(b"k"))
}

/// A key whose candidates are the SSTs `0..count`, after `rounds` reads.
fn key_with_candidates(count: usize, rounds: u64, operand: bool) -> KeyRead {
    let mut key = key_read();
    for sst in 0..count {
        key.add_candidate(sst);
    }
    key.rounds = rounds;
    if operand {
        key.acc = merge(9);
    }
    key
}

fn check_pick(
    answers: &[Option<bool>],
    rounds: u64,
    lookahead: usize,
    operand: bool,
    expected: Pick,
) {
    let mut key = key_with_candidates(answers.len(), rounds, operand);
    let mut ssts = ssts(answers);

    assert_eq!(key.pick(lookahead, &mut ssts, &None), expected);
}

#[test]
fn should_pick_like_get() {
    // No candidates.
    check_pick(&[], 0, 4, false, Pick::Done);
    // The first read takes one.
    check_pick(&[P, P, P], 0, 4, false, Pick::Read(vec![0]));
    // A later read takes the lookahead.
    check_pick(&[P, P, P, P, P], 1, 4, false, Pick::Read(vec![0, 1, 2, 3]));
    // A lookahead of 0 acts as 1.
    check_pick(&[P, P], 1, 0, false, Pick::Read(vec![0]));
    // An operand removes the limit.
    check_pick(&[P, P, P], 0, 1, true, Pick::Read(vec![0, 1, 2]));
    // Filters that are not loaded are free.
    check_pick(&[N, N, P, P], 0, 4, false, Pick::Load(vec![0, 1]));
    check_pick(&[N, N, N], 0, 4, false, Pick::Load(vec![0, 1, 2]));
    // Rejects do not count.
    check_pick(&[P, R, P, P], 1, 2, false, Pick::Read(vec![0, 2]));
    check_pick(&[R, R], 0, 4, false, Pick::Done);
}

#[test]
fn filters_past_the_pick_make_no_difference() {
    for unknown in [N, P, R] {
        check_pick(&[R, P, unknown, unknown], 0, 4, false, Pick::Read(vec![1]));
        check_pick(&[P, R, P, unknown], 1, 2, false, Pick::Read(vec![0, 2]));
    }
}

fn loaded(sst: usize, pass: bool) -> ReadEvent<Answer> {
    let filter = NamedFilter { name: "answer".to_string(), filter: Answer(pass) };
    ReadEvent::Filters { sst, filters: vec![filter] }
}

#[test]
fn a_key_reads_as_soon_as_it_meets_nothing_to_load() {
    let keys = vec![key_with_candidates(3, 0, false), key_with_candidates(3, 0, false)];
    let mut pipeline = Pipeline::new(keys, ssts(&[N, N, P]), None, None, 4);
    pipeline.start();
    assert_eq!(pipeline.take_loads(), [0, 1]);
    assert_eq!(pipeline.keys[0].waiting, 2);

    // The newest SST passes the keys, so they do not wait for the other one.
    pipeline.on_event(loaded(0, true));
    let group = pipeline.next_group().unwrap();
    assert_eq!(group.sst, 0);
    assert_eq!(group.keys.len(), 2);
    assert!(pipeline.next_group().is_none());
    assert!(pipeline.keys.iter().all(|key| key.waiting == 0 && key.rounds == 1));

    // The late filters start no read and no load.
    pipeline.on_event(loaded(1, true));
    assert!(pipeline.next_group().is_none());
    assert!(pipeline.take_loads().is_empty());
}

#[test]
fn a_key_waits_on_when_an_sst_rejects_it() {
    let keys = vec![key_with_candidates(3, 0, false)];
    let mut pipeline = Pipeline::new(keys, ssts(&[N, N, P]), None, None, 4);
    pipeline.start();
    assert_eq!(pipeline.take_loads(), [0, 1]);
    pipeline.on_event(loaded(1, false));
    assert_eq!(pipeline.keys[0].waiting, 1);
    assert_eq!(pipeline.keys[0].candidate_ssts(), [0, 2]);
    assert!(pipeline.take_loads().is_empty());
    pipeline.on_event(loaded(0, false));
    assert_eq!(pipeline.next_group().unwrap().sst, 2);
}

/// How often the key asked each SST: a question that filters answered is a
/// probe, and one that they could not answer is a load.
fn count_loads(checks: &mut [u64; 3], pick: &Pick) {
    if let Pick::Load(loads) = pick {
        for &sst in loads {
            checks[sst] += 1;
        }
    }
}

#[test]
fn should_check_each_filter_one_time() {
    let mut key = key_with_candidates(3, 0, false);
    let mut checks = [0; 3];
    let mut ssts = ssts(&[N, P, R]);

    let pick = key.pick(4, &mut ssts, &None);
    count_loads(&mut checks, &pick);
    assert_eq!(pick, Pick::Load(vec![0]));
    // The filters of SST 0 arrive. SST 1 passed before, so the key does
    // not check it again.
    ssts[0].filters = filters(P);
    let pick = key.pick(4, &mut ssts, &None);
    count_loads(&mut checks, &pick);
    assert_eq!(pick, Pick::Read(vec![0]));
    key.send(&vec![0]);
    let pick = key.pick(4, &mut ssts, &None);
    count_loads(&mut checks, &pick);

    assert_eq!(pick, Pick::Read(vec![1]));
    for (check, sst) in checks.iter_mut().zip(&ssts) {
        *check += sst.probes;
    }
    assert_eq!(checks, [2, 1, 1]);
    assert_eq!([ssts[0].positives, ssts[1].positives, ssts[2].positives], [1, 1, 0]);
}

#[test]
fn an_sst_with_no_filter_counts_no_probe() {
    let mut key = key_with_candidates(1, 0, false);
    let mut ssts = ssts(&[N]);
    ssts[0].filters = Filters::Loaded(vec![]);

    assert_eq!(key.pick(4, &mut ssts, &None), Pick::Read(vec![0]));
    assert_eq!(ssts[0].probes, 0);
    assert!(!ssts[0].has_filters());
}

#[test]
fn a_key_reads_an_sst_one_time() {
    let mut key = key_with_candidates(6, 1, false);
    let mut ssts = ssts(&[P, P, R, P, P, P]);
    let mut read = Vec::new();
    while let Pick::Read(picked) = key.pick(2, &mut ssts, &None) {
        read.extend(picked);
    }

    assert_eq!(read, [0, 1, 3, 4, 5]);
    assert!(key.candidate_ssts().is_empty());
}

/// One arrival of a pick over the SSTs 0, 1, 2, newest first: the SST, its
/// entries, and the state after it: the seqs in `acc`, `done`, and `is_idle`.
type Arrival = (usize, Vec<RowEntry>, Vec<u64>, bool, bool);

fn check_arrivals(arrivals: Vec<Arrival>) {
    let mut key = key_read();
    key.send(&vec![0, 1, 2]);
    assert!(!key.is_idle());

    for (sst, entries, expected_acc, expected_done, expected_idle) in arrivals {
        key.arrive(sst, entries, Some(5));
        assert_eq!(seqs(&key.acc), expected_acc, "after sst {sst}");
        assert_eq!(key.done, expected_done, "after sst {sst}");
        assert_eq!(key.is_idle(), expected_idle, "after sst {sst}");
    }
}

#[test]
fn should_apply_arrivals_newest_first() {
    // In order.
    check_arrivals(vec![
        (0, vec![], vec![], false, false),
        (1, vec![], vec![], false, false),
        (2, value(1), vec![1], true, true),
    ]);
    // The read of SST 1 waits for SST 0. Both apply when SST 0 arrives.
    check_arrivals(vec![
        (1, value(2), vec![], false, false),
        (0, vec![], vec![2], true, true),
    ]);
    // The oldest SST arrives first. The middle one has nothing, and
    // releases it.
    check_arrivals(vec![
        (2, value(1), vec![], false, false),
        (0, vec![], vec![], false, false),
        (1, vec![], vec![1], true, true),
    ]);
    // A base value drops the rest of the pick.
    check_arrivals(vec![
        (0, value(3), vec![3], true, true),
        (1, value(2), vec![3], true, true),
    ]);
    // Operands keep the pick open. The base value closes it.
    check_arrivals(vec![
        (0, merge(3), vec![3], false, false),
        (1, merge(2), vec![3, 2], false, false),
        (2, value(1), vec![3, 2, 1], true, true),
    ]);
    // An entry above `max_seq` does not count.
    check_arrivals(vec![
        (0, value(9), vec![], false, false),
        (1, vec![], vec![], false, false),
        (2, value(1), vec![1], true, true),
    ]);
}

#[test]
fn the_order_of_arrivals_makes_no_difference() {
    let orders = [[0, 1, 2], [0, 2, 1], [1, 0, 2], [1, 2, 0], [2, 0, 1], [2, 1, 0]];
    for order in orders {
        let mut key = key_read();
        key.send(&vec![0, 1, 2]);
        for sst in order {
            let entries = match sst {
                0 => merge(4),
                1 => vec![],
                _ => value(1),
            };
            key.arrive(sst, entries, None);
        }
        assert_eq!(seqs(&key.acc), [4, 1]);
        assert!(key.done && key.is_idle());
    }
}

#[test]
fn a_write_resolves_a_key_unless_it_is_an_operand() {
    let mut key = key_read();
    key.push_write(RowEntry::new_merge(b"k", b"+", 7));
    assert!(!key.done && key.has_operand());
    key.push_write(RowEntry::new_tombstone(b"k", 6));
    assert!(key.done);
    assert_eq!(seqs(&key.wb), [7, 6]);
}

#[test]
fn an_append_stops_at_the_first_visible_base_value() {
    let mut key = key_read();
    key.append(
        vec![
            RowEntry::new_value(b"k", b"hidden", 9),
            RowEntry::new_merge(b"k", b"+", 5),
            RowEntry::new_tombstone(b"k", 4),
            RowEntry::new_value(b"k", b"shadowed", 3),
        ],
        Some(8),
    );
    assert_eq!(seqs(&key.acc), [5, 4]);
    assert!(key.done);
}
