use std::collections::BTreeMap;
use std::sync::Arc;

use bytes::Bytes;
use slatedb_mget::filter::{Filter, NamedFilter};
use slatedb_mget::manifest::{
    LsmTree, ManifestCore, Segment, SortedRun, SsTableHandle, SsTableInfo, SsTableView,
    SstTraceLevel,
};
use slatedb_mget::multi_get::batch::BatchKeys;
use slatedb_mget::multi_get::plan::{
    candidate_ssts, merge_join, Candidate, FilterState, Plan, PlanSst,
};
use slatedb_mget::sstable::PendingKey;

/// A filter that passes exactly its keys.
struct KeySet(Vec<&'static str>);

impl Filter for KeySet {
    type Context = ();

    fn might_match(&self, key: &Bytes, _context: &Option<()>) -> bool {
        self.0.iter().any(|k| k.as_bytes() == key.as_ref())
    }
}

fn bytes(s: &str) -> Bytes {
    Bytes::copy_from_slice(s.as_bytes())
}

/// A view with no SST behind it. The plan reads only the key range.
fn view(range: &(&str, &str)) -> SsTableView {
    SsTableView::identity(SsTableHandle {
        id: 1,
        format_version: 2,
        info: SsTableInfo { first_entry: Some(bytes(range.0)), last_entry: Some(bytes(range.1)) },
    })
}

fn run(id: u32, ranges: &[(&str, &str)]) -> SortedRun {
    SortedRun { id, views: ranges.iter().map(view).collect() }
}

fn tree(l0: &[(&str, &str)], runs: &[(u32, &[(&str, &str)])]) -> LsmTree {
    LsmTree {
        l0: l0.iter().map(view).collect(),
        compacted: runs.iter().map(|(id, ranges)| run(*id, ranges)).collect(),
    }
}

fn sorted_keys(keys: &[&str]) -> Vec<Bytes> {
    let input: Vec<&[u8]> = keys.iter().map(|key| key.as_bytes()).collect();
    BatchKeys::new(&input).keys
}

fn pending(keys: &[Bytes]) -> Vec<PendingKey> {
    let pending = keys.iter().cloned().enumerate();
    pending.map(|(idx, key)| PendingKey { idx, key }).collect()
}

/// `l0:a` is the L0 SST whose first key is `a`. `sr2:a` is in run 2.
fn label(sst: &PlanSst<KeySet>) -> String {
    let first = sst.view.sst.info.first_entry.clone().unwrap();
    let first = String::from_utf8(first.to_vec()).unwrap();
    match sst.level {
        SstTraceLevel::L0 => format!("l0:{first}"),
        SstTraceLevel::SortedRun(id) => format!("sr{id}:{first}"),
    }
}

fn labels(ssts: &[PlanSst<KeySet>]) -> Vec<(String, Vec<usize>)> {
    ssts.iter().map(|sst| (label(sst), sst.keys.iter().map(|pk| pk.idx).collect())).collect()
}

fn check_merge_join(ranges: &[(&str, &str)], keys: &[&str]) {
    let run = run(1, ranges);
    let keys = pending(&sorted_keys(keys));
    let mut expected: BTreeMap<usize, Vec<usize>> = BTreeMap::new();
    for pk in &keys {
        for vi in run.point_table_idx_covering_key(pk.key.as_ref()) {
            expected.entry(vi).or_default().push(pk.idx);
        }
    }

    let joined: BTreeMap<usize, Vec<usize>> = merge_join(&keys, &run)
        .into_iter()
        .enumerate()
        .filter(|(_, keys)| !keys.is_empty())
        .map(|(vi, keys)| (vi, keys.iter().map(|pk| pk.idx).collect()))
        .collect();

    assert_eq!(joined, expected);
}

#[test]
fn should_merge_join_like_a_binary_search_per_key() {
    check_merge_join(&[], &["a", "b"]);
    check_merge_join(&[("b", "d")], &["a"]);
    check_merge_join(&[("b", "d"), ("f", "h")], &["e", "z"]);
    check_merge_join(&[("b", "d"), ("f", "h")], &["b", "c", "d"]);
    // Two views share the border key `h`.
    check_merge_join(&[("b", "d"), ("f", "h"), ("h", "k")], &["g", "h", "j"]);
    check_merge_join(
        &[("b", "d"), ("f", "h"), ("h", "k")],
        &["a", "b", "c", "e", "h", "j", "z"],
    );
}

#[test]
fn a_border_key_covers_both_of_its_views() {
    let run = run(1, &[("b", "d"), ("f", "h"), ("h", "k")]);
    assert_eq!(run.point_table_idx_covering_key(b"a"), 0..0);
    assert_eq!(run.point_table_idx_covering_key(b"c"), 0..1);
    assert_eq!(run.point_table_idx_covering_key(b"h"), 1..3);
    assert_eq!(run.point_table_idx_covering_key(b"z"), 2..3);
}

fn check_listing(
    l0: &[(&str, &str)],
    runs: &[(u32, &[(&str, &str)])],
    keys: &[&str],
    resolved: &[bool],
    expected: Vec<(&str, Vec<usize>)>,
) {
    let core = ManifestCore { tree: tree(l0, runs), segments: Vec::new() };

    let ssts: Vec<PlanSst<KeySet>> =
        candidate_ssts(&core, &sorted_keys(keys), &resolved.to_vec());

    let expected: Vec<(String, Vec<usize>)> =
        expected.into_iter().map(|(label, keys)| (label.to_string(), keys)).collect();
    assert_eq!(labels(&ssts), expected);
    assert!(ssts.iter().all(|sst| sst.filters.is_none()));
}

#[test]
fn plan_should_list_candidate_ssts_newest_first() {
    let run_2: (u32, &[(&str, &str)]) = (2, &[("a", "f"), ("g", "z")]);
    let run_1: (u32, &[(&str, &str)]) = (1, &[("a", "z")]);

    check_listing(&[], &[], &["a"], &[false], vec![]);
    check_listing(
        &[("a", "c"), ("m", "p")],
        &[],
        &["b", "n", "z"],
        &[false; 3],
        vec![("l0:a", vec![0]), ("l0:m", vec![1])],
    );
    check_listing(
        &[("a", "z")],
        &[run_2, run_1],
        &["b", "h"],
        &[false; 2],
        vec![("l0:a", vec![0, 1]), ("sr2:a", vec![0]), ("sr2:g", vec![1]), ("sr1:a", vec![0, 1])],
    );
    check_listing(
        &[("a", "z")],
        &[run_2],
        &["b", "h"],
        &[true, false],
        vec![("l0:a", vec![1]), ("sr2:g", vec![1])],
    );
}

#[test]
fn should_plan_each_key_inside_its_segment() {
    let core = ManifestCore {
        // The default tree must not take part when segments are set.
        tree: tree(&[("a", "z")], &[]),
        segments: vec![
            Segment { prefix: bytes("a/"), tree: tree(&[("a/1", "a/9")], &[]) },
            Segment { prefix: bytes("b/"), tree: tree(&[], &[(7, &[("b/1", "b/9")])]) },
        ],
    };

    let keys = sorted_keys(&["a/5", "b/5", "c/5"]);
    let ssts: Vec<PlanSst<KeySet>> = candidate_ssts(&core, &keys, &vec![false; 3]);

    assert_eq!(
        labels(&ssts),
        [("l0:a/1".to_string(), vec![0]), ("sr7:b/1".to_string(), vec![1])]
    );
    let segments: Vec<&[u8]> = ssts.iter().map(|sst| sst.segment.as_ref()).collect();
    assert_eq!(segments, [b"a/", b"b/"]);
}

/// An SST of a plan: the keys in its cached filter (`None` for filters that
/// are not cached), and the indexes of its candidate keys.
type SstCase = (Option<Vec<&'static str>>, Vec<usize>);

fn check_plan(
    ssts: Vec<SstCase>,
    expected_ssts: usize,
    expected: Vec<Vec<(usize, FilterState)>>,
    expected_counts: (u64, u64),
) {
    let keys = sorted_keys(&["a", "b", "c"]);
    let ssts: Vec<PlanSst<KeySet>> = ssts
        .into_iter()
        .map(|(filter_keys, sst_keys)| PlanSst {
            view: view(&("a", "z")),
            segment: Bytes::new(),
            level: SstTraceLevel::L0,
            filters: filter_keys.map(|keys| {
                Arc::new(vec![NamedFilter { name: "set".to_string(), filter: KeySet(keys) }])
            }),
            keys: pending(&keys).into_iter().filter(|pk| sst_keys.contains(&pk.idx)).collect(),
        })
        .collect();

    let plan = Plan::new(ssts, keys.len(), &None);

    assert_eq!(plan.ssts.len(), expected_ssts);
    let expected: Vec<Vec<Candidate>> = expected
        .iter()
        .map(|candidates| {
            candidates.iter().map(|&(sst, state)| Candidate { sst, state }).collect()
        })
        .collect();
    assert_eq!(plan.candidates, expected);
    assert_eq!((plan.positives, plan.negatives), expected_counts);
}

#[test]
fn should_mark_candidates_with_filter_states() {
    let (positive, unknown) = (FilterState::Positive, FilterState::Unknown);

    // Filters that are not cached are unknown.
    check_plan(
        vec![(None, vec![0, 1])],
        1,
        vec![vec![(0, unknown)], vec![(0, unknown)], vec![]],
        (0, 0),
    );
    // A filter that passes is positive.
    check_plan(
        vec![(Some(vec!["a", "b"]), vec![0, 1])],
        1,
        vec![vec![(0, positive)], vec![(0, positive)], vec![]],
        (2, 0),
    );
    // A filter that rejects removes the candidate.
    check_plan(
        vec![(Some(vec!["a"]), vec![0, 1])],
        1,
        vec![vec![(0, positive)], vec![], vec![]],
        (1, 1),
    );
    // SST 0 leaves the plan, so the next SST gets its index.
    check_plan(
        vec![(Some(vec!["x"]), vec![0, 1]), (None, vec![1, 2])],
        1,
        vec![vec![], vec![(0, unknown)], vec![(0, unknown)]],
        (0, 2),
    );
    // Newest first per key.
    check_plan(
        vec![(None, vec![0]), (Some(vec!["a", "c"]), vec![0, 2]), (None, vec![2])],
        3,
        vec![
            vec![(0, unknown), (1, positive)],
            vec![],
            vec![(1, positive), (2, unknown)],
        ],
        (2, 0),
    );
}

#[test]
fn should_treat_an_sst_with_no_filter_as_positive() {
    let keys = sorted_keys(&["a"]);
    let sst: PlanSst<KeySet> = PlanSst {
        view: view(&("a", "z")),
        segment: Bytes::new(),
        level: SstTraceLevel::L0,
        filters: Some(Arc::new(Vec::new())),
        keys: pending(&keys),
    };

    let plan = Plan::new(vec![sst], 1, &None);

    let expected = Candidate { sst: 0, state: FilterState::Positive };
    assert_eq!(plan.candidates, [vec![expected]]);
    assert_eq!((plan.positives, plan.negatives), (0, 0));
}
