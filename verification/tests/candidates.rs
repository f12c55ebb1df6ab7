use bytes::Bytes;
use slatedb_mget::filter::{Filter, NamedFilter};
use slatedb_mget::manifest::{
    BytesRange, KeyBound, LsmTree, ManifestCore, Segment, SortedRun, SsTableHandle, SsTableInfo,
    SsTableView, SstTraceLevel,
};
use slatedb_mget::multi_get::batch::BatchKeys;
use slatedb_mget::multi_get::candidates::{candidate_ssts, BatchSst, Filters};
use slatedb_mget::multi_get::key::KeyRead;

/// A filter that passes exactly its keys.
struct KeySet(Vec<&'static str>);

impl Filter for KeySet {
    type Context = ();

    fn might_match(&self, key: &Bytes, _context: &Option<()>) -> bool {
        self.0.iter().any(|k| k.as_bytes() == key.as_ref())
    }
}

/// An SST that holds the keys `first..=last`. A clone sees only the keys
/// before `visible_end`.
#[derive(Clone, Copy)]
struct Sst {
    first: &'static str,
    last: &'static str,
    visible_end: Option<&'static str>,
}

fn sst(first: &'static str, last: &'static str) -> Sst {
    Sst { first, last, visible_end: None }
}

fn clone_of(sst: Sst, visible_end: &'static str) -> Sst {
    Sst { visible_end: Some(visible_end), ..sst }
}

fn bytes(s: &str) -> Bytes {
    Bytes::copy_from_slice(s.as_bytes())
}

/// A view with no SST behind it. The walk reads only the key range.
fn view(sst: &Sst) -> SsTableView {
    let handle = SsTableHandle {
        id: 1,
        format_version: 2,
        info: SsTableInfo {
            first_entry: Some(bytes(sst.first)),
            last_entry: Some(bytes(sst.last)),
        },
    };
    match sst.visible_end {
        None => SsTableView::identity(handle),
        Some(end) => SsTableView::new_projected(
            handle,
            Some(BytesRange { start: KeyBound::Unbounded, end: KeyBound::Excluded(bytes(end)) }),
        ),
    }
}

fn tree(l0: &[Sst], runs: &[(u32, Vec<Sst>)]) -> LsmTree {
    LsmTree {
        l0: l0.iter().map(view).collect(),
        compacted: runs
            .iter()
            .map(|(id, ssts)| SortedRun { id: *id, views: ssts.iter().map(view).collect() })
            .collect(),
    }
}

fn key_reads(keys: &[&str], done: &[bool]) -> Vec<KeyRead> {
    let input: Vec<&[u8]> = keys.iter().map(|key| key.as_bytes()).collect();
    let keys = BatchKeys::new(&input).keys.into_iter().zip(done);
    let reads = keys.map(|(key, &done)| {
        let mut read = KeyRead::new(key);
        read.done = done;
        read
    });
    reads.collect()
}

/// `l0:a` is the L0 SST whose first key is `a`. `sr2:a` is in run 2.
fn label(sst: &BatchSst<KeySet>) -> String {
    let first = sst.target.handle.info.first_entry.clone().unwrap();
    let first = String::from_utf8(first.to_vec()).unwrap();
    match sst.target.level {
        SstTraceLevel::L0 => format!("l0:{first}"),
        SstTraceLevel::SortedRun(id) => format!("sr{id}:{first}"),
    }
}

/// Each SST with the keys that have it as a candidate.
fn labels(ssts: &[BatchSst<KeySet>], keys: &[KeyRead]) -> Vec<(String, Vec<usize>)> {
    let keys_of = |sst: usize| -> Vec<usize> {
        let keys = keys.iter().enumerate();
        let keys = keys.filter(|(_, key)| key.candidate_ssts().contains(&sst));
        keys.map(|(u, _)| u).collect()
    };
    let ssts = ssts.iter().enumerate();
    ssts.map(|(sst, batch_sst)| (label(batch_sst), keys_of(sst))).collect()
}

fn check_listing(
    l0: &[Sst],
    runs: &[(u32, Vec<Sst>)],
    keys: &[&str],
    resolved: &[bool],
    expected: Vec<(&str, Vec<usize>)>,
) {
    let core = ManifestCore { tree: tree(l0, runs), segments: Vec::new() };
    let mut keys = key_reads(keys, resolved);

    let ssts: Vec<BatchSst<KeySet>> = candidate_ssts(&core, &mut keys);

    let expected: Vec<(String, Vec<usize>)> =
        expected.into_iter().map(|(label, keys)| (label.to_string(), keys)).collect();
    assert_eq!(labels(&ssts, &keys), expected);
    // The SSTs are in walk order, so each list is newest first.
    for key in &keys {
        assert!(key.candidate_ssts().is_sorted());
    }
    assert!(ssts.iter().all(|sst| matches!(sst.filters, Filters::NotLoaded)));
}

#[test]
fn should_list_candidate_ssts_newest_first() {
    let run_2 = (2, vec![sst("a", "f"), sst("g", "z")]);
    let run_1 = (1, vec![sst("a", "z")]);
    let run_3 = (3, vec![sst("b", "d"), sst("f", "h"), sst("h", "k")]);
    let run_4 = (4, vec![clone_of(sst("a", "z"), "h")]);

    check_listing(&[], &[], &["a"], &[false], vec![]);
    check_listing(
        &[sst("a", "c"), sst("m", "p")],
        &[],
        &["b", "n", "z"],
        &[false; 3],
        vec![("l0:a", vec![0]), ("l0:m", vec![1])],
    );
    check_listing(
        &[sst("a", "z")],
        &[run_2.clone(), run_1],
        &["b", "h"],
        &[false; 2],
        vec![("l0:a", vec![0, 1]), ("sr2:a", vec![0]), ("sr2:g", vec![1]), ("sr1:a", vec![0, 1])],
    );
    check_listing(
        &[sst("a", "z")],
        &[run_2],
        &["b", "h"],
        &[true, false],
        vec![("l0:a", vec![1]), ("sr2:g", vec![1])],
    );
    // Two views share the border key `h`, and the key reads both. `z` is
    // past the last key of the run, so it gets no view.
    check_listing(
        &[],
        &[run_3],
        &["a", "c", "h", "z"],
        &[false; 4],
        vec![("sr3:b", vec![1]), ("sr3:f", vec![2]), ("sr3:h", vec![2])],
    );
    // The clone holds `i`, but its view ends before `h`, so `get` skips it.
    check_listing(&[], &[run_4], &["c", "i"], &[false; 2], vec![("sr4:a", vec![0])]);
}

#[test]
fn an_sst_gets_its_number_from_the_first_key_that_asks() {
    let run = (1, vec![sst("a", "f"), sst("g", "k"), sst("k", "z")]);
    let core = ManifestCore { tree: tree(&[], &[run]), segments: Vec::new() };
    let mut keys: Vec<KeyRead> =
        ["k", "b", "h"].iter().map(|key| KeyRead::new(bytes(key))).collect();

    let ssts: Vec<BatchSst<KeySet>> = candidate_ssts(&core, &mut keys);

    let labels: Vec<String> = ssts.iter().map(label).collect();
    assert_eq!(labels, ["sr1:g", "sr1:k", "sr1:a"]);
    let candidates: Vec<Vec<usize>> = keys.iter().map(KeyRead::candidate_ssts).collect();
    assert_eq!(candidates, [vec![0, 1], vec![2], vec![0]]);
}

#[test]
fn each_sst_has_one_number() {
    let run = (1, vec![sst("a", "f"), sst("f", "k"), sst("k", "z")]);
    let core = ManifestCore { tree: tree(&[sst("a", "z")], &[run]), segments: Vec::new() };
    let mut keys = key_reads(&["b", "c", "f", "g", "k", "x"], &[false; 6]);
    let ssts: Vec<BatchSst<KeySet>> = candidate_ssts(&core, &mut keys);
    let labels: Vec<String> = ssts.iter().map(label).collect();
    assert_eq!(labels, ["l0:a", "sr1:a", "sr1:f", "sr1:k"]);
}

#[test]
fn should_list_each_key_inside_its_segment() {
    let core = ManifestCore {
        // The default tree must not take part when segments are set.
        tree: tree(&[sst("a", "z")], &[]),
        segments: vec![
            Segment { prefix: bytes("a/"), tree: tree(&[sst("a/1", "a/9")], &[]) },
            Segment { prefix: bytes("b/"), tree: tree(&[], &[(7, vec![sst("b/1", "b/9")])]) },
        ],
    };

    let mut keys = key_reads(&["a/5", "b/5", "c/5"], &[false; 3]);
    let ssts: Vec<BatchSst<KeySet>> = candidate_ssts(&core, &mut keys);

    assert_eq!(
        labels(&ssts, &keys),
        [("l0:a/1".to_string(), vec![0]), ("sr7:b/1".to_string(), vec![1])]
    );
    let segments: Vec<&[u8]> = ssts.iter().map(|sst| sst.target.segment.as_ref()).collect();
    assert_eq!(segments, [b"a/", b"b/"]);
}

#[test]
fn should_check_key_against_loaded_filters() {
    let cases: [(Option<Vec<&'static str>>, Option<bool>); 4] = [
        (None, None),
        (Some(vec![]), Some(true)),
        (Some(vec!["a", "b"]), Some(true)),
        (Some(vec!["b"]), Some(false)),
    ];
    for (filter_keys, expected) in cases {
        let mut sst: BatchSst<KeySet> =
            BatchSst::new(&view(&sst("a", "z")), Bytes::new(), SstTraceLevel::L0);
        sst.filters = match filter_keys {
            None => Filters::NotLoaded,
            Some(keys) if keys.is_empty() => Filters::Loaded(vec![]),
            Some(keys) => {
                Filters::Loaded(vec![NamedFilter { name: "set".to_string(), filter: KeySet(keys) }])
            }
        };

        assert_eq!(sst.might_hold(&bytes("a"), &None), expected);
    }
}
