//! Which SSTs can hold which keys of a batch.
//!
//! The walk reads only the manifest. The filters load later, when a key
//! reaches an SST (see [`super::key::KeyRead::pick`]).

use bytes::Bytes;
use std::collections::BTreeMap;
use std::sync::Arc;
use vstd::prelude::*;

use super::batch::sorted_keys;
use super::key::{Candidate, KeyRead, KeyState};
use crate::filter::{
    all_filters_might_match,
    all_pass,
    law_a_key_passes_when_each_filter_passes_it,
    Filter,
    NamedFilter,
};
use crate::manifest::{
    law_covering_views_hold_the_key,
    lemma_tree_of_is_valid,
    view_holds_key,
    HandleView,
    LsmTree,
    ManifestCore,
    SortedRun,
    SsTableHandle,
    SsTableView,
    SstTraceLevel,
    TreeRef,
};
use crate::octets::{
    as_slice,
    content,
    lemma_lex_antisymmetric,
    lemma_lex_transitive,
    lex_le,
    lex_lt,
    share,
};
use crate::partitions::{ascending, covers, Partitioned};
use crate::sstable::SsTableIndex;

verus! {

/// The filters of one SST of the batch.
pub enum Filters<F> {
    NotLoaded,
    /// A load is in flight. The keys that want the filters wait for it.
    Loading,
    /// Empty when the SST has no filter.
    Loaded(Vec<NamedFilter<F>>),
}

/// What a read of one SST needs to know about it.
pub struct SstTarget {
    pub handle: SsTableHandle,
    pub segment: Bytes,
    pub level: SstTraceLevel,
}

/// What a [`SstTarget`] says.
pub struct TargetView {
    pub handle: HandleView,
    pub segment: Seq<u8>,
    pub level: SstTraceLevel,
}

impl View for SstTarget {
    type V = TargetView;

    open spec fn view(&self) -> TargetView {
        TargetView { handle: self.handle@, segment: content(self.segment), level: self.level }
    }
}

impl Clone for SstTarget {
    fn clone(&self) -> (copy: Self)
        ensures
            copy@ == self@,
    {
        SstTarget { handle: self.handle.clone(), segment: share(&self.segment), level: self.level }
    }
}

/// What [`Filters`] say.
pub enum FiltersView<F> {
    NotLoaded,
    Loading,
    Loaded(Seq<NamedFilter<F>>),
}

/// One SST that can hold keys of the batch.
pub struct BatchSst<F> {
    pub target: SstTarget,
    pub filters: Filters<F>,
    /// The index after the first read of the batch. It saves a load when the
    /// store has no cache.
    pub index: Option<Arc<SsTableIndex>>,
    /// The keys that the filters checked, and the keys that they passed.
    pub probes: u64,
    pub positives: u64,
}

/// What a [`BatchSst`] says.
#[verifier::ext_equal]
pub struct SstState<F> {
    pub target: TargetView,
    pub filters: FiltersView<F>,
    pub index: Option<Arc<SsTableIndex>>,
    pub probes: u64,
    pub positives: u64,
}

impl<F> View for BatchSst<F> {
    type V = SstState<F>;

    open spec fn view(&self) -> SstState<F> {
        SstState {
            target: self.target@,
            filters: match self.filters {
                Filters::NotLoaded => FiltersView::NotLoaded,
                Filters::Loading => FiltersView::Loading,
                Filters::Loaded(filters) => FiltersView::Loaded(filters@),
            },
            index: self.index,
            probes: self.probes,
            positives: self.positives,
        }
    }
}

/// The states of the SSTs of a batch.
pub open spec fn sst_states<F>(ssts: Seq<BatchSst<F>>) -> Seq<SstState<F>> {
    ssts.map_values(|sst: BatchSst<F>| sst@)
}

impl<F: Filter> SstState<F> {
    /// What the filters say about `key`, or `None` when they are not loaded.
    pub open spec fn answer(self, key: Seq<u8>, context: Option<F::Context>) -> Option<bool> {
        match self.filters {
            FiltersView::Loaded(filters) => Some(all_pass(filters, key, context)),
            _ => None,
        }
    }

    /// The SST has loaded filters.
    pub open spec fn filtered(self) -> bool {
        self.filters matches FiltersView::Loaded(filters) && filters.len() > 0
    }

    /// The SST after `times` checks of a key with the answer `answer`. Only
    /// filters count a check.
    pub open spec fn probed(self, times: int, answer: Option<bool>) -> Self {
        if self.filtered() {
            SstState {
                probes: (self.probes + times) as u64,
                positives: if answer == Some(true) {
                    (self.positives + times) as u64
                } else {
                    self.positives
                },
                ..self
            }
        } else {
            self
        }
    }
}

impl<F: Filter> BatchSst<F> {
    pub fn new(view: &SsTableView, segment: Bytes, level: SstTraceLevel) -> (sst: Self)
        ensures
            sst@ == (SstState {
                target: TargetView { handle: view.sst@, segment: content(segment), level },
                filters: FiltersView::<F>::NotLoaded,
                index: None,
                probes: 0,
                positives: 0,
            }),
    {
        BatchSst {
            target: SstTarget { handle: view.sst.clone(), segment, level },
            filters: Filters::NotLoaded,
            index: None,
            probes: 0,
            positives: 0,
        }
    }

    /// Whether the filters pass `key`, or `None` when they are not loaded.
    /// Counts the check.
    pub fn might_hold(&mut self, key: &Bytes, context: &Option<F::Context>) -> (pass: Option<bool>)
        requires
            old(self).probes < u64::MAX,
            old(self).positives < u64::MAX,
        ensures
            pass == old(self)@.answer(content(*key), *context),
            final(self)@ == old(self)@.probed(1, pass),
    {
        let pass = match &self.filters {
            Filters::Loaded(filters) => {
                if filters.len() == 0 {
                    return Some(true);
                }
                all_filters_might_match(filters, key, context)
            },
            _ => {
                return None;
            },
        };
        self.probes = self.probes + 1;
        if pass {
            self.positives = self.positives + 1;
        }
        Some(pass)
    }

    /// Ask for the filters. The result says that a load must start: none is
    /// in flight, and the filters are not there.
    pub fn start_load(&mut self) -> (load: bool)
        ensures
            load == (old(self)@.filters is NotLoaded),
            final(self)@ == (SstState {
                filters: match old(self)@.filters {
                    FiltersView::NotLoaded => FiltersView::Loading,
                    other => other,
                },
                ..old(self)@
            }),
    {
        let load = match &self.filters {
            Filters::NotLoaded => true,
            _ => false,
        };
        if load {
            self.filters = Filters::Loading;
        }
        load
    }

    /// Take the filters of the SST.
    pub fn load(&mut self, loaded: Vec<NamedFilter<F>>)
        ensures
            final(self)@ == (SstState {
                filters: FiltersView::Loaded(loaded@),
                ..old(self)@
            }),
    {
        self.filters = Filters::Loaded(loaded);
    }

    /// The SST has loaded filters. A key that they pass and that the SST
    /// does not hold is a false positive.
    pub fn has_filters(&self) -> (filtered: bool)
        ensures
            filtered == self@.filtered(),
    {
        match &self.filters {
            Filters::Loaded(filters) => filters.len() > 0,
            _ => false,
        }
    }
}

// ---------------------------------------------------------------------------
// The groups of the open keys
// ---------------------------------------------------------------------------

/// The states of the keys of a batch.
pub open spec fn states(keys: Seq<KeyRead>) -> Seq<KeyState> {
    keys.map_values(|key: KeyRead| key@)
}

/// The open keys of one tree.
pub struct Group {
    pub tree: TreeRef,
    /// Indices into the keys of the batch, in order.
    pub keys: Vec<usize>,
}

/// What a [`Group`] says.
#[verifier::ext_equal]
pub struct GroupView {
    pub tree: TreeRef,
    pub keys: Seq<usize>,
}

impl View for Group {
    type V = GroupView;

    open spec fn view(&self) -> GroupView {
        GroupView { tree: self.tree, keys: self.keys@ }
    }
}

/// What a list of groups says.
pub open spec fn group_views(groups: Seq<Group>) -> Seq<GroupView> {
    groups.map_values(|group: Group| group@)
}

/// The group of `tree`, or the number of groups when there is none.
pub open spec fn group_of(groups: Seq<GroupView>, tree: TreeRef) -> nat
    decreases groups.len(),
{
    if groups.len() == 0 || groups[0].tree == tree {
        0
    } else {
        1 + group_of(groups.skip(1), tree)
    }
}

/// The groups after key `u` of `tree` joined its group.
pub open spec fn joined_group(groups: Seq<GroupView>, tree: TreeRef, u: usize) -> Seq<GroupView> {
    let g = group_of(groups, tree) as int;
    if g < groups.len() {
        groups.update(g, GroupView { tree, keys: groups[g].keys.push(u) })
    } else {
        groups.push(GroupView { tree, keys: seq![u] })
    }
}

/// The open keys by the tree that covers them, in the order of their first
/// keys. A key that no tree covers has no group: no SST holds it.
pub open spec fn grouped(core: ManifestCore, keys: Seq<KeyState>) -> Seq<GroupView>
    decreases keys.len(),
{
    if keys.len() == 0 {
        Seq::empty()
    } else {
        let before = grouped(core, keys.drop_last());
        match core.tree_of(keys.last().key) {
            Some(tree) if !keys.last().done => joined_group(
                before,
                tree,
                (keys.len() - 1) as usize,
            ),
            _ => before,
        }
    }
}

/// The group of a tree is the first one with that tree.
proof fn lemma_group_of_finds(groups: Seq<GroupView>, tree: TreeRef)
    ensures
        group_of(groups, tree) <= groups.len(),
        group_of(groups, tree) < groups.len() ==> groups[group_of(groups, tree) as int].tree
            == tree,
        forall|g: int| 0 <= g < group_of(groups, tree) ==> (#[trigger] groups[g]).tree != tree,
    decreases groups.len(),
{
    if groups.len() > 0 && groups[0].tree != tree {
        lemma_group_of_finds(groups.skip(1), tree);
        assert forall|g: int| 0 <= g < group_of(groups, tree) implies (#[trigger] groups[g]).tree
            != tree by {
            if g > 0 {
                assert(groups[g] == groups.skip(1)[g - 1]);
            }
        }
    }
}

/// Groups in order: each tree has one group, the keys of a group are open
/// keys of its tree, and they ascend.
pub open spec fn in_groups(
    groups: Seq<GroupView>,
    core: ManifestCore,
    keys: Seq<KeyState>,
) -> bool {
    &&& forall|g: int, h: int|
        0 <= g < h < groups.len() ==> (#[trigger] groups[g]).tree != (#[trigger] groups[h]).tree
    &&& forall|g: int|
        0 <= g < groups.len() ==> core.valid_ref((#[trigger] groups[g]).tree)
            && groups[g].keys.len() > 0
    &&& forall|g: int, i: int|
        0 <= g < groups.len() && 0 <= i < groups[g].keys.len() ==> {
            let u = #[trigger] groups[g].keys[i] as int;
            u < keys.len() && !keys[u].done && core.tree_of(keys[u].key) == Some(groups[g].tree)
        }
    &&& forall|g: int, i: int, j: int|
        0 <= g < groups.len() && 0 <= i < j < groups[g].keys.len() ==> (
        #[trigger] groups[g].keys[i]) < (#[trigger] groups[g].keys[j])
}

/// Each open key that a tree covers is in one group, and in no other.
pub proof fn law_each_open_key_has_one_group(core: ManifestCore, keys: Seq<KeyState>)
    requires
        keys.len() <= usize::MAX,
    ensures
        in_groups(grouped(core, keys), core, keys),
        forall|u: int|
            0 <= u < keys.len() && !(#[trigger] keys[u]).done && core.tree_of(keys[u].key) is Some
                ==> exists|g: int|
                0 <= g < grouped(core, keys).len() && (#[trigger] grouped(
                    core,
                    keys,
                )[g]).keys.contains(u as usize),
    decreases keys.len(),
{
    if keys.len() > 0 {
        let front = keys.drop_last();
        let before = grouped(core, front);
        let after = grouped(core, keys);
        let last = keys.last();
        let n = (keys.len() - 1) as usize;
        law_each_open_key_has_one_group(core, front);
        match core.tree_of(last.key) {
            Some(tree) if !last.done => {
                lemma_tree_of_is_valid(core, last.key);
                lemma_group_of_finds(before, tree);
                let at = group_of(before, tree) as int;
                assert(after[at].keys.last() == n);
                assert forall|g: int, h: int| 0 <= g < h < after.len() implies (
                #[trigger] after[g]).tree != (#[trigger] after[h]).tree by {}
                assert forall|g: int, i: int|
                    0 <= g < after.len() && 0 <= i < after[g].keys.len() implies {
                    let u = #[trigger] after[g].keys[i] as int;
                    u < keys.len() && !keys[u].done && core.tree_of(keys[u].key) == Some(
                        after[g].tree,
                    )
                } by {
                    if g < before.len() && i < before[g].keys.len() {
                        assert(after[g].keys[i] == before[g].keys[i]);
                        let u = before[g].keys[i] as int;
                        assert(front[u] == keys[u]);
                    }
                }
                assert forall|g: int, i: int, j: int|
                    0 <= g < after.len() && 0 <= i < j < after[g].keys.len() implies (
                #[trigger] after[g].keys[i]) < (#[trigger] after[g].keys[j]) by {
                    if g < before.len() && i < before[g].keys.len() {
                        assert(after[g].keys[i] == before[g].keys[i]);
                        assert(before[g].keys[i] < front.len());
                        if j < before[g].keys.len() {
                            assert(after[g].keys[j] == before[g].keys[j]);
                        }
                    }
                }
                assert forall|u: int|
                    0 <= u < keys.len() && !(#[trigger] keys[u]).done && core.tree_of(keys[u].key)
                        is Some implies exists|g: int|
                    0 <= g < after.len() && (#[trigger] after[g]).keys.contains(u as usize) by {
                    if u < n {
                        assert(front[u] == keys[u]);
                        let g = choose|g: int|
                            0 <= g < before.len() && (#[trigger] before[g]).keys.contains(
                                u as usize,
                            );
                        let i = choose|i: int|
                            0 <= i < before[g].keys.len() && before[g].keys[i] == u as usize;
                        assert(after[g].keys[i] == u as usize);
                        assert(after[g].keys.contains(u as usize));
                    } else {
                        assert(after[at].keys.contains(u as usize));
                    }
                }
            },
            _ => {
                assert forall|g: int, i: int|
                    0 <= g < after.len() && 0 <= i < after[g].keys.len() implies {
                    let u = #[trigger] after[g].keys[i] as int;
                    u < keys.len() && !keys[u].done && core.tree_of(keys[u].key) == Some(
                        after[g].tree,
                    )
                } by {
                    let u = before[g].keys[i] as int;
                    assert(front[u] == keys[u]);
                }
                assert forall|u: int|
                    0 <= u < keys.len() && !(#[trigger] keys[u]).done && core.tree_of(keys[u].key)
                        is Some implies exists|g: int|
                    0 <= g < after.len() && (#[trigger] after[g]).keys.contains(u as usize) by {
                    assert(front[u] == keys[u]);
                }
            },
        }
    }
}

/// Add key `u` to the group of its tree.
fn join_group(groups: &mut Vec<Group>, tree: TreeRef, u: usize)
    requires
        forall|g: int, h: int|
            0 <= g < h < old(groups)@.len() ==> (#[trigger] old(groups)@[g]).tree != (
            #[trigger] old(groups)@[h]).tree,
    ensures
        group_views(final(groups)@) == joined_group(group_views(old(groups)@), tree, u),
{
    let ghost before = group_views(groups@);
    // Neighbours in key order mostly share a tree, so the search starts at
    // the last group.
    let mut g: usize = groups.len();
    proof {
        lemma_group_of_finds(before, tree);
    }
    while g > 0
        invariant
            before == group_views(groups@),
            before == group_views(old(groups)@),
            g <= groups.len(),
            forall|h: int| g <= h < before.len() ==> (#[trigger] before[h]).tree != tree,
            group_of(before, tree) < before.len() ==> before[group_of(before, tree) as int].tree
                == tree,
            group_of(before, tree) <= before.len(),
            forall|h: int| 0 <= h < group_of(before, tree) ==> (#[trigger] before[h]).tree != tree,
            forall|g: int, h: int|
                0 <= g < h < groups@.len() ==> (#[trigger] groups@[g]).tree != (
                #[trigger] groups@[h]).tree,
        decreases g,
    {
        g = g - 1;
        assert(before[g as int] == groups@[g as int]@);
        if groups[g].tree == tree {
            proof {
                let at = group_of(before, tree) as int;
                if at < g {
                    assert(groups@[at]@ == before[at]);
                    assert(groups@[at].tree != groups@[g as int].tree);
                }
                assert(at == g);
            }
            let ghost joined = before[g as int].keys.push(u);
            groups[g].keys.push(u);
            assert(group_views(groups@) =~= before.update(
                g as int,
                GroupView { tree, keys: joined },
            ));
            return;
        }
    }
    let mut members: Vec<usize> = Vec::new();
    members.push(u);
    assert(members@ =~= seq![u]);
    groups.push(Group { tree, keys: members });
    assert(group_views(groups@) =~= before.push(GroupView { tree, keys: seq![u] }));
}

/// Group the open keys by the tree that covers them. Trees cover disjoint
/// keys, so the order of the groups has no effect on a key.
pub fn group_by_segment(core: &ManifestCore, keys: &Vec<KeyRead>) -> (groups: Vec<Group>)
    ensures
        group_views(groups@) == grouped(*core, states(keys@)),
{
    let mut groups: Vec<Group> = Vec::new();
    assert(group_views(groups@) =~= Seq::<GroupView>::empty());
    assert(states(keys@).take(0) =~= Seq::<KeyState>::empty());
    for u in 0..keys.len()
        invariant
            group_views(groups@) == grouped(*core, states(keys@).take(u as int)),
    {
        let ghost all = states(keys@);
        let ghost before = group_views(groups@);
        proof {
            assert(all.take(u + 1).drop_last() =~= all.take(u as int));
            assert(all.take(u + 1).last() == keys@[u as int]@);
            law_each_open_key_has_one_group(*core, all.take(u as int));
            assert forall|g: int, h: int| 0 <= g < h < groups@.len() implies (
            #[trigger] groups@[g]).tree != (#[trigger] groups@[h]).tree by {
                assert(before[g].tree != before[h].tree);
            }
        }
        if !keys[u].done {
            if let Some(tree) = core.select_tree(as_slice(&keys[u].key)) {
                join_group(&mut groups, tree, u);
            }
        }
    }
    assert(states(keys@).take(keys@.len() as int) =~= states(keys@));
    groups
}

// ---------------------------------------------------------------------------
// The candidates of the open keys
// ---------------------------------------------------------------------------

/// One SST of a tree, with its place in the tree.
pub struct LeveledView {
    pub view: SsTableView,
    pub level: SstTraceLevel,
    /// In a sorted run, the start keys of the run and the place of the view.
    pub place: Option<(Seq<Seq<u8>>, int)>,
}

impl LeveledView {
    /// The read target of the SST, in the tree with the key prefix `segment`.
    pub open spec fn target(self, segment: Seq<u8>) -> TargetView {
        TargetView { handle: self.view.sst@, segment, level: self.level }
    }

    /// A point read of `key` looks at the SST: the SST can hold the key, and
    /// in a sorted run the start keys do not rule it out.
    pub open spec fn can_hold(self, key: Seq<u8>) -> bool {
        &&& self.view.holds(key)
        &&& self.place matches Some((starts, i)) ==> covers(starts, i, key)
    }
}

/// The views of one sorted run.
pub open spec fn views_of_run(run: SortedRun) -> Seq<LeveledView> {
    Seq::new(
        run.views@.len(),
        |i: int|
            LeveledView {
                view: run.views@[i],
                level: SstTraceLevel::SortedRun(run.id),
                place: Some((run.starts(), i)),
            },
    )
}

/// The layers of a tree, newest first: each L0 SST alone, then the sorted
/// runs.
pub open spec fn tree_layers(tree: LsmTree) -> Seq<Seq<LeveledView>> {
    tree.l0@.map_values(
        |view: SsTableView| seq![LeveledView { view, level: SstTraceLevel::L0, place: None }],
    ) + tree.compacted@.map_values(|run: SortedRun| views_of_run(run))
}

/// The views of some layers, one layer after the other.
pub open spec fn layer_views(layers: Seq<Seq<LeveledView>>) -> Seq<LeveledView>
    decreases layers.len(),
{
    if layers.len() == 0 {
        Seq::empty()
    } else {
        layer_views(layers.drop_last()) + layers.last()
    }
}

/// The views of a tree, newest first: the L0 SSTs, then the sorted runs.
pub open spec fn tree_views(tree: LsmTree) -> Seq<LeveledView> {
    layer_views(tree_layers(tree))
}

/// The SSTs of some views that can hold `key`, in their order.
pub open spec fn targets_in(
    views: Seq<LeveledView>,
    key: Seq<u8>,
    segment: Seq<u8>,
) -> Seq<TargetView> {
    views.filter(|v: LeveledView| v.can_hold(key)).map_values(
        |v: LeveledView| v.target(segment),
    )
}

/// The SSTs that a point read of `key` walks, newest first: the views of its
/// tree that can hold the key.
pub open spec fn key_targets(core: ManifestCore, key: Seq<u8>) -> Seq<TargetView> {
    match core.tree_of(key) {
        Some(tree) => targets_in(
            tree_views(core.tree_at(tree)),
            key,
            core.prefix_at(tree),
        ),
        None => Seq::empty(),
    }
}

/// The names of the keys of a batch.
pub open spec fn names_of(keys: Seq<KeyState>) -> Seq<Seq<u8>> {
    keys.map_values(|key: KeyState| key.key)
}

/// The places of the first `n` views of a layer that can hold `key`.
pub open spec fn places(layer: Seq<LeveledView>, key: Seq<u8>, n: nat) -> Seq<int>
    decreases n,
{
    if n == 0 {
        Seq::empty()
    } else if layer[n - 1].can_hold(key) {
        places(layer, key, (n - 1) as nat).push(n - 1)
    } else {
        places(layer, key, (n - 1) as nat)
    }
}

/// The places in the order in which they were asked for, after some more of
/// them were.
pub open spec fn with_places(order: Seq<int>, asked: Seq<int>) -> Seq<int>
    decreases asked.len(),
{
    if asked.len() == 0 {
        order
    } else {
        let before = with_places(order, asked.drop_last());
        if before.contains(asked.last()) {
            before
        } else {
            before.push(asked.last())
        }
    }
}

/// The places of a layer in the order in which the keys of a group first ask
/// for them. A key asks for the views that can hold it, in the order of the
/// layer.
pub open spec fn touch_order(
    layer: Seq<LeveledView>,
    names: Seq<Seq<u8>>,
    group: Seq<usize>,
) -> Seq<int>
    decreases group.len(),
{
    if group.len() == 0 {
        Seq::empty()
    } else {
        with_places(
            touch_order(layer, names, group.drop_last()),
            places(layer, names[group.last() as int], layer.len()),
        )
    }
}

/// The candidates at some places, when the places of `order` have the numbers
/// from `base` on.
pub open spec fn candidates_at(at: Seq<int>, order: Seq<int>, base: nat) -> Seq<Candidate> {
    at.map_values(
        |i: int| Candidate { sst: (base + order.index_of(i)) as usize, passed: false },
    )
}

/// The candidates of key `u` in one layer, in the order of the layer. The
/// views that a key of the group asked for have the numbers from `base` on.
pub open spec fn numbers(
    layer: Seq<LeveledView>,
    names: Seq<Seq<u8>>,
    group: Seq<usize>,
    u: int,
    base: nat,
) -> Seq<Candidate> {
    if group.contains(u as usize) {
        candidates_at(
            places(layer, names[u], layer.len()),
            touch_order(layer, names, group),
            base,
        )
    } else {
        Seq::empty()
    }
}

/// The views that can hold a key of the group, in the order of their numbers.
pub open spec fn touched_views(
    layers: Seq<Seq<LeveledView>>,
    names: Seq<Seq<u8>>,
    group: Seq<usize>,
) -> Seq<LeveledView>
    decreases layers.len(),
{
    if layers.len() == 0 {
        Seq::empty()
    } else {
        let last = layers.last();
        touched_views(layers.drop_last(), names, group) + touch_order(
            last,
            names,
            group,
        ).map_values(|i: int| last[i])
    }
}

/// The candidates of key `u` of a group, newest first. The touched views of
/// the group have the numbers from `base` on.
pub open spec fn layer_numbers(
    layers: Seq<Seq<LeveledView>>,
    names: Seq<Seq<u8>>,
    group: Seq<usize>,
    u: int,
    base: nat,
) -> Seq<Candidate>
    decreases layers.len(),
{
    if layers.len() == 0 {
        Seq::empty()
    } else {
        let front = layers.drop_last();
        layer_numbers(front, names, group, u, base) + numbers(
            layers.last(),
            names,
            group,
            u,
            base + touched_views(front, names, group).len(),
        )
    }
}

/// The SSTs of the batch: group by group, the views that can hold a key of
/// the group.
pub open spec fn listed_ssts(
    core: ManifestCore,
    names: Seq<Seq<u8>>,
    groups: Seq<GroupView>,
) -> Seq<TargetView>
    decreases groups.len(),
{
    if groups.len() == 0 {
        Seq::empty()
    } else {
        let last = groups.last();
        listed_ssts(core, names, groups.drop_last()) + touched_views(
            tree_layers(core.tree_at(last.tree)),
            names,
            last.keys,
        ).map_values(|v: LeveledView| v.target(core.prefix_at(last.tree)))
    }
}

/// The candidates of key `u` among the SSTs of the batch.
pub open spec fn listed_candidates(
    core: ManifestCore,
    names: Seq<Seq<u8>>,
    groups: Seq<GroupView>,
    u: int,
) -> Seq<Candidate>
    decreases groups.len(),
{
    if groups.len() == 0 {
        Seq::empty()
    } else {
        let front = groups.drop_last();
        let last = groups.last();
        listed_candidates(core, names, front, u) + layer_numbers(
            tree_layers(core.tree_at(last.tree)),
            names,
            last.keys,
            u,
            listed_ssts(core, names, front).len(),
        )
    }
}

/// The targets of the SSTs of a batch.
pub open spec fn targets<F>(ssts: Seq<BatchSst<F>>) -> Seq<TargetView> {
    ssts.map_values(|sst: BatchSst<F>| sst@.target)
}

/// No SST was read and no filter was loaded.
pub open spec fn fresh<F>(ssts: Seq<BatchSst<F>>) -> bool {
    forall|s: int|
        0 <= s < ssts.len() ==> {
            let sst = (#[trigger] ssts[s])@;
            sst.filters is NotLoaded && sst.index is None && sst.probes == 0 && sst.positives == 0
        }
}

/// The keys of a group ascend and are keys of the batch.
spec fn group_ordered(group: Seq<usize>, keys: nat) -> bool {
    &&& forall|i: int| 0 <= i < group.len() ==> (#[trigger] group[i]) < keys
    &&& forall|i: int, j: int|
        0 <= i < j < group.len() ==> (#[trigger] group[i]) < (#[trigger] group[j])
}

/// The places of a layer ascend, and they are those of the views that can
/// hold the key.
proof fn lemma_places(layer: Seq<LeveledView>, key: Seq<u8>, n: nat)
    requires
        n <= layer.len(),
    ensures
        forall|k: int|
            0 <= k < places(layer, key, n).len() ==> 0 <= (#[trigger] places(layer, key, n)[k]) < n
                && layer[places(layer, key, n)[k]].can_hold(key),
        forall|j: int, k: int|
            0 <= j < k < places(layer, key, n).len() ==> (#[trigger] places(layer, key, n)[j]) < (
            #[trigger] places(layer, key, n)[k]),
        forall|i: int|
            0 <= i < n && (#[trigger] layer[i]).can_hold(key) ==> places(layer, key, n).contains(i),
    decreases n,
{
    if n > 0 {
        let m = (n - 1) as nat;
        lemma_places(layer, key, m);
        let before = places(layer, key, m);
        let after = places(layer, key, n);
        assert forall|i: int| 0 <= i < n && (#[trigger] layer[i]).can_hold(key) implies after.contains(
            i,
        ) by {
            if i < m {
                assert(before.contains(i));
                let k = choose|k: int| 0 <= k < before.len() && before[k] == i;
                assert(after[k] == i);
            } else {
                assert(after[after.len() - 1] == i);
            }
        }
    }
}

/// Views that cannot hold the key have no place.
proof fn lemma_no_places(layer: Seq<LeveledView>, key: Seq<u8>, from: nat, to: nat)
    requires
        from <= to <= layer.len(),
        forall|i: int| from <= i < to ==> !(#[trigger] layer[i]).can_hold(key),
    ensures
        places(layer, key, to) == places(layer, key, from),
    decreases to,
{
    if from < to {
        lemma_no_places(layer, key, from, (to - 1) as nat);
    }
}

/// The order stays as it was, and each new place comes after it, one time.
proof fn lemma_with_places(order: Seq<int>, asked: Seq<int>)
    requires
        order.no_duplicates(),
    ensures
        with_places(order, asked).no_duplicates(),
        order.len() <= with_places(order, asked).len(),
        forall|i: int|
            0 <= i < order.len() ==> #[trigger] with_places(order, asked)[i] == order[i],
        forall|x: int| #[trigger]
            with_places(order, asked).contains(x) <==> order.contains(x) || asked.contains(x),
    decreases asked.len(),
{
    if asked.len() > 0 {
        let front = asked.drop_last();
        let last = asked.last();
        lemma_with_places(order, front);
        let before = with_places(order, front);
        let after = with_places(order, asked);
        assert(asked =~= front.push(last));
        assert forall|x: int| #[trigger]
            after.contains(x) <==> order.contains(x) || asked.contains(x) by {
            if after.contains(x) {
                let i = choose|i: int| 0 <= i < after.len() && after[i] == x;
                if i < before.len() {
                    assert(before[i] == x);
                    assert(before.contains(x));
                    if front.contains(x) {
                        let k = choose|k: int| 0 <= k < front.len() && front[k] == x;
                        assert(asked[k] == x);
                    }
                } else {
                    assert(asked[asked.len() - 1] == x);
                }
            }
            if order.contains(x) || asked.contains(x) {
                if asked.contains(x) && x != last {
                    let k = choose|k: int| 0 <= k < asked.len() && asked[k] == x;
                    assert(front[k] == x);
                }
                if x != last || before.contains(x) {
                    assert(before.contains(x));
                    let i = choose|i: int| 0 <= i < before.len() && before[i] == x;
                    assert(after[i] == x);
                } else {
                    assert(after[after.len() - 1] == x);
                }
            }
        }
    } else {
        assert forall|x: int| !asked.contains(x) by {}
    }
}

/// A place keeps its number when the order grows.
proof fn lemma_index_stays(order: Seq<int>, after: Seq<int>, x: int)
    requires
        after.no_duplicates(),
        order.len() <= after.len(),
        forall|i: int| 0 <= i < order.len() ==> #[trigger] after[i] == order[i],
        order.contains(x),
    ensures
        after.index_of(x) == order.index_of(x),
        0 <= order.index_of(x) < order.len(),
        order[order.index_of(x)] == x,
{
    let i = order.index_of(x);
    assert(0 <= i < order.len() && order[i] == x);
    assert(after[i] == x);
    assert(after.contains(x));
    let j = after.index_of(x);
    assert(0 <= j < after.len() && after[j] == x);
}

/// The order of a layer: no place comes twice, each was asked for by a key of
/// the group, and each key of the group got what it asked for.
proof fn lemma_touch_order(layer: Seq<LeveledView>, names: Seq<Seq<u8>>, group: Seq<usize>)
    ensures
        touch_order(layer, names, group).no_duplicates(),
        forall|k: int|
            0 <= k < touch_order(layer, names, group).len() ==> {
                let i = #[trigger] touch_order(layer, names, group)[k];
                0 <= i < layer.len() && exists|g: int|
                    0 <= g < group.len() && layer[i].can_hold(names[#[trigger] group[g] as int])
            },
        forall|g: int, i: int|
            0 <= g < group.len() && 0 <= i < layer.len() && (#[trigger] layer[i]).can_hold(
                names[#[trigger] group[g] as int],
            ) ==> touch_order(layer, names, group).contains(i),
    decreases group.len(),
{
    if group.len() > 0 {
        let front = group.drop_last();
        let key = names[group.last() as int];
        let before = touch_order(layer, names, front);
        let asked = places(layer, key, layer.len());
        let after = touch_order(layer, names, group);
        lemma_touch_order(layer, names, front);
        lemma_places(layer, key, layer.len());
        lemma_with_places(before, asked);
        assert forall|k: int| 0 <= k < after.len() implies {
            let i = #[trigger] after[k];
            0 <= i < layer.len() && exists|g: int|
                0 <= g < group.len() && layer[i].can_hold(names[#[trigger] group[g] as int])
        } by {
            let i = after[k];
            assert(after.contains(i));
            if before.contains(i) {
                let j = choose|j: int| 0 <= j < before.len() && before[j] == i;
                let g = choose|g: int|
                    0 <= g < front.len() && layer[before[j]].can_hold(
                        names[#[trigger] front[g] as int],
                    );
                assert(group[g] == front[g]);
            } else {
                let j = choose|j: int| 0 <= j < asked.len() && asked[j] == i;
                assert(layer[asked[j]].can_hold(key));
                assert(group[group.len() - 1] == group.last());
            }
        }
        assert forall|g: int, i: int|
            0 <= g < group.len() && 0 <= i < layer.len() && (#[trigger] layer[i]).can_hold(
                names[#[trigger] group[g] as int],
            ) implies after.contains(i) by {
            if g < front.len() {
                assert(front[g] == group[g]);
                assert(before.contains(i));
            } else {
                assert(asked.contains(i));
            }
        }
    }
}

/// The batch after a group walked some layers of its tree.
spec fn walked<F>(
    ssts: Seq<BatchSst<F>>,
    keys: Seq<KeyRead>,
    listed: Seq<TargetView>,
    start: Seq<KeyState>,
    layers: Seq<Seq<LeveledView>>,
    group: Seq<usize>,
    segment: Seq<u8>,
) -> bool {
    &&& fresh(ssts)
    &&& targets(ssts) == listed + touched_views(layers, names_of(start), group).map_values(
        |v: LeveledView| v.target(segment),
    )
    &&& keys.len() == start.len()
    &&& forall|u: int|
        0 <= u < start.len() ==> (#[trigger] keys[u])@ == (KeyState {
            candidates: start[u].candidates + layer_numbers(
                layers,
                names_of(start),
                group,
                u,
                listed.len(),
            ),
            ..start[u]
        })
}

/// The batch after the keys of a group asked for the views of one layer.
spec fn layer_added<F>(
    ssts: Seq<BatchSst<F>>,
    keys: Seq<KeyRead>,
    old_ssts: Seq<BatchSst<F>>,
    old_keys: Seq<KeyRead>,
    layer: Seq<LeveledView>,
    group: Seq<usize>,
    segment: Seq<u8>,
) -> bool {
    let names = names_of(states(old_keys));
    &&& fresh(ssts)
    &&& targets(ssts) == targets(old_ssts) + touch_order(layer, names, group).map_values(
        |i: int| layer[i].target(segment),
    )
    &&& keys.len() == old_keys.len()
    &&& forall|u: int|
        0 <= u < keys.len() ==> (#[trigger] keys[u])@ == (KeyState {
            candidates: old_keys[u]@.candidates + numbers(
                layer,
                names,
                group,
                u,
                old_ssts.len(),
            ),
            ..old_keys[u]@
        })
}

/// One more layer.
proof fn lemma_walk_one_layer<F>(
    ssts: Seq<BatchSst<F>>,
    keys: Seq<KeyRead>,
    old_ssts: Seq<BatchSst<F>>,
    old_keys: Seq<KeyRead>,
    listed: Seq<TargetView>,
    start: Seq<KeyState>,
    layers: Seq<Seq<LeveledView>>,
    layer: Seq<LeveledView>,
    group: Seq<usize>,
    segment: Seq<u8>,
)
    requires
        walked(old_ssts, old_keys, listed, start, layers, group, segment),
        layer_added(ssts, keys, old_ssts, old_keys, layer, group, segment),
    ensures
        walked(ssts, keys, listed, start, layers.push(layer), group, segment),
{
    let names = names_of(start);
    let now = layers.push(layer);
    assert(now.drop_last() =~= layers);
    assert(names_of(states(old_keys)) =~= names);
    let target = |v: LeveledView| v.target(segment);
    let before = touched_views(layers, names, group);
    assert(old_ssts.len() == targets(old_ssts).len());
    assert(targets(ssts) =~= listed + touched_views(now, names, group).map_values(target));
    assert forall|u: int| 0 <= u < start.len() implies (#[trigger] keys[u])@ == (KeyState {
        candidates: start[u].candidates + layer_numbers(now, names, group, u, listed.len()),
        ..start[u]
    }) by {
        assert(old_keys[u]@.candidates == start[u].candidates + layer_numbers(
            layers,
            names,
            group,
            u,
            listed.len(),
        ));
        assert(keys[u]@.candidates =~= start[u].candidates + layer_numbers(
            now,
            names,
            group,
            u,
            listed.len(),
        ));
    }
}

/// The layer is the L0 SST at `at`, or the sorted run.
spec fn is_layer(
    layer: Seq<LeveledView>,
    views: Seq<SsTableView>,
    at: int,
    run: Option<SortedRun>,
    level: SstTraceLevel,
) -> bool {
    &&& 0 <= at
    &&& at + layer.len() <= views.len()
    &&& forall|i: int|
        0 <= i < layer.len() ==> (#[trigger] layer[i]).view == views[at + i] && layer[i].level
            == level
    &&& match run {
        Some(run) => at == 0 && run.wf() && views == run.views@ && layer == views_of_run(run),
        None => layer.len() == 1 && layer[0].place is None,
    }
}

/// Give the SSTs of one layer to the keys of a group that they can hold. An
/// SST gets its number from the first key that asks for it. A key can have
/// more than one view in a run: its versions can cross the border of two
/// views.
fn add_layer<F: Filter>(
    ssts: &mut Vec<BatchSst<F>>,
    keys: &mut Vec<KeyRead>,
    group: &Vec<usize>,
    views: &Vec<SsTableView>,
    at: usize,
    run: Option<&SortedRun>,
    segment: &Bytes,
    level: SstTraceLevel,
    Ghost(layer): Ghost<Seq<LeveledView>>,
)
    requires
        group_ordered(group@, old(keys)@.len()),
        fresh(old(ssts)@),
        is_layer(
            layer,
            views@,
            at as int,
            match run {
                Some(run) => Some(*run),
                None => None,
            },
            level,
        ),
    ensures
        layer_added(
            final(ssts)@,
            final(keys)@,
            old(ssts)@,
            old(keys)@,
            layer,
            group@,
            content(*segment),
        ),
{
    let ghost old_ssts = ssts@;
    let ghost old_keys = keys@;
    let ghost names = names_of(states(keys@));
    let ghost base = ssts@.len();
    let ghost prefix = content(*segment);
    let ghost listed = targets(ssts@);
    let mut sst_of_view: BTreeMap<usize, usize> = BTreeMap::new();
    let count: usize = keys.len();
    let end: usize = views.len();
    proof {
        let none = group@.take(0);
        assert(touch_order(layer, names, none) =~= Seq::<int>::empty());
        assert(targets(ssts@) =~= listed + touch_order(layer, names, none).map_values(
            |i: int| layer[i].target(prefix),
        ));
        assert forall|u: int| 0 <= u < keys@.len() implies (#[trigger] keys@[u])@ == (KeyState {
            candidates: old_keys[u]@.candidates + numbers(layer, names, none, u, base),
            ..old_keys[u]@
        }) by {
            assert(old_keys[u]@.candidates + Seq::<Candidate>::empty()
                =~= old_keys[u]@.candidates);
        }
    }
    for g in 0..group.len()
        invariant
            old_ssts == old(ssts)@,
            old_keys == old(keys)@,
            base == old_ssts.len(),
            old_keys.len() == count,
            views@.len() == end,
            names == names_of(states(old_keys)),
            listed == targets(old_ssts),
            prefix == content(*segment),
            group_ordered(group@, old_keys.len()),
            is_layer(
                layer,
                views@,
                at as int,
                match run {
                    Some(run) => Some(*run),
                    None => None,
                },
                level,
            ),
            layer_added(ssts@, keys@, old_ssts, old_keys, layer, group@.take(g as int), prefix),
            forall|v: usize| #[trigger]
                sst_of_view@.contains_key(v) <==> touch_order(
                    layer,
                    names,
                    group@.take(g as int),
                ).contains(v as int),
            forall|v: usize| #[trigger]
                sst_of_view@.contains_key(v) ==> sst_of_view@[v] == base + touch_order(
                    layer,
                    names,
                    group@.take(g as int),
                ).index_of(v as int),
    {
        let u: usize = group[g];
        let ghost past = group@.take(g as int);
        let ghost now = group@.take(g + 1);
        let ghost order = touch_order(layer, names, past);
        let ghost before_keys = keys@;
        let ghost key = names[u as int];
        let ghost start = old_keys[u as int]@;
        let range = match run {
            Some(run) => run.point_table_idx_covering_key(as_slice(&keys[u].key)),
            None => 0..1,
        };
        proof {
            assert(now.drop_last() =~= past);
            assert(now.last() == u);
            lemma_touch_order(layer, names, past);
            assert(before_keys[u as int]@.key == old_keys[u as int]@.key);
            assert(key == content(keys@[u as int].key));
            assert(!past.contains(u)) by {
                if past.contains(u) {
                    let j = choose|j: int| 0 <= j < past.len() && past[j] == u;
                    assert(group@[j] < group@[g as int]);
                }
            }
            assert(before_keys[u as int]@.candidates =~= start.candidates);
            assert forall|i: int| 0 <= i < layer.len() && !(range.start <= i < range.end) implies !(
            #[trigger] layer[i]).can_hold(key) by {
                if run is Some {
                    assert(layer[i].place == Some((run->0.starts(), i)));
                    assert(covers(run->0.starts(), i, key) == (range.start <= i < range.end));
                }
            }
            lemma_no_places(layer, key, 0, range.start as nat);
            assert(with_places(order, places(layer, key, range.start as nat)) == order);
            assert(candidates_at(places(layer, key, range.start as nat), order, base)
                =~= Seq::<Candidate>::empty());
            assert(start.candidates + Seq::<Candidate>::empty() =~= start.candidates);
        }
        let mut vi: usize = range.start;
        while vi < range.end
            invariant
                range.start <= vi <= range.end <= layer.len(),
                at + layer.len() <= views@.len(),
                views@.len() == end,
                forall|i: int|
                    0 <= i < layer.len() ==> (#[trigger] layer[i]).view == views@[at + i]
                        && layer[i].level == level,
                forall|i: int|
                    range.start <= i < range.end ==> #[trigger] layer[i].can_hold(key)
                        == layer[i].view.holds(key),
                prefix == content(*segment),
                u < keys@.len(),
                keys@.len() == before_keys.len(),
                before_keys[u as int]@.candidates == start.candidates,
                key == content(keys@[u as int].key),
                order.no_duplicates(),
                base == listed.len(),
                fresh(ssts@),
                targets(ssts@) == listed + with_places(
                    order,
                    places(layer, key, vi as nat),
                ).map_values(|i: int| layer[i].target(prefix)),
                forall|w: int|
                    0 <= w < keys@.len() && w != u ==> (#[trigger] keys@[w]) == before_keys[w],
                keys@[u as int]@ == (KeyState {
                    candidates: start.candidates + candidates_at(
                        places(layer, key, vi as nat),
                        with_places(order, places(layer, key, vi as nat)),
                        base,
                    ),
                    ..before_keys[u as int]@
                }),
                forall|v: usize| #[trigger]
                    sst_of_view@.contains_key(v) <==> with_places(
                        order,
                        places(layer, key, vi as nat),
                    ).contains(v as int),
                forall|v: usize| #[trigger]
                    sst_of_view@.contains_key(v) ==> sst_of_view@[v] == base + with_places(
                        order,
                        places(layer, key, vi as nat),
                    ).index_of(v as int),
            decreases range.end - vi,
        {
            let ghost asked = places(layer, key, vi as nat);
            let ghost asked_now = places(layer, key, (vi + 1) as nat);
            let ghost so_far = with_places(order, asked);
            let ghost so_far_now = with_places(order, asked_now);
            let ghost was = keys@[u as int]@;
            proof {
                lemma_places(layer, key, vi as nat);
                lemma_with_places(order, asked);
                lemma_with_places(order, asked_now);
            }
            let view = &views[at + vi];
            // The last view of a run has no upper bound, so the search by
            // start keys can name a view that does not hold the key.
            if view_holds_key(view, as_slice(&keys[u].key)) {
                assert(layer[vi as int].can_hold(key));
                assert(asked_now == asked.push(vi as int));
                assert(asked_now.drop_last() =~= asked);
                let known = match sst_of_view.get(&vi) {
                    Some(sst) => Some(*sst),
                    None => None,
                };
                let sst: usize = match known {
                    Some(sst) => sst,
                    None => {
                        let sst: usize = ssts.len();
                        let ghost before = targets(ssts@);
                        ssts.push(BatchSst::new(view, share(segment), level));
                        sst_of_view.insert(vi, sst);
                        proof {
                            assert(so_far_now == so_far.push(vi as int));
                            assert(targets(ssts@) =~= before.push(layer[vi as int].target(prefix)));
                            assert(targets(ssts@) =~= listed + so_far_now.map_values(
                                |i: int| layer[i].target(prefix),
                            ));
                            assert(before.len() == base + so_far.len());
                            assert(so_far_now[so_far.len() as int] == vi as int);
                            assert(so_far_now.contains(vi as int));
                            let i = so_far_now.index_of(vi as int);
                            assert(0 <= i < so_far_now.len() && so_far_now[i] == vi as int);
                            assert(i == so_far.len());
                        }
                        sst
                    },
                };
                keys[u].add_candidate(sst);
                proof {
                    assert forall|x: int| so_far.contains(x) implies #[trigger] so_far_now.index_of(
                        x,
                    ) == so_far.index_of(x) by {
                        lemma_index_stays(so_far, so_far_now, x);
                    }
                    assert(so_far_now.contains(vi as int));
                    assert(so_far_now.index_of(vi as int) + base == sst);
                    assert forall|k: int| 0 <= k < asked.len() implies so_far.contains(
                        #[trigger] asked[k],
                    ) by {
                        assert(asked.contains(asked[k]));
                    }
                    assert(candidates_at(asked_now, so_far_now, base) =~= candidates_at(
                        asked,
                        so_far,
                        base,
                    ).push(Candidate { sst, passed: false }));
                    assert(keys@[u as int]@.candidates =~= start.candidates + candidates_at(
                        asked_now,
                        so_far_now,
                        base,
                    ));
                    assert forall|v: usize| #[trigger]
                        sst_of_view@.contains_key(v) implies sst_of_view@[v] == base
                        + so_far_now.index_of(v as int) by {
                        if v != vi {
                            assert(so_far.contains(v as int));
                        }
                    }
                }
            } else {
                assert(!layer[vi as int].can_hold(key));
                assert(asked_now == asked);
            }
            vi = vi + 1;
        }
        proof {
            let all = places(layer, key, layer.len());
            lemma_no_places(layer, key, range.end as nat, layer.len());
            assert(places(layer, key, range.end as nat) == all);
            let order_now = touch_order(layer, names, now);
            assert(order_now == with_places(order, all));
            lemma_with_places(order, all);
            assert(now =~= past.push(u));
            assert forall|w: int| 0 <= w < keys@.len() implies (#[trigger] keys@[w])@ == (KeyState {
                candidates: old_keys[w]@.candidates + numbers(layer, names, now, w, base),
                ..old_keys[w]@
            }) by {
                let at_w = places(layer, names[w], layer.len());
                if w == u {
                    assert(now[g as int] == u);
                    assert(now.contains(u));
                } else {
                    assert(keys@[w] == before_keys[w]);
                    if past.contains(w as usize) {
                        let j = choose|j: int| 0 <= j < past.len() && past[j] == w as usize;
                        assert(now[j] == w as usize);
                        lemma_places(layer, names[w], layer.len());
                        assert forall|k: int| 0 <= k < at_w.len() implies order.contains(
                            #[trigger] at_w[k],
                        ) && order_now.index_of(at_w[k]) == order.index_of(at_w[k]) by {
                            assert(layer[at_w[k]].can_hold(names[past[j] as int]));
                            lemma_index_stays(order, order_now, at_w[k]);
                        }
                        assert(candidates_at(at_w, order_now, base) =~= candidates_at(
                            at_w,
                            order,
                            base,
                        ));
                    } else {
                        if now.contains(w as usize) {
                            let j = choose|j: int| 0 <= j < now.len() && now[j] == w as usize;
                            assert(past[j] == w as usize);
                        }
                    }
                }
            }
        }
    }
    assert(group@.take(group@.len() as int) =~= group@);
}

/// Add the SSTs that can hold the keys of one group.
fn group_candidates<F: Filter>(
    core: &ManifestCore,
    group: &Group,
    keys: &mut Vec<KeyRead>,
    ssts: &mut Vec<BatchSst<F>>,
)
    requires
        core.wf(),
        core.valid_ref(group.tree),
        group_ordered(group.keys@, old(keys)@.len()),
        fresh(old(ssts)@),
    ensures
        walked(
            final(ssts)@,
            final(keys)@,
            targets(old(ssts)@),
            states(old(keys)@),
            tree_layers(core.tree_at(group.tree)),
            group.keys@,
            core.prefix_at(group.tree),
        ),
{
    let ghost start = states(keys@);
    let ghost names = names_of(start);
    let ghost listed = targets(ssts@);
    let ghost members = group.keys@;
    let tree = core.tree(group.tree);
    let segment = core.prefix(group.tree);
    let ghost prefix = content(segment);
    let ghost layers = tree_layers(*tree);
    let ghost n = tree.l0@.len() as int;
    proof {
        let none = layers.take(0);
        assert(none =~= Seq::<Seq<LeveledView>>::empty());
        assert(listed + touched_views(none, names, members).map_values(
            |v: LeveledView| v.target(prefix),
        ) =~= listed);
        assert forall|u: int| 0 <= u < start.len() implies (#[trigger] keys@[u])@ == (KeyState {
            candidates: start[u].candidates + layer_numbers(none, names, members, u, listed.len()),
            ..start[u]
        }) by {
            assert(start[u].candidates + Seq::<Candidate>::empty() =~= start[u].candidates);
        }
    }
    // An L0 SST can hold each key of its range.
    for i in 0..tree.l0.len()
        invariant
            prefix == content(segment),
            members == group.keys@,
            layers == tree_layers(*tree),
            group_ordered(members, start.len()),
            walked(ssts@, keys@, listed, start, layers.take(i as int), members, prefix),
    {
        let ghost old_ssts = ssts@;
        let ghost old_keys = keys@;
        let ghost layer = layers[i as int];
        add_layer(
            ssts,
            keys,
            &group.keys,
            &tree.l0,
            i,
            None,
            &segment,
            SstTraceLevel::L0,
            Ghost(layer),
        );
        proof {
            lemma_walk_one_layer(
                ssts@,
                keys@,
                old_ssts,
                old_keys,
                listed,
                start,
                layers.take(i as int),
                layer,
                members,
                prefix,
            );
            assert(layers.take(i + 1) =~= layers.take(i as int).push(layer));
        }
    }
    for r in 0..tree.compacted.len()
        invariant
            tree.wf(),
            n == tree.l0@.len(),
            prefix == content(segment),
            members == group.keys@,
            layers == tree_layers(*tree),
            group_ordered(members, start.len()),
            walked(ssts@, keys@, listed, start, layers.take(n + r), members, prefix),
    {
        let ghost old_ssts = ssts@;
        let ghost old_keys = keys@;
        let run = &tree.compacted[r];
        let ghost layer = layers[n + r];
        assert(layer == views_of_run(*run));
        add_layer(
            ssts,
            keys,
            &group.keys,
            run.sst_views(),
            0,
            Some(run),
            &segment,
            SstTraceLevel::SortedRun(run.id),
            Ghost(layer),
        );
        proof {
            lemma_walk_one_layer(
                ssts@,
                keys@,
                old_ssts,
                old_keys,
                listed,
                start,
                layers.take(n + r),
                layer,
                members,
                prefix,
            );
            assert(layers.take(n + r + 1) =~= layers.take(n + r).push(layer));
        }
    }
    assert(layers.take(layers.len() as int) =~= layers);
}

/// The batch after some groups walked their trees.
spec fn listed_so_far<F>(
    core: ManifestCore,
    ssts: Seq<BatchSst<F>>,
    keys: Seq<KeyRead>,
    start: Seq<KeyState>,
    groups: Seq<GroupView>,
) -> bool {
    &&& fresh(ssts)
    &&& targets(ssts) == listed_ssts(core, names_of(start), groups)
    &&& keys.len() == start.len()
    &&& forall|u: int|
        0 <= u < start.len() ==> (#[trigger] keys[u])@ == (KeyState {
            candidates: start[u].candidates + listed_candidates(core, names_of(start), groups, u),
            ..start[u]
        })
}

/// One more group.
proof fn lemma_list_one_group<F>(
    core: ManifestCore,
    ssts: Seq<BatchSst<F>>,
    keys: Seq<KeyRead>,
    old_ssts: Seq<BatchSst<F>>,
    old_keys: Seq<KeyRead>,
    start: Seq<KeyState>,
    groups: Seq<GroupView>,
    group: GroupView,
)
    requires
        listed_so_far(core, old_ssts, old_keys, start, groups),
        walked(
            ssts,
            keys,
            targets(old_ssts),
            states(old_keys),
            tree_layers(core.tree_at(group.tree)),
            group.keys,
            core.prefix_at(group.tree),
        ),
    ensures
        listed_so_far(core, ssts, keys, start, groups.push(group)),
{
    let names = names_of(start);
    let before = states(old_keys);
    let now = groups.push(group);
    let layers = tree_layers(core.tree_at(group.tree));
    assert(now.drop_last() =~= groups);
    assert(names_of(before) =~= names);
    assert forall|u: int| 0 <= u < start.len() implies (#[trigger] keys[u])@ == (KeyState {
        candidates: start[u].candidates + listed_candidates(core, names, now, u),
        ..start[u]
    }) by {
        let more = layer_numbers(layers, names, group.keys, u, targets(old_ssts).len());
        assert(old_keys[u]@.candidates == start[u].candidates + listed_candidates(
            core,
            names,
            groups,
            u,
        ));
        assert(keys[u]@.candidates == before[u].candidates + more);
        assert(keys[u]@.candidates =~= start[u].candidates + listed_candidates(core, names, now, u));
    }
}

/// The SSTs that can hold the open keys. Each key gets its candidates newest
/// first, as `get` reads them: the L0 SSTs, then the sorted runs.
pub fn candidate_ssts<F: Filter>(core: &ManifestCore, keys: &mut Vec<KeyRead>) -> (ssts: Vec<
    BatchSst<F>,
>)
    requires
        core.wf(),
    ensures
        fresh(ssts@),
        targets(ssts@) == listed_ssts(
            *core,
            names_of(states(old(keys)@)),
            grouped(*core, states(old(keys)@)),
        ),
        states(final(keys)@) == Seq::new(
            old(keys)@.len(),
            |u: int|
                KeyState {
                    candidates: old(keys)@[u]@.candidates + listed_candidates(
                        *core,
                        names_of(states(old(keys)@)),
                        grouped(*core, states(old(keys)@)),
                        u,
                    ),
                    ..old(keys)@[u]@
                },
        ),
{
    let ghost start = states(keys@);
    let ghost names = names_of(start);
    let mut ssts: Vec<BatchSst<F>> = Vec::new();
    let groups = group_by_segment(core, keys);
    let ghost all = group_views(groups@);
    let n: usize = keys.len();
    proof {
        law_each_open_key_has_one_group(*core, start);
        assert(all.take(0) =~= Seq::<GroupView>::empty());
        assert(targets(ssts@) =~= Seq::<TargetView>::empty());
        assert forall|u: int| 0 <= u < start.len() implies (#[trigger] keys@[u])@ == (KeyState {
            candidates: start[u].candidates + listed_candidates(*core, names, all.take(0), u),
            ..start[u]
        }) by {
            assert(start[u].candidates + Seq::<Candidate>::empty() =~= start[u].candidates);
        }
    }
    assert(listed_so_far(*core, ssts@, keys@, start, all.take(0)));
    for g in 0..groups.len()
        invariant
            core.wf(),
            start == states(old(keys)@),
            all == group_views(groups@),
            in_groups(all, *core, start),
            listed_so_far(*core, ssts@, keys@, start, all.take(g as int)),
    {
        let ghost old_ssts = ssts@;
        let ghost old_keys = keys@;
        let ghost group = all[g as int];
        proof {
            assert(group == groups@[g as int]@);
            assert forall|i: int| 0 <= i < group.keys.len() implies (#[trigger] group.keys[i])
                < keys@.len() by {
                assert((all[g as int].keys[i] as int) < start.len());
            }
            assert forall|i: int, j: int| 0 <= i < j < group.keys.len() implies (
            #[trigger] group.keys[i]) < (#[trigger] group.keys[j]) by {
                assert(all[g as int].keys[i] < all[g as int].keys[j]);
            }
        }
        group_candidates(core, &groups[g], keys, &mut ssts);
        proof {
            lemma_list_one_group(
                *core,
                ssts@,
                keys@,
                old_ssts,
                old_keys,
                start,
                all.take(g as int),
                group,
            );
            assert(all.take(g + 1) =~= all.take(g as int).push(group));
        }
    }
    assert(all.take(all.len() as int) =~= all);
    assert(states(keys@) =~= Seq::new(
        start.len(),
        |u: int|
            KeyState {
                candidates: start[u].candidates + listed_candidates(*core, names, all, u),
                ..start[u]
            },
    ));
    ssts
}

// ---------------------------------------------------------------------------
// What the candidates are
// ---------------------------------------------------------------------------

/// The candidates are unread SSTs with the numbers `from..to`.
pub open spec fn candidates_between(candidates: Seq<Candidate>, from: nat, to: nat) -> bool {
    forall|i: int|
        0 <= i < candidates.len() ==> from <= (#[trigger] candidates[i]).sst < to
            && !candidates[i].passed
}

/// The candidates ascend.
pub open spec fn candidates_ascend(candidates: Seq<Candidate>) -> bool {
    forall|i: int, j: int|
        0 <= i < j < candidates.len() ==> (#[trigger] candidates[i]).sst < (
        #[trigger] candidates[j]).sst
}

/// The views that the candidates name, when the first view has the number
/// `base`.
spec fn named_views(
    candidates: Seq<Candidate>,
    views: Seq<LeveledView>,
    base: nat,
) -> Seq<LeveledView> {
    candidates.map_values(|c: Candidate| views[c.sst - base])
}

/// The places name the views that can hold the key.
proof fn lemma_places_name_the_views(layer: Seq<LeveledView>, key: Seq<u8>, n: nat)
    requires
        n <= layer.len(),
    ensures
        places(layer, key, n).map_values(|i: int| layer[i]) == layer.take(n as int).filter(
            |v: LeveledView| v.can_hold(key),
        ),
    decreases n,
{
    let pred = |v: LeveledView| v.can_hold(key);
    let name = |i: int| layer[i];
    if n == 0 {
        layer.take(0).lemma_filter_len(pred);
        assert(places(layer, key, n).map_values(name) =~= layer.take(0).filter(pred));
    } else {
        let m = (n - 1) as nat;
        lemma_places_name_the_views(layer, key, m);
        assert(layer.take(n as int) =~= layer.take(m as int).push(layer[m as int]));
        layer.take(m as int).lemma_filter_push(layer[m as int], pred);
        if layer[m as int].can_hold(key) {
            assert(places(layer, key, n).map_values(name) =~= places(layer, key, m).map_values(
                name,
            ).push(layer[m as int]));
        }
    }
}

/// The numbers of a key of the group name the views of the layer that can
/// hold the key.
proof fn lemma_numbers(
    layer: Seq<LeveledView>,
    names: Seq<Seq<u8>>,
    group: Seq<usize>,
    u: usize,
    base: nat,
)
    requires
        base + touch_order(layer, names, group).len() <= usize::MAX,
    ensures
        candidates_between(
            numbers(layer, names, group, u as int, base),
            base,
            base + touch_order(layer, names, group).len(),
        ),
        group.contains(u) ==> named_views(
            numbers(layer, names, group, u as int, base),
            touch_order(layer, names, group).map_values(|i: int| layer[i]),
            base,
        ) == layer.filter(|v: LeveledView| v.can_hold(names[u as int])),
{
    let order = touch_order(layer, names, group);
    let found = numbers(layer, names, group, u as int, base);
    if group.contains(u) {
        let key = names[u as int];
        let at = places(layer, key, layer.len());
        let g = choose|g: int| 0 <= g < group.len() && group[g] == u;
        lemma_places(layer, key, layer.len());
        lemma_touch_order(layer, names, group);
        assert forall|k: int| 0 <= k < at.len() implies 0 <= order.index_of(#[trigger] at[k])
            < order.len() && order[order.index_of(at[k])] == at[k] by {
            assert(layer[at[k]].can_hold(names[group[g] as int]));
            assert(order.contains(at[k]));
        }
        assert forall|k: int| 0 <= k < found.len() implies base <= (#[trigger] found[k]).sst < base
            + order.len() && !found[k].passed by {
            assert(0 <= order.index_of(at[k]) < order.len());
        }
        lemma_places_name_the_views(layer, key, layer.len());
        assert(layer.take(layer.len() as int) =~= layer);
        let views = order.map_values(|i: int| layer[i]);
        assert forall|k: int| 0 <= k < found.len() implies named_views(found, views, base)[k]
            == layer[#[trigger] at[k]] by {
            assert(found[k].sst - base == order.index_of(at[k]));
        }
        assert(named_views(found, views, base) =~= at.map_values(|i: int| layer[i]));
    }
}

/// The numbers of a key of the group name the views that can hold the key. A
/// key outside the group has no number.
proof fn lemma_layer_numbers(
    layers: Seq<Seq<LeveledView>>,
    names: Seq<Seq<u8>>,
    group: Seq<usize>,
    u: usize,
    base: nat,
)
    requires
        base + touched_views(layers, names, group).len() <= usize::MAX,
    ensures
        !group.contains(u) ==> layer_numbers(layers, names, group, u as int, base).len() == 0,
        candidates_between(
            layer_numbers(layers, names, group, u as int, base),
            base,
            base + touched_views(layers, names, group).len(),
        ),
        group.contains(u) ==> named_views(
            layer_numbers(layers, names, group, u as int, base),
            touched_views(layers, names, group),
            base,
        ) == layer_views(layers).filter(|v: LeveledView| v.can_hold(names[u as int])),
    decreases layers.len(),
{
    let pred = |v: LeveledView| v.can_hold(names[u as int]);
    let found = layer_numbers(layers, names, group, u as int, base);
    let touched = touched_views(layers, names, group);
    if layers.len() == 0 {
        layer_views(layers).lemma_filter_len(pred);
        assert(named_views(found, touched, base) =~= layer_views(layers).filter(pred));
    } else {
        let front = layers.drop_last();
        let last = layers.last();
        let before = touched_views(front, names, group);
        let more = touch_order(last, names, group).map_values(|i: int| last[i]);
        let from = base + before.len();
        lemma_layer_numbers(front, names, group, u, base);
        lemma_numbers(last, names, group, u, from);
        let old_found = layer_numbers(front, names, group, u as int, base);
        let new_found = numbers(last, names, group, u as int, from);
        assert(found == old_found + new_found);
        assert(touched == before + more);
        if group.contains(u) {
            Seq::filter_distributes_over_add(layer_views(front), last, pred);
            assert(named_views(found, touched, base) =~= named_views(old_found, before, base)
                + named_views(new_found, more, from));
        }
    }
}

// ---------------------------------------------------------------------------
// The order of the candidates
// ---------------------------------------------------------------------------

/// The views of the layer have the start keys `starts`, in order.
spec fn in_place(layer: Seq<LeveledView>, starts: Seq<Seq<u8>>) -> bool {
    &&& ascending(starts)
    &&& starts.len() == layer.len()
    &&& forall|i: int| 0 <= i < layer.len() ==> (#[trigger] layer[i]).place == Some((starts, i))
}

/// The layer is one SST, or its views are in key order.
spec fn layer_in_order(layer: Seq<LeveledView>) -> bool {
    layer.len() <= 1 || exists|starts: Seq<Seq<u8>>| in_place(layer, starts)
}

/// The keys of the group ascend.
spec fn names_ascend(names: Seq<Seq<u8>>, group: Seq<usize>) -> bool {
    forall|i: int, j: int|
        0 <= i < j < group.len() ==> lex_lt(
            names[#[trigger] group[i] as int],
            names[#[trigger] group[j] as int],
        )
}

/// Places in order.
spec fn places_ascend(order: Seq<int>) -> bool {
    forall|i: int, j: int| 0 <= i < j < order.len() ==> (#[trigger] order[i]) < (
    #[trigger] order[j])
}

/// New places past the old ones keep the order.
proof fn lemma_with_places_ascend(order: Seq<int>, asked: Seq<int>)
    requires
        order.no_duplicates(),
        places_ascend(order),
        places_ascend(asked),
        forall|i: int, j: int|
            0 <= i < order.len() && 0 <= j < asked.len() && !order.contains(asked[j]) ==> (
            #[trigger] order[i]) < (#[trigger] asked[j]),
    ensures
        places_ascend(with_places(order, asked)),
    decreases asked.len(),
{
    if asked.len() > 0 {
        let front = asked.drop_last();
        let last = asked.last();
        let n = asked.len() - 1;
        assert forall|i: int, j: int| 0 <= i < j < front.len() implies (#[trigger] front[i]) < (
        #[trigger] front[j]) by {
            assert(asked[i] < asked[j]);
        }
        assert forall|i: int, j: int|
            0 <= i < order.len() && 0 <= j < front.len() && !order.contains(front[j]) implies (
        #[trigger] order[i]) < (#[trigger] front[j]) by {
            assert(asked[j] == front[j]);
        }
        lemma_with_places_ascend(order, front);
        lemma_with_places(order, front);
        let before = with_places(order, front);
        if !before.contains(last) {
            assert(!order.contains(asked[n]));
            assert forall|i: int| 0 <= i < before.len() implies (#[trigger] before[i]) < last by {
                assert(before.contains(before[i]));
                if order.contains(before[i]) {
                    let k = choose|k: int| 0 <= k < order.len() && order[k] == before[i];
                    assert(order[k] < asked[n]);
                } else {
                    let k = choose|k: int| 0 <= k < front.len() && front[k] == before[i];
                    assert(asked[k] < asked[n]);
                }
            }
        }
    }
}

/// When the keys of the group ascend, they ask for the views of a layer in
/// the order of the layer.
proof fn lemma_touch_order_ascends(
    layer: Seq<LeveledView>,
    names: Seq<Seq<u8>>,
    group: Seq<usize>,
)
    requires
        layer_in_order(layer),
        names_ascend(names, group),
    ensures
        places_ascend(touch_order(layer, names, group)),
    decreases group.len(),
{
    let order = touch_order(layer, names, group);
    lemma_touch_order(layer, names, group);
    if layer.len() <= 1 {
        assert forall|i: int, j: int| 0 <= i < j < order.len() implies (#[trigger] order[i]) < (
        #[trigger] order[j]) by {
            assert(order[i] == 0 && order[j] == 0);
        }
    } else if group.len() > 0 {
        let starts = choose|starts: Seq<Seq<u8>>| in_place(layer, starts);
        let front = group.drop_last();
        let n = group.len() - 1;
        let key = names[group[n] as int];
        let before = touch_order(layer, names, front);
        let asked = places(layer, key, layer.len());
        assert forall|i: int, j: int| 0 <= i < j < front.len() implies lex_lt(
            names[#[trigger] front[i] as int],
            names[#[trigger] front[j] as int],
        ) by {
            assert(lex_lt(names[group[i] as int], names[group[j] as int]));
        }
        lemma_touch_order_ascends(layer, names, front);
        lemma_touch_order(layer, names, front);
        lemma_places(layer, key, layer.len());
        assert forall|i: int, j: int|
            0 <= i < before.len() && 0 <= j < asked.len() && !before.contains(asked[j]) implies (
        #[trigger] before[i]) < (#[trigger] asked[j]) by {
            let a = before[i];
            let b = asked[j];
            assert(before.contains(a));
            if b < a {
                let g = choose|g: int|
                    0 <= g < front.len() && layer[a].can_hold(names[#[trigger] front[g] as int]);
                let older = names[front[g] as int];
                assert(layer[a].place == Some((starts, a)));
                assert(layer[b].place == Some((starts, b)));
                assert(covers(starts, a, older));
                assert(covers(starts, b, key));
                assert(lex_le(starts[b + 1], starts[a]));
                lemma_lex_transitive(key, starts[b + 1], starts[a]);
                lemma_lex_transitive(key, starts[a], older);
                assert(lex_lt(names[group[g] as int], names[group[n] as int]));
                lemma_lex_antisymmetric(key, older);
            }
        }
        lemma_with_places_ascend(before, asked);
    }
}

/// When the keys of the group ascend, so do the candidates of each key.
proof fn lemma_layer_numbers_ascend(
    layers: Seq<Seq<LeveledView>>,
    names: Seq<Seq<u8>>,
    group: Seq<usize>,
    u: usize,
    base: nat,
)
    requires
        base + touched_views(layers, names, group).len() <= usize::MAX,
        forall|l: int| 0 <= l < layers.len() ==> layer_in_order(#[trigger] layers[l]),
        names_ascend(names, group),
    ensures
        candidates_ascend(layer_numbers(layers, names, group, u as int, base)),
    decreases layers.len(),
{
    if layers.len() > 0 && group.contains(u) {
        let front = layers.drop_last();
        let last = layers.last();
        assert(layer_in_order(layers[layers.len() - 1]));
        let before = touched_views(front, names, group);
        let order = touch_order(last, names, group);
        let from = base + before.len();
        assert forall|l: int| 0 <= l < front.len() implies layer_in_order(#[trigger] front[l]) by {
            assert(front[l] == layers[l]);
        }
        lemma_layer_numbers_ascend(front, names, group, u, base);
        lemma_layer_numbers(front, names, group, u, base);
        lemma_numbers(last, names, group, u, from);
        let key = names[u as int];
        let at = places(last, key, last.len());
        let g = choose|g: int| 0 <= g < group.len() && group[g] == u;
        lemma_places(last, key, last.len());
        lemma_touch_order(last, names, group);
        lemma_touch_order_ascends(last, names, group);
        let more = numbers(last, names, group, u as int, from);
        assert forall|i: int, j: int| 0 <= i < j < more.len() implies (#[trigger] more[i]).sst < (
        #[trigger] more[j]).sst by {
            assert(last[at[i]].can_hold(names[group[g] as int]));
            assert(last[at[j]].can_hold(names[group[g] as int]));
            assert(order.contains(at[i]) && order.contains(at[j]));
            let a = order.index_of(at[i]);
            let b = order.index_of(at[j]);
            assert(order[a] == at[i] && order[b] == at[j]);
            assert(at[i] < at[j]);
            if b < a {
                assert(order[b] < order[a]);
            }
        }
    } else {
        lemma_layer_numbers(layers, names, group, u, base);
    }
}

/// The layers of a tree in order are in order.
proof fn lemma_tree_layers_in_order(tree: LsmTree)
    requires
        tree.wf(),
    ensures
        forall|l: int|
            0 <= l < tree_layers(tree).len() ==> layer_in_order(#[trigger] tree_layers(tree)[l]),
{
    assert forall|l: int| 0 <= l < tree_layers(tree).len() implies layer_in_order(
        #[trigger] tree_layers(tree)[l],
    ) by {
        if l >= tree.l0@.len() {
            let run = tree.compacted@[l - tree.l0@.len()];
            assert(tree.compacted[l - tree.l0@.len()].wf());
            assert(in_place(views_of_run(run), run.starts()));
        }
    }
}

/// The groups that hold key `u`.
spec fn in_some_group(groups: Seq<GroupView>, u: usize) -> bool {
    exists|g: int| 0 <= g < groups.len() && (#[trigger] groups[g]).keys.contains(u)
}

/// The groups but the last are in order.
proof fn lemma_front_groups(core: ManifestCore, keys: Seq<KeyState>, groups: Seq<GroupView>)
    requires
        in_groups(groups, core, keys),
        groups.len() > 0,
    ensures
        in_groups(groups.drop_last(), core, keys),
{
    let front = groups.drop_last();
    assert forall|g: int, i: int|
        0 <= g < front.len() && 0 <= i < front[g].keys.len() implies {
        let w = #[trigger] front[g].keys[i] as int;
        w < keys.len() && !keys[w].done && core.tree_of(keys[w].key) == Some(front[g].tree)
    } by {
        assert(groups[g].keys[i] as int == front[g].keys[i] as int);
    }
    assert forall|g: int, i: int, j: int|
        0 <= g < front.len() && 0 <= i < j < front[g].keys.len() implies (
    #[trigger] front[g].keys[i]) < (#[trigger] front[g].keys[j]) by {
        assert(groups[g].keys[i] < groups[g].keys[j]);
    }
    assert forall|g: int| 0 <= g < front.len() implies core.valid_ref(
        (#[trigger] front[g]).tree,
    ) && front[g].keys.len() > 0 by {
        assert(groups[g] == front[g]);
    }
    assert forall|g: int, h: int| 0 <= g < h < front.len() implies (#[trigger] front[g]).tree
        != (#[trigger] front[h]).tree by {
        assert(groups[g].tree != groups[h].tree);
    }
}

/// The candidates of a key, over some of the groups.
proof fn lemma_listed_candidates(
    core: ManifestCore,
    keys: Seq<KeyState>,
    groups: Seq<GroupView>,
    u: usize,
)
    requires
        in_groups(groups, core, keys),
        u < keys.len(),
        listed_ssts(core, names_of(keys), groups).len() <= usize::MAX,
    ensures
        candidates_between(
            listed_candidates(core, names_of(keys), groups, u as int),
            0,
            listed_ssts(core, names_of(keys), groups).len(),
        ),
        listed_candidates(core, names_of(keys), groups, u as int).map_values(
            |c: Candidate| listed_ssts(core, names_of(keys), groups)[c.sst as int],
        ) == if in_some_group(groups, u) {
            key_targets(core, keys[u as int].key)
        } else {
            Seq::empty()
        },
    decreases groups.len(),
{
    let names = names_of(keys);
    let ssts = listed_ssts(core, names, groups);
    let found = listed_candidates(core, names, groups, u as int);
    let pick = |c: Candidate| ssts[c.sst as int];
    if groups.len() > 0 {
        let front = groups.drop_last();
        let last = groups.last();
        let at = groups.len() - 1;
        let layers = tree_layers(core.tree_at(last.tree));
        let views = layer_views(layers);
        let base = listed_ssts(core, names, front);
        let target = |v: LeveledView| v.target(core.prefix_at(last.tree));
        let touch = touched_views(layers, names, last.keys);
        assert(ssts == base + touch.map_values(target));
        lemma_front_groups(core, keys, groups);
        lemma_listed_candidates(core, keys, front, u);
        lemma_layer_numbers(layers, names, last.keys, u, base.len());
        let old_found = listed_candidates(core, names, front, u as int);
        let more = layer_numbers(layers, names, last.keys, u as int, base.len());
        assert(found == old_found + more);
        let old_pick = |c: Candidate| base[c.sst as int];
        assert(old_found.map_values(pick) =~= old_found.map_values(old_pick));
        if last.keys.contains(u) {
            let i = choose|i: int| 0 <= i < last.keys.len() && last.keys[i] == u;
            assert(groups[at].keys[i] == u);
            assert(core.tree_of(keys[u as int].key) == Some(last.tree));
            if in_some_group(front, u) {
                let g = choose|g: int| 0 <= g < front.len() && (#[trigger] front[g]).keys.contains(u);
                let j = choose|j: int| 0 <= j < front[g].keys.len() && front[g].keys[j] == u;
                assert(groups[g].keys[j] == u);
                assert(core.tree_of(keys[u as int].key) == Some(groups[g].tree));
                assert(groups[g].tree != groups[at].tree);
            }
            assert(in_some_group(groups, u));
            assert(old_found.len() == 0) by {
                assert(old_found.map_values(old_pick).len() == 0);
            }
            assert(found =~= more);
            let held = views.filter(|v: LeveledView| v.can_hold(names[u as int]));
            assert(names[u as int] == keys[u as int].key);
            assert(found.map_values(pick) =~= held.map_values(target)) by {
                assert(named_views(more, touch, base.len()) == held);
                assert forall|k: int| 0 <= k < more.len() implies pick(#[trigger] more[k])
                    == target(held[k]) by {
                    assert(named_views(more, touch, base.len())[k] == touch[more[k].sst
                        - base.len()]);
                }
            }
        } else {
            assert(more.len() == 0);
            assert(found =~= old_found);
            assert(in_some_group(groups, u) == in_some_group(front, u)) by {
                if in_some_group(front, u) {
                    let g = choose|g: int|
                        0 <= g < front.len() && (#[trigger] front[g]).keys.contains(u);
                    assert(groups[g] == front[g]);
                }
                if in_some_group(groups, u) {
                    let g = choose|g: int|
                        0 <= g < groups.len() && (#[trigger] groups[g]).keys.contains(u);
                    assert(g < front.len());
                    assert(front[g] == groups[g]);
                }
            }
        }
    } else {
        assert(found.map_values(pick) =~= Seq::<TargetView>::empty());
    }
}

/// In a sorted batch the candidates of a key ascend.
proof fn lemma_listed_candidates_ascend(
    core: ManifestCore,
    keys: Seq<KeyState>,
    groups: Seq<GroupView>,
    u: usize,
)
    requires
        in_groups(groups, core, keys),
        u < keys.len(),
        listed_ssts(core, names_of(keys), groups).len() <= usize::MAX,
        core.wf(),
        sorted_keys(names_of(keys)),
    ensures
        candidates_ascend(listed_candidates(core, names_of(keys), groups, u as int)),
    decreases groups.len(),
{
    if groups.len() > 0 {
        let names = names_of(keys);
        let front = groups.drop_last();
        let last = groups.last();
        let at = groups.len() - 1;
        let layers = tree_layers(core.tree_at(last.tree));
        let base = listed_ssts(core, names, front).len();
        assert(groups[at] == last);
        assert(core.valid_ref(groups[at].tree));
        assert(core.tree_at(last.tree).wf()) by {
            if let TreeRef::Segment(s) = last.tree {
                assert(core.segments[s as int].tree.wf());
            }
        }
        lemma_tree_layers_in_order(core.tree_at(last.tree));
        assert forall|i: int, j: int| 0 <= i < j < last.keys.len() implies lex_lt(
            names[#[trigger] last.keys[i] as int],
            names[#[trigger] last.keys[j] as int],
        ) by {
            assert(groups[at].keys[i] < groups[at].keys[j]);
            assert((groups[at].keys[j] as int) < keys.len());
        }
        lemma_front_groups(core, keys, groups);
        lemma_listed_candidates(core, keys, front, u);
        lemma_listed_candidates_ascend(core, keys, front, u);
        lemma_layer_numbers(layers, names, last.keys, u, base);
        lemma_layer_numbers_ascend(layers, names, last.keys, u, base);
    }
}

/// The candidates of an open key are exactly the SSTs that a point read of
/// the key walks, in the same order. A key that is done has none. In a sorted
/// batch the numbers of the candidates ascend.
pub proof fn law_candidates_are_the_ssts_of_a_point_read(
    core: ManifestCore,
    keys: Seq<KeyState>,
    u: int,
)
    requires
        0 <= u < keys.len() <= usize::MAX,
        listed_ssts(core, names_of(keys), grouped(core, keys)).len() <= usize::MAX,
    ensures
        candidates_between(
            listed_candidates(core, names_of(keys), grouped(core, keys), u),
            0,
            listed_ssts(core, names_of(keys), grouped(core, keys)).len(),
        ),
        core.wf() && sorted_keys(names_of(keys)) ==> candidates_ascend(
            listed_candidates(core, names_of(keys), grouped(core, keys), u),
        ),
        listed_candidates(core, names_of(keys), grouped(core, keys), u).map_values(
            |c: Candidate|
                listed_ssts(core, names_of(keys), grouped(core, keys))[c.sst as int],
        ) == if keys[u].done {
            Seq::empty()
        } else {
            key_targets(core, keys[u].key)
        },
{
    let groups = grouped(core, keys);
    law_each_open_key_has_one_group(core, keys);
    lemma_listed_candidates(core, keys, groups, u as usize);
    if core.wf() && sorted_keys(names_of(keys)) {
        lemma_listed_candidates_ascend(core, keys, groups, u as usize);
    }
    if in_some_group(groups, u as usize) {
        let g = choose|g: int| 0 <= g < groups.len() && (#[trigger] groups[g]).keys.contains(u as usize);
        let i = choose|i: int| 0 <= i < groups[g].keys.len() && groups[g].keys[i] == u as usize;
        assert(groups[g].keys[i] as int == u);
        assert(!keys[u].done);
    } else if !keys[u].done {
        assert(core.tree_of(keys[u].key) is None);
    }
}

/// The candidates name `sst`.
pub open spec fn names_sst(candidates: Seq<Candidate>, sst: int) -> bool {
    exists|i: int| 0 <= i < candidates.len() && (#[trigger] candidates[i]).sst == sst
}

/// Each touched view is a candidate of a key of the group.
proof fn lemma_touched_is_named(
    layers: Seq<Seq<LeveledView>>,
    names: Seq<Seq<u8>>,
    group: Seq<usize>,
    base: nat,
    k: int,
)
    requires
        base + touched_views(layers, names, group).len() <= usize::MAX,
        0 <= k < touched_views(layers, names, group).len(),
    ensures
        exists|i: int|
            0 <= i < group.len() && names_sst(
                layer_numbers(layers, names, group, #[trigger] group[i] as int, base),
                base + k,
            ),
    decreases layers.len(),
{
    let front = layers.drop_last();
    let last = layers.last();
    let before = touched_views(front, names, group);
    if k < before.len() {
        lemma_touched_is_named(front, names, group, base, k);
        let i = choose|i: int|
            0 <= i < group.len() && names_sst(
                layer_numbers(front, names, group, #[trigger] group[i] as int, base),
                base + k,
            );
        let old_numbers = layer_numbers(front, names, group, group[i] as int, base);
        let new_numbers = layer_numbers(layers, names, group, group[i] as int, base);
        let j = choose|j: int|
            0 <= j < old_numbers.len() && (#[trigger] old_numbers[j]).sst == base + k;
        assert(new_numbers[j] == old_numbers[j]);
        assert(names_sst(new_numbers, base + k));
    } else {
        let order = touch_order(last, names, group);
        let at = k - before.len();
        let place = order[at];
        lemma_touch_order(last, names, group);
        let i = choose|i: int|
            0 <= i < group.len() && last[place].can_hold(names[#[trigger] group[i] as int]);
        let u = group[i] as int;
        lemma_places(last, names[u], last.len());
        let asked = places(last, names[u], last.len());
        assert(asked.contains(place));
        let j = choose|j: int| 0 <= j < asked.len() && asked[j] == place;
        assert(order.contains(place));
        let idx = order.index_of(place);
        assert(0 <= idx < order.len() && order[idx] == place);
        assert(idx == at);
        assert(group.contains(group[i]));
        let more = numbers(last, names, group, u, base + before.len());
        assert(more[j].sst == base + k);
        let old_numbers = layer_numbers(front, names, group, u, base);
        let new_numbers = layer_numbers(layers, names, group, group[i] as int, base);
        assert(new_numbers[old_numbers.len() + j] == more[j]);
        assert(names_sst(new_numbers, base + k));
    }
}

/// Each SST of the batch is a candidate of some key of a group.
proof fn lemma_listed_is_named(
    core: ManifestCore,
    names: Seq<Seq<u8>>,
    groups: Seq<GroupView>,
    s: int,
)
    requires
        listed_ssts(core, names, groups).len() <= usize::MAX,
        0 <= s < listed_ssts(core, names, groups).len(),
    ensures
        exists|g: int, i: int|
            0 <= g < groups.len() && 0 <= i < groups[g].keys.len() && names_sst(
                listed_candidates(core, names, groups, #[trigger] groups[g].keys[i] as int),
                s,
            ),
    decreases groups.len(),
{
    let front = groups.drop_last();
    let last = groups.last();
    let layers = tree_layers(core.tree_at(last.tree));
    let base = listed_ssts(core, names, front).len();
    if s < base {
        lemma_listed_is_named(core, names, front, s);
        let (g, i) = choose|g: int, i: int|
            0 <= g < front.len() && 0 <= i < front[g].keys.len() && names_sst(
                listed_candidates(core, names, front, #[trigger] front[g].keys[i] as int),
                s,
            );
        let u = front[g].keys[i];
        let old_found = listed_candidates(core, names, front, u as int);
        let found = listed_candidates(core, names, groups, u as int);
        let j = choose|j: int| 0 <= j < old_found.len() && (#[trigger] old_found[j]).sst == s;
        assert(found[j] == old_found[j]);
        assert(groups[g].keys[i] == u);
        assert(names_sst(listed_candidates(core, names, groups, groups[g].keys[i] as int), s));
    } else {
        lemma_touched_is_named(layers, names, last.keys, base, s - base);
        let i = choose|i: int|
            0 <= i < last.keys.len() && names_sst(
                layer_numbers(layers, names, last.keys, #[trigger] last.keys[i] as int, base),
                s,
            );
        let u = last.keys[i];
        let old_found = listed_candidates(core, names, front, u as int);
        let more = layer_numbers(layers, names, last.keys, u as int, base);
        let found = listed_candidates(core, names, groups, u as int);
        let j = choose|j: int| 0 <= j < more.len() && (#[trigger] more[j]).sst == s;
        assert(found[old_found.len() + j] == more[j]);
        let g = groups.len() - 1;
        assert(groups[g].keys[i] == u);
        assert(names_sst(listed_candidates(core, names, groups, groups[g].keys[i] as int), s));
    }
}

/// The batch lists no SST for nothing: each one is a candidate of some open
/// key.
pub proof fn law_each_listed_sst_is_a_candidate(
    core: ManifestCore,
    keys: Seq<KeyState>,
    s: int,
)
    requires
        keys.len() <= usize::MAX,
        listed_ssts(core, names_of(keys), grouped(core, keys)).len() <= usize::MAX,
        0 <= s < listed_ssts(core, names_of(keys), grouped(core, keys)).len(),
    ensures
        exists|u: int|
            0 <= u < keys.len() && !keys[u].done && names_sst(
                #[trigger] listed_candidates(core, names_of(keys), grouped(core, keys), u),
                s,
            ),
{
    let groups = grouped(core, keys);
    law_each_open_key_has_one_group(core, keys);
    lemma_listed_is_named(core, names_of(keys), groups, s);
    let (g, i) = choose|g: int, i: int|
        0 <= g < groups.len() && 0 <= i < groups[g].keys.len() && names_sst(
            listed_candidates(core, names_of(keys), groups, #[trigger] groups[g].keys[i] as int),
            s,
        );
    let u = groups[g].keys[i] as int;
    assert(u < keys.len() && !keys[u].done);
}

// ---------------------------------------------------------------------------
// One number per SST
// ---------------------------------------------------------------------------

/// Where an SST stands: its tree, its layer, and its place in the layer.
pub struct SstPlace {
    pub tree: TreeRef,
    pub layer: int,
    pub place: int,
}

/// Where the touched views of a group stand, in the order of their numbers.
pub open spec fn touched_places(
    layers: Seq<Seq<LeveledView>>,
    names: Seq<Seq<u8>>,
    group: GroupView,
) -> Seq<SstPlace>
    decreases layers.len(),
{
    if layers.len() == 0 {
        Seq::empty()
    } else {
        let l = layers.len() - 1;
        touched_places(layers.drop_last(), names, group) + touch_order(
            layers.last(),
            names,
            group.keys,
        ).map_values(|i: int| SstPlace { tree: group.tree, layer: l, place: i })
    }
}

/// Where the SSTs of the batch stand, in the order of their numbers.
pub open spec fn listed_places(
    core: ManifestCore,
    names: Seq<Seq<u8>>,
    groups: Seq<GroupView>,
) -> Seq<SstPlace>
    decreases groups.len(),
{
    if groups.len() == 0 {
        Seq::empty()
    } else {
        let last = groups.last();
        listed_places(core, names, groups.drop_last()) + touched_places(
            tree_layers(core.tree_at(last.tree)),
            names,
            last,
        )
    }
}

impl ManifestCore {
    /// The SST at a place.
    pub open spec fn view_at(self, at: SstPlace) -> LeveledView {
        tree_layers(self.tree_at(at.tree))[at.layer][at.place]
    }

    /// There is an SST at the place.
    pub open spec fn has_place(self, at: SstPlace) -> bool {
        &&& 0 <= at.layer < tree_layers(self.tree_at(at.tree)).len()
        &&& 0 <= at.place < tree_layers(self.tree_at(at.tree))[at.layer].len()
    }
}

/// The touched views of a group stand at different places.
proof fn lemma_touched_places(
    layers: Seq<Seq<LeveledView>>,
    names: Seq<Seq<u8>>,
    group: GroupView,
)
    ensures
        touched_places(layers, names, group).len() == touched_views(
            layers,
            names,
            group.keys,
        ).len(),
        touched_places(layers, names, group).no_duplicates(),
        forall|k: int|
            0 <= k < touched_places(layers, names, group).len() ==> {
                let at = #[trigger] touched_places(layers, names, group)[k];
                &&& at.tree == group.tree
                &&& 0 <= at.layer < layers.len()
                &&& 0 <= at.place < layers[at.layer].len()
                &&& touched_views(layers, names, group.keys)[k] == layers[at.layer][at.place]
            },
    decreases layers.len(),
{
    if layers.len() > 0 {
        let front = layers.drop_last();
        let last = layers.last();
        let l = layers.len() - 1;
        let before = touched_places(front, names, group);
        let order = touch_order(last, names, group.keys);
        let all = touched_places(layers, names, group);
        lemma_touched_places(front, names, group);
        lemma_touch_order(last, names, group.keys);
        assert forall|k: int| 0 <= k < all.len() implies {
            let at = #[trigger] all[k];
            &&& at.tree == group.tree
            &&& 0 <= at.layer < layers.len()
            &&& 0 <= at.place < layers[at.layer].len()
            &&& touched_views(layers, names, group.keys)[k] == layers[at.layer][at.place]
        } by {
            if k < before.len() {
                assert(all[k] == before[k]);
                assert(layers[before[k].layer] == front[before[k].layer]);
            } else {
                let i = order[k - before.len()];
                assert(0 <= i < last.len());
                assert(layers[l] == last);
            }
        }
        assert forall|i: int, j: int| 0 <= i < all.len() && 0 <= j < all.len() && i != j implies all[i]
            != all[j] by {
            let n = before.len() as int;
            if i < n && j < n {
                assert(before[i] != before[j]);
            } else if i >= n && j >= n {
                assert(order[i - n] != order[j - n]);
            } else if i < n {
                assert(before[i].layer < l);
            } else {
                assert(before[j].layer < l);
            }
        }
    }
}

/// The SSTs of some groups stand at different places.
proof fn lemma_listed_places(core: ManifestCore, keys: Seq<KeyState>, groups: Seq<GroupView>)
    requires
        in_groups(groups, core, keys),
    ensures
        listed_places(core, names_of(keys), groups).len() == listed_ssts(
            core,
            names_of(keys),
            groups,
        ).len(),
        listed_places(core, names_of(keys), groups).no_duplicates(),
        forall|s: int|
            0 <= s < listed_places(core, names_of(keys), groups).len() ==> {
                let at = #[trigger] listed_places(core, names_of(keys), groups)[s];
                &&& core.has_place(at)
                &&& listed_ssts(core, names_of(keys), groups)[s] == core.view_at(at).target(
                    core.prefix_at(at.tree),
                )
                &&& exists|g: int| 0 <= g < groups.len() && (#[trigger] groups[g]).tree == at.tree
            },
    decreases groups.len(),
{
    let names = names_of(keys);
    if groups.len() > 0 {
        let front = groups.drop_last();
        let last = groups.last();
        let g = groups.len() - 1;
        let layers = tree_layers(core.tree_at(last.tree));
        let before = listed_places(core, names, front);
        let more = touched_places(layers, names, last);
        let all = listed_places(core, names, groups);
        let n = before.len() as int;
        assert(groups[g] == last);
        lemma_front_groups(core, keys, groups);
        lemma_listed_places(core, keys, front);
        lemma_touched_places(layers, names, last);
        assert forall|s: int| 0 <= s < all.len() implies {
            let at = #[trigger] all[s];
            &&& core.has_place(at)
            &&& listed_ssts(core, names, groups)[s] == core.view_at(at).target(
                core.prefix_at(at.tree),
            )
            &&& exists|g: int| 0 <= g < groups.len() && (#[trigger] groups[g]).tree == at.tree
        } by {
            if s < n {
                assert(all[s] == before[s]);
                let h = choose|h: int|
                    0 <= h < front.len() && (#[trigger] front[h]).tree == before[s].tree;
                assert(groups[h] == front[h]);
            } else {
                assert(all[s] == more[s - n]);
                assert(more[s - n].tree == groups[g].tree);
            }
        }
        assert forall|i: int, j: int| 0 <= i < n && n <= j < all.len() implies (
        #[trigger] all[i]) != (#[trigger] all[j]) by {
            assert(all[i] == before[i]);
            assert(all[j] == more[j - n]);
            let h = choose|h: int|
                0 <= h < front.len() && (#[trigger] front[h]).tree == before[i].tree;
            assert(groups[h].tree != groups[g].tree);
        }
        assert forall|i: int, j: int| 0 <= i < all.len() && 0 <= j < all.len() && i != j implies all[i]
            != all[j] by {
            if i < n && j < n {
                assert(before[i] != before[j]);
            } else if i >= n && j >= n {
                assert(more[i - n] != more[j - n]);
            }
        }
    }
}

/// The batch lists each SST of the store at most one time: two numbers stand
/// for two places. So a batch visits an SST with one number, for all of its
/// keys.
pub proof fn law_each_sst_has_one_number(core: ManifestCore, keys: Seq<KeyState>)
    requires
        keys.len() <= usize::MAX,
    ensures
        ({
            let ssts = listed_ssts(core, names_of(keys), grouped(core, keys));
            let places = listed_places(core, names_of(keys), grouped(core, keys));
            &&& places.len() == ssts.len()
            &&& places.no_duplicates()
            &&& forall|s: int|
                0 <= s < places.len() ==> core.has_place(#[trigger] places[s]) && ssts[s]
                    == core.view_at(places[s]).target(core.prefix_at(places[s].tree))
        }),
{
    law_each_open_key_has_one_group(core, keys);
    lemma_listed_places(core, keys, grouped(core, keys));
}

/// A tree whose sorted runs share at most border keys.
pub open spec fn runs_disjoint(runs: Seq<SortedRun>) -> bool {
    forall|r: int| 0 <= r < runs.len() ==> (#[trigger] runs[r]).disjoint()
}

/// In such a tree, a point read misses no view that holds its key: the SSTs
/// that it walks are exactly those that hold the key.
pub proof fn law_a_point_read_misses_no_view(tree: LsmTree, i: int, key: Seq<u8>)
    requires
        runs_disjoint(tree.compacted@),
        0 <= i < tree_views(tree).len(),
    ensures
        tree_views(tree)[i].can_hold(key) == tree_views(tree)[i].view.holds(key),
{
    let layers = tree_layers(tree);
    assert forall|l: int, k: int| 0 <= l < layers.len() && 0 <= k < layers[l].len() implies (
    #[trigger] layers[l][k]).can_hold(key) == layers[l][k].view.holds(key) by {
        if l >= tree.l0@.len() {
            let run = tree.compacted@[l - tree.l0@.len()];
            assert(tree.compacted@[l - tree.l0@.len()].disjoint());
            if run.views[k].holds(key) {
                law_covering_views_hold_the_key(run, k, key);
            }
        }
    }
    lemma_layer_views_hold(layers, i, key);
}

/// What holds of each view of each layer holds of all views.
proof fn lemma_layer_views_hold(layers: Seq<Seq<LeveledView>>, i: int, key: Seq<u8>)
    requires
        0 <= i < layer_views(layers).len(),
        forall|l: int, k: int|
            0 <= l < layers.len() && 0 <= k < layers[l].len() ==> (
            #[trigger] layers[l][k]).can_hold(key) == layers[l][k].view.holds(key),
    ensures
        layer_views(layers)[i].can_hold(key) == layer_views(layers)[i].view.holds(key),
    decreases layers.len(),
{
    let front = layers.drop_last();
    let before = layer_views(front);
    if i < before.len() {
        assert forall|l: int, k: int| 0 <= l < front.len() && 0 <= k < front[l].len() implies (
        #[trigger] front[l][k]).can_hold(key) == front[l][k].view.holds(key) by {
            assert(layers[l][k] == front[l][k]);
        }
        lemma_layer_views_hold(front, i, key);
    } else {
        let l = layers.len() - 1;
        assert(layer_views(layers)[i] == layers[l][i - before.len()]);
    }
}

/// A walk over some views reads each view that can hold the key, in their
/// order and one time, and no other.
pub proof fn law_a_walk_reads_each_view_that_can_hold_the_key(
    views: Seq<LeveledView>,
    older: LeveledView,
    key: Seq<u8>,
    segment: Seq<u8>,
)
    ensures
        targets_in(views.push(older), key, segment) == if older.can_hold(key) {
            targets_in(views, key, segment).push(
                TargetView { handle: older.view.sst@, segment, level: older.level },
            )
        } else {
            targets_in(views, key, segment)
        },
        targets_in(Seq::empty(), key, segment).len() == 0,
        older.place is None ==> (older.can_hold(key) <==> older.view.holds(key)),
        older.place matches Some((starts, i)) ==> (older.can_hold(key) <==> older.view.holds(key)
            && covers(starts, i, key)),
{
    let pred = |v: LeveledView| v.can_hold(key);
    let target = |v: LeveledView| v.target(segment);
    views.lemma_filter_push(older, pred);
    Seq::<LeveledView>::empty().lemma_filter_len(pred);
    if older.can_hold(key) {
        assert(views.filter(pred).push(older).map_values(target) =~= views.filter(pred).map_values(
            target,
        ).push(older.target(segment)));
    }
}

/// Where the views of sorted run `r` start among the views of a tree.
pub open spec fn run_offset(tree: LsmTree, r: int) -> int
    decreases r,
{
    if r <= 0 {
        tree.l0@.len() as int
    } else {
        run_offset(tree, r - 1) + tree.compacted@[r - 1].views@.len()
    }
}

/// The views of the L0 part and of the first `n` runs.
proof fn lemma_run_offset(tree: LsmTree, n: int)
    requires
        0 <= n <= tree.compacted@.len(),
    ensures
        layer_views(tree_layers(tree).take(tree.l0@.len() + n)).len() == run_offset(tree, n),
        forall|i: int|
            0 <= i < tree.l0@.len() ==> #[trigger] layer_views(
                tree_layers(tree).take(tree.l0@.len() + n),
            )[i] == (LeveledView { view: tree.l0@[i], level: SstTraceLevel::L0, place: None }),
        forall|r: int, p: int|
            0 <= r < n && 0 <= p < tree.compacted@[r].views@.len() ==> layer_views(
                tree_layers(tree).take(tree.l0@.len() + n),
            )[run_offset(tree, r) + p] == #[trigger] views_of_run(tree.compacted@[r])[p],
        forall|r: int| 0 <= r < n ==> run_offset(tree, r) + tree.compacted@[r].views@.len()
            <= #[trigger] run_offset(tree, n),
        run_offset(tree, n) >= tree.l0@.len(),
        forall|r: int| 0 <= r <= n ==> #[trigger] run_offset(tree, r) >= tree.l0@.len(),
    decreases n,
{
    let layers = tree_layers(tree);
    let m = tree.l0@.len() as int;
    if n == 0 {
        lemma_l0_views(tree, m);
    } else {
        lemma_run_offset(tree, n - 1);
        let before = layer_views(layers.take(m + n - 1));
        let now = layers.take(m + n);
        assert(now.drop_last() =~= layers.take(m + n - 1));
        assert(now.last() == views_of_run(tree.compacted@[n - 1]));
        let all = layer_views(now);
        assert(all == before + views_of_run(tree.compacted@[n - 1]));
        assert forall|r: int| 0 <= r < n implies run_offset(tree, r)
            + tree.compacted@[r].views@.len() <= #[trigger] run_offset(tree, n) by {
            if r < n - 1 {
                assert(run_offset(tree, r) + tree.compacted@[r].views@.len() <= run_offset(
                    tree,
                    n - 1,
                ));
            }
        }
        assert forall|r: int, p: int|
            0 <= r < n && 0 <= p < tree.compacted@[r].views@.len() implies all[run_offset(tree, r)
            + p] == #[trigger] views_of_run(tree.compacted@[r])[p] by {
            if r < n - 1 {
                assert(run_offset(tree, r) + tree.compacted@[r].views@.len() <= run_offset(
                    tree,
                    n - 1,
                ));
                assert(run_offset(tree, r) >= m);
                assert(before[run_offset(tree, r) + p] == views_of_run(tree.compacted@[r])[p]);
            }
        }
        assert forall|i: int| 0 <= i < m implies #[trigger] all[i] == (LeveledView {
            view: tree.l0@[i],
            level: SstTraceLevel::L0,
            place: None,
        }) by {
            assert(before[i] == all[i]);
        }
    }
}

/// The views of the first `n` SSTs of L0.
proof fn lemma_l0_views(tree: LsmTree, n: int)
    requires
        0 <= n <= tree.l0@.len(),
    ensures
        layer_views(tree_layers(tree).take(n)).len() == n,
        forall|i: int|
            0 <= i < n ==> #[trigger] layer_views(tree_layers(tree).take(n))[i] == (LeveledView {
                view: tree.l0@[i],
                level: SstTraceLevel::L0,
                place: None,
            }),
    decreases n,
{
    if n > 0 {
        lemma_l0_views(tree, n - 1);
        let now = tree_layers(tree).take(n);
        assert(now.drop_last() =~= tree_layers(tree).take(n - 1));
        assert(now.last().len() == 1);
    }
}

/// A tree is walked newest first: all SSTs of L0 in their order, then the
/// sorted runs in their order, each with all of its SSTs in key order. No SST
/// is left out, and none comes twice.
pub proof fn law_a_tree_is_walked_newest_first(tree: LsmTree)
    ensures
        tree_views(tree).len() == run_offset(tree, tree.compacted@.len() as int),
        forall|i: int|
            0 <= i < tree.l0@.len() ==> (#[trigger] tree_views(tree)[i]).view == tree.l0@[i]
                && tree_views(tree)[i].level == SstTraceLevel::L0 && tree_views(tree)[i].place
                is None,
        forall|r: int, p: int|
            0 <= r < tree.compacted@.len() && 0 <= p < tree.compacted@[r].views@.len() ==> {
                let v = tree_views(tree)[run_offset(tree, r) + p];
                &&& v.view == #[trigger] tree.compacted@[r].views@[p]
                &&& v.level == SstTraceLevel::SortedRun(tree.compacted@[r].id)
                &&& v.place == Some((tree.compacted@[r].starts(), p))
            },
{
    let n = tree.compacted@.len() as int;
    lemma_run_offset(tree, n);
    assert(tree_layers(tree).take(tree.l0@.len() + n) =~= tree_layers(tree));
    assert forall|i: int| 0 <= i < tree.l0@.len() implies (#[trigger] tree_views(tree)[i]).view
        == tree.l0@[i] && tree_views(tree)[i].level == SstTraceLevel::L0 && tree_views(
        tree,
    )[i].place is None by {
        assert(layer_views(tree_layers(tree).take(tree.l0@.len() + n))[i].place is None);
    }
    assert forall|r: int, p: int|
        0 <= r < n && 0 <= p < tree.compacted@[r].views@.len() implies {
        let v = tree_views(tree)[run_offset(tree, r) + p];
        &&& v.view == #[trigger] tree.compacted@[r].views@[p]
        &&& v.level == SstTraceLevel::SortedRun(tree.compacted@[r].id)
        &&& v.place == Some((tree.compacted@[r].starts(), p))
    } by {
        let v = views_of_run(tree.compacted@[r])[p];
        assert(v.view == tree.compacted@[r].views@[p]);
    }
}

/// A point read walks the tree that covers its key, with the prefix of that
/// tree. A key that no tree covers has no SST.
pub proof fn law_a_point_read_walks_the_tree_of_its_key(core: ManifestCore, key: Seq<u8>)
    ensures
        core.segments.len() == 0 ==> key_targets(core, key) == targets_in(
            tree_views(core.tree),
            key,
            Seq::empty(),
        ),
        core.tree_of(key) matches Some(TreeRef::Segment(s)) ==> key_targets(core, key)
            == targets_in(
            tree_views(core.segments[s as int].tree),
            key,
            content(core.segments[s as int].prefix),
        ),
        core.tree_of(key) is None ==> key_targets(core, key).len() == 0,
{
}

/// Loaded filters say of a key that they pass it exactly when each of them
/// does, and filters that are not loaded say nothing.
pub proof fn law_an_sst_answers_with_each_of_its_filters<F: Filter>(
    sst: SstState<F>,
    key: Seq<u8>,
    context: Option<F::Context>,
)
    ensures
        sst.filters is NotLoaded || sst.filters is Loading ==> sst.answer(key, context) is None,
        sst.filters matches FiltersView::Loaded(filters) ==> (sst.answer(key, context) == Some(
            false,
        ) <==> exists|i: int|
            0 <= i < filters.len() && !(#[trigger] filters[i]).filter.passes(key, context)),
        sst.filters matches FiltersView::Loaded(filters) ==> (sst.answer(key, context) == Some(true)
            <==> forall|i: int|
            0 <= i < filters.len() ==> (#[trigger] filters[i]).filter.passes(key, context)),
        sst.filters is Loaded ==> sst.answer(key, context) is Some,
{
    if let FiltersView::Loaded(filters) = sst.filters {
        law_a_key_passes_when_each_filter_passes_it(filters, key, context);
    }
}

/// A check of a key by at least one filter counts as one probe, and as one
/// positive when the key passes. With no filter, nothing counts.
pub proof fn law_a_check_counts_one_time<F: Filter>(
    sst: SstState<F>,
    filters: Seq<NamedFilter<F>>,
    answer: Option<bool>,
)
    requires
        sst.filters == FiltersView::Loaded(filters),
        sst.probes < u64::MAX,
        sst.positives < u64::MAX,
    ensures
        sst.probed(1, answer).probes == sst.probes + (if filters.len() > 0 {
            1int
        } else {
            0
        }),
        sst.probed(1, answer).positives == sst.positives + (if filters.len() > 0 && answer == Some(
            true,
        ) {
            1int
        } else {
            0
        }),
        sst.probed(1, answer).target == sst.target,
        sst.probed(1, answer).filters == sst.filters,
        sst.probed(1, answer).index == sst.index,
{
}

/// The groups come in the order of their first keys.
pub proof fn law_groups_come_in_the_order_of_their_keys(core: ManifestCore, keys: Seq<KeyState>)
    requires
        keys.len() <= usize::MAX,
    ensures
        forall|g: int, h: int|
            0 <= g < h < grouped(core, keys).len() ==> (#[trigger] grouped(core, keys)[g]).keys[0]
                < (#[trigger] grouped(core, keys)[h]).keys[0],
    decreases keys.len(),
{
    if keys.len() > 0 {
        let front = keys.drop_last();
        let before = grouped(core, front);
        let after = grouped(core, keys);
        law_groups_come_in_the_order_of_their_keys(core, front);
        law_each_open_key_has_one_group(core, front);
        match core.tree_of(keys.last().key) {
            Some(tree) if !keys.last().done => {
                lemma_group_of_finds(before, tree);
                assert forall|g: int, h: int| 0 <= g < h < after.len() implies (
                #[trigger] after[g]).keys[0] < (#[trigger] after[h]).keys[0] by {
                    assert(before[g].keys.len() > 0);
                    assert(after[g].keys[0] == before[g].keys[0]);
                    if h < before.len() {
                        assert(before[h].keys.len() > 0);
                        assert(after[h].keys[0] == before[h].keys[0]);
                        assert(before[g].keys[0] < before[h].keys[0]);
                    } else {
                        let u = before[g].keys[0] as int;
                        assert(u < front.len());
                        assert(after[h].keys == seq![(keys.len() - 1) as usize]);
                    }
                }
            },
            _ => {},
        }
    }
}

} // verus!
