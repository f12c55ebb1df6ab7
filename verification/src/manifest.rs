//! The shape of the store: SSTs, sorted runs, and segments.

use bytes::Bytes;
use core::ops::Range;
use vstd::prelude::*;

use crate::octets::{
    as_slice,
    bytes_of,
    content,
    key_le,
    key_eq,
    lemma_lex_lt_is_not_ge,
    lemma_lex_reflexive,
    lemma_lex_total,
    lex_le,
    lex_lt,
    share,
};
use crate::partitions::{ascending, covers, partitions_covering_key, partitions_ending_at, Partitioned};

verus! {

/// Where an SST stands in its tree.
#[derive(Clone, Copy, Debug, PartialEq, Eq, Structural)]
pub enum SstTraceLevel {
    L0,
    SortedRun(u32),
}

/// The key range of an SST.
#[derive(Debug, PartialEq, Eq)]
pub struct SsTableInfo {
    pub first_entry: Option<Bytes>,
    pub last_entry: Option<Bytes>,
}

/// One SST object.
#[derive(Debug, PartialEq, Eq)]
pub struct SsTableHandle {
    pub id: u128,
    pub format_version: u16,
    pub info: SsTableInfo,
}

/// What a [`SsTableHandle`] says.
pub struct HandleView {
    pub id: u128,
    pub format_version: u16,
    pub first_entry: Option<Seq<u8>>,
    pub last_entry: Option<Seq<u8>>,
}

/// The bytes of an optional key.
pub open spec fn key_of(key: Option<Bytes>) -> Option<Seq<u8>> {
    match key {
        Some(key) => Some(content(key)),
        None => None,
    }
}

/// A clone of an optional key.
pub(crate) fn share_option(key: &Option<Bytes>) -> (copy: Option<Bytes>)
    ensures
        key_of(copy) == key_of(*key),
{
    match key {
        Some(key) => Some(share(key)),
        None => None,
    }
}

impl View for SsTableHandle {
    type V = HandleView;

    open spec fn view(&self) -> HandleView {
        HandleView {
            id: self.id,
            format_version: self.format_version,
            first_entry: key_of(self.info.first_entry),
            last_entry: key_of(self.info.last_entry),
        }
    }
}

impl Clone for SsTableHandle {
    fn clone(&self) -> (copy: Self)
        ensures
            copy@ == self@,
    {
        SsTableHandle {
            id: self.id,
            format_version: self.format_version,
            info: SsTableInfo {
                first_entry: share_option(&self.info.first_entry),
                last_entry: share_option(&self.info.last_entry),
            },
        }
    }
}

/// One end of a key range.
#[derive(Debug, PartialEq, Eq)]
pub enum KeyBound {
    Unbounded,
    Included(Bytes),
    Excluded(Bytes),
}

/// A range of keys.
#[derive(Debug, PartialEq, Eq)]
pub struct BytesRange {
    pub start: KeyBound,
    pub end: KeyBound,
}

/// What a [`KeyBound`] says.
pub enum BoundView {
    Unbounded,
    Included(Seq<u8>),
    Excluded(Seq<u8>),
}

impl View for KeyBound {
    type V = BoundView;

    open spec fn view(&self) -> BoundView {
        match *self {
            KeyBound::Unbounded => BoundView::Unbounded,
            KeyBound::Included(key) => BoundView::Included(content(key)),
            KeyBound::Excluded(key) => BoundView::Excluded(content(key)),
        }
    }
}

impl Clone for KeyBound {
    fn clone(&self) -> (copy: Self)
        ensures
            copy@ == self@,
    {
        match self {
            KeyBound::Unbounded => KeyBound::Unbounded,
            KeyBound::Included(key) => KeyBound::Included(share(key)),
            KeyBound::Excluded(key) => KeyBound::Excluded(share(key)),
        }
    }
}

impl BytesRange {
    /// `key` is in the range.
    pub open spec fn contains_key(self, key: Seq<u8>) -> bool {
        &&& match self.start {
            KeyBound::Unbounded => true,
            KeyBound::Included(start) => lex_le(content(start), key),
            KeyBound::Excluded(start) => lex_lt(content(start), key),
        }
        &&& match self.end {
            KeyBound::Unbounded => true,
            KeyBound::Included(end) => lex_le(key, content(end)),
            KeyBound::Excluded(end) => lex_lt(key, content(end)),
        }
    }

    /// Whether `key` is in the range.
    pub fn contains(&self, key: &[u8]) -> (inside: bool)
        ensures
            inside == self.contains_key(key@),
    {
        let after_start = match &self.start {
            KeyBound::Unbounded => true,
            KeyBound::Included(start) => key_le(as_slice(start), key),
            KeyBound::Excluded(start) => {
                proof {
                    lemma_lex_lt_is_not_ge(content(*start), key@);
                }
                !key_le(key, as_slice(start))
            },
        };
        let before_end = match &self.end {
            KeyBound::Unbounded => true,
            KeyBound::Included(end) => key_le(key, as_slice(end)),
            KeyBound::Excluded(end) => {
                proof {
                    lemma_lex_lt_is_not_ge(key@, content(*end));
                }
                !key_le(as_slice(end), key)
            },
        };
        after_start && before_end
    }
}

/// An SST as one database sees it. A clone can see a part of the keys only.
#[derive(Debug, PartialEq, Eq)]
pub struct SsTableView {
    pub sst: SsTableHandle,
    /// The visible keys, or `None` when all keys are visible.
    pub visible: Option<BytesRange>,
}

/// What a [`SsTableView`] says.
pub struct SstViewState {
    pub handle: HandleView,
    /// The two ends of the visible keys.
    pub visible: Option<(BoundView, BoundView)>,
}

impl View for SsTableView {
    type V = SstViewState;

    open spec fn view(&self) -> SstViewState {
        SstViewState {
            handle: self.sst@,
            visible: match self.visible {
                Some(range) => Some((range.start@, range.end@)),
                None => None,
            },
        }
    }
}

impl Clone for SsTableView {
    fn clone(&self) -> (copy: Self)
        ensures
            copy@ == self@,
    {
        let visible = match &self.visible {
            Some(range) => Some(
                BytesRange { start: range.start.clone(), end: range.end.clone() },
            ),
            None => None,
        };
        SsTableView { sst: self.sst.clone(), visible }
    }
}

impl SsTableView {
    /// A view that sees all keys of the SST.
    pub fn identity(sst: SsTableHandle) -> (view: Self)
        ensures
            view.sst == sst,
            view.visible is None,
    {
        SsTableView { sst, visible: None }
    }

    /// A view that sees only the keys of `visible`.
    pub fn new_projected(sst: SsTableHandle, visible: Option<BytesRange>) -> (view: Self)
        ensures
            view.sst == sst,
            view.visible == visible,
    {
        SsTableView { sst, visible }
    }

    /// The SST can hold `key`, and the view does not hide it.
    pub open spec fn holds(self, key: Seq<u8>) -> bool {
        &&& match self.sst@.first_entry {
            Some(first) => lex_le(first, key),
            None => true,
        }
        &&& match self.sst@.last_entry {
            Some(last) => lex_le(key, last),
            None => true,
        }
        &&& match self.visible {
            Some(range) => range.contains_key(key),
            None => true,
        }
    }

    /// The first key that the view can show: the first key of the SST, or the
    /// start of the visible keys when that is later.
    pub open spec fn effective_start(self) -> Seq<u8> {
        let first = match self.sst@.first_entry {
            Some(first) => first,
            None => Seq::empty(),
        };
        match self.visible {
            Some(range) => match range.start {
                KeyBound::Unbounded => first,
                KeyBound::Included(start) | KeyBound::Excluded(start) => if lex_le(
                    first,
                    content(start),
                ) {
                    content(start)
                } else {
                    first
                },
            },
            None => first,
        }
    }

    /// The first key that the view can show.
    pub fn compacted_effective_start_key(&self) -> (key: &[u8])
        ensures
            key@ == self.effective_start(),
    {
        let first: &[u8] = match &self.sst.info.first_entry {
            Some(first) => as_slice(first),
            None => {
                let none: &[u8] = &[];
                assert(none@ =~= Seq::<u8>::empty());
                none
            },
        };
        match &self.visible {
            Some(range) => match &range.start {
                KeyBound::Unbounded => first,
                KeyBound::Included(start) | KeyBound::Excluded(start) => {
                    let start = as_slice(start);
                    if key_le(first, start) {
                        start
                    } else {
                        first
                    }
                },
            },
            None => first,
        }
    }
}

/// No key that a view holds comes before the start of the view.
pub proof fn lemma_held_keys_are_past_the_start(view: SsTableView, key: Seq<u8>)
    requires
        view.holds(key),
    ensures
        lex_le(view.effective_start(), key),
{
}

/// Whether `view` can hold `key`.
pub fn view_holds_key(view: &SsTableView, key: &[u8]) -> (holds: bool)
    ensures
        holds == view.holds(key@),
{
    if let Some(first) = &view.sst.info.first_entry {
        if !key_le(as_slice(first), key) {
            return false;
        }
    }
    if let Some(last) = &view.sst.info.last_entry {
        if !key_le(key, as_slice(last)) {
            return false;
        }
    }
    match &view.visible {
        Some(range) => range.contains(key),
        None => true,
    }
}

/// A sorted run: SSTs that follow each other in the key space.
#[derive(Debug, PartialEq, Eq)]
pub struct SortedRun {
    pub id: u32,
    pub views: Vec<SsTableView>,
}

impl Partitioned for SortedRun {
    open spec fn starts(&self) -> Seq<Seq<u8>> {
        self.views@.map_values(|view: SsTableView| view.effective_start())
    }

    fn partitions(&self) -> usize {
        self.views.len()
    }

    fn partition_start(&self, i: usize) -> &[u8] {
        self.views[i].compacted_effective_start_key()
    }
}

impl SortedRun {
    /// The views are in key order.
    pub open spec fn wf(self) -> bool {
        ascending(self.starts())
    }

    /// Two views share at most their border key.
    pub open spec fn disjoint(self) -> bool {
        forall|i: int, j: int, key: Seq<u8>|
            0 <= i < j < self.views.len() && #[trigger] self.views[i].holds(key) ==> lex_le(
                key,
                (#[trigger] self.views[j]).effective_start(),
            )
    }

    /// The views of the run.
    pub fn sst_views(&self) -> (views: &Vec<SsTableView>)
        ensures
            *views == self.views,
    {
        &self.views
    }

    /// The views that can hold `key`, by their start keys alone.
    pub fn point_table_idx_covering_key(&self, key: &[u8]) -> (r: Range<usize>)
        requires
            self.wf(),
        ensures
            r.start <= r.end <= self.views.len(),
            forall|i: int| r.start <= i < r.end <==> #[trigger] covers(self.starts(), i, key@),
    {
        partitions_covering_key(self, key)
    }

    /// The same as [`Self::point_table_idx_covering_key`], when `last` is
    /// the last view that starts at or before `key`.
    pub fn point_table_idx_ending_at(&self, key: &[u8], last: usize) -> (r: Range<usize>)
        requires
            self.wf(),
            last < self.views.len(),
            lex_le(self.starts()[last as int], key@),
            last + 1 < self.views.len() ==> !lex_le(self.starts()[last + 1], key@),
        ensures
            r.start <= last,
            r.end == last + 1,
            forall|i: int| r.start <= i < r.end <==> #[trigger] covers(self.starts(), i, key@),
    {
        partitions_ending_at(self, key, last)
    }
}

/// In a sorted run whose views share at most their border keys, the search by
/// start keys misses no view that holds the key.
pub proof fn law_covering_views_hold_the_key(run: SortedRun, i: int, key: Seq<u8>)
    requires
        run.disjoint(),
        0 <= i < run.views.len(),
        run.views[i].holds(key),
    ensures
        covers(run.starts(), i, key),
{
    lemma_held_keys_are_past_the_start(run.views[i], key);
    if i + 1 < run.views.len() {
        assert(run.starts()[i + 1] == run.views[i + 1].effective_start());
    }
}

/// One LSM tree, newest first: the L0 SSTs, then the sorted runs.
#[derive(Debug, PartialEq, Eq)]
pub struct LsmTree {
    pub l0: Vec<SsTableView>,
    pub compacted: Vec<SortedRun>,
}

impl LsmTree {
    /// Each sorted run is in key order.
    pub open spec fn wf(self) -> bool {
        forall|r: int| 0 <= r < self.compacted.len() ==> (#[trigger] self.compacted[r]).wf()
    }
}

/// A part of the key space with its own tree.
#[derive(Debug, PartialEq, Eq)]
pub struct Segment {
    pub prefix: Bytes,
    pub tree: LsmTree,
}

/// The state of the store: one default tree, or one tree per segment.
#[derive(Debug, PartialEq, Eq)]
pub struct ManifestCore {
    pub tree: LsmTree,
    pub segments: Vec<Segment>,
}

/// The tree that covers a key.
#[derive(Clone, Copy, Debug, PartialEq, Eq, Structural)]
pub enum TreeRef {
    /// The default tree of a store with no segments.
    Default,
    /// The tree of this segment.
    Segment(usize),
}

/// `prefix` is the start of `key`.
pub open spec fn has_prefix(key: Seq<u8>, prefix: Seq<u8>) -> bool {
    prefix.len() <= key.len() && key.take(prefix.len() as int) == prefix
}

/// Whether `prefix` is the start of `key`.
pub fn starts_with(key: &[u8], prefix: &[u8]) -> (starts: bool)
    ensures
        starts == has_prefix(key@, prefix@),
{
    if prefix.len() > key.len() {
        return false;
    }
    key_eq(vstd::slice::slice_subrange(key, 0, prefix.len()), prefix)
}

impl ManifestCore {
    /// Each tree is in order.
    pub open spec fn wf(self) -> bool {
        &&& self.tree.wf()
        &&& forall|s: int| 0 <= s < self.segments.len() ==> (#[trigger] self.segments[s]).tree.wf()
    }

    /// Segment `s` covers `key`.
    pub open spec fn segment_covers(self, s: int, key: Seq<u8>) -> bool {
        0 <= s < self.segments.len() && has_prefix(key, content(self.segments[s].prefix))
    }

    /// The tree that covers `key`. With no segments, this is the default
    /// tree. With segments, it is the last segment whose prefix starts the
    /// key, or none at all: then no SST holds the key.
    pub open spec fn tree_of(self, key: Seq<u8>) -> Option<TreeRef> {
        if self.segments.len() == 0 {
            Some(TreeRef::Default)
        } else if exists|s: int| self.segment_covers(s, key) {
            Some(
                TreeRef::Segment(
                    (choose|s: int|
                        self.segment_covers(s, key) && forall|t: int|
                            #[trigger] self.segment_covers(t, key) ==> t <= s) as usize,
                ),
            )
        } else {
            None
        }
    }

    /// `tree` names a tree of the store.
    pub open spec fn valid_ref(self, tree: TreeRef) -> bool {
        match tree {
            TreeRef::Default => true,
            TreeRef::Segment(s) => s < self.segments.len(),
        }
    }

    /// The tree behind a reference.
    pub open spec fn tree_at(self, tree: TreeRef) -> LsmTree {
        match tree {
            TreeRef::Default => self.tree,
            TreeRef::Segment(s) => self.segments[s as int].tree,
        }
    }

    /// The key prefix of a tree. The default tree covers all keys.
    pub open spec fn prefix_at(self, tree: TreeRef) -> Seq<u8> {
        match tree {
            TreeRef::Default => Seq::empty(),
            TreeRef::Segment(s) => content(self.segments[s as int].prefix),
        }
    }

    /// Select the tree that covers `key`.
    pub fn select_tree(&self, key: &[u8]) -> (tree: Option<TreeRef>)
        ensures
            tree == self.tree_of(key@),
            tree matches Some(tree) ==> self.valid_ref(tree),
    {
        if self.segments.len() == 0 {
            return Some(TreeRef::Default);
        }
        let mut s: usize = self.segments.len();
        while s > 0
            invariant
                s <= self.segments.len(),
                self.segments.len() > 0,
                forall|t: int| s <= t < self.segments.len() ==> !#[trigger] self.segment_covers(t, key@),
            decreases s,
        {
            s = s - 1;
            if starts_with(key, as_slice(&self.segments[s].prefix)) {
                proof {
                    assert(self.segment_covers(s as int, key@));
                    assert forall|t: int| #[trigger] self.segment_covers(t, key@) implies t <= s by {}
                    let chosen = choose|c: int|
                        self.segment_covers(c, key@) && forall|t: int|
                            #[trigger] self.segment_covers(t, key@) ==> t <= c;
                    assert(chosen == s);
                }
                return Some(TreeRef::Segment(s));
            }
        }
        assert(forall|t: int| !#[trigger] self.segment_covers(t, key@));
        None
    }

    /// The tree behind a reference.
    pub fn tree(&self, tree: TreeRef) -> (lsm: &LsmTree)
        requires
            self.valid_ref(tree),
        ensures
            *lsm == self.tree_at(tree),
    {
        match tree {
            TreeRef::Default => &self.tree,
            TreeRef::Segment(s) => &self.segments[s].tree,
        }
    }

    /// The key prefix of a tree.
    pub fn prefix(&self, tree: TreeRef) -> (prefix: Bytes)
        requires
            self.valid_ref(tree),
        ensures
            content(prefix) == self.prefix_at(tree),
    {
        match tree {
            TreeRef::Default => {
                let prefix = bytes_of(&[]);
                assert(content(prefix) =~= Seq::<u8>::empty());
                prefix
            },
            TreeRef::Segment(s) => share(&self.segments[s].prefix),
        }
    }
}

/// The tree that covers a key is a tree of the store.
pub proof fn lemma_tree_of_is_valid(core: ManifestCore, key: Seq<u8>)
    ensures
        core.tree_of(key) matches Some(tree) ==> core.valid_ref(tree),
{
    if core.segments.len() > 0 && exists|s: int| core.segment_covers(s, key) {
        let s = choose|s: int| core.segment_covers(s, key);
        lemma_last_cover(core, key, s);
    }
}

/// Among the segments that cover a key, one is the last.
proof fn lemma_last_cover(core: ManifestCore, key: Seq<u8>, from: int)
    requires
        core.segment_covers(from, key),
    ensures
        exists|s: int|
            core.segment_covers(s, key) && forall|t: int|
                #[trigger] core.segment_covers(t, key) ==> t <= s,
    decreases core.segments.len() - from,
{
    if exists|t: int| #[trigger] core.segment_covers(t, key) && t > from {
        let t = choose|t: int| #[trigger] core.segment_covers(t, key) && t > from;
        lemma_last_cover(core, key, t);
    } else {
        assert(forall|t: int| #[trigger] core.segment_covers(t, key) ==> t <= from);
    }
}

/// A key starts with a prefix exactly when it is the prefix and some rest.
pub proof fn law_a_key_is_its_prefix_and_a_rest(key: Seq<u8>, prefix: Seq<u8>, rest: Seq<u8>)
    ensures
        has_prefix(prefix + rest, prefix),
        has_prefix(key, prefix) ==> key == prefix + key.skip(prefix.len() as int),
{
    assert((prefix + rest).take(prefix.len() as int) =~= prefix);
    if has_prefix(key, prefix) {
        assert(key =~= key.take(prefix.len() as int) + key.skip(prefix.len() as int));
    }
}

/// With segments, a key goes to the last segment whose prefix and some rest
/// are the key, and to no tree when there is none. With no segments, each key
/// goes to the default tree.
pub proof fn law_a_key_goes_to_the_segment_that_starts_it(core: ManifestCore, key: Seq<u8>)
    ensures
        core.tree_of(key) matches Some(TreeRef::Segment(s)) ==> s < core.segments.len() && (
        exists|rest: Seq<u8>| key == #[trigger] (content(core.segments[s as int].prefix) + rest)),
        forall|t: int, rest: Seq<u8>|
            0 <= t < core.segments.len() && key == #[trigger] (content(core.segments[t].prefix)
                + rest) ==> (core.tree_of(key) matches Some(TreeRef::Segment(s)) && t <= s),
        core.segments.len() == 0 <==> core.tree_of(key) == Some(TreeRef::Default),
{
    assert forall|t: int, rest: Seq<u8>|
        0 <= t < core.segments.len() && key == #[trigger] (content(core.segments[t].prefix)
            + rest) implies (core.tree_of(key) matches Some(TreeRef::Segment(s)) && t <= s) by {
        law_a_key_is_its_prefix_and_a_rest(key, content(core.segments[t].prefix), rest);
        assert(core.segment_covers(t, key));
        lemma_last_cover(core, key, t);
    }
    if exists|s: int| core.segment_covers(s, key) {
        let from = choose|s: int| core.segment_covers(s, key);
        lemma_last_cover(core, key, from);
        let s = choose|s: int|
            core.segment_covers(s, key) && forall|t: int|
                #[trigger] core.segment_covers(t, key) ==> t <= s;
        let prefix = content(core.segments[s].prefix);
        law_a_key_is_its_prefix_and_a_rest(key, prefix, Seq::empty());
        assert(key == prefix + key.skip(prefix.len() as int));
    }
}

/// A reference to a tree stands for that tree and its prefix.
pub proof fn law_a_reference_stands_for_its_segment(core: ManifestCore, s: usize)
    requires
        s < core.segments.len(),
    ensures
        core.tree_at(TreeRef::Segment(s)) == core.segments[s as int].tree,
        core.prefix_at(TreeRef::Segment(s)) == content(core.segments[s as int].prefix),
        core.tree_at(TreeRef::Default) == core.tree,
        core.prefix_at(TreeRef::Default).len() == 0,
{
}

/// A view that hides nothing holds exactly the keys from the first key of its
/// SST to the last one, both of them too.
pub proof fn law_a_view_holds_the_keys_of_its_sst(view: SsTableView, key: Seq<u8>)
    requires
        view.visible is None,
    ensures
        view.holds(key) <==> (view.sst.info.first_entry matches Some(first) ==> lex_le(
            content(first),
            key,
        )) && (view.sst.info.last_entry matches Some(last) ==> lex_le(key, content(last))),
{
}

/// A view of a range shows what the SST holds inside the range, and nothing
/// else.
pub proof fn law_a_projection_shows_its_range(
    view: SsTableView,
    whole: SsTableView,
    range: BytesRange,
    key: Seq<u8>,
)
    requires
        whole.sst == view.sst,
        whole.visible is None,
        view.visible == Some(range),
    ensures
        view.holds(key) <==> whole.holds(key) && range.contains_key(key),
{
}

/// A range holds the keys between its two ends. An included end is in it, an
/// excluded one is not, and an open end hides no key.
pub proof fn law_a_range_holds_the_keys_between_its_ends(range: BytesRange, key: Seq<u8>)
    ensures
        range.contains_key(key) ==> (range.start matches KeyBound::Included(start) ==> lex_le(
            content(start),
            key,
        )),
        range.contains_key(key) ==> (range.start matches KeyBound::Excluded(start) ==> lex_le(
            content(start),
            key,
        ) && key != content(start)),
        range.contains_key(key) ==> (range.end matches KeyBound::Included(end) ==> lex_le(
            key,
            content(end),
        )),
        range.contains_key(key) ==> (range.end matches KeyBound::Excluded(end) ==> lex_le(
            key,
            content(end),
        ) && key != content(end)),
        !range.contains_key(key) ==> (range.start matches KeyBound::Included(start) && !lex_le(
            content(start),
            key,
        )) || (range.start matches KeyBound::Excluded(start) && lex_le(key, content(start))) || (
        range.end matches KeyBound::Included(end) && !lex_le(key, content(end))) || (
        range.end matches KeyBound::Excluded(end) && lex_le(content(end), key)),
{
    if let KeyBound::Excluded(start) = range.start {
        lemma_lex_lt_is_not_ge(content(start), key);
    }
    if let KeyBound::Excluded(end) = range.end {
        lemma_lex_lt_is_not_ge(key, content(end));
    }
}

/// A view starts at the first key of its SST or at the start of its range,
/// whichever is later, and holds no key before that.
pub proof fn law_a_view_starts_at_the_later_start(view: SsTableView, key: Seq<u8>)
    ensures
        view.holds(key) ==> lex_le(view.effective_start(), key),
        view.visible is None ==> view.effective_start() == (match view.sst.info.first_entry {
            Some(first) => content(first),
            None => Seq::<u8>::empty(),
        }),
        view.sst.info.first_entry matches Some(first) ==> lex_le(
            content(first),
            view.effective_start(),
        ),
        view.visible matches Some(range) ==> (range.start matches KeyBound::Included(start)
            ==> lex_le(content(start), view.effective_start())),
        view.visible matches Some(range) ==> (range.start matches KeyBound::Excluded(start)
            ==> lex_le(content(start), view.effective_start())),
        (view.sst.info.first_entry matches Some(first) && view.effective_start() == content(first))
            || view.effective_start().len() == 0 || (view.visible matches Some(range) && (
        range.start matches KeyBound::Included(start) && view.effective_start() == content(start)))
            || (view.visible matches Some(range) && (range.start matches KeyBound::Excluded(start)
            && view.effective_start() == content(start))),
{
    let first = match view.sst@.first_entry {
        Some(first) => first,
        None => Seq::empty(),
    };
    lemma_lex_reflexive(first);
    if let Some(range) = view.visible {
        match range.start {
            KeyBound::Included(start) | KeyBound::Excluded(start) => {
                lemma_lex_reflexive(content(start));
                lemma_lex_total(first, content(start));
            },
            KeyBound::Unbounded => {},
        }
    }
    if view.holds(key) {
        lemma_held_keys_are_past_the_start(view, key);
    }
}

} // verus!
