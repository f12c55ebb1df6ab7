//! What a point read takes from the layers of the store.
//!
//! A point read walks the versions of its key newest first. It skips each
//! version above its sequence bound, and it stops at the first base value,
//! because a base value shadows everything older.

use vstd::prelude::*;

use crate::types::EntryView;

verus! {

/// An entry above the sequence bound is not visible.
pub open spec fn visible(entry: EntryView, max_seq: Option<u64>) -> bool {
    match max_seq {
        Some(bound) => entry.seq <= bound,
        None => true,
    }
}

/// The versions that a point read takes: the visible ones, down to the first
/// visible base value.
pub open spec fn taken(entries: Seq<EntryView>, max_seq: Option<u64>) -> Seq<EntryView>
    decreases entries.len(),
{
    if entries.len() == 0 {
        Seq::empty()
    } else if !visible(entries[0], max_seq) {
        taken(entries.skip(1), max_seq)
    } else if entries[0].base() {
        seq![entries[0]]
    } else {
        seq![entries[0]] + taken(entries.skip(1), max_seq)
    }
}

/// Some visible version is a base value.
pub open spec fn has_base(entries: Seq<EntryView>, max_seq: Option<u64>) -> bool {
    exists|i: int|
        0 <= i < entries.len() && visible(#[trigger] entries[i], max_seq) && entries[i].base()
}

/// A walk over two layers takes nothing of the older layer once the newer
/// one has a base value, and all that the older layer gives otherwise.
pub proof fn law_walk_over_two_layers(
    newer: Seq<EntryView>,
    older: Seq<EntryView>,
    max_seq: Option<u64>,
)
    ensures
        taken(newer + older, max_seq) == if has_base(newer, max_seq) {
            taken(newer, max_seq)
        } else {
            taken(newer, max_seq) + taken(older, max_seq)
        },
        has_base(newer + older, max_seq) == (has_base(newer, max_seq) || has_base(older, max_seq)),
    decreases newer.len(),
{
    let all = newer + older;
    if newer.len() == 0 {
        assert(all =~= older);
        assert(taken(newer, max_seq) + taken(older, max_seq) =~= taken(older, max_seq));
    } else {
        law_walk_over_two_layers(newer.skip(1), older, max_seq);
        assert(all.skip(1) =~= newer.skip(1) + older);
        assert(all[0] == newer[0]);
        lemma_has_base_unfold(newer, max_seq);
        lemma_has_base_unfold(all, max_seq);
        if visible(newer[0], max_seq) && !newer[0].base() {
            assert(taken(newer, max_seq) + taken(older, max_seq) =~= seq![newer[0]] + (taken(
                newer.skip(1),
                max_seq,
            ) + taken(older, max_seq)));
        }
    }
}

/// The first entry is a visible base value, or one of the others is.
pub proof fn lemma_has_base_unfold(entries: Seq<EntryView>, max_seq: Option<u64>)
    requires
        entries.len() > 0,
    ensures
        has_base(entries, max_seq) == ((visible(entries[0], max_seq) && entries[0].base())
            || has_base(entries.skip(1), max_seq)),
{
    if has_base(entries, max_seq) {
        let i = choose|i: int|
            0 <= i < entries.len() && visible(#[trigger] entries[i], max_seq) && entries[i].base();
        if i > 0 {
            assert(entries.skip(1)[i - 1] == entries[i]);
        }
    }
    if has_base(entries.skip(1), max_seq) {
        let i = choose|i: int|
            0 <= i < entries.skip(1).len() && visible(#[trigger] entries.skip(1)[i], max_seq)
                && entries.skip(1)[i].base();
        assert(entries[i + 1] == entries.skip(1)[i]);
    }
}

/// What a point read takes is visible, and only the last of it can be a base
/// value.
pub proof fn law_taken_is_visible_and_ends_at_the_base(
    entries: Seq<EntryView>,
    max_seq: Option<u64>,
)
    ensures
        forall|i: int|
            0 <= i < taken(entries, max_seq).len() ==> visible(
                #[trigger] taken(entries, max_seq)[i],
                max_seq,
            ),
        forall|i: int|
            0 <= i < taken(entries, max_seq).len() - 1 ==> !(#[trigger] taken(
                entries,
                max_seq,
            )[i]).base(),
        has_base(entries, max_seq) <==> taken(entries, max_seq).len() > 0 && taken(
            entries,
            max_seq,
        ).last().base(),
    decreases entries.len(),
{
    if entries.len() > 0 {
        law_taken_is_visible_and_ends_at_the_base(entries.skip(1), max_seq);
        lemma_has_base_unfold(entries, max_seq);
        let rest = taken(entries.skip(1), max_seq);
        let all = taken(entries, max_seq);
        if visible(entries[0], max_seq) && !entries[0].base() {
            assert(all =~= seq![entries[0]] + rest);
            assert forall|i: int| 0 <= i < all.len() implies visible(#[trigger] all[i], max_seq) by {
                if i > 0 {
                    assert(all[i] == rest[i - 1]);
                }
            }
            assert forall|i: int| 0 <= i < all.len() - 1 implies !(#[trigger] all[i]).base() by {
                if i > 0 {
                    assert(all[i] == rest[i - 1]);
                }
            }
            if rest.len() > 0 {
                assert(all.last() == rest.last());
            }
        }
    }
}

/// At a sequence bound, a point read takes no version above the bound,
/// whatever the version is. And versions above the bound change nothing: the
/// read takes what it takes of the other versions with no bound.
pub proof fn law_a_bound_hides_each_later_version(entries: Seq<EntryView>, bound: u64)
    ensures
        forall|i: int|
            0 <= i < taken(entries, Some(bound)).len() ==> (#[trigger] taken(
                entries,
                Some(bound),
            )[i]).seq <= bound,
        taken(entries, Some(bound)) == taken(entries.filter(|e: EntryView| e.seq <= bound), None),
        has_base(entries, Some(bound)) == has_base(
            entries.filter(|e: EntryView| e.seq <= bound),
            None,
        ),
    decreases entries.len(),
{
    let below = |e: EntryView| e.seq <= bound;
    if entries.len() == 0 {
        entries.lemma_filter_len(below);
        assert(entries.filter(below) =~= entries);
    } else {
        let first = entries[0];
        let rest = entries.skip(1);
        law_a_bound_hides_each_later_version(rest, bound);
        assert(entries =~= seq![first] + rest);
        rest.lemma_filter_prepend(first, below);
        let visible_rest = rest.filter(below);
        let visible_all = entries.filter(below);
        lemma_has_base_unfold(entries, Some(bound));
        if first.seq <= bound {
            assert(visible_all =~= seq![first] + visible_rest);
            assert(visible_all.skip(1) =~= visible_rest);
            lemma_has_base_unfold(visible_all, None);
        } else {
            assert(visible_all =~= visible_rest);
        }
        let now = taken(entries, Some(bound));
        let later = taken(rest, Some(bound));
        assert forall|i: int| 0 <= i < now.len() implies (#[trigger] now[i]).seq <= bound by {
            if first.seq > bound {
                assert(now[i] == later[i]);
            } else if i > 0 {
                assert(now[i] == later[i - 1]);
            }
        }
    }
}

/// With no bound, a point read takes the newest versions, down to the first
/// full value or deletion, and all of them when there is none.
pub proof fn law_a_read_takes_the_versions_down_to_the_base(entries: Seq<EntryView>)
    ensures
        ({
            let n = taken(entries, None).len() as int;
            &&& n <= entries.len()
            &&& taken(entries, None) == entries.take(n)
            &&& forall|i: int| 0 <= i < n - 1 ==> (#[trigger] entries[i]).value is Merge
            &&& n < entries.len() ==> n > 0 && !(entries[n - 1].value is Merge)
        }),
        has_base(entries, None) <==> exists|i: int|
            0 <= i < entries.len() && !((#[trigger] entries[i]).value is Merge),
    decreases entries.len(),
{
    if entries.len() == 0 {
        assert(taken(entries, None) =~= entries.take(0));
    } else {
        let rest = entries.skip(1);
        law_a_read_takes_the_versions_down_to_the_base(rest);
        let n = taken(entries, None).len() as int;
        let m = taken(rest, None).len() as int;
        if entries[0].value is Merge {
            assert(n == m + 1);
            assert(taken(entries, None) =~= entries.take(n)) by {
                assert forall|i: int| 0 <= i < n implies taken(entries, None)[i]
                    == entries.take(n)[i] by {
                    if i > 0 {
                        assert(taken(entries, None)[i] == taken(rest, None)[i - 1]);
                        assert(rest.take(m)[i - 1] == entries[i]);
                    }
                }
            }
            assert forall|i: int| 0 <= i < n - 1 implies (#[trigger] entries[i]).value is Merge by {
                if i > 0 {
                    assert(rest[i - 1] == entries[i]);
                }
            }
            if n < entries.len() {
                assert(rest[m - 1] == entries[n - 1]);
            }
        } else {
            assert(taken(entries, None) =~= entries.take(1));
        }
        if has_base(entries, None) {
            let i = choose|i: int|
                0 <= i < entries.len() && visible(#[trigger] entries[i], None)
                    && entries[i].base();
            assert(!(entries[i].value is Merge));
        }
        if exists|i: int| 0 <= i < entries.len() && !((#[trigger] entries[i]).value is Merge) {
            let i = choose|i: int|
                0 <= i < entries.len() && !((#[trigger] entries[i]).value is Merge);
            assert(visible(entries[i], None) && entries[i].base());
        }
    }
}

} // verus!
