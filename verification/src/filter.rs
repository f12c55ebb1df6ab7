//! Filters: which keys an SST might hold.

use bytes::Bytes;
use vstd::prelude::*;

use crate::octets::content;

verus! {

/// One filter of an SST. Filter policies are pluggable, so the store takes
/// the answer as it comes. It rests only on the key and the context.
pub trait Filter {
    /// What the reader tells the filters about its read.
    type Context;

    /// The filter passes `key`. A filter that knows nothing passes each key.
    open spec fn passes(&self, key: Seq<u8>, context: Option<Self::Context>) -> bool {
        true
    }

    /// Whether the SST might hold `key`.
    fn might_match(&self, key: &Bytes, context: &Option<Self::Context>) -> (pass: bool)
        ensures
            pass == self.passes(content(*key), *context),
    ;
}

/// A filter with the name of its policy.
pub struct NamedFilter<F> {
    pub name: String,
    pub filter: F,
}

/// Each filter passes `key`. With no filter, each key passes.
pub open spec fn all_pass<F: Filter>(
    filters: Seq<NamedFilter<F>>,
    key: Seq<u8>,
    context: Option<F::Context>,
) -> bool {
    forall|i: int| 0 <= i < filters.len() ==> (#[trigger] filters[i]).filter.passes(key, context)
}

/// Whether each filter passes `key`.
pub fn all_filters_might_match<F: Filter>(
    filters: &Vec<NamedFilter<F>>,
    key: &Bytes,
    context: &Option<F::Context>,
) -> (pass: bool)
    ensures
        pass == all_pass(filters@, content(*key), *context),
{
    let mut i: usize = 0;
    while i < filters.len()
        invariant
            i <= filters.len(),
            forall|j: int|
                0 <= j < i ==> (#[trigger] filters@[j]).filter.passes(content(*key), *context),
        decreases filters.len() - i,
    {
        if !filters[i].filter.might_match(key, context) {
            return false;
        }
        i = i + 1;
    }
    true
}

/// A filter that rejects the key does so only when the key is `absent` from
/// the SST.
pub open spec fn each_filter_rejects_only<F: Filter>(
    filters: Seq<NamedFilter<F>>,
    key: Seq<u8>,
    context: Option<F::Context>,
    absent: bool,
) -> bool {
    forall|i: int|
        0 <= i < filters.len() && !(#[trigger] filters[i]).filter.passes(key, context) ==> absent
}

/// One more filter can only reject: the filters pass a key together exactly
/// when the others pass it and the new one does. With no filter, each key
/// passes.
pub proof fn law_each_filter_has_its_say<F: Filter>(
    filters: Seq<NamedFilter<F>>,
    more: NamedFilter<F>,
    key: Seq<u8>,
    context: Option<F::Context>,
)
    ensures
        all_pass(filters.push(more), key, context) <==> all_pass(filters, key, context)
            && more.filter.passes(key, context),
        all_pass(Seq::<NamedFilter<F>>::empty(), key, context),
{
    let all = filters.push(more);
    assert(all[filters.len() as int] == more);
    if all_pass(all, key, context) {
        assert forall|i: int| 0 <= i < filters.len() implies (
        #[trigger] filters[i]).filter.passes(key, context) by {
            assert(all[i] == filters[i]);
        }
    }
}

/// A key that one filter rejects is rejected, and a key that each filter
/// passes is passed, however many filters there are.
pub proof fn law_a_key_passes_when_each_filter_passes_it<F: Filter>(
    filters: Seq<NamedFilter<F>>,
    key: Seq<u8>,
    context: Option<F::Context>,
)
    ensures
        !all_pass(filters, key, context) <==> exists|i: int|
            0 <= i < filters.len() && !(#[trigger] filters[i]).filter.passes(key, context),
{
}

} // verus!
