//! What the versions of a key come to.

use bytes::Bytes;
use vstd::prelude::*;

use crate::octets::{bytes_of, content, share};
use crate::types::{rows, EntryView, RowEntry, ValueDeletable, ValueView};

verus! {

/// A merge operator. Users bring their own, so the store takes the result as
/// it comes. It rests only on the arguments.
pub trait MergeOperator {
    /// Why a merge failed.
    type Error;

    /// The value after one more operand, or why the merge fails. By default,
    /// an operand replaces the value.
    open spec fn merged(
        &self,
        key: Seq<u8>,
        existing: Option<Seq<u8>>,
        operand: Seq<u8>,
    ) -> Result<Seq<u8>, Self::Error> {
        Ok(operand)
    }

    /// Merge one operand into the existing value of a key.
    fn merge(&self, key: &Bytes, existing: Option<Bytes>, operand: Bytes) -> (value: Result<
        Bytes,
        Self::Error,
    >)
        ensures
            self.merged(content(*key), optional(existing), content(operand)) == value_of(value),
    ;
}

/// The bytes of a merged value.
pub open spec fn value_of<E>(value: Result<Bytes, E>) -> Result<Seq<u8>, E> {
    match value {
        Ok(value) => Ok(content(value)),
        Err(error) => Err(error),
    }
}

/// The bytes of an optional value.
pub open spec fn optional(value: Option<Bytes>) -> Option<Seq<u8>> {
    match value {
        Some(value) => Some(content(value)),
        None => None,
    }
}

/// Why the versions of a key have no value.
#[derive(Debug, PartialEq, Eq)]
pub enum ResolveError<E> {
    /// The key has a merge operand, and the store has no merge operator.
    MergeOperatorMissing,
    /// The merge operator failed.
    Merge(E),
}

/// How many versions, newest first, are merge operands.
pub open spec fn operand_count(versions: Seq<EntryView>) -> nat
    decreases versions.len(),
{
    if versions.len() == 0 || versions[0].base() {
        0
    } else {
        1 + operand_count(versions.skip(1))
    }
}

/// The value of a version with no merge.
pub open spec fn base_value(entry: EntryView) -> Option<Seq<u8>> {
    match entry.value {
        ValueView::Value(value) => Some(value),
        _ => None,
    }
}

/// The bytes of a merge operand.
pub open spec fn operand(entry: EntryView) -> Seq<u8> {
    match entry.value {
        ValueView::Merge(value) => value,
        _ => Seq::empty(),
    }
}

/// The value after the operands `0..n` of `versions`, newest first: the
/// oldest operand merges first. The first merge that fails gives its error.
pub open spec fn folded<M: MergeOperator>(
    operator: M,
    key: Seq<u8>,
    existing: Option<Seq<u8>>,
    versions: Seq<EntryView>,
    n: int,
) -> Result<Option<Seq<u8>>, M::Error>
    decreases n,
{
    if n <= 0 {
        Ok(existing)
    } else {
        match operator.merged(key, existing, operand(versions[n - 1])) {
            Err(error) => Err(error),
            Ok(value) => folded(operator, key, Some(value), versions, n - 1),
        }
    }
}

/// What the versions of a key come to, newest first.
///
/// - The newest version is a full value: that version.
/// - It is a deletion, or there is no version: nothing.
/// - It is a merge operand: the operands merge into the base value below
///   them, oldest first, and the result has the sequence number of the newest
///   version. A deletion below them is no value. A merge that fails gives its
///   error.
pub open spec fn resolved<M: MergeOperator>(
    operator: Option<M>,
    key: Seq<u8>,
    versions: Seq<EntryView>,
) -> Result<Option<EntryView>, ResolveError<M::Error>> {
    if versions.len() == 0 {
        Ok(None)
    } else {
        match versions[0].value {
            ValueView::Value(_) => Ok(Some(versions[0])),
            ValueView::Tombstone => Ok(None),
            ValueView::Merge(_) => match operator {
                None => Err(ResolveError::MergeOperatorMissing),
                Some(operator) => {
                    let n = operand_count(versions) as int;
                    let existing = if n < versions.len() {
                        base_value(versions[n])
                    } else {
                        None
                    };
                    match folded(operator, key, existing, versions, n) {
                        Err(error) => Err(ResolveError::Merge(error)),
                        Ok(None) => Ok(None),
                        Ok(Some(value)) => Ok(
                            Some(
                                EntryView {
                                    key,
                                    value: ValueView::Value(value),
                                    seq: versions[0].seq,
                                },
                            ),
                        ),
                    }
                },
            },
        }
    }
}

/// How to recognise the operands.
proof fn lemma_operand_count(versions: Seq<EntryView>, n: int)
    requires
        0 <= n <= versions.len(),
        forall|i: int| 0 <= i < n ==> !(#[trigger] versions[i]).base(),
        n < versions.len() ==> versions[n].base(),
    ensures
        operand_count(versions) == n,
    decreases versions.len(),
{
    if versions.len() > 0 && n > 0 {
        assert(!versions[0].base());
        assert forall|i: int| 0 <= i < n - 1 implies !(#[trigger] versions.skip(1)[i]).base() by {
            assert(versions.skip(1)[i] == versions[i + 1]);
        }
        if n < versions.len() {
            assert(versions.skip(1)[n - 1] == versions[n]);
        }
        lemma_operand_count(versions.skip(1), n - 1);
    }
}

/// What an optional entry says.
pub open spec fn entry_of(entry: Option<RowEntry>) -> Option<EntryView> {
    match entry {
        Some(entry) => Some(entry@),
        None => None,
    }
}

/// What the result of a key says.
pub open spec fn result_of<E>(result: Result<Option<RowEntry>, ResolveError<E>>) -> Result<
    Option<EntryView>,
    ResolveError<E>,
> {
    match result {
        Ok(entry) => Ok(entry_of(entry)),
        Err(error) => Err(error),
    }
}

/// The bytes of a merge operand.
fn operand_bytes(entry: &RowEntry) -> (bytes: Bytes)
    ensures
        content(bytes) == operand(entry@),
{
    match &entry.value {
        ValueDeletable::Merge(bytes) => share(bytes),
        _ => {
            let none = bytes_of(&[]);
            assert(content(none) =~= Seq::<u8>::empty());
            none
        },
    }
}

/// Merge the operands into the base value, oldest first.
fn fold<M: MergeOperator>(
    operator: &M,
    key: &Bytes,
    existing: Option<Bytes>,
    versions: &Vec<RowEntry>,
    operands: usize,
) -> (value: Result<Bytes, M::Error>)
    requires
        0 < operands <= versions@.len(),
    ensures
        folded(
            *operator,
            content(*key),
            optional(existing),
            rows(versions@),
            operands as int,
        ) == match value {
            Ok(value) => Ok::<Option<Seq<u8>>, M::Error>(Some(content(value))),
            Err(error) => Err(error),
        },
{
    let ghost all = rows(versions@);
    let ghost name = content(*key);
    let ghost whole = folded(*operator, name, optional(existing), all, operands as int);
    let mut i: usize = operands - 1;
    assert(all[i as int] == versions@[i as int]@);
    let mut value = match operator.merge(key, existing, operand_bytes(&versions[i])) {
        Ok(value) => value,
        Err(error) => {
            return Err(error);
        },
    };
    while i > 0
        invariant
            i < operands <= versions@.len(),
            all == rows(versions@),
            name == content(*key),
            whole == folded(*operator, name, optional(existing), all, operands as int),
            whole == folded(*operator, name, Some(content(value)), all, i as int),
        decreases i,
    {
        i = i - 1;
        assert(all[i as int] == versions@[i as int]@);
        match operator.merge(key, Some(value), operand_bytes(&versions[i])) {
            Ok(merged) => {
                value = merged;
            },
            Err(error) => {
                return Err(error);
            },
        }
    }
    Ok(value)
}

/// Produce the final entry of one key from its versions: those of the write
/// batch, then the others, each list newest first. The result is `None` for
/// a missing or deleted key.
pub fn resolve_entry<M: MergeOperator>(
    operator: &Option<M>,
    key: &Bytes,
    wb_entries: Vec<RowEntry>,
    rest_entries: Vec<RowEntry>,
) -> (result: Result<Option<RowEntry>, ResolveError<M::Error>>)
    ensures
        result_of(result) == resolved(
            *operator,
            content(*key),
            rows(wb_entries@) + rows(rest_entries@),
        ),
{
    let ghost all = rows(wb_entries@) + rows(rest_entries@);
    let mut versions = wb_entries;
    let mut rest = rest_entries;
    versions.append(&mut rest);
    assert(rows(versions@) =~= all);
    let n: usize = versions.len();
    if n == 0 {
        return Ok(None);
    }
    assert(all[0] == versions@[0]@);
    match &versions[0].value {
        ValueDeletable::Value(_) => {
            return Ok(Some(versions.swap_remove(0)));
        },
        ValueDeletable::Tombstone => {
            return Ok(None);
        },
        ValueDeletable::Merge(_) => {},
    }
    let operator = match operator {
        Some(operator) => operator,
        None => {
            return Err(ResolveError::MergeOperatorMissing);
        },
    };
    let mut operands: usize = 0;
    while operands < n && !versions[operands].is_base()
        invariant
            operands <= n,
            n == versions@.len(),
            all == rows(versions@),
            forall|i: int| 0 <= i < operands ==> !(#[trigger] all[i]).base(),
        decreases n - operands,
    {
        assert(all[operands as int] == versions@[operands as int]@);
        operands = operands + 1;
    }
    proof {
        if operands < n {
            assert(all[operands as int] == versions@[operands as int]@);
        }
        lemma_operand_count(all, operands as int);
    }
    let existing = if operands < n {
        match &versions[operands].value {
            ValueDeletable::Value(value) => Some(share(value)),
            _ => None,
        }
    } else {
        None
    };
    let seq: u64 = versions[0].seq;
    match fold(operator, key, existing, &versions, operands) {
        Err(error) => Err(ResolveError::Merge(error)),
        Ok(value) => Ok(Some(RowEntry { key: share(key), value: ValueDeletable::Value(value), seq })),
    }
}

/// A merge operand changes what is below it: the operator merges it, under
/// the name of the key, into the value that the older versions come to, and
/// the result has the sequence number of the operand. Where the older
/// versions fail, the failure stays.
pub proof fn law_an_operand_merges_into_what_is_below<M: MergeOperator>(
    operator: M,
    key: Seq<u8>,
    top: EntryView,
    bytes: Seq<u8>,
    below: Seq<EntryView>,
)
    requires
        top.value == ValueView::Merge(bytes),
    ensures
        resolved(Some(operator), key, seq![top] + below) == (match resolved(
            Some(operator),
            key,
            below,
        ) {
            Err(error) => Err::<Option<EntryView>, ResolveError<M::Error>>(error),
            Ok(older) => match operator.merged(
                key,
                match older {
                    Some(entry) => match entry.value {
                        ValueView::Value(value) => Some(value),
                        _ => None,
                    },
                    None => None,
                },
                bytes,
            ) {
                Err(error) => Err(ResolveError::Merge(error)),
                Ok(value) => Ok(
                    Some(EntryView { key, value: ValueView::Value(value), seq: top.seq }),
                ),
            },
        }),
{
    let all = seq![top] + below;
    assert(all.skip(1) =~= below);
    assert(all[0] == top);
    let n = operand_count(below) as int;
    assert(operand_count(all) == n + 1);
    lemma_count_bound(below);
    let existing = if n < below.len() {
        base_value(below[n])
    } else {
        None
    };
    if n + 1 < all.len() {
        assert(all[n + 1] == below[n]);
    }
    lemma_fold_last(operator, key, existing, top, below, n);
    if below.len() > 0 && below[0].value is Merge {
        assert(n > 0);
    }
}

/// There are no more operands than versions.
proof fn lemma_count_bound(versions: Seq<EntryView>)
    ensures
        operand_count(versions) <= versions.len(),
    decreases versions.len(),
{
    if versions.len() > 0 && !versions[0].base() {
        lemma_count_bound(versions.skip(1));
    }
}

/// The newest operand merges last.
proof fn lemma_fold_last<M: MergeOperator>(
    operator: M,
    key: Seq<u8>,
    existing: Option<Seq<u8>>,
    top: EntryView,
    below: Seq<EntryView>,
    n: int,
)
    requires
        0 <= n <= below.len(),
    ensures
        folded(operator, key, existing, seq![top] + below, n + 1) == (match folded(
            operator,
            key,
            existing,
            below,
            n,
        ) {
            Err(error) => Err::<Option<Seq<u8>>, M::Error>(error),
            Ok(older) => match operator.merged(key, older, operand(top)) {
                Err(error) => Err(error),
                Ok(value) => Ok(Some(value)),
            },
        }),
    decreases n,
{
    let all = seq![top] + below;
    if n == 0 {
        assert(all[0] == top);
        match operator.merged(key, existing, operand(top)) {
            Ok(value) => {
                assert(folded(operator, key, Some(value), all, 0) == Ok::<
                    Option<Seq<u8>>,
                    M::Error,
                >(Some(value)));
            },
            Err(_) => {},
        }
    } else {
        assert(all[n] == below[n - 1]);
        match operator.merged(key, existing, operand(below[n - 1])) {
            Ok(value) => {
                lemma_fold_last(operator, key, Some(value), top, below, n - 1);
            },
            Err(_) => {},
        }
    }
}

/// Each merge of a key gets the name of that key: one operand over a full
/// value, over a deletion, and alone.
pub proof fn law_a_merge_gets_the_name_of_its_key<M: MergeOperator>(
    operator: M,
    key: Seq<u8>,
    operand: Seq<u8>,
    value: Seq<u8>,
    seq: u64,
    older: u64,
)
    ensures
        ({
            let top = EntryView { key, value: ValueView::Merge(operand), seq };
            let base = EntryView { key, value: ValueView::Value(value), seq: older };
            let deletion = EntryView { key, value: ValueView::Tombstone, seq: older };
            let entry = |merged: Seq<u8>|
                Some(EntryView { key, value: ValueView::Value(merged), seq });
            &&& operator.merged(key, Some(value), operand) matches Ok(merged) ==> resolved(
                Some(operator),
                key,
                seq![top, base],
            ) == Ok::<Option<EntryView>, ResolveError<M::Error>>(entry(merged))
            &&& operator.merged(key, Some(value), operand) matches Err(error) ==> resolved(
                Some(operator),
                key,
                seq![top, base],
            ) == Err::<Option<EntryView>, ResolveError<M::Error>>(ResolveError::Merge(error))
            &&& operator.merged(key, None, operand) matches Ok(merged) ==> resolved(
                Some(operator),
                key,
                seq![top],
            ) == Ok::<Option<EntryView>, ResolveError<M::Error>>(entry(merged)) && resolved(
                Some(operator),
                key,
                seq![top, deletion],
            ) == Ok::<Option<EntryView>, ResolveError<M::Error>>(entry(merged))
        }),
{
    let top = EntryView { key, value: ValueView::Merge(operand), seq };
    let base = EntryView { key, value: ValueView::Value(value), seq: older };
    let deletion = EntryView { key, value: ValueView::Tombstone, seq: older };
    law_an_operand_merges_into_what_is_below(operator, key, top, operand, seq![base]);
    law_an_operand_merges_into_what_is_below(operator, key, top, operand, seq![deletion]);
    law_an_operand_merges_into_what_is_below(operator, key, top, operand, Seq::empty());
    assert(seq![top] + seq![base] =~= seq![top, base]);
    assert(seq![top] + seq![deletion] =~= seq![top, deletion]);
    assert(seq![top] + Seq::<EntryView>::empty() =~= seq![top]);
}

/// A full value or a deletion decides alone, whatever is below it and whatever
/// the operator is. With no version there is no value. And an operand with no
/// operator fails.
pub proof fn law_the_newest_version_decides<M: MergeOperator>(
    operator: Option<M>,
    key: Seq<u8>,
    newest: EntryView,
    below: Seq<EntryView>,
)
    ensures
        newest.value is Value ==> resolved(operator, key, seq![newest] + below) == Ok::<
            Option<EntryView>,
            ResolveError<M::Error>,
        >(Some(newest)),
        newest.value is Tombstone ==> resolved(operator, key, seq![newest] + below) == Ok::<
            Option<EntryView>,
            ResolveError<M::Error>,
        >(None),
        newest.value is Merge && operator is None ==> resolved(operator, key, seq![newest] + below)
            == Err::<Option<EntryView>, ResolveError<M::Error>>(
            ResolveError::MergeOperatorMissing,
        ),
        resolved(operator, key, Seq::empty()) == Ok::<Option<EntryView>, ResolveError<M::Error>>(
            None,
        ),
{
    assert((seq![newest] + below)[0] == newest);
}

} // verus!
