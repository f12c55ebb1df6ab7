//! Rows of the store.

use bytes::Bytes;
use vstd::prelude::*;

use crate::octets::{bytes_of, content, share};

verus! {

/// The value of one version of a key.
#[derive(Debug, PartialEq, Eq)]
pub enum ValueDeletable {
    /// A full value.
    Value(Bytes),
    /// A merge operand. It needs the older versions of the key.
    Merge(Bytes),
    /// The key was deleted.
    Tombstone,
}

/// One version of a key.
#[derive(Debug, PartialEq, Eq)]
pub struct RowEntry {
    pub key: Bytes,
    pub value: ValueDeletable,
    pub seq: u64,
}

/// What a [`ValueDeletable`] says.
pub enum ValueView {
    Value(Seq<u8>),
    Merge(Seq<u8>),
    Tombstone,
}

/// What a [`RowEntry`] says.
pub struct EntryView {
    pub key: Seq<u8>,
    pub value: ValueView,
    pub seq: u64,
}

impl View for ValueDeletable {
    type V = ValueView;

    open spec fn view(&self) -> ValueView {
        match *self {
            ValueDeletable::Value(b) => ValueView::Value(content(b)),
            ValueDeletable::Merge(b) => ValueView::Merge(content(b)),
            ValueDeletable::Tombstone => ValueView::Tombstone,
        }
    }
}

impl View for RowEntry {
    type V = EntryView;

    open spec fn view(&self) -> EntryView {
        EntryView { key: content(self.key), value: self.value@, seq: self.seq }
    }
}

impl Clone for ValueDeletable {
    fn clone(&self) -> (copy: Self)
        ensures
            copy@ == self@,
    {
        match self {
            ValueDeletable::Value(b) => ValueDeletable::Value(share(b)),
            ValueDeletable::Merge(b) => ValueDeletable::Merge(share(b)),
            ValueDeletable::Tombstone => ValueDeletable::Tombstone,
        }
    }
}

impl Clone for RowEntry {
    fn clone(&self) -> (copy: Self)
        ensures
            copy@ == self@,
    {
        RowEntry { key: share(&self.key), value: self.value.clone(), seq: self.seq }
    }
}

impl EntryView {
    /// A base value ends the search for a key: a full value or a deletion.
    pub open spec fn base(self) -> bool {
        !(self.value is Merge)
    }
}

/// What a list of entries says.
pub open spec fn rows(entries: Seq<RowEntry>) -> Seq<EntryView> {
    entries.map_values(|entry: RowEntry| entry@)
}

impl RowEntry {

    /// Whether the entry is a base value.
    pub fn is_base(&self) -> (base: bool)
        ensures
            base == self@.base(),
    {
        match self.value {
            ValueDeletable::Merge(_) => false,
            _ => true,
        }
    }

    /// A version with a full value.
    pub fn new_value(key: &[u8], value: &[u8], seq: u64) -> (entry: Self)
        ensures
            entry@ == (EntryView { key: key@, value: ValueView::Value(value@), seq }),
    {
        RowEntry { key: bytes_of(key), value: ValueDeletable::Value(bytes_of(value)), seq }
    }

    /// A version with a merge operand.
    pub fn new_merge(key: &[u8], value: &[u8], seq: u64) -> (entry: Self)
        ensures
            entry@ == (EntryView { key: key@, value: ValueView::Merge(value@), seq }),
    {
        RowEntry { key: bytes_of(key), value: ValueDeletable::Merge(bytes_of(value)), seq }
    }

    /// A version that deletes the key.
    pub fn new_tombstone(key: &[u8], seq: u64) -> (entry: Self)
        ensures
            entry@ == (EntryView { key: key@, value: ValueView::Tombstone, seq }),
    {
        RowEntry { key: bytes_of(key), value: ValueDeletable::Tombstone, seq }
    }
}

/// A full value and a deletion end the search for a key, and a merge operand
/// does not.
pub proof fn law_values_and_deletions_are_base_values(key: Seq<u8>, value: Seq<u8>, seq: u64)
    ensures
        (EntryView { key, value: ValueView::Value(value), seq }).base(),
        (EntryView { key, value: ValueView::Tombstone, seq }).base(),
        !(EntryView { key, value: ValueView::Merge(value), seq }).base(),
{
}

/// A list of rows says what its rows say, one by one and in their order.
pub proof fn law_rows_say_what_each_row_says(entries: Seq<RowEntry>, i: int)
    requires
        0 <= i < entries.len(),
    ensures
        rows(entries).len() == entries.len(),
        rows(entries)[i].key == content(entries[i].key),
        rows(entries)[i].seq == entries[i].seq,
        rows(entries)[i].value is Tombstone <==> entries[i].value is Tombstone,
        entries[i].value matches ValueDeletable::Value(value) ==> rows(entries)[i].value
            == ValueView::Value(content(value)),
        entries[i].value matches ValueDeletable::Merge(value) ==> rows(entries)[i].value
            == ValueView::Merge(content(value)),
{
}

} // verus!
