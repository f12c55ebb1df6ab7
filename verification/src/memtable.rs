//! Tables in memory.

use bytes::Bytes;
use vstd::prelude::*;

use crate::octets::{
    as_slice,
    content,
    key_eq,
    key_le,
    lemma_lex_antisymmetric,
    lemma_lex_transitive,
    lex_le,
};
use crate::scan::{lemma_filter_none, rows_in_order};
use crate::types::{rows, EntryView, RowEntry};

verus! {

/// A table in memory: rows in key order, and the versions of one key newest
/// first.
#[derive(Debug)]
pub struct KvTable {
    pub entries: Vec<RowEntry>,
}

impl KvTable {
    /// The rows are in key order.
    pub open spec fn wf(self) -> bool {
        rows_in_order(rows(self.entries@))
    }

    /// The versions of `key`, newest first.
    pub open spec fn versions(self, key: Seq<u8>) -> Seq<EntryView> {
        rows(self.entries@).filter(|entry: EntryView| entry.key == key)
    }

    /// The number of rows before `key`.
    fn rows_before(&self, key: &[u8]) -> (n: usize)
        requires
            self.wf(),
        ensures
            n <= self.entries@.len(),
            forall|i: int|
                0 <= i < n ==> !lex_le(key@, (#[trigger] rows(self.entries@)[i]).key),
            forall|i: int|
                n <= i < self.entries@.len() ==> lex_le(
                    key@,
                    (#[trigger] rows(self.entries@)[i]).key,
                ),
    {
        let ghost all = rows(self.entries@);
        let mut low: usize = 0;
        let mut high: usize = self.entries.len();
        while low < high
            invariant
                low <= high <= self.entries@.len(),
                all == rows(self.entries@),
                rows_in_order(all),
                forall|i: int| 0 <= i < low ==> !lex_le(key@, (#[trigger] all[i]).key),
                forall|i: int| high <= i < all.len() ==> lex_le(key@, (#[trigger] all[i]).key),
            decreases high - low,
        {
            let mid: usize = low + (high - low) / 2;
            assert(all[mid as int].key == content(self.entries@[mid as int].key));
            if key_le(key, as_slice(&self.entries[mid].key)) {
                proof {
                    assert forall|i: int| mid <= i < all.len() implies lex_le(
                        key@,
                        (#[trigger] all[i]).key,
                    ) by {
                        lemma_lex_transitive(key@, all[mid as int].key, all[i].key);
                    }
                }
                high = mid;
            } else {
                proof {
                    assert forall|i: int| 0 <= i <= mid implies !lex_le(
                        key@,
                        (#[trigger] all[i]).key,
                    ) by {
                        if lex_le(key@, all[i].key) {
                            lemma_lex_transitive(key@, all[i].key, all[mid as int].key);
                        }
                    }
                }
                low = mid + 1;
            }
        }
        low
    }
}

/// Collect all versions of `key` from a table, newest first.
pub fn kv_table_get_versions(table: &KvTable, key: &Bytes) -> (versions: Vec<RowEntry>)
    requires
        table.wf(),
    ensures
        rows(versions@) == table.versions(content(*key)),
{
    let ghost all = rows(table.entries@);
    let ghost name = content(*key);
    let ghost pred = |entry: EntryView| entry.key == name;
    let mut versions: Vec<RowEntry> = Vec::new();
    let key = as_slice(key);
    let mut i: usize = table.rows_before(key);
    proof {
        let before = all.take(i as int);
        assert forall|j: int| 0 <= j < before.len() implies !pred(#[trigger] before[j]) by {
            assert(before[j] == all[j]);
            if all[j].key == name {
                crate::octets::lemma_lex_reflexive(name);
            }
        }
        lemma_filter_none(before, pred);
        assert(rows(versions@) =~= Seq::<EntryView>::empty());
    }
    while i < table.entries.len() && key_eq(as_slice(&table.entries[i].key), key)
        invariant
            i <= table.entries@.len(),
            all == rows(table.entries@),
            forall|j: int| i <= j < all.len() ==> lex_le(name, (#[trigger] all[j]).key),
            pred == (|entry: EntryView| entry.key == name),
            name == key@,
            rows(versions@) == all.take(i as int).filter(pred),
        decreases table.entries@.len() - i,
    {
        let ghost before = rows(versions@);
        let entry = &table.entries[i];
        proof {
            assert(all.take(i + 1) =~= all.take(i as int).push(entry@));
            all.take(i as int).lemma_filter_push(entry@, pred);
        }
        versions.push(entry.clone());
        assert(rows(versions@) =~= before.push(entry@));
        i = i + 1;
    }
    proof {
        let rest = all.skip(i as int);
        assert(all =~= all.take(i as int) + rest);
        assert forall|j: int| 0 <= j < rest.len() implies !pred(#[trigger] rest[j]) by {
            assert(rest[j] == all[i + j]);
            if all[i + j].key == name {
                assert(lex_le(all[i as int].key, all[i + j].key));
                assert(lex_le(name, all[i as int].key));
                lemma_lex_antisymmetric(name, all[i as int].key);
                assert(all[i as int].key == content(table.entries@[i as int].key));
            }
        }
        lemma_filter_none(rest, pred);
        Seq::filter_distributes_over_add(all.take(i as int), rest, pred);
        assert(rows(versions@) =~= table.versions(name));
    }
    versions
}

/// A table holds of a key exactly its rows with that key, in their order: a
/// row more adds itself to the versions of its own key, and of no other.
pub proof fn law_a_row_is_a_version_of_its_key(
    table: KvTable,
    longer: KvTable,
    row: RowEntry,
    key: Seq<u8>,
)
    requires
        longer.entries@ == table.entries@.push(row),
    ensures
        longer.versions(key) == if content(row.key) == key {
            table.versions(key).push(row@)
        } else {
            table.versions(key)
        },
        forall|i: int|
            0 <= i < table.versions(key).len() ==> (#[trigger] table.versions(key)[i]).key == key,
        table.entries@.len() == 0 ==> table.versions(key).len() == 0,
{
    let pred = |entry: EntryView| entry.key == key;
    let all = rows(table.entries@);
    assert(rows(longer.entries@) =~= all.push(row@));
    all.lemma_filter_push(row@, pred);
    all.lemma_filter_len(pred);
    assert forall|i: int| 0 <= i < table.versions(key).len() implies (#[trigger] table.versions(
        key,
    )[i]).key == key by {
        all.lemma_filter_pred(pred, i);
    }
}

} // verus!
