//! What the benchmark counts of the object store.

use core::ops::Range;
use vstd::prelude::*;

use crate::octets::key_eq;

verus! {

/// A snapshot of the request counters.
#[derive(Clone, Copy, Debug, PartialEq, Eq, Structural)]
pub struct Counters {
    /// GET requests for `.sst` objects.
    pub sst_gets: u64,
    /// Bytes read from `.sst` objects.
    pub sst_bytes: u64,
    /// GET requests for all other objects, for example manifests.
    pub other_gets: u64,
}

impl Default for Counters {
    fn default() -> (counters: Self)
        ensures
            counters == (Counters { sst_gets: 0, sst_bytes: 0, other_gets: 0 }),
    {
        Counters { sst_gets: 0, sst_bytes: 0, other_gets: 0 }
    }
}

/// The bytes `.sst`.
pub open spec fn sst_suffix() -> Seq<u8> {
    seq![46u8, 115u8, 115u8, 116u8]
}

/// The object at `location` is an SST: its name ends in `.sst`.
pub open spec fn is_sst(location: Seq<u8>) -> bool {
    location.len() >= 4 && location.skip(location.len() - 4) == sst_suffix()
}

/// Whether the object at `location` is an SST.
fn ends_with_sst(location: &[u8]) -> (sst: bool)
    ensures
        sst == is_sst(location@),
{
    let n: usize = location.len();
    if n < 4 {
        return false;
    }
    let suffix: [u8; 4] = [46u8, 115u8, 115u8, 116u8];
    let tail = vstd::slice::slice_subrange(location, n - 4, n);
    assert(tail@ =~= location@.skip(n - 4));
    assert(suffix@ =~= sst_suffix());
    key_eq(tail, suffix.as_slice())
}

/// The sum of two counts. Counters wrap at the end of their range.
pub open spec fn wrapped(count: u64, more: int) -> u64 {
    ((count + more) % 0x1_0000_0000_0000_0000) as u64
}

impl Counters {
    /// The counters after `requests` GETs of the object at `location`, with
    /// `bytes` bytes in all.
    pub open spec fn counted(self, location: Seq<u8>, requests: int, bytes: int) -> Self {
        if is_sst(location) {
            Counters {
                sst_gets: wrapped(self.sst_gets, requests),
                sst_bytes: wrapped(self.sst_bytes, bytes),
                ..self
            }
        } else {
            Counters { other_gets: wrapped(self.other_gets, requests), ..self }
        }
    }

    /// Count `requests` GETs of the object at `location`.
    pub fn count_get(&mut self, location: &[u8], requests: u64, bytes: u64)
        ensures
            *final(self) == old(self).counted(location@, requests as int, bytes as int),
    {
        if ends_with_sst(location) {
            self.sst_gets = self.sst_gets.wrapping_add(requests);
            self.sst_bytes = self.sst_bytes.wrapping_add(bytes);
        } else {
            self.other_gets = self.other_gets.wrapping_add(requests);
        }
    }

    /// Count one GET that returned the bytes of `range`. A HEAD request reads
    /// no object, so it does not count.
    pub fn count_one(&mut self, location: &[u8], head: bool, range: Range<u64>)
        ensures
            *final(self) == if head {
                *old(self)
            } else {
                old(self).counted(
                    location@,
                    1,
                    if range.start <= range.end {
                        range.end - range.start
                    } else {
                        0
                    },
                )
            },
    {
        if !head {
            let bytes: u64 = if range.start <= range.end {
                range.end - range.start
            } else {
                0
            };
            self.count_get(location, 1, bytes);
        }
    }

    /// Count the GETs of several ranges of one object. `lens` are the lengths
    /// of the parts that came back for `requests` ranges.
    pub fn count_ranges(&mut self, location: &[u8], requests: usize, lens: &Vec<u64>)
        requires
            total(lens@) <= u64::MAX,
        ensures
            *final(self) == old(self).counted(location@, requests as int, total(lens@)),
    {
        let mut bytes: u64 = 0;
        assert(lens@.take(0) =~= Seq::<u64>::empty());
        for i in 0..lens.len()
            invariant
                total(lens@) <= u64::MAX,
                bytes == total(lens@.take(i as int)),
        {
            proof {
                assert(lens@.take(i + 1).drop_last() =~= lens@.take(i as int));
                lemma_total_grows(lens@, i + 1);
            }
            bytes = bytes + lens[i];
        }
        assert(lens@.take(lens@.len() as int) =~= lens@);
        self.count_get(location, requests as u64, bytes);
    }
}

/// The sum of some lengths.
pub open spec fn total(lens: Seq<u64>) -> int
    decreases lens.len(),
{
    if lens.len() == 0 {
        0
    } else {
        total(lens.drop_last()) + lens.last()
    }
}

/// A start of the lengths sums to no more than all of them.
proof fn lemma_total_grows(lens: Seq<u64>, n: int)
    requires
        0 <= n <= lens.len(),
    ensures
        total(lens.take(n)) <= total(lens),
    decreases lens.len(),
{
    if n == lens.len() {
        assert(lens.take(n) =~= lens);
    } else {
        lemma_total_grows(lens.drop_last(), n);
        assert(lens.drop_last().take(n) =~= lens.take(n));
    }
}

/// The snapshots of the counters give what happened between them: the counts
/// of a request do not rest on what was counted before.
pub proof fn law_counts_add_up(
    before: Counters,
    location: Seq<u8>,
    requests: int,
    bytes: int,
    more_requests: int,
    more_bytes: int,
)
    requires
        0 <= requests,
        0 <= bytes,
        0 <= more_requests,
        0 <= more_bytes,
    ensures
        before.counted(location, requests, bytes).counted(location, more_requests, more_bytes)
            == before.counted(location, requests + more_requests, bytes + more_bytes),
{
    lemma_wrapped_twice(before.sst_gets, requests, more_requests);
    lemma_wrapped_twice(before.sst_bytes, bytes, more_bytes);
    lemma_wrapped_twice(before.other_gets, requests, more_requests);
}

/// Two additions wrap like one.
proof fn lemma_wrapped_twice(count: u64, a: int, b: int)
    requires
        0 <= a,
        0 <= b,
    ensures
        wrapped(wrapped(count, a), b) == wrapped(count, a + b),
{
    let m = 0x1_0000_0000_0000_0000int;
    let x = (count + a) % m;
    assert(0 <= x < m);
    vstd::arithmetic::div_mod::lemma_add_mod_noop(count + a, b, m);
    vstd::arithmetic::div_mod::lemma_mod_twice(count + a, m);
    vstd::arithmetic::div_mod::lemma_add_mod_noop(x, b, m);
}

/// An object is an SST exactly when its name is some stem and `.sst`.
pub proof fn law_the_name_of_an_sst_ends_in_its_suffix(location: Seq<u8>, stem: Seq<u8>)
    ensures
        is_sst(stem + seq![46u8, 115u8, 115u8, 116u8]),
        is_sst(location) ==> {
            let n = location.len() as int;
            &&& n >= 4
            &&& location == location.take(n - 4) + seq![46u8, 115u8, 115u8, 116u8]
        },
{
    let named = stem + seq![46u8, 115u8, 115u8, 116u8];
    assert(named.skip(named.len() - 4) =~= sst_suffix());
    if is_sst(location) {
        let n = location.len() as int;
        assert(location =~= location.take(n - 4) + location.skip(n - 4));
    }
}

/// A request for an SST adds to the SST counters and to no other. A request for
/// any other object adds to the other requests only, and its bytes do not
/// count. A counter that does not reach the end of its range does not wrap.
pub proof fn law_a_request_adds_to_its_counters(
    before: Counters,
    location: Seq<u8>,
    requests: int,
    bytes: int,
)
    requires
        0 <= requests,
        0 <= bytes,
    ensures
        ({
            let after = before.counted(location, requests, bytes);
            &&& is_sst(location) ==> {
                &&& after.other_gets == before.other_gets
                &&& before.sst_gets + requests <= u64::MAX ==> after.sst_gets == before.sst_gets
                    + requests
                &&& before.sst_bytes + bytes <= u64::MAX ==> after.sst_bytes == before.sst_bytes
                    + bytes
            }
            &&& !is_sst(location) ==> {
                &&& after.sst_gets == before.sst_gets
                &&& after.sst_bytes == before.sst_bytes
                &&& before.other_gets + requests <= u64::MAX ==> after.other_gets
                    == before.other_gets + requests
            }
        }),
{
}

/// A counter that passes the end of its range starts at zero again.
pub proof fn law_a_counter_wraps(count: u64, more: int)
    requires
        0 <= more <= u64::MAX,
    ensures
        count + more <= u64::MAX ==> wrapped(count, more) == count + more,
        count + more > u64::MAX ==> wrapped(count, more) == count + more - u64::MAX - 1,
{
}

/// Each length counts in the sum.
pub proof fn law_each_part_counts(lens: Seq<u64>, len: u64)
    ensures
        total(lens.push(len)) == total(lens) + len,
        total(Seq::empty()) == 0,
{
    assert(lens.push(len).drop_last() =~= lens);
}

} // verus!
