//! Byte strings: what a `Bytes` holds, and the order of keys.

use bytes::Bytes;
use vstd::prelude::*;

verus! {

/// The shared byte string of the `bytes` crate.
#[verifier::external_type_specification]
#[verifier::external_body]
pub struct ExBytes(bytes::Bytes);

/// The bytes that a `Bytes` holds.
pub uninterp spec fn content(b: Bytes) -> Seq<u8>;

/// `Bytes::copy_from_slice`: the new byte string holds the bytes of the slice.
#[verifier::external_body]
pub(crate) fn bytes_of(data: &[u8]) -> (b: Bytes)
    ensures
        content(b) == data@,
{
    Bytes::copy_from_slice(data)
}

/// `Bytes::as_ref`: the slice is what the byte string holds.
#[verifier::external_body]
pub(crate) fn as_slice(b: &Bytes) -> (data: &[u8])
    ensures
        data@ == content(*b),
{
    b.as_ref()
}

/// `Bytes::clone`: the clone holds the same bytes.
#[verifier::external_body]
pub(crate) fn share(b: &Bytes) -> (copy: Bytes)
    ensures
        content(copy) == content(*b),
{
    b.clone()
}

/// The contents of a list of byte strings.
pub open spec fn contents(keys: Seq<Bytes>) -> Seq<Seq<u8>> {
    keys.map_values(|b: Bytes| content(b))
}

/// `a` comes before `b` in the order of keys, or is the same key. Keys order
/// by their first byte that differs, and a key comes after its prefixes.
pub open spec fn lex_le(a: Seq<u8>, b: Seq<u8>) -> bool
    decreases a.len(),
{
    if a.len() == 0 {
        true
    } else if b.len() == 0 {
        false
    } else if a[0] == b[0] {
        lex_le(a.skip(1), b.skip(1))
    } else {
        a[0] < b[0]
    }
}

/// `a` comes strictly before `b` in the order of keys.
pub open spec fn lex_lt(a: Seq<u8>, b: Seq<u8>) -> bool {
    lex_le(a, b) && a != b
}

/// A key is at most itself.
pub proof fn lemma_lex_reflexive(a: Seq<u8>)
    ensures
        lex_le(a, a),
    decreases a.len(),
{
    if a.len() > 0 {
        lemma_lex_reflexive(a.skip(1));
    }
}

/// Two keys that are at most each other are the same key.
pub proof fn lemma_lex_antisymmetric(a: Seq<u8>, b: Seq<u8>)
    requires
        lex_le(a, b),
        lex_le(b, a),
    ensures
        a == b,
    decreases a.len(),
{
    if a.len() > 0 && b.len() > 0 {
        lemma_lex_antisymmetric(a.skip(1), b.skip(1));
        assert(a =~= seq![a[0]] + a.skip(1));
        assert(b =~= seq![b[0]] + b.skip(1));
    } else {
        assert(a =~= b);
    }
}

/// Of two keys, one is at most the other.
pub proof fn lemma_lex_total(a: Seq<u8>, b: Seq<u8>)
    ensures
        lex_le(a, b) || lex_le(b, a),
    decreases a.len(),
{
    if a.len() > 0 && b.len() > 0 && a[0] == b[0] {
        lemma_lex_total(a.skip(1), b.skip(1));
    }
}

/// The order of keys is transitive.
pub proof fn lemma_lex_transitive(a: Seq<u8>, b: Seq<u8>, c: Seq<u8>)
    requires
        lex_le(a, b),
        lex_le(b, c),
    ensures
        lex_le(a, c),
    decreases a.len(),
{
    if a.len() > 0 && a[0] == b[0] && b[0] == c[0] {
        lemma_lex_transitive(a.skip(1), b.skip(1), c.skip(1));
    }
}

/// `a` is strictly before `b` exactly when `b` is not at most `a`.
pub proof fn lemma_lex_lt_is_not_ge(a: Seq<u8>, b: Seq<u8>)
    ensures
        lex_lt(a, b) <==> !lex_le(b, a),
{
    lemma_lex_total(a, b);
    if lex_le(a, b) && lex_le(b, a) {
        lemma_lex_antisymmetric(a, b);
    }
    if a == b {
        lemma_lex_reflexive(a);
    }
}

/// How one key compares with another.
#[derive(Clone, Copy, Debug, PartialEq, Eq, Structural)]
pub enum KeyOrder {
    Less,
    Equal,
    Greater,
}

/// Compare two keys.
pub fn order_keys(a: &[u8], b: &[u8]) -> (order: KeyOrder)
    ensures
        order == (if a@ == b@ {
            KeyOrder::Equal
        } else if lex_lt(a@, b@) {
            KeyOrder::Less
        } else {
            KeyOrder::Greater
        }),
{
    let mut i: usize = 0;
    assert(a@.skip(0) =~= a@);
    assert(b@.skip(0) =~= b@);
    while i < a.len() && i < b.len() && a[i] == b[i]
        invariant
            i <= a.len(),
            i <= b.len(),
            a@.take(i as int) == b@.take(i as int),
            lex_le(a@, b@) == lex_le(a@.skip(i as int), b@.skip(i as int)),
        decreases a.len() - i,
    {
        proof {
            assert(a@.skip(i as int).skip(1) =~= a@.skip(i + 1));
            assert(b@.skip(i as int).skip(1) =~= b@.skip(i + 1));
            assert(a@.take(i + 1) =~= a@.take(i as int).push(a@[i as int]));
            assert(b@.take(i + 1) =~= b@.take(i as int).push(b@[i as int]));
        }
        i = i + 1;
    }
    if i < a.len() && i < b.len() {
        assert(a@[i as int] != b@[i as int]);
        assert(a@.skip(i as int)[0] == a@[i as int]);
        assert(b@.skip(i as int)[0] == b@[i as int]);
        if a[i] < b[i] {
            KeyOrder::Less
        } else {
            KeyOrder::Greater
        }
    } else if a.len() == b.len() {
        assert(a@.take(i as int) =~= a@);
        assert(b@.take(i as int) =~= b@);
        KeyOrder::Equal
    } else if a.len() < b.len() {
        KeyOrder::Less
    } else {
        KeyOrder::Greater
    }
}

/// Whether `a` is at most `b`.
pub fn key_le(a: &[u8], b: &[u8]) -> (le: bool)
    ensures
        le == lex_le(a@, b@),
{
    proof {
        lemma_lex_lt_is_not_ge(b@, a@);
        if a@ == b@ {
            lemma_lex_reflexive(a@);
        }
    }
    match order_keys(a, b) {
        KeyOrder::Greater => false,
        _ => true,
    }
}

/// Whether `a` and `b` are the same key.
pub fn key_eq(a: &[u8], b: &[u8]) -> (eq: bool)
    ensures
        eq == (a@ == b@),
{
    match order_keys(a, b) {
        KeyOrder::Equal => true,
        _ => false,
    }
}

/// Two keys order by their first byte that differs, whatever comes after it.
pub proof fn law_keys_order_by_the_first_byte_that_differs(
    common: Seq<u8>,
    a: u8,
    b: u8,
    x: Seq<u8>,
    y: Seq<u8>,
)
    requires
        a < b,
    ensures
        lex_le(common.push(a) + x, common.push(b) + y),
        lex_lt(common.push(a) + x, common.push(b) + y),
        !lex_le(common.push(b) + y, common.push(a) + x),
        !lex_lt(common.push(b) + y, common.push(a) + x),
    decreases common.len(),
{
    let left = common.push(a) + x;
    let right = common.push(b) + y;
    assert(left[common.len() as int] == a);
    assert(right[common.len() as int] == b);
    if common.len() == 0 {
        assert(left[0] == a);
        assert(right[0] == b);
    } else {
        law_keys_order_by_the_first_byte_that_differs(common.skip(1), a, b, x, y);
        assert(left[0] == right[0]);
        assert(left.skip(1) =~= common.skip(1).push(a) + x);
        assert(right.skip(1) =~= common.skip(1).push(b) + y);
    }
}

/// A key comes before each longer key that starts with it.
pub proof fn law_a_key_comes_before_what_it_starts(key: Seq<u8>, more: Seq<u8>)
    ensures
        lex_le(key, key + more),
        more.len() > 0 ==> lex_lt(key, key + more) && !lex_le(key + more, key),
        !lex_lt(key, key),
    decreases key.len(),
{
    let longer = key + more;
    if more.len() > 0 {
        assert(longer.len() != key.len());
    }
    if key.len() > 0 {
        law_a_key_comes_before_what_it_starts(key.skip(1), more);
        assert(longer[0] == key[0]);
        assert(longer.skip(1) =~= key.skip(1) + more);
    }
}

} // verus!
