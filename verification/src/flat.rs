//! The flat form of a mapping: an `ahash` hash map from each key, as a
//! string, to its replacement.

use ahash::AHashMap;
use vstd::prelude::*;

verus! {

/// What a flat map holds: the replacement text under each key.
pub uninterp spec fn flat(m: AHashMap<String, String>) -> Map<Seq<char>, Seq<char>>;

/// An empty flat map.
///
/// Trusted: calls `AHashMap::new`, which builds an empty `HashMap` with a
/// freshly seeded hasher. The first map of a process has the seed drawn from
/// the operating system, and the call panics if the system cannot supply it;
/// nothing that is passed in can cause or prevent that.
#[verifier::external_body]
pub(crate) fn flat_new() -> (m: AHashMap<String, String>)
    ensures
        flat(m) == (Map::<Seq<char>, Seq<char>>::empty()),
{
    AHashMap::new()
}

/// Stores `value` under `key`, overwriting what was stored under it.
///
/// Trusted: calls `AHashMap::insert`, which forwards to `HashMap::insert`:
/// afterwards the key maps to the new value and every other key is untouched.
#[verifier::external_body]
pub(crate) fn flat_insert(m: &mut AHashMap<String, String>, key: String, value: String)
    ensures
        flat(*final(m)) == flat(*old(m)).insert(key@, value@),
{
    m.insert(key, value);
}

/// The entries of a flat map, in no particular order.
///
/// Trusted: calls `into_iter` of `AHashMap`, which forwards to
/// `HashMap::into_iter`: the iterator hands out every entry of the map once,
/// in an order that is not specified. Each key of the map therefore stands
/// in the list exactly once, beside the value stored under it.
#[verifier::external_body]
pub(crate) fn flat_entries(m: AHashMap<String, String>) -> (v: Vec<(String, String)>)
    ensures
        forall|i: int|
            0 <= i < v@.len() ==> flat(m).contains_pair((#[trigger] v@[i]).0@, v@[i].1@),
        forall|k: Seq<char>|
            flat(m).dom().contains(k) ==> exists|i: int|
                0 <= i < v@.len() && (#[trigger] v@[i]).0@ == k,
        forall|i: int, j: int|
            0 <= i < j < v@.len() ==> (#[trigger] v@[i]).0@ != (#[trigger] v@[j]).0@,
{
    m.into_iter().collect()
}

} // verus!
