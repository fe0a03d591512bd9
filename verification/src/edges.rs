//! The child table of a trie node: an `ahash` hash map from a scalar value to
//! the index of the child node reached by it.

use ahash::AHashMap;
use vstd::prelude::*;

verus! {

/// `ahash::AHashMap`, declared as an opaque outside type. What a map holds
/// is told by `edges` for child tables and by `flat` for flat maps.
#[verifier::external_type_specification]
#[verifier::external_body]
#[verifier::reject_recursive_types(K)]
#[verifier::reject_recursive_types(V)]
#[verifier::reject_recursive_types(S)]
pub struct ExAHashMap<K, V, S>(AHashMap<K, V, S>);

/// `ahash::RandomState`, the hasher that an `AHashMap` is built with by
/// default, declared as an opaque outside type.
#[verifier::external_type_specification]
#[verifier::external_body]
pub struct ExRandomState(ahash::RandomState);

/// What a child table holds: for each scalar value with an outgoing edge, the
/// index of the node the edge leads to.
pub uninterp spec fn edges(m: AHashMap<char, usize>) -> Map<char, usize>;

/// An empty child table.
///
/// Trusted: calls `AHashMap::new`, which builds an empty `HashMap` with a
/// freshly seeded hasher. The first map of a process has the seed drawn from
/// the operating system, and the call panics if the system cannot supply it;
/// nothing that is passed in can cause or prevent that.
#[verifier::external_body]
pub(crate) fn edges_new() -> (m: AHashMap<char, usize>)
    ensures
        edges(m) == (Map::<char, usize>::empty()),
{
    AHashMap::new()
}

/// The node that the edge labelled `c` leads to, if there is such an edge.
///
/// Trusted: calls `AHashMap::get`, which forwards to `HashMap::get` and
/// returns the value stored under the key, or `None` when the key is absent.
#[verifier::external_body]
pub(crate) fn edges_get(m: &AHashMap<char, usize>, c: char) -> (r: Option<usize>)
    ensures
        r == (if edges(*m).dom().contains(c) {
            Some(edges(*m)[c])
        } else {
            None
        }),
{
    m.get(&c).copied()
}

/// Adds or redirects the edge labelled `c` so that it leads to node `n`.
///
/// Trusted: calls `AHashMap::insert`, which forwards to `HashMap::insert`:
/// afterwards the key maps to the new value and every other key is untouched.
#[verifier::external_body]
pub(crate) fn edges_insert(m: &mut AHashMap<char, usize>, c: char, n: usize)
    ensures
        edges(*final(m)) == edges(*old(m)).insert(c, n),
{
    m.insert(c, n);
}

/// The edges of a child table, in no particular order.
///
/// Trusted: calls `into_iter` of `&AHashMap`, which forwards to
/// `HashMap::iter`: the iterator hands out every entry of the map once, in
/// an order that is not specified. Each label of the table therefore stands
/// in the list exactly once, beside the node it leads to.
#[verifier::external_body]
pub(crate) fn edges_list(m: &AHashMap<char, usize>) -> (v: Vec<(char, usize)>)
    ensures
        forall|i: int|
            0 <= i < v@.len() ==> edges(*m).contains_pair((#[trigger] v@[i]).0, v@[i].1),
        forall|c: char|
            edges(*m).dom().contains(c) ==> exists|i: int|
                0 <= i < v@.len() && (#[trigger] v@[i]).0 == c,
        forall|i: int, j: int|
            0 <= i < j < v@.len() ==> (#[trigger] v@[i]).0 != (#[trigger] v@[j]).0,
{
    m.into_iter().map(|(c, n)| (*c, *n)).collect()
}

} // verus!
