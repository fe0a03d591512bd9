//! What holds of walks through a well-shaped node list.

use super::{holds, mapping, shape, walk, Node};
use crate::model::Mapping;
use vstd::prelude::*;

verus! {

/// What `mapping` says of one key.
pub(super) proof fn lemma_mapping(nodes: Seq<Node>, key: Seq<char>)
    ensures
        mapping(nodes).dom().contains(key) <==> holds(nodes, key),
        holds(nodes, key) ==> mapping(nodes)[key] == nodes[walk(nodes, key)->0].text()->0,
{
    reveal(mapping);
}

/// A walk ends at the one node whose prefix is the key walked.
pub(super) proof fn lemma_walk_prefix(nodes: Seq<Node>, key: Seq<char>)
    requires
        shape(nodes),
        walk(nodes, key) is Some,
    ensures
        0 <= walk(nodes, key)->0 < nodes.len(),
        nodes[walk(nodes, key)->0].prefix() == key,
        key.len() > 0 ==> walk(nodes, key)->0 != 0,
    decreases key.len(),
{
    reveal(shape);
    if key.len() == 0 {
        assert(nodes[0].prefix() =~= key);
    } else {
        lemma_walk_prefix(nodes, key.drop_last());
        let j = walk(nodes, key.drop_last())->0;
        assert(nodes[j].child(key.last()) is Some);
        assert(key.drop_last().push(key.last()) =~= key);
    }
}

/// Where a walk succeeds, the walk along each prefix of the key succeeds.
pub(super) proof fn lemma_walk_take(nodes: Seq<Node>, key: Seq<char>, i: int)
    requires
        0 <= i <= key.len(),
        walk(nodes, key) is Some,
    ensures
        walk(nodes, key.take(i)) is Some,
    decreases key.len(),
{
    if i == key.len() {
        assert(key.take(i) =~= key);
    } else {
        lemma_walk_take(nodes, key.drop_last(), i);
        assert(key.drop_last().take(i) =~= key.take(i));
    }
}

/// One more step of a walk.
pub(super) proof fn lemma_walk_step(nodes: Seq<Node>, key: Seq<char>, i: int)
    requires
        0 <= i < key.len(),
    ensures
        walk(nodes, key.take(i + 1)) == match walk(nodes, key.take(i)) {
            Some(j) => if 0 <= j < nodes.len() {
                nodes[j].child(key[i])
            } else {
                None
            },
            None => None,
        },
{
    assert(key.take(i + 1).drop_last() =~= key.take(i));
    assert(key.take(i + 1).last() == key[i]);
}

/// The walk along the empty key ends at the root.
pub(super) proof fn lemma_walk_empty(nodes: Seq<Node>, key: Seq<char>)
    requires
        shape(nodes),
        key.len() == 0,
    ensures
        walk(nodes, key) == Some(0int),
        nodes.len() >= 1,
        !holds(nodes, key),
{
    reveal(shape);
}

/// In a tree whose root has no edge, no key leads to a value.
pub(super) proof fn lemma_walk_root_only(nodes: Seq<Node>, key: Seq<char>)
    requires
        nodes.len() == 1,
        forall|c: char| nodes[0].child(c) is None,
        nodes[0].text() is None,
    ensures
        !holds(nodes, key),
        key.len() > 0 ==> walk(nodes, key) is None,
    decreases key.len(),
{
    if key.len() > 0 {
        lemma_walk_root_only(nodes, key.drop_last());
    }
}

/// An empty node list stands for the empty mapping.
pub(super) proof fn lemma_no_nodes(nodes: Seq<Node>, key: Seq<char>)
    requires
        nodes.len() == 0,
    ensures
        !holds(nodes, key),
        !mapping(nodes).dom().contains(key),
        mapping(nodes) == Mapping::empty(),
{
    reveal(mapping);
    assert forall|k: Seq<char>| !holds(nodes, k) by {}
    assert(mapping(nodes) =~= Mapping::empty());
}

} // verus!
