//! Flattening a tree into a flat map: a walk over the tree with an explicit
//! work list of nodes still to visit, each beside the key that leads to it.

use super::walks::{
    lemma_mapping, lemma_no_nodes, lemma_walk_empty, lemma_walk_prefix, lemma_walk_take,
};
use super::{mapping, shape, walk, Node};
use crate::flat::{flat, flat_insert, flat_new};
use crate::model::Mapping;
use crate::text::string_of;
use ahash::AHashMap;
use vstd::prelude::*;

verus! {

/// A node still to visit, with the key that leads to it.
type Pending = (usize, Seq<char>);

/// The work list as nodes and keys.
spec fn pending(work: Seq<(usize, Vec<char>)>) -> Seq<Pending> {
    work.map_values(|p: (usize, Vec<char>)| (p.0, p.1@))
}

/// Neither key starts with the other.
spec fn apart(a: Seq<char>, b: Seq<char>) -> bool {
    !a.is_prefix_of(b) && !b.is_prefix_of(a)
}

/// Some pending key is a prefix of `key`.
spec fn awaited(work: Seq<Pending>, key: Seq<char>) -> bool {
    exists|i: int| 0 <= i < work.len() && (#[trigger] work[i]).1.is_prefix_of(key)
}

/// The state of the walk: what was collected so far, the nodes visited, and
/// the work list.
///
/// Each pending key leads to the node it stands beside. What was collected
/// is part of the tree's mapping. Every key of the tree was collected or
/// lies below a pending node. No two pending keys lie one below the other,
/// and no visited node lies at or below a pending one, so that a node is
/// visited once.
spec fn walking(nodes: Seq<Node>, got: Mapping, seen: Set<int>, work: Seq<Pending>) -> bool {
    &&& shape(nodes)
    &&& forall|i: int|
        0 <= i < work.len() ==> walk(nodes, (#[trigger] work[i]).1) == Some(work[i].0 as int)
    &&& forall|k: Seq<char>| #[trigger]
        got.dom().contains(k) ==> mapping(nodes).dom().contains(k) && got[k] == mapping(nodes)[k]
    &&& forall|k: Seq<char>| #[trigger]
        mapping(nodes).dom().contains(k) ==> got.dom().contains(k) || awaited(work, k)
    &&& forall|i: int, j: int|
        0 <= i < j < work.len() ==> apart((#[trigger] work[i]).1, (#[trigger] work[j]).1)
    &&& seen.finite()
    &&& forall|d: int| seen.contains(d) ==> 0 <= d < nodes.len()
    &&& forall|d: int, i: int|
        seen.contains(d) && 0 <= i < work.len() ==> !(#[trigger] work[i]).1.is_prefix_of(
            #[trigger] nodes[d].prefix(),
        )
}

/// A prefix of a key extended by one scalar value is a prefix of the key, or
/// the extended key itself.
proof fn lemma_prefix_of_push(p: Seq<char>, key: Seq<char>, c: char)
    requires
        p.is_prefix_of(key.push(c)),
    ensures
        p.is_prefix_of(key) || p == key.push(c),
{
    if p.len() <= key.len() {
        assert(p =~= key.subrange(0, p.len() as int));
    } else {
        assert(p =~= key.push(c));
    }
}

/// A key extended by one scalar value is a prefix only of what the key is a
/// proper prefix of, with that scalar value next.
proof fn lemma_push_is_prefix(key: Seq<char>, c: char, other: Seq<char>)
    requires
        key.push(c).is_prefix_of(other),
    ensures
        key.is_prefix_of(other),
        other.len() > key.len(),
        other[key.len() as int] == c,
{
    let p = key.push(c);
    assert(p =~= other.subrange(0, p.len() as int));
    assert(other.subrange(0, p.len() as int)[key.len() as int] == p[key.len() as int]);
    assert forall|i: int| 0 <= i < key.len() implies key[i] == other[i] by {
        assert(p[i] == other.subrange(0, p.len() as int)[i]);
    }
    assert(key =~= other.subrange(0, key.len() as int));
}

/// The walk along a key extended by one scalar value.
proof fn lemma_walk_push(nodes: Seq<Node>, key: Seq<char>, c: char)
    requires
        shape(nodes),
        walk(nodes, key) is Some,
    ensures
        walk(nodes, key.push(c)) == nodes[walk(nodes, key)->0].child(c),
{
    lemma_walk_prefix(nodes, key);
    assert(key.push(c).drop_last() =~= key);
}

/// One step of the walk keeps its state: the last pending node is visited,
/// its value, if it has one, is collected under its key, and its children
/// take its place in the work list, each with the key extended by the label
/// of its edge.
proof fn lemma_visit(
    nodes: Seq<Node>,
    got: Mapping,
    seen: Set<int>,
    work: Seq<Pending>,
    edges: Seq<(char, usize)>,
    got_after: Mapping,
    work_after: Seq<Pending>,
)
    requires
        work.len() > 0,
        walking(nodes, got, seen, work),
        ({
            let node = nodes[work.last().0 as int];
            &&& forall|i: int|
                0 <= i < edges.len() ==> node.child((#[trigger] edges[i]).0) == Some(
                    edges[i].1 as int,
                )
            &&& forall|c: char|
                node.child(c) is Some ==> exists|i: int|
                    0 <= i < edges.len() && (#[trigger] edges[i]).0 == c
            &&& forall|i: int, j: int|
                0 <= i < j < edges.len() ==> (#[trigger] edges[i]).0 != (#[trigger] edges[j]).0
            &&& got_after == match node.text() {
                Some(v) => got.insert(work.last().1, v),
                None => got,
            }
        }),
        work_after.len() == work.len() - 1 + edges.len(),
        forall|i: int| 0 <= i < work.len() - 1 ==> work_after[i] == work[i],
        forall|t: int|
            0 <= t < edges.len() ==> work_after[work.len() - 1 + t] == (
                edges[t].1,
                work.last().1.push(edges[t].0),
            ),
    ensures
        0 <= work.last().0 < nodes.len(),
        !seen.contains(work.last().0 as int),
        walking(nodes, got_after, seen.insert(work.last().0 as int), work_after),
{
    let j = work.last().0 as int;
    let key = work.last().1;
    let rest = work.len() - 1;
    let node = nodes[j];
    let seen_after = seen.insert(j);
    assert(walk(nodes, work[rest].1) == Some(j));
    lemma_walk_prefix(nodes, key);
    lemma_mapping(nodes, key);
    assert(key.is_prefix_of(key));
    assert(!seen.contains(j)) by {
        if seen.contains(j) {
            assert(!work[rest].1.is_prefix_of(nodes[j].prefix()));
        }
    }
    assert forall|i: int| 0 <= i < work_after.len() implies walk(
        nodes,
        (#[trigger] work_after[i]).1,
    ) == Some(work_after[i].0 as int) by {
        if i >= rest {
            let t = i - rest;
            assert(work_after[rest + t] == (edges[t].1, key.push(edges[t].0)));
            lemma_walk_push(nodes, key, edges[t].0);
        } else {
            assert(work_after[i] == work[i]);
        }
    }
    assert forall|k: Seq<char>| mapping(nodes).dom().contains(k) implies got_after.dom().contains(
        k,
    ) || awaited(work_after, k) by {
        if !got.dom().contains(k) {
            let i = choose|i: int| 0 <= i < work.len() && (#[trigger] work[i]).1.is_prefix_of(k);
            if i < rest {
                assert(work_after[i] == work[i]);
            } else if k.len() == key.len() {
                assert(k =~= key);
            } else {
                let c = k[key.len() as int];
                lemma_mapping(nodes, k);
                lemma_walk_take(nodes, k, key.len() as int + 1);
                assert(k.take(key.len() as int + 1) =~= key.push(c));
                lemma_walk_push(nodes, key, c);
                let t = choose|t: int| 0 <= t < edges.len() && (#[trigger] edges[t]).0 == c;
                assert(work_after[rest + t] == (edges[t].1, key.push(c)));
                assert(work_after[rest + t].1.is_prefix_of(k));
            }
        }
    }
    assert forall|a: int, b: int| 0 <= a < b < work_after.len() implies apart(
        (#[trigger] work_after[a]).1,
        (#[trigger] work_after[b]).1,
    ) by {
        if b < rest {
            assert(work_after[a] == work[a] && work_after[b] == work[b]);
        } else {
            let t = b - rest;
            let child = key.push(edges[t].0);
            assert(work_after[rest + t] == (edges[t].1, child));
            if a < rest {
                assert(work_after[a] == work[a]);
                let other = work[a].1;
                assert(apart(work[a].1, work[rest].1));
                if other.is_prefix_of(child) {
                    lemma_prefix_of_push(other, key, edges[t].0);
                    if other == child {
                        lemma_push_is_prefix(key, edges[t].0, other);
                    }
                }
                if child.is_prefix_of(other) {
                    lemma_push_is_prefix(key, edges[t].0, other);
                }
            } else {
                let s = a - rest;
                let sibling = key.push(edges[s].0);
                assert(work_after[rest + s] == (edges[s].1, sibling));
                if sibling.is_prefix_of(child) {
                    lemma_push_is_prefix(key, edges[s].0, child);
                }
                if child.is_prefix_of(sibling) {
                    lemma_push_is_prefix(key, edges[t].0, sibling);
                }
            }
        }
    }
    assert forall|d: int, i: int|
        seen_after.contains(d) && 0 <= i < work_after.len() implies !(
        #[trigger] work_after[i]).1.is_prefix_of(#[trigger] nodes[d].prefix()) by {
        let target = nodes[d].prefix();
        if i < rest {
            assert(work_after[i] == work[i]);
            if d == j {
                assert(apart(work[i].1, work[rest].1));
            }
        } else {
            let t = i - rest;
            let child = key.push(edges[t].0);
            assert(work_after[rest + t] == (edges[t].1, child));
            if child.is_prefix_of(target) {
                lemma_push_is_prefix(key, edges[t].0, target);
                if d != j {
                    assert(!work[rest].1.is_prefix_of(nodes[d].prefix()));
                }
            }
        }
    }
}

/// The key `key` extended by `c`.
fn extended(key: &Vec<char>, c: char) -> (r: Vec<char>)
    ensures
        r@ == key@.push(c),
{
    let mut r: Vec<char> = Vec::new();
    let mut i: usize = 0;
    while i < key.len()
        invariant
            i <= key@.len(),
            r@ == key@.take(i as int),
        decreases key@.len() - i,
    {
        r.push(key[i]);
        i += 1;
        assert(r@ =~= key@.take(i as int));
    }
    assert(key@.take(i as int) =~= key@);
    r.push(c);
    r
}

/// The flat map of the mapping that a valid node list stands for.
pub(super) fn flatten(nodes: &Vec<Node>) -> (map: AHashMap<String, String>)
    requires
        nodes@.len() == 0 || shape(nodes@),
    ensures
        flat(map) == mapping(nodes@),
{
    let mut map = flat_new();
    if nodes.len() == 0 {
        proof {
            lemma_no_nodes(nodes@, Seq::empty());
        }
        return map;
    }
    let mut work: Vec<(usize, Vec<char>)> = Vec::new();
    work.push((0, Vec::new()));
    let ghost mut seen: Set<int> = Set::empty();
    proof {
        lemma_walk_empty(nodes@, pending(work@)[0].1);
        assert forall|k: Seq<char>| mapping(nodes@).dom().contains(k) implies awaited(
            pending(work@),
            k,
        ) by {
            assert(pending(work@)[0].1.is_prefix_of(k));
        }
    }
    while work.len() > 0
        invariant
            walking(nodes@, flat(map), seen, pending(work@)),
        decreases nodes@.len() - seen.len(),
    {
        let ghost before = pending(work@);
        let ghost got = flat(map);
        let (j, key) = work.pop().unwrap();
        assert(pending(work@) =~= before.drop_last());
        assert(before.last() == (j, key@));
        proof {
            assert(walk(nodes@, before[before.len() - 1].1) == Some(j as int));
            lemma_walk_prefix(nodes@, key@);
        }
        match nodes[j].stored() {
            Some(v) => {
                flat_insert(&mut map, string_of(&key), v.to_owned());
            },
            None => {},
        }
        let edges = nodes[j].edge_list();
        let mut e: usize = 0;
        while e < edges.len()
            invariant
                e <= edges@.len(),
                before.len() > 0,
                pending(work@).len() == before.len() - 1 + e,
                forall|i: int| 0 <= i < before.len() - 1 ==> pending(work@)[i] == before[i],
                forall|i: int|
                    before.len() - 1 <= i < before.len() - 1 + e ==> #[trigger] pending(work@)[i]
                        == (
                        edges@[i - (before.len() - 1)].1,
                        key@.push(edges@[i - (before.len() - 1)].0),
                    ),
            decreases edges@.len() - e,
        {
            let ghost so_far = pending(work@);
            let (c, n) = edges[e];
            let child = extended(&key, c);
            work.push((n, child));
            assert(pending(work@) =~= so_far.push((n, key@.push(c))));
            e += 1;
        }
        proof {
            lemma_visit(nodes@, got, seen, before, edges@, flat(map), pending(work@));
            vstd::set_lib::lemma_int_range(0, nodes@.len() as int);
            vstd::set_lib::lemma_len_subset(
                seen.insert(j as int),
                vstd::set_lib::set_int_range(0, nodes@.len() as int),
            );
            seen = seen.insert(j as int);
        }
    }
    proof {
        assert forall|k: Seq<char>| mapping(nodes@).dom().contains(k) implies flat(
            map,
        ).dom().contains(k) by {
            if awaited(pending(work@), k) {
            }
        }
        assert(flat(map) =~= mapping(nodes@));
    }
    map
}

} // verus!
