//! Growing a tree: hanging a leaf under a node, storing a value at a node,
//! and inserting whole keys, with the proofs that each step changes the
//! mapping as it should.

use super::walks::{lemma_walk_empty, lemma_walk_prefix, lemma_walk_root_only, lemma_walk_step};
use super::{holds, mapping, shape, valid, walk, Node};
use crate::model::{has_key_with_prefix, insert_all, is_max_key_len, Mapping};
use crate::text::chars_of;
use vstd::prelude::*;

verus! {

/// `b` is `a` with one more node, a leaf without a value, hung under node
/// `cur` by a new edge labelled `c`.
#[verifier::opaque]
spec fn leaf_added(a: Seq<Node>, b: Seq<Node>, cur: int, c: char) -> bool {
    &&& 0 <= cur < a.len()
    &&& a[cur].child(c) is None
    &&& b.len() == a.len() + 1
    &&& forall|j: int| 0 <= j < a.len() && j != cur ==> b[j] == a[j]
    &&& b[cur].child(c) == Some(a.len() as int)
    &&& forall|d: char| d != c ==> b[cur].child(d) == a[cur].child(d)
    &&& b[cur].text() == a[cur].text()
    &&& b[cur].prefix() == a[cur].prefix()
    &&& b[a.len() as int].text() is None
    &&& forall|d: char| b[a.len() as int].child(d) is None
    &&& b[a.len() as int].prefix() == a[cur].prefix().push(c)
}

/// Adding a leaf leaves every walk that succeeded as it was, and lets a walk
/// that failed end only at the new leaf.
proof fn lemma_add_leaf_walk(a: Seq<Node>, b: Seq<Node>, cur: int, c: char, key: Seq<char>)
    requires
        shape(a),
        leaf_added(a, b, cur, c),
    ensures
        walk(a, key) is Some ==> walk(b, key) == walk(a, key),
        walk(a, key) is None ==> walk(b, key) is None || walk(b, key) == Some(a.len() as int),
    decreases key.len(),
{
    reveal(leaf_added);
    if key.len() > 0 {
        lemma_add_leaf_walk(a, b, cur, c, key.drop_last());
        if walk(a, key.drop_last()) is Some {
            lemma_walk_prefix(a, key.drop_last());
        }
    }
}

/// Adding a leaf keeps the tree well shaped, the mapping and every prefix.
proof fn lemma_add_leaf(a: Seq<Node>, b: Seq<Node>, cur: int, c: char)
    requires
        shape(a),
        leaf_added(a, b, cur, c),
    ensures
        shape(b),
        mapping(b) == mapping(a),
        forall|key: Seq<char>| walk(a, key) is Some ==> walk(b, key) == walk(a, key),
        b.len() == a.len() + 1,
        forall|j: int| 0 <= j < a.len() ==> (#[trigger] b[j]).prefix() == a[j].prefix(),
        b[a.len() as int].prefix() == a[cur].prefix().push(c),
        b[cur].child(c) == Some(a.len() as int),
{
    reveal(leaf_added);
    assert(shape(b)) by {
        reveal(shape);
        assert forall|j: int, d: char|
            0 <= j < b.len() && (#[trigger] b[j].child(d)) is Some implies {
            let k = b[j].child(d)->0;
            &&& 0 <= k < b.len()
            &&& b[k].prefix() == b[j].prefix().push(d)
        } by {
            if j < a.len() && !(j == cur && d == c) {
                assert(a[j].child(d) is Some);
                let k = a[j].child(d)->0;
                assert(0 <= k < a.len());
            }
        }
    }
    assert forall|key: Seq<char>| walk(a, key) is Some implies walk(b, key) == walk(a, key) by {
        lemma_add_leaf_walk(a, b, cur, c, key);
    }
    assert(mapping(b) =~= mapping(a)) by {
        assert forall|key: Seq<char>|
            holds(b, key) == holds(a, key) && (holds(a, key) ==> b[walk(b, key)->0].text()
                == a[walk(a, key)->0].text()) by {
            lemma_add_leaf_walk(a, b, cur, c, key);
            if walk(a, key) is Some {
                lemma_walk_prefix(a, key);
            }
        }
        reveal(mapping);
    }
}

/// Walks depend on the edges alone.
proof fn lemma_same_edges_walk(a: Seq<Node>, b: Seq<Node>, key: Seq<char>)
    requires
        b.len() == a.len(),
        forall|j: int, d: char| 0 <= j < a.len() ==> b[j].child(d) == a[j].child(d),
    ensures
        walk(b, key) == walk(a, key),
    decreases key.len(),
{
    if key.len() > 0 {
        lemma_same_edges_walk(a, b, key.drop_last());
    }
}

/// Storing a value at the node that `key` leads to adds `key` to the
/// mapping, with that value, and changes nothing else.
proof fn lemma_set_value(a: Seq<Node>, b: Seq<Node>, t: int, key: Seq<char>, v: Seq<char>)
    requires
        shape(a),
        key.len() > 0,
        walk(a, key) == Some(t),
        b.len() == a.len(),
        forall|j: int| 0 <= j < a.len() && j != t ==> b[j] == a[j],
        forall|d: char| b[t].child(d) == a[t].child(d),
        b[t].prefix() == a[t].prefix(),
        b[t].text() == Some(v),
    ensures
        shape(b),
        mapping(b) == mapping(a).insert(key, v),
        forall|j: int| 0 <= j < a.len() ==> (#[trigger] b[j]).prefix() == a[j].prefix(),
{
    lemma_walk_prefix(a, key);
    assert(shape(b)) by {
        reveal(shape);
        assert forall|j: int, d: char|
            0 <= j < b.len() && (#[trigger] b[j].child(d)) is Some implies {
            let k = b[j].child(d)->0;
            &&& 0 <= k < b.len()
            &&& b[k].prefix() == b[j].prefix().push(d)
        } by {
            assert(a[j].child(d) is Some);
            let k = a[j].child(d)->0;
            assert(0 <= k < a.len());
        }
    }
    assert forall|k: Seq<char>| walk(b, k) == walk(a, k) by {
        lemma_same_edges_walk(a, b, k);
    }
    assert forall|k: Seq<char>| holds(b, k) == (k == key || holds(a, k)) by {
        if walk(a, k) is Some {
            lemma_walk_prefix(a, k);
        }
    }
    assert(mapping(b) =~= mapping(a).insert(key, v)) by {
        reveal(mapping);
        assert forall|k: Seq<char>| mapping(b).dom().contains(k) implies #[trigger] mapping(b)[k]
            == mapping(a).insert(key, v)[k] by {
            if walk(a, k) is Some {
                lemma_walk_prefix(a, k);
            }
        }
    }
}

/// After a value was put under `key`, a prefix that started a key before, or
/// starts `key`, starts a key.
proof fn lemma_prefix_kept(before: Mapping, key: Seq<char>, v: Seq<char>, p: Seq<char>)
    requires
        has_key_with_prefix(before, p) || p.is_prefix_of(key),
    ensures
        has_key_with_prefix(before.insert(key, v), p),
{
    let after = before.insert(key, v);
    if has_key_with_prefix(before, p) {
        let k = choose|k: Seq<char>| before.dom().contains(k) && p.is_prefix_of(k);
        assert(after.dom().contains(k) && p.is_prefix_of(k));
    } else {
        assert(after.dom().contains(key) && p.is_prefix_of(key));
    }
}

/// Inserting a key makes the longest key as long as the longer of that key
/// and the longest key before.
proof fn lemma_max_key_len_insert(before: Mapping, d: nat, key: Seq<char>, v: Seq<char>)
    requires
        is_max_key_len(before, d),
        key.len() > 0,
    ensures
        is_max_key_len(
            before.insert(key, v),
            if key.len() > d {
                key.len()
            } else {
                d
            },
        ),
{
    let after = before.insert(key, v);
    assert(after.dom().contains(key));
    if d > 0 {
        let k = choose|k: Seq<char>| before.dom().contains(k) && k.len() == d;
        assert(after.dom().contains(k));
    }
}

/// Hangs a new leaf under node `cur` by an edge labelled `c`, and returns
/// the leaf's index.
fn add_leaf(nodes: &mut Vec<Node>, cur: usize, c: char) -> (n: usize)
    requires
        cur < old(nodes)@.len(),
        old(nodes)@[cur as int].child(c) is None,
    ensures
        n == old(nodes)@.len(),
        leaf_added(old(nodes)@, final(nodes)@, cur as int, c),
{
    reveal(leaf_added);
    let n: usize = nodes.len();
    let leaf = Node::leaf(Ghost(nodes@[cur as int].prefix().push(c)));
    nodes.push(leaf);
    nodes[cur].set_child(c, n);
    n
}

/// Stores `value` at node `t`.
fn put_value(nodes: &mut Vec<Node>, t: usize, value: String)
    requires
        t < old(nodes)@.len(),
    ensures
        final(nodes)@.len() == old(nodes)@.len(),
        forall|j: int|
            0 <= j < old(nodes)@.len() && j != t ==> final(nodes)@[j] == old(nodes)@[j],
        forall|d: char| final(nodes)@[t as int].child(d) == old(nodes)@[t as int].child(d),
        final(nodes)@[t as int].prefix() == old(nodes)@[t as int].prefix(),
        final(nodes)@[t as int].text() == Some(value@),
{
    nodes[t].set_value(value);
}

/// Stores `value` under the non-empty key `chars` in a valid tree.
pub(super) fn insert_into(
    nodes: &mut Vec<Node>,
    depth: &mut usize,
    chars: &Vec<char>,
    value: String,
)
    requires
        old(nodes)@.len() > 0,
        valid(old(nodes)@, *old(depth) as nat),
        chars@.len() > 0,
    ensures
        final(nodes)@.len() > 0,
        valid(final(nodes)@, *final(depth) as nat),
        mapping(final(nodes)@) == mapping(old(nodes)@).insert(chars@, value@),
{
    let ghost initial = mapping(nodes@);
    let mut cur: usize = 0;
    let mut i: usize = 0;
    proof {
        lemma_walk_empty(nodes@, chars@.take(0));
    }
    while i < chars.len()
        invariant
            shape(nodes@),
            mapping(nodes@) == initial,
            *depth == *old(depth),
            0 <= i <= chars@.len(),
            cur < nodes@.len(),
            walk(nodes@, chars@.take(i as int)) == Some(cur as int),
            forall|j: int|
                0 < j < nodes@.len() ==> {
                    ||| has_key_with_prefix(initial, #[trigger] nodes@[j].prefix())
                    ||| nodes@[j].prefix().is_prefix_of(chars@)
                },
        decreases chars@.len() - i,
    {
        let c = chars[i];
        proof {
            lemma_walk_step(nodes@, chars@, i as int);
            lemma_walk_prefix(nodes@, chars@.take(i as int));
        }
        match nodes[cur].child_of(c) {
            Some(n) => {
                proof {
                    lemma_walk_prefix(nodes@, chars@.take(i as int + 1));
                }
                cur = n;
            },
            None => {
                let ghost before = nodes@;
                let n = add_leaf(nodes, cur, c);
                proof {
                    lemma_add_leaf(before, nodes@, cur as int, c);
                    lemma_walk_step(nodes@, chars@, i as int);
                    assert(chars@.take(i as int + 1) =~= chars@.take(i as int).push(c));
                }
                cur = n;
            },
        }
        i += 1;
    }
    let ghost before = nodes@;
    put_value(nodes, cur, value);
    if chars.len() > *depth {
        *depth = chars.len();
    }
    proof {
        assert(chars@.take(i as int) =~= chars@);
        lemma_set_value(before, nodes@, cur as int, chars@, value@);
        lemma_max_key_len_insert(initial, *old(depth) as nat, chars@, value@);
        assert forall|j: int| 0 < j < nodes@.len() implies has_key_with_prefix(
            mapping(nodes@),
            #[trigger] nodes@[j].prefix(),
        ) by {
            assert(nodes@[j].prefix() == before[j].prefix());
            lemma_prefix_kept(initial, chars@, value@, before[j].prefix());
        }
    }
}

/// Inserts `entries` in order into a valid tree.
pub(super) fn extend_into(nodes: &mut Vec<Node>, depth: &mut usize, entries: Vec<(String, String)>)
    requires
        old(nodes)@.len() > 0,
        valid(old(nodes)@, *old(depth) as nat),
    ensures
        final(nodes)@.len() > 0,
        valid(final(nodes)@, *final(depth) as nat),
        mapping(final(nodes)@) == insert_all(mapping(old(nodes)@), entries.deep_view()),
{
    let ghost all = entries.deep_view();
    let ghost start = mapping(nodes@);
    assert(all.take(0) =~= Seq::<(Seq<char>, Seq<char>)>::empty());
    for entry in it: entries
        invariant
            nodes@.len() > 0,
            valid(nodes@, *depth as nat),
            all == entries.deep_view(),
            it.seq() == entries@,
            mapping(nodes@) == insert_all(start, all.take(it.index() as int)),
    {
        let ghost i = it.index() as int;
        proof {
            assert(all.take(i + 1).drop_last() =~= all.take(i));
            assert(all.take(i + 1).last() == entry.deep_view());
        }
        let (key, value) = entry;
        let chars = chars_of(key.as_str());
        if chars.len() > 0 {
            insert_into(nodes, depth, &chars, value);
        }
    }
    assert(all.take(entries@.len() as int) =~= all);
}

/// The node list of an empty tree that has its root.
pub(super) fn root_only() -> (nodes: Vec<Node>)
    ensures
        nodes@.len() == 1,
        valid(nodes@, 0),
        mapping(nodes@) == Mapping::empty(),
{
    let mut nodes: Vec<Node> = Vec::new();
    nodes.push(Node::default());
    proof {
        reveal(shape);
        reveal(mapping);
        assert forall|key: Seq<char>| !holds(nodes@, key) by {
            lemma_walk_root_only(nodes@, key);
        }
        assert(mapping(nodes@) =~= Mapping::empty());
    }
    nodes
}

} // verus!
