//! The prefix tree that indexes a substitution mapping by Unicode scalar
//! values, with exact lookup, prefix test, longest match and greedy
//! conversion of a text.

use crate::edges::{edges, edges_get, edges_insert, edges_list, edges_new};
use crate::flat::{flat, flat_entries};
use crate::model::{
    convert_seq, has_entry, has_key_with_prefix, insert_all, is_max_key_len,
    lemma_insert_all_distinct, lemma_longest_match_is, lemma_longest_match_len,
    longest_match_len, mapping_of, Mapping,
};
use crate::text::{chars_of, push_char};
use ahash::AHashMap;
use flatten::flatten;
use grow::{extend_into, insert_into, root_only};
use vstd::prelude::*;
use walks::{
    lemma_mapping, lemma_no_nodes, lemma_walk_empty, lemma_walk_prefix, lemma_walk_step,
    lemma_walk_take,
};

mod flatten;
mod grow;
mod walks;

verus! {

/// One node of the tree. Its children are held as the indices they have in
/// the tree's node list; `path` is the key prefix that leads to the node.
pub struct Node {
    children: Option<AHashMap<char, usize>>,
    value: Option<String>,
    path: Ghost<Seq<char>>,
}

/// A prefix tree from keys to replacement texts. Node 0 is the root.
pub struct Trie {
    nodes: Vec<Node>,
    depth: usize,
}

impl Node {
    /// The node that the edge labelled `c` leads to.
    pub closed spec fn child(self, c: char) -> Option<int> {
        match self.children {
            Some(m) => if edges(m).dom().contains(c) {
                Some(edges(m)[c] as int)
            } else {
                None
            },
            None => None,
        }
    }

    /// The replacement text stored at the node.
    pub closed spec fn text(self) -> Option<Seq<char>> {
        match self.value {
            Some(s) => Some(s@),
            None => None,
        }
    }

    /// The key prefix that leads from the root to the node.
    pub closed spec fn prefix(self) -> Seq<char> {
        self.path@
    }

    fn child_of(&self, c: char) -> (r: Option<usize>)
        ensures
            r matches Some(n) ==> self.child(c) == Some(n as int),
            r is None ==> self.child(c) is None,
    {
        match &self.children {
            Some(m) => edges_get(m, c),
            None => None,
        }
    }

    /// A node without children and without a value, at the given prefix.
    fn leaf(path: Ghost<Seq<char>>) -> (n: Node)
        ensures
            n.text() is None,
            n.prefix() == path@,
            forall|c: char| n.child(c) is None,
    {
        Node { children: None, value: None, path }
    }

    /// The value stored at the node.
    fn stored(&self) -> (r: Option<&str>)
        ensures
            r is Some <==> self.text() is Some,
            r matches Some(v) ==> self.text() == Some(v@),
    {
        match &self.value {
            Some(v) => Some(v.as_str()),
            None => None,
        }
    }

    /// The edges of the node, in no particular order.
    fn edge_list(&self) -> (v: Vec<(char, usize)>)
        ensures
            forall|i: int|
                0 <= i < v@.len() ==> self.child((#[trigger] v@[i]).0) == Some(v@[i].1 as int),
            forall|c: char|
                self.child(c) is Some ==> exists|i: int|
                    0 <= i < v@.len() && (#[trigger] v@[i]).0 == c,
            forall|i: int, j: int|
                0 <= i < j < v@.len() ==> (#[trigger] v@[i]).0 != (#[trigger] v@[j]).0,
    {
        match &self.children {
            Some(m) => edges_list(m),
            None => Vec::new(),
        }
    }

    fn set_value(&mut self, value: String)
        ensures
            final(self).text() == Some(value@),
            forall|d: char| final(self).child(d) == old(self).child(d),
            final(self).prefix() == old(self).prefix(),
    {
        self.value = Some(value);
    }

    fn set_child(&mut self, c: char, n: usize)
        ensures
            final(self).child(c) == Some(n as int),
            forall|d: char| d != c ==> final(self).child(d) == old(self).child(d),
            final(self).text() == old(self).text(),
            final(self).prefix() == old(self).prefix(),
    {
        match &mut self.children {
            Some(m) => {
                edges_insert(m, c, n);
            },
            None => {
                let mut m = edges_new();
                edges_insert(&mut m, c, n);
                self.children = Some(m);
            },
        }
    }
}

impl Default for Node {
    /// A node without children and without a value, at the empty prefix.
    fn default() -> (n: Node)
        ensures
            n.text() is None,
            n.prefix() == Seq::<char>::empty(),
            forall|c: char| n.child(c) is None,
    {
        Node::leaf(Ghost(Seq::empty()))
    }
}

/// The node reached from the root by following `key`, if every edge on the
/// way exists.
spec fn walk(nodes: Seq<Node>, key: Seq<char>) -> Option<int>
    decreases key.len(),
{
    if key.len() == 0 {
        Some(0)
    } else {
        match walk(nodes, key.drop_last()) {
            Some(j) => if 0 <= j < nodes.len() {
                nodes[j].child(key.last())
            } else {
                None
            },
            None => None,
        }
    }
}

/// The nodes form a tree rooted at node 0: the root has the empty prefix and
/// no value, and every edge leads to a node of the list whose prefix is its
/// parent's prefix extended by the edge's label.
#[verifier::opaque]
spec fn shape(nodes: Seq<Node>) -> bool {
    &&& nodes.len() >= 1
    &&& nodes[0].prefix().len() == 0
    &&& nodes[0].text() is None
    &&& forall|j: int, c: char|
        0 <= j < nodes.len() && (#[trigger] nodes[j].child(c)) is Some ==> {
            let k = nodes[j].child(c)->0;
            &&& 0 <= k < nodes.len()
            &&& nodes[k].prefix() == nodes[j].prefix().push(c)
        }
}

/// `key` leads to a node that holds a value.
spec fn holds(nodes: Seq<Node>, key: Seq<char>) -> bool {
    walk(nodes, key) matches Some(j) && 0 <= j < nodes.len() && nodes[j].text() is Some
}

/// The mapping that a node list stands for: its keys are the keys that lead
/// to a node with a value, and each maps to that value.
#[verifier::opaque]
spec fn mapping(nodes: Seq<Node>) -> Mapping {
    Map::new(
        |key: Seq<char>| holds(nodes, key),
        |key: Seq<char>| nodes[walk(nodes, key)->0].text()->0,
    )
}

impl View for Trie {
    type V = Mapping;

    /// The mapping that the tree stores.
    closed spec fn view(&self) -> Mapping {
        mapping(self.nodes@)
    }
}

/// What makes a node list with a recorded depth a valid tree: it is empty
/// with depth 0, or it is well shaped, every node but the root lies on the
/// way to some key, and the depth is the length of the longest key.
spec fn valid(nodes: Seq<Node>, depth: nat) -> bool {
    if nodes.len() == 0 {
        depth == 0
    } else {
        &&& shape(nodes)
        &&& forall|j: int|
            0 < j < nodes.len() ==> has_key_with_prefix(
                mapping(nodes),
                #[trigger] nodes[j].prefix(),
            )
        &&& is_max_key_len(mapping(nodes), depth)
    }
}

/// The node that `key` leads to, if every edge on the way exists.
fn node_at(nodes: &Vec<Node>, key: &Vec<char>) -> (r: Option<usize>)
    requires
        shape(nodes@),
    ensures
        r matches Some(j) ==> j < nodes@.len() && walk(nodes@, key@) == Some(j as int),
        r is None ==> walk(nodes@, key@) is None,
{
    let mut cur: usize = 0;
    let mut i: usize = 0;
    proof {
        lemma_walk_empty(nodes@, key@.take(0));
    }
    while i < key.len()
        invariant
            shape(nodes@),
            0 <= i <= key@.len(),
            cur < nodes@.len(),
            walk(nodes@, key@.take(i as int)) == Some(cur as int),
        decreases key@.len() - i,
    {
        proof {
            lemma_walk_step(nodes@, key@, i as int);
        }
        match nodes[cur].child_of(key[i]) {
            Some(n) => {
                proof {
                    lemma_walk_prefix(nodes@, key@.take(i as int + 1));
                }
                cur = n;
            },
            None => {
                proof {
                    if walk(nodes@, key@) is Some {
                        lemma_walk_take(nodes@, key@, i as int + 1);
                    }
                }
                return None;
            },
        }
        i += 1;
    }
    assert(key@.take(i as int) =~= key@);
    Some(cur)
}

impl Trie {
    #[verifier::type_invariant]
    spec fn inv(self) -> bool {
        valid(self.nodes@, self.depth as nat)
    }

    /// Takes the tree apart, leaving an empty one in its place, and makes
    /// sure that the node list has its root.
    fn take_parts(&mut self) -> (parts: (Vec<Node>, usize))
        ensures
            parts.0@.len() > 0,
            valid(parts.0@, parts.1 as nat),
            mapping(parts.0@) == old(self)@,
    {
        proof {
            use_type_invariant(&*self);
        }
        let mut taken = Trie { nodes: Vec::new(), depth: 0 };
        core::mem::swap(self, &mut taken);
        let Trie { nodes, depth } = taken;
        if nodes.len() == 0 {
            proof {
                lemma_no_nodes(nodes@, Seq::empty());
            }
            (root_only(), 0)
        } else {
            (nodes, depth)
        }
    }

    /// The number of scalar values of the longest key ever inserted; 0 for
    /// an empty tree.
    pub fn get_depth(&self) -> (d: usize)
        ensures
            is_max_key_len(self@, d as nat),
    {
        proof {
            use_type_invariant(self);
            if self.nodes@.len() == 0 {
                assert forall|k: Seq<char>| !self@.dom().contains(k) by {
                    lemma_no_nodes(self.nodes@, k);
                }
            }
        }
        self.depth
    }

    /// Stores `value` under `key`, overwriting what was stored under it
    /// before. An empty key is ignored.
    pub fn insert(&mut self, key: &str, value: String)
        ensures
            key@.len() == 0 ==> final(self)@ == old(self)@,
            key@.len() > 0 ==> final(self)@ == old(self)@.insert(key@, value@),
    {
        let chars = chars_of(key);
        if chars.len() == 0 {
            return ;
        }
        let (mut nodes, mut depth) = self.take_parts();
        insert_into(&mut nodes, &mut depth, &chars, value);
        *self = Trie { nodes, depth };
    }

    /// Inserts `entries` in order.
    pub fn extend(&mut self, entries: Vec<(String, String)>)
        ensures
            final(self)@ == insert_all(old(self)@, entries.deep_view()),
    {
        let (mut nodes, mut depth) = self.take_parts();
        extend_into(&mut nodes, &mut depth, entries);
        *self = Trie { nodes, depth };
    }

    /// The tree that holds `entries`, inserted in order.
    pub fn from_entries(entries: Vec<(String, String)>) -> (t: Trie)
        ensures
            t@ == mapping_of(entries.deep_view()),
    {
        let mut t = Trie::default();
        t.extend(entries);
        t
    }

    /// The text stored under exactly `key`, if `key` was inserted.
    pub fn get(&self, key: &str) -> (r: Option<&str>)
        ensures
            r is Some <==> self@.dom().contains(key@),
            r matches Some(v) ==> v@ == self@[key@],
    {
        proof {
            use_type_invariant(self);
            lemma_mapping(self.nodes@, key@);
        }
        if self.nodes.len() == 0 {
            return None;
        }
        let chars = chars_of(key);
        match node_at(&self.nodes, &chars) {
            Some(j) => self.nodes[j].stored(),
            None => None,
        }
    }

    /// Whether some key of the tree starts with `prefix`.
    pub fn starts_with(&self, prefix: &str) -> (r: bool)
        ensures
            r <==> has_key_with_prefix(self@, prefix@),
    {
        proof {
            use_type_invariant(self);
        }
        if self.nodes.len() == 0 {
            proof {
                if has_key_with_prefix(self@, prefix@) {
                    let k = choose|k: Seq<char>|
                        self@.dom().contains(k) && prefix@.is_prefix_of(k);
                    lemma_no_nodes(self.nodes@, k);
                }
            }
            return false;
        }
        let chars = chars_of(prefix);
        match node_at(&self.nodes, &chars) {
            Some(j) => {
                if chars.len() == 0 {
                    proof {
                        if self.depth > 0 {
                            let k = choose|k: Seq<char>|
                                self@.dom().contains(k) && k.len() == self.depth as nat;
                            assert(prefix@.is_prefix_of(k));
                        } else if has_key_with_prefix(self@, prefix@) {
                            let k = choose|k: Seq<char>|
                                self@.dom().contains(k) && prefix@.is_prefix_of(k);
                            lemma_mapping(self.nodes@, k);
                            lemma_walk_empty(self.nodes@, k);
                        }
                    }
                    self.depth > 0
                } else {
                    proof {
                        lemma_walk_prefix(self.nodes@, prefix@);
                    }
                    true
                }
            },
            None => {
                proof {
                    if has_key_with_prefix(self@, prefix@) {
                        let k = choose|k: Seq<char>|
                            self@.dom().contains(k) && prefix@.is_prefix_of(k);
                        lemma_mapping(self.nodes@, k);
                        assert(k.take(prefix@.len() as int) =~= prefix@);
                        lemma_walk_take(self.nodes@, k, prefix@.len() as int);
                    }
                }
                false
            },
        }
    }

    /// The longest key that starts `chars[start..]`, as the text stored under
    /// it and its length in scalar values.
    pub(crate) fn match_at(&self, chars: &Vec<char>, start: usize) -> (r: Option<(&str, usize)>)
        requires
            start <= chars@.len(),
        ensures
            r is Some <==> longest_match_len(self@, chars@.skip(start as int)) > 0,
            r matches Some((v, n)) ==> {
                &&& n == longest_match_len(self@, chars@.skip(start as int))
                &&& v@ == self@[chars@.skip(start as int).take(n as int)]
            },
    {
        let ghost text = chars@.skip(start as int);
        proof {
            use_type_invariant(self);
        }
        if self.nodes.len() == 0 {
            proof {
                assert forall|k: int| 0 < k <= text.len() implies !self@.dom().contains(
                    #[trigger] text.take(k),
                ) by {
                    lemma_no_nodes(self.nodes@, text.take(k));
                }
                lemma_longest_match_is(self@, text, 0);
            }
            return None;
        }
        let rest: usize = chars.len() - start;
        let limit: usize = if self.depth < rest {
            self.depth
        } else {
            rest
        };
        let mut cur: usize = 0;
        let mut i: usize = 0;
        let mut alive: bool = true;
        let mut best: Option<(usize, usize)> = None;
        proof {
            lemma_walk_empty(self.nodes@, text.take(0));
        }
        while alive && i < limit
            invariant
                shape(self.nodes@),
                text == chars@.skip(start as int),
                start + limit <= chars.len(),
                0 <= i <= limit,
                cur < self.nodes@.len(),
                alive ==> walk(self.nodes@, text.take(i as int)) == Some(cur as int),
                !alive ==> forall|k: int|
                    i <= k <= text.len() ==> walk(self.nodes@, #[trigger] text.take(k)) is None,
                best is None ==> forall|k: int|
                    1 <= k <= i ==> !holds(self.nodes@, #[trigger] text.take(k)),
                best matches Some((b, n)) ==> {
                    &&& 1 <= n <= i
                    &&& b < self.nodes@.len()
                    &&& walk(self.nodes@, text.take(n as int)) == Some(b as int)
                    &&& self.nodes@[b as int].text() is Some
                    &&& forall|k: int|
                        n < k <= i ==> !holds(self.nodes@, #[trigger] text.take(k))
                },
            decreases limit - i + (if alive { 1int } else { 0int }),
        {
            proof {
                lemma_walk_step(self.nodes@, text, i as int);
            }
            match self.nodes[cur].child_of(chars[start + i]) {
                Some(n) => {
                    proof {
                        lemma_walk_prefix(self.nodes@, text.take(i as int + 1));
                    }
                    cur = n;
                    i += 1;
                    if self.nodes[cur].stored().is_some() {
                        best = Some((cur, i));
                    }
                },
                None => {
                    alive = false;
                    i += 1;
                    proof {
                        assert forall|k: int| i <= k <= text.len() implies walk(
                            self.nodes@,
                            #[trigger] text.take(k),
                        ) is None by {
                            if walk(self.nodes@, text.take(k)) is Some {
                                lemma_walk_take(self.nodes@, text.take(k), i as int);
                                assert(text.take(k).take(i as int) =~= text.take(i as int));
                            }
                        }
                    }
                },
            }
        }
        proof {
            let found: nat = match best {
                Some((b, n)) => n as nat,
                None => 0,
            };
            assert forall|k: int| found < k <= text.len() implies !self@.dom().contains(
                #[trigger] text.take(k),
            ) by {
                lemma_mapping(self.nodes@, text.take(k));
                if k > i && alive && i == self.depth {
                    assert(text.take(k).len() > self.depth);
                }
            }
            if found > 0 {
                lemma_mapping(self.nodes@, text.take(found as int));
            }
            lemma_longest_match_is(self@, text, found);
        }
        match best {
            Some((b, n)) => {
                match self.nodes[b].stored() {
                    Some(v) => Some((v, n)),
                    None => None,
                }
            },
            None => None,
        }
    }

    /// The longest key that starts `text`: the replacement stored under it
    /// and the number of scalar values of `text` that it covers. `None` when
    /// no key starts `text`.
    pub fn longest_match(&self, text: &str) -> (r: Option<(&str, usize)>)
        ensures
            r is Some <==> longest_match_len(self@, text@) > 0,
            r matches Some((v, n)) ==> {
                &&& n == longest_match_len(self@, text@)
                &&& v@ == self@[text@.take(n as int)]
            },
    {
        let chars = chars_of(text);
        assert(chars@.skip(0) =~= text@);
        self.match_at(&chars, 0)
    }

    /// Converts `input` by greedy longest-match substitution.
    pub fn convert(&self, input: &str) -> (r: String)
        ensures
            r@ == convert_seq(self@, input@),
    {
        let chars = chars_of(input);
        let mut out = String::new();
        let mut pos: usize = 0;
        assert(chars@.skip(0) =~= chars@);
        assert(out@ + convert_seq(self@, chars@) =~= convert_seq(self@, chars@));
        while pos < chars.len()
            invariant
                pos <= chars@.len(),
                convert_seq(self@, chars@) == out@ + convert_seq(self@, chars@.skip(pos as int)),
            decreases chars@.len() - pos,
        {
            let ghost rest = chars@.skip(pos as int);
            let ghost before = out@;
            proof {
                lemma_longest_match_len(self@, rest);
            }
            match self.match_at(&chars, pos) {
                Some((v, n)) => {
                    out.append(v);
                    pos += n;
                    proof {
                        assert(rest.skip(n as int) =~= chars@.skip(pos as int));
                        assert(before + (v@ + convert_seq(self@, rest.skip(n as int))) =~= out@
                            + convert_seq(self@, chars@.skip(pos as int)));
                    }
                },
                None => {
                    let c = chars[pos];
                    push_char(&mut out, c);
                    pos += 1;
                    proof {
                        assert(rest.skip(1) =~= chars@.skip(pos as int));
                        assert(before + (seq![c] + convert_seq(self@, rest.skip(1))) =~= out@
                            + convert_seq(self@, chars@.skip(pos as int)));
                    }
                },
            }
        }
        assert(out@ + convert_seq(self@, chars@.skip(pos as int)) =~= out@);
        out
    }
}

impl Default for Trie {
    /// The empty tree.
    fn default() -> (t: Trie)
        ensures
            t@ == Mapping::empty(),
    {
        let t = Trie { nodes: Vec::new(), depth: 0 };
        proof {
            lemma_no_nodes(t.nodes@, Seq::empty());
        }
        t
    }
}

impl From<Trie> for AHashMap<String, String> {
    /// The flat map that holds the tree's mapping.
    fn from(trie: Trie) -> (map: Self)
        ensures
            flat(map) == trie@,
    {
        proof {
            use_type_invariant(&trie);
        }
        flatten(&trie.nodes)
    }
}

impl vstd::std_specs::convert::FromSpecImpl<Trie> for AHashMap<String, String> {
    open spec fn obeys_from_spec() -> bool {
        false
    }

    open spec fn from_spec(v: Trie) -> Self {
        arbitrary()
    }
}

impl From<AHashMap<String, String>> for Trie {
    /// The tree that holds what the flat map holds under keys that are not
    /// empty.
    fn from(map: AHashMap<String, String>) -> (t: Trie)
        ensures
            t@ == flat(map).remove(Seq::empty()),
    {
        let entries = flat_entries(map);
        proof {
            let all = entries.deep_view();
            let kept = flat(map).remove(Seq::empty());
            assert forall|i: int, j: int| 0 <= i < j < all.len() implies (#[trigger] all[i]).0 != (
            #[trigger] all[j]).0 by {
                assert(entries@[i].0@ != entries@[j].0@);
            }
            lemma_insert_all_distinct(Mapping::empty(), all);
            assert forall|k: Seq<char>| #[trigger] kept.dom().contains(k) implies mapping_of(
                all,
            ).dom().contains(k) by {
                assert(flat(map).dom().contains(k));
                let i = choose|i: int| 0 <= i < entries@.len() && (#[trigger] entries@[i]).0@ == k;
                assert(all[i].0 == k);
                assert(has_entry(all, k));
                if k.len() == 0 {
                    assert(k =~= Seq::<char>::empty());
                }
            }
            assert forall|k: Seq<char>| #[trigger] mapping_of(all).dom().contains(k) implies (
            kept.dom().contains(k) && mapping_of(all)[k] == kept[k]) by {
                assert(has_entry(all, k));
                let i = choose|i: int| 0 <= i < all.len() && (#[trigger] all[i]).0 == k;
                assert(flat(map).contains_pair(entries@[i].0@, entries@[i].1@));
                assert(all[i].0.len() > 0);
            }
            assert(mapping_of(all) =~= kept);
        }
        Trie::from_entries(entries)
    }
}

impl vstd::std_specs::convert::FromSpecImpl<AHashMap<String, String>> for Trie {
    open spec fn obeys_from_spec() -> bool {
        false
    }

    open spec fn from_spec(v: AHashMap<String, String>) -> Self {
        arbitrary()
    }
}

} // verus!
