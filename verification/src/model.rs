//! The mathematical model of conversion: a mapping from keys to replacement
//! texts, the longest key that starts a text, greedy substitution, and the
//! chaining of several mappings.

use vstd::prelude::*;

verus! {

/// A substitution mapping: each key is a sequence of Unicode scalar values,
/// and maps to the text that replaces it.
pub type Mapping = Map<Seq<char>, Seq<char>>;

/// A list of (key, replacement) pairs as read from mapping tables.
pub type Entries = Seq<(Seq<char>, Seq<char>)>;

/// The length of the longest prefix of `text` that is a key of `m`, looking
/// only at prefixes of `1..=n` scalar values; 0 when none of them is a key.
pub open spec fn longest_key_upto(m: Mapping, text: Seq<char>, n: nat) -> nat
    decreases n,
{
    if n == 0 {
        0
    } else if n <= text.len() && m.dom().contains(text.take(n as int)) {
        n
    } else {
        longest_key_upto(m, text, (n - 1) as nat)
    }
}

/// The length of the longest non-empty prefix of `text` that is a key of `m`;
/// 0 when no prefix is a key.
pub open spec fn longest_match_len(m: Mapping, text: Seq<char>) -> nat {
    longest_key_upto(m, text, text.len())
}

/// `longest_key_upto` is the greatest length in `1..=n` whose prefix is a key.
pub proof fn lemma_longest_key_upto(m: Mapping, text: Seq<char>, n: nat)
    requires
        n <= text.len(),
    ensures
        longest_key_upto(m, text, n) <= n,
        longest_key_upto(m, text, n) > 0 ==> m.dom().contains(
            text.take(longest_key_upto(m, text, n) as int),
        ),
        forall|k: int|
            longest_key_upto(m, text, n) < k <= n ==> !m.dom().contains(#[trigger] text.take(k)),
    decreases n,
{
    if n > 0 && !m.dom().contains(text.take(n as int)) {
        lemma_longest_key_upto(m, text, (n - 1) as nat);
    }
}

/// `longest_match_len` is the greatest length of a non-empty prefix of `text`
/// that is a key of `m`, and 0 exactly when there is none.
pub proof fn lemma_longest_match_len(m: Mapping, text: Seq<char>)
    ensures
        longest_match_len(m, text) <= text.len(),
        longest_match_len(m, text) > 0 ==> m.dom().contains(
            text.take(longest_match_len(m, text) as int),
        ),
        forall|k: int|
            longest_match_len(m, text) < k <= text.len() ==> !m.dom().contains(
                #[trigger] text.take(k),
            ),
{
    lemma_longest_key_upto(m, text, text.len());
}

/// A length that is a key's, with no longer prefix being a key, is the
/// longest match.
pub proof fn lemma_longest_match_is(m: Mapping, text: Seq<char>, n: nat)
    requires
        n <= text.len(),
        n > 0 ==> m.dom().contains(text.take(n as int)),
        forall|k: int| n < k <= text.len() ==> !m.dom().contains(#[trigger] text.take(k)),
    ensures
        longest_match_len(m, text) == n,
{
    lemma_longest_match_len(m, text);
    let l = longest_match_len(m, text);
    if l < n {
        assert(!m.dom().contains(text.take(n as int)));
    }
    if n < l {
        assert(!m.dom().contains(text.take(l as int)));
    }
}

/// Greedy substitution. At each position the longest key that starts there
/// is replaced by its text and the scan resumes right after that key; where
/// no key starts, one scalar value is copied and the scan moves on by one.
pub open spec fn convert_seq(m: Mapping, text: Seq<char>) -> Seq<char>
    decreases text.len(),
{
    let n = longest_match_len(m, text);
    if text.len() == 0 {
        Seq::empty()
    } else if n > 0 {
        proof {
            lemma_longest_match_len(m, text);
        }
        m[text.take(n as int)] + convert_seq(m, text.skip(n as int))
    } else {
        seq![text[0]] + convert_seq(m, text.skip(1))
    }
}

/// Runs `text` through every stage in order, each stage converting the whole
/// output of the one before it. With no stage the text is returned as it is.
pub open spec fn pipeline(stages: Seq<Mapping>, text: Seq<char>) -> Seq<char>
    decreases stages.len(),
{
    if stages.len() == 0 {
        text
    } else {
        convert_seq(stages.last(), pipeline(stages.drop_last(), text))
    }
}

/// `m` after inserting `entries` in order: a later entry overwrites an
/// earlier one with the same key, and an entry with an empty key is ignored.
pub open spec fn insert_all(m: Mapping, entries: Entries) -> Mapping
    decreases entries.len(),
{
    if entries.len() == 0 {
        m
    } else if entries.last().0.len() == 0 {
        insert_all(m, entries.drop_last())
    } else {
        insert_all(m, entries.drop_last()).insert(entries.last().0, entries.last().1)
    }
}

/// The mapping that results from inserting `entries` in order into an empty
/// one.
pub open spec fn mapping_of(entries: Entries) -> Mapping {
    insert_all(Map::empty(), entries)
}

/// Inserting two lists one after the other is inserting their concatenation.
pub proof fn lemma_insert_all_concat(m: Mapping, a: Entries, b: Entries)
    ensures
        insert_all(m, a + b) == insert_all(insert_all(m, a), b),
    decreases b.len(),
{
    if b.len() == 0 {
        assert(a + b =~= a);
    } else {
        lemma_insert_all_concat(m, a, b.drop_last());
        assert((a + b).drop_last() =~= a + b.drop_last());
        assert((a + b).last() == b.last());
    }
}

/// Some entry has the key `k`.
pub open spec fn has_entry(entries: Entries, k: Seq<char>) -> bool {
    exists|i: int| 0 <= i < entries.len() && (#[trigger] entries[i]).0 == k
}

/// Where no two entries share a key, the order of insertion does not
/// matter: each entry with a key that is not empty ends up in the mapping,
/// and nothing else is added.
pub proof fn lemma_insert_all_distinct(m: Mapping, entries: Entries)
    requires
        forall|i: int, j: int|
            0 <= i < j < entries.len() ==> (#[trigger] entries[i]).0 != (#[trigger] entries[j]).0,
    ensures
        forall|k: Seq<char>| #[trigger]
            insert_all(m, entries).dom().contains(k) <==> m.dom().contains(k) || (k.len() > 0
                && has_entry(entries, k)),
        forall|i: int|
            0 <= i < entries.len() && (#[trigger] entries[i]).0.len() > 0 ==> insert_all(
                m,
                entries,
            ).dom().contains(entries[i].0) && insert_all(m, entries)[entries[i].0] == entries[i].1,
    decreases entries.len(),
{
    if entries.len() > 0 {
        let init = entries.drop_last();
        let last = entries.last();
        let before = insert_all(m, init);
        let after = insert_all(m, entries);
        assert forall|i: int, j: int| 0 <= i < j < init.len() implies (#[trigger] init[i]).0 != (
        #[trigger] init[j]).0 by {
            assert(init[i] == entries[i] && init[j] == entries[j]);
        }
        lemma_insert_all_distinct(m, init);
        assert forall|k: Seq<char>| has_entry(entries, k) <==> has_entry(init, k) || k
            == last.0 by {
            if has_entry(entries, k) {
                let i = choose|i: int| 0 <= i < entries.len() && (#[trigger] entries[i]).0 == k;
                if i < init.len() {
                    assert(init[i].0 == k);
                }
            }
            if has_entry(init, k) {
                let i = choose|i: int| 0 <= i < init.len() && (#[trigger] init[i]).0 == k;
                assert(entries[i].0 == k);
            }
            if k == last.0 {
                assert(entries[entries.len() - 1].0 == k);
            }
        }
        assert forall|k: Seq<char>| #[trigger]
            after.dom().contains(k) <==> m.dom().contains(k) || (k.len() > 0 && has_entry(
                entries,
                k,
            )) by {
            assert(before.dom().contains(k) <==> m.dom().contains(k) || (k.len() > 0
                && has_entry(init, k)));
        }
        assert forall|i: int|
            0 <= i < entries.len() && (#[trigger] entries[i]).0.len() > 0 implies {
            &&& after.dom().contains(entries[i].0)
            &&& after[entries[i].0] == entries[i].1
        } by {
            if i < init.len() {
                assert(init[i] == entries[i]);
                assert(entries[i].0 != entries[entries.len() - 1].0);
            }
        }
    }
}

/// `d` is the length of the longest key of `m`, or 0 when `m` has no key.
pub open spec fn is_max_key_len(m: Mapping, d: nat) -> bool {
    &&& forall|k: Seq<char>| m.dom().contains(k) ==> k.len() <= d
    &&& d > 0 ==> exists|k: Seq<char>| m.dom().contains(k) && k.len() == d
}

/// Some key of `m` starts with `p`.
pub open spec fn has_key_with_prefix(m: Mapping, p: Seq<char>) -> bool {
    exists|k: Seq<char>| m.dom().contains(k) && p.is_prefix_of(k)
}

} // verus!
