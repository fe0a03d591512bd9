//! What holds of conversion in general, proved over the model.

use crate::conv::Converters;
use crate::dict::Tables;
use crate::model::{convert_seq, lemma_longest_match_is, mapping_of, pipeline, Mapping};
use crate::table::{forward_entries, inverse_entries, Row};
use vstd::prelude::*;

verus! {

/// No key of `m` occurs anywhere in `text`.
pub open spec fn no_key_occurs(m: Mapping, text: Seq<char>) -> bool {
    forall|i: int, j: int|
        0 <= i < j <= text.len() ==> !m.dom().contains(#[trigger] text.subrange(i, j))
}

/// No scalar value of `text` occurs in any key of `m`.
pub open spec fn no_char_in_keys(m: Mapping, text: Seq<char>) -> bool {
    forall|key: Seq<char>, i: int, j: int|
        m.dom().contains(key) && 0 <= i < key.len() && 0 <= j < text.len() ==> #[trigger] key[i]
            != #[trigger] text[j]
}

/// A text in which no key occurs is converted to itself.
pub proof fn lemma_convert_without_keys(m: Mapping, text: Seq<char>)
    requires
        no_key_occurs(m, text),
    ensures
        convert_seq(m, text) == text,
    decreases text.len(),
{
    if text.len() > 0 {
        assert forall|k: int| 0 < k <= text.len() implies !m.dom().contains(
            #[trigger] text.take(k),
        ) by {
            assert(text.take(k) =~= text.subrange(0, k));
        }
        lemma_longest_match_is(m, text, 0);
        let rest = text.skip(1);
        assert forall|i: int, j: int| 0 <= i < j <= rest.len() implies !m.dom().contains(
            #[trigger] rest.subrange(i, j),
        ) by {
            assert(rest.subrange(i, j) =~= text.subrange(i + 1, j + 1));
        }
        lemma_convert_without_keys(m, rest);
        assert(seq![text[0]] + rest =~= text);
    } else {
        assert(convert_seq(m, text) =~= text);
    }
}

/// A text none of whose scalar values occurs in a key is converted to
/// itself.
pub proof fn lemma_convert_foreign_text(m: Mapping, text: Seq<char>)
    requires
        no_char_in_keys(m, text),
    ensures
        convert_seq(m, text) == text,
{
    assert forall|i: int, j: int| 0 <= i < j <= text.len() implies !m.dom().contains(
        #[trigger] text.subrange(i, j),
    ) by {
        let key = text.subrange(i, j);
        if m.dom().contains(key) {
            assert(key[0] == text[i]);
        }
    }
    lemma_convert_without_keys(m, text);
}

/// A text in which no key of any stage occurs passes through the whole
/// pipeline unchanged.
pub proof fn lemma_pipeline_without_keys(stages: Seq<Mapping>, text: Seq<char>)
    requires
        forall|i: int| 0 <= i < stages.len() ==> no_key_occurs(#[trigger] stages[i], text),
    ensures
        pipeline(stages, text) == text,
    decreases stages.len(),
{
    if stages.len() > 0 {
        lemma_pipeline_without_keys(stages.drop_last(), text);
        lemma_convert_without_keys(stages.last(), text);
    }
}

/// A text none of whose scalar values occurs in a key of any stage passes
/// through the whole pipeline unchanged.
pub proof fn lemma_pipeline_foreign_text(stages: Seq<Mapping>, text: Seq<char>)
    requires
        forall|i: int| 0 <= i < stages.len() ==> no_char_in_keys(#[trigger] stages[i], text),
    ensures
        pipeline(stages, text) == text,
    decreases stages.len(),
{
    if stages.len() > 0 {
        lemma_pipeline_foreign_text(stages.drop_last(), text);
        lemma_convert_foreign_text(stages.last(), text);
    }
}

/// Every pipeline keeps the empty text.
pub proof fn lemma_pipeline_empty(stages: Seq<Mapping>)
    ensures
        pipeline(stages, Seq::empty()) == Seq::<char>::empty(),
    decreases stages.len(),
{
    if stages.len() > 0 {
        lemma_pipeline_empty(stages.drop_last());
    }
}

/// Every named conversion, over any tables, keeps the empty text.
pub proof fn lemma_conversion_of_empty(c: Converters, tables: Tables)
    ensures
        c.converted(tables, Seq::empty()) == Seq::<char>::empty(),
{
    lemma_pipeline_empty(c.mappings(tables));
}

/// A text none of whose scalar values occurs in a key of any stage of a
/// named conversion is converted to itself.
pub proof fn lemma_conversion_of_foreign_text(c: Converters, tables: Tables, text: Seq<char>)
    requires
        forall|i: int|
            0 <= i < c.mappings(tables).len() ==> no_char_in_keys(
                #[trigger] c.mappings(tables)[i],
                text,
            ),
    ensures
        c.converted(tables, text) == text,
{
    lemma_pipeline_foreign_text(c.mappings(tables), text);
}

/// Longest match first. Where `text` starts with a key `long` and with no
/// longer key, the conversion starts with the replacement of `long`,
/// whatever shorter keys start `text` too, and goes on with the conversion
/// of what follows `long`.
pub proof fn lemma_longest_key_first(m: Mapping, text: Seq<char>, long: Seq<char>)
    requires
        long.len() > 0,
        m.dom().contains(long),
        long.is_prefix_of(text),
        forall|k: int| long.len() < k <= text.len() ==> !m.dom().contains(#[trigger] text.take(k)),
    ensures
        convert_seq(m, text) == m[long] + convert_seq(m, text.skip(long.len() as int)),
{
    assert(text.take(long.len() as int) =~= long);
    lemma_longest_match_is(m, text, long.len());
}

/// No backtracking. After the longest key `head` at the start of a text was
/// replaced, the scan resumes right behind it: what follows is converted as
/// a text of its own, whatever keys straddle the boundary.
pub proof fn lemma_resumes_after_match(m: Mapping, head: Seq<char>, tail: Seq<char>)
    requires
        head.len() > 0,
        m.dom().contains(head),
        forall|k: int|
            head.len() < k <= head.len() + tail.len() ==> !m.dom().contains(
                #[trigger] (head + tail).take(k),
            ),
    ensures
        convert_seq(m, head + tail) == m[head] + convert_seq(m, tail),
{
    let text = head + tail;
    assert(text.skip(head.len() as int) =~= tail);
    lemma_longest_key_first(m, text, head);
}

/// Where no key starts a text, its first scalar value is copied and the
/// rest is converted as a text of its own.
pub proof fn lemma_copies_unmatched(m: Mapping, text: Seq<char>)
    requires
        text.len() > 0,
        forall|k: int| 0 < k <= text.len() ==> !m.dom().contains(#[trigger] text.take(k)),
    ensures
        convert_seq(m, text) == seq![text[0]] + convert_seq(m, text.skip(1)),
{
    lemma_longest_match_is(m, text, 0);
}

/// A pipeline of two lists of stages is the second list's pipeline applied
/// to the result of the first's.
pub proof fn lemma_pipeline_concat(first: Seq<Mapping>, second: Seq<Mapping>, text: Seq<char>)
    ensures
        pipeline(first + second, text) == pipeline(second, pipeline(first, text)),
    decreases second.len(),
{
    if second.len() == 0 {
        assert(first + second =~= first);
    } else {
        lemma_pipeline_concat(first, second.drop_last(), text);
        assert((first + second).drop_last() =~= first + second.drop_last());
        assert((first + second).last() == second.last());
    }
}

/// A pipeline of one stage is that stage's conversion.
pub proof fn lemma_pipeline_one(m: Mapping, text: Seq<char>)
    ensures
        pipeline(seq![m], text) == convert_seq(m, text),
{
    assert(seq![m].drop_last() =~= Seq::<Mapping>::empty());
    assert(pipeline(seq![m].drop_last(), text) == text);
}

/// Composition. A pipeline of two stages converts with the second stage what
/// the first stage made of the text.
pub proof fn lemma_pipeline_two(first: Mapping, second: Mapping, text: Seq<char>)
    ensures
        pipeline(seq![first, second], text) == convert_seq(second, convert_seq(first, text)),
{
    assert(seq![first, second] =~= seq![first] + seq![second]);
    lemma_pipeline_concat(seq![first], seq![second], text);
    lemma_pipeline_one(first, text);
    lemma_pipeline_one(second, convert_seq(first, text));
}

/// A text of one scalar value that is a key is converted to that key's
/// replacement.
proof fn lemma_convert_single(m: Mapping, c: char)
    requires
        m.dom().contains(seq![c]),
    ensures
        convert_seq(m, seq![c]) == m[seq![c]],
{
    let text = seq![c];
    assert(text.take(1) =~= text);
    lemma_longest_match_is(m, text, 1);
    assert(text.skip(1) =~= Seq::<char>::empty());
    assert(convert_seq(m, text.skip(1)) =~= Seq::<char>::empty());
    assert(m[text] + Seq::<char>::empty() =~= m[text]);
}

/// Conversion is not idempotent in general: there are a mapping and a text
/// whose conversion, converted once more, changes again.
pub proof fn lemma_not_idempotent()
    ensures
        exists|m: Mapping, text: Seq<char>|
            convert_seq(m, convert_seq(m, text)) != convert_seq(m, text),
{
    let m: Mapping = Map::empty().insert(seq!['a'], seq!['b']).insert(seq!['b'], seq!['c']);
    let text = seq!['a'];
    assert(seq!['a'] != seq!['b']) by {
        assert(seq!['a'][0] != seq!['b'][0]);
    }
    assert(seq!['b'] != seq!['c']) by {
        assert(seq!['b'][0] != seq!['c'][0]);
    }
    lemma_convert_single(m, 'a');
    lemma_convert_single(m, 'b');
    assert(convert_seq(m, text) == seq!['b']);
    assert(convert_seq(m, convert_seq(m, text)) == seq!['c']);
}

/// A round trip does not give the text back in general: there are a table
/// and a text such that converting the text with the table's forward
/// reading and the result with its inverse reading gives another text. It
/// is enough that two keys share a replacement.
pub proof fn lemma_no_round_trip()
    ensures
        exists|rows: Seq<Row>, text: Seq<char>|
            convert_seq(
                mapping_of(inverse_entries(rows)),
                convert_seq(mapping_of(forward_entries(rows)), text),
            ) != text,
{
    let a = seq!['a'];
    let b = seq!['b'];
    let x = seq!['x'];
    let rows: Seq<Row> = seq![seq![a, x], seq![b, x]];
    assert(a != b) by {
        assert(a[0] != b[0]);
    }
    let forward = forward_entries(rows);
    let inverse = inverse_entries(rows);
    assert(rows.drop_last() =~= seq![seq![a, x]]);
    assert(rows.drop_last().drop_last() =~= Seq::<Row>::empty());
    assert(forward =~= seq![(a, x), (b, x)]) by {
        reveal_with_fuel(forward_entries, 3);
    }
    assert(inverse =~= seq![(x, a), (x, b)]) by {
        reveal_with_fuel(inverse_entries, 3);
    }
    let there = mapping_of(forward);
    let back = mapping_of(inverse);
    assert(there.dom().contains(a) && there[a] == x) by {
        reveal_with_fuel(crate::model::insert_all, 3);
        assert(forward.drop_last() =~= seq![(a, x)]);
    }
    assert(back.dom().contains(x) && back[x] == b) by {
        reveal_with_fuel(crate::model::insert_all, 3);
    }
    lemma_convert_single(there, 'a');
    lemma_convert_single(back, 'x');
    assert(convert_seq(back, convert_seq(there, a)) == b);
}

} // verus!
