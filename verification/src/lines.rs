//! Converting a text line by line. Keys that are read from mapping tables
//! hold no whitespace, so no key reaches across a line feed, and the lines
//! of a text can be converted apart from each other, in any order or at the
//! same time, and joined again.

use crate::conv::{merged, Converters, Stage};
use crate::dict::{Dictionary, RawDictionary, Tables};
use crate::laws::lemma_pipeline_empty;
use crate::model::{
    convert_seq, has_entry, lemma_longest_match_is, lemma_longest_match_len, longest_match_len,
    mapping_of, pipeline, Entries, Mapping,
};
use crate::table::{
    clean, clean_keys, is_blank, lemma_forward_clean, lemma_inverse_clean, lemma_line_len,
    lemma_rows_clean, line_len, rows,
};
use vstd::prelude::*;

verus! {

/// The length of the first line of `s`, its line feed included.
pub open spec fn chunk_len(s: Seq<char>) -> nat {
    if line_len(s) < s.len() {
        line_len(s) + 1
    } else {
        line_len(s)
    }
}

/// The text that results from converting each line of `text`, with its line
/// feed, as a text of its own, and joining the results in order.
pub open spec fn convert_by_line(stages: Seq<Mapping>, text: Seq<char>) -> Seq<char>
    decreases text.len(),
{
    if text.len() == 0 {
        Seq::empty()
    } else {
        proof {
            lemma_line_len(text);
        }
        pipeline(stages, text.take(chunk_len(text) as int)) + convert_by_line(
            stages,
            text.skip(chunk_len(text) as int),
        )
    }
}

/// No key of `m` holds a line feed.
pub open spec fn keys_within_lines(m: Mapping) -> bool {
    forall|key: Seq<char>, i: int|
        m.dom().contains(key) && 0 <= i < key.len() ==> #[trigger] key[i] != '\n'
}

/// Joining lists of entries with clean keys gives clean keys.
pub proof fn lemma_clean_concat(a: Entries, b: Entries)
    requires
        clean_keys(a),
        clean_keys(b),
    ensures
        clean_keys(a + b),
{
    let all = a + b;
    assert forall|j: int| 0 <= j < all.len() implies clean((#[trigger] all[j]).0) by {
        if j < a.len() {
            assert(all[j] == a[j]);
        } else {
            assert(all[j] == b[j - a.len()]);
        }
    }
}

/// Both readings of every raw table have clean keys.
pub proof fn lemma_raw_clean(d: RawDictionary, tables: Tables)
    ensures
        clean_keys(d.forward(tables)),
        clean_keys(d.inverse(tables)),
{
    let text = tables.text_of(d);
    lemma_rows_clean(text);
    lemma_forward_clean(rows(text));
    lemma_inverse_clean(rows(text));
}

/// The entries of every dictionary have clean keys.
pub proof fn lemma_dictionary_clean(d: Dictionary, tables: Tables)
    ensures
        clean_keys(d.entries(tables)),
{
    lemma_raw_clean(RawDictionary::STCharacters, tables);
    lemma_raw_clean(RawDictionary::STPhrases, tables);
    lemma_raw_clean(RawDictionary::TSCharacters, tables);
    lemma_raw_clean(RawDictionary::TSPhrases, tables);
    lemma_raw_clean(RawDictionary::TWPhrasesIT, tables);
    lemma_raw_clean(RawDictionary::TWPhrasesName, tables);
    lemma_raw_clean(RawDictionary::TWPhrasesOther, tables);
    lemma_raw_clean(RawDictionary::TWVariants, tables);
    lemma_raw_clean(RawDictionary::TWVariantsRevPhrases, tables);
    lemma_raw_clean(RawDictionary::HKVariants, tables);
    lemma_raw_clean(RawDictionary::HKVariantsRevPhrases, tables);
    lemma_raw_clean(RawDictionary::JPShinjitaiCharacters, tables);
    lemma_raw_clean(RawDictionary::JPShinjitaiPhrases, tables);
    lemma_raw_clean(RawDictionary::JPVariants, tables);
    match d {
        Dictionary::TWPhrases => {
            let a = RawDictionary::TWPhrasesIT.forward(tables);
            let b = RawDictionary::TWPhrasesName.forward(tables);
            let c = RawDictionary::TWPhrasesOther.forward(tables);
            lemma_clean_concat(a, b);
            lemma_clean_concat(a + b, c);
        },
        Dictionary::TWPhrasesRev => {
            let a = RawDictionary::TWPhrasesIT.inverse(tables);
            let b = RawDictionary::TWPhrasesName.inverse(tables);
            let c = RawDictionary::TWPhrasesOther.inverse(tables);
            lemma_clean_concat(a, b);
            lemma_clean_concat(a + b, c);
        },
        _ => {},
    }
}

/// The merged entries of dictionaries have clean keys.
pub proof fn lemma_merged_clean(dictionaries: Seq<Dictionary>, tables: Tables)
    ensures
        clean_keys(merged(dictionaries, tables)),
    decreases dictionaries.len(),
{
    if dictionaries.len() > 0 {
        lemma_merged_clean(dictionaries.drop_last(), tables);
        lemma_dictionary_clean(dictionaries.last(), tables);
        lemma_clean_concat(
            merged(dictionaries.drop_last(), tables),
            dictionaries.last().entries(tables),
        );
    }
}

/// Every key of a mapping made from entries is the key of one of them.
pub proof fn lemma_mapping_keys(entries: Entries, key: Seq<char>)
    requires
        mapping_of(entries).dom().contains(key),
    ensures
        has_entry(entries, key),
    decreases entries.len(),
{
    if entries.len() > 0 {
        if entries.last().0 == key {
            assert(entries[entries.len() - 1].0 == key);
        } else {
            let init = entries.drop_last();
            lemma_mapping_keys(init, key);
            let j = choose|j: int| 0 <= j < init.len() && (#[trigger] init[j]).0 == key;
            assert(entries[j].0 == key);
        }
    }
}

/// The keys of every stage, over any tables, are not empty and hold no
/// whitespace; in particular they hold no line feed.
pub proof fn lemma_stage_keys(stage: Stage, tables: Tables)
    ensures
        forall|key: Seq<char>| #[trigger] stage.mapping(tables).dom().contains(key) ==> clean(key),
        keys_within_lines(stage.mapping(tables)),
{
    let entries = merged(stage.dictionaries(), tables);
    lemma_merged_clean(stage.dictionaries(), tables);
    assert forall|key: Seq<char>| #[trigger]
        stage.mapping(tables).dom().contains(key) implies clean(key) by {
        lemma_mapping_keys(entries, key);
        let j = choose|j: int| 0 <= j < entries.len() && (#[trigger] entries[j]).0 == key;
        assert(clean(entries[j].0));
    }
    assert forall|key: Seq<char>, i: int|
        stage.mapping(tables).dom().contains(key) && 0 <= i < key.len() implies #[trigger] key[i]
        != '\n' by {
        assert(clean(key));
        assert(!is_blank(key[i]));
    }
}

/// Where no key holds a line feed, the longest match at the start of a text
/// that ends a line does not look beyond that line.
proof fn lemma_match_within_line(m: Mapping, head: Seq<char>, tail: Seq<char>)
    requires
        keys_within_lines(m),
        head.len() > 0,
        head.last() == '\n',
    ensures
        longest_match_len(m, head + tail) == longest_match_len(m, head),
        longest_match_len(m, head) < head.len(),
{
    let text = head + tail;
    let n = longest_match_len(m, head);
    lemma_longest_match_len(m, head);
    assert(n < head.len()) by {
        if n == head.len() {
            assert(head.take(n as int) =~= head);
            assert(head[head.len() - 1] == '\n');
        }
    }
    assert(text.take(n as int) =~= head.take(n as int));
    assert forall|k: int| n < k <= text.len() implies !m.dom().contains(
        #[trigger] text.take(k),
    ) by {
        if k < head.len() {
            assert(text.take(k) =~= head.take(k));
        } else {
            assert(text.take(k)[head.len() - 1] == '\n');
        }
    }
    lemma_longest_match_is(m, text, n);
}

/// Where no key holds a line feed, a text that ends a line is converted on
/// its own, whatever follows it.
pub proof fn lemma_convert_after_line(m: Mapping, head: Seq<char>, tail: Seq<char>)
    requires
        keys_within_lines(m),
        head.len() > 0 ==> head.last() == '\n',
    ensures
        convert_seq(m, head + tail) == convert_seq(m, head) + convert_seq(m, tail),
    decreases head.len(),
{
    let text = head + tail;
    if head.len() == 0 {
        assert(text =~= tail);
        assert(convert_seq(m, head) + convert_seq(m, tail) =~= convert_seq(m, tail));
    } else {
        lemma_match_within_line(m, head, tail);
        let n = longest_match_len(m, head) as int;
        let step = if n > 0 {
            n
        } else {
            1
        };
        let rest = head.skip(step);
        assert(text.skip(step) =~= rest + tail);
        assert(text.take(n) =~= head.take(n));
        if rest.len() > 0 {
            assert(rest.last() == head.last());
        }
        lemma_convert_after_line(m, rest, tail);
        if n > 0 {
            assert(m[head.take(n)] + (convert_seq(m, rest) + convert_seq(m, tail)) =~= (m[head.take(
                n,
            )] + convert_seq(m, rest)) + convert_seq(m, tail));
        } else {
            assert(seq![head[0]] + (convert_seq(m, rest) + convert_seq(m, tail)) =~= (seq![head[0]]
                + convert_seq(m, rest)) + convert_seq(m, tail));
        }
    }
}

/// Where no key holds a line feed, the conversion of a text that ends with
/// a line feed ends with a line feed.
pub proof fn lemma_convert_keeps_line_end(m: Mapping, text: Seq<char>)
    requires
        keys_within_lines(m),
        text.len() > 0,
        text.last() == '\n',
    ensures
        convert_seq(m, text).len() > 0,
        convert_seq(m, text).last() == '\n',
    decreases text.len(),
{
    lemma_match_within_line(m, text, Seq::empty());
    let n = longest_match_len(m, text) as int;
    let step = if n > 0 {
        n
    } else {
        1
    };
    let rest = text.skip(step);
    if rest.len() > 0 {
        assert(rest.last() == text.last());
        lemma_convert_keeps_line_end(m, rest);
    } else {
        assert(n == 0);
        assert(convert_seq(m, rest) =~= Seq::<char>::empty());
        assert(text[0] == '\n');
    }
}

/// Where no key of any stage holds a line feed, the pipeline's result for a
/// text that ends with a line feed ends with a line feed.
pub proof fn lemma_pipeline_keeps_line_end(stages: Seq<Mapping>, text: Seq<char>)
    requires
        forall|i: int| 0 <= i < stages.len() ==> keys_within_lines(#[trigger] stages[i]),
        text.len() > 0,
        text.last() == '\n',
    ensures
        pipeline(stages, text).len() > 0,
        pipeline(stages, text).last() == '\n',
    decreases stages.len(),
{
    if stages.len() > 0 {
        lemma_pipeline_keeps_line_end(stages.drop_last(), text);
        lemma_convert_keeps_line_end(stages.last(), pipeline(stages.drop_last(), text));
    }
}

/// Where no key of any stage holds a line feed, a text that ends a line
/// passes through the pipeline on its own, whatever follows it.
pub proof fn lemma_pipeline_after_line(stages: Seq<Mapping>, head: Seq<char>, tail: Seq<char>)
    requires
        forall|i: int| 0 <= i < stages.len() ==> keys_within_lines(#[trigger] stages[i]),
        head.len() > 0 ==> head.last() == '\n',
    ensures
        pipeline(stages, head + tail) == pipeline(stages, head) + pipeline(stages, tail),
    decreases stages.len(),
{
    if stages.len() > 0 {
        let init = stages.drop_last();
        lemma_pipeline_after_line(init, head, tail);
        if head.len() > 0 {
            lemma_pipeline_keeps_line_end(init, head);
            lemma_convert_after_line(stages.last(), pipeline(init, head), pipeline(init, tail));
        } else {
            assert(head + tail =~= tail);
            lemma_pipeline_empty(stages);
            assert(pipeline(stages, head) + pipeline(stages, tail) =~= pipeline(stages, tail));
        }
    }
}

/// Where no key of any stage holds a line feed, converting a text line by
/// line gives what converting it as a whole gives.
pub proof fn lemma_by_line(stages: Seq<Mapping>, text: Seq<char>)
    requires
        forall|i: int| 0 <= i < stages.len() ==> keys_within_lines(#[trigger] stages[i]),
    ensures
        convert_by_line(stages, text) == pipeline(stages, text),
    decreases text.len(),
{
    if text.len() == 0 {
        lemma_pipeline_empty(stages);
        assert(text =~= Seq::<char>::empty());
    } else {
        lemma_line_len(text);
        let n = chunk_len(text) as int;
        let head = text.take(n);
        let tail = text.skip(n);
        assert(head + tail =~= text);
        lemma_by_line(stages, tail);
        if line_len(text) < text.len() {
            assert(head.last() == text[line_len(text) as int]);
        } else {
            assert(tail =~= Seq::<char>::empty());
            assert(head =~= text);
            lemma_pipeline_empty(stages);
            assert(pipeline(stages, head) + pipeline(stages, tail) =~= pipeline(stages, text));
        }
        if line_len(text) < text.len() {
            lemma_pipeline_after_line(stages, head, tail);
        }
    }
}

/// For every named conversion over any tables, converting a text line by
/// line gives what converting it as a whole gives.
pub proof fn lemma_conversion_by_line(c: Converters, tables: Tables, text: Seq<char>)
    ensures
        convert_by_line(c.mappings(tables), text) == c.converted(tables, text),
{
    let stages = c.mappings(tables);
    assert forall|i: int| 0 <= i < stages.len() implies keys_within_lines(#[trigger] stages[i]) by {
        lemma_stage_keys(c.stages()[i], tables);
    }
    lemma_by_line(stages, text);
}

} // verus!
