//! The plain-text format of mapping tables: one row per line, the columns of
//! a row separated by ASCII whitespace, the first column being the key and
//! the following ones its replacements in order of preference.

use crate::model::Entries;
use crate::text::{chars_of, string_of_range};
use vstd::prelude::*;

verus! {

/// The columns of one row.
pub type Row = Seq<Seq<char>>;

/// ASCII whitespace: space, tab, line feed, form feed, carriage return.
pub open spec fn is_blank(c: char) -> bool {
    c == ' ' || c == '\t' || c == '\n' || c == '\u{c}' || c == '\r'
}

/// The number of scalar values before the first line feed of `s`, or all of
/// them when `s` has none.
pub open spec fn line_len(s: Seq<char>) -> nat
    decreases s.len(),
{
    if s.len() == 0 || s[0] == '\n' {
        0
    } else {
        1 + line_len(s.skip(1))
    }
}

/// The lines of `s`: the runs between line feeds. A line feed at the very
/// end does not open one more line.
pub open spec fn lines(s: Seq<char>) -> Seq<Seq<char>>
    decreases s.len(),
{
    let n = line_len(s);
    if s.len() == 0 {
        Seq::empty()
    } else if n < s.len() {
        seq![s.take(n as int)] + lines(s.skip(n as int + 1))
    } else {
        seq![s]
    }
}

/// The number of scalar values before the first whitespace of `s`, or all of
/// them when `s` has none.
pub open spec fn word_len(s: Seq<char>) -> nat
    decreases s.len(),
{
    if s.len() == 0 || is_blank(s[0]) {
        0
    } else {
        1 + word_len(s.skip(1))
    }
}

/// The columns of a line: its maximal runs without whitespace, in order.
pub open spec fn fields(s: Seq<char>) -> Row
    decreases s.len(),
{
    let n = word_len(s);
    if s.len() == 0 {
        Seq::empty()
    } else if is_blank(s[0]) {
        fields(s.skip(1))
    } else {
        proof {
            lemma_word_len(s);
        }
        seq![s.take(n as int)] + fields(s.skip(n as int))
    }
}

/// The rows of a table: the columns of each of its lines.
pub open spec fn rows(text: Seq<char>) -> Seq<Row> {
    lines(text).map_values(|line: Seq<char>| fields(line))
}

/// The forward reading of a table: each row with a key and at least one
/// replacement gives the key with its first replacement. Other rows give
/// nothing.
pub open spec fn forward_entries(rows: Seq<Row>) -> Entries
    decreases rows.len(),
{
    if rows.len() == 0 {
        Seq::empty()
    } else if rows.last().len() >= 2 {
        forward_entries(rows.drop_last()).push((rows.last()[0], rows.last()[1]))
    } else {
        forward_entries(rows.drop_last())
    }
}

/// One row read backwards: each replacement, in order, leads back to the key.
pub open spec fn inverse_of_row(row: Row) -> Entries {
    Seq::new((row.len() - 1) as nat, |j: int| (row[j + 1], row[0]))
}

/// The inverse reading of a table: each row with a key and at least one
/// replacement gives one entry per replacement, from it to the key.
pub open spec fn inverse_entries(rows: Seq<Row>) -> Entries
    decreases rows.len(),
{
    if rows.len() == 0 {
        Seq::empty()
    } else if rows.last().len() >= 2 {
        inverse_entries(rows.drop_last()) + inverse_of_row(rows.last())
    } else {
        inverse_entries(rows.drop_last())
    }
}

/// The variant reading of a table: each row with a key and at least one
/// replacement gives the key with all its replacements, in order.
pub open spec fn variant_entries(rows: Seq<Row>) -> Seq<(Seq<char>, Row)>
    decreases rows.len(),
{
    if rows.len() == 0 {
        Seq::empty()
    } else if rows.last().len() >= 2 {
        variant_entries(rows.drop_last()).push((rows.last()[0], rows.last().skip(1)))
    } else {
        variant_entries(rows.drop_last())
    }
}

/// `line_len` ends at the first line feed, or at the end.
pub proof fn lemma_line_len(s: Seq<char>)
    ensures
        line_len(s) <= s.len(),
        forall|i: int| 0 <= i < line_len(s) ==> s[i] != '\n',
        line_len(s) < s.len() ==> s[line_len(s) as int] == '\n',
    decreases s.len(),
{
    if s.len() > 0 && s[0] != '\n' {
        lemma_line_len(s.skip(1));
        assert forall|i: int| 0 <= i < line_len(s) implies s[i] != '\n' by {
            if i > 0 {
                assert(s[i] == s.skip(1)[i - 1]);
            }
        }
    }
}

/// A position that no line feed precedes, and that is a line feed or the
/// end, is where the first line ends.
pub proof fn lemma_line_len_is(s: Seq<char>, n: int)
    requires
        0 <= n <= s.len(),
        forall|i: int| 0 <= i < n ==> s[i] != '\n',
        n < s.len() ==> s[n] == '\n',
    ensures
        line_len(s) == n,
    decreases s.len(),
{
    if n > 0 {
        lemma_line_len_is(s.skip(1), n - 1);
    }
}

/// `word_len` ends at the first whitespace, or at the end.
pub proof fn lemma_word_len(s: Seq<char>)
    ensures
        word_len(s) <= s.len(),
        forall|i: int| 0 <= i < word_len(s) ==> !is_blank(s[i]),
        word_len(s) < s.len() ==> is_blank(s[word_len(s) as int]),
        s.len() > 0 && !is_blank(s[0]) ==> word_len(s) >= 1,
    decreases s.len(),
{
    if s.len() > 0 && !is_blank(s[0]) {
        lemma_word_len(s.skip(1));
        assert forall|i: int| 0 <= i < word_len(s) implies !is_blank(s[i]) by {
            if i > 0 {
                assert(s[i] == s.skip(1)[i - 1]);
            }
        }
    }
}

/// A position that no whitespace precedes, and that is whitespace or the
/// end, is where the first word ends.
pub proof fn lemma_word_len_is(s: Seq<char>, n: int)
    requires
        0 <= n <= s.len(),
        forall|i: int| 0 <= i < n ==> !is_blank(s[i]),
        n < s.len() ==> is_blank(s[n]),
    ensures
        word_len(s) == n,
    decreases s.len(),
{
    if n > 0 {
        lemma_word_len_is(s.skip(1), n - 1);
    }
}

/// The word is not empty and holds no whitespace.
pub open spec fn clean(word: Seq<char>) -> bool {
    word.len() > 0 && forall|i: int| 0 <= i < word.len() ==> !is_blank(#[trigger] word[i])
}

/// Every column of the row is clean.
pub open spec fn clean_row(row: Row) -> bool {
    forall|j: int| 0 <= j < row.len() ==> clean(#[trigger] row[j])
}

/// Every key of the entries is clean.
pub open spec fn clean_keys(entries: Entries) -> bool {
    forall|j: int| 0 <= j < entries.len() ==> clean((#[trigger] entries[j]).0)
}

/// The columns of a line are not empty and hold no whitespace.
pub proof fn lemma_fields_clean(line: Seq<char>)
    ensures
        clean_row(fields(line)),
    decreases line.len(),
{
    if line.len() == 0 {
    } else if is_blank(line[0]) {
        lemma_fields_clean(line.skip(1));
    } else {
        let n = word_len(line) as int;
        lemma_word_len(line);
        lemma_fields_clean(line.skip(n));
        let rest = fields(line.skip(n));
        let all = seq![line.take(n)] + rest;
        assert(clean(line.take(n)));
        assert forall|j: int| 0 <= j < all.len() implies clean(#[trigger] all[j]) by {
            if j > 0 {
                assert(all[j] == rest[j - 1]);
            }
        }
    }
}

/// Every row of a table is clean.
pub proof fn lemma_rows_clean(text: Seq<char>)
    ensures
        forall|r: int| 0 <= r < rows(text).len() ==> clean_row(#[trigger] rows(text)[r]),
{
    assert forall|r: int| 0 <= r < rows(text).len() implies clean_row(#[trigger] rows(text)[r]) by {
        lemma_fields_clean(lines(text)[r]);
    }
}

/// The forward reading of clean rows has clean keys.
pub proof fn lemma_forward_clean(table: Seq<Row>)
    requires
        forall|r: int| 0 <= r < table.len() ==> clean_row(#[trigger] table[r]),
    ensures
        clean_keys(forward_entries(table)),
    decreases table.len(),
{
    if table.len() > 0 {
        let init = table.drop_last();
        assert forall|r: int| 0 <= r < init.len() implies clean_row(#[trigger] init[r]) by {
            assert(init[r] == table[r]);
        }
        lemma_forward_clean(init);
        let row = table.last();
        assert(clean_row(table[table.len() - 1]));
        if row.len() >= 2 {
            let before = forward_entries(init);
            let all = before.push((row[0], row[1]));
            assert(clean(row[0]));
            assert forall|j: int| 0 <= j < all.len() implies clean((#[trigger] all[j]).0) by {
                if j < before.len() {
                    assert(all[j] == before[j]);
                }
            }
        }
    }
}

/// The inverse reading of clean rows has clean keys.
pub proof fn lemma_inverse_clean(table: Seq<Row>)
    requires
        forall|r: int| 0 <= r < table.len() ==> clean_row(#[trigger] table[r]),
    ensures
        clean_keys(inverse_entries(table)),
    decreases table.len(),
{
    if table.len() > 0 {
        let init = table.drop_last();
        assert forall|r: int| 0 <= r < init.len() implies clean_row(#[trigger] init[r]) by {
            assert(init[r] == table[r]);
        }
        lemma_inverse_clean(init);
        let row = table.last();
        assert(clean_row(table[table.len() - 1]));
        if row.len() >= 2 {
            let before = inverse_entries(init);
            let all = before + inverse_of_row(row);
            assert forall|j: int| 0 <= j < all.len() implies clean((#[trigger] all[j]).0) by {
                if j < before.len() {
                    assert(all[j] == before[j]);
                } else {
                    assert(all[j] == inverse_of_row(row)[j - before.len()]);
                    assert(clean(row[j - before.len() + 1]));
                }
            }
        }
    }
}

/// Whether `c` is ASCII whitespace.
pub fn blank(c: char) -> (b: bool)
    ensures
        b == is_blank(c),
{
    c == ' ' || c == '\t' || c == '\n' || c == '\u{c}' || c == '\r'
}

/// The position where the line that starts at `from` ends.
fn line_end(chars: &Vec<char>, from: usize) -> (end: usize)
    requires
        from <= chars@.len(),
    ensures
        from <= end <= chars@.len(),
        end - from == line_len(chars@.skip(from as int)),
{
    let mut j: usize = from;
    while j < chars.len() && chars[j] != '\n'
        invariant
            from <= j <= chars@.len(),
            forall|k: int| from <= k < j ==> chars@[k] != '\n',
        decreases chars@.len() - j,
    {
        j += 1;
    }
    proof {
        lemma_line_len_is(chars@.skip(from as int), j - from);
    }
    j
}

/// The position where the word that starts at `from` ends, within
/// `chars[from..to]`.
fn word_end(chars: &Vec<char>, from: usize, to: usize) -> (end: usize)
    requires
        from <= to <= chars@.len(),
    ensures
        from <= end <= to,
        end - from == word_len(chars@.subrange(from as int, to as int)),
{
    let mut j: usize = from;
    while j < to && !blank(chars[j])
        invariant
            from <= j <= to <= chars@.len(),
            forall|k: int| from <= k < j ==> !is_blank(chars@[k]),
        decreases to - j,
    {
        j += 1;
    }
    proof {
        lemma_word_len_is(chars@.subrange(from as int, to as int), j - from);
    }
    j
}

/// The columns of the line `chars[from..to]`.
fn split_fields(chars: &Vec<char>, from: usize, to: usize) -> (row: Vec<String>)
    requires
        from <= to <= chars@.len(),
    ensures
        row.deep_view() == fields(chars@.subrange(from as int, to as int)),
{
    let mut row: Vec<String> = Vec::new();
    let mut pos: usize = from;
    assert(row.deep_view() + fields(chars@.subrange(from as int, to as int)) =~= fields(
        chars@.subrange(from as int, to as int),
    ));
    while pos < to
        invariant
            from <= pos <= to <= chars@.len(),
            fields(chars@.subrange(from as int, to as int)) == row.deep_view() + fields(
                chars@.subrange(pos as int, to as int),
            ),
        decreases to - pos,
    {
        let ghost rest = chars@.subrange(pos as int, to as int);
        let ghost done = row.deep_view();
        if blank(chars[pos]) {
            pos += 1;
            assert(rest.skip(1) =~= chars@.subrange(pos as int, to as int));
        } else {
            let end = word_end(chars, pos, to);
            let word = string_of_range(chars, pos, end);
            proof {
                lemma_word_len(rest);
                assert(rest.take(end - pos) =~= chars@.subrange(pos as int, end as int));
                assert(rest.skip(end - pos) =~= chars@.subrange(end as int, to as int));
            }
            row.push(word);
            proof {
                assert(row.deep_view() =~= done.push(word@));
                assert(done + (seq![word@] + fields(rest.skip(end - pos))) =~= done.push(word@)
                    + fields(rest.skip(end - pos)));
            }
            pos = end;
        }
    }
    assert(row.deep_view() + fields(chars@.subrange(pos as int, to as int)) =~= row.deep_view());
    row
}

/// Parses a table into its rows.
pub fn parse_rows(text: &str) -> (table: Vec<Vec<String>>)
    ensures
        table.deep_view() == rows(text@),
{
    let chars = chars_of(text);
    let mut table: Vec<Vec<String>> = Vec::new();
    let mut pos: usize = 0;
    assert(chars@.skip(0) =~= chars@);
    assert(table.deep_view() + rows(chars@) =~= rows(chars@));
    while pos < chars.len()
        invariant
            pos <= chars@.len(),
            rows(chars@) == table.deep_view() + rows(chars@.skip(pos as int)),
        decreases chars@.len() - pos,
    {
        let ghost rest = chars@.skip(pos as int);
        let ghost done = table.deep_view();
        let end = line_end(&chars, pos);
        let row = split_fields(&chars, pos, end);
        let ghost line = chars@.subrange(pos as int, end as int);
        let ghost n = end - pos;
        assert(rest.take(n) =~= line);
        table.push(row);
        assert(table.deep_view() =~= done.push(fields(line)));
        if end < chars.len() {
            pos = end + 1;
            proof {
                assert(rest.skip(n + 1) =~= chars@.skip(pos as int));
                assert(rows(rest) =~= seq![fields(line)] + rows(chars@.skip(pos as int)));
                assert(done + (seq![fields(line)] + rows(chars@.skip(pos as int))) =~= done.push(
                    fields(line),
                ) + rows(chars@.skip(pos as int)));
            }
        } else {
            pos = end;
            proof {
                assert(rest =~= line);
                assert(chars@.skip(pos as int) =~= Seq::<char>::empty());
                assert(rows(rest) =~= seq![fields(line)]);
                assert(rows(chars@.skip(pos as int)) =~= Seq::<Row>::empty());
                assert(done + seq![fields(line)] =~= done.push(fields(line)) + Seq::<Row>::empty());
            }
        }
    }
    assert(chars@.skip(pos as int) =~= Seq::<char>::empty());
    assert(table.deep_view() + rows(chars@.skip(pos as int)) =~= table.deep_view());
    table
}

/// The forward reading of parsed rows.
pub fn forward_of(table: &Vec<Vec<String>>) -> (out: Vec<(String, String)>)
    ensures
        out.deep_view() == forward_entries(table.deep_view()),
{
    let mut out: Vec<(String, String)> = Vec::new();
    let mut i: usize = 0;
    let ghost all = table.deep_view();
    assert(all.take(0) =~= Seq::<Row>::empty());
    while i < table.len()
        invariant
            i <= table@.len(),
            all == table.deep_view(),
            out.deep_view() == forward_entries(all.take(i as int)),
        decreases table@.len() - i,
    {
        let row = &table[i];
        let ghost done = out.deep_view();
        proof {
            assert(all.take(i as int + 1).drop_last() =~= all.take(i as int));
            assert(all.take(i as int + 1).last() == row.deep_view());
        }
        if row.len() >= 2 {
            let key = row[0].clone();
            let value = row[1].clone();
            out.push((key, value));
            assert(out.deep_view() =~= done.push((row.deep_view()[0], row.deep_view()[1])));
        }
        i += 1;
    }
    assert(all.take(i as int) =~= all);
    out
}

/// The inverse reading of parsed rows.
pub fn inverse_of(table: &Vec<Vec<String>>) -> (out: Vec<(String, String)>)
    ensures
        out.deep_view() == inverse_entries(table.deep_view()),
{
    let mut out: Vec<(String, String)> = Vec::new();
    let mut i: usize = 0;
    let ghost all = table.deep_view();
    assert(all.take(0) =~= Seq::<Row>::empty());
    while i < table.len()
        invariant
            i <= table@.len(),
            all == table.deep_view(),
            out.deep_view() == inverse_entries(all.take(i as int)),
        decreases table@.len() - i,
    {
        let row = &table[i];
        let ghost done = out.deep_view();
        proof {
            assert(all.take(i as int + 1).drop_last() =~= all.take(i as int));
            assert(all.take(i as int + 1).last() == row.deep_view());
        }
        if row.len() >= 2 {
            let mut j: usize = 1;
            assert(done + inverse_of_row(row.deep_view()).take(0) =~= done);
            while j < row.len()
                invariant
                    1 <= j <= row@.len(),
                    out.deep_view() == done + inverse_of_row(row.deep_view()).take(j - 1),
                decreases row@.len() - j,
            {
                let ghost before = out.deep_view();
                let key = row[j].clone();
                let value = row[0].clone();
                out.push((key, value));
                assert(out.deep_view() =~= before.push(
                    (row.deep_view()[j as int], row.deep_view()[0]),
                ));
                j += 1;
                assert(out.deep_view() =~= done + inverse_of_row(row.deep_view()).take(j - 1));
            }
            assert(inverse_of_row(row.deep_view()).take(j - 1) =~= inverse_of_row(row.deep_view()));
        }
        i += 1;
    }
    assert(all.take(i as int) =~= all);
    out
}

/// The variant reading of parsed rows.
pub fn variants_of(table: &Vec<Vec<String>>) -> (out: Vec<(String, Vec<String>)>)
    ensures
        out.deep_view() == variant_entries(table.deep_view()),
{
    let mut out: Vec<(String, Vec<String>)> = Vec::new();
    let mut i: usize = 0;
    let ghost all = table.deep_view();
    assert(all.take(0) =~= Seq::<Row>::empty());
    while i < table.len()
        invariant
            i <= table@.len(),
            all == table.deep_view(),
            out.deep_view() == variant_entries(all.take(i as int)),
        decreases table@.len() - i,
    {
        let row = &table[i];
        let ghost done = out.deep_view();
        proof {
            assert(all.take(i as int + 1).drop_last() =~= all.take(i as int));
            assert(all.take(i as int + 1).last() == row.deep_view());
        }
        if row.len() >= 2 {
            let key = row[0].clone();
            let mut values: Vec<String> = Vec::new();
            let mut j: usize = 1;
            while j < row.len()
                invariant
                    1 <= j <= row@.len(),
                    values.deep_view() == row.deep_view().subrange(1, j as int),
                decreases row@.len() - j,
            {
                let ghost before = values.deep_view();
                let value = row[j].clone();
                values.push(value);
                assert(values.deep_view() =~= before.push(row.deep_view()[j as int]));
                j += 1;
            }
            assert(row.deep_view().subrange(1, j as int) =~= row.deep_view().skip(1));
            out.push((key, values));
            assert(out.deep_view() =~= done.push((row.deep_view()[0], row.deep_view().skip(1))));
        }
        i += 1;
    }
    assert(all.take(i as int) =~= all);
    out
}

} // verus!
