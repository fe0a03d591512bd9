//! The mapping tables, and the dictionaries that are read from them: each
//! dictionary is the forward or the inverse reading of one or several tables,
//! one after the other.

use crate::model::Entries;
use crate::table::{
    forward_entries, forward_of, inverse_entries, inverse_of, parse_rows, rows, variant_entries,
    variants_of, Row,
};
use vstd::prelude::*;

verus! {

/// The raw mapping tables by name.
#[derive(Clone, Copy, Debug, PartialEq, Eq)]
pub enum RawDictionary {
    STCharacters,
    STPhrases,
    TSCharacters,
    TSPhrases,
    TWPhrasesIT,
    TWPhrasesName,
    TWPhrasesOther,
    TWVariants,
    TWVariantsRevPhrases,
    HKVariants,
    HKVariantsRevPhrases,
    JPShinjitaiCharacters,
    JPShinjitaiPhrases,
    JPVariants,
}

/// The text of every raw table.
#[derive(Debug, Default)]
pub struct Tables {
    pub st_characters: String,
    pub st_phrases: String,
    pub ts_characters: String,
    pub ts_phrases: String,
    pub tw_phrases_it: String,
    pub tw_phrases_name: String,
    pub tw_phrases_other: String,
    pub tw_variants: String,
    pub tw_variants_rev_phrases: String,
    pub hk_variants: String,
    pub hk_variants_rev_phrases: String,
    pub jp_shinjitai_characters: String,
    pub jp_shinjitai_phrases: String,
    pub jp_variants: String,
}

impl Tables {
    /// The text of the table named `d`.
    pub open spec fn text_of(self, d: RawDictionary) -> Seq<char> {
        match d {
            RawDictionary::STCharacters => self.st_characters@,
            RawDictionary::STPhrases => self.st_phrases@,
            RawDictionary::TSCharacters => self.ts_characters@,
            RawDictionary::TSPhrases => self.ts_phrases@,
            RawDictionary::TWPhrasesIT => self.tw_phrases_it@,
            RawDictionary::TWPhrasesName => self.tw_phrases_name@,
            RawDictionary::TWPhrasesOther => self.tw_phrases_other@,
            RawDictionary::TWVariants => self.tw_variants@,
            RawDictionary::TWVariantsRevPhrases => self.tw_variants_rev_phrases@,
            RawDictionary::HKVariants => self.hk_variants@,
            RawDictionary::HKVariantsRevPhrases => self.hk_variants_rev_phrases@,
            RawDictionary::JPShinjitaiCharacters => self.jp_shinjitai_characters@,
            RawDictionary::JPShinjitaiPhrases => self.jp_shinjitai_phrases@,
            RawDictionary::JPVariants => self.jp_variants@,
        }
    }
}

impl RawDictionary {
    /// The forward reading of this table: key to first replacement.
    pub open spec fn forward(self, tables: Tables) -> Entries {
        forward_entries(rows(tables.text_of(self)))
    }

    /// The inverse reading of this table: each replacement back to its key.
    pub open spec fn inverse(self, tables: Tables) -> Entries {
        inverse_entries(rows(tables.text_of(self)))
    }

    /// The variant reading of this table: key to all its replacements.
    pub open spec fn variants(self, tables: Tables) -> Seq<(Seq<char>, Row)> {
        variant_entries(rows(tables.text_of(self)))
    }

    /// The text of this table.
    pub fn text<'a>(&self, tables: &'a Tables) -> (r: &'a str)
        ensures
            r@ == tables.text_of(*self),
    {
        match self {
            RawDictionary::STCharacters => tables.st_characters.as_str(),
            RawDictionary::STPhrases => tables.st_phrases.as_str(),
            RawDictionary::TSCharacters => tables.ts_characters.as_str(),
            RawDictionary::TSPhrases => tables.ts_phrases.as_str(),
            RawDictionary::TWPhrasesIT => tables.tw_phrases_it.as_str(),
            RawDictionary::TWPhrasesName => tables.tw_phrases_name.as_str(),
            RawDictionary::TWPhrasesOther => tables.tw_phrases_other.as_str(),
            RawDictionary::TWVariants => tables.tw_variants.as_str(),
            RawDictionary::TWVariantsRevPhrases => tables.tw_variants_rev_phrases.as_str(),
            RawDictionary::HKVariants => tables.hk_variants.as_str(),
            RawDictionary::HKVariantsRevPhrases => tables.hk_variants_rev_phrases.as_str(),
            RawDictionary::JPShinjitaiCharacters => tables.jp_shinjitai_characters.as_str(),
            RawDictionary::JPShinjitaiPhrases => tables.jp_shinjitai_phrases.as_str(),
            RawDictionary::JPVariants => tables.jp_variants.as_str(),
        }
    }

    /// The entries of the forward reading, in the order of the rows.
    pub fn iter(&self, tables: &Tables) -> (r: Vec<(String, String)>)
        ensures
            r.deep_view() == self.forward(*tables),
    {
        let table = parse_rows(self.text(tables));
        forward_of(&table)
    }

    /// The entries of the inverse reading, in the order of the rows and, in
    /// a row, of its replacements.
    pub fn inv_iter(&self, tables: &Tables) -> (r: Vec<(String, String)>)
        ensures
            r.deep_view() == self.inverse(*tables),
    {
        let table = parse_rows(self.text(tables));
        inverse_of(&table)
    }

    /// The entries of the variant reading, in the order of the rows.
    pub fn var_iter(&self, tables: &Tables) -> (r: Vec<(String, Vec<String>)>)
        ensures
            r.deep_view() == self.variants(*tables),
    {
        let table = parse_rows(self.text(tables));
        variants_of(&table)
    }
}

/// The dictionaries that conversions are assembled from.
#[derive(Clone, Copy, Debug, PartialEq, Eq)]
pub enum Dictionary {
    STCharacters,
    STPhrases,
    TSCharacters,
    TSPhrases,
    TWPhrases,
    TWPhrasesRev,
    TWVariants,
    TWVariantsRev,
    TWVariantsRevPhrases,
    HKVariants,
    HKVariantsRev,
    HKVariantsRevPhrases,
    JPShinjitaiCharacters,
    JPShinjitaiPhrases,
    JPVariants,
    JPVariantsRev,
}

impl Dictionary {
    /// The entries of this dictionary: the forward reading of its tables,
    /// or, for a dictionary named `..Rev`, their inverse reading; where it
    /// has several tables, one table's entries after the other's.
    pub open spec fn entries(self, tables: Tables) -> Entries {
        match self {
            Dictionary::STCharacters => RawDictionary::STCharacters.forward(tables),
            Dictionary::STPhrases => RawDictionary::STPhrases.forward(tables),
            Dictionary::TSCharacters => RawDictionary::TSCharacters.forward(tables),
            Dictionary::TSPhrases => RawDictionary::TSPhrases.forward(tables),
            Dictionary::TWPhrases => RawDictionary::TWPhrasesIT.forward(tables)
                + RawDictionary::TWPhrasesName.forward(tables)
                + RawDictionary::TWPhrasesOther.forward(tables),
            Dictionary::TWPhrasesRev => RawDictionary::TWPhrasesIT.inverse(tables)
                + RawDictionary::TWPhrasesName.inverse(tables)
                + RawDictionary::TWPhrasesOther.inverse(tables),
            Dictionary::TWVariants => RawDictionary::TWVariants.forward(tables),
            Dictionary::TWVariantsRev => RawDictionary::TWVariants.inverse(tables),
            Dictionary::TWVariantsRevPhrases => RawDictionary::TWVariantsRevPhrases.forward(tables),
            Dictionary::HKVariants => RawDictionary::HKVariants.forward(tables),
            Dictionary::HKVariantsRev => RawDictionary::HKVariants.inverse(tables),
            Dictionary::HKVariantsRevPhrases => RawDictionary::HKVariantsRevPhrases.forward(tables),
            Dictionary::JPShinjitaiCharacters => RawDictionary::JPShinjitaiCharacters.forward(
                tables,
            ),
            Dictionary::JPShinjitaiPhrases => RawDictionary::JPShinjitaiPhrases.forward(tables),
            Dictionary::JPVariants => RawDictionary::JPVariants.forward(tables),
            Dictionary::JPVariantsRev => RawDictionary::JPVariants.inverse(tables),
        }
    }

    /// The entries of this dictionary, in order.
    pub fn iter(&self, tables: &Tables) -> (r: Vec<(String, String)>)
        ensures
            r.deep_view() == self.entries(*tables),
    {
        match self {
            Dictionary::STCharacters => RawDictionary::STCharacters.iter(tables),
            Dictionary::STPhrases => RawDictionary::STPhrases.iter(tables),
            Dictionary::TSCharacters => RawDictionary::TSCharacters.iter(tables),
            Dictionary::TSPhrases => RawDictionary::TSPhrases.iter(tables),
            Dictionary::TWPhrases => {
                let mut all = RawDictionary::TWPhrasesIT.iter(tables);
                let mut names = RawDictionary::TWPhrasesName.iter(tables);
                let mut others = RawDictionary::TWPhrasesOther.iter(tables);
                chain(&mut all, &mut names);
                chain(&mut all, &mut others);
                all
            },
            Dictionary::TWPhrasesRev => {
                let mut all = RawDictionary::TWPhrasesIT.inv_iter(tables);
                let mut names = RawDictionary::TWPhrasesName.inv_iter(tables);
                let mut others = RawDictionary::TWPhrasesOther.inv_iter(tables);
                chain(&mut all, &mut names);
                chain(&mut all, &mut others);
                all
            },
            Dictionary::TWVariants => RawDictionary::TWVariants.iter(tables),
            Dictionary::TWVariantsRev => RawDictionary::TWVariants.inv_iter(tables),
            Dictionary::TWVariantsRevPhrases => RawDictionary::TWVariantsRevPhrases.iter(tables),
            Dictionary::HKVariants => RawDictionary::HKVariants.iter(tables),
            Dictionary::HKVariantsRev => RawDictionary::HKVariants.inv_iter(tables),
            Dictionary::HKVariantsRevPhrases => RawDictionary::HKVariantsRevPhrases.iter(tables),
            Dictionary::JPShinjitaiCharacters => RawDictionary::JPShinjitaiCharacters.iter(tables),
            Dictionary::JPShinjitaiPhrases => RawDictionary::JPShinjitaiPhrases.iter(tables),
            Dictionary::JPVariants => RawDictionary::JPVariants.iter(tables),
            Dictionary::JPVariantsRev => RawDictionary::JPVariants.inv_iter(tables),
        }
    }
}

/// Moves the entries of `more` to the end of `all`.
fn chain(all: &mut Vec<(String, String)>, more: &mut Vec<(String, String)>)
    ensures
        final(all).deep_view() == old(all).deep_view() + old(more).deep_view(),
        final(more)@.len() == 0,
{
    all.append(more);
    assert(all.deep_view() =~= old(all).deep_view() + old(more).deep_view());
}

} // verus!
