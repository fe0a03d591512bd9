//! The named conversions: which dictionaries are merged into each stage,
//! which stages each conversion runs in which order, and the functions that
//! run them.

use crate::dict::{Dictionary, Tables};
use crate::model::{lemma_insert_all_concat, mapping_of, pipeline, Entries, Mapping};
use crate::trie::Trie;
use vstd::prelude::*;

verus! {

/// The stages that conversions are chained from. Each is one prefix tree,
/// built from one or several dictionaries merged in a fixed order.
#[derive(Clone, Copy, Debug, PartialEq, Eq)]
pub enum Stage {
    /// Simplified to Traditional.
    S2T,
    /// Traditional to Simplified.
    T2S,
    /// Traditional to the Taiwan standard, characters.
    T2TWVariants,
    /// Traditional to the Taiwan standard, idioms.
    T2TWPhrases,
    /// Taiwan standard to Traditional, characters.
    TW2TVariants,
    /// Taiwan standard to Traditional, idioms and characters.
    TW2TPhrasesVariants,
    /// Traditional to the Hong Kong standard.
    T2HKVariants,
    /// Hong Kong standard to Traditional.
    HK2TVariants,
    /// Traditional (Kyūjitai) to Japanese Shinjitai.
    T2JPVariants,
    /// Japanese Shinjitai to Traditional (Kyūjitai).
    JP2T,
}

/// The entries of several dictionaries, one dictionary's after the other's.
pub open spec fn merged(dictionaries: Seq<Dictionary>, tables: Tables) -> Entries
    decreases dictionaries.len(),
{
    if dictionaries.len() == 0 {
        Seq::empty()
    } else {
        merged(dictionaries.drop_last(), tables) + dictionaries.last().entries(tables)
    }
}

impl Stage {
    /// The dictionaries that are merged into this stage, in the order in
    /// which they are inserted: on a key that two of them define, the later
    /// one decides.
    pub open spec fn dictionaries(self) -> Seq<Dictionary> {
        match self {
            Stage::S2T => seq![Dictionary::STPhrases, Dictionary::STCharacters],
            Stage::T2S => seq![Dictionary::TSPhrases, Dictionary::TSCharacters],
            Stage::T2TWVariants => seq![Dictionary::TWVariants],
            Stage::T2TWPhrases => seq![Dictionary::TWPhrases],
            Stage::TW2TVariants => seq![
                Dictionary::TWVariantsRevPhrases,
                Dictionary::TWVariantsRev,
            ],
            Stage::TW2TPhrasesVariants => seq![
                Dictionary::TWPhrasesRev,
                Dictionary::TWVariantsRevPhrases,
                Dictionary::TWVariantsRev,
            ],
            Stage::T2HKVariants => seq![Dictionary::HKVariants],
            Stage::HK2TVariants => seq![
                Dictionary::HKVariantsRevPhrases,
                Dictionary::HKVariantsRev,
            ],
            Stage::T2JPVariants => seq![Dictionary::JPVariants],
            Stage::JP2T => seq![
                Dictionary::JPShinjitaiPhrases,
                Dictionary::JPShinjitaiCharacters,
                Dictionary::JPVariantsRev,
            ],
        }
    }

    /// The mapping of this stage over the given tables.
    pub open spec fn mapping(self, tables: Tables) -> Mapping {
        mapping_of(merged(self.dictionaries(), tables))
    }

    /// The dictionaries of this stage, in order.
    pub fn list(&self) -> (r: Vec<Dictionary>)
        ensures
            r@ == self.dictionaries(),
    {
        let r = match self {
            Stage::S2T => vec![Dictionary::STPhrases, Dictionary::STCharacters],
            Stage::T2S => vec![Dictionary::TSPhrases, Dictionary::TSCharacters],
            Stage::T2TWVariants => vec![Dictionary::TWVariants],
            Stage::T2TWPhrases => vec![Dictionary::TWPhrases],
            Stage::TW2TVariants => vec![
                Dictionary::TWVariantsRevPhrases,
                Dictionary::TWVariantsRev,
            ],
            Stage::TW2TPhrasesVariants => vec![
                Dictionary::TWPhrasesRev,
                Dictionary::TWVariantsRevPhrases,
                Dictionary::TWVariantsRev,
            ],
            Stage::T2HKVariants => vec![Dictionary::HKVariants],
            Stage::HK2TVariants => vec![
                Dictionary::HKVariantsRevPhrases,
                Dictionary::HKVariantsRev,
            ],
            Stage::T2JPVariants => vec![Dictionary::JPVariants],
            Stage::JP2T => vec![
                Dictionary::JPShinjitaiPhrases,
                Dictionary::JPShinjitaiCharacters,
                Dictionary::JPVariantsRev,
            ],
        };
        assert(r@ =~= self.dictionaries());
        r
    }

    /// Builds the prefix tree of this stage from the given tables.
    pub fn build(&self, tables: &Tables) -> (t: Trie)
        ensures
            t@ == self.mapping(*tables),
    {
        let list = self.list();
        let mut t = Trie::default();
        let mut i: usize = 0;
        assert(list@.take(0) =~= Seq::<Dictionary>::empty());
        while i < list.len()
            invariant
                i <= list@.len(),
                t@ == mapping_of(merged(list@.take(i as int), *tables)),
            decreases list@.len() - i,
        {
            let entries = list[i].iter(tables);
            proof {
                assert(list@.take(i as int + 1).drop_last() =~= list@.take(i as int));
                lemma_insert_all_concat(
                    Mapping::empty(),
                    merged(list@.take(i as int), *tables),
                    entries.deep_view(),
                );
            }
            t.extend(entries);
            i += 1;
        }
        assert(list@.take(i as int) =~= list@);
        t
    }
}

/// The prefix trees of all stages, built once from one set of tables and
/// shared by the conversions.
pub struct Catalog {
    source: Ghost<Tables>,
    s2t: Trie,
    t2s: Trie,
    t2tw_variants: Trie,
    t2tw_phrases: Trie,
    tw2t_variants: Trie,
    tw2t_phrases_variants: Trie,
    t2hk_variants: Trie,
    hk2t_variants: Trie,
    t2jp_variants: Trie,
    jp2t: Trie,
}

impl Catalog {
    /// The tables that the catalog was built from.
    pub closed spec fn source(&self) -> Tables {
        self.source@
    }

    /// The prefix tree held for `stage`.
    spec fn tree(&self, stage: Stage) -> Trie {
        match stage {
            Stage::S2T => self.s2t,
            Stage::T2S => self.t2s,
            Stage::T2TWVariants => self.t2tw_variants,
            Stage::T2TWPhrases => self.t2tw_phrases,
            Stage::TW2TVariants => self.tw2t_variants,
            Stage::TW2TPhrasesVariants => self.tw2t_phrases_variants,
            Stage::T2HKVariants => self.t2hk_variants,
            Stage::HK2TVariants => self.hk2t_variants,
            Stage::T2JPVariants => self.t2jp_variants,
            Stage::JP2T => self.jp2t,
        }
    }

    /// The tree of each stage holds that stage's mapping over the source
    /// tables.
    #[verifier::type_invariant]
    spec fn inv(self) -> bool {
        forall|stage: Stage| (#[trigger] self.tree(stage))@ == stage.mapping(self.source@)
    }

    /// Builds the trees of all stages from `tables`.
    pub fn new(tables: &Tables) -> (c: Catalog)
        ensures
            c.source() == *tables,
    {
        Catalog {
            source: Ghost(*tables),
            s2t: Stage::S2T.build(tables),
            t2s: Stage::T2S.build(tables),
            t2tw_variants: Stage::T2TWVariants.build(tables),
            t2tw_phrases: Stage::T2TWPhrases.build(tables),
            tw2t_variants: Stage::TW2TVariants.build(tables),
            tw2t_phrases_variants: Stage::TW2TPhrasesVariants.build(tables),
            t2hk_variants: Stage::T2HKVariants.build(tables),
            hk2t_variants: Stage::HK2TVariants.build(tables),
            t2jp_variants: Stage::T2JPVariants.build(tables),
            jp2t: Stage::JP2T.build(tables),
        }
    }

    /// The prefix tree of `stage`.
    pub fn get(&self, stage: Stage) -> (t: &Trie)
        ensures
            t@ == stage.mapping(self.source()),
    {
        proof {
            use_type_invariant(self);
        }
        assert(self.tree(stage)@ == stage.mapping(self.source()));
        match stage {
            Stage::S2T => &self.s2t,
            Stage::T2S => &self.t2s,
            Stage::T2TWVariants => &self.t2tw_variants,
            Stage::T2TWPhrases => &self.t2tw_phrases,
            Stage::TW2TVariants => &self.tw2t_variants,
            Stage::TW2TPhrasesVariants => &self.tw2t_phrases_variants,
            Stage::T2HKVariants => &self.t2hk_variants,
            Stage::HK2TVariants => &self.hk2t_variants,
            Stage::T2JPVariants => &self.t2jp_variants,
            Stage::JP2T => &self.jp2t,
        }
    }
}

/// The named conversions.
#[derive(Clone, Copy, Debug, PartialEq, Eq)]
pub enum Converters {
    /// Simplified Chinese to Traditional Chinese
    ///
    /// 简体中文 → 繁体中文
    S2T,
    /// Traditional Chinese to Simplified Chinese
    ///
    /// 繁体中文 → 简体中文
    T2S,
    /// Simplified Chinese to Traditional Chinese (Taiwan)
    ///
    /// 简体中文 → 繁体中文（台湾）
    S2TW,
    /// Traditional Chinese (Taiwan) to Simplified Chinese
    ///
    /// 繁体中文（台湾）→ 简体中文
    TW2S,
    /// Simplified Chinese to Traditional Chinese (Taiwan) with Taiwanese idiom
    ///
    /// 简体中文 → 繁体中文（台湾），转换为台湾常用词
    S2TWP,
    /// Traditional Chinese (Taiwan) to Simplified Chinese with Mainland Chinese idiom
    ///
    /// 繁体中文（台湾）→ 简体中文，转换为中国大陆常用词
    TW2SP,
    /// Traditional Chinese to Traditional Chinese (Taiwan)
    ///
    /// 繁体中文 → 繁体中文（台湾）
    T2TW,
    /// Traditional Chinese (Taiwan) to Traditional Chinese
    ///
    /// 繁体中文（台湾）→ 繁体中文
    TW2T,
    /// Simplified Chinese to Traditional Chinese (Hong Kong)
    ///
    /// 简体中文 → 繁体中文（香港）
    S2HK,
    /// Traditional Chinese (Hong Kong) to Simplified Chinese
    ///
    /// 繁体中文（香港）→ 简体中文
    HK2S,
    /// Traditional Chinese to Traditional Chinese (Hong Kong)
    ///
    /// 繁体中文 → 繁体中文（香港）
    T2HK,
    /// Traditional Chinese (Hong Kong) to Traditional Chinese
    ///
    /// 繁体中文（香港）→ 繁体中文
    HK2T,
    /// Traditional Chinese characters (Kyūjitai) to New Japanese Kanji (Shinjitai)
    ///
    /// 繁体字 → 日文新字体
    T2JP,
    /// New Japanese Kanji (Shinjitai) to Traditional Chinese characters (Kyūjitai)
    ///
    /// 日文新字体 → 繁体字
    JP2T,
}

impl Converters {
    /// The stages of this conversion, in the order in which they run.
    pub open spec fn stages(self) -> Seq<Stage> {
        match self {
            Converters::S2T => seq![Stage::S2T],
            Converters::T2S => seq![Stage::T2S],
            Converters::S2TW => seq![Stage::S2T, Stage::T2TWVariants],
            Converters::TW2S => seq![Stage::TW2TVariants, Stage::T2S],
            Converters::S2TWP => seq![Stage::S2T, Stage::T2TWPhrases, Stage::T2TWVariants],
            Converters::TW2SP => seq![Stage::TW2TPhrasesVariants, Stage::T2S],
            Converters::T2TW => seq![Stage::T2TWVariants],
            Converters::TW2T => seq![Stage::TW2TVariants],
            Converters::S2HK => seq![Stage::S2T, Stage::T2HKVariants],
            Converters::HK2S => seq![Stage::HK2TVariants, Stage::T2S],
            Converters::T2HK => seq![Stage::T2HKVariants],
            Converters::HK2T => seq![Stage::HK2TVariants],
            Converters::T2JP => seq![Stage::T2JPVariants],
            Converters::JP2T => seq![Stage::JP2T],
        }
    }

    /// The mappings of this conversion's stages over the given tables.
    pub open spec fn mappings(self, tables: Tables) -> Seq<Mapping> {
        self.stages().map_values(|stage: Stage| stage.mapping(tables))
    }

    /// What this conversion makes of `text` over the given tables.
    pub open spec fn converted(self, tables: Tables, text: Seq<char>) -> Seq<char> {
        pipeline(self.mappings(tables), text)
    }

    /// The stages of this conversion, in order.
    pub fn list(&self) -> (r: Vec<Stage>)
        ensures
            r@ == self.stages(),
    {
        let r = match self {
            Converters::S2T => vec![Stage::S2T],
            Converters::T2S => vec![Stage::T2S],
            Converters::S2TW => vec![Stage::S2T, Stage::T2TWVariants],
            Converters::TW2S => vec![Stage::TW2TVariants, Stage::T2S],
            Converters::S2TWP => vec![Stage::S2T, Stage::T2TWPhrases, Stage::T2TWVariants],
            Converters::TW2SP => vec![Stage::TW2TPhrasesVariants, Stage::T2S],
            Converters::T2TW => vec![Stage::T2TWVariants],
            Converters::TW2T => vec![Stage::TW2TVariants],
            Converters::S2HK => vec![Stage::S2T, Stage::T2HKVariants],
            Converters::HK2S => vec![Stage::HK2TVariants, Stage::T2S],
            Converters::T2HK => vec![Stage::T2HKVariants],
            Converters::HK2T => vec![Stage::HK2TVariants],
            Converters::T2JP => vec![Stage::T2JPVariants],
            Converters::JP2T => vec![Stage::JP2T],
        };
        assert(r@ =~= self.stages());
        r
    }

    /// The prefix trees of this conversion's stages, in order.
    pub fn dictionaries<'a>(&self, catalog: &'a Catalog) -> (r: Vec<&'a Trie>)
        ensures
            r@.len() == self.stages().len(),
            forall|i: int|
                0 <= i < r@.len() ==> (#[trigger] r@[i])@ == self.stages()[i].mapping(
                    catalog.source(),
                ),
    {
        let list = self.list();
        let mut r: Vec<&'a Trie> = Vec::new();
        let mut i: usize = 0;
        while i < list.len()
            invariant
                list@ == self.stages(),
                i <= list@.len(),
                r@.len() == i,
                forall|j: int|
                    0 <= j < i ==> (#[trigger] r@[j])@ == list@[j].mapping(catalog.source()),
            decreases list@.len() - i,
        {
            r.push(catalog.get(list[i]));
            i += 1;
        }
        r
    }

    /// The converter that runs this conversion.
    pub fn new_converter<'a>(&self, catalog: &'a Catalog) -> (c: Converter<'a>)
        ensures
            c@ == self.mappings(catalog.source()),
    {
        let c = Converter::new(self.dictionaries(catalog));
        assert(c@ =~= self.mappings(catalog.source()));
        c
    }
}

/// An ordered list of stages, each a prefix tree built beforehand.
pub struct Converter<'a>(Vec<&'a Trie>);

impl<'a> View for Converter<'a> {
    type V = Seq<Mapping>;

    /// The mappings of the stages, in order.
    closed spec fn view(&self) -> Seq<Mapping> {
        self.0@.map_values(|t: &Trie| t@)
    }
}

impl<'a> Converter<'a> {
    /// The converter that runs `dictionaries` in order.
    pub fn new(dictionaries: Vec<&'a Trie>) -> (c: Self)
        ensures
            c@ == dictionaries@.map_values(|t: &Trie| t@),
    {
        Converter(dictionaries)
    }

    /// Converts `s` by running it through every stage in order; with no
    /// stage, `s` is returned as it is.
    pub fn convert(&self, s: &str) -> (r: String)
        ensures
            r@ == pipeline(self@, s@),
    {
        if self.0.len() == 0 {
            return s.to_owned();
        }
        let mut out = self.0[0].convert(s);
        let mut i: usize = 1;
        proof {
            assert(self@.take(1).drop_last() =~= Seq::<Mapping>::empty());
            assert(self@.take(1).last() == self.0@[0]@);
            assert(pipeline(self@.take(1).drop_last(), s@) == s@);
        }
        while i < self.0.len()
            invariant
                1 <= i <= self.0@.len(),
                out@ == pipeline(self@.take(i as int), s@),
            decreases self.0@.len() - i,
        {
            proof {
                assert(self@.take(i as int + 1).drop_last() =~= self@.take(i as int));
                assert(self@.take(i as int + 1).last() == self.0@[i as int]@);
            }
            out = self.0[i].convert(out.as_str());
            i += 1;
        }
        assert(self@.take(i as int) =~= self@);
        out
    }
}

/// Simplified Chinese to Traditional Chinese
///
/// 简体中文 → 繁体中文
pub fn s2t(catalog: &Catalog, s: &str) -> (r: String)
    ensures
        r@ == Converters::S2T.converted(catalog.source(), s@),
{
    Converters::S2T.new_converter(catalog).convert(s)
}

/// Traditional Chinese to Simplified Chinese
///
/// 繁体中文 → 简体中文
pub fn t2s(catalog: &Catalog, s: &str) -> (r: String)
    ensures
        r@ == Converters::T2S.converted(catalog.source(), s@),
{
    Converters::T2S.new_converter(catalog).convert(s)
}

/// Simplified Chinese to Traditional Chinese (Taiwan)
///
/// 简体中文 → 繁体中文（台湾）
pub fn s2tw(catalog: &Catalog, s: &str) -> (r: String)
    ensures
        r@ == Converters::S2TW.converted(catalog.source(), s@),
{
    Converters::S2TW.new_converter(catalog).convert(s)
}

/// Traditional Chinese (Taiwan) to Simplified Chinese
///
/// 繁体中文（台湾）→ 简体中文
pub fn tw2s(catalog: &Catalog, s: &str) -> (r: String)
    ensures
        r@ == Converters::TW2S.converted(catalog.source(), s@),
{
    Converters::TW2S.new_converter(catalog).convert(s)
}

/// Simplified Chinese to Traditional Chinese (Taiwan) with Taiwanese idiom
///
/// 简体中文 → 繁体中文（台湾），转换为台湾常用词
pub fn s2twp(catalog: &Catalog, s: &str) -> (r: String)
    ensures
        r@ == Converters::S2TWP.converted(catalog.source(), s@),
{
    Converters::S2TWP.new_converter(catalog).convert(s)
}

/// Traditional Chinese (Taiwan) to Simplified Chinese with Mainland Chinese idiom
///
/// 繁体中文（台湾）→ 简体中文，转换为中国大陆常用词
pub fn tw2sp(catalog: &Catalog, s: &str) -> (r: String)
    ensures
        r@ == Converters::TW2SP.converted(catalog.source(), s@),
{
    Converters::TW2SP.new_converter(catalog).convert(s)
}

/// Traditional Chinese to Traditional Chinese (Taiwan)
///
/// 繁体中文 → 繁体中文（台湾）
pub fn t2tw(catalog: &Catalog, s: &str) -> (r: String)
    ensures
        r@ == Converters::T2TW.converted(catalog.source(), s@),
{
    Converters::T2TW.new_converter(catalog).convert(s)
}

/// Traditional Chinese (Taiwan) to Traditional Chinese
///
/// 繁体中文（台湾）→ 繁体中文
pub fn tw2t(catalog: &Catalog, s: &str) -> (r: String)
    ensures
        r@ == Converters::TW2T.converted(catalog.source(), s@),
{
    Converters::TW2T.new_converter(catalog).convert(s)
}

/// Simplified Chinese to Traditional Chinese (Hong Kong)
///
/// 简体中文 → 繁体中文（香港）
pub fn s2hk(catalog: &Catalog, s: &str) -> (r: String)
    ensures
        r@ == Converters::S2HK.converted(catalog.source(), s@),
{
    Converters::S2HK.new_converter(catalog).convert(s)
}

/// Traditional Chinese (Hong Kong) to Simplified Chinese
///
/// 繁体中文（香港）→ 简体中文
pub fn hk2s(catalog: &Catalog, s: &str) -> (r: String)
    ensures
        r@ == Converters::HK2S.converted(catalog.source(), s@),
{
    Converters::HK2S.new_converter(catalog).convert(s)
}

/// Traditional Chinese to Traditional Chinese (Hong Kong)
///
/// 繁体中文 → 繁体中文（香港）
pub fn t2hk(catalog: &Catalog, s: &str) -> (r: String)
    ensures
        r@ == Converters::T2HK.converted(catalog.source(), s@),
{
    Converters::T2HK.new_converter(catalog).convert(s)
}

/// Traditional Chinese (Hong Kong) to Traditional Chinese
///
/// 繁体中文（香港）→ 繁体中文
pub fn hk2t(catalog: &Catalog, s: &str) -> (r: String)
    ensures
        r@ == Converters::HK2T.converted(catalog.source(), s@),
{
    Converters::HK2T.new_converter(catalog).convert(s)
}

/// Traditional Chinese characters (Kyūjitai) to New Japanese Kanji (Shinjitai)
///
/// 繁体字 → 日文新字体
pub fn t2jp(catalog: &Catalog, s: &str) -> (r: String)
    ensures
        r@ == Converters::T2JP.converted(catalog.source(), s@),
{
    Converters::T2JP.new_converter(catalog).convert(s)
}

/// New Japanese Kanji (Shinjitai) to Traditional Chinese characters (Kyūjitai)
///
/// 日文新字体 → 繁体字
pub fn jp2t(catalog: &Catalog, s: &str) -> (r: String)
    ensures
        r@ == Converters::JP2T.converted(catalog.source(), s@),
{
    Converters::JP2T.new_converter(catalog).convert(s)
}

} // verus!
