use hanconv::{
    hk2s, hk2t, jp2t, s2hk, s2t, s2tw, s2twp, t2hk, t2jp, t2s, t2tw, tw2s, tw2sp, tw2t,
};
use hanconv::{Catalog, Converter, Converters, Dictionary, Stage, Tables, Trie};

fn sample_tables() -> Tables {
    Tables {
        st_characters: String::from("钟\t鍾 鐘\n这\t這\n里\t裏 里\n发\t發 髮\n"),
        st_phrases: String::from("一分钟\t一分鐘\n头发\t頭髮\n"),
        ts_characters: String::from(
            "鐘\t钟\n鍾\t钟\n這\t这\n裏\t里\n發\t发\n髮\t发\n頭\t头\n衛\t卫\n",
        ),
        ts_phrases: String::from("一分鐘\t一分钟\n"),
        tw_phrases_it: String::from("軟件\t軟體\n"),
        tw_phrases_name: String::from("北朝鮮\t北韓\n"),
        tw_phrases_other: String::from("公交車\t公車\n"),
        tw_variants: String::from("裏\t裡\n爲\t為\n"),
        tw_variants_rev_phrases: String::from("一口吃個\t一口喫個\n"),
        hk_variants: String::from("裏\t裏\n爲\t為\n衛\t衞\n"),
        hk_variants_rev_phrases: String::from("一口吃個\t一口喫個\n"),
        jp_shinjitai_characters: String::from("両\t兩 輛\n"),
        jp_shinjitai_phrases: String::from("一両\t一輛\n"),
        jp_variants: String::from("兩\t両\n輛\t両\n"),
    }
}

#[test]
fn s2t_phrase_overrides_character() {
    let catalog = Catalog::new(&sample_tables());
    assert_eq!(s2t(&catalog, "一分钟"), "一分鐘");
    assert_eq!(s2t(&catalog, "钟"), "鍾");
}

#[test]
fn t2s_of_a_phrase() {
    let catalog = Catalog::new(&sample_tables());
    assert_eq!(t2s(&catalog, "一分鐘"), "一分钟");
}

#[test]
fn every_conversion_keeps_the_empty_string() {
    let catalog = Catalog::new(&sample_tables());
    assert_eq!(s2t(&catalog, ""), "");
    assert_eq!(t2s(&catalog, ""), "");
    assert_eq!(s2tw(&catalog, ""), "");
    assert_eq!(tw2s(&catalog, ""), "");
    assert_eq!(s2twp(&catalog, ""), "");
    assert_eq!(tw2sp(&catalog, ""), "");
    assert_eq!(t2tw(&catalog, ""), "");
    assert_eq!(tw2t(&catalog, ""), "");
    assert_eq!(s2hk(&catalog, ""), "");
    assert_eq!(hk2s(&catalog, ""), "");
    assert_eq!(t2hk(&catalog, ""), "");
    assert_eq!(hk2t(&catalog, ""), "");
    assert_eq!(t2jp(&catalog, ""), "");
    assert_eq!(jp2t(&catalog, ""), "");
}

#[test]
fn text_without_any_key_is_unchanged() {
    let catalog = Catalog::new(&sample_tables());
    let text = "Hello, 世界! 123";
    assert_eq!(s2t(&catalog, text), text);
    assert_eq!(t2s(&catalog, text), text);
    assert_eq!(s2twp(&catalog, text), text);
    assert_eq!(jp2t(&catalog, text), text);
}

#[test]
fn t2tw_replaces_the_variant_and_keeps_the_rest() {
    let catalog = Catalog::new(&sample_tables());
    assert_eq!(t2tw(&catalog, "這裏很好"), "這裡很好");
}

#[test]
fn two_stage_conversions_chain_their_stages() {
    let catalog = Catalog::new(&sample_tables());
    assert_eq!(s2tw(&catalog, "这里"), "這裡");
    assert_eq!(s2hk(&catalog, "这里"), "這裏");
    assert_eq!(tw2s(&catalog, "這裡"), "这里");
    assert_eq!(hk2s(&catalog, "衞"), "卫");
    assert_eq!(hk2t(&catalog, "衞"), "衛");
    assert_eq!(t2hk(&catalog, "衛"), "衞");
    assert_eq!(tw2t(&catalog, "為"), "爲");
}

#[test]
fn s2twp_runs_three_stages() {
    let mut tables = sample_tables();
    tables.st_characters.push_str("软\t軟\n");
    let catalog = Catalog::new(&tables);
    assert_eq!(s2twp(&catalog, "软件里"), "軟體裡");
    assert_eq!(s2tw(&catalog, "软件里"), "軟件裡");
    assert_eq!(tw2sp(&catalog, "公車"), "公交車");
}

#[test]
fn japanese_conversions() {
    let catalog = Catalog::new(&sample_tables());
    assert_eq!(t2jp(&catalog, "兩輛"), "両両");
    assert_eq!(jp2t(&catalog, "一両"), "一輛");
    // The inverse reading of the variants is merged last and so decides
    // on a single character: the last row that lists it wins.
    assert_eq!(jp2t(&catalog, "両"), "輛");
}

#[test]
fn idempotence_does_not_hold_in_general() {
    let mut trie = Trie::default();
    trie.insert("a", String::from("b"));
    trie.insert("b", String::from("c"));
    let once = trie.convert("a");
    let twice = trie.convert(&once);
    assert_eq!(once, "b");
    assert_eq!(twice, "c");
    assert_ne!(once, twice);
}

#[test]
fn round_trip_does_not_hold_in_general() {
    let catalog = Catalog::new(&sample_tables());
    // Both 發 and 髮 simplify to 发, and 发 alone becomes 發.
    let there = t2s(&catalog, "髮");
    assert_eq!(there, "发");
    assert_eq!(s2t(&catalog, &there), "發");
    assert_ne!(s2t(&catalog, &t2s(&catalog, "髮")), "髮");
}

#[test]
fn converter_of_two_stages_is_the_second_after_the_first() {
    let mut first = Trie::default();
    first.insert("ab", String::from("x"));
    first.insert("c", String::from("yz"));
    let mut second = Trie::default();
    second.insert("xy", String::from("Q"));
    second.insert("z", String::from("ab"));
    let converter = Converter::new(vec![&first, &second]);
    for text in ["", "abc", "cab", "xyz", "aabbcc", "zzz"] {
        assert_eq!(converter.convert(text), second.convert(&first.convert(text)));
    }
    assert_eq!(converter.convert("abc"), "Qab");
}

#[test]
fn converter_without_stages_is_the_identity() {
    let converter = Converter::new(Vec::new());
    assert_eq!(converter.convert("一分钟 abc"), "一分钟 abc");
    assert_eq!(converter.convert(""), "");
}

#[test]
fn later_dictionary_of_a_stage_overwrites_an_earlier_one() {
    let mut tables = Tables::default();
    tables.st_phrases = String::from("发\t髮\n");
    tables.st_characters = String::from("发\t發\n");
    let trie = Stage::S2T.build(&tables);
    assert_eq!(trie.get("发"), Some("發"));
    assert_eq!(trie.get_depth(), 1);
}

#[test]
fn stages_of_each_conversion() {
    assert_eq!(Converters::S2T.list(), vec![Stage::S2T]);
    assert_eq!(Converters::T2S.list(), vec![Stage::T2S]);
    assert_eq!(Converters::S2TW.list(), vec![Stage::S2T, Stage::T2TWVariants]);
    assert_eq!(Converters::TW2S.list(), vec![Stage::TW2TVariants, Stage::T2S]);
    assert_eq!(
        Converters::S2TWP.list(),
        vec![Stage::S2T, Stage::T2TWPhrases, Stage::T2TWVariants]
    );
    assert_eq!(Converters::TW2SP.list(), vec![Stage::TW2TPhrasesVariants, Stage::T2S]);
    assert_eq!(Converters::T2TW.list(), vec![Stage::T2TWVariants]);
    assert_eq!(Converters::TW2T.list(), vec![Stage::TW2TVariants]);
    assert_eq!(Converters::S2HK.list(), vec![Stage::S2T, Stage::T2HKVariants]);
    assert_eq!(Converters::HK2S.list(), vec![Stage::HK2TVariants, Stage::T2S]);
    assert_eq!(Converters::T2HK.list(), vec![Stage::T2HKVariants]);
    assert_eq!(Converters::HK2T.list(), vec![Stage::HK2TVariants]);
    assert_eq!(Converters::T2JP.list(), vec![Stage::T2JPVariants]);
    assert_eq!(Converters::JP2T.list(), vec![Stage::JP2T]);
}

#[test]
fn new_converter_runs_the_named_conversion() {
    let catalog = Catalog::new(&sample_tables());
    let converter = Converters::S2TW.new_converter(&catalog);
    assert_eq!(converter.convert("这里"), s2tw(&catalog, "这里"));
    assert_eq!(Converters::S2TW.dictionaries(&catalog).len(), 2);
    assert_eq!(Converters::S2TWP.dictionaries(&catalog).len(), 3);
}

#[test]
fn converting_line_by_line_gives_what_converting_the_whole_gives() {
    let catalog = Catalog::new(&sample_tables());
    let text = "一分钟\n这里\n\n头发\r\n钟\n里";
    for which in [Converters::S2T, Converters::S2TW, Converters::S2TWP, Converters::S2HK] {
        let converter = which.new_converter(&catalog);
        let by_line: String =
            text.split_inclusive('\n').map(|line| converter.convert(line)).collect();
        assert_eq!(by_line, converter.convert(text));
    }
    assert_eq!(s2t(&catalog, text), "一分鐘\n這裏\n\n頭髮\r\n鍾\n裏");
}

#[test]
fn a_key_with_a_line_feed_can_reach_across_lines() {
    // Tables never give such a key, but a tree filled by hand may hold one.
    let mut trie = Trie::default();
    trie.insert("a\nb", String::from("X"));
    let whole = trie.convert("a\nb");
    let by_line: String = "a\nb".split_inclusive('\n').map(|line| trie.convert(line)).collect();
    assert_eq!(whole, "X");
    assert_eq!(by_line, "a\nb");
}

#[test]
fn dictionaries_of_each_stage() {
    assert_eq!(Stage::S2T.list(), vec![Dictionary::STPhrases, Dictionary::STCharacters]);
    assert_eq!(Stage::T2S.list(), vec![Dictionary::TSPhrases, Dictionary::TSCharacters]);
    assert_eq!(Stage::T2TWVariants.list(), vec![Dictionary::TWVariants]);
    assert_eq!(Stage::T2TWPhrases.list(), vec![Dictionary::TWPhrases]);
    assert_eq!(
        Stage::TW2TVariants.list(),
        vec![Dictionary::TWVariantsRevPhrases, Dictionary::TWVariantsRev]
    );
    assert_eq!(
        Stage::TW2TPhrasesVariants.list(),
        vec![
            Dictionary::TWPhrasesRev,
            Dictionary::TWVariantsRevPhrases,
            Dictionary::TWVariantsRev
        ]
    );
    assert_eq!(Stage::T2HKVariants.list(), vec![Dictionary::HKVariants]);
    assert_eq!(
        Stage::HK2TVariants.list(),
        vec![Dictionary::HKVariantsRevPhrases, Dictionary::HKVariantsRev]
    );
    assert_eq!(Stage::T2JPVariants.list(), vec![Dictionary::JPVariants]);
    assert_eq!(
        Stage::JP2T.list(),
        vec![
            Dictionary::JPShinjitaiPhrases,
            Dictionary::JPShinjitaiCharacters,
            Dictionary::JPVariantsRev
        ]
    );
}

#[test]
fn catalog_hands_out_the_tree_of_each_stage() {
    let catalog = Catalog::new(&sample_tables());
    assert_eq!(catalog.get(Stage::S2T).get("一分钟"), Some("一分鐘"));
    assert_eq!(catalog.get(Stage::S2T).get_depth(), 3);
    assert_eq!(catalog.get(Stage::T2S).get("髮"), Some("发"));
    assert_eq!(catalog.get(Stage::T2TWVariants).get("裏"), Some("裡"));
    assert_eq!(catalog.get(Stage::T2TWPhrases).get("北朝鮮"), Some("北韓"));
    assert_eq!(catalog.get(Stage::TW2TVariants).get("裡"), Some("裏"));
    assert_eq!(catalog.get(Stage::TW2TVariants).get("一口吃個"), Some("一口喫個"));
    assert_eq!(catalog.get(Stage::TW2TPhrasesVariants).get("公車"), Some("公交車"));
    assert_eq!(catalog.get(Stage::T2HKVariants).get("衛"), Some("衞"));
    assert_eq!(catalog.get(Stage::HK2TVariants).get("衞"), Some("衛"));
    assert_eq!(catalog.get(Stage::T2JPVariants).get("兩"), Some("両"));
    assert_eq!(catalog.get(Stage::JP2T).get("一両"), Some("一輛"));
}

#[test]
fn later_row_of_a_table_overwrites_an_earlier_one() {
    let mut tables = Tables::default();
    tables.tw_variants = String::from("裏\t裡\n裏\t裏\n");
    let forward = Stage::T2TWVariants.build(&tables);
    assert_eq!(forward.get("裏"), Some("裏"));
    tables.hk_variants = String::from("爲\t為\n僞\t為\n");
    let inverse = Stage::HK2TVariants.build(&tables);
    assert_eq!(inverse.get("為"), Some("僞"));
}

#[test]
fn stage_without_entries_changes_nothing() {
    let catalog = Catalog::new(&Tables::default());
    assert_eq!(s2twp(&catalog, "一分钟"), "一分钟");
    assert_eq!(catalog.get(Stage::S2T).get_depth(), 0);
    assert!(!catalog.get(Stage::S2T).starts_with(""));
}
