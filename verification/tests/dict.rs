use hanconv::table::{blank, forward_of, inverse_of, parse_rows, variants_of};
use hanconv::{Dictionary, RawDictionary, Tables};

fn strings(items: &[&str]) -> Vec<String> {
    items.iter().map(|s| s.to_string()).collect()
}

fn pair(key: &str, value: &str) -> (String, String) {
    (key.to_string(), value.to_string())
}

#[test]
fn rows_are_lines_split_at_ascii_whitespace() {
    let table = parse_rows("a b c\n\n  d\te  \r\nf\n");
    assert_eq!(
        table,
        vec![strings(&["a", "b", "c"]), strings(&[]), strings(&["d", "e"]), strings(&["f"])]
    );
}

#[test]
fn last_line_needs_no_line_feed() {
    assert_eq!(parse_rows("a b"), vec![strings(&["a", "b"])]);
    assert_eq!(parse_rows("a b\n"), vec![strings(&["a", "b"])]);
    assert_eq!(parse_rows("a b\n\n"), vec![strings(&["a", "b"]), strings(&[])]);
    assert_eq!(parse_rows(""), Vec::<Vec<String>>::new());
    assert_eq!(parse_rows("\n"), vec![strings(&[])]);
}

#[test]
fn only_ascii_whitespace_separates_columns() {
    // U+3000 is whitespace, but not ASCII: it stays inside the column.
    assert_eq!(parse_rows("a\u{3000}b c"), vec![strings(&["a\u{3000}b", "c"])]);
    assert_eq!(parse_rows("a\u{c}b"), vec![strings(&["a", "b"])]);
    assert!(blank(' ') && blank('\t') && blank('\n') && blank('\r') && blank('\u{c}'));
    assert!(!blank('\u{b}') && !blank('\u{a0}') && !blank('a'));
}

#[test]
fn forward_reading_takes_the_first_replacement() {
    let table = parse_rows("发 發 髮\n\nlonely\n里 裏\n");
    assert_eq!(forward_of(&table), vec![pair("发", "發"), pair("里", "裏")]);
}

#[test]
fn inverse_reading_gives_one_entry_per_replacement() {
    let table = parse_rows("发 發 髮\n\nlonely\n里 裏\n");
    assert_eq!(
        inverse_of(&table),
        vec![pair("發", "发"), pair("髮", "发"), pair("裏", "里")]
    );
}

#[test]
fn variant_reading_keeps_all_replacements_in_order() {
    let table = parse_rows("发 發 髮\n\nlonely\n里 裏\n");
    assert_eq!(
        variants_of(&table),
        vec![
            ("发".to_string(), strings(&["發", "髮"])),
            ("里".to_string(), strings(&["裏"]))
        ]
    );
}

#[test]
fn raw_dictionary_reads_its_own_table() {
    let mut tables = Tables::default();
    tables.st_characters = String::from("发 發 髮\n");
    tables.jp_variants = String::from("兩 両\n");
    assert_eq!(RawDictionary::STCharacters.text(&tables), "发 發 髮\n");
    assert_eq!(RawDictionary::STPhrases.text(&tables), "");
    assert_eq!(RawDictionary::JPVariants.text(&tables), "兩 両\n");
    assert_eq!(RawDictionary::STCharacters.iter(&tables), vec![pair("发", "發")]);
    assert_eq!(
        RawDictionary::STCharacters.inv_iter(&tables),
        vec![pair("發", "发"), pair("髮", "发")]
    );
    assert_eq!(
        RawDictionary::STCharacters.var_iter(&tables),
        vec![("发".to_string(), strings(&["發", "髮"]))]
    );
    assert_eq!(RawDictionary::STPhrases.iter(&tables), Vec::<(String, String)>::new());
}

#[test]
fn each_table_has_its_own_text() {
    let tables = Tables {
        st_characters: String::from("1"),
        st_phrases: String::from("2"),
        ts_characters: String::from("3"),
        ts_phrases: String::from("4"),
        tw_phrases_it: String::from("5"),
        tw_phrases_name: String::from("6"),
        tw_phrases_other: String::from("7"),
        tw_variants: String::from("8"),
        tw_variants_rev_phrases: String::from("9"),
        hk_variants: String::from("10"),
        hk_variants_rev_phrases: String::from("11"),
        jp_shinjitai_characters: String::from("12"),
        jp_shinjitai_phrases: String::from("13"),
        jp_variants: String::from("14"),
    };
    let all = [
        RawDictionary::STCharacters,
        RawDictionary::STPhrases,
        RawDictionary::TSCharacters,
        RawDictionary::TSPhrases,
        RawDictionary::TWPhrasesIT,
        RawDictionary::TWPhrasesName,
        RawDictionary::TWPhrasesOther,
        RawDictionary::TWVariants,
        RawDictionary::TWVariantsRevPhrases,
        RawDictionary::HKVariants,
        RawDictionary::HKVariantsRevPhrases,
        RawDictionary::JPShinjitaiCharacters,
        RawDictionary::JPShinjitaiPhrases,
        RawDictionary::JPVariants,
    ];
    for (i, d) in all.iter().enumerate() {
        assert_eq!(d.text(&tables), format!("{}", i + 1));
    }
}

#[test]
fn dictionary_merges_its_tables_in_order() {
    let mut tables = Tables::default();
    tables.tw_phrases_it = String::from("軟件 軟體\n");
    tables.tw_phrases_name = String::from("北朝鮮 北韓\n");
    tables.tw_phrases_other = String::from("公交車 公車 公共汽車\n");
    assert_eq!(
        Dictionary::TWPhrases.iter(&tables),
        vec![pair("軟件", "軟體"), pair("北朝鮮", "北韓"), pair("公交車", "公車")]
    );
    assert_eq!(
        Dictionary::TWPhrasesRev.iter(&tables),
        vec![
            pair("軟體", "軟件"),
            pair("北韓", "北朝鮮"),
            pair("公車", "公交車"),
            pair("公共汽車", "公交車")
        ]
    );
}

#[test]
fn rev_dictionaries_read_their_table_backwards() {
    let mut tables = Tables::default();
    tables.tw_variants = String::from("裏 裡\n");
    tables.hk_variants = String::from("衛 衞\n");
    tables.jp_variants = String::from("兩 両\n");
    tables.tw_variants_rev_phrases = String::from("一口吃個 一口喫個\n");
    assert_eq!(Dictionary::TWVariants.iter(&tables), vec![pair("裏", "裡")]);
    assert_eq!(Dictionary::TWVariantsRev.iter(&tables), vec![pair("裡", "裏")]);
    assert_eq!(Dictionary::HKVariants.iter(&tables), vec![pair("衛", "衞")]);
    assert_eq!(Dictionary::HKVariantsRev.iter(&tables), vec![pair("衞", "衛")]);
    assert_eq!(Dictionary::JPVariants.iter(&tables), vec![pair("兩", "両")]);
    assert_eq!(Dictionary::JPVariantsRev.iter(&tables), vec![pair("両", "兩")]);
    assert_eq!(
        Dictionary::TWVariantsRevPhrases.iter(&tables),
        vec![pair("一口吃個", "一口喫個")]
    );
}
