use crowdin_bridge::export::{export, language_file, nhm_translations_to_crowdin, LanguageFile};
use crowdin_bridge::import::{crowdin_to_nhm_translations, CanonicalFile, ImportError};
use crowdin_bridge::json::{read_language_files, render_language_file};
use crowdin_bridge::key::{decode, digit_count, encode, KeyError};
use crowdin_bridge::languages::to_language;
use crowdin_bridge::model::{base_text, sort_by_base, CanonicalModel, TranslationFile};
use crowdin_bridge::paths::transform_default_args;

fn s(x: &str) -> String {
    x.to_string()
}

fn pairs(xs: &[(&str, &str)]) -> Vec<(String, String)> {
    xs.iter().map(|(a, b)| (s(a), s(b))).collect()
}

fn scenario_file() -> TranslationFile {
    TranslationFile {
        languages: pairs(&[("en", "English"), ("fr", "French")]),
        translations: vec![
            (s("World"), pairs(&[])),
            (s("Hello"), pairs(&[("fr", "Bonjour")])),
        ],
    }
}

fn file_of<'a>(files: &'a [LanguageFile], code: &str) -> &'a LanguageFile {
    files.iter().find(|f| f.code == code).expect("a file for the language")
}

fn translations_of<'a>(c: &'a CanonicalFile, sentence: &str) -> &'a Vec<(String, String)> {
    &c.translations.iter().find(|r| r.0 == sentence).expect("the sentence").1
}

#[test]
fn scenario_exports_two_files() {
    let files = nhm_translations_to_crowdin(scenario_file());
    assert_eq!(files.len(), 2);
    assert_eq!(file_of(&files, "en").pairs, pairs(&[("k_0", "Hello"), ("k_1", "World")]));
    assert_eq!(file_of(&files, "fr").pairs, pairs(&[("k_0", "Bonjour"), ("k_1", "")]));
}

#[test]
fn scenario_reverses_to_canonical() {
    let files = vec![
        LanguageFile { code: s("en"), pairs: pairs(&[("k_0", "Hello"), ("k_1", "World")]) },
        LanguageFile { code: s("fr"), pairs: pairs(&[("k_0", "Bonjour"), ("k_1", "")]) },
    ];
    let c = crowdin_to_nhm_translations(&files).expect("a base file is present");
    assert_eq!(
        c.translations,
        vec![(s("Hello"), pairs(&[("fr", "Bonjour")])), (s("World"), pairs(&[]))]
    );
    assert_eq!(c.languages, pairs(&[("en", "English"), ("fr", "French (Unofficial)")]));
}

#[test]
fn round_trip_keeps_sentences_and_translations() {
    let tf = TranslationFile {
        languages: pairs(&[("en", "English")]),
        translations: vec![
            (s("b"), pairs(&[("ru", "бэ"), ("es", "be")])),
            (s("a"), pairs(&[("es", "a es")])),
            (s("c"), pairs(&[("en", "c"), ("pl", "ce")])),
        ],
    };
    let files = nhm_translations_to_crowdin(tf);
    let c = crowdin_to_nhm_translations(&files).unwrap();
    assert_eq!(c.translations.len(), 3);
    let mut a = translations_of(&c, "a").clone();
    a.sort();
    assert_eq!(a, pairs(&[("es", "a es")]));
    let mut b = translations_of(&c, "b").clone();
    b.sort();
    assert_eq!(b, pairs(&[("es", "be"), ("ru", "бэ")]));
    assert_eq!(translations_of(&c, "c"), &pairs(&[("pl", "ce")]));
}

#[test]
fn keys_have_one_width_and_sort_as_indices() {
    let max = 123;
    let keys: Vec<String> = (0..=max).map(|i| encode(i, max).unwrap()).collect();
    assert!(keys.iter().all(|k| k.len() == 5));
    let mut sorted = keys.clone();
    sorted.sort();
    assert_eq!(sorted, keys);
    assert_eq!(keys[7], "k_007");
    assert_eq!(keys[123], "k_123");
}

#[test]
fn export_pads_keys_to_the_entry_count() {
    let entries: Vec<Vec<(String, String)>> =
        (0..11).map(|i| pairs(&[("en", &format!("s{:02}", i))])).collect();
    let model = CanonicalModel { languages: vec![s("en")], entries };
    let f = language_file(&model, &s("en"));
    assert_eq!(f.pairs.len(), 11);
    assert_eq!(f.pairs[0].0, "k_00");
    assert_eq!(f.pairs[10], (s("k_10"), s("s10")));
}

#[test]
fn absent_translation_is_empty_then_omitted() {
    let tf = TranslationFile {
        languages: pairs(&[]),
        translations: vec![(s("one"), pairs(&[("it", "uno")])), (s("two"), pairs(&[]))],
    };
    let files = nhm_translations_to_crowdin(tf);
    assert_eq!(file_of(&files, "it").pairs, pairs(&[("k_0", "uno"), ("k_1", "")]));
    let c = crowdin_to_nhm_translations(&files).unwrap();
    assert_eq!(translations_of(&c, "two"), &pairs(&[]));
    assert_eq!(translations_of(&c, "one"), &pairs(&[("it", "uno")]));
}

#[test]
fn export_twice_is_identical() {
    let model = scenario_file().consume();
    let first = export(&model);
    let second = export(&model);
    assert_eq!(first.len(), second.len());
    for (a, b) in first.iter().zip(second.iter()) {
        assert_eq!(a.code, b.code);
        assert_eq!(a.pairs, b.pairs);
    }
}

#[test]
fn equal_base_texts_keep_their_order() {
    let tf = TranslationFile {
        languages: pairs(&[]),
        translations: vec![
            (s("z"), pairs(&[("en", "same"), ("ro", "first")])),
            (s("a"), pairs(&[("en", "same"), ("ro", "second")])),
            (s("m"), pairs(&[("en", "earlier")])),
        ],
    };
    let model = tf.consume();
    let bases: Vec<String> = model.entries.iter().map(base_text).collect();
    assert_eq!(bases, vec![s("earlier"), s("same"), s("same")]);
    assert_eq!(model.entries[1][1].1, "first");
    assert_eq!(model.entries[2][1].1, "second");
}

#[test]
fn sort_orders_by_code_point() {
    let entries = vec![
        pairs(&[("en", "b")]),
        pairs(&[("en", "Z")]),
        pairs(&[("en", "é")]),
        pairs(&[("en", "ab")]),
        pairs(&[("en", "a")]),
    ];
    let sorted = sort_by_base(entries);
    let bases: Vec<String> = sorted.iter().map(base_text).collect();
    assert_eq!(bases, vec![s("Z"), s("a"), s("ab"), s("b"), s("é")]);
}

#[test]
fn base_text_is_filled_from_the_sentence() {
    let tf = TranslationFile {
        languages: pairs(&[("de", "Deutsch")]),
        translations: vec![(s("Hi"), pairs(&[("pt", "Oi")])), (s("key"), pairs(&[("en", "Shown")]))],
    };
    let model = tf.consume();
    assert_eq!(model.entries[0], pairs(&[("pt", "Oi"), ("en", "Hi")]));
    assert_eq!(model.entries[1], pairs(&[("en", "Shown")]));
    assert_eq!(model.languages, vec![s("en"), s("de"), s("pt")]);
}

#[test]
fn empty_model_gives_an_empty_base_file() {
    let tf = TranslationFile { languages: pairs(&[]), translations: vec![] };
    let files = nhm_translations_to_crowdin(tf);
    assert_eq!(files.len(), 1);
    assert_eq!(files[0].code, "en");
    assert!(files[0].pairs.is_empty());
}

#[test]
fn encode_rejects_index_above_max() {
    assert_eq!(encode(11, 10), Err(KeyError::IndexOutOfRange));
    assert_eq!(encode(0, 0), Ok(s("k_0")));
    assert_eq!(encode(3, 12), Ok(s("k_03")));
    assert_eq!(encode(9, 1000), Ok(s("k_0009")));
}

#[test]
fn decode_reads_keys_and_rejects_others() {
    assert_eq!(decode("k_07", 10), Ok(7));
    assert_eq!(decode("k_0", 0), Ok(0));
    assert_eq!(decode("k_99", 10), Err(KeyError::IndexOutOfRange));
    assert_eq!(decode("k_99999999999999999999999", usize::MAX), Err(KeyError::IndexOutOfRange));
    assert_eq!(decode("x_1", 10), Err(KeyError::Format));
    assert_eq!(decode("k_", 10), Err(KeyError::Format));
    assert_eq!(decode("k_1a", 10), Err(KeyError::Format));
    assert_eq!(decode("", 10), Err(KeyError::Format));
    assert_eq!(decode(&encode(42, 500).unwrap(), 500), Ok(42));
}

#[test]
fn digit_count_of_bounds() {
    assert_eq!(digit_count(0), 1);
    assert_eq!(digit_count(9), 1);
    assert_eq!(digit_count(10), 2);
    assert_eq!(digit_count(usize::MAX), usize::MAX.to_string().len());
}

#[test]
fn import_needs_a_base_file() {
    let files = vec![LanguageFile { code: s("fr"), pairs: pairs(&[("k_0", "Bonjour")]) }];
    assert!(matches!(crowdin_to_nhm_translations(&files), Err(ImportError::MissingBaseLanguage)));
    assert!(matches!(crowdin_to_nhm_translations(&vec![]), Err(ImportError::MissingBaseLanguage)));
}

#[test]
fn later_duplicate_sentence_replaces_earlier() {
    let files = vec![
        LanguageFile { code: s("bg"), pairs: pairs(&[("k_0", "едно"), ("k_1", "две")]) },
        LanguageFile { code: s("en"), pairs: pairs(&[("k_0", "same"), ("k_1", "same")]) },
    ];
    let c = crowdin_to_nhm_translations(&files).unwrap();
    assert_eq!(c.translations, vec![(s("same"), pairs(&[("bg", "две")]))]);
    assert_eq!(c.languages, pairs(&[("bg", "Български (Unofficial)"), ("en", "English")]));
}

#[test]
fn display_names_and_fallback() {
    assert_eq!(to_language("en"), "English");
    assert_eq!(to_language("ru"), "Русский (Unofficial)");
    assert_eq!(to_language("zh_cn"), "简体中文 (Unofficial)");
    assert_eq!(to_language("fr"), "French (Unofficial)");
    assert_eq!(to_language("xx"), "LANG_STUB");
    assert_eq!(to_language(""), "LANG_STUB");
}

#[test]
fn default_paths_swap_in_reverse_mode() {
    assert_eq!(
        transform_default_args(true, "translations.json", "crowdin"),
        (s("crowdin"), s("crowdin/translations.json"))
    );
    assert_eq!(
        transform_default_args(false, "translations.json", "crowdin"),
        (s("translations.json"), s("crowdin"))
    );
    assert_eq!(transform_default_args(true, "in.json", "crowdin"), (s("in.json"), s("crowdin")));
}

#[test]
fn language_file_renders_as_pretty_json() {
    let f = LanguageFile { code: s("fr"), pairs: pairs(&[("k_0", "Bonjour"), ("k_1", "")]) };
    let text = render_language_file(&f);
    assert_eq!(text, "{\n  \"k_0\": \"Bonjour\",\n  \"k_1\": \"\"\n}");
    let empty = LanguageFile { code: s("en"), pairs: vec![] };
    assert_eq!(render_language_file(&empty), "{}");
}

#[test]
fn language_files_are_read_in_key_order() {
    let inputs = vec![
        (s("en"), s("{\"k_1\": \"World\", \"k_0\": \"Hello\"}")),
        (s("fr"), s("{\"k_0\": \"Bonjour\", \"k_1\": \"\"}")),
    ];
    let files = read_language_files(&inputs).unwrap();
    assert_eq!(files.len(), 2);
    assert_eq!(files[0].code, "en");
    assert_eq!(files[0].pairs, pairs(&[("k_0", "Hello"), ("k_1", "World")]));
    assert_eq!(files[1].pairs, pairs(&[("k_0", "Bonjour"), ("k_1", "")]));
    let c = crowdin_to_nhm_translations(&files).unwrap();
    assert_eq!(c.translations, vec![(s("Hello"), pairs(&[("fr", "Bonjour")])), (s("World"), pairs(&[]))]);
}

#[test]
fn malformed_language_file_fails_the_read() {
    let inputs = vec![
        (s("en"), s("{\"k_0\": \"Hello\"}")),
        (s("fr"), s("[\"not\", \"an object\"]")),
        (s("ru"), s("{")),
    ];
    assert!(matches!(read_language_files(&inputs), Err(ImportError::MalformedFile(1))));
}

#[test]
fn exported_texts_are_identical_twice() {
    let model = scenario_file().consume();
    let first: Vec<String> = export(&model).iter().map(|f| render_language_file(f)).collect();
    let second: Vec<String> = export(&model).iter().map(|f| render_language_file(f)).collect();
    assert_eq!(first, second);
    assert_eq!(first[0], "{\n  \"k_0\": \"Hello\",\n  \"k_1\": \"World\"\n}");
}

#[test]
fn greatest_key_of_a_sentence_wins_after_reading() {
    let inputs = vec![
        (s("bg"), s("{\"k_1\": \"две\", \"k_0\": \"едно\"}")),
        (s("en"), s("{\"k_1\": \"same\", \"k_0\": \"same\"}")),
    ];
    let files = read_language_files(&inputs).unwrap();
    let c = crowdin_to_nhm_translations(&files).unwrap();
    assert_eq!(c.translations, vec![(s("same"), pairs(&[("bg", "две")]))]);
}

#[test]
fn empty_or_missing_texts_are_omitted_on_import() {
    let files = vec![
        LanguageFile { code: s("en"), pairs: pairs(&[("k_0", "a"), ("k_1", "b"), ("k_2", "c")]) },
        LanguageFile { code: s("es"), pairs: pairs(&[("k_0", ""), ("k_2", "ce")]) },
    ];
    let c = crowdin_to_nhm_translations(&files).unwrap();
    assert_eq!(
        c.translations,
        vec![(s("a"), pairs(&[])), (s("b"), pairs(&[])), (s("c"), pairs(&[("es", "ce")]))]
    );
}
