use ykdt::json::Json;
use ykdt::options::Options;
use ykdt::sentence_search::sentence_search;

fn s(x: &str) -> Json {
    Json::Str(x.to_string())
}

fn arr(v: Vec<Json>) -> Json {
    Json::Array(v)
}

fn obj(fields: Vec<(&str, Json)>) -> Json {
    Json::Object(fields.into_iter().map(|(k, v)| (k.to_string(), v)).collect())
}

fn options(limit: usize) -> Options {
    Options { limit, query: String::new(), interactive: false }
}

fn entry(lang: &str, text: &str, translations: Vec<&str>) -> Json {
    obj(vec![
        ("lang", s(lang)),
        ("text", s(text)),
        (
            "translations",
            arr(vec![arr(translations.into_iter().map(|t| obj(vec![("text", s(t))])).collect())]),
        ),
    ])
}

#[test]
fn sentence_search_puts_japanese_on_top() {
    let body = obj(vec![(
        "results",
        arr(vec![entry("eng", "I am a cat.", vec!["吾輩は猫である。"]), entry("jpn", "猫です。", vec!["It is a cat."])]),
    )]);
    let mut out = String::new();
    assert_eq!(sentence_search(&options(0), body, &mut out), Some(6));
    assert_eq!(
        out,
        "\x1b[90m1.\x1b[m 吾輩は猫である。\n   I am a cat.\n\n\x1b[90m2.\x1b[m 猫です。\n   It is a cat.\n\n"
    );
}

#[test]
fn sentence_search_without_results_is_none() {
    let mut out = String::new();
    assert_eq!(sentence_search(&options(0), obj(vec![]), &mut out), None);
    assert_eq!(out, "");
}

#[test]
fn sentence_search_missing_text_keeps_earlier_pairs() {
    let broken = obj(vec![("lang", s("jpn")), ("translations", arr(vec![arr(vec![obj(vec![("text", s("x"))])])]))]);
    let body = obj(vec![("results", arr(vec![entry("jpn", "猫", vec!["cat"]), broken]))]);
    let mut out = String::new();
    assert_eq!(sentence_search(&options(0), body, &mut out), None);
    assert_eq!(out, "\x1b[90m1.\x1b[m 猫\n   cat\n\n");
}

#[test]
fn sentence_search_empty_translations_is_none() {
    let broken = obj(vec![("lang", s("jpn")), ("text", s("猫")), ("translations", arr(vec![]))]);
    let mut out = String::new();
    assert_eq!(sentence_search(&options(0), obj(vec![("results", arr(vec![broken]))]), &mut out), None);
}

#[test]
fn sentence_search_limit_one_shows_one_pair() {
    let body = obj(vec![("results", arr(vec![entry("jpn", "猫です。", vec!["It's a cat."])]))]);
    let mut out = String::new();
    assert_eq!(sentence_search(&options(1), body, &mut out), Some(3));
    assert_eq!(out, "\x1b[90m1.\x1b[m 猫です。\n   It's a cat.\n\n");
}

#[test]
fn sentence_search_limit_checked_between_entries() {
    // the limit is checked before each entry, on the pairs written so far
    let body = || {
        obj(vec![(
            "results",
            arr(vec![
                entry("jpn", "一", vec!["one", "uno", "eins"]),
                entry("jpn", "二", vec!["two"]),
                entry("jpn", "三", vec!["three"]),
            ]),
        )])
    };
    let mut out = String::new();
    assert_eq!(sentence_search(&options(1), body(), &mut out), Some(9));
    assert_eq!(out.matches("一").count(), 3);
    assert!(!out.contains("二"));
    let mut out = String::new();
    assert_eq!(sentence_search(&options(4), body(), &mut out), Some(12));
    assert!(out.contains("二"));
    assert!(!out.contains("三"));
    let mut out = String::new();
    assert_eq!(sentence_search(&options(0), body(), &mut out), Some(15));
}

#[test]
fn sentence_search_single_translations_stay_within_limit() {
    let body = obj(vec![(
        "results",
        arr(vec![entry("jpn", "一", vec!["one"]), entry("jpn", "二", vec!["two"]), entry("jpn", "三", vec!["three"])]),
    )]);
    let mut out = String::new();
    assert_eq!(sentence_search(&options(2), body, &mut out), Some(6));
    assert!(out.contains("二"));
    assert!(!out.contains("三"));
}
