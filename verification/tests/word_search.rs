use ykdt::json::Json;
use ykdt::options::Options;
use ykdt::word_search::{format_sense_tag, word_search};

fn s(x: &str) -> Json {
    Json::Str(x.to_string())
}

fn arr(v: Vec<Json>) -> Json {
    Json::Array(v)
}

fn obj(fields: Vec<(&str, Json)>) -> Json {
    Json::Object(fields.into_iter().map(|(k, v)| (k.to_string(), v)).collect())
}

fn options(limit: usize) -> Options {
    Options { limit, query: String::new(), interactive: false }
}

fn cat_entry() -> Json {
    obj(vec![
        ("japanese", arr(vec![obj(vec![("word", s("猫")), ("reading", s("ねこ"))])])),
        ("is_common", Json::Bool(true)),
        ("jlpt", arr(vec![s("jlpt-n5")])),
        (
            "senses",
            arr(vec![obj(vec![
                ("english_definitions", arr(vec![s("cat")])),
                ("parts_of_speech", arr(vec![s("Noun")])),
                ("tags", arr(vec![s("Usually written using kana alone"), s("Abbreviation")])),
                ("info", arr(vec![s("note")])),
            ])]),
        ),
    ])
}

#[test]
fn format_sense_tag_shortens_kana_tag() {
    assert_eq!(format_sense_tag("Usually written using kana alone"), "UK");
    assert_eq!(format_sense_tag("Colloquialism"), "Colloquialism");
}

#[test]
fn word_search_formats_one_word() {
    let body = obj(vec![("data", arr(vec![cat_entry()]))]);
    let mut out = String::new();
    let r = word_search(&options(0), body, "neko", &mut out);
    assert_eq!(r, Some(3));
    assert_eq!(
        out,
        "猫[ねこ]\x1b[92m(common)\x1b[m\x1b[94m(N5)\x1b[m\n    \x1b[34mNoun\x1b[m\n    \x1b[90m1.\x1b[m cat \x1b[90mUK, Abbreviation, \x1b[90mnote\n\x1b[m"
    );
}

#[test]
fn word_search_without_data_writes_nothing() {
    let body = obj(vec![("meta", obj(vec![]))]);
    let mut out = String::from("kept");
    assert_eq!(word_search(&options(0), body, "x", &mut out), None);
    assert_eq!(out, "kept");
}

#[test]
fn word_search_empty_data_pops_previous_char() {
    let body = obj(vec![("data", arr(vec![]))]);
    let mut out = String::from("ab");
    assert_eq!(word_search(&options(0), body, "x", &mut out), Some(0));
    assert_eq!(out, "a");
}

#[test]
fn word_search_limit_bounds_words() {
    let body = obj(vec![("data", arr(vec![cat_entry(), cat_entry(), cat_entry()]))]);
    let mut one = String::new();
    assert_eq!(word_search(&options(1), body, "neko", &mut one), Some(3));
    let body = obj(vec![("data", arr(vec![cat_entry(), cat_entry(), cat_entry()]))]);
    let mut all = String::new();
    assert_eq!(word_search(&options(0), body, "neko", &mut all), Some(11));
    assert_eq!(all.matches("猫[ねこ]").count(), 3);
    assert_eq!(one.matches("猫[ねこ]").count(), 1);
}

#[test]
fn word_search_other_forms_and_query_fallback() {
    let entry = obj(vec![
        (
            "japanese",
            arr(vec![
                obj(vec![("reading", s("ねこ"))]),
                obj(vec![("word", s("猫"))]),
                obj(vec![]),
                obj(vec![("word", s("ネコ")), ("reading", s("ねこ"))]),
            ]),
        ),
        (
            "senses",
            arr(vec![
                obj(vec![
                    ("english_definitions", arr(vec![s("cat"), s("feline")])),
                    ("parts_of_speech", arr(vec![s("Noun")])),
                    ("tags", arr(vec![s("a"), s("b"), s("c")])),
                ]),
                obj(vec![
                    ("english_definitions", arr(vec![s("geisha")])),
                    ("parts_of_speech", arr(vec![s("Noun")])),
                    ("info", arr(vec![s("x"), s("y"), s("z")])),
                ]),
                obj(vec![("parts_of_speech", arr(vec![s("Verb")]))]),
            ]),
        ),
    ]);
    let body = obj(vec![("data", arr(vec![entry]))]);
    let mut out = String::new();
    let r = word_search(&options(0), body, "q", &mut out);
    // one parts-of-speech line, two other-forms lines, three senses, one more
    assert_eq!(r, Some(7));
    assert_eq!(
        out,
        "ねこ[ねこ]\n    \x1b[34mNoun\x1b[m\n    \x1b[90m1.\x1b[m cat, feline \x1b[90ma, b, c\n    \x1b[90m2.\x1b[m geisha \x1b[90mx, y\n    \x1b[94mOther forms\x1b[m\n    猫, q, ネコ[ねこ]\n\x1b[m"
    );
}

#[test]
fn word_search_item_without_senses_keeps_head() {
    let entry = obj(vec![("japanese", arr(vec![obj(vec![("word", s("犬"))])]))]);
    let body = obj(vec![("data", arr(vec![entry]))]);
    let mut out = String::new();
    assert_eq!(word_search(&options(0), body, "inu", &mut out), Some(0));
    assert_eq!(out, "犬\n");
}

#[test]
fn word_search_jlpt_is_upper_cased() {
    let entry = obj(vec![
        ("japanese", arr(vec![obj(vec![("word", s("木"))])])),
        ("jlpt", arr(vec![s("jlpt-n4"), s("jlpt-n5")])),
        ("senses", arr(vec![])),
    ]);
    let body = obj(vec![("data", arr(vec![entry]))]);
    let mut out = String::new();
    assert_eq!(word_search(&options(0), body, "ki", &mut out), Some(1));
    assert_eq!(out, "木\x1b[94m(N4)\x1b[m\n\x1b[m");
}
