use ykdt::json::{get, value_eq_str, Json};
use ykdt::kanji_search::{search_by_radical_accepts, RadicalEntry};
use ykdt::options::Options;
use ykdt::sentence_search::sentence_search_accepts;
use ykdt::strings::{replace_str, string_from_chars};
use ykdt::word_search::word_search_accepts;

fn s(x: &str) -> Json {
    Json::Str(x.to_string())
}

fn arr(v: Vec<Json>) -> Json {
    Json::Array(v)
}

fn obj(fields: Vec<(&str, Json)>) -> Json {
    Json::Object(fields.into_iter().map(|(k, v)| (k.to_string(), v)).collect())
}

#[test]
fn word_answers_with_mistyped_members_are_refused() {
    let good = obj(vec![("data", arr(vec![obj(vec![("japanese", arr(vec![obj(vec![("word", s("猫"))])]))])]))]);
    assert!(word_search_accepts(0, &good));
    let not_array = obj(vec![("data", s("x"))]);
    assert!(!word_search_accepts(0, &not_array));
    let bad_word = obj(vec![("data", arr(vec![obj(vec![("japanese", arr(vec![obj(vec![("word", Json::Bool(true))])]))])]))]);
    assert!(!word_search_accepts(0, &bad_word));
    let bad_common = obj(vec![(
        "data",
        arr(vec![obj(vec![("japanese", arr(vec![obj(vec![])])), ("is_common", s("yes"))])]),
    )]);
    assert!(!word_search_accepts(0, &bad_common));
    let bad_third_tag = obj(vec![(
        "data",
        arr(vec![obj(vec![
            ("japanese", arr(vec![obj(vec![])])),
            (
                "senses",
                arr(vec![obj(vec![
                    ("english_definitions", arr(vec![s("cat")])),
                    ("tags", arr(vec![s("a"), s("b"), Json::Null])),
                ])]),
            ),
        ])]),
    )]);
    assert!(!word_search_accepts(0, &bad_third_tag));
    // only the first two information entries of a sense are read
    let info = |entries: Vec<Json>| {
        obj(vec![(
            "data",
            arr(vec![obj(vec![
                ("japanese", arr(vec![obj(vec![])])),
                ("senses", arr(vec![obj(vec![("english_definitions", arr(vec![s("cat")])), ("info", arr(entries))])])),
            ])]),
        )])
    };
    assert!(word_search_accepts(0, &info(vec![s("x"), s("y"), Json::Null])));
    assert!(!word_search_accepts(0, &info(vec![s("x"), Json::Null])));
    // words past the limit are not read
    let second_bad = obj(vec![(
        "data",
        arr(vec![obj(vec![]), obj(vec![("japanese", s("x"))])]),
    )]);
    assert!(word_search_accepts(1, &second_bad));
    assert!(!word_search_accepts(2, &second_bad));
    assert!(word_search_accepts(0, &obj(vec![])));
}

#[test]
fn sentence_answers_with_mistyped_members_are_refused() {
    let entry = |text: Json| {
        obj(vec![
            ("lang", s("jpn")),
            ("text", text),
            ("translations", arr(vec![arr(vec![obj(vec![("text", s("cat"))])])])),
        ])
    };
    assert!(sentence_search_accepts(0, &obj(vec![("results", arr(vec![entry(s("猫"))]))])));
    assert!(!sentence_search_accepts(0, &obj(vec![("results", arr(vec![entry(Json::Null)]))])));
    assert!(!sentence_search_accepts(0, &obj(vec![("results", s("x"))])));
    // entries after the limit are not read
    assert!(!sentence_search_accepts(1, &obj(vec![("results", arr(vec![entry(Json::Null)]))])));
    assert!(sentence_search_accepts(
        1,
        &obj(vec![("results", arr(vec![entry(s("猫")), entry(Json::Null)]))])
    ));
    // a missing member ends the search before a later mistyped one is read
    let missing = obj(vec![("lang", s("jpn")), ("translations", arr(vec![arr(vec![obj(vec![])])]))]);
    assert!(sentence_search_accepts(0, &obj(vec![("results", arr(vec![missing, entry(Json::Null)]))])));
}

#[test]
fn radical_queries_that_would_fail_are_refused() {
    let radk = vec![RadicalEntry { glyph: "一".to_string(), strokes: 1, kanji: vec!["一".to_string()] }];
    let mut far: Vec<String> = (0..30).map(|_| String::new()).collect();
    far[29] = "一".to_string();
    for line in far.iter_mut().take(29) {
        *line = "x".to_string();
    }
    assert!(!search_by_radical_accepts(":一", &radk, &far));
    assert!(!search_by_radical_accepts(":", &radk, &far));
    assert!(search_by_radical_accepts(":*", &radk, &far));
    assert!(search_by_radical_accepts(":", &[], &far));
    let near = vec!["一".to_string()];
    assert!(search_by_radical_accepts(":一", &radk, &near));
}

#[test]
fn json_lookup_finds_the_first_member() {
    let v = obj(vec![("a", s("1")), ("b", s("2")), ("a", s("3"))]);
    assert!(value_eq_str(get(&v, "a").unwrap(), "1"));
    assert!(value_eq_str(get(&v, "b").unwrap(), "2"));
    assert!(get(&v, "c").is_none());
    assert!(get(&s("a"), "a").is_none());
    assert!(!value_eq_str(&Json::Number("1".to_string()), "1"));
}

#[test]
fn replace_str_replaces_left_to_right() {
    assert_eq!(replace_str("jlpt-n5", "jlpt-", ""), "n5");
    assert_eq!(replace_str("aaa", "aa", "b"), "ba");
    assert_eq!(replace_str("abc", "x", "y"), "abc");
    assert_eq!(replace_str("a-a-", "-", "+-"), "a+-a+-");
    assert_eq!(string_from_chars(&['猫', '!']), "猫!");
}

#[test]
fn default_options_show_everything_once() {
    let o = Options::default();
    assert_eq!(o.limit, 0);
    assert_eq!(o.query, "");
    assert!(!o.interactive);
}
