use ykdt::kanji_search::{
    choose_radical, dialog_question, find_kanji, get_stroke_info, load_radicals, radicals_with_strokes,
    replace_char_at, search_by_radical, stroke_dialog_step, stroke_groups_text, DialogAction,
    RadicalEntry, RadicalSearch, StrokeDialog,
};

fn entry(glyph: &str, strokes: u8, kanji: &[&str]) -> RadicalEntry {
    RadicalEntry {
        glyph: glyph.to_string(),
        strokes,
        kanji: kanji.iter().map(|k| k.to_string()).collect(),
    }
}

fn radicals() -> Vec<RadicalEntry> {
    vec![
        entry("一", 1, &["右", "一", "本"]),
        entry("口", 3, &["右", "名", "品", "右"]),
        entry("夕", 3, &["名", "外"]),
        entry("木", 4, &["本", "林"]),
    ]
}

fn strokes() -> Vec<String> {
    vec!["一", "", "", "", "右", "名", "品 外", "林"].into_iter().map(String::from).collect()
}

fn found(text: RadicalSearch) -> String {
    match text {
        RadicalSearch::Found(t) => t,
        _ => panic!("no kanji found"),
    }
}

#[test]
fn radical_search_intersects_kanji_sets() {
    let out = found(search_by_radical(":口一", &radicals(), &strokes()));
    assert_eq!(out, "\x1b[90m05 -\x1b[m 右\n");
}

#[test]
fn radical_search_groups_by_strokes() {
    let out = found(search_by_radical(":口", &radicals(), &strokes()));
    assert_eq!(out, "\x1b[90m05 -\x1b[m 右\n\x1b[90m06 -\x1b[m 名\n\x1b[90m07 -\x1b[m 品\n");
}

#[test]
fn radical_search_skips_unknown_later_radicals() {
    let out = found(search_by_radical(":口X", &radicals(), &strokes()));
    assert_eq!(out, "\x1b[90m05 -\x1b[m 右\n\x1b[90m06 -\x1b[m 名\n\x1b[90m07 -\x1b[m 品\n");
}

#[test]
fn radical_search_unknown_first_radical_finds_nothing() {
    assert_eq!(found(search_by_radical(":X口", &radicals(), &strokes())), "");
}

#[test]
fn radical_search_reports_wildcards_and_missing_files() {
    assert!(matches!(search_by_radical(":口*", &radicals(), &strokes()), RadicalSearch::NeedsRadical(2)));
    assert!(matches!(search_by_radical(":＊", &radicals(), &strokes()), RadicalSearch::NeedsRadical(1)));
    assert!(matches!(search_by_radical(":口", &[], &strokes()), RadicalSearch::NoRadicals));
    assert!(matches!(search_by_radical(":口", &radicals(), &[]), RadicalSearch::NoStrokeInfo));
}

#[test]
fn find_kanji_lists_each_once_in_first_radical_order() {
    let q: Vec<char> = ":口夕".chars().collect();
    assert_eq!(find_kanji(&q, &radicals()), vec!["名".to_string()]);
    let q: Vec<char> = ":口".chars().collect();
    assert_eq!(find_kanji(&q, &radicals()), vec!["右".to_string(), "名".to_string(), "品".to_string()]);
}

#[test]
fn stroke_groups_ignore_unlisted_kanji() {
    let found = vec!["林".to_string(), "龍".to_string(), "一".to_string()];
    assert_eq!(stroke_groups_text(&found, &strokes()), "\x1b[90m01 -\x1b[m 一\n\x1b[90m08 -\x1b[m 林\n");
}

#[test]
fn choosing_a_radical_by_strokes() {
    let listing = radicals_with_strokes(&radicals(), 3);
    assert_eq!(listing.text, "1口 2夕 \n");
    assert_eq!(listing.candidates, vec!['口', '夕']);
    assert!(listing.complete);
    assert_eq!(choose_radical(&listing.candidates, 2), Some('夕'));
    assert_eq!(choose_radical(&listing.candidates, 0), None);
    assert_eq!(choose_radical(&listing.candidates, 3), None);
    let listing = radicals_with_strokes(&radicals(), 4);
    assert_eq!(listing.text, "1木 ");
    let listing = radicals_with_strokes(&radicals(), 2);
    assert_eq!(listing.text, "\n");
    assert!(listing.candidates.is_empty());
}

#[test]
fn listing_stops_at_an_empty_glyph() {
    let list = vec![entry("口", 3, &[]), entry("", 3, &[]), entry("夕", 3, &[])];
    let listing = radicals_with_strokes(&list, 3);
    assert_eq!(listing.text, "1口 2 ");
    assert_eq!(listing.candidates, vec!['口']);
    assert!(!listing.complete);
}

#[test]
fn choice_replaces_the_wildcard() {
    let q = replace_char_at(":口*", 2, '一').unwrap();
    assert_eq!(q, ":口一");
    assert_eq!(replace_char_at(":口", 2, '一'), None);
    let out = found(search_by_radical(&q, &radicals(), &strokes()));
    assert_eq!(out, "\x1b[90m05 -\x1b[m 右\n");
}

#[test]
fn stroke_info_splits_on_line_breaks() {
    let lines = get_stroke_info("一\n二 三\n");
    assert_eq!(lines, vec!["一".to_string(), "二 三".to_string(), String::new()]);
    assert_eq!(lines.join("\n"), "一\n二 三\n");
    assert_eq!(get_stroke_info(""), vec![String::new()]);
}

#[test]
fn radkfile_bytes_are_parsed() {
    // "$ 一 1" and the kanji line "一", in EUC-JP
    let bytes: &[u8] = &[0x24, 0x20, 0xB0, 0xEC, 0x20, 0x31, b'\n', 0xB0, 0xEC, b'\n'];
    let list = load_radicals(bytes);
    assert_eq!(list.len(), 1);
    assert_eq!(list[0].glyph, "一");
    assert_eq!(list[0].strokes, 1);
    assert_eq!(list[0].kanji, vec!["一".to_string()]);
    assert!(load_radicals(b"not a radkfile").is_empty());
}

#[test]
fn stroke_dialog_goes_from_strokes_to_choice() {
    let radk = radicals();
    assert_eq!(dialog_question(&StrokeDialog::Strokes), "How many strokes does your radical have? ");
    let (state, action) = stroke_dialog_step(StrokeDialog::Strokes, "x\n", &radk, ":口*", 2);
    assert!(matches!(state, StrokeDialog::Strokes));
    assert!(matches!(action, DialogAction::Complain(m) if m == "invalid digit found in string"));
    let (state, action) = stroke_dialog_step(StrokeDialog::Strokes, " 3\n", &radk, ":口*", 2);
    assert!(matches!(&action, DialogAction::Show(t) if t == "1口 2夕 \n"));
    assert!(matches!(&state, StrokeDialog::Choice(c) if *c == vec!['口', '夕']));
    assert_eq!(dialog_question(&state), "Choose the radical to use for your search: ");
    let (state, action) = stroke_dialog_step(state, "3\n", &radk, ":口*", 2);
    assert!(matches!(action, DialogAction::Complain(m) if m == "Couldn't parse input: number not in range"));
    let (_, action) = stroke_dialog_step(state, "1\n", &radk, ":口*", 2);
    match action {
        DialogAction::Chosen(q, c) => {
            assert_eq!(q, ":口口");
            assert_eq!(c, '口');
            // searching after the choice is searching with the chosen radical
            assert_eq!(found(search_by_radical(&q, &radk, &strokes())), found(search_by_radical(":口口", &radk, &strokes())));
            assert_eq!(found(search_by_radical(&q, &radk, &strokes())), "\x1b[90m05 -\x1b[m 右\n\x1b[90m06 -\x1b[m 名\n\x1b[90m07 -\x1b[m 品\n");
        }
        _ => panic!("no radical chosen"),
    }
}

#[test]
fn stroke_dialog_gives_up_on_an_empty_glyph() {
    let list = vec![entry("口", 3, &[]), entry("", 3, &[])];
    let (_, action) = stroke_dialog_step(StrokeDialog::Strokes, "3", &list, ":*", 1);
    assert!(matches!(action, DialogAction::GiveUp(t) if t == "1口 2 "));
    let (_, action) = stroke_dialog_step(StrokeDialog::Choice(vec!['口']), "1", &list, ":", 1);
    assert!(matches!(action, DialogAction::GiveUp(t) if t.is_empty()));
}
