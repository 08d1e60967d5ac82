use ykdt::options::Options;
use ykdt::query::{next_step, prompts, use_pager, QueryStep};

#[test]
fn bare_prefixes_ask_or_quit() {
    for q in ["", ":", "：", "_", "＿"] {
        assert!(matches!(next_step(q, true), QueryStep::Ask));
    }
    for q in [":", "：", "_", "＿"] {
        assert!(matches!(next_step(q, false), QueryStep::Quit));
    }
}

#[test]
fn queries_choose_their_search() {
    assert!(matches!(next_step(":口", false), QueryStep::Kanji));
    assert!(matches!(next_step("：口", true), QueryStep::Kanji));
    match next_step("_cat", false) {
        QueryStep::Sentence(url) => assert_eq!(
            url,
            "https://tatoeba.org/en/api_v0/search?from=eng&orphans=no&to=jpn&unapproved=no&query=cat"
        ),
        _ => panic!("not a sentence search"),
    }
    match next_step("＿猫", false) {
        QueryStep::Sentence(url) => assert_eq!(
            url,
            "https://tatoeba.org/en/api_v0/search?from=jpn&orphans=no&to=eng&unapproved=no&query=猫"
        ),
        _ => panic!("not a sentence search"),
    }
    match next_step("neko", true) {
        QueryStep::Word(url) => assert_eq!(url, "https://jisho.org/api/v1/search/words?keyword=neko"),
        _ => panic!("not a word search"),
    }
}

#[test]
fn prompting_follows_the_command_line() {
    let o = |q: &str, i: bool| Options { limit: 0, query: q.to_string(), interactive: i };
    assert!(prompts(&o("", false)));
    assert!(prompts(&o("  ", false)));
    assert!(prompts(&o("neko", true)));
    assert!(!prompts(&o("neko", false)));
}

#[test]
fn pager_when_output_fills_the_terminal() {
    assert!(use_pager(10, 11));
    assert!(use_pager(40, 11));
    assert!(!use_pager(9, 11));
    assert!(!use_pager(100, 0));
    assert!(use_pager(0, 1));
}
