//! What to do with a query: ask for one, quit, or which search to run.

use vstd::prelude::*;
use crate::options::Options;
use crate::input::{trim, trimmed};
use crate::strings::{chars_of, push_char, push_str, str_eq};

verus! {

/// The address of a jisho.org word search, before the query.
pub open spec fn jisho_url() -> Seq<char> {
    "https://jisho.org/api/v1/search/words?keyword="@
}

/// The address of a tatoeba.org search from english to japanese, before the query.
pub open spec fn tatoeba_eng_url() -> Seq<char> {
    "https://tatoeba.org/en/api_v0/search?from=eng&orphans=no&to=jpn&unapproved=no&query="@
}

/// The address of a tatoeba.org search from japanese to english, before the query.
pub open spec fn tatoeba_jpn_url() -> Seq<char> {
    "https://tatoeba.org/en/api_v0/search?from=jpn&orphans=no&to=eng&unapproved=no&query="@
}

/// A query that is only the prefix of a kanji or sentence search.
pub open spec fn is_bare_prefix(q: Seq<char>) -> bool {
    q == ":"@ || q == "："@ || q == "_"@ || q == "＿"@
}

/// The first character marks a kanji search by radicals.
pub open spec fn is_kanji_query(q: Seq<char>) -> bool {
    q.len() > 0 && (q[0] == ':' || q[0] == '：')
}

/// The first character marks a sentence search.
pub open spec fn is_sentence_query(q: Seq<char>) -> bool {
    q.len() > 0 && (q[0] == '_' || q[0] == '＿')
}

/// What to do with a query.
pub enum QueryStep {
    /// Ask for a query.
    Ask,
    /// Stop.
    Quit,
    /// Search kanji by the radicals of the query.
    Kanji,
    /// Search sentences at this address.
    Sentence(String),
    /// Search words at this address.
    Word(String),
}

/// The step for `query`. When `prompting`, an empty or bare-prefix query asks
/// for another one; otherwise a bare prefix quits. A query that starts with
/// ':' or '：' searches kanji; one that starts with '_' or '＿' searches
/// sentences for the rest of it, from english when its second character is
/// ASCII and from japanese otherwise; any other searches words.
pub open spec fn query_step(query: Seq<char>, prompting: bool) -> QueryStep {
    if prompting && (query.len() == 0 || is_bare_prefix(query)) {
        QueryStep::Ask
    } else if !prompting && is_bare_prefix(query) {
        QueryStep::Quit
    } else if is_kanji_query(query) {
        QueryStep::Kanji
    } else if is_sentence_query(query) {
        QueryStep::Sentence(arbitrary())
    } else {
        QueryStep::Word(arbitrary())
    }
}

/// The address a sentence query is searched at.
pub open spec fn sentence_url(query: Seq<char>) -> Seq<char> {
    (if (query[1] as u32) < 0x80 {
        tatoeba_eng_url()
    } else {
        tatoeba_jpn_url()
    }) + query.drop_first()
}

/// The direction of a sentence search depends on the character after the
/// prefix alone: from english when it is ASCII, from japanese otherwise, and
/// the same for either prefix; the rest of the query follows the address.
pub proof fn lemma_sentence_direction(rest: Seq<char>, a: char, b: char)
    requires
        rest.len() >= 1,
    ensures
        sentence_url(seq![a] + rest) == sentence_url(seq![b] + rest),
        (rest[0] as u32) < 0x80 ==> sentence_url(seq![a] + rest) == tatoeba_eng_url() + rest,
        (rest[0] as u32) >= 0x80 ==> sentence_url(seq![a] + rest) == tatoeba_jpn_url() + rest,
{
    assert((seq![a] + rest).drop_first() =~= rest);
    assert((seq![b] + rest).drop_first() =~= rest);
    assert((seq![a] + rest)[1] == rest[0]);
    assert((seq![b] + rest)[1] == rest[0]);
}

/// Whether `query` is only a search prefix.
pub fn bare_prefix(query: &str) -> (r: bool)
    ensures
        r == is_bare_prefix(query@),
{
    str_eq(query, ":") || str_eq(query, "：") || str_eq(query, "_") || str_eq(query, "＿")
}

/// What to do with `query` (see `query_step`); the addresses are those of
/// `jisho_url` followed by the query and of `sentence_url`.
pub fn next_step(query: &str, prompting: bool) -> (r: QueryStep)
    ensures
        match query_step(query@, prompting) {
            QueryStep::Sentence(_) => r matches QueryStep::Sentence(url) && url@ == sentence_url(
                query@,
            ),
            QueryStep::Word(_) => r matches QueryStep::Word(url) && url@ == jisho_url() + query@,
            other => r == other,
        },
{
    let cs = chars_of(query);
    let bare = bare_prefix(query);
    if prompting && (cs.len() == 0 || bare) {
        return QueryStep::Ask;
    }
    if !prompting && bare {
        return QueryStep::Quit;
    }
    if cs.len() > 0 && (cs[0] == ':' || cs[0] == '：') {
        return QueryStep::Kanji;
    }
    if cs.len() > 0 && (cs[0] == '_' || cs[0] == '＿') {
        proof {
            reveal_strlit("_");
            reveal_strlit("＿");
        }
        assert(!bare);
        if cs.len() == 1 {
            if cs[0] == '_' {
                assert(query@ =~= "_"@);
            } else {
                assert(query@ =~= "＿"@);
            }
        }
        assert(cs@.len() >= 2);
        let mut url = if (cs[1] as u32) < 0x80 {
            String::from_str(
                "https://tatoeba.org/en/api_v0/search?from=eng&orphans=no&to=jpn&unapproved=no&query=",
            )
        } else {
            String::from_str(
                "https://tatoeba.org/en/api_v0/search?from=jpn&orphans=no&to=eng&unapproved=no&query=",
            )
        };
        let ghost head = url@;
        let mut i: usize = 1;
        while i < cs.len()
            invariant
                1 <= i <= cs@.len(),
                url@ == head + cs@.subrange(1, i as int),
            decreases cs.len() - i,
        {
            push_char(&mut url, cs[i]);
            i = i + 1;
            assert(url@ =~= head + cs@.subrange(1, i as int));
        }
        assert(cs@.subrange(1, cs@.len() as int) =~= query@.drop_first());
        return QueryStep::Sentence(url);
    }
    let mut url = String::from_str("https://jisho.org/api/v1/search/words?keyword=");
    push_str(&mut url, query);
    QueryStep::Word(url)
}

/// Queries are asked for, again and again, when the command line says so or
/// gave no query.
pub open spec fn prompting(options: Options) -> bool {
    options.interactive || trimmed(options.query@).len() == 0
}

/// Whether queries are asked for (and the program goes on after a search).
pub fn prompts(options: &Options) -> (r: bool)
    ensures
        r == prompting(*options),
{
    if options.interactive {
        return true;
    }
    let t = trim(options.query.as_str());
    t.as_str().unicode_len() == 0
}

/// Whether output of `lines` lines goes through a pager on a terminal of
/// `term_size` rows (0 when the output is no terminal).
pub fn use_pager(lines: usize, term_size: usize) -> (r: bool)
    ensures
        r == (term_size != 0 && lines + 1 >= term_size),
{
    let limit = if term_size > 0 {
        term_size - 1
    } else {
        0
    };
    lines >= limit && term_size != 0
}

} // verus!
