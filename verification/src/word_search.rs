//! Formatting of a jisho.org word search answer.

use vstd::prelude::*;
use crate::json::{
    Json, json_get, arr, text, truth, all_str, texts, get, value_to_arr, value_to_str,
    value_to_bool,
};
use crate::options::Options;
use crate::strings::{
    decimal, join, replace_all, uppercase, push_char, pop_char, push_str, push_decimal,
    str_eq, replace_str, to_uppercase,
};

verus! {

// ---------------------------------------------------------------------------
// What the formatting writes, as functions of the answer
// ---------------------------------------------------------------------------

/// How one written form of a word is shown: `word[reading]`, the word alone,
/// or the query when the form has neither.
pub open spec fn form_text(query: Seq<char>, f: Json) -> Seq<char> {
    match json_get(f, "reading"@) {
        Some(r) => {
            let w = match json_get(f, "word"@) {
                Some(w) => w,
                None => r,
            };
            text(w) + "["@ + text(r) + "]"@
        },
        None => match json_get(f, "word"@) {
            Some(w) => text(w),
            None => query,
        },
    }
}

/// The members of a form that are shown are strings.
pub open spec fn form_ok(f: Json) -> bool {
    match json_get(f, "reading"@) {
        Some(r) => r is Str && (match json_get(f, "word"@) {
            Some(w) => w is Str,
            None => true,
        }),
        None => match json_get(f, "word"@) {
            Some(w) => w is Str,
            None => true,
        },
    }
}

/// The "(common)" tag of a word.
pub open spec fn common_text(v: Json) -> Seq<char> {
    match json_get(v, "is_common"@) {
        Some(c) => if truth(c) {
            "\x1b[92m(common)\x1b[m"@
        } else {
            seq![]
        },
        None => seq![],
    }
}

/// The JLPT level tag of a word, from the first entry of its "jlpt" list.
pub open spec fn jlpt_text(v: Json) -> Seq<char> {
    match json_get(v, "jlpt"@) {
        Some(j) => if arr(j).len() > 0 {
            "\x1b[94m("@ + uppercase(replace_all(text(arr(j)[0]), "jlpt-"@, seq![])) + ")\x1b[m"@
        } else {
            seq![]
        },
        None => seq![],
    }
}

/// The tags shown after the main form of a word.
pub open spec fn result_tags_text(v: Json) -> Seq<char> {
    common_text(v) + jlpt_text(v)
}

/// The tag members of a word have the types that are read.
pub open spec fn result_tags_ok(v: Json) -> bool {
    &&& (json_get(v, "is_common"@) matches Some(c) ==> c is Bool)
    &&& (json_get(v, "jlpt"@) matches Some(j) ==> j is Array && (arr(j).len() > 0
        ==> arr(j)[0] is Str))
}

/// The short name of a sense tag.
pub open spec fn sense_tag(t: Seq<char>) -> Seq<char> {
    if t == "Usually written using kana alone"@ {
        "UK"@
    } else {
        t
    }
}

/// The short names of a list of sense tags.
pub open spec fn tag_names(ts: Seq<Json>) -> Seq<Seq<char>> {
    ts.map_values(|v: Json| sense_tag(text(v)))
}

/// The tags of a sense, by their short names, and whether any was shown.
pub open spec fn sense_tags(s: Json) -> (Seq<char>, bool) {
    match json_get(s, "tags"@) {
        Some(t) => if arr(t).len() == 0 {
            (seq![], false)
        } else {
            (" \x1b[90m"@ + join(tag_names(arr(t)), ", "@), true)
        },
        None => (seq![], false),
    }
}

/// The tags of a sense are strings.
pub open spec fn sense_tags_ok(s: Json) -> bool {
    json_get(s, "tags"@) matches Some(t) ==> t is Array && all_str(arr(t))
}

/// The extra information of a sense (its first two entries are shown);
/// `tagged` tells whether tags were shown before it.
pub open spec fn sense_info(s: Json, tagged: bool) -> Seq<char> {
    match json_get(s, "info"@) {
        Some(a) => (if arr(a).len() > 0 {
            (if tagged {
                ","@
            } else {
                seq![]
            }) + " \x1b[90m"@ + text(arr(a)[0])
        } else {
            seq![]
        }) + (if arr(a).len() > 1 {
            ", "@ + text(arr(a)[1])
        } else {
            seq![]
        }),
        None => seq![],
    }
}

/// The information entries of a sense that are shown are strings.
pub open spec fn sense_info_ok(s: Json) -> bool {
    json_get(s, "info"@) matches Some(a) ==> a is Array && (arr(a).len() > 0 ==> arr(a)[0] is Str)
        && (arr(a).len() > 1 ==> arr(a)[1] is Str)
}

/// The parts of speech of a sense, joined by ", ".
pub open spec fn parts_text(p: Json) -> Seq<char> {
    join(texts(arr(p)), ", "@)
}

/// The parts-of-speech line of a sense after a sense whose parts of speech
/// were `prev`: what is written, what to compare the next sense with, and
/// whether the line was written.
pub open spec fn sense_head(s: Json, prev: Seq<char>) -> (Seq<char>, Seq<char>, bool) {
    match json_get(s, "parts_of_speech"@) {
        Some(p) => if parts_text(p).len() > 0 && parts_text(p) != prev {
            ("    \x1b[34m"@ + parts_text(p) + "\x1b[m\n"@, parts_text(p), true)
        } else {
            (seq![], prev, false)
        },
        None => (seq![], prev, false),
    }
}

/// The numbered definition line of a sense, with its tags and information.
pub open spec fn sense_body(s: Json, e: Json, index: nat) -> Seq<char> {
    "    \x1b[90m"@ + decimal(index) + ".\x1b[m "@ + join(texts(arr(e)), ", "@) + sense_tags(s).0
        + sense_info(s, sense_tags(s).1) + "\n"@
}

/// One sense of a word, numbered `index`, after a sense whose parts of speech
/// were `prev`: what is written, the parts of speech to compare the next
/// sense with, and whether a parts-of-speech line was written.
pub open spec fn sense_step(s: Json, index: nat, prev: Seq<char>) -> (Seq<char>, Seq<char>, bool) {
    match json_get(s, "english_definitions"@) {
        None => (seq![], prev, false),
        Some(e) => (sense_head(s, prev).0 + sense_body(s, e, index), sense_head(s, prev).1, sense_head(s, prev).2),
    }
}

/// The members of a sense that are read have the types they are read as.
pub open spec fn sense_ok(s: Json) -> bool {
    match json_get(s, "english_definitions"@) {
        None => true,
        Some(e) => {
            &&& e is Array
            &&& all_str(arr(e))
            &&& (json_get(s, "parts_of_speech"@) matches Some(p) ==> p is Array && all_str(arr(p)))
            &&& sense_tags_ok(s)
            &&& sense_info_ok(s)
        },
    }
}

/// The first `n` senses of a word: what is written, the last parts of speech
/// shown, and how many parts-of-speech lines were written.
pub open spec fn senses_fold(ss: Seq<Json>, n: nat) -> (Seq<char>, Seq<char>, nat)
    decreases n,
{
    if n == 0 {
        (seq![], seq![], 0)
    } else {
        let before = senses_fold(ss, (n - 1) as nat);
        let step = sense_step(ss[n - 1], n, before.1);
        (before.0 + step.0, step.1, before.2 + if step.2 {
            1nat
        } else {
            0nat
        })
    }
}

/// The forms of a word from the third up to (not including) the `k`-th,
/// each after ", ".
pub open spec fn more_forms(query: Seq<char>, forms: Seq<Json>, k: nat) -> Seq<char>
    decreases k,
{
    if k <= 2 {
        seq![]
    } else {
        more_forms(query, forms, (k - 1) as nat) + ", "@ + form_text(query, forms[k - 1])
    }
}

/// The "Other forms" block of a word with forms `forms`.
pub open spec fn other_forms_text(query: Seq<char>, forms: Seq<Json>) -> Seq<char> {
    if forms.len() > 1 {
        "    \x1b[94mOther forms\x1b[m\n    "@ + form_text(query, forms[1]) + more_forms(
            query,
            forms,
            forms.len(),
        ) + "\n"@
    } else {
        seq![]
    }
}

/// What is written for one word of the answer (also where it is cut short).
pub open spec fn item_text(query: Seq<char>, v: Json) -> Seq<char> {
    match json_get(v, "japanese"@) {
        None => seq![],
        Some(j) => if arr(j).len() == 0 {
            seq![]
        } else {
            let head = form_text(query, arr(j)[0]) + result_tags_text(v) + "\n"@;
            match json_get(v, "senses"@) {
                None => head,
                Some(ss) => head + senses_fold(arr(ss), arr(ss).len()).0 + other_forms_text(
                    query,
                    arr(j),
                ) + "\x1b[m"@,
            }
        },
    }
}

/// How many lines one word takes, or `None` where the word lacks its forms or senses.
pub open spec fn item_lines(v: Json) -> Option<nat> {
    match json_get(v, "japanese"@) {
        None => None,
        Some(j) => if arr(j).len() == 0 {
            None
        } else {
            match json_get(v, "senses"@) {
                None => None,
                Some(ss) => Some(senses_fold(arr(ss), arr(ss).len()).2 + (if arr(j).len() > 1 {
                    2nat
                } else {
                    0nat
                }) + arr(ss).len() + 1),
            }
        },
    }
}

/// The members of a word that are read have the types they are read as.
pub open spec fn item_ok(v: Json) -> bool {
    match json_get(v, "japanese"@) {
        None => true,
        Some(j) => j is Array && (arr(j).len() > 0 ==> {
            &&& form_ok(arr(j)[0])
            &&& result_tags_ok(v)
            &&& (json_get(v, "senses"@) matches Some(ss) ==> {
                &&& ss is Array
                &&& forall|i: int| 0 <= i < arr(ss).len() ==> sense_ok(#[trigger] arr(ss)[i])
                &&& forall|k: int| 1 <= k < arr(j).len() ==> form_ok(#[trigger] arr(j)[k])
            })
        }),
    }
}

/// How many words of `entries` are shown under `limit` (0 shows all).
pub open spec fn shown(len: nat, limit: nat) -> nat {
    if limit == 0 || limit > len {
        len
    } else {
        limit
    }
}

/// What is written for the first `n` words, each followed by a line break.
pub open spec fn items_text(query: Seq<char>, entries: Seq<Json>, n: nat) -> Seq<char>
    decreases n,
{
    if n == 0 {
        seq![]
    } else {
        items_text(query, entries, (n - 1) as nat) + item_text(query, entries[n - 1]) + "\n"@
    }
}

/// The lines counted for the first `n` words: each word's lines, plus one.
pub open spec fn items_lines(entries: Seq<Json>, n: nat) -> nat
    decreases n,
{
    if n == 0 {
        0
    } else {
        items_lines(entries, (n - 1) as nat) + match item_lines(entries[n - 1]) {
            Some(l) => l,
            None => 0,
        } + 1
    }
}

/// `s` without its last character, if it has one.
pub open spec fn drop_last_char(s: Seq<char>) -> Seq<char> {
    if s.len() > 0 {
        s.drop_last()
    } else {
        s
    }
}

/// The words of an answer that are shown can be read without a type mismatch,
/// and the line count fits in a `usize`.
pub open spec fn word_search_ok(limit: nat, body: Json) -> bool {
    json_get(body, "data"@) matches Some(d) ==> {
        &&& d is Array
        &&& forall|i: int| 0 <= i < shown(arr(d).len(), limit) ==> item_ok(#[trigger] arr(d)[i])
        &&& items_lines(arr(d), shown(arr(d).len(), limit)) <= usize::MAX
    }
}

// ---------------------------------------------------------------------------
// The formatting
// ---------------------------------------------------------------------------

/// Appends the texts of `items`, joined by ", ".
fn push_joined(output: &mut String, items: &Vec<Json>)
    requires
        all_str(items@),
    ensures
        final(output)@ == old(output)@ + join(texts(items@), ", "@),
{
    let mut i: usize = 0;
    while i < items.len()
        invariant
            0 <= i <= items@.len(),
            all_str(items@),
            output@ == old(output)@ + join(texts(items@.take(i as int)), ", "@),
        decreases items.len() - i,
    {
        let ghost before = output@;
        assert(items@[i as int] is Str);
        if i > 0 {
            push_str(output, ", ");
        }
        push_str(output, value_to_str(&items[i]));
        assert(texts(items@.take(i + 1)).drop_last() =~= texts(items@.take(i as int)));
        assert(texts(items@.take(i + 1)).last() == text(items@[i as int]));
        if i == 0 {
            assert(texts(items@.take(1)) =~= seq![text(items@[0])]);
        }
        i = i + 1;
        assert(output@ =~= old(output)@ + join(texts(items@.take(i as int)), ", "@));
    }
    assert(items@.take(items@.len() as int) =~= items@);
}

/// The short name of a sense tag: "UK" for "Usually written using kana alone".
pub fn format_sense_tag(tag: &str) -> (r: &str)
    ensures
        r@ == sense_tag(tag@),
{
    if str_eq(tag, "Usually written using kana alone") {
        "UK"
    } else {
        tag
    }
}

/// Appends one written form of a word.
fn format_form(query: &str, form: &Json, output: &mut String) -> (r: Option<()>)
    requires
        form_ok(*form),
    ensures
        r is Some,
        final(output)@ == old(output)@ + form_text(query@, *form),
{
    if let Some(reading) = get(form, "reading") {
        let word = match get(form, "word") {
            Some(w) => w,
            None => reading,
        };
        push_str(output, value_to_str(word));
        push_char(output, '[');
        push_str(output, value_to_str(reading));
        push_char(output, ']');
        proof {
            reveal_strlit("[");
            reveal_strlit("]");
        }
        assert(output@ =~= old(output)@ + form_text(query@, *form));
    } else if let Some(word) = get(form, "word") {
        push_str(output, value_to_str(word));
    } else {
        push_str(output, query);
    }
    Some(())
}

/// Appends the tags of a whole word: "(common)" and its JLPT level.
fn format_result_tags(value: &Json, output: &mut String)
    requires
        result_tags_ok(*value),
    ensures
        final(output)@ == old(output)@ + result_tags_text(*value),
{
    let is_common_val = get(value, "is_common");
    if is_common_val.is_some() && value_to_bool(is_common_val.unwrap()) {
        push_str(output, "\x1b[92m(common)\x1b[m");
    }
    let ghost mid = output@;
    assert(mid == old(output)@ + common_text(*value));
    if let Some(jlpt) = get(value, "jlpt") {
        let jlpt = value_to_arr(jlpt);
        if jlpt.len() > 0 {
            proof {
                reveal_strlit("jlpt-");
            }
            let level = replace_str(value_to_str(&jlpt[0]), "jlpt-", "");
            let level = to_uppercase(level.as_str());
            push_str(output, "\x1b[94m(");
            push_str(output, level.as_str());
            push_str(output, ")\x1b[m");
            proof {
                reveal_strlit("");
                assert(""@ =~= Seq::<char>::empty());
            }
        }
    }
    assert(output@ =~= old(output)@ + result_tags_text(*value));
}

/// Appends the short names of `tags`, joined by ", ".
fn push_tag_names(output: &mut String, tags: &Vec<Json>)
    requires
        all_str(tags@),
    ensures
        final(output)@ == old(output)@ + join(tag_names(tags@), ", "@),
{
    let mut i: usize = 0;
    while i < tags.len()
        invariant
            0 <= i <= tags@.len(),
            all_str(tags@),
            output@ == old(output)@ + join(tag_names(tags@.take(i as int)), ", "@),
        decreases tags.len() - i,
    {
        assert(tags@[i as int] is Str);
        if i > 0 {
            push_str(output, ", ");
        }
        push_str(output, format_sense_tag(value_to_str(&tags[i])));
        assert(tag_names(tags@.take(i + 1)).drop_last() =~= tag_names(tags@.take(i as int)));
        assert(tag_names(tags@.take(i + 1)).last() == sense_tag(text(tags@[i as int])));
        if i == 0 {
            assert(tag_names(tags@.take(1)) =~= seq![sense_tag(text(tags@[0]))]);
        }
        i = i + 1;
        assert(output@ =~= old(output)@ + join(tag_names(tags@.take(i as int)), ", "@));
    }
    assert(tags@.take(tags@.len() as int) =~= tags@);
}

/// Appends the tags of one sense; returns whether any tag was written.
fn format_sense_tags(value: &Json, output: &mut String) -> (r: bool)
    requires
        sense_tags_ok(*value),
    ensures
        final(output)@ == old(output)@ + sense_tags(*value).0,
        r == sense_tags(*value).1,
{
    if let Some(tags) = get(value, "tags") {
        let tags = value_to_arr(tags);
        if tags.len() == 0 {
            return false;
        }
        push_str(output, " \x1b[90m");
        push_tag_names(output, tags);
        assert(output@ =~= old(output)@ + sense_tags(*value).0);
        return true;
    }
    false
}

/// Appends the extra information of one sense (its first two entries); `t`
/// tells whether tags were written.
fn format_sense_info(value: &Json, output: &mut String, t: bool)
    requires
        sense_info_ok(*value),
    ensures
        final(output)@ == old(output)@ + sense_info(*value, t),
{
    if let Some(all_info) = get(value, "info") {
        let all_info = value_to_arr(all_info);
        if all_info.len() > 0 {
            if t {
                push_char(output, ',');
            }
            push_str(output, " \x1b[90m");
            push_str(output, value_to_str(&all_info[0]));
        }
        if all_info.len() > 1 {
            push_str(output, ", ");
            push_str(output, value_to_str(&all_info[1]));
        }
        proof {
            reveal_strlit(",");
        }
        assert(output@ =~= old(output)@ + sense_info(*value, t));
    }
}

/// Appends the parts-of-speech line of a sense when its parts of speech are
/// new, and remembers them; returns whether the line was written.
fn format_parts_of_speech(value: &Json, output: &mut String, prev_parts_of_speech: &mut String) -> (r: bool)
    requires
        json_get(*value, "parts_of_speech"@) matches Some(p) ==> p is Array && all_str(arr(p)),
    ensures
        final(output)@ == old(output)@ + sense_head(*value, old(prev_parts_of_speech)@).0,
        final(prev_parts_of_speech)@ == sense_head(*value, old(prev_parts_of_speech)@).1,
        r == sense_head(*value, old(prev_parts_of_speech)@).2,
{
    if let Some(parts_of_speech) = get(value, "parts_of_speech") {
        let mut parts = String::new();
        push_joined(&mut parts, value_to_arr(parts_of_speech));
        assert(parts@ =~= parts_text(*parts_of_speech));
        if parts.as_str().unicode_len() > 0 && !(parts == *prev_parts_of_speech) {
            *prev_parts_of_speech = parts.clone();
            push_str(output, "    \x1b[34m");
            push_str(output, parts.as_str());
            push_str(output, "\x1b[m\n");
            assert(output@ =~= old(output)@ + sense_head(*value, old(prev_parts_of_speech)@).0);
            true
        } else {
            assert(output@ =~= old(output)@ + sense_head(*value, old(prev_parts_of_speech)@).0);
            false
        }
    } else {
        assert(output@ =~= old(output)@ + sense_head(*value, old(prev_parts_of_speech)@).0);
        false
    }
}

/// Appends the numbered definition line of a sense, with its tags and information.
fn format_sense_body(value: &Json, english: &Json, index: usize, output: &mut String)
    requires
        *english is Array,
        all_str(arr(*english)),
        sense_tags_ok(*value),
        sense_info_ok(*value),
    ensures
        final(output)@ == old(output)@ + sense_body(*value, *english, index as nat),
{
    push_str(output, "    \x1b[90m");
    push_decimal(output, index);
    push_str(output, ".\x1b[m ");
    push_joined(output, value_to_arr(english));
    let t = format_sense_tags(value, output);
    format_sense_info(value, output, t);
    push_char(output, '\n');
    proof {
        reveal_strlit("\n");
    }
    assert(output@ =~= old(output)@ + sense_body(*value, *english, index as nat));
}

/// Appends one sense of a word, numbered `index`. When its parts of speech
/// differ from `prev_parts_of_speech` (and are not empty) they are written on
/// a line of their own, and remembered; returns whether that happened.
fn format_sense(
    value: &Json,
    index: usize,
    output: &mut String,
    prev_parts_of_speech: &mut String,
) -> (r: bool)
    requires
        sense_ok(*value),
    ensures
        final(output)@ == old(output)@ + sense_step(*value, index as nat, old(
            prev_parts_of_speech,
        )@).0,
        final(prev_parts_of_speech)@ == sense_step(*value, index as nat, old(prev_parts_of_speech)@).1,
        r == sense_step(*value, index as nat, old(prev_parts_of_speech)@).2,
{
    let english_definitions = get(value, "english_definitions");
    if english_definitions.is_none() {
        assert(old(output)@ + Seq::<char>::empty() =~= old(output)@);
        return false;
    }
    let english = english_definitions.unwrap();

    let is_part_of_speech_new = format_parts_of_speech(value, output, prev_parts_of_speech);
    format_sense_body(value, english, index, output);
    is_part_of_speech_new
}

/// Appends one word of the answer: its main form and tags, its senses, its
/// other forms. Returns the lines it takes, or `None` (having written the main
/// form, or nothing) where it lacks its forms or senses.
fn print_item(query: &str, value: &Json, output: &mut String) -> (r: Option<usize>)
    requires
        item_ok(*value),
        item_lines(*value) matches Some(l) ==> l <= usize::MAX,
    ensures
        final(output)@ == old(output)@ + item_text(query@, *value),
        match item_lines(*value) {
            Some(l) => r == Some(l as usize),
            None => r is None,
        },
{
    let japanese = match get(value, "japanese") {
        Some(j) => value_to_arr(j),
        None => return None,
    };
    if japanese.len() == 0 {
        return None;
    }
    let main_form = &japanese[0];

    format_form(query, main_form, output);
    format_result_tags(value, output);
    push_char(output, '\n');
    proof {
        reveal_strlit("\n");
    }
    let ghost head = output@;
    assert(head =~= old(output)@ + form_text(query@, japanese@[0]) + result_tags_text(*value) + "\n"@);

    let senses = match get(value, "senses") {
        Some(ss) => value_to_arr(ss),
        None => return None,
    };
    proof {
        lemma_senses_fold_count_bounded(senses@, senses@.len());
    }
    let mut num_of_lines = format_senses(senses, output);
    if japanese.len() > 1 {
        num_of_lines = num_of_lines + 2;
    }
    format_other_forms(query, japanese, output);
    push_str(output, "\x1b[m");
    assert(output@ =~= old(output)@ + item_text(query@, *value));
    num_of_lines = num_of_lines + senses.len() + 1;
    Some(num_of_lines)
}

/// Formats the words of a jisho.org answer `body` into `output`: each shown
/// word (at most `options.limit` of them, all when it is 0) followed by a line
/// break, with the very last character written then taken off again.
/// Returns the lines written (less one), or `None` when the answer has no
/// "data" member, in which case nothing is written.
pub fn word_search(options: &Options, body: Json, query: &str, output: &mut String) -> (r: Option<
    usize,
>)
    requires
        word_search_ok(options.limit as nat, body),
    ensures
        match json_get(body, "data"@) {
            None => r is None && final(output)@ == old(output)@,
            Some(d) => {
                let n = shown(arr(d).len(), options.limit as nat);
                &&& final(output)@ == drop_last_char(old(output)@ + items_text(query@, arr(d), n))
                &&& r == Some(
                    (if items_lines(arr(d), n) > 0 {
                        items_lines(arr(d), n) - 1
                    } else {
                        0
                    }) as usize,
                )
            },
        },
{
    let mut lines_output: usize = 0;
    let data = match get(&body, "data") {
        Some(d) => d,
        None => return None,
    };
    let entries = value_to_arr(data);
    let ghost n = shown(entries@.len(), options.limit as nat);
    let ghost start = output@;
    let mut i: usize = 0;
    while i < entries.len() && !(i >= options.limit && options.limit != 0)
        invariant
            0 <= i <= n,
            n == shown(entries@.len(), options.limit as nat),
            n <= entries@.len(),
            forall|k: int| 0 <= k < n ==> item_ok(#[trigger] entries@[k]),
            items_lines(entries@, n) <= usize::MAX,
            output@ == start + items_text(query@, entries@, i as nat),
            lines_output == items_lines(entries@, i as nat),
        decreases entries.len() - i,
    {
        proof {
            lemma_items_lines_monotone(entries@, (i + 1) as nat, n);
        }
        if let Some(r) = print_item(query, &entries[i], output) {
            lines_output = lines_output + r;
        }
        push_char(output, '\n');
        lines_output = lines_output + 1;
        i = i + 1;
        proof {
            reveal_strlit("\n");
        }
        assert(output@ =~= start + items_text(query@, entries@, i as nat));
    }
    assert(i == n);
    pop_char(output);
    lines_output = if lines_output > 0 {
        lines_output - 1
    } else {
        0
    };
    Some(lines_output)
}

// ---------------------------------------------------------------------------
// Checking an answer before formatting it
// ---------------------------------------------------------------------------

/// Whether every one of `items` is a string.
fn all_strings(items: &Vec<Json>) -> (r: bool)
    ensures
        r == all_str(items@),
{
    let mut i: usize = 0;
    while i < items.len()
        invariant
            0 <= i <= items@.len(),
            forall|k: int| 0 <= k < i ==> #[trigger] items@[k] is Str,
        decreases items.len() - i,
    {
        if !matches!(items[i], Json::Str(_)) {
            return false;
        }
        i = i + 1;
    }
    true
}

/// Whether `v` is an array whose first (and, when `two`, second) element,
/// where present, is a string.
fn leading_strings(v: &Json, two: bool) -> (r: bool)
    ensures
        r == (*v is Array && (arr(*v).len() > 0 ==> arr(*v)[0] is Str) && (two && arr(*v).len() > 1
            ==> arr(*v)[1] is Str)),
{
    match v {
        Json::Array(a) => (a.len() == 0 || matches!(a[0], Json::Str(_))) && (!two || a.len() <= 1
            || matches!(a[1], Json::Str(_))),
        _ => false,
    }
}

/// Whether the members of a form that are shown are strings.
fn form_is_ok(f: &Json) -> (r: bool)
    ensures
        r == form_ok(*f),
{
    let word_ok = match get(f, "word") {
        Some(w) => matches!(w, Json::Str(_)),
        None => true,
    };
    match get(f, "reading") {
        Some(reading) => matches!(reading, Json::Str(_)) && word_ok,
        None => word_ok,
    }
}

/// Whether the tag members of a word have the types that are read.
fn result_tags_are_ok(v: &Json) -> (r: bool)
    ensures
        r == result_tags_ok(*v),
{
    let common_ok = match get(v, "is_common") {
        Some(c) => matches!(c, Json::Bool(_)),
        None => true,
    };
    let jlpt_ok = match get(v, "jlpt") {
        Some(j) => leading_strings(j, false),
        None => true,
    };
    common_ok && jlpt_ok
}

/// Whether the members of a sense that are read have the types they are read as.
fn sense_is_ok(s: &Json) -> (r: bool)
    ensures
        r == sense_ok(*s),
{
    let english = match get(s, "english_definitions") {
        Some(e) => e,
        None => return true,
    };
    let english_ok = match english {
        Json::Array(a) => all_strings(a),
        _ => false,
    };
    let parts_ok = match get(s, "parts_of_speech") {
        Some(Json::Array(p)) => all_strings(p),
        Some(_) => false,
        None => true,
    };
    let tags_ok = match get(s, "tags") {
        Some(Json::Array(t)) => all_strings(t),
        Some(_) => false,
        None => true,
    };
    let info_ok = match get(s, "info") {
        Some(a) => leading_strings(a, true),
        None => true,
    };
    english_ok && parts_ok && tags_ok && info_ok
}

/// Whether the members of a word that are read have the types they are read as.
fn item_is_ok(v: &Json) -> (r: bool)
    ensures
        r == item_ok(*v),
{
    let japanese = match get(v, "japanese") {
        Some(Json::Array(j)) => j,
        Some(_) => return false,
        None => return true,
    };
    if japanese.len() == 0 {
        return true;
    }
    if !form_is_ok(&japanese[0]) || !result_tags_are_ok(v) {
        return false;
    }
    let senses = match get(v, "senses") {
        Some(Json::Array(ss)) => ss,
        Some(_) => return false,
        None => return true,
    };
    let ghost whole = item_ok(*v);
    assert(whole <==> ((forall|k: int| 0 <= k < senses@.len() ==> sense_ok(#[trigger] senses@[k]))
        && (forall|m: int| 1 <= m < japanese@.len() ==> form_ok(#[trigger] japanese@[m]))));
    let mut i: usize = 0;
    while i < senses.len()
        invariant
            0 <= i <= senses@.len(),
            forall|k: int| 0 <= k < i ==> sense_ok(#[trigger] senses@[k]),
            whole == item_ok(*v),
            whole <==> ((forall|k: int| 0 <= k < senses@.len() ==> sense_ok(#[trigger] senses@[k]))
                && (forall|m: int| 1 <= m < japanese@.len() ==> form_ok(#[trigger] japanese@[m]))),
        decreases senses.len() - i,
    {
        if !sense_is_ok(&senses[i]) {
            assert(!sense_ok(senses@[i as int]));
            return false;
        }
        i = i + 1;
    }
    let mut k: usize = 1;
    while k < japanese.len()
        invariant
            1 <= k <= japanese@.len(),
            forall|m: int| 1 <= m < k ==> form_ok(#[trigger] japanese@[m]),
            forall|k: int| 0 <= k < senses@.len() ==> sense_ok(#[trigger] senses@[k]),
            whole == item_ok(*v),
            whole <==> ((forall|k: int| 0 <= k < senses@.len() ==> sense_ok(#[trigger] senses@[k]))
                && (forall|m: int| 1 <= m < japanese@.len() ==> form_ok(#[trigger] japanese@[m]))),
        decreases japanese.len() - k,
    {
        if !form_is_ok(&japanese[k]) {
            assert(!form_ok(japanese@[k as int]));
            return false;
        }
        k = k + 1;
    }
    true
}

/// The lines one word takes (see `item_lines`), counted wide.
fn count_item_lines(v: &Json) -> (r: Option<u128>)
    requires
        item_ok(*v),
    ensures
        match item_lines(*v) {
            Some(l) => l <= 3 * usize::MAX && r == Some(l as u128),
            None => r is None,
        },
{
    let japanese = match get(v, "japanese") {
        Some(j) => value_to_arr(j),
        None => return None,
    };
    if japanese.len() == 0 {
        return None;
    }
    let senses = match get(v, "senses") {
        Some(ss) => value_to_arr(ss),
        None => return None,
    };
    proof {
        lemma_senses_fold_count_bounded(senses@, senses@.len());
    }
    let mut scratch = String::new();
    let new_parts = format_senses(senses, &mut scratch);
    let other: u128 = if japanese.len() > 1 {
        2
    } else {
        0
    };
    Some(new_parts as u128 + other + senses.len() as u128 + 1)
}

/// Whether `word_search` can format `body` under `limit`: the words shown
/// have the types that are read, and the line count fits in a `usize`.
pub fn word_search_accepts(limit: usize, body: &Json) -> (r: bool)
    ensures
        r == word_search_ok(limit as nat, *body),
{
    let entries = match get(body, "data") {
        Some(Json::Array(d)) => d,
        Some(_) => return false,
        None => return true,
    };
    let ghost n = shown(entries@.len(), limit as nat);
    let ghost whole = word_search_ok(limit as nat, *body);
    assert(whole <==> ((forall|k: int| 0 <= k < n ==> item_ok(#[trigger] entries@[k]))
        && items_lines(entries@, n) <= usize::MAX));
    let mut total: u128 = 0;
    let mut i: usize = 0;
    while i < entries.len() && !(i >= limit && limit != 0)
        invariant
            whole == word_search_ok(limit as nat, *body),
            whole <==> ((forall|k: int| 0 <= k < n ==> item_ok(#[trigger] entries@[k]))
                && items_lines(entries@, n) <= usize::MAX),
            0 <= i <= n,
            n == shown(entries@.len(), limit as nat),
            n <= entries@.len(),
            forall|k: int| 0 <= k < i ==> item_ok(#[trigger] entries@[k]),
            total == items_lines(entries@, i as nat),
            total <= usize::MAX,
        decreases entries.len() - i,
    {
        if !item_is_ok(&entries[i]) {
            assert(!item_ok(entries@[i as int]));
            return false;
        }
        let lines: u128 = match count_item_lines(&entries[i]) {
            Some(l) => l,
            None => 0,
        };
        proof {
            lemma_items_lines_monotone(entries@, (i + 1) as nat, n);
        }
        assert(items_lines(entries@, (i + 1) as nat) == total + lines + 1);
        if lines + 1 > usize::MAX as u128 - total {
            return false;
        }
        total = total + lines + 1;
        i = i + 1;
    }
    true
}

/// Formatting the same sense a second time, right after the first, writes no
/// parts-of-speech line and keeps the remembered parts of speech: only its
/// numbered definition line is written.
pub proof fn lemma_parts_of_speech_not_repeated(s: Json, i: nat, j: nat, prev: Seq<char>)
    requires
        json_get(s, "english_definitions"@) is Some,
    ensures
        ({
            let first = sense_step(s, i, prev);
            let second = sense_step(s, j, first.1);
            &&& !second.2
            &&& second.1 == first.1
            &&& second.0 == sense_body(s, json_get(s, "english_definitions"@)->0, j)
        }),
{
    let first = sense_step(s, i, prev);
    assert(sense_head(s, first.1).0 =~= Seq::<char>::empty());
    assert(Seq::<char>::empty() + sense_body(s, json_get(s, "english_definitions"@)->0, j)
        =~= sense_body(s, json_get(s, "english_definitions"@)->0, j));
}

/// The "(common)" tag is written for a word exactly when its "is_common"
/// member is the boolean true: the tags of any other word are its JLPT tag alone.
pub proof fn lemma_common_only_when_true(v: Json)
    ensures
        json_get(v, "is_common"@) == Some(Json::Bool(true)) ==> result_tags_text(v)
            == "\x1b[92m(common)\x1b[m"@ + jlpt_text(v),
        json_get(v, "is_common"@) != Some(Json::Bool(true)) && result_tags_ok(v) ==> result_tags_text(v)
            == jlpt_text(v),
{
    assert(Seq::<char>::empty() + jlpt_text(v) =~= jlpt_text(v));
}

/// The limit on results bounds the words shown: with a limit of 0 every word
/// is shown, otherwise no more words than the limit, and all of them when
/// there are no more than that.
pub proof fn lemma_word_limit(len: nat, limit: nat)
    ensures
        shown(len, limit) <= len,
        limit == 0 ==> shown(len, limit) == len,
        limit != 0 ==> shown(len, limit) <= limit,
        limit != 0 && len <= limit ==> shown(len, limit) == len,
{
}

/// The line count of the first words grows with the number of words.
proof fn lemma_items_lines_monotone(entries: Seq<Json>, m: nat, n: nat)
    requires
        m <= n,
    ensures
        items_lines(entries, m) <= items_lines(entries, n),
    decreases n,
{
    if m < n {
        lemma_items_lines_monotone(entries, m, (n - 1) as nat);
    }
}

/// Appends the senses of a word, numbered from 1; returns how many
/// parts-of-speech lines were written.
fn format_senses(senses: &Vec<Json>, output: &mut String) -> (r: usize)
    requires
        forall|k: int| 0 <= k < senses@.len() ==> sense_ok(#[trigger] senses@[k]),
    ensures
        final(output)@ == old(output)@ + senses_fold(senses@, senses@.len()).0,
        r == senses_fold(senses@, senses@.len()).2,
{
    let ghost head = output@;
    let mut num_of_lines: usize = 0;
    let mut prev_parts_of_speech = String::new();
    let mut i: usize = 0;
    while i < senses.len()
        invariant
            0 <= i <= senses@.len(),
            forall|k: int| 0 <= k < senses@.len() ==> sense_ok(#[trigger] senses@[k]),
            output@ == head + senses_fold(senses@, i as nat).0,
            prev_parts_of_speech@ == senses_fold(senses@, i as nat).1,
            num_of_lines == senses_fold(senses@, i as nat).2,
        decreases senses.len() - i,
    {
        proof {
            lemma_senses_fold_count_bounded(senses@, i as nat);
        }
        let new_part_of_speech = format_sense(
            &senses[i],
            i + 1,
            output,
            &mut prev_parts_of_speech,
        );
        if new_part_of_speech {
            num_of_lines = num_of_lines + 1;
        }
        i = i + 1;
        assert(output@ =~= head + senses_fold(senses@, i as nat).0);
    }
    num_of_lines
}

/// Appends the "Other forms" block of a word, when it has more than one form.
fn format_other_forms(query: &str, japanese: &Vec<Json>, output: &mut String)
    requires
        forall|m: int| 1 <= m < japanese@.len() ==> form_ok(#[trigger] japanese@[m]),
    ensures
        final(output)@ == old(output)@ + other_forms_text(query@, japanese@),
{
    if japanese.len() > 1 {
        push_str(output, "    \x1b[94mOther forms\x1b[m\n    ");
        format_form(query, &japanese[1], output);
        let ghost start = output@;
        let mut k: usize = 2;
        while k < japanese.len()
            invariant
                2 <= k <= japanese@.len(),
                forall|m: int| 1 <= m < japanese@.len() ==> form_ok(#[trigger] japanese@[m]),
                output@ == start + more_forms(query@, japanese@, k as nat),
            decreases japanese.len() - k,
        {
            push_str(output, ", ");
            format_form(query, &japanese[k], output);
            k = k + 1;
            assert(output@ =~= start + more_forms(query@, japanese@, k as nat));
        }
        push_char(output, '\n');
        proof {
            reveal_strlit("\n");
        }
        assert(output@ =~= old(output)@ + other_forms_text(query@, japanese@));
    } else {
        assert(output@ =~= old(output)@ + other_forms_text(query@, japanese@));
    }
}

/// The count of parts-of-speech lines never exceeds the number of senses.
proof fn lemma_senses_fold_count_bounded(ss: Seq<Json>, n: nat)
    ensures
        senses_fold(ss, n).2 <= n,
    decreases n,
{
    if n > 0 {
        lemma_senses_fold_count_bounded(ss, (n - 1) as nat);
    }
}


} // verus!
