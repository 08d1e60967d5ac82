//! Formatting of a tatoeba.org sentence search answer.

use vstd::prelude::*;
use crate::json::{Json, json_get, arr, text, get, value_to_arr, value_to_str, value_eq_str};
use crate::options::Options;
use crate::strings::{decimal, push_str, push_decimal};

verus! {

/// How far formatting an answer got.
pub enum Progress {
    /// Still going.
    Going,
    /// The limit on results was reached.
    Stopped,
    /// A member that is needed is missing: the answer is refused.
    Missing,
    /// A member has a type it is not read as.
    Mistyped,
}

/// One numbered pair of sentences: `first` on top, `second` indented below it.
pub open spec fn pair_text(i: nat, first: Seq<char>, second: Seq<char>) -> Seq<char> {
    "\x1b[90m"@ + decimal(i) + ".\x1b[m "@ + first + "\n   "@ + second + "\n\n"@
}

/// The pair written for `translation` of `entry`, numbered `i`: the english
/// sentence goes below the japanese one. Members are read in the order the
/// pair is written.
pub open spec fn pair_of(entry: Json, translation: Json, i: nat) -> (Progress, Seq<char>) {
    match json_get(entry, "lang"@) {
        None => (Progress::Missing, seq![]),
        Some(lang) => {
            let (top, bottom) = if lang is Str && text(lang) == "eng"@ {
                (translation, entry)
            } else {
                (entry, translation)
            };
            match json_get(top, "text"@) {
                None => (Progress::Missing, seq![]),
                Some(a) => if !(a is Str) {
                    (Progress::Mistyped, seq![])
                } else {
                    match json_get(bottom, "text"@) {
                        None => (Progress::Missing, seq![]),
                        Some(b) => if !(b is Str) {
                            (Progress::Mistyped, seq![])
                        } else {
                            (Progress::Going, pair_text(i, text(a), text(b)))
                        },
                    }
                },
            }
        },
    }
}

/// The first `k` translations of `entry`, numbered from `first`: how far it
/// got, what was written and how many pairs.
pub open spec fn translations_fold(entry: Json, trs: Seq<Json>, k: nat, first: nat) -> (
    Progress,
    Seq<char>,
    nat,
)
    decreases k,
{
    if k == 0 {
        (Progress::Going, seq![], 0)
    } else {
        let before = translations_fold(entry, trs, (k - 1) as nat, first);
        if !(before.0 is Going) {
            before
        } else {
            let p = pair_of(entry, trs[k - 1], first + before.2);
            if !(p.0 is Going) {
                (p.0, before.1, before.2)
            } else {
                (Progress::Going, before.1 + p.1, before.2 + 1)
            }
        }
    }
}

/// The translations of an entry: the first list of its "translations" member.
pub open spec fn translations_of(entry: Json) -> Result<Seq<Json>, Progress> {
    match json_get(entry, "translations"@) {
        None => Err(Progress::Missing),
        Some(t) => if !(t is Array) {
            Err(Progress::Mistyped)
        } else if arr(t).len() == 0 {
            Err(Progress::Missing)
        } else if !(arr(t)[0] is Array) {
            Err(Progress::Mistyped)
        } else {
            Ok(arr(arr(t)[0]))
        },
    }
}

/// The first `n` entries of an answer under `limit`: how far it got, what was
/// written and how many pairs.
pub open spec fn entries_fold(entries: Seq<Json>, n: nat, limit: nat) -> (Progress, Seq<char>, nat)
    decreases n,
{
    if n == 0 {
        (Progress::Going, seq![], 0)
    } else {
        let before = entries_fold(entries, (n - 1) as nat, limit);
        if !(before.0 is Going) {
            before
        } else if before.2 >= limit && limit != 0 {
            (Progress::Stopped, before.1, before.2)
        } else {
            match translations_of(entries[n - 1]) {
                Err(p) => (p, before.1, before.2),
                Ok(trs) => {
                    let f = translations_fold(entries[n - 1], trs, trs.len(), before.2 + 1);
                    (f.0, before.1 + f.1, before.2 + f.2)
                },
            }
        }
    }
}

/// The whole answer `body` under `limit`, or `None` when it has no "results".
pub open spec fn sentences(body: Json, limit: nat) -> Option<(Progress, Seq<char>, nat)> {
    match json_get(body, "results"@) {
        None => None,
        Some(r) => Some(entries_fold(arr(r), arr(r).len(), limit)),
    }
}

/// The answer can be read without a type mismatch, and the line count fits.
pub open spec fn sentence_search_ok(limit: nat, body: Json) -> bool {
    json_get(body, "results"@) matches Some(r) ==> {
        let run = entries_fold(arr(r), arr(r).len(), limit);
        &&& r is Array
        &&& !(run.0 is Mistyped)
        &&& 3 * run.2 <= usize::MAX
    }
}

/// Appends one numbered pair of sentences.
fn write_pair(output: &mut String, i: usize, first: &str, second: &str)
    ensures
        final(output)@ == old(output)@ + pair_text(i as nat, first@, second@),
{
    push_str(output, "\x1b[90m");
    push_decimal(output, i);
    push_str(output, ".\x1b[m ");
    push_str(output, first);
    push_str(output, "\n   ");
    push_str(output, second);
    push_str(output, "\n\n");
    assert(output@ =~= old(output)@ + pair_text(i as nat, first@, second@));
}

/// Writes the pair for `translation` of `entry`, numbered `i`; `None` when a
/// text or the language is missing (nothing is written then).
fn format_pair(entry: &Json, translation: &Json, i: usize, output: &mut String) -> (r: Option<()>)
    requires
        !(pair_of(*entry, *translation, i as nat).0 is Mistyped),
    ensures
        pair_of(*entry, *translation, i as nat).0 is Going ==> r is Some && final(output)@ == old(
            output,
        )@ + pair_of(*entry, *translation, i as nat).1,
        pair_of(*entry, *translation, i as nat).0 is Missing ==> r is None && final(output)@ == old(
            output,
        )@,
{
    let lang = get(entry, "lang")?;
    if value_eq_str(lang, "eng") {
        let first = value_to_str(get(translation, "text")?);
        let second = value_to_str(get(entry, "text")?);
        write_pair(output, i, first, second);
    } else {
        let first = value_to_str(get(entry, "text")?);
        let second = value_to_str(get(translation, "text")?);
        write_pair(output, i, first, second);
    }
    Some(())
}

/// Formats the sentences of a tatoeba.org answer `body` into `output`: for
/// each entry, each of its translations gives a numbered pair, japanese on
/// top. Before each entry, once `options.limit` pairs are written (unless
/// it is 0), formatting stops. Returns the lines written (three per
/// pair), or `None` when a needed member is missing; what was written before
/// that stays written.
pub fn sentence_search(options: &Options, body: Json, output: &mut String) -> (r: Option<usize>)
    requires
        sentence_search_ok(options.limit as nat, body),
    ensures
        match sentences(body, options.limit as nat) {
            None => r is None && final(output)@ == old(output)@,
            Some(run) => {
                &&& final(output)@ == old(output)@ + run.1
                &&& (run.0 is Missing ==> r is None)
                &&& (!(run.0 is Missing) ==> r == Some((3 * run.2) as usize))
            },
        },
{
    let results = match get(&body, "results") {
        Some(x) => x,
        None => return None,
    };
    let entries = value_to_arr(results);
    let ghost limit = options.limit as nat;
    let ghost len = entries@.len();
    let ghost total = entries_fold(entries@, len, limit).2;
    let ghost start = output@;
    let mut lines: usize = 0;
    let mut i: usize = 1;
    let mut n: usize = 0;
    while n < entries.len() && !(i > options.limit && options.limit != 0)
        invariant
            0 <= n <= entries@.len(),
            len == entries@.len(),
            limit == options.limit,
            sentences(body, limit) == Some(entries_fold(entries@, len, limit)),
            start == old(output)@,
            total == entries_fold(entries@, len, limit).2,
            !(entries_fold(entries@, len, limit).0 is Mistyped),
            3 * total <= usize::MAX,
            entries_fold(entries@, n as nat, limit).0 is Going,
            output@ == start + entries_fold(entries@, n as nat, limit).1,
            i == entries_fold(entries@, n as nat, limit).2 + 1,
            lines == 3 * entries_fold(entries@, n as nat, limit).2,
        decreases entries.len() - n,
    {
        let entry = &entries[n];
        let ghost before = entries_fold(entries@, n as nat, limit);
        let ghost next = entries_fold(entries@, (n + 1) as nat, limit);
        proof {
            lemma_entries_monotone(entries@, (n + 1) as nat, len, limit);
            if !(next.0 is Going) {
                lemma_entries_settled(entries@, (n + 1) as nat, len, limit);
            }
        }
        let translations = match get(entry, "translations") {
            Some(t) => t,
            None => {
                assert(output@ =~= old(output)@ + next.1);
                return None;
            },
        };
        let translations = value_to_arr(translations);
        if translations.len() == 0 {
            assert(output@ =~= old(output)@ + next.1);
            return None;
        }
        let translations = value_to_arr(&translations[0]);
        let ghost trs = translations@;
        let ghost first = before.2 + 1;
        let ghost mid = output@;
        let mut k: usize = 0;
        while k < translations.len()
            invariant
                0 <= k <= trs.len(),
                trs == translations@,
                limit == options.limit,
                len == entries@.len(),
                sentences(body, limit) == Some(entries_fold(entries@, len, limit)),
                start == old(output)@,
                translations_of(*entry) == Ok::<Seq<Json>, Progress>(trs),
                entry == entries@[n as int],
                n < entries@.len(),
                before == entries_fold(entries@, n as nat, limit),
                before.0 is Going,
                !(before.2 >= limit && limit != 0),
                first == before.2 + 1,
                next == entries_fold(entries@, (n + 1) as nat, limit),
                !(next.0 is Going) ==> entries_fold(entries@, len, limit) == next,
                next.2 <= total,
                !(entries_fold(entries@, len, limit).0 is Mistyped),
                3 * total <= usize::MAX,
                translations_fold(*entry, trs, k as nat, first).0 is Going,
                output@ == mid + translations_fold(*entry, trs, k as nat, first).1,
                mid == start + before.1,
                i == first + translations_fold(*entry, trs, k as nat, first).2,
                lines == 3 * (before.2 + translations_fold(*entry, trs, k as nat, first).2),
            decreases translations.len() - k,
        {
            let ghost tf = translations_fold(*entry, trs, k as nat, first);
            let ghost tf2 = translations_fold(*entry, trs, (k + 1) as nat, first);
            proof {
                lemma_translations_monotone(*entry, trs, (k + 1) as nat, trs.len(), first);
                if !(tf2.0 is Going) {
                    lemma_translations_settled(*entry, trs, (k + 1) as nat, trs.len(), first);
                }
            }
            let ok = format_pair(entry, &translations[k], i, output);
            if ok.is_none() {
                assert(tf2 == (Progress::Missing, tf.1, tf.2));
                assert(next == (Progress::Missing, before.1 + tf.1, before.2 + tf.2));
                assert(output@ =~= old(output)@ + next.1);
                return None;
            }
            i = i + 1;
            lines = lines + 3;
            k = k + 1;
        }
        n = n + 1;
        assert(output@ =~= start + entries_fold(entries@, n as nat, limit).1);
    }
    proof {
        if n < len {
            lemma_entries_settled(entries@, (n + 1) as nat, len, limit);
        }
    }
    Some(lines)
}

/// How far writing the pair of `translation` of `entry` gets (the number of
/// the pair does not matter).
fn pair_progress(entry: &Json, translation: &Json) -> (r: Progress)
    ensures
        forall|i: nat| #[trigger] pair_of(*entry, *translation, i).0 == r,
{
    let lang = match get(entry, "lang") {
        Some(l) => l,
        None => return Progress::Missing,
    };
    let (top, bottom) = if value_eq_str(lang, "eng") {
        (translation, entry)
    } else {
        (entry, translation)
    };
    match get(top, "text") {
        None => Progress::Missing,
        Some(Json::Str(_)) => match get(bottom, "text") {
            None => Progress::Missing,
            Some(Json::Str(_)) => Progress::Going,
            Some(_) => Progress::Mistyped,
        },
        Some(_) => Progress::Mistyped,
    }
}

/// Whether `sentence_search` can format `body` under `limit`: the members it
/// reads have the types they are read as, and the line count fits in a `usize`.
pub fn sentence_search_accepts(limit: usize, body: &Json) -> (r: bool)
    ensures
        r == sentence_search_ok(limit as nat, *body),
{
    let entries = match get(body, "results") {
        Some(Json::Array(a)) => a,
        Some(_) => return false,
        None => return true,
    };
    let ghost lim = limit as nat;
    let ghost len = entries@.len();
    let ghost whole = sentence_search_ok(limit as nat, *body);
    assert(whole <==> (!(entries_fold(entries@, len, lim).0 is Mistyped) && 3 * entries_fold(
        entries@,
        len,
        lim,
    ).2 <= usize::MAX));
    let mut count: u128 = 0;
    let mut n: usize = 0;
    while n < entries.len() && !(count >= limit as u128 && limit != 0)
        invariant
            0 <= n <= entries@.len(),
            len == entries@.len(),
            lim == limit,
            whole == sentence_search_ok(limit as nat, *body),
            whole <==> (!(entries_fold(entries@, len, lim).0 is Mistyped) && 3 * entries_fold(
                entries@,
                len,
                lim,
            ).2 <= usize::MAX),
            entries_fold(entries@, n as nat, lim).0 is Going,
            count == entries_fold(entries@, n as nat, lim).2,
            3 * count <= usize::MAX,
        decreases entries.len() - n,
    {
        let entry = &entries[n];
        let ghost before = entries_fold(entries@, n as nat, lim);
        let ghost next = entries_fold(entries@, (n + 1) as nat, lim);
        proof {
            lemma_entries_monotone(entries@, (n + 1) as nat, len, lim);
            if !(next.0 is Going) {
                lemma_entries_settled(entries@, (n + 1) as nat, len, lim);
            }
        }
        let outer = match get(entry, "translations") {
            Some(Json::Array(t)) => t,
            Some(_) => return false,
            None => return 3 * count <= usize::MAX as u128,
        };
        if outer.len() == 0 {
            return 3 * count <= usize::MAX as u128;
        }
        let trs = match &outer[0] {
            Json::Array(t) => t,
            _ => return false,
        };
        let ghost first = before.2 + 1;
        let ghost start = count;
        assert(translations_of(*entry) == Ok::<Seq<Json>, Progress>(trs@));
        let mut k: usize = 0;
        while k < trs.len()
            invariant
                0 <= k <= trs@.len(),
                translations_of(*entry) == Ok::<Seq<Json>, Progress>(trs@),
                entry == entries@[n as int],
                n < entries@.len(),
                len == entries@.len(),
                lim == limit,
                whole <==> (!(entries_fold(entries@, len, lim).0 is Mistyped) && 3 * entries_fold(
                    entries@,
                    len,
                    lim,
                ).2 <= usize::MAX),
                whole == sentence_search_ok(limit as nat, *body),
                before == entries_fold(entries@, n as nat, lim),
                before.0 is Going,
                !(before.2 >= lim && lim != 0),
                first == before.2 + 1,
                next == entries_fold(entries@, (n + 1) as nat, lim),
                !(next.0 is Going) ==> entries_fold(entries@, len, lim) == next,
                next.2 <= entries_fold(entries@, len, lim).2,
                translations_fold(*entry, trs@, k as nat, first).0 is Going,
                count == before.2 + translations_fold(*entry, trs@, k as nat, first).2,
                3 * count <= usize::MAX,
            decreases trs.len() - k,
        {
            let ghost tf = translations_fold(*entry, trs@, k as nat, first);
            let ghost tf2 = translations_fold(*entry, trs@, (k + 1) as nat, first);
            proof {
                lemma_translations_monotone(*entry, trs@, (k + 1) as nat, trs@.len(), first);
                if !(tf2.0 is Going) {
                    lemma_translations_settled(*entry, trs@, (k + 1) as nat, trs@.len(), first);
                }
            }
            let p = pair_progress(entry, &trs[k]);
            assert(pair_of(*entry, trs@[k as int], first + tf.2).0 == p);
            match p {
                Progress::Going => {},
                Progress::Mistyped => return false,
                _ => return 3 * count <= usize::MAX as u128,
            }
            if 3 * (count + 1) > usize::MAX as u128 {
                return false;
            }
            count = count + 1;
            k = k + 1;
        }
        n = n + 1;
    }
    proof {
        if n < len {
            lemma_entries_settled(entries@, (n + 1) as nat, len, lim);
        }
    }
    true
}

/// The translations paired with an entry are the elements of the first list
/// of its "translations" member (the direct translations), never those of a
/// later list.
pub proof fn lemma_direct_translations_are_paired(entry: Json, t: Json)
    requires
        json_get(entry, "translations"@) == Some(t),
        t is Array,
        arr(t).len() > 0,
        arr(t)[0] is Array,
    ensures
        translations_of(entry) == Ok::<Seq<Json>, Progress>(arr(arr(t)[0])),
{
}

/// The first `k` translations of a well-formed entry are all paired, one pair each.
proof fn lemma_translations_all_paired(entry: Json, trs: Seq<Json>, k: nat, first: nat)
    requires
        k <= trs.len(),
        json_get(entry, "lang"@) is Some,
        json_get(entry, "text"@) matches Some(x) && x is Str,
        forall|i: int| 0 <= i < trs.len() ==> (json_get(#[trigger] trs[i], "text"@) matches Some(y) && y is Str),
    ensures
        translations_fold(entry, trs, k, first).0 is Going,
        translations_fold(entry, trs, k, first).2 == k,
    decreases k,
{
    if k > 0 {
        lemma_translations_all_paired(entry, trs, (k - 1) as nat, first);
        assert(json_get(trs[k - 1], "text"@) matches Some(y) && y is Str);
    }
}

/// An answer of one entry whose language and text are given, and whose direct
/// translations all have a text, writes one pair for each direct translation:
/// as many pairs as the first list of "translations" has, whatever later
/// lists hold.
pub proof fn lemma_one_pair_per_direct_translation(entry: Json, t: Json)
    requires
        json_get(entry, "translations"@) == Some(t),
        t is Array,
        arr(t).len() > 0,
        arr(t)[0] is Array,
        json_get(entry, "lang"@) is Some,
        json_get(entry, "text"@) matches Some(x) && x is Str,
        forall|i: int|
            0 <= i < arr(arr(t)[0]).len() ==> (json_get(#[trigger] arr(arr(t)[0])[i], "text"@) matches Some(
                y,
            ) && y is Str),
    ensures
        entries_fold(seq![entry], 1, 0).0 is Going,
        entries_fold(seq![entry], 1, 0).2 == arr(arr(t)[0]).len(),
{
    let trs = arr(arr(t)[0]);
    lemma_translations_all_paired(entry, trs, trs.len(), 1);
    let es = seq![entry];
    assert(es[0] == entry);
    assert(translations_of(entry) == Ok::<Seq<Json>, Progress>(trs));
    let before = entries_fold(es, 0, 0);
    assert(before.0 is Going && before.2 == 0);
    let f = translations_fold(entry, trs, trs.len(), 1);
    assert(entries_fold(es, 1, 0) == (f.0, before.1 + f.1, before.2 + f.2));
}

/// The limit on results stops a sentence search once that many pairs are
/// written: after that no more is written. (Within an entry all of its
/// translations are written, so the last entry begun can go past the limit.)
pub proof fn lemma_sentence_limit(entries: Seq<Json>, n: nat, m: nat, limit: nat)
    requires
        limit != 0,
        n <= m,
        entries_fold(entries, n, limit).2 >= limit,
    ensures
        entries_fold(entries, m, limit).1 == entries_fold(entries, n, limit).1,
        entries_fold(entries, m, limit).2 == entries_fold(entries, n, limit).2,
    decreases m,
{
    if n < m {
        lemma_sentence_limit(entries, n, (m - 1) as nat, limit);
    }
}

/// An entry adds pairs only when fewer pairs than the limit were written
/// before it.
pub proof fn lemma_entry_begun_below_limit(entries: Seq<Json>, n: nat, limit: nat)
    requires
        limit != 0,
        entries_fold(entries, n + 1, limit).2 > entries_fold(entries, n, limit).2,
    ensures
        entries_fold(entries, n, limit).2 < limit,
{
}

/// When every entry has at most one translation, no more pairs than the limit
/// are written.
pub proof fn lemma_single_translations_within_limit(entries: Seq<Json>, n: nat, limit: nat)
    requires
        limit != 0,
        forall|k: int| 0 <= k < n ==> (#[trigger] translations_of(entries[k]) matches Ok(t) ==> t.len() <= 1),
    ensures
        entries_fold(entries, n, limit).2 <= limit,
    decreases n,
{
    if n > 0 {
        lemma_single_translations_within_limit(entries, (n - 1) as nat, limit);
        let before = entries_fold(entries, (n - 1) as nat, limit);
        if before.0 is Going && !(before.2 >= limit) {
            match translations_of(entries[n - 1]) {
                Ok(trs) => {
                    lemma_translations_at_most(entries[n - 1], trs, trs.len(), before.2 + 1);
                },
                Err(_) => {},
            }
        }
    }
}

/// The pairs of `k` translations are at most `k`.
proof fn lemma_translations_at_most(entry: Json, trs: Seq<Json>, k: nat, first: nat)
    ensures
        translations_fold(entry, trs, k, first).2 <= k,
    decreases k,
{
    if k > 0 {
        lemma_translations_at_most(entry, trs, (k - 1) as nat, first);
    }
}

/// Once translations stop going, later ones change nothing.
proof fn lemma_translations_settled(entry: Json, trs: Seq<Json>, k: nat, m: nat, first: nat)
    requires
        k <= m,
        !(translations_fold(entry, trs, k, first).0 is Going),
    ensures
        translations_fold(entry, trs, m, first) == translations_fold(entry, trs, k, first),
    decreases m,
{
    if k < m {
        lemma_translations_settled(entry, trs, k, (m - 1) as nat, first);
    }
}

/// The pair count of translations grows with their number.
proof fn lemma_translations_monotone(entry: Json, trs: Seq<Json>, k: nat, m: nat, first: nat)
    requires
        k <= m,
    ensures
        translations_fold(entry, trs, k, first).2 <= translations_fold(entry, trs, m, first).2,
    decreases m,
{
    if k < m {
        lemma_translations_monotone(entry, trs, k, (m - 1) as nat, first);
    }
}

/// Once entries stop going, later ones change nothing.
proof fn lemma_entries_settled(entries: Seq<Json>, n: nat, m: nat, limit: nat)
    requires
        n <= m,
        !(entries_fold(entries, n, limit).0 is Going),
    ensures
        entries_fold(entries, m, limit) == entries_fold(entries, n, limit),
    decreases m,
{
    if n < m {
        lemma_entries_settled(entries, n, (m - 1) as nat, limit);
    }
}

/// The pair count of entries grows with their number.
proof fn lemma_entries_monotone(entries: Seq<Json>, n: nat, m: nat, limit: nat)
    requires
        n <= m,
    ensures
        entries_fold(entries, n, limit).2 <= entries_fold(entries, m, limit).2,
    decreases m,
{
    if n < m {
        lemma_entries_monotone(entries, n, (m - 1) as nat, limit);
    }
}

} // verus!
