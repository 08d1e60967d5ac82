//! Kanji search by radicals: which kanji hold all the radicals of a query,
//! grouped by their number of strokes; and the steps of choosing a radical
//! by its number of strokes.

use vstd::prelude::*;
use crate::input::{error_text, parse_unsigned_spec, trimmed, parse_stroke_count, parse_choice};
use crate::strings::{
    join, decimal, decimal_pad2, has_substring, push_char, push_str, push_decimal, push_decimal_pad2,
    contains_char, contains_str, chars_of, string_from_chars,
};

verus! {

/// A radical and the kanji that contain it.
pub struct RadicalEntry {
    /// The character that depicts the radical.
    pub glyph: String,
    /// How many strokes the radical is drawn with.
    pub strokes: u8,
    /// The kanji that contain the radical.
    pub kanji: Vec<String>,
}

/// The kanji of an entry, as character sequences.
pub open spec fn kanji_of(e: RadicalEntry) -> Seq<Seq<char>> {
    views(e.kanji@)
}

/// A query character that asks to choose the radical by its strokes.
pub open spec fn is_wildcard(c: char) -> bool {
    c == '*' || c == '＊'
}

/// The first entry of `radk` whose glyph contains `c`.
pub open spec fn entry_for(radk: Seq<RadicalEntry>, c: char) -> Option<int>
    decreases radk.len(),
{
    if radk.len() == 0 {
        None
    } else if radk[0].glyph@.contains(c) {
        Some(0)
    } else {
        match entry_for(radk.drop_first(), c) {
            Some(e) => Some(e + 1),
            None => None,
        }
    }
}

/// `k` is among the kanji of every radical found for the query characters
/// from the third on (characters whose radical is not found do not count).
pub open spec fn kept(q: Seq<char>, radk: Seq<RadicalEntry>, k: Seq<char>) -> bool {
    forall|p: int|
        2 <= p < q.len() ==> (#[trigger] entry_for(radk, q[p]) matches Some(e) ==> kanji_of(
            radk[e],
        ).contains(k))
}

/// The first `n` kanji of `base` that are kept, each once, in order.
pub open spec fn collect(q: Seq<char>, radk: Seq<RadicalEntry>, base: Seq<Seq<char>>, n: nat) -> Seq<
    Seq<char>,
>
    decreases n,
{
    if n == 0 {
        seq![]
    } else {
        let before = collect(q, radk, base, (n - 1) as nat);
        if kept(q, radk, base[n - 1]) && !before.contains(base[n - 1]) {
            before.push(base[n - 1])
        } else {
            before
        }
    }
}

/// The kanji of the radical found for the second query character (none when
/// it is not found).
pub open spec fn base_kanji(q: Seq<char>, radk: Seq<RadicalEntry>) -> Seq<Seq<char>> {
    match entry_for(radk, q[1]) {
        Some(e) => kanji_of(radk[e]),
        None => seq![],
    }
}

/// The kanji that a radical query finds: those of the radical of its second
/// character that are kanji of every other radical found, each once, in the
/// order the first radical lists them.
pub open spec fn found_kanji(q: Seq<char>, radk: Seq<RadicalEntry>) -> Seq<Seq<char>> {
    collect(q, radk, base_kanji(q, radk), base_kanji(q, radk).len())
}

/// The first line of `stroke_info` that contains `k`.
pub open spec fn stroke_line(stroke_info: Seq<Seq<char>>, k: Seq<char>) -> Option<int>
    decreases stroke_info.len(),
{
    if stroke_info.len() == 0 {
        None
    } else if has_substring(stroke_info[0], k) {
        Some(0)
    } else {
        match stroke_line(stroke_info.drop_first(), k) {
            Some(i) => Some(i + 1),
            None => None,
        }
    }
}

/// The kanji of `found` whose first stroke line is `g`, in order.
pub open spec fn group(found: Seq<Seq<char>>, stroke_info: Seq<Seq<char>>, g: int) -> Seq<Seq<char>> {
    found.filter(|k: Seq<char>| stroke_line(stroke_info, k) == Some(g))
}

/// Each of `ks` after a space.
pub open spec fn spaced(ks: Seq<Seq<char>>) -> Seq<char>
    decreases ks.len(),
{
    if ks.len() == 0 {
        seq![]
    } else {
        spaced(ks.drop_last()) + " "@ + ks.last()
    }
}

/// The line for the kanji `ks` drawn with `g + 1` strokes; nothing when there are none.
pub open spec fn group_line(ks: Seq<Seq<char>>, g: nat) -> Seq<char> {
    if ks.len() == 0 {
        seq![]
    } else {
        "\x1b[90m"@ + decimal_pad2(g + 1) + " -\x1b[m"@ + spaced(ks) + "\n"@
    }
}

/// The lines of the first `n` stroke groups.
pub open spec fn groups_text(found: Seq<Seq<char>>, stroke_info: Seq<Seq<char>>, n: nat) -> Seq<char>
    decreases n,
{
    if n == 0 {
        seq![]
    } else {
        groups_text(found, stroke_info, (n - 1) as nat) + group_line(
            group(found, stroke_info, n - 1),
            (n - 1) as nat,
        )
    }
}

/// How many stroke groups are shown (kanji of at most this many strokes).
pub open spec fn group_count() -> nat {
    29
}

/// The first wildcard of `q` at position `i` or later.
pub open spec fn wildcard_from(q: Seq<char>, i: nat) -> Option<int>
    decreases q.len() - i,
{
    if i >= q.len() {
        None
    } else if is_wildcard(q[i as int]) {
        Some(i as int)
    } else {
        wildcard_from(q, i + 1)
    }
}

/// What a radical query comes to.
pub enum RadicalSearch {
    /// The query character at this position is a wildcard: its radical has to
    /// be chosen by its strokes first.
    NeedsRadical(usize),
    /// The kanji found, one line per stroke count, ready to print.
    Found(String),
    /// No radicals were loaded.
    NoRadicals,
    /// No stroke information was loaded.
    NoStrokeInfo,
}

/// The kanji views of a sequence of strings.
pub open spec fn views(v: Seq<String>) -> Seq<Seq<char>> {
    v.map_values(|k: String| k@)
}

/// The entry found for `c` is one of `radk`, its glyph contains `c`, and no
/// glyph before it does.
pub proof fn lemma_entry_for(radk: Seq<RadicalEntry>, c: char)
    ensures
        entry_for(radk, c) matches Some(e) ==> 0 <= e < radk.len() && radk[e].glyph@.contains(c)
            && forall|j: int| 0 <= j < e ==> !(#[trigger] radk[j].glyph@).contains(c),
        entry_for(radk, c) is None ==> forall|j: int|
            0 <= j < radk.len() ==> !(#[trigger] radk[j].glyph@).contains(c),
    decreases radk.len(),
{
    if radk.len() > 0 {
        lemma_entry_for(radk.drop_first(), c);
        assert forall|j: int| 0 < j < radk.len() implies radk[j] == radk.drop_first()[j - 1] by {}
    }
}

/// The first entry whose glyph contains `c`.
pub fn find_entry(radk: &[RadicalEntry], c: char) -> (r: Option<usize>)
    ensures
        r matches Some(e) ==> entry_for(radk@, c) == Some(e as int) && e < radk@.len(),
        r is None ==> entry_for(radk@, c) is None,
{
    proof {
        lemma_entry_for(radk@, c);
    }
    let mut i: usize = 0;
    assert(radk@.skip(0) =~= radk@);
    while i < radk.len()
        invariant
            0 <= i <= radk@.len(),
            entry_for(radk@, c) == match entry_for(radk@.skip(i as int), c) {
                Some(e) => Some(e + i),
                None => None,
            },
        decreases radk.len() - i,
    {
        assert(radk@.skip(i as int).drop_first() =~= radk@.skip(i + 1));
        assert(radk@.skip(i as int)[0] == radk@[i as int]);
        if contains_char(radk[i].glyph.as_str(), c) {
            return Some(i);
        }
        i = i + 1;
    }
    None
}

/// Whether `k` is one of `list`.
pub fn contains_kanji(list: &Vec<String>, k: &str) -> (r: bool)
    ensures
        r == views(list@).contains(k@),
{
    let mut i: usize = 0;
    while i < list.len()
        invariant
            0 <= i <= list@.len(),
            forall|j: int| 0 <= j < i ==> list@[j]@ != k@,
        decreases list.len() - i,
    {
        if crate::strings::str_eq(list[i].as_str(), k) {
            assert(views(list@)[i as int] == k@);
            return true;
        }
        i = i + 1;
    }
    proof {
        if views(list@).contains(k@) {
            let j = choose|j: int| 0 <= j < views(list@).len() && views(list@)[j] == k@;
            assert(list@[j]@ == k@);
        }
    }
    false
}

/// Whether `k` is among the kanji of every radical found for the query
/// characters from the third on.
pub fn keeps(q: &Vec<char>, radk: &[RadicalEntry], k: &str) -> (r: bool)
    ensures
        r == kept(q@, radk@, k@),
{
    let mut p: usize = 2;
    while p < q.len()
        invariant
            2 <= p,
            q@.len() >= 2 ==> p <= q@.len(),
            forall|j: int|
                2 <= j < p ==> (#[trigger] entry_for(radk@, q@[j]) matches Some(e) ==> kanji_of(
                    radk@[e],
                ).contains(k@)),
        decreases q.len() - p,
    {
        if let Some(e) = find_entry(radk, q[p]) {
            if !contains_kanji(&radk[e].kanji, k) {
                assert(entry_for(radk@, q@[p as int]) == Some(e as int));
                assert(!kanji_of(radk@[e as int]).contains(k@));
                assert(!kept(q@, radk@, k@));
                return false;
            }
        }
        p = p + 1;
    }
    true
}

/// The kanji that the query `q` finds (see `found_kanji`).
pub fn find_kanji(q: &Vec<char>, radk: &[RadicalEntry]) -> (r: Vec<String>)
    requires
        q@.len() >= 2,
    ensures
        views(r@) == found_kanji(q@, radk@),
{
    let mut found: Vec<String> = Vec::new();
    let e = match find_entry(radk, q[1]) {
        Some(e) => e,
        None => {
            assert(views(found@) =~= found_kanji(q@, radk@));
            return found;
        },
    };
    let base = &radk[e].kanji;
    let ghost b = base_kanji(q@, radk@);
    assert(b == views(base@));
    let mut i: usize = 0;
    while i < base.len()
        invariant
            0 <= i <= base@.len(),
            b == views(base@),
            views(found@) == collect(q@, radk@, b, i as nat),
        decreases base.len() - i,
    {
        let k = base[i].as_str();
        if keeps(q, radk, k) && !contains_kanji(&found, k) {
            found.push(base[i].clone());
            assert(views(found@) =~= collect(q@, radk@, b, (i + 1) as nat));
        }
        i = i + 1;
    }
    found
}

/// The first line of `stroke_info` that contains `k`.
pub fn find_stroke_line(stroke_info: &[String], k: &str) -> (r: Option<usize>)
    ensures
        r matches Some(i) ==> stroke_line(views(stroke_info@), k@) == Some(i as int),
        r is None ==> stroke_line(views(stroke_info@), k@) is None,
{
    let ghost si = views(stroke_info@);
    let mut i: usize = 0;
    assert(si.skip(0) =~= si);
    while i < stroke_info.len()
        invariant
            0 <= i <= stroke_info@.len(),
            si == views(stroke_info@),
            stroke_line(si, k@) == match stroke_line(si.skip(i as int), k@) {
                Some(j) => Some(j + i),
                None => None,
            },
        decreases stroke_info.len() - i,
    {
        assert(si.skip(i as int).drop_first() =~= si.skip(i + 1));
        assert(si.skip(i as int)[0] == stroke_info@[i as int]@);
        if contains_str(stroke_info[i].as_str(), k) {
            return Some(i);
        }
        i = i + 1;
    }
    None
}

/// Appends each of `ks` after a space.
fn push_spaced(output: &mut String, ks: &Vec<String>)
    ensures
        final(output)@ == old(output)@ + spaced(views(ks@)),
{
    let mut i: usize = 0;
    while i < ks.len()
        invariant
            0 <= i <= ks@.len(),
            output@ == old(output)@ + spaced(views(ks@).take(i as int)),
        decreases ks.len() - i,
    {
        push_char(output, ' ');
        push_str(output, ks[i].as_str());
        assert(views(ks@).take(i + 1).drop_last() =~= views(ks@).take(i as int));
        i = i + 1;
        proof {
            reveal_strlit(" ");
        }
        assert(output@ =~= old(output)@ + spaced(views(ks@).take(i as int)));
    }
    assert(views(ks@).take(ks@.len() as int) =~= views(ks@));
}

/// The lines for `found` kanji grouped by the first line of `stroke_info`
/// that contains them: one line per stroke count that has kanji.
pub fn stroke_groups_text(found: &Vec<String>, stroke_info: &[String]) -> (r: String)
    requires
        forall|j: int| 0 <= j < found@.len() ==> (stroke_line(views(stroke_info@), #[trigger] found@[j]@)
            matches Some(g) ==> g < group_count()),
    ensures
        r@ == groups_text(views(found@), views(stroke_info@), group_count()),
{
    let ghost f = views(found@);
    let ghost si = views(stroke_info@);
    // the stroke line of each kanji; `None` for those no line contains
    let mut lines: Vec<Option<usize>> = Vec::new();
    let mut i: usize = 0;
    while i < found.len()
        invariant
            0 <= i <= found@.len(),
            lines@.len() == i,
            forall|j: int| 0 <= j < i ==> match #[trigger] lines@[j] {
                Some(x) => stroke_line(views(stroke_info@), found@[j]@) == Some(x as int),
                None => stroke_line(views(stroke_info@), found@[j]@) is None,
            },
        decreases found.len() - i,
    {
        lines.push(find_stroke_line(stroke_info, found[i].as_str()));
        i = i + 1;
    }
    let mut groups: Vec<Vec<String>> = Vec::new();
    let mut h: usize = 0;
    while h < 29
        invariant
            0 <= h <= 29,
            groups@.len() == h,
            f == views(found@),
            si == views(stroke_info@),
            lines@.len() == found@.len(),
            forall|j: int| 0 <= j < found@.len() ==> match #[trigger] lines@[j] {
                Some(x) => stroke_line(si, found@[j]@) == Some(x as int),
                None => stroke_line(si, found@[j]@) is None,
            },
            forall|x: int| 0 <= x < h ==> views(#[trigger] groups@[x]@) == group(f, si, x),
        decreases 29 - h,
    {
        let mut members: Vec<String> = Vec::new();
        let mut j: usize = 0;
        while j < found.len()
            invariant
                0 <= j <= found@.len(),
                0 <= h < 29,
                f == views(found@),
                lines@.len() == found@.len(),
                forall|m: int| 0 <= m < found@.len() ==> match #[trigger] lines@[m] {
                    Some(x) => stroke_line(si, found@[m]@) == Some(x as int),
                    None => stroke_line(si, found@[m]@) is None,
                },
                views(members@) == group(f.take(j as int), si, h as int),
            decreases found.len() - j,
        {
            assert(f.take(j + 1) =~= f.take(j as int).push(f[j as int]));
            proof {
                broadcast use Seq::lemma_filter_push;
            }
            assert(found@[j as int]@ == f[j as int]);
            if lines[j] == Some(h) {
                members.push(found[j].clone());
                assert(views(members@) =~= group(f.take(j as int), si, h as int).push(f[j as int]));
            } else {
                assert(lines@[j as int] matches Some(x) ==> x != h);
            }
            j = j + 1;
        }
        assert(f.take(found@.len() as int) =~= f);
        groups.push(members);
        h = h + 1;
    }
    let mut out = String::new();
    let mut h: usize = 0;
    while h < 29
        invariant
            0 <= h <= 29,
            groups@.len() == 29,
            f == views(found@),
            si == views(stroke_info@),
            forall|x: int| 0 <= x < 29 ==> views(#[trigger] groups@[x]@) == group(f, si, x),
            out@ == groups_text(f, si, h as nat),
        decreases 29 - h,
    {
        let members = &groups[h];
        if members.len() > 0 {
            push_str(&mut out, "\x1b[90m");
            push_decimal_pad2(&mut out, h + 1);
            push_str(&mut out, " -\x1b[m");
            push_spaced(&mut out, members);
            push_char(&mut out, '\n');
            proof {
                reveal_strlit("\n");
            }
        }
        h = h + 1;
        assert(out@ =~= groups_text(f, si, h as nat));
    }
    out
}

/// The first wildcard of `q` at position `from` or later.
pub fn find_wildcard(q: &Vec<char>, from: usize) -> (r: Option<usize>)
    ensures
        r matches Some(i) ==> wildcard_from(q@, from as nat) == Some(i as int),
        r is None ==> wildcard_from(q@, from as nat) is None,
    decreases q@.len() - from,
{
    if from >= q.len() {
        None
    } else if q[from] == '*' || q[from] == '＊' {
        Some(from)
    } else {
        find_wildcard(q, from + 1)
    }
}

/// The kanji that hold all the radicals of `query` (from its second character
/// on), one line per stroke count, as `found_kanji` and `groups_text` state.
/// A wildcard among those characters is reported first, for its radical to be
/// chosen by strokes; no radicals or no stroke information is reported too.
pub fn search_by_radical(query: &str, radk_list: &[RadicalEntry], stroke_info: &[String]) -> (r:
    RadicalSearch)
    requires
        radical_search_ok(query@, radk_list@, stroke_info@),
    ensures
        radk_list@.len() == 0 ==> r is NoRadicals,
        radk_list@.len() > 0 && stroke_info@.len() == 0 ==> r is NoStrokeInfo,
        radk_list@.len() > 0 && stroke_info@.len() > 0 ==> match wildcard_from(query@, 1) {
            Some(i) => r == RadicalSearch::NeedsRadical(i as usize),
            None => r matches RadicalSearch::Found(text) && text@ == groups_text(
                found_kanji(query@, radk_list@),
                views(stroke_info@),
                group_count(),
            ),
        },
{
    if radk_list.len() == 0 {
        return RadicalSearch::NoRadicals;
    }
    if stroke_info.len() == 0 {
        return RadicalSearch::NoStrokeInfo;
    }
    let q = chars_of(query);
    if let Some(i) = find_wildcard(&q, 1) {
        return RadicalSearch::NeedsRadical(i);
    }
    let found = find_kanji(&q, radk_list);
    assert forall|j: int| 0 <= j < found@.len() implies (stroke_line(
        views(stroke_info@),
        #[trigger] found@[j]@,
    ) matches Some(g) ==> g < group_count()) by {
        assert(views(found@)[j] == found@[j]@);
    }
    RadicalSearch::Found(stroke_groups_text(&found, stroke_info))
}

/// The requirement of `search_by_radical`: a query of at least two characters
/// when there is something to search, and no kanji found on a stroke line
/// past the groups shown.
pub open spec fn radical_search_ok(q: Seq<char>, radk: Seq<RadicalEntry>, stroke_info: Seq<String>) -> bool {
    &&& radk.len() > 0 && stroke_info.len() > 0 ==> q.len() >= 2
    &&& radk.len() > 0 && stroke_info.len() > 0 && wildcard_from(q, 1) is None ==> forall|j: int|
        0 <= j < found_kanji(q, radk).len() ==> (stroke_line(
            views(stroke_info),
            #[trigger] found_kanji(q, radk)[j],
        ) matches Some(g) ==> g < group_count())
}

/// Whether `search_by_radical` can take `query` with these radicals and strokes.
pub fn search_by_radical_accepts(query: &str, radk_list: &[RadicalEntry], stroke_info: &[String]) -> (r: bool)
    ensures
        r == radical_search_ok(query@, radk_list@, stroke_info@),
{
    if radk_list.len() == 0 || stroke_info.len() == 0 {
        return true;
    }
    let q = chars_of(query);
    if q.len() < 2 {
        return false;
    }
    if find_wildcard(&q, 1).is_some() {
        return true;
    }
    let found = find_kanji(&q, radk_list);
    let ghost f = views(found@);
    let mut j: usize = 0;
    while j < found.len()
        invariant
            0 <= j <= found@.len(),
            f == views(found@),
            f == found_kanji(query@, radk_list@),
            q@ == query@,
            radk_list@.len() > 0 && stroke_info@.len() > 0 && q@.len() >= 2,
            wildcard_from(query@, 1) is None,
            forall|m: int| 0 <= m < j ==> (stroke_line(views(stroke_info@), #[trigger] f[m]) matches Some(
                g,
            ) ==> g < group_count()),
        decreases found.len() - j,
    {
        match find_stroke_line(stroke_info, found[j].as_str()) {
            Some(line) => {
                if line >= 29 {
                    assert(stroke_line(views(stroke_info@), f[j as int]) == Some(line as int));
                    return false;
                }
            },
            None => {},
        }
        j = j + 1;
    }
    true
}

// ---------------------------------------------------------------------------
// Laws of the radical search
// ---------------------------------------------------------------------------

/// The kanji collected from the first `n` of `base`.
proof fn lemma_collect(q: Seq<char>, radk: Seq<RadicalEntry>, base: Seq<Seq<char>>, n: nat, k: Seq<char>)
    requires
        n <= base.len(),
    ensures
        collect(q, radk, base, n).contains(k) <==> (base.take(n as int).contains(k) && kept(q, radk, k)),
        collect(q, radk, base, n).no_duplicates(),
    decreases n,
{
    if n > 0 {
        lemma_collect(q, radk, base, (n - 1) as nat, k);
        lemma_collect(q, radk, base, (n - 1) as nat, base[n - 1]);
        let before = collect(q, radk, base, (n - 1) as nat);
        assert(base.take(n as int) =~= base.take(n - 1).push(base[n - 1]));
        let pushed = before.push(base[n - 1]);
        let prefix = base.take(n - 1);
        let longer = base.take(n as int);
        if kept(q, radk, base[n - 1]) && !before.contains(base[n - 1]) {
            assert(pushed.contains(k) <==> (before.contains(k) || k == base[n - 1])) by {
                if k == base[n - 1] {
                    assert(pushed[before.len() as int] == k);
                }
                if pushed.contains(k) && k != base[n - 1] {
                    let j = choose|j: int| 0 <= j < pushed.len() && pushed[j] == k;
                    assert(before[j] == k);
                }
                if before.contains(k) {
                    let j = choose|j: int| 0 <= j < before.len() && before[j] == k;
                    assert(pushed[j] == k);
                }
            }
        }
        if longer.contains(k) && k != base[n - 1] {
            let j = choose|j: int| 0 <= j < longer.len() && longer[j] == k;
            assert(prefix[j] == k);
        }
        if prefix.contains(k) {
            let j = choose|j: int| 0 <= j < prefix.len() && prefix[j] == k;
            assert(longer[j] == k);
        }
        if k == base[n - 1] {
            assert(base.take(n as int)[n - 1] == k);
        }
    }
}

/// A radical query finds exactly the kanji of its first radical that are also
/// kanji of every other radical found, each once: the intersection of the
/// kanji of the radicals of the query.
pub proof fn lemma_found_kanji_is_intersection(q: Seq<char>, radk: Seq<RadicalEntry>, k: Seq<char>)
    requires
        q.len() >= 2,
    ensures
        found_kanji(q, radk).contains(k) <==> (base_kanji(q, radk).contains(k) && kept(q, radk, k)),
        found_kanji(q, radk).no_duplicates(),
{
    let base = base_kanji(q, radk);
    lemma_collect(q, radk, base, base.len(), k);
    assert(base.take(base.len() as int) =~= base);
}

/// Every kanji found is a kanji of the radical found for the second query
/// character and of the radical found for each later query character (those
/// whose radical is not found aside), however long the query is.
pub proof fn lemma_found_kanji_have_every_radical(q: Seq<char>, radk: Seq<RadicalEntry>, k: Seq<char>, p: int)
    requires
        q.len() >= 2,
        found_kanji(q, radk).contains(k),
    ensures
        entry_for(radk, q[1]) matches Some(e) && kanji_of(radk[e]).contains(k),
        2 <= p < q.len() && entry_for(radk, q[p]) is Some ==> kanji_of(
            radk[entry_for(radk, q[p])->0],
        ).contains(k),
{
    lemma_found_kanji_is_intersection(q, radk, k);
    if 2 <= p < q.len() && entry_for(radk, q[p]) is Some {
        assert(entry_for(radk, q[p]) matches Some(e) ==> kanji_of(radk[e]).contains(k));
    }
}

/// A kanji of the radical found for the second query character that is also a
/// kanji of the radical found for each later query character is found.
pub proof fn lemma_kanji_with_every_radical_is_found(q: Seq<char>, radk: Seq<RadicalEntry>, k: Seq<char>)
    requires
        q.len() >= 2,
        entry_for(radk, q[1]) matches Some(e) && kanji_of(radk[e]).contains(k),
        forall|p: int|
            2 <= p < q.len() && (#[trigger] entry_for(radk, q[p])) is Some ==> kanji_of(
                radk[entry_for(radk, q[p])->0],
            ).contains(k),
    ensures
        found_kanji(q, radk).contains(k),
{
    lemma_found_kanji_is_intersection(q, radk, k);
    assert(kept(q, radk, k));
}

/// Each kanji found is shown in the group of the first stroke line that holds
/// it, and each group holds only found kanji of its stroke line.
pub proof fn lemma_groups_sort_by_strokes(
    found: Seq<Seq<char>>,
    stroke_info: Seq<Seq<char>>,
    g: int,
    k: Seq<char>,
)
    ensures
        found.contains(k) && stroke_line(stroke_info, k) == Some(g) ==> group(
            found,
            stroke_info,
            g,
        ).contains(k),
        group(found, stroke_info, g).contains(k) ==> found.contains(k) && stroke_line(
            stroke_info,
            k,
        ) == Some(g),
{
    broadcast use vstd::seq_lib::group_filter_ensures;

    let pred = |x: Seq<char>| stroke_line(stroke_info, x) == Some(g);
    if found.contains(k) && stroke_line(stroke_info, k) == Some(g) {
        let j = choose|j: int| 0 <= j < found.len() && found[j] == k;
        found.lemma_filter_contains(pred, j);
    }
    if group(found, stroke_info, g).contains(k) {
        let kept_ones = found.filter(pred);
        let j = choose|j: int| 0 <= j < kept_ones.len() && kept_ones[j] == k;
        found.lemma_filter_pred(pred, j);
        reveal(Seq::filter);
        lemma_filter_subset(found, pred, j);
    }
}

/// What a filter keeps comes from the filtered sequence.
proof fn lemma_filter_subset(s: Seq<Seq<char>>, pred: spec_fn(Seq<char>) -> bool, j: int)
    requires
        0 <= j < s.filter(pred).len(),
    ensures
        s.contains(s.filter(pred)[j]),
    decreases s.len(),
{
    reveal(Seq::filter);
    if s.len() > 0 {
        let sub = s.drop_last().filter(pred);
        if j < sub.len() {
            lemma_filter_subset(s.drop_last(), pred, j);
            let x = sub[j];
            let shorter = s.drop_last();
            let i = choose|i: int| 0 <= i < shorter.len() && shorter[i] == x;
            assert(s[i] == x);
        } else {
            assert(s.filter(pred)[j] == s.last());
            assert(s[s.len() - 1] == s.last());
        }
    }
}

/// Choosing a radical for the first wildcard (with a character that is no
/// wildcard) moves the first wildcard further on: repeated choices end.
pub proof fn lemma_choice_moves_wildcard(q: Seq<char>, i: int, c: char)
    requires
        wildcard_from(q, 1) == Some(i),
        !is_wildcard(c),
    ensures
        wildcard_from(q.update(i, c), 1) matches Some(j) ==> j > i,
{
    lemma_wildcard_from_update(q, 1, i, c);
}

/// Replacing the first wildcard at or after `from` by a non-wildcard.
proof fn lemma_wildcard_from_update(q: Seq<char>, from: nat, i: int, c: char)
    requires
        wildcard_from(q, from) == Some(i),
        !is_wildcard(c),
    ensures
        wildcard_from(q.update(i, c), from) matches Some(j) ==> j > i,
    decreases q.len() - from,
{
    if from < q.len() && !is_wildcard(q[from as int]) {
        lemma_wildcard_from_after(q, from + 1);
        lemma_wildcard_from_update(q, from + 1, i, c);
        assert(q.update(i, c)[from as int] == q[from as int]);
    } else if from < q.len() {
        assert(i == from);
        lemma_wildcard_from_after(q.update(i, c), from + 1);
    }
}

/// A wildcard found at or after `from` is at or after `from`.
proof fn lemma_wildcard_from_after(q: Seq<char>, from: nat)
    ensures
        wildcard_from(q, from) matches Some(j) ==> from <= j < q.len() && is_wildcard(q[j]),
    decreases q.len() - from,
{
    if from < q.len() && !is_wildcard(q[from as int]) {
        lemma_wildcard_from_after(q, from + 1);
    }
}

// ---------------------------------------------------------------------------
// Choosing a radical by its strokes
// ---------------------------------------------------------------------------

/// Where listing the radicals of a stroke count got to.
pub enum ListFlow {
    /// Still going through the radicals.
    Going,
    /// A radical with more strokes was reached: the list ends there.
    Ended,
    /// A radical of the count has an empty glyph.
    Failed,
}

/// The first `n` radicals of `radk` listed for `strokes`: the text shown,
/// the characters offered, and where the listing got to. Each radical of the
/// count is shown after its number (from 1); the first radical with more
/// strokes ends the list with a line break.
pub open spec fn listing(radk: Seq<RadicalEntry>, strokes: u8, n: nat) -> (Seq<char>, Seq<char>, ListFlow)
    decreases n,
{
    if n == 0 {
        (seq![], seq![], ListFlow::Going)
    } else {
        let before = listing(radk, strokes, (n - 1) as nat);
        let e = radk[n - 1];
        if !(before.2 is Going) {
            before
        } else if e.strokes == strokes {
            let shown = before.0 + decimal(before.1.len() + 1) + e.glyph@ + " "@;
            if e.glyph@.len() == 0 {
                (shown, before.1, ListFlow::Failed)
            } else {
                (shown, before.1.push(e.glyph@[0]), ListFlow::Going)
            }
        } else if e.strokes > strokes {
            (before.0 + "\n"@, before.1, ListFlow::Ended)
        } else {
            before
        }
    }
}

/// The radicals offered for a stroke count.
pub struct StrokeListing {
    /// What is shown: each radical after its number.
    pub text: String,
    /// The characters that the numbers choose, in order.
    pub candidates: Vec<char>,
    /// False when a radical of the count has an empty glyph: the choice is then abandoned.
    pub complete: bool,
}

/// Lists the radicals drawn with `strokes` strokes (the list is read in order
/// up to the first radical with more strokes).
pub fn radicals_with_strokes(radk_list: &[RadicalEntry], strokes: u8) -> (r: StrokeListing)
    ensures
        ({
            let l = listing(radk_list@, strokes, radk_list@.len());
            &&& r.text@ == l.0
            &&& r.candidates@ == l.1
            &&& r.complete == !(l.2 is Failed)
        }),
{
    let ghost n_all = radk_list@.len();
    let mut text = String::new();
    let mut candidates: Vec<char> = Vec::new();
    let mut i: usize = 0;
    while i < radk_list.len()
        invariant
            0 <= i <= radk_list@.len(),
            n_all == radk_list@.len(),
            listing(radk_list@, strokes, i as nat).2 is Going,
            text@ == listing(radk_list@, strokes, i as nat).0,
            candidates@ == listing(radk_list@, strokes, i as nat).1,
            candidates@.len() <= i,
        decreases radk_list.len() - i,
    {
        let e = &radk_list[i];
        if e.strokes == strokes {
            push_decimal(&mut text, candidates.len() + 1);
            push_str(&mut text, e.glyph.as_str());
            push_char(&mut text, ' ');
            proof {
                reveal_strlit(" ");
            }
            let glyph = chars_of(e.glyph.as_str());
            if glyph.len() == 0 {
                proof {
                    lemma_listing_settled(radk_list@, strokes, (i + 1) as nat, n_all);
                }
                assert(text@ =~= listing(radk_list@, strokes, (i + 1) as nat).0);
                return StrokeListing { text, candidates, complete: false };
            }
            candidates.push(glyph[0]);
        } else if e.strokes > strokes {
            push_char(&mut text, '\n');
            proof {
                reveal_strlit("\n");
                lemma_listing_settled(radk_list@, strokes, (i + 1) as nat, n_all);
            }
            assert(text@ =~= listing(radk_list@, strokes, (i + 1) as nat).0);
            return StrokeListing { text, candidates, complete: true };
        }
        i = i + 1;
        assert(text@ =~= listing(radk_list@, strokes, i as nat).0);
    }
    StrokeListing { text, candidates, complete: true }
}

/// Once a listing has ended or failed, later radicals change nothing.
proof fn lemma_listing_settled(radk: Seq<RadicalEntry>, strokes: u8, k: nat, m: nat)
    requires
        k <= m,
        !(listing(radk, strokes, k).2 is Going),
    ensures
        listing(radk, strokes, m) == listing(radk, strokes, k),
    decreases m,
{
    if k < m {
        lemma_listing_settled(radk, strokes, k, (m - 1) as nat);
    }
}

/// The radical that the number `choice` picks among `candidates` (numbered
/// from 1); `None` when the number is out of range.
pub fn choose_radical(candidates: &[char], choice: usize) -> (r: Option<char>)
    ensures
        1 <= choice <= candidates@.len() ==> r == Some(candidates@[choice - 1]),
        !(1 <= choice <= candidates@.len()) ==> r is None,
{
    if choice < 1 || choice > candidates.len() {
        None
    } else {
        Some(candidates[choice - 1])
    }
}

/// `query` with its character at position `n` replaced by `c`; `None` when
/// it has no such character.
pub fn replace_char_at(query: &str, n: usize, c: char) -> (r: Option<String>)
    ensures
        n < query@.len() ==> (r matches Some(s) && s@ == query@.update(n as int, c)),
        n >= query@.len() ==> r is None,
{
    let mut cs = chars_of(query);
    if n >= cs.len() {
        return None;
    }
    cs.set(n, c);
    Some(string_from_chars(&cs))
}

/// Where the choice of a radical by its strokes stands.
pub enum StrokeDialog {
    /// Asking for the number of strokes.
    Strokes,
    /// Asking which of these radicals (numbered from 1) to use.
    Choice(Vec<char>),
}

/// What to do once a line was typed in the choice of a radical.
pub enum DialogAction {
    /// Show this text on stdout, then ask the question of the next state.
    Show(String),
    /// Show this message on stderr, then ask the same question again.
    Complain(String),
    /// Show this text on stdout and give the choice up.
    GiveUp(String),
    /// The radical is chosen: the query with it in place, and the radical.
    Chosen(String, char),
}

/// The message for a choice that is not one of the radicals offered.
pub open spec fn out_of_range_text() -> Seq<char> {
    "Couldn't parse input: number not in range"@
}

/// The question asked in `state`.
pub fn dialog_question(state: &StrokeDialog) -> (r: &'static str)
    ensures
        *state is Strokes ==> r@ == "How many strokes does your radical have? "@,
        *state is Choice ==> r@ == "Choose the radical to use for your search: "@,
{
    match state {
        StrokeDialog::Strokes => "How many strokes does your radical have? ",
        StrokeDialog::Choice(_) => "Choose the radical to use for your search: ",
    }
}

/// The next step of the choice of a radical for the character at `position`
/// of `query`, from `state`, once `line` was typed. Asking for strokes: a
/// line that is no number is complained of; otherwise the radicals of that
/// stroke count are shown and offered, or the choice is given up when one of
/// them has an empty glyph. Asking for a radical: a line that is no number,
/// or a number that is not one of those offered, is complained of; otherwise
/// that radical replaces the character (the choice is given up when the query
/// has no character there).
pub fn stroke_dialog_step(
    state: StrokeDialog,
    line: &str,
    radk_list: &[RadicalEntry],
    query: &str,
    position: usize,
) -> (r: (StrokeDialog, DialogAction))
    ensures
        state is Strokes ==> match parse_unsigned_spec(trimmed(line@), 255) {
            Err(e) => r.0 is Strokes && (r.1 matches DialogAction::Complain(m) && m@ == error_text(e)),
            Ok(v) => {
                let l = listing(radk_list@, v as u8, radk_list@.len());
                &&& l.2 is Failed ==> (r.1 matches DialogAction::GiveUp(t) && t@ == l.0)
                &&& !(l.2 is Failed) ==> (r.0 matches StrokeDialog::Choice(c) && c@ == l.1)
                    && (r.1 matches DialogAction::Show(t) && t@ == l.0)
            },
        },
        state matches StrokeDialog::Choice(cands) ==> match parse_unsigned_spec(
            trimmed(line@),
            usize::MAX as nat,
        ) {
            Err(e) => r.0 == state && (r.1 matches DialogAction::Complain(m) && m@ == error_text(e)),
            Ok(n) => if !(1 <= n <= cands@.len()) {
                r.0 == state && (r.1 matches DialogAction::Complain(m) && m@ == out_of_range_text())
            } else if position < query@.len() {
                r.1 matches DialogAction::Chosen(q, c) && c == cands@[n - 1] && q@ == query@.update(
                    position as int,
                    c,
                )
            } else {
                r.1 matches DialogAction::GiveUp(t) && t@.len() == 0
            },
        },
{
    match state {
        StrokeDialog::Strokes => match parse_stroke_count(line) {
            Err(e) => (StrokeDialog::Strokes, DialogAction::Complain(String::from_str(e.message()))),
            Ok(strokes) => {
                let listing = radicals_with_strokes(radk_list, strokes);
                if listing.complete {
                    (StrokeDialog::Choice(listing.candidates), DialogAction::Show(listing.text))
                } else {
                    (StrokeDialog::Strokes, DialogAction::GiveUp(listing.text))
                }
            },
        },
        StrokeDialog::Choice(candidates) => match parse_choice(line) {
            Err(e) => (
                StrokeDialog::Choice(candidates),
                DialogAction::Complain(String::from_str(e.message())),
            ),
            Ok(choice) => match choose_radical(&candidates, choice) {
                None => (
                    StrokeDialog::Choice(candidates),
                    DialogAction::Complain(
                        String::from_str("Couldn't parse input: number not in range"),
                    ),
                ),
                Some(rad) => match replace_char_at(query, position, rad) {
                    Some(q) => (StrokeDialog::Choice(candidates), DialogAction::Chosen(q, rad)),
                    None => (StrokeDialog::Choice(candidates), DialogAction::GiveUp(String::new())),
                },
            },
        },
    }
}

/// A radical chosen by its strokes for the first wildcard of a query is put
/// in the wildcard's place, leaves the rest of the query as it was, is found
/// by the search among the radicals, and the next wildcard (if any) comes
/// later unless the radical's character is itself a wildcard: searching after
/// the choice is searching with that radical.
pub proof fn lemma_chosen_radical_is_searched(
    radk: Seq<RadicalEntry>,
    strokes: u8,
    choice: int,
    query: Seq<char>,
    position: int,
)
    requires
        1 <= choice <= listing(radk, strokes, radk.len()).1.len(),
        wildcard_from(query, 1) == Some(position),
    ensures
        ({
            let c = listing(radk, strokes, radk.len()).1[choice - 1];
            let q = query.update(position, c);
            &&& q[position] == c
            &&& forall|p: int| 0 <= p < query.len() && p != position ==> q[p] == query[p]
            &&& entry_for(radk, c) matches Some(e) && radk[e].glyph@.contains(c)
            &&& !is_wildcard(c) ==> (wildcard_from(q, 1) matches Some(j) ==> j > position)
        }),
{
    let c = listing(radk, strokes, radk.len()).1[choice - 1];
    lemma_wildcard_from_after(query, 1);
    lemma_listing_offers_count(radk, strokes, radk.len(), choice - 1);
    let e = choose|e: int|
        0 <= e < radk.len() && #[trigger] radk[e].strokes == strokes && radk[e].glyph@.len() > 0
            && radk[e].glyph@[0] == c;
    assert(radk[e].glyph@.contains(c)) by {
        assert(radk[e].glyph@[0] == c);
    }
    lemma_entry_for(radk, c);
    if !is_wildcard(c) {
        lemma_choice_moves_wildcard(query, position, c);
    }
}

// ---------------------------------------------------------------------------
// Loading the radicals and the stroke information
// ---------------------------------------------------------------------------

/// The lines of the first `n` characters of `s`: the finished lines, and the
/// line being read.
pub open spec fn lines_upto(s: Seq<char>, n: nat) -> (Seq<Seq<char>>, Seq<char>)
    decreases n,
{
    if n == 0 {
        (seq![], seq![])
    } else {
        let before = lines_upto(s, (n - 1) as nat);
        if s[n - 1] == '\n' {
            (before.0.push(before.1), seq![])
        } else {
            (before.0, before.1.push(s[n - 1]))
        }
    }
}

/// The pieces of `s` between line breaks, as `str::split('\n')` gives them
/// (an empty text gives one empty piece).
pub open spec fn split_lines(s: Seq<char>) -> Seq<Seq<char>> {
    lines_upto(s, s.len()).0.push(lines_upto(s, s.len()).1)
}

/// The stroke information file, one line per stroke count: the pieces of
/// `file` between line breaks.
pub fn get_stroke_info(file: &str) -> (r: Vec<String>)
    ensures
        views(r@) == split_lines(file@),
{
    let cs = chars_of(file);
    let mut lines: Vec<String> = Vec::new();
    let mut current: Vec<char> = Vec::new();
    let mut i: usize = 0;
    while i < cs.len()
        invariant
            0 <= i <= cs@.len(),
            cs@ == file@,
            views(lines@) == lines_upto(cs@, i as nat).0,
            current@ == lines_upto(cs@, i as nat).1,
        decreases cs.len() - i,
    {
        if cs[i] == '\n' {
            lines.push(string_from_chars(&current));
            current = Vec::new();
            assert(views(lines@) =~= lines_upto(cs@, (i + 1) as nat).0);
        } else {
            current.push(cs[i]);
        }
        i = i + 1;
    }
    lines.push(string_from_chars(&current));
    assert(views(lines@) =~= split_lines(file@));
    lines
}

/// The lines read so far, joined by line breaks, give back the text read so far.
proof fn lemma_lines_upto_rejoin(s: Seq<char>, n: nat)
    requires
        n <= s.len(),
    ensures
        join(lines_upto(s, n).0.push(lines_upto(s, n).1), "\n"@) == s.take(n as int),
    decreases n,
{
    reveal_strlit("\n");
    if n > 0 {
        lemma_lines_upto_rejoin(s, (n - 1) as nat);
        let before = lines_upto(s, (n - 1) as nat);
        let c = s[n - 1];
        assert(s.take(n as int) =~= s.take(n - 1).push(c));
        if c == '\n' {
            let pieces = before.0.push(before.1).push(seq![]);
            assert(pieces.drop_last() =~= before.0.push(before.1));
            assert(join(pieces, "\n"@) =~= s.take(n as int));
        } else {
            let pieces = before.0.push(before.1.push(c));
            assert(pieces.drop_last() =~= before.0);
            assert(before.0.push(before.1).drop_last() =~= before.0);
            assert(join(pieces, "\n"@) =~= s.take(n as int));
        }
    }
}

/// Joining the stroke lines with line breaks gives back the file.
pub proof fn lemma_stroke_lines_rejoin(file: Seq<char>)
    ensures
        join(split_lines(file), "\n"@) == file,
{
    lemma_lines_upto_rejoin(file, file.len());
    assert(file.take(file.len() as int) =~= file);
}

/// Every radical offered for a stroke count has that count, and is offered
/// by the first character of its glyph.
pub proof fn lemma_listing_offers_count(radk: Seq<RadicalEntry>, strokes: u8, n: nat, j: int)
    requires
        n <= radk.len(),
        0 <= j < listing(radk, strokes, n).1.len(),
    ensures
        exists|e: int|
            0 <= e < n && #[trigger] radk[e].strokes == strokes && radk[e].glyph@.len() > 0
                && radk[e].glyph@[0] == listing(radk, strokes, n).1[j],
    decreases n,
{
    let before = listing(radk, strokes, (n - 1) as nat);
    if j < before.1.len() {
        lemma_listing_offers_count(radk, strokes, (n - 1) as nat, j);
        let e = choose|e: int|
            0 <= e < n - 1 && #[trigger] radk[e].strokes == strokes && radk[e].glyph@.len() > 0
                && radk[e].glyph@[0] == before.1[j];
        assert(radk[e].strokes == strokes);
    } else {
        assert(radk[n - 1].strokes == strokes);
    }
}

/// What `kradical_parsing::radk::parse_bytes` makes of a radkfile: for each
/// radical its glyph, its strokes and its kanji; `None` when it refuses the bytes.
pub uninterp spec fn radk_parse(bytes: Seq<u8>) -> Option<Seq<(Seq<char>, u8, Seq<Seq<char>>)>>;

/// An entry as glyph, strokes and kanji.
pub open spec fn entry_view(e: RadicalEntry) -> (Seq<char>, u8, Seq<Seq<char>>) {
    (e.glyph@, e.strokes, kanji_of(e))
}

/// Entries as glyph, strokes and kanji.
pub open spec fn entries_view(v: Seq<RadicalEntry>) -> Seq<(Seq<char>, u8, Seq<Seq<char>>)> {
    v.map_values(|e: RadicalEntry| entry_view(e))
}

#[verifier::external_type_specification]
#[verifier::external_body]
pub struct ExRadkError(kradical_parsing::radk::RadkError);

/// Parses a radkfile with `kradical_parsing::radk::parse_bytes`, keeping of
/// each membership its glyph, its strokes and its kanji. The contract ties
/// the result to the name `radk_parse` and says nothing of the parser itself.
#[verifier::external_body]
fn parse_radk(bytes: &[u8]) -> (r: Result<Vec<RadicalEntry>, kradical_parsing::radk::RadkError>)
    ensures
        match radk_parse(bytes@) {
            Some(entries) => r matches Ok(v) && entries_view(v@) == entries,
            None => r is Err,
        },
{
    kradical_parsing::radk::parse_bytes(bytes).map(|list| list.into_iter().map(|m| RadicalEntry {
        glyph: m.radical.glyph,
        strokes: m.radical.strokes,
        kanji: m.kanji,
    }).collect())
}

/// The radicals of a radkfile's bytes; none when the file cannot be parsed.
pub fn load_radicals(bytes: &[u8]) -> (r: Vec<RadicalEntry>)
    ensures
        match radk_parse(bytes@) {
            Some(entries) => entries_view(r@) == entries,
            None => r@.len() == 0,
        },
{
    match parse_radk(bytes) {
        Ok(v) => v,
        Err(_) => Vec::new(),
    }
}

} // verus!
