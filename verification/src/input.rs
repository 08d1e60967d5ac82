//! Reading what the user types: trimming white space and reading numbers
//! as `str::trim` and `str::parse` do.

use vstd::prelude::*;
use crate::strings::{chars_of, string_from_chars, decimal, digit_char};

verus! {

/// The characters with the Unicode `White_Space` property (what
/// `char::is_whitespace` tests).
pub open spec fn white_space(c: char) -> bool {
    ||| ('\u{9}' <= c && c <= '\u{d}')
    ||| c == ' '
    ||| c == '\u{85}'
    ||| c == '\u{a0}'
    ||| c == '\u{1680}'
    ||| ('\u{2000}' <= c && c <= '\u{200a}')
    ||| c == '\u{2028}'
    ||| c == '\u{2029}'
    ||| c == '\u{202f}'
    ||| c == '\u{205f}'
    ||| c == '\u{3000}'
}

/// Whether `c` is white space.
pub fn is_white_space(c: char) -> (r: bool)
    ensures
        r == white_space(c),
{
    ('\u{9}' <= c && c <= '\u{d}') || c == ' ' || c == '\u{85}' || c == '\u{a0}' || c
        == '\u{1680}' || ('\u{2000}' <= c && c <= '\u{200a}') || c == '\u{2028}' || c
        == '\u{2029}' || c == '\u{202f}' || c == '\u{205f}' || c == '\u{3000}'
}

/// `s` without its leading white space.
pub open spec fn trim_start(s: Seq<char>) -> Seq<char>
    decreases s.len(),
{
    if s.len() > 0 && white_space(s[0]) {
        trim_start(s.drop_first())
    } else {
        s
    }
}

/// `s` without its trailing white space.
pub open spec fn trim_end(s: Seq<char>) -> Seq<char>
    decreases s.len(),
{
    if s.len() > 0 && white_space(s.last()) {
        trim_end(s.drop_last())
    } else {
        s
    }
}

/// `s` without its leading and trailing white space.
pub open spec fn trimmed(s: Seq<char>) -> Seq<char> {
    trim_end(trim_start(s))
}

/// `s` without its leading and trailing white space, as `str::trim` gives it.
pub fn trim(s: &str) -> (r: String)
    ensures
        r@ == trimmed(s@),
{
    let cs = chars_of(s);
    let mut i: usize = 0;
    assert(cs@.skip(0) =~= cs@);
    while i < cs.len() && is_white_space(cs[i])
        invariant
            0 <= i <= cs@.len(),
            trim_start(cs@) == trim_start(cs@.skip(i as int)),
        decreases cs.len() - i,
    {
        assert(cs@.skip(i as int).drop_first() =~= cs@.skip(i + 1));
        i = i + 1;
    }
    let ghost rest = cs@.skip(i as int);
    assert(trim_start(cs@) == rest);
    let mut j: usize = cs.len();
    assert(rest.take((j - i) as int) =~= rest);
    while j > i && is_white_space(cs[j - 1])
        invariant
            i <= j <= cs@.len(),
            rest == cs@.skip(i as int),
            trim_end(rest) == trim_end(rest.take((j - i) as int)),
        decreases j,
    {
        assert(rest.take((j - i) as int).drop_last() =~= rest.take((j - 1 - i) as int));
        j = j - 1;
    }
    let mut out: Vec<char> = Vec::new();
    let mut k: usize = i;
    while k < j
        invariant
            i <= k <= j,
            j <= cs@.len(),
            out@ == cs@.subrange(i as int, k as int),
        decreases j - k,
    {
        out.push(cs[k]);
        k = k + 1;
        assert(out@ =~= cs@.subrange(i as int, k as int));
    }
    assert(rest.take((j - i) as int) =~= cs@.subrange(i as int, j as int));
    string_from_chars(&out)
}

/// Why a number could not be read.
pub enum NumberError {
    /// Nothing was typed.
    Empty,
    /// A character is not a decimal digit.
    InvalidDigit,
    /// The number is too large.
    PosOverflow,
}

/// The message std gives for a number that cannot be read.
pub open spec fn error_text(e: NumberError) -> Seq<char> {
    match e {
        NumberError::Empty => "cannot parse integer from empty string"@,
        NumberError::InvalidDigit => "invalid digit found in string"@,
        NumberError::PosOverflow => "number too large to fit in target type"@,
    }
}

impl NumberError {
    /// The message std gives for the error.
    pub fn message(&self) -> (r: &'static str)
        ensures
            r@ == error_text(*self),
    {
        match self {
            NumberError::Empty => "cannot parse integer from empty string",
            NumberError::InvalidDigit => "invalid digit found in string",
            NumberError::PosOverflow => "number too large to fit in target type",
        }
    }
}

/// A decimal digit character.
pub open spec fn is_digit(c: char) -> bool {
    '0' <= c && c <= '9'
}

/// The value of the digit character `c`.
pub open spec fn digit_value(c: char) -> nat {
    (c as int - '0' as int) as nat
}

/// The first `n` characters of `s` read as a number no larger than `max`,
/// from left to right: a non-digit is an error, and so is a value above `max`.
pub open spec fn digits_value(s: Seq<char>, n: nat, max: nat) -> Result<nat, NumberError>
    decreases n,
{
    if n == 0 {
        Ok(0)
    } else {
        match digits_value(s, (n - 1) as nat, max) {
            Err(e) => Err(e),
            Ok(v) => if !is_digit(s[n - 1]) {
                Err(NumberError::InvalidDigit)
            } else if v * 10 + digit_value(s[n - 1]) > max {
                Err(NumberError::PosOverflow)
            } else {
                Ok(v * 10 + digit_value(s[n - 1]))
            },
        }
    }
}

/// `s` read as an unsigned number no larger than `max`, as `str::parse` reads
/// an unsigned integer type whose largest value is `max`: an optional `+`,
/// then decimal digits.
pub open spec fn parse_unsigned_spec(s: Seq<char>, max: nat) -> Result<nat, NumberError> {
    if s.len() == 0 {
        Err(NumberError::Empty)
    } else if s[0] == '+' {
        if s.len() == 1 {
            Err(NumberError::InvalidDigit)
        } else {
            digits_value(s.drop_first(), (s.len() - 1) as nat, max)
        }
    } else {
        digits_value(s, s.len(), max)
    }
}

/// Reads the digits of `cs` as a number no larger than `max`.
fn read_digits(cs: &[char], max: usize) -> (r: Result<usize, NumberError>)
    ensures
        match digits_value(cs@, cs@.len(), max as nat) {
            Ok(v) => r == Ok::<usize, NumberError>(v as usize),
            Err(e) => r == Err::<usize, NumberError>(e),
        },
{
    let mut v: usize = 0;
    let mut i: usize = 0;
    while i < cs.len()
        invariant
            0 <= i <= cs@.len(),
            digits_value(cs@, i as nat, max as nat) == Ok::<nat, NumberError>(v as nat),
            v <= max,
        decreases cs.len() - i,
    {
        let c = cs[i];
        if !('0' <= c && c <= '9') {
            proof {
                lemma_digits_settled(cs@, (i + 1) as nat, cs@.len(), max as nat);
            }
            return Err(NumberError::InvalidDigit);
        }
        let d: u128 = (c as u32 - '0' as u32) as u128;
        let next: u128 = (v as u128) * 10 + d;
        if next > max as u128 {
            proof {
                lemma_digits_settled(cs@, (i + 1) as nat, cs@.len(), max as nat);
            }
            return Err(NumberError::PosOverflow);
        }
        v = next as usize;
        i = i + 1;
    }
    Ok(v)
}

/// Once reading digits has failed, later characters change nothing.
proof fn lemma_digits_settled(s: Seq<char>, k: nat, m: nat, max: nat)
    requires
        k <= m,
        digits_value(s, k, max) is Err,
    ensures
        digits_value(s, m, max) == digits_value(s, k, max),
    decreases m,
{
    if k < m {
        lemma_digits_settled(s, k, (m - 1) as nat, max);
    }
}

/// `s` read as an unsigned number no larger than `max`, as `str::parse`
/// reads an unsigned integer type whose largest value is `max`.
pub fn parse_unsigned(s: &str, max: usize) -> (r: Result<usize, NumberError>)
    ensures
        match parse_unsigned_spec(s@, max as nat) {
            Ok(v) => r == Ok::<usize, NumberError>(v as usize),
            Err(e) => r == Err::<usize, NumberError>(e),
        },
{
    let cs = chars_of(s);
    if cs.len() == 0 {
        return Err(NumberError::Empty);
    }
    if cs[0] == '+' {
        if cs.len() == 1 {
            return Err(NumberError::InvalidDigit);
        }
        let mut rest: Vec<char> = Vec::new();
        let mut i: usize = 1;
        while i < cs.len()
            invariant
                1 <= i <= cs@.len(),
                rest@ == cs@.subrange(1, i as int),
            decreases cs.len() - i,
        {
            rest.push(cs[i]);
            i = i + 1;
            assert(rest@ =~= cs@.subrange(1, i as int));
        }
        assert(rest@ =~= s@.drop_first());
        read_digits(&rest, max)
    } else {
        read_digits(&cs, max)
    }
}

/// A line typed as a number of strokes: trimmed, then read as a `u8`.
pub fn parse_stroke_count(line: &str) -> (r: Result<u8, NumberError>)
    ensures
        match parse_unsigned_spec(trimmed(line@), 255) {
            Ok(v) => r == Ok::<u8, NumberError>(v as u8),
            Err(e) => r == Err::<u8, NumberError>(e),
        },
{
    let t = trim(line);
    match parse_unsigned(t.as_str(), 255) {
        Ok(v) => Ok(v as u8),
        Err(e) => Err(e),
    }
}

/// A line typed as a choice: trimmed, then read as a `usize`.
pub fn parse_choice(line: &str) -> (r: Result<usize, NumberError>)
    ensures
        match parse_unsigned_spec(trimmed(line@), usize::MAX as nat) {
            Ok(v) => r == Ok::<usize, NumberError>(v as usize),
            Err(e) => r == Err::<usize, NumberError>(e),
        },
{
    let t = trim(line);
    parse_unsigned(t.as_str(), usize::MAX)
}

/// What `trim_start` leaves starts with no white space.
proof fn lemma_trim_start(s: Seq<char>)
    ensures
        trim_start(s).len() > 0 ==> !white_space(trim_start(s)[0]),
    decreases s.len(),
{
    if s.len() > 0 && white_space(s[0]) {
        lemma_trim_start(s.drop_first());
    }
}

/// What `trim_end` leaves is a prefix of `s` that ends with no white space.
proof fn lemma_trim_end(s: Seq<char>)
    ensures
        trim_end(s).len() <= s.len(),
        trim_end(s) == s.take(trim_end(s).len() as int),
        trim_end(s).len() > 0 ==> !white_space(trim_end(s).last()),
    decreases s.len(),
{
    if s.len() > 0 && white_space(s.last()) {
        lemma_trim_end(s.drop_last());
        assert(s.drop_last().take(trim_end(s).len() as int) =~= s.take(trim_end(s).len() as int));
    } else {
        assert(s.take(s.len() as int) =~= s);
    }
}

/// Trimming what is already trimmed changes nothing.
pub proof fn lemma_trim_idempotent(s: Seq<char>)
    ensures
        trimmed(trimmed(s)) == trimmed(s),
        trimmed(s).len() > 0 ==> !white_space(trimmed(s)[0]) && !white_space(trimmed(s).last()),
{
    let t = trim_start(s);
    let u = trim_end(t);
    lemma_trim_start(s);
    lemma_trim_end(t);
    if u.len() > 0 {
        assert(u[0] == t[0]);
        assert(trim_start(u) == u);
    } else {
        assert(trim_start(u) == u);
    }
    lemma_trim_end(u);
    assert(trim_end(u) == u);
}

/// What trimming the start leaves of `s` with `c` appended.
proof fn lemma_trim_start_push(s: Seq<char>, c: char)
    ensures
        trim_start(s.push(c)) == if trim_start(s).len() > 0 {
            trim_start(s).push(c)
        } else {
            trim_start(seq![c])
        },
    decreases s.len(),
{
    if s.len() == 0 {
        assert(s.push(c) =~= seq![c]);
    } else if white_space(s[0]) {
        assert(s.push(c).drop_first() =~= s.drop_first().push(c));
        lemma_trim_start_push(s.drop_first(), c);
    }
}

/// Trimming ignores white space put before or after a text: each of the
/// characters of the Unicode `White_Space` property (tab, line feed, vertical
/// tab, form feed, carriage return, space, next line, no-break space, and
/// the others listed) is taken off at either end.
pub proof fn lemma_trim_drops_white_space(s: Seq<char>, c: char)
    requires
        ('\u{9}' <= c && c <= '\u{d}') || c == ' ' || c == '\u{85}' || c == '\u{a0}' || c
            == '\u{1680}' || ('\u{2000}' <= c && c <= '\u{200a}') || c == '\u{2028}' || c
            == '\u{2029}' || c == '\u{202f}' || c == '\u{205f}' || c == '\u{3000}',
    ensures
        trimmed(seq![c] + s) == trimmed(s),
        trimmed(s.push(c)) == trimmed(s),
{
    assert((seq![c] + s).drop_first() =~= s);
    lemma_trim_start_push(s, c);
    let t = trim_start(s);
    assert(seq![c].drop_first() =~= Seq::<char>::empty());
    assert(trim_start(seq![c]) == trim_start(Seq::<char>::empty()));
    if t.len() > 0 {
        assert(t.push(c).drop_last() =~= t);
    } else {
        assert(trim_start(s.push(c)) =~= Seq::<char>::empty());
    }
}

/// Reading digits does not look past the first `k` characters.
proof fn lemma_digits_prefix(s: Seq<char>, x: char, k: nat, max: nat)
    requires
        k <= s.len(),
    ensures
        digits_value(s.push(x), k, max) == digits_value(s, k, max),
    decreases k,
{
    if k > 0 {
        lemma_digits_prefix(s, x, (k - 1) as nat, max);
        assert(s.push(x)[k - 1] == s[k - 1]);
    }
}

/// The decimal rendering of `n` is read back as `n`.
proof fn lemma_decimal_digits(n: nat, max: nat)
    requires
        n <= max,
    ensures
        digits_value(decimal(n), decimal(n).len(), max) == Ok::<nat, NumberError>(n),
        decimal(n).len() > 0,
        decimal(n)[0] != '+',
    decreases n,
{
    if n < 10 {
        assert(decimal(n) =~= seq![digit_char(n)]);
        assert(digit_value(digit_char(n)) == n);
        assert(is_digit(digit_char(n)));
    } else {
        let head = decimal(n / 10);
        lemma_decimal_digits(n / 10, max);
        lemma_digits_prefix(head, digit_char(n % 10), head.len(), max);
        assert(decimal(n) == head.push(digit_char(n % 10)));
        assert(digit_value(digit_char(n % 10)) == n % 10);
        assert(is_digit(digit_char(n % 10)));
        assert((n / 10) * 10 + n % 10 == n);
        assert(decimal(n)[head.len() as int] == digit_char(n % 10));
        assert(digits_value(decimal(n), (decimal(n).len() - 1) as nat, max) == Ok::<nat, NumberError>(n / 10));
        assert(decimal(n)[0] == head[0]);
    }
}

/// A number written in decimal, as the search results number their lines, is
/// read back as the same number.
pub proof fn lemma_decimal_parse_roundtrip(n: nat, max: nat)
    requires
        n <= max,
    ensures
        parse_unsigned_spec(decimal(n), max) == Ok::<nat, NumberError>(n),
{
    lemma_decimal_digits(n, max);
}

} // verus!
