//! Small text operations on the replies of the Bungie API.

use vstd::prelude::*;

use crate::strings::{chars_of, string_from_chars};

verus! {

/// `i` is the position of the first `c` in `s`.
pub open spec fn is_first_index(s: Seq<char>, c: char, i: int) -> bool {
    &&& 0 <= i < s.len()
    &&& s[i] == c
    &&& forall|j: int| 0 <= j < i ==> s[j] != c
}

/// `i` is the position of the last `c` in `s`.
pub open spec fn is_last_index(s: Seq<char>, c: char, i: int) -> bool {
    &&& 0 <= i < s.len()
    &&& s[i] == c
    &&& forall|j: int| i < j < s.len() ==> s[j] != c
}

/// The position of the first `c` in `s` (meaningful when `s` holds a `c`).
pub open spec fn first_index(s: Seq<char>, c: char) -> int {
    choose|i: int| is_first_index(s, c, i)
}

/// The position of the last `c` in `s` (meaningful when `s` holds a `c`).
pub open spec fn last_index(s: Seq<char>, c: char) -> int {
    choose|i: int| is_last_index(s, c, i)
}

/// What `strip_quotes` makes of `s`: the text strictly between the first and
/// the last double quote, or `s` itself when it holds a single double quote.
pub open spec fn strip_quotes_spec(s: Seq<char>) -> Seq<char> {
    let open: int = first_index(s, '"');
    let close: int = last_index(s, '"');
    if open == close {
        s
    } else {
        s.subrange(open + 1, close)
    }
}

/// The text strictly between the first `[` and the first `]` of `s`.
pub open spec fn bracket_contents_spec(s: Seq<char>) -> Seq<char> {
    s.subrange(first_index(s, '[') + 1, first_index(s, ']'))
}

/// The first position of `c` in `chars`, if any.
pub fn find_char(chars: &Vec<char>, c: char) -> (found: Option<usize>)
    ensures
        match found {
            Some(i) => is_first_index(chars@, c, i as int) && first_index(chars@, c) == i,
            None => !chars@.contains(c),
        },
{
    let mut i: usize = 0;
    while i < chars.len()
        invariant
            i <= chars.len(),
            forall|j: int| 0 <= j < i ==> chars@[j] != c,
        decreases chars.len() - i,
    {
        if chars[i] == c {
            assert(is_first_index(chars@, c, i as int));
            assert(forall|k: int| is_first_index(chars@, c, k) ==> k == i);
            return Some(i);
        }
        i = i + 1;
    }
    None
}

/// The last position of `c` in `chars`, if any.
pub fn rfind_char(chars: &Vec<char>, c: char) -> (found: Option<usize>)
    ensures
        match found {
            Some(i) => is_last_index(chars@, c, i as int) && last_index(chars@, c) == i,
            None => !chars@.contains(c),
        },
{
    let mut i: usize = chars.len();
    while i > 0
        invariant
            i <= chars.len(),
            forall|j: int| i <= j < chars.len() ==> chars@[j] != c,
        decreases i,
    {
        if chars[i - 1] == c {
            assert(is_last_index(chars@, c, i - 1));
            assert(forall|k: int| is_last_index(chars@, c, k) ==> k == i - 1);
            return Some(i - 1);
        }
        i = i - 1;
    }
    None
}

/// Whether `text` holds the character `c`.
pub fn contains_char(text: &str, c: char) -> (found: bool)
    ensures
        found == text@.contains(c),
{
    let chars = chars_of(text);
    match find_char(&chars, c) {
        Some(i) => {
            assert(chars@[i as int] == c);
            true
        },
        None => false,
    }
}

/// The characters of `chars` from position `from` up to, not including, `to`.
pub fn chars_between(chars: &Vec<char>, from: usize, to: usize) -> (s: String)
    requires
        from <= to <= chars.len(),
    ensures
        s@ == chars@.subrange(from as int, to as int),
{
    let mut part: Vec<char> = Vec::new();
    let mut i: usize = from;
    while i < to
        invariant
            from <= i <= to <= chars.len(),
            part@ == chars@.subrange(from as int, i as int),
        decreases to - i,
    {
        part.push(chars[i]);
        i = i + 1;
    }
    string_from_chars(part.as_slice())
}

/// Removes the outermost pair of double quotes from a JSON rendering, and
/// whatever stands outside them.
///
/// A text with a single double quote comes back unchanged.
pub fn strip_quotes(source: String) -> (stripped: String)
    requires
        source@.contains('"'),
    ensures
        stripped@ == strip_quotes_spec(source@),
        forall|open: int, close: int|
            is_first_index(source@, '"', open) && is_last_index(source@, '"', close) ==> if open == close {
                stripped@ == source@
            } else {
                stripped@ == source@.subrange(open + 1, close)
            },
{
    proof {
        assert forall|open: int, close: int|
            is_first_index(source@, '"', open) && is_last_index(source@, '"', close) implies strip_quotes_spec(source@) == if open == close {
                source@
            } else {
                source@.subrange(open + 1, close)
            } by {
            lemma_strip_quotes_between(source@, open, close);
        }
    }
    let chars = chars_of(source.as_str());
    let open = find_char(&chars, '"');
    let close = rfind_char(&chars, '"');
    match (open, close) {
        (Some(open), Some(close)) => {
            if open == close {
                source
            } else {
                chars_between(&chars, open + 1, close)
            }
        },
        _ => {
            // `source` holds a double quote, so both searches find one
            assert(false);
            source
        },
    }
}

/// The text between the first `[` and the first `]` of `source`.
pub fn get_json(source: String) -> (contents: String)
    requires
        source@.contains('['),
        source@.contains(']'),
        first_index(source@, '[') < first_index(source@, ']'),
    ensures
        contents@ == bracket_contents_spec(source@),
        forall|open: int, close: int|
            is_first_index(source@, '[', open) && is_first_index(source@, ']', close) ==> contents@
                == source@.subrange(open + 1, close),
{
    proof {
        assert forall|open: int, close: int|
            is_first_index(source@, '[', open) && is_first_index(source@, ']', close) implies bracket_contents_spec(source@)
                == source@.subrange(open + 1, close) by {
            lemma_bracket_contents_between(source@, open, close);
        }
    }
    let chars = chars_of(source.as_str());
    let open = find_char(&chars, '[');
    let close = find_char(&chars, ']');
    match (open, close) {
        (Some(open), Some(close)) => chars_between(&chars, open + 1, close),
        _ => {
            assert(false);
            source
        },
    }
}

/// Whitespace as `char::is_whitespace` defines it: the Unicode `White_Space`
/// characters.
pub open spec fn is_white_space(c: char) -> bool {
    ||| '\t' <= c <= '\r'
    ||| c == ' '
    ||| c == '\u{85}'
    ||| c == '\u{A0}'
    ||| c == '\u{1680}'
    ||| '\u{2000}' <= c <= '\u{200A}'
    ||| c == '\u{2028}'
    ||| c == '\u{2029}'
    ||| c == '\u{202F}'
    ||| c == '\u{205F}'
    ||| c == '\u{3000}'
}

/// `s` without its leading whitespace.
pub open spec fn trim_start_spec(s: Seq<char>) -> Seq<char>
    decreases s.len(),
{
    if s.len() > 0 && is_white_space(s[0]) {
        trim_start_spec(s.drop_first())
    } else {
        s
    }
}

/// `s` without its trailing whitespace.
pub open spec fn trim_end_spec(s: Seq<char>) -> Seq<char>
    decreases s.len(),
{
    if s.len() > 0 && is_white_space(s.last()) {
        trim_end_spec(s.drop_last())
    } else {
        s
    }
}

/// `s` without its leading and trailing whitespace, as `str::trim` gives it.
pub open spec fn trim_spec(s: Seq<char>) -> Seq<char> {
    trim_end_spec(trim_start_spec(s))
}

/// Whether `c` is whitespace.
pub fn white_space(c: char) -> (ws: bool)
    ensures
        ws == is_white_space(c),
{
    ('\t' <= c && c <= '\r') || c == ' ' || c == '\u{85}' || c == '\u{A0}' || c == '\u{1680}'
        || ('\u{2000}' <= c && c <= '\u{200A}') || c == '\u{2028}' || c == '\u{2029}'
        || c == '\u{202F}' || c == '\u{205F}' || c == '\u{3000}'
}

/// Dropping whitespace from the front stops at the first other character.
proof fn lemma_trim_start_at(s: Seq<char>, a: int)
    requires
        0 <= a <= s.len(),
        forall|j: int| 0 <= j < a ==> is_white_space(#[trigger] s[j]),
        a < s.len() ==> !is_white_space(s[a]),
    ensures
        trim_start_spec(s) == s.skip(a),
    decreases a,
{
    if a > 0 {
        let t = s.drop_first();
        assert forall|j: int| 0 <= j < a - 1 implies is_white_space(#[trigger] t[j]) by {
            assert(t[j] == s[j + 1]);
        }
        lemma_trim_start_at(t, a - 1);
        assert(t.skip(a - 1) == s.skip(a));
    } else {
        assert(s.skip(0) == s);
    }
}

/// Dropping whitespace from the back stops at the last other character.
proof fn lemma_trim_end_at(s: Seq<char>, b: int)
    requires
        0 <= b <= s.len(),
        forall|j: int| b <= j < s.len() ==> is_white_space(#[trigger] s[j]),
        b > 0 ==> !is_white_space(s[b - 1]),
    ensures
        trim_end_spec(s) == s.take(b),
    decreases s.len() - b,
{
    if b < s.len() {
        let t = s.drop_last();
        assert forall|j: int| b <= j < t.len() implies is_white_space(#[trigger] t[j]) by {
            assert(t[j] == s[j]);
        }
        assert(is_white_space(s[s.len() - 1]));
        lemma_trim_end_at(t, b);
        assert(t.take(b) == s.take(b));
    } else {
        assert(s.take(b) == s);
    }
}

/// Where the leading whitespace of `s` ends.
proof fn trim_start_cut(s: Seq<char>) -> (a: int)
    ensures
        0 <= a <= s.len(),
        trim_start_spec(s) == s.skip(a),
        forall|j: int| 0 <= j < a ==> is_white_space(#[trigger] s[j]),
    decreases s.len(),
{
    if s.len() > 0 && is_white_space(s[0]) {
        let t = s.drop_first();
        let a0 = trim_start_cut(t);
        assert(t.skip(a0) == s.skip(a0 + 1));
        assert forall|j: int| 0 <= j < a0 + 1 implies is_white_space(#[trigger] s[j]) by {
            if j > 0 {
                assert(s[j] == t[j - 1]);
            }
        }
        a0 + 1
    } else {
        assert(s.skip(0) == s);
        0
    }
}

/// Where the trailing whitespace of `s` begins.
proof fn trim_end_cut(s: Seq<char>) -> (b: int)
    ensures
        0 <= b <= s.len(),
        trim_end_spec(s) == s.take(b),
        forall|j: int| b <= j < s.len() ==> is_white_space(#[trigger] s[j]),
    decreases s.len(),
{
    if s.len() > 0 && is_white_space(s.last()) {
        let t = s.drop_last();
        let b0 = trim_end_cut(t);
        assert(t.take(b0) == s.take(b0));
        assert forall|j: int| b0 <= j < s.len() implies is_white_space(#[trigger] s[j]) by {
            if j < t.len() {
                assert(s[j] == t[j]);
            }
        }
        b0
    } else {
        assert(s.take(s.len() as int) == s);
        s.len() as int
    }
}

/// Trimming removes whitespace at both ends and nothing else: the result is
/// a stretch `s[a..b]` of the text with only whitespace before `a` and from
/// `b` on, and it neither begins nor ends with whitespace.
pub proof fn lemma_trim_removes_only_surrounding_whitespace(s: Seq<char>)
    ensures
        exists|a: int, b: int|
            0 <= a <= b <= s.len() && trim_spec(s) == s.subrange(a, b) && (forall|j: int|
                0 <= j < a ==> is_white_space(#[trigger] s[j])) && (forall|j: int|
                b <= j < s.len() ==> is_white_space(#[trigger] s[j])),
        trim_spec(s).len() > 0 ==> !is_white_space(trim_spec(s)[0]) && !is_white_space(
            trim_spec(s).last(),
        ),
{
    let a = trim_start_cut(s);
    let u = s.skip(a);
    let b0 = trim_end_cut(u);
    let b = a + b0;
    assert(trim_spec(s) == s.subrange(a, b));
    assert forall|j: int| b <= j < s.len() implies is_white_space(#[trigger] s[j]) by {
        assert(s[j] == u[j - a]);
    }
    lemma_trim_start_begins_solid(s);
    lemma_trim_end_prefix(u);
    let t = trim_spec(s);
    if t.len() > 0 {
        assert(t[0] == u[0]);
    }
}

/// `text` without its leading and trailing whitespace.
pub fn trim_whitespace(text: &str) -> (trimmed: String)
    ensures
        trimmed@ == trim_spec(text@),
        exists|a: int, b: int|
            0 <= a <= b <= text@.len() && trimmed@ == text@.subrange(a, b) && (forall|j: int|
                0 <= j < a ==> is_white_space(#[trigger] text@[j])) && (forall|j: int|
                b <= j < text@.len() ==> is_white_space(#[trigger] text@[j])),
        trimmed@.len() > 0 ==> !is_white_space(trimmed@[0]) && !is_white_space(trimmed@.last()),
{
    proof {
        lemma_trim_removes_only_surrounding_whitespace(text@);
    }
    let chars = chars_of(text);
    let ghost s = chars@;
    let mut a: usize = 0;
    while a < chars.len() && white_space(chars[a])
        invariant
            chars@ == s,
            a <= chars.len(),
            forall|j: int| 0 <= j < a ==> is_white_space(#[trigger] s[j]),
        decreases chars.len() - a,
    {
        a = a + 1;
    }
    proof {
        lemma_trim_start_at(s, a as int);
    }
    let ghost t = s.skip(a as int);
    let mut b: usize = chars.len();
    while b > a && white_space(chars[b - 1])
        invariant
            chars@ == s,
            t == s.skip(a as int),
            a <= b <= chars.len(),
            forall|j: int| b <= j < s.len() ==> is_white_space(#[trigger] s[j]),
        decreases b,
    {
        b = b - 1;
    }
    proof {
        assert forall|j: int| b - a <= j < t.len() implies is_white_space(#[trigger] t[j]) by {
            assert(t[j] == s[j + a]);
        }
        if b > a {
            assert(t[b - a - 1] == s[b - 1]);
        }
        lemma_trim_end_at(t, b - a);
        assert(t.take(b - a) == s.subrange(a as int, b as int));
    }
    chars_between(&chars, a, b)
}

/// `s` with every occurrence of `pat` replaced by `rep`, left to right and
/// without overlaps, as `str::replace` does for a non-empty pattern.
pub open spec fn replace_spec(s: Seq<char>, pat: Seq<char>, rep: Seq<char>) -> Seq<char>
    decreases s.len(),
{
    if pat.len() == 0 || s.len() < pat.len() {
        s
    } else if s.take(pat.len() as int) == pat {
        rep + replace_spec(s.skip(pat.len() as int), pat, rep)
    } else {
        seq![s[0]] + replace_spec(s.drop_first(), pat, rep)
    }
}

/// Whether `pat` stands in `chars` from position `at` on.
fn matches_at(chars: &Vec<char>, at: usize, pat: &Vec<char>) -> (found: bool)
    requires
        at <= chars.len(),
    ensures
        found == (pat.len() <= chars.len() - at && chars@.skip(at as int).take(pat.len() as int) == pat@),
{
    if pat.len() > chars.len() - at {
        return false;
    }
    let mut k: usize = 0;
    while k < pat.len()
        invariant
            pat.len() <= chars.len() - at,
            k <= pat.len(),
            forall|j: int| 0 <= j < k ==> chars@[at + j] == pat@[j],
        decreases pat.len() - k,
    {
        if chars[at + k] != pat[k] {
            assert(chars@.skip(at as int).take(pat.len() as int)[k as int] != pat@[k as int]);
            return false;
        }
        k = k + 1;
    }
    assert(chars@.skip(at as int).take(pat.len() as int) == pat@);
    true
}

/// Replacing a pattern by itself changes nothing.
pub proof fn lemma_replace_by_itself(s: Seq<char>, pat: Seq<char>)
    ensures
        replace_spec(s, pat, pat) == s,
    decreases s.len(),
{
    if pat.len() == 0 || s.len() < pat.len() {
    } else if s.take(pat.len() as int) == pat {
        lemma_replace_by_itself(s.skip(pat.len() as int), pat);
        assert(s.take(pat.len() as int) + s.skip(pat.len() as int) == s);
    } else {
        lemma_replace_by_itself(s.drop_first(), pat);
        assert(seq![s[0]] + s.drop_first() == s);
    }
}

/// A text in which the pattern occurs nowhere comes back unchanged.
pub proof fn lemma_replace_without_occurrence(s: Seq<char>, pat: Seq<char>, rep: Seq<char>)
    requires
        pat.len() > 0,
        forall|k: int| 0 <= k && k + pat.len() <= s.len() ==> #[trigger] s.subrange(k, k + pat.len()) != pat,
    ensures
        replace_spec(s, pat, rep) == s,
    decreases s.len(),
{
    if s.len() >= pat.len() {
        assert(s.subrange(0, 0int + pat.len()) != pat);
        assert(s.subrange(0, pat.len() as int) == s.take(pat.len() as int));
        assert(s.take(pat.len() as int) != pat);
        let t = s.drop_first();
        assert forall|k: int| 0 <= k && k + pat.len() <= t.len() implies #[trigger] t.subrange(k, k + pat.len()) != pat by {
            assert(t.subrange(k, k + pat.len()) == s.subrange(k + 1, k + 1 + pat.len()));
        }
        lemma_replace_without_occurrence(t, pat, rep);
        assert(seq![s[0]] + t == s);
    }
}

/// `text` with every occurrence of `pat` replaced by `rep`, left to right and
/// without overlaps.
pub fn replace_all(text: &str, pat: &str, rep: &str) -> (replaced: String)
    requires
        pat@.len() > 0,
    ensures
        replaced@ == replace_spec(text@, pat@, rep@),
        rep@ == pat@ ==> replaced@ == text@,
        (forall|k: int| 0 <= k && k + pat@.len() <= text@.len() ==> #[trigger] text@.subrange(k, k + pat@.len()) != pat@)
            ==> replaced@ == text@,
{
    proof {
        lemma_replace_by_itself(text@, pat@);
        if forall|k: int| 0 <= k && k + pat@.len() <= text@.len() ==> #[trigger] text@.subrange(k, k + pat@.len()) != pat@ {
            lemma_replace_without_occurrence(text@, pat@, rep@);
        }
    }
    let chars = chars_of(text);
    let pat_chars = chars_of(pat);
    let rep_chars = chars_of(rep);
    let ghost s = text@;
    let mut out: Vec<char> = Vec::new();
    let mut i: usize = 0;
    assert(s.skip(0) == s);
    assert(out@ + s == s);
    while i < chars.len()
        invariant
            chars@ == s,
            pat_chars@ == pat@,
            rep_chars@ == rep@,
            pat@.len() > 0,
            i <= chars.len(),
            out@ + replace_spec(s.skip(i as int), pat@, rep@) == replace_spec(s, pat@, rep@),
        decreases chars.len() - i,
    {
        let ghost rest = s.skip(i as int);
        if matches_at(&chars, i, &pat_chars) {
            let mut k: usize = 0;
            let ghost before = out@;
            while k < rep_chars.len()
                invariant
                    k <= rep_chars.len(),
                    out@ == before + rep_chars@.take(k as int),
                decreases rep_chars.len() - k,
            {
                out.push(rep_chars[k]);
                k = k + 1;
                assert(rep_chars@.take(k as int) == rep_chars@.take(k - 1).push(rep_chars@[k - 1]));
            }
            assert(rep_chars@.take(k as int) == rep@);
            assert(rest.skip(pat@.len() as int) == s.skip(i + pat_chars.len()));
            assert(rest.take(pat@.len() as int) == pat@);
            i = i + pat_chars.len();
            assert(out@ + replace_spec(s.skip(i as int), pat@, rep@) == replace_spec(s, pat@, rep@));
        } else {
            let ghost before = out@;
            out.push(chars[i]);
            assert(rest.drop_first() == s.skip(i + 1));
            assert(rest[0] == s[i as int]);
            proof {
                if rest.len() >= pat@.len() {
                    assert(rest.take(pat@.len() as int) != pat@);
                }
            }
            assert(replace_spec(rest, pat@, rep@) == seq![s[i as int]] + replace_spec(rest.drop_first(), pat@, rep@));
            assert(before.push(s[i as int]) + replace_spec(rest.drop_first(), pat@, rep@) == before + (seq![s[i as int]] + replace_spec(rest.drop_first(), pat@, rep@)));
            i = i + 1;
        }
    }
    assert(s.skip(i as int).len() == 0);
    assert(out@ + replace_spec(s.skip(i as int), pat@, rep@) == out@);
    string_from_chars(out.as_slice())
}

/// The character of the decimal digit `d`.
pub open spec fn digit_char(d: nat) -> char {
    if d == 0 { '0' } else if d == 1 { '1' } else if d == 2 { '2' } else if d == 3 { '3' }
    else if d == 4 { '4' } else if d == 5 { '5' } else if d == 6 { '6' } else if d == 7 { '7' }
    else if d == 8 { '8' } else { '9' }
}

/// The value of the decimal digit `c`.
pub open spec fn digit_value(c: char) -> int {
    c as u32 - '0' as u32
}

/// The decimal rendering of `n`, without leading zeros, as `u64::to_string`
/// gives it.
pub open spec fn decimal_spec(n: nat) -> Seq<char>
    decreases n,
{
    if n < 10 {
        seq![digit_char(n)]
    } else {
        decimal_spec(n / 10).push(digit_char(n % 10))
    }
}

/// The number that the decimal digits `s` spell.
pub open spec fn decimal_value(s: Seq<char>) -> int
    decreases s.len(),
{
    if s.len() == 0 {
        0
    } else {
        decimal_value(s.drop_last()) * 10 + digit_value(s.last())
    }
}

/// Reading the decimal rendering of `n` back gives `n`.
pub proof fn lemma_decimal_roundtrip(n: nat)
    ensures
        decimal_value(decimal_spec(n)) == n,
        forall|i: int| 0 <= i < decimal_spec(n).len() ==> '0' <= #[trigger] decimal_spec(n)[i] <= '9',
        decimal_spec(n).len() > 1 ==> decimal_spec(n)[0] != '0',
        decimal_spec(n).len() == 1 <==> n < 10,
        decimal_spec(n).len() >= 1,
    decreases n,
{
    if n >= 10 {
        lemma_decimal_roundtrip(n / 10);
        let t = decimal_spec(n / 10);
        assert(decimal_spec(n).drop_last() == t);
        assert(decimal_spec(n).last() == digit_char(n % 10));
        assert(digit_value(digit_char(n % 10)) == n % 10);
        assert(forall|i: int| 0 <= i < t.len() ==> decimal_spec(n)[i] == t[i]);
        assert(t.len() >= 1);
        if t.len() > 1 {
            assert(t[0] != '0');
        } else {
            assert(n / 10 < 10);
            assert(t[0] == digit_char(n / 10));
        }
        assert(decimal_spec(n)[0] == t[0]);
        assert(decimal_value(decimal_spec(n)) == decimal_value(t) * 10 + digit_value(decimal_spec(n).last()));
        assert((n / 10) * 10 + n % 10 == n) by (nonlinear_arith);
    } else {
        assert(seq![digit_char(n)].drop_last() == Seq::<char>::empty());
        assert(digit_value(digit_char(n)) == n);
        assert(decimal_value(Seq::<char>::empty()) == 0);
        assert(seq![digit_char(n)].last() == digit_char(n));
    }
}

/// The decimal rendering of `n`.
pub fn decimal(n: u64) -> (text: String)
    ensures
        text@ == decimal_spec(n as nat),
        decimal_value(text@) == n,
        text@.len() >= 1,
        forall|i: int| 0 <= i < text@.len() ==> '0' <= #[trigger] text@[i] <= '9',
        text@.len() > 1 ==> text@[0] != '0',
{
    proof {
        lemma_decimal_roundtrip(n as nat);
    }
    let mut digits: Vec<char> = Vec::new();
    let mut m: u64 = n;
    // the digits taken off `m` so far, least significant first
    loop
        invariant_except_break
            digits@.len() > 0 ==> m > 0,
        invariant
            decimal_spec(n as nat) == (if digits@.len() == 0 || m > 0 {
                decimal_spec(m as nat)
            } else {
                Seq::<char>::empty()
            }) + digits@.reverse(),
        ensures
            decimal_spec(n as nat) == digits@.reverse(),
        decreases m,
    {
        let d: u64 = m % 10;
        let c = char_of_digit(d);
        let ghost old_digits = digits@;
        let ghost old_m: u64 = m;
        digits.push(c);
        m = m / 10;
        assert(digits@.reverse() == seq![c] + old_digits.reverse());
        assert(m == old_m / 10 && d == old_m % 10);
        proof {
            if old_m >= 10 {
                assert(decimal_spec(old_m as nat) == decimal_spec(m as nat).push(c));
                assert(decimal_spec(m as nat).push(c) + old_digits.reverse() == decimal_spec(m as nat) + (seq![c] + old_digits.reverse()));
            } else {
                assert(decimal_spec(old_m as nat) == seq![c]);
                assert(Seq::<char>::empty() + digits@.reverse() == digits@.reverse());
            }
        }
        if m == 0 {
            break;
        }
    }
    let mut out: Vec<char> = Vec::new();
    let mut k: usize = digits.len();
    while k > 0
        invariant
            k <= digits.len(),
            out@ == digits@.reverse().take(digits.len() - k),
        decreases k,
    {
        out.push(digits[k - 1]);
        k = k - 1;
        assert(digits@.reverse().take(digits.len() - k) == digits@.reverse().take(digits.len() - k - 1).push(digits@[k as int]));
    }
    assert(digits@.reverse().take(digits.len() as int) == digits@.reverse());
    string_from_chars(out.as_slice())
}

/// The character of the decimal digit `d`.
fn char_of_digit(d: u64) -> (c: char)
    requires
        d < 10,
    ensures
        c == digit_char(d as nat),
{
    if d == 0 { '0' } else if d == 1 { '1' } else if d == 2 { '2' } else if d == 3 { '3' }
    else if d == 4 { '4' } else if d == 5 { '5' } else if d == 6 { '6' } else if d == 7 { '7' }
    else if d == 8 { '8' } else { '9' }
}

/// A position that is the first `c` is the one `first_index` names.
pub proof fn lemma_first_index_unique(s: Seq<char>, c: char, i: int)
    requires
        is_first_index(s, c, i),
    ensures
        first_index(s, c) == i,
{
    let k: int = first_index(s, c);
    assert(is_first_index(s, c, k));
    if k < i {
        assert(s[k] != c);
    } else if i < k {
        assert(s[i] != c);
    }
}

/// A position that is the last `c` is the one `last_index` names.
pub proof fn lemma_last_index_unique(s: Seq<char>, c: char, i: int)
    requires
        is_last_index(s, c, i),
    ensures
        last_index(s, c) == i,
{
    let k: int = last_index(s, c);
    assert(is_last_index(s, c, k));
    if k < i {
        assert(s[i] != c);
    } else if i < k {
        assert(s[k] != c);
    }
}

/// Stripping the quotes of a JSON string rendering gives back its content:
/// whatever stands between an opening and a closing double quote, escaped
/// quotes included, comes back unchanged.
pub proof fn lemma_strip_quotes_of_quoted(t: Seq<char>)
    ensures
        strip_quotes_spec(seq!['"'] + t + seq!['"']) == t,
{
    let s = seq!['"'] + t + seq!['"'];
    assert(s[0] == '"');
    assert(s[s.len() - 1] == '"');
    assert(is_first_index(s, '"', 0));
    assert(is_last_index(s, '"', s.len() - 1));
    lemma_first_index_unique(s, '"', 0);
    lemma_last_index_unique(s, '"', s.len() - 1);
    assert(s.subrange(1, s.len() - 1) == t);
}

/// Dropping leading whitespace leaves a text that does not begin with any.
proof fn lemma_trim_start_begins_solid(s: Seq<char>)
    ensures
        trim_start_spec(s).len() > 0 ==> !is_white_space(trim_start_spec(s)[0]),
    decreases s.len(),
{
    if s.len() > 0 && is_white_space(s[0]) {
        lemma_trim_start_begins_solid(s.drop_first());
    }
}

/// Dropping trailing whitespace leaves a prefix that does not end with any.
proof fn lemma_trim_end_prefix(s: Seq<char>)
    ensures
        trim_end_spec(s) == s.take(trim_end_spec(s).len() as int),
        trim_end_spec(s).len() <= s.len(),
        trim_end_spec(s).len() > 0 ==> !is_white_space(trim_end_spec(s).last()),
    decreases s.len(),
{
    if s.len() > 0 && is_white_space(s.last()) {
        let t = s.drop_last();
        lemma_trim_end_prefix(t);
        assert(t.take(trim_end_spec(t).len() as int) == s.take(trim_end_spec(t).len() as int));
    } else {
        assert(s.take(s.len() as int) == s);
    }
}

/// Stripping quotes keeps exactly what stands strictly between the first and
/// the last double quote, or everything when they are the same one.
pub proof fn lemma_strip_quotes_between(s: Seq<char>, open: int, close: int)
    requires
        is_first_index(s, '"', open),
        is_last_index(s, '"', close),
    ensures
        strip_quotes_spec(s) == if open == close {
            s
        } else {
            s.subrange(open + 1, close)
        },
        open <= close,
{
    lemma_first_index_unique(s, '"', open);
    lemma_last_index_unique(s, '"', close);
}

/// The bracketed part is exactly what stands strictly between the first `[`
/// and the first `]`.
pub proof fn lemma_bracket_contents_between(s: Seq<char>, open: int, close: int)
    requires
        is_first_index(s, '[', open),
        is_first_index(s, ']', close),
    ensures
        bracket_contents_spec(s) == s.subrange(open + 1, close),
{
    lemma_first_index_unique(s, '[', open);
    lemma_first_index_unique(s, ']', close);
}

/// Trimming a trimmed text changes nothing.
pub proof fn lemma_trim_idempotent(s: Seq<char>)
    ensures
        trim_spec(trim_spec(s)) == trim_spec(s),
{
    let u = trim_start_spec(s);
    let t = trim_end_spec(u);
    lemma_trim_start_begins_solid(s);
    lemma_trim_end_prefix(u);
    if t.len() > 0 {
        assert(t[0] == u[0]);
        assert(trim_start_spec(t) == t);
        lemma_trim_end_prefix(t);
        assert(trim_end_spec(t) == t);
    } else {
        assert(trim_start_spec(t) == t);
        assert(trim_end_spec(t) == t);
    }
}

/// Removing every `c` leaves no `c`.
pub proof fn lemma_remove_all_char(s: Seq<char>, c: char)
    ensures
        !replace_spec(s, seq![c], Seq::<char>::empty()).contains(c),
    decreases s.len(),
{
    let pat = seq![c];
    let r = replace_spec(s, pat, Seq::<char>::empty());
    if s.len() >= 1 {
        if s.take(1) == pat {
            lemma_remove_all_char(s.skip(1), c);
            assert(r == Seq::<char>::empty() + replace_spec(s.skip(1), pat, Seq::<char>::empty()));
            assert(Seq::<char>::empty() + replace_spec(s.skip(1), pat, Seq::<char>::empty()) == replace_spec(s.skip(1), pat, Seq::<char>::empty()));
        } else {
            lemma_remove_all_char(s.drop_first(), c);
            let rest = replace_spec(s.drop_first(), pat, Seq::<char>::empty());
            assert(s.take(1)[0] == s[0]);
            assert(s[0] != c) by {
                if s[0] == c {
                    assert(s.take(1) == pat);
                }
            }
            assert(r == seq![s[0]] + rest);
            assert forall|i: int| 0 <= i < r.len() implies r[i] != c by {
                if i > 0 {
                    assert(r[i] == rest[i - 1]);
                }
            }
        }
    } else {
        assert(r == s);
    }
}

} // verus!
