//! Stripping the square brackets from a player-search reply. Positions are
//! byte offsets into the UTF-8 text, and after the first removal each next
//! position is the offset of the next bracket *relative to* the byte after
//! the removed one, taken as a position in the whole text. On an ASCII reply
//! with a single `[` and a single `]`, neither at the very end, just those two
//! go (`lemma_fix_json_single_brackets`); elsewhere other characters may go in
//! their place.

use vstd::prelude::*;
use vstd::utf8::{encode_scalar, encode_utf8, is_ascii_chars};

use crate::strings::{chars_of, string_from_chars};

verus! {

/// The number of bytes of the UTF-8 encoding of `c`.
pub open spec fn utf8_width(c: char) -> nat {
    encode_scalar(c as u32).len()
}

/// The number of bytes of the UTF-8 encoding of `s`.
pub open spec fn utf8_len(s: Seq<char>) -> nat
    decreases s.len(),
{
    if s.len() == 0 {
        0
    } else {
        utf8_len(s.drop_last()) + utf8_width(s.last())
    }
}

/// The byte offset at which the character at position `k` of `s` begins
/// (the byte length of `s` for `k == s.len()`).
pub open spec fn byte_offset(s: Seq<char>, k: int) -> nat {
    utf8_len(s.take(k))
}

/// `k` is the first `target` of `s` that begins at byte `start` or later.
pub open spec fn is_first_from(s: Seq<char>, target: char, start: int, k: int) -> bool {
    &&& 0 <= k < s.len()
    &&& s[k] == target
    &&& byte_offset(s, k) >= start
    &&& forall|j: int| 0 <= j < k && byte_offset(s, j) >= start ==> s[j] != target
}

/// What `s[start..].find(target)` gives: the byte offset of the first
/// `target` at or after byte `start`, counted from `start`.
pub open spec fn find_from(s: Seq<char>, target: char, start: int) -> Option<int> {
    if exists|k: int| is_first_from(s, target, start, k) {
        Some(byte_offset(s, choose|k: int| is_first_from(s, target, start, k)) - start)
    } else {
        None
    }
}

/// Byte `p` of `s` is where a character of `s` begins.
pub open spec fn starts_char(s: Seq<char>, p: int) -> bool {
    exists|j: int| 0 <= j < s.len() && byte_offset(s, j) == p
}

/// Byte `p` of `s` is a character boundary (the end of `s` counts as one).
pub open spec fn is_boundary(s: Seq<char>, p: int) -> bool {
    exists|j: int| 0 <= j <= s.len() && byte_offset(s, j) == p
}

/// The character of `s` that begins at byte `p`.
pub open spec fn char_at_byte(s: Seq<char>, p: int) -> int {
    choose|j: int| 0 <= j < s.len() && byte_offset(s, j) == p
}

/// One removal loop, from the state where `pending` is the position found
/// last: remove the character that begins at that byte, then search again
/// from the byte after it, the offset found being taken as the next position.
/// `None` where the text would be cut inside a character or past its end.
pub open spec fn removal_pass(buf: Seq<char>, target: char, pending: Option<int>) -> Option<Seq<char>>
    decreases buf.len(),
{
    match pending {
        None => Some(buf),
        Some(p) => {
            if starts_char(buf, p) {
                let rest = buf.remove(char_at_byte(buf, p));
                if is_boundary(rest, p + 1) {
                    removal_pass(rest, target, find_from(rest, target, p + 1))
                } else {
                    None
                }
            } else {
                None
            }
        },
    }
}

/// What `fix_json` makes of `s`: a removal loop for `[`, then one for `]`;
/// `None` where the text would be cut inside a character or past its end.
pub open spec fn fix_json_spec(s: Seq<char>) -> Option<Seq<char>> {
    match removal_pass(s, '[', find_from(s, '[', 0)) {
        Some(t) => removal_pass(t, ']', find_from(t, ']', 0)),
        None => None,
    }
}

/// A character takes one to four bytes.
pub proof fn lemma_width_bounds(c: char)
    ensures
        1 <= utf8_width(c) <= 4,
{
}

/// The byte length of two texts one after the other is the sum of theirs.
pub proof fn lemma_utf8_len_concat(a: Seq<char>, b: Seq<char>)
    ensures
        utf8_len(a + b) == utf8_len(a) + utf8_len(b),
    decreases b.len(),
{
    if b.len() > 0 {
        lemma_utf8_len_concat(a, b.drop_last());
        assert((a + b).drop_last() == a + b.drop_last());
    } else {
        assert(a + b == a);
    }
}

/// `utf8_len` is the length of the UTF-8 encoding that std stores for a string.
pub proof fn lemma_utf8_len_is_encoding_len(s: Seq<char>)
    ensures
        utf8_len(s) == encode_utf8(s).len(),
    decreases s.len(),
{
    if s.len() > 0 {
        lemma_utf8_len_is_encoding_len(s.drop_first());
        lemma_utf8_len_concat(seq![s[0]], s.drop_first());
        assert(seq![s[0]] + s.drop_first() == s);
        let one = seq![s[0]];
        assert(one.drop_last() == Seq::<char>::empty());
        assert(utf8_len(Seq::<char>::empty()) == 0);
        assert(one.last() == s[0]);
        assert(utf8_len(one) == utf8_width(s[0]));
        assert(encode_utf8(s) == encode_scalar(s[0] as u32) + encode_utf8(s.drop_first()));
    }
}

/// Each character adds its width to the byte offset.
proof fn lemma_offset_step(s: Seq<char>, k: int)
    requires
        0 <= k < s.len(),
    ensures
        byte_offset(s, k + 1) == byte_offset(s, k) + utf8_width(s[k]),
{
    assert(s.take(k + 1).drop_last() == s.take(k));
}

/// Byte offsets grow strictly with the position.
proof fn lemma_offset_strict(s: Seq<char>, j1: int, j2: int)
    requires
        0 <= j1 < j2 <= s.len(),
    ensures
        byte_offset(s, j1) < byte_offset(s, j2),
    decreases j2 - j1,
{
    lemma_offset_step(s, j2 - 1);
    lemma_width_bounds(s[j2 - 1]);
    if j1 < j2 - 1 {
        lemma_offset_strict(s, j1, j2 - 1);
    }
}

/// Two positions that begin at the same byte are the same position.
proof fn lemma_offset_injective(s: Seq<char>, j1: int, j2: int)
    requires
        0 <= j1 <= s.len(),
        0 <= j2 <= s.len(),
        byte_offset(s, j1) == byte_offset(s, j2),
    ensures
        j1 == j2,
{
    if j1 < j2 {
        lemma_offset_strict(s, j1, j2);
    } else if j2 < j1 {
        lemma_offset_strict(s, j2, j1);
    }
}

/// No offset exceeds the byte length.
proof fn lemma_offset_le_len(s: Seq<char>, k: int)
    requires
        0 <= k <= s.len(),
    ensures
        byte_offset(s, k) <= utf8_len(s),
{
    assert(s.take(s.len() as int) == s);
    if k < s.len() {
        lemma_offset_strict(s, k, s.len() as int);
    }
}

/// Removing a character shortens the byte length.
proof fn lemma_remove_shorter(s: Seq<char>, j: int)
    requires
        0 <= j < s.len(),
    ensures
        utf8_len(s.remove(j)) < utf8_len(s),
{
    let a = s.subrange(0, j);
    let b = s.subrange(j + 1, s.len() as int);
    lemma_utf8_len_concat(a, b);
    lemma_utf8_len_concat(a, seq![s[j]]);
    lemma_utf8_len_concat(a + seq![s[j]], b);
    assert(a + seq![s[j]] + b == s);
    assert(seq![s[j]].drop_last() == Seq::<char>::empty());
    lemma_width_bounds(s[j]);
}

/// The number of bytes of the UTF-8 encoding of `c`.
fn byte_width(c: char) -> (w: usize)
    ensures
        w == utf8_width(c),
{
    let v: u32 = c as u32;
    if v <= 0x7F {
        1
    } else if v <= 0x7FF {
        2
    } else if v <= 0xFFFF && !(0xD800 <= v && v <= 0xDFFF) {
        3
    } else {
        4
    }
}

/// A first match is what `find_from` reports.
proof fn lemma_find_from_hit(s: Seq<char>, target: char, start: int, k: int)
    requires
        is_first_from(s, target, start, k),
    ensures
        find_from(s, target, start) == Some(byte_offset(s, k) - start),
{
    let k2: int = choose|k2: int| is_first_from(s, target, start, k2);
    assert(is_first_from(s, target, start, k2));
    if k2 < k {
        assert(s[k2] != target);
    } else if k < k2 {
        assert(s[k] != target);
    }
}

/// Without a match, `find_from` reports none.
proof fn lemma_find_from_miss(s: Seq<char>, target: char, start: int)
    requires
        forall|j: int| 0 <= j < s.len() && byte_offset(s, j) >= start ==> #[trigger] s[j] != target,
    ensures
        find_from(s, target, start) is None,
{
    assert forall|k: int| !is_first_from(s, target, start, k) by {
        if 0 <= k < s.len() && byte_offset(s, k) >= start {
            assert(s[k] != target);
        }
    }
}

/// `s[start..].find(target)` on the characters `buf`, `start` a byte offset.
fn find_from_exec(buf: &Vec<char>, target: char, start: usize) -> (found: Option<usize>)
    requires
        utf8_len(buf@) <= usize::MAX,
    ensures
        match found {
            Some(r) => find_from(buf@, target, start as int) == Some(r as int),
            None => find_from(buf@, target, start as int) is None,
        },
{
    let ghost s = buf@;
    let mut k: usize = 0;
    let mut off: usize = 0;
    while k < buf.len()
        invariant
            s == buf@,
            utf8_len(s) <= usize::MAX,
            k <= buf.len(),
            off == byte_offset(s, k as int),
            forall|j: int| 0 <= j < k && byte_offset(s, j) >= start ==> #[trigger] s[j] != target,
        decreases buf.len() - k,
    {
        if buf[k] == target && off >= start {
            proof {
                lemma_find_from_hit(s, target, start as int, k as int);
            }
            return Some(off - start);
        }
        proof {
            lemma_offset_step(s, k as int);
            lemma_offset_le_len(s, k + 1);
        }
        off = off + byte_width(buf[k]);
        k = k + 1;
    }
    proof {
        lemma_find_from_miss(s, target, start as int);
    }
    None
}

/// The position whose character begins at byte `p` of `buf` (the length of
/// `buf` when `p` is its byte length), if there is one.
fn index_at_byte(buf: &Vec<char>, p: usize) -> (found: Option<usize>)
    requires
        utf8_len(buf@) <= usize::MAX,
    ensures
        match found {
            Some(j) => j <= buf.len() && byte_offset(buf@, j as int) == p,
            None => !is_boundary(buf@, p as int),
        },
{
    let ghost s = buf@;
    let mut k: usize = 0;
    let mut off: usize = 0;
    while k < buf.len()
        invariant
            s == buf@,
            utf8_len(s) <= usize::MAX,
            k <= buf.len(),
            off == byte_offset(s, k as int),
            forall|j: int| 0 <= j < k ==> byte_offset(s, j) != p,
        decreases buf.len() - k,
    {
        if off == p {
            return Some(k);
        }
        if off > p {
            assert forall|j: int| 0 <= j <= s.len() implies byte_offset(s, j) != p by {
                if j > k {
                    lemma_offset_strict(s, k as int, j);
                }
            }
            return None;
        }
        proof {
            lemma_offset_step(s, k as int);
            lemma_offset_le_len(s, k + 1);
        }
        off = off + byte_width(buf[k]);
        k = k + 1;
    }
    if off == p {
        return Some(k);
    }
    None
}

/// Runs one removal loop for `target` on `buf`; `false` where the loop would
/// cut the text inside a character or past its end.
fn remove_pass(buf: &mut Vec<char>, target: char) -> (done: bool)
    requires
        utf8_len(old(buf)@) <= usize::MAX,
    ensures
        done ==> removal_pass(old(buf)@, target, find_from(old(buf)@, target, 0)) == Some(final(buf)@),
        !done ==> removal_pass(old(buf)@, target, find_from(old(buf)@, target, 0)) is None,
{
    let ghost goal = removal_pass(buf@, target, find_from(buf@, target, 0));
    let mut pending = find_from_exec(buf, target, 0);
    let ghost mut pending_spec: Option<int> = find_from(buf@, target, 0);
    loop
        invariant
            utf8_len(buf@) <= usize::MAX,
            goal == removal_pass(old(buf)@, target, find_from(old(buf)@, target, 0)),
            removal_pass(buf@, target, pending_spec) == goal,
            match pending {
                Some(p) => pending_spec == Some(p as int),
                None => pending_spec is None,
            },
        ensures
            goal == Some(buf@),
        decreases buf.len(),
    {
        match pending {
            None => {
                break;
            },
            Some(p) => {
                let ghost s = buf@;
                let found = index_at_byte(buf, p);
                match found {
                    Some(j) => {
                        if j == buf.len() {
                            assert(!starts_char(s, p as int)) by {
                                if starts_char(s, p as int) {
                                    let j2: int = choose|j2: int| 0 <= j2 < s.len() && byte_offset(s, j2) == p;
                                    lemma_offset_injective(s, j as int, j2);
                                }
                            }
                            assert(removal_pass(s, target, Some(p as int)) is None);
                            return false;
                        }
                        let ghost j_spec: int = char_at_byte(s, p as int);
                        proof {
                            lemma_offset_injective(s, j as int, j_spec);
                            lemma_remove_shorter(s, j as int);
                            lemma_offset_strict(s, j as int, j + 1);
                            lemma_offset_le_len(s, j + 1);
                        }
                        buf.remove(j);
                        let ghost rest = buf@;
                        assert(rest == s.remove(j_spec));
                        match index_at_byte(buf, p + 1) {
                            Some(m) => {
                                proof {
                                    lemma_offset_le_len(rest, m as int);
                                }
                            },
                            None => {
                                assert(removal_pass(s, target, Some(p as int)) is None);
                                return false;
                            },
                        }
                        pending = find_from_exec(buf, target, p + 1);
                        proof {
                            pending_spec = find_from(rest, target, p + 1);
                        }
                    },
                    None => {
                        assert(!starts_char(s, p as int));
                        assert(removal_pass(s, target, Some(p as int)) is None);
                        return false;
                    },
                }
            },
        }
    }
    true
}

/// What `fix_json` makes of `buf`, or `None` where it would cut the text
/// inside a character or past its end.
pub fn try_fix_json(buf: String) -> (fixed: Option<String>)
    requires
        utf8_len(buf@) <= usize::MAX,
    ensures
        match fixed {
            Some(t) => fix_json_spec(buf@) == Some(t@),
            None => fix_json_spec(buf@) is None,
        },
{
    let mut chars = chars_of(buf.as_str());
    if !remove_pass(&mut chars, '[') {
        return None;
    }
    proof {
        lemma_removal_pass_shorter(buf@, '[', find_from(buf@, '[', 0));
    }
    if !remove_pass(&mut chars, ']') {
        return None;
    }
    Some(string_from_chars(chars.as_slice()))
}

/// Strips the square brackets from a player-search reply so that it parses
/// as a single object: every `[` first, then every `]`, each removal loop
/// finding its next position relative to the byte after the character it
/// removed last.
pub fn fix_json(buf: String) -> (fixed: String)
    requires
        utf8_len(buf@) <= usize::MAX,
        fix_json_spec(buf@) is Some,
    ensures
        fix_json_spec(buf@) == Some(fixed@),
{
    match try_fix_json(buf) {
        Some(t) => t,
        None => {
            assert(false);
            String::new()
        },
    }
}

/// A removal loop never lengthens the text.
pub proof fn lemma_removal_pass_shorter(buf: Seq<char>, target: char, pending: Option<int>)
    ensures
        removal_pass(buf, target, pending) matches Some(r) ==> r.len() <= buf.len() && utf8_len(r) <= utf8_len(buf),
    decreases buf.len(),
{
    if let Some(p) = pending {
        if starts_char(buf, p) {
            let j: int = char_at_byte(buf, p);
            let rest = buf.remove(j);
            lemma_remove_shorter(buf, j);
            lemma_removal_pass_shorter(rest, target, find_from(rest, target, p + 1));
        }
    }
}

/// A text without square brackets comes out of `fix_json` unchanged.
pub proof fn lemma_fix_json_without_brackets(s: Seq<char>)
    requires
        !s.contains('['),
        !s.contains(']'),
    ensures
        fix_json_spec(s) == Some(s),
{
    assert(find_from(s, '[', 0) is None);
    assert(find_from(s, ']', 0) is None);
}

/// `fix_json` never lengthens the text.
pub proof fn lemma_fix_json_shorter(s: Seq<char>)
    ensures
        fix_json_spec(s) matches Some(r) ==> r.len() <= s.len(),
{
    lemma_removal_pass_shorter(s, '[', find_from(s, '[', 0));
    if let Some(t) = removal_pass(s, '[', find_from(s, '[', 0)) {
        lemma_removal_pass_shorter(t, ']', find_from(t, ']', 0));
    }
}

/// In ASCII text every character is one byte, so byte offsets are positions.
proof fn lemma_ascii_offsets(s: Seq<char>, k: int)
    requires
        is_ascii_chars(s),
        0 <= k <= s.len(),
    ensures
        byte_offset(s, k) == k,
    decreases k,
{
    if k > 0 {
        lemma_ascii_offsets(s, k - 1);
        lemma_offset_step(s, k - 1);
        assert('\0' <= s[k - 1] <= '\u{7f}');
    } else {
        assert(s.take(0) == Seq::<char>::empty());
    }
}

/// A removal loop on ASCII text with a single `target`, not in last place,
/// removes just that character.
proof fn lemma_single_removal(buf: Seq<char>, target: char, a: int)
    requires
        is_ascii_chars(buf),
        0 <= a,
        a + 1 < buf.len(),
        buf[a] == target,
        forall|j: int| 0 <= j < buf.len() && j != a ==> buf[j] != target,
    ensures
        removal_pass(buf, target, find_from(buf, target, 0)) == Some(buf.remove(a)),
{
    lemma_ascii_offsets(buf, a);
    lemma_find_from_hit(buf, target, 0, a);
    assert(starts_char(buf, a));
    let j: int = char_at_byte(buf, a);
    lemma_offset_injective(buf, j, a);
    let rest = buf.remove(a);
    assert(is_ascii_chars(rest)) by {
        assert forall|i: int| 0 <= i < rest.len() implies '\0' <= #[trigger] rest[i] <= '\u{7f}' by {
            if i < a {
                assert(rest[i] == buf[i]);
            } else {
                assert(rest[i] == buf[i + 1]);
            }
        }
    }
    lemma_ascii_offsets(rest, a + 1);
    assert(is_boundary(rest, a + 1));
    assert forall|i: int| 0 <= i < rest.len() && byte_offset(rest, i) >= a + 1 implies #[trigger] rest[i] != target by {
        if i < a {
            assert(rest[i] == buf[i]);
        } else {
            assert(rest[i] == buf[i + 1]);
        }
    }
    lemma_find_from_miss(rest, target, a + 1);
    assert(find_from(buf, target, 0) == Some(a));
    assert(removal_pass(rest, target, find_from(rest, target, a + 1)) == Some(rest));
}

/// On ASCII text with a single `[` and a single `]`, neither in last place,
/// `fix_json` removes exactly those two brackets.
pub proof fn lemma_fix_json_single_brackets(s: Seq<char>, a: int, b: int)
    requires
        is_ascii_chars(s),
        0 <= a && a + 1 < s.len(),
        0 <= b && b + 1 < s.len(),
        s[a] == '[',
        s[b] == ']',
        forall|j: int| 0 <= j < s.len() && j != a ==> s[j] != '[',
        forall|j: int| 0 <= j < s.len() && j != b ==> s[j] != ']',
    ensures
        fix_json_spec(s) == Some(s.remove(a).remove(if b > a { b - 1 } else { b })),
{
    lemma_single_removal(s, '[', a);
    let t = s.remove(a);
    let b2: int = if b > a { b - 1 } else { b };
    assert(t[b2] == ']');
    assert forall|j: int| 0 <= j < t.len() && j != b2 implies t[j] != ']' by {
        if j < a {
            assert(t[j] == s[j]);
        } else {
            assert(t[j] == s[j + 1]);
        }
    }
    assert(is_ascii_chars(t)) by {
        assert forall|i: int| 0 <= i < t.len() implies '\0' <= #[trigger] t[i] <= '\u{7f}' by {
            if i < a {
                assert(t[i] == s[i]);
            } else {
                assert(t[i] == s[i + 1]);
            }
        }
    }
    lemma_single_removal(t, ']', b2);
}

} // verus!
