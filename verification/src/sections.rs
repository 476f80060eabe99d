//! Cutting the objects nested at a given depth out of a JSON text, by
//! counting braces.

use vstd::prelude::*;

use crate::text::chars_between;
use crate::strings::chars_of;

verus! {

/// How a character moves the brace count: `{` opens, `}` closes.
pub open spec fn brace_step(c: char) -> int {
    if c == '{' {
        1
    } else if c == '}' {
        -1
    } else {
        0
    }
}

/// The number of `{` in `s` minus the number of `}` in `s`.
pub open spec fn nesting(s: Seq<char>) -> int
    decreases s.len(),
{
    if s.len() == 0 {
        0
    } else {
        nesting(s.drop_last()) + brace_step(s.last())
    }
}

/// The positions of the `{` of `s` that bring the brace count up to `depth + 1`,
/// in increasing order: where the sections at `depth` begin.
pub open spec fn section_starts(s: Seq<char>, depth: nat) -> Seq<int>
    decreases s.len(),
{
    if s.len() == 0 {
        Seq::empty()
    } else {
        let before = section_starts(s.drop_last(), depth);
        if s.last() == '{' && nesting(s) == depth + 1 {
            before.push(s.len() - 1)
        } else {
            before
        }
    }
}

/// The positions of the `}` of `s` that bring the brace count down to `depth`,
/// in increasing order: where the sections at `depth` end.
pub open spec fn section_ends(s: Seq<char>, depth: nat) -> Seq<int>
    decreases s.len(),
{
    if s.len() == 0 {
        Seq::empty()
    } else {
        let before = section_ends(s.drop_last(), depth);
        if s.last() == '}' && nesting(s) == depth {
            before.push(s.len() - 1)
        } else {
            before
        }
    }
}

/// The `k`-th section of `s` at `depth`: from its `{` through its `}`.
pub open spec fn section_text(s: Seq<char>, depth: nat, k: int) -> Seq<char> {
    s.subrange(section_starts(s, depth)[k], section_ends(s, depth)[k] + 1)
}

/// Sections open and close in turn: the `k`-th section closes after it opens
/// and before the next one opens, and one is left open exactly when the
/// brace count of the whole text exceeds `depth`.
pub proof fn lemma_sections_alternate(s: Seq<char>, depth: nat)
    ensures
        ({
            let starts = section_starts(s, depth);
            let ends = section_ends(s, depth);
            &&& nesting(s) > depth ==> starts.len() == ends.len() + 1
            &&& nesting(s) <= depth ==> starts.len() == ends.len()
            &&& forall|k: int| 0 <= k < ends.len() ==> starts[k] < #[trigger] ends[k]
            &&& forall|k: int| 0 <= k < ends.len() && k + 1 < starts.len() ==> ends[k] < #[trigger] starts[k + 1]
            &&& forall|k: int| 0 <= k < starts.len() ==> 0 <= #[trigger] starts[k] < s.len() && s[starts[k]] == '{'
            &&& forall|k: int| 0 <= k < ends.len() ==> 0 <= #[trigger] ends[k] < s.len() && s[ends[k]] == '}'
            &&& forall|k: int| 0 <= k < starts.len() ==> nesting(s.take(#[trigger] starts[k] + 1)) == depth + 1
            &&& forall|k: int| 0 <= k < ends.len() ==> nesting(s.take(#[trigger] ends[k] + 1)) == depth
        }),
    decreases s.len(),
{
    if s.len() > 0 {
        let t = s.drop_last();
        lemma_sections_alternate(t, depth);
        assert forall|i: int| 0 <= i < t.len() implies t[i] == s[i] by {}
        assert forall|i: int| 0 <= i <= t.len() implies #[trigger] t.take(i) == s.take(i) by {}
        assert(s.take(s.len() as int) == s);
    }
}

/// No section is left out: every `{` that brings the brace count up to
/// `depth + 1` begins a section, and every `}` that brings it down to `depth`
/// ends one.
pub proof fn lemma_sections_complete(s: Seq<char>, depth: nat)
    ensures
        forall|i: int|
            0 <= i < s.len() && s[i] == '{' && nesting(#[trigger] s.take(i + 1)) == depth + 1 ==> section_starts(
                s,
                depth,
            ).contains(i),
        forall|i: int|
            0 <= i < s.len() && s[i] == '}' && nesting(#[trigger] s.take(i + 1)) == depth ==> section_ends(
                s,
                depth,
            ).contains(i),
    decreases s.len(),
{
    if s.len() > 0 {
        let t = s.drop_last();
        lemma_sections_complete(t, depth);
        assert(s.take(s.len() as int) == s);
        assert forall|i: int|
            0 <= i < s.len() && s[i] == '{' && nesting(#[trigger] s.take(i + 1)) == depth + 1 implies section_starts(
                s,
                depth,
            ).contains(i) by {
            if i < t.len() {
                assert(t.take(i + 1) == s.take(i + 1));
                assert(t[i] == s[i]);
                let k = choose|k: int| 0 <= k < section_starts(t, depth).len() && section_starts(t, depth)[k] == i;
                assert(section_starts(s, depth)[k] == i);
            } else {
                assert(section_starts(s, depth).last() == i);
            }
        }
        assert forall|i: int|
            0 <= i < s.len() && s[i] == '}' && nesting(#[trigger] s.take(i + 1)) == depth implies section_ends(
                s,
                depth,
            ).contains(i) by {
            if i < t.len() {
                assert(t.take(i + 1) == s.take(i + 1));
                assert(t[i] == s[i]);
                let k = choose|k: int| 0 <= k < section_ends(t, depth).len() && section_ends(t, depth)[k] == i;
                assert(section_ends(s, depth)[k] == i);
            } else {
                assert(section_ends(s, depth).last() == i);
            }
        }
    }
}

/// The brace count of two texts one after the other is the sum of theirs.
pub proof fn lemma_nesting_concat(a: Seq<char>, b: Seq<char>)
    ensures
        nesting(a + b) == nesting(a) + nesting(b),
    decreases b.len(),
{
    if b.len() > 0 {
        lemma_nesting_concat(a, b.drop_last());
        assert((a + b).drop_last() == a + b.drop_last());
    } else {
        assert(a + b == a);
    }
}

/// Every section is a balanced object: as many `}` as `{` stand in it.
pub proof fn lemma_sections_balanced(s: Seq<char>, depth: nat, k: int)
    requires
        0 <= k < section_ends(s, depth).len(),
    ensures
        nesting(section_text(s, depth, k)) == 0,
{
    lemma_sections_alternate(s, depth);
    let a: int = section_starts(s, depth)[k];
    let b: int = section_ends(s, depth)[k];
    assert(a < b);
    let before = s.take(a);
    let opened = s.take(a + 1);
    assert(opened.drop_last() == before);
    assert(opened.last() == '{');
    lemma_nesting_concat(before, section_text(s, depth, k));
    assert(before + section_text(s, depth, k) == s.take(b + 1));
}

/// The sections of `s` at `depth`, in order (when every one of them closes).
pub open spec fn sections_at(s: Seq<char>, depth: nat) -> Seq<Seq<char>> {
    Seq::new(section_starts(s, depth).len(), |k: int| section_text(s, depth, k))
}

/// The sections one level down inside each of `outer`, one after the other.
pub open spec fn inner_sections(outer: Seq<Seq<char>>) -> Seq<Seq<char>>
    decreases outer.len(),
{
    if outer.len() == 0 {
        Seq::empty()
    } else {
        sections_at(outer[0], 1) + inner_sections(outer.drop_first())
    }
}

/// Positions `ps` moved right by `n`.
pub open spec fn shifted(ps: Seq<int>, n: int) -> Seq<int> {
    ps.map_values(|p: int| p + n)
}

/// Behind a text `x` whose brace count is `c`, the sections of `x + y` at
/// `depth` are those of `x` followed by those of `y` at `depth - c`.
proof fn lemma_positions_split(x: Seq<char>, y: Seq<char>, depth: nat)
    requires
        0 <= nesting(x) <= depth,
    ensures
        section_starts(x + y, depth) == section_starts(x, depth) + shifted(
            section_starts(y, (depth - nesting(x)) as nat),
            x.len() as int,
        ),
        section_ends(x + y, depth) == section_ends(x, depth) + shifted(
            section_ends(y, (depth - nesting(x)) as nat),
            x.len() as int,
        ),
    decreases y.len(),
{
    let d2 = (depth - nesting(x)) as nat;
    if y.len() == 0 {
        assert(x + y == x);
        assert(section_starts(y, d2) == Seq::<int>::empty());
        assert(section_ends(y, d2) == Seq::<int>::empty());
        assert(section_starts(x, depth) + shifted(Seq::<int>::empty(), x.len() as int) == section_starts(x, depth));
        assert(section_ends(x, depth) + shifted(Seq::<int>::empty(), x.len() as int) == section_ends(x, depth));
    } else {
        let yt = y.drop_last();
        lemma_positions_split(x, yt, depth);
        assert((x + y).drop_last() == x + yt);
        assert((x + y).last() == y.last());
        lemma_nesting_concat(x, y);
        let p = (x + y).len() - 1;
        assert(p == (y.len() - 1) + x.len());
        assert(shifted(section_starts(yt, d2).push(y.len() - 1), x.len() as int) == shifted(section_starts(yt, d2), x.len() as int).push(p));
        assert(shifted(section_ends(yt, d2).push(y.len() - 1), x.len() as int) == shifted(section_ends(yt, d2), x.len() as int).push(p));
        assert(section_starts(x, depth) + shifted(section_starts(yt, d2), x.len() as int).push(p) == (section_starts(x, depth) + shifted(section_starts(yt, d2), x.len() as int)).push(p));
        assert(section_ends(x, depth) + shifted(section_ends(yt, d2), x.len() as int).push(p) == (section_ends(x, depth) + shifted(section_ends(yt, d2), x.len() as int)).push(p));
    }
}

/// Behind a text `x` whose brace count `c` is at most `depth`, the sections of
/// `x + y` at `depth` are those of `x` followed by those of `y` at `depth - c`.
proof fn lemma_sections_split(x: Seq<char>, y: Seq<char>, depth: nat)
    requires
        0 <= nesting(x) <= depth,
        nesting(x + y) <= depth,
    ensures
        sections_at(x + y, depth) == sections_at(x, depth) + sections_at(y, (depth - nesting(x)) as nat),
{
    let d2 = (depth - nesting(x)) as nat;
    lemma_positions_split(x, y, depth);
    lemma_nesting_concat(x, y);
    lemma_sections_alternate(x, depth);
    lemma_sections_alternate(y, d2);
    lemma_sections_alternate(x + y, depth);
    let s = x + y;
    let nx = section_starts(x, depth).len();
    let whole = sections_at(s, depth);
    let parts = sections_at(x, depth) + sections_at(y, d2);
    assert(whole.len() == parts.len());
    assert forall|k: int| 0 <= k < whole.len() implies whole[k] == parts[k] by {
        if k < nx {
            let a = section_starts(x, depth)[k];
            let b = section_ends(x, depth)[k];
            assert(section_starts(s, depth)[k] == a);
            assert(section_ends(s, depth)[k] == b);
            assert(s.subrange(a, b + 1) == x.subrange(a, b + 1));
        } else {
            let j = k - nx;
            let a = section_starts(y, d2)[j];
            let b = section_ends(y, d2)[j];
            assert(section_starts(s, depth)[k] == a + x.len());
            assert(section_ends(s, depth)[k] == b + x.len());
            assert(s.subrange(a + x.len(), b + x.len() + 1) == y.subrange(a, b + 1));
        }
    }
    assert(whole == parts);
}

/// A text with no section at `depth` never goes deeper than `depth`, so it
/// has no section one level down either.
proof fn lemma_no_sections(t: Seq<char>, depth: nat)
    requires
        section_starts(t, depth).len() == 0,
    ensures
        nesting(t) <= depth,
        section_ends(t, depth).len() == 0,
        section_starts(t, depth + 1).len() == 0,
        section_ends(t, depth + 1).len() == 0,
    decreases t.len(),
{
    if t.len() > 0 {
        lemma_no_sections(t.drop_last(), depth);
    }
}

/// The sections one level deeper are the sections one level down inside each
/// section, in order: cutting at `depth + 1` is cutting at `depth` and then
/// cutting each piece at `1`.
pub proof fn lemma_sections_one_level_down(s: Seq<char>, depth: nat)
    requires
        nesting(s) <= depth,
    ensures
        sections_at(s, depth + 1) == inner_sections(sections_at(s, depth)),
    decreases s.len(),
{
    lemma_sections_alternate(s, depth);
    let starts = section_starts(s, depth);
    let ends = section_ends(s, depth);
    if starts.len() == 0 {
        lemma_no_sections(s, depth);
        assert(sections_at(s, depth + 1) == Seq::<Seq<char>>::empty());
        assert(sections_at(s, depth) == Seq::<Seq<char>>::empty());
    } else {
        let a0 = starts[0];
        let b0 = ends[0];
        let x = s.take(a0);
        let y = s.skip(a0);
        assert(s == x + y);
        assert(s.take(a0 + 1).drop_last() == x);
        assert(s.take(a0 + 1).last() == '{');
        assert(nesting(x) == depth);
        // no section of `x` at `depth`: the first one of `s` begins at `a0`
        lemma_positions_split(x, y, depth);
        lemma_sections_alternate(x, depth);
        if section_starts(x, depth).len() > 0 {
            assert(starts[0] == section_starts(x, depth)[0]);
        }
        lemma_no_sections(x, depth);
        lemma_sections_split(x, y, depth);
        lemma_sections_split(x, y, depth + 1);
        assert(sections_at(x, depth) == Seq::<Seq<char>>::empty());
        assert(sections_at(x, depth + 1) == Seq::<Seq<char>>::empty());
        assert(sections_at(s, depth) == sections_at(y, 0));
        assert(sections_at(s, depth + 1) == sections_at(y, 1));
        // the first section `e`, and what follows it
        let n = b0 - a0 + 1;
        let e = y.take(n);
        let rest = y.skip(n);
        assert(y == e + rest);
        assert(x + e == s.take(b0 + 1));
        lemma_nesting_concat(x, e);
        lemma_nesting_concat(x, y);
        lemma_nesting_concat(e, rest);
        assert(nesting(e) == 0);
        lemma_sections_split(e, rest, 0);
        lemma_sections_split(e, rest, 1);
        // `e` holds exactly one section at `0`: itself
        lemma_positions_split(e, rest, 0);
        lemma_sections_alternate(e, 0);
        lemma_sections_alternate(y, 0);
        let ys = section_starts(y, 0);
        assert(starts == shifted(ys, a0)) by {
            assert(section_starts(x, depth) == Seq::<int>::empty());
            assert(Seq::<int>::empty() + shifted(ys, a0) == shifted(ys, a0));
        }
        assert(ys[0] == 0) by {
            assert(starts[0] == ys[0] + a0);
        }
        let es = section_starts(e, 0);
        if es.len() == 0 {
            assert(ys[0] == shifted(section_starts(rest, 0), n)[0]);
            lemma_sections_alternate(rest, 0);
            assert(section_starts(rest, 0)[0] >= 0);
        }
        if es.len() > 1 {
            assert(ys[1] == es[1]);
            assert(es[1] < e.len());
            assert(starts[1] == ys[1] + a0);
            assert(ends[0] < starts[1]);
        }
        assert(es.len() == 1);
        assert(sections_at(e, 0).len() == 1);
        assert(sections_at(y, 0)[0] == sections_at(e, 0)[0]);
        assert(sections_at(y, 0)[0] == sections_at(s, depth)[0]);
        assert(sections_at(s, depth)[0] == s.subrange(a0, b0 + 1));
        assert(s.subrange(a0, b0 + 1) == e);
        assert(sections_at(e, 0) == seq![e]);
        // by induction on what follows `e`
        assert(nesting(rest) <= 0);
        lemma_sections_one_level_down(rest, 0);
        let outer = sections_at(s, depth);
        assert(outer == seq![e] + sections_at(rest, 0));
        assert(outer[0] == e);
        assert(outer.drop_first() == sections_at(rest, 0));
    }
}

/// The objects of `source` that open at brace depth `depth` (counted from
/// the start of the text), each from its `{` through its matching `}`, in the
/// order in which they stand.
pub fn unwrap_response(source: String, depth: usize) -> (sections: Vec<String>)
    requires
        nesting(source@) <= depth,
    ensures
        sections.len() == section_starts(source@, depth as nat).len(),
        forall|k: int|
            0 <= k < sections.len() ==> #[trigger] sections[k]@ == section_text(source@, depth as nat, k),
        forall|k: int|
            0 <= k < sections.len() ==> (#[trigger] sections[k]@).first() == '{' && sections[k]@.last() == '}',
{
    let chars = chars_of(source.as_str());
    let ghost s = source@;
    let ghost d: nat = depth as nat;
    let mut starts: Vec<usize> = Vec::new();
    let mut ends: Vec<usize> = Vec::new();
    let mut open: usize = 0;
    let mut close: usize = 0;
    let mut i: usize = 0;
    while i < chars.len()
        invariant
            chars@ == s,
            d == depth,
            i <= chars.len(),
            open <= i,
            close <= i,
            open - close == nesting(s.take(i as int)),
            starts@.map_values(|p: usize| p as int) == section_starts(s.take(i as int), d),
            ends@.map_values(|p: usize| p as int) == section_ends(s.take(i as int), d),
        decreases chars.len() - i,
    {
        let c = chars[i];
        let ghost prefix = s.take(i + 1);
        assert(prefix.drop_last() == s.take(i as int));
        assert(prefix.last() == c);
        if c == '{' {
            open = open + 1;
            if open > close && open - close - 1 == depth {
                starts.push(i);
            }
        } else if c == '}' {
            close = close + 1;
            if open >= close && open - close == depth {
                ends.push(i);
            }
        }
        i = i + 1;
        assert(starts@.map_values(|p: usize| p as int) == section_starts(s.take(i as int), d));
        assert(ends@.map_values(|p: usize| p as int) == section_ends(s.take(i as int), d));
    }
    assert(s.take(i as int) == s);
    proof {
        lemma_sections_alternate(s, d);
    }
    let ghost starts_spec = section_starts(s, d);
    let ghost ends_spec = section_ends(s, d);
    assert(starts@.len() == starts_spec.len());
    assert(forall|k: int| 0 <= k < starts@.len() ==> starts@[k] as int == #[trigger] starts_spec[k]);
    assert(forall|k: int| 0 <= k < ends@.len() ==> ends@[k] as int == #[trigger] ends_spec[k]);
    let mut sections: Vec<String> = Vec::new();
    let mut k: usize = 0;
    while k < starts.len()
        invariant
            chars@ == s,
            starts@.len() == starts_spec.len(),
            ends@.len() == ends_spec.len(),
            starts_spec.len() == ends_spec.len(),
            forall|j: int| 0 <= j < starts@.len() ==> starts@[j] as int == #[trigger] starts_spec[j],
            forall|j: int| 0 <= j < ends@.len() ==> ends@[j] as int == #[trigger] ends_spec[j],
            forall|j: int| 0 <= j < ends_spec.len() ==> starts_spec[j] < #[trigger] ends_spec[j],
            forall|j: int| 0 <= j < ends_spec.len() ==> 0 <= #[trigger] ends_spec[j] < s.len() && s[ends_spec[j]] == '}',
            forall|j: int| 0 <= j < starts_spec.len() ==> 0 <= #[trigger] starts_spec[j] < s.len() && s[starts_spec[j]] == '{',
            k <= starts@.len(),
            sections.len() == k,
            forall|j: int| 0 <= j < k ==> #[trigger] sections[j]@ == s.subrange(starts_spec[j], ends_spec[j] + 1),
        decreases starts.len() - k,
    {
        let from: usize = starts[k];
        let to: usize = ends[k];
        assert(starts_spec[k as int] < ends_spec[k as int]);
        let part = chars_between(&chars, from, to + 1);
        sections.push(part);
        k = k + 1;
    }
    assert forall|j: int| 0 <= j < sections.len() implies (#[trigger] sections[j]@).first() == '{'
        && sections[j]@.last() == '}' by {
        assert(sections[j]@ == s.subrange(starts_spec[j], ends_spec[j] + 1));
    }
    sections
}

/// Whether every section of `source` at `depth` closes, which is what
/// `unwrap_response` needs: the brace count of the whole text is at most
/// `depth`.
pub fn sections_close(source: &str, depth: usize) -> (closes: bool)
    ensures
        closes == (nesting(source@) <= depth),
{
    let chars = chars_of(source);
    let ghost s = source@;
    let mut open: usize = 0;
    let mut close: usize = 0;
    let mut i: usize = 0;
    while i < chars.len()
        invariant
            chars@ == s,
            i <= chars.len(),
            open <= i,
            close <= i,
            open - close == nesting(s.take(i as int)),
        decreases chars.len() - i,
    {
        let ghost prefix = s.take(i + 1);
        assert(prefix.drop_last() == s.take(i as int));
        if chars[i] == '{' {
            open = open + 1;
        } else if chars[i] == '}' {
            close = close + 1;
        }
        i = i + 1;
    }
    assert(s.take(i as int) == s);
    open <= close || open - close <= depth
}

} // verus!
