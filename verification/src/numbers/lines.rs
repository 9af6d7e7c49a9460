//! Lines and words of a text, as stretches of its characters.

use crate::text::{
    all_digits, decimal_u64, decimal_value, first_index, is_white, lemma_first_index,
    lemma_word_len, lines, next_word, trimmed, trimmed_end, trimmed_start, word_len, Trim,
};
use vstd::prelude::*;

verus! {

/// Whether characters `a` to `b` of `text` are one of its lines: no line
/// feed is among them, and one stands on either side, or the text ends.
pub open spec fn line_at(text: Seq<char>, a: int, b: int) -> bool {
    &&& 0 <= a <= b <= text.len()
    &&& a == 0 || text[a - 1] == '\n'
    &&& b == text.len() || text[b] == '\n'
    &&& forall|k: int| a <= k < b ==> #[trigger] text[k] != '\n'
}

/// The lines of `text` before character `a`, which begins one.
pub open spec fn lines_before(text: Seq<char>, a: int) -> Seq<Seq<char>> {
    if a <= 0 {
        Seq::empty()
    } else {
        lines(text.subrange(0, a - 1))
    }
}

/// The lines of `text` after character `b`, which ends one.
pub open spec fn lines_after(text: Seq<char>, b: int) -> Seq<Seq<char>> {
    if b >= text.len() {
        Seq::empty()
    } else {
        lines(text.subrange(b + 1, text.len() as int))
    }
}

proof fn lemma_index_is(s: Seq<char>, c: char, i: int)
    requires
        0 <= i <= s.len(),
        i < s.len() ==> s[i] == c,
        forall|k: int| 0 <= k < i ==> s[k] != c,
    ensures
        first_index(s, c) == i,
{
    lemma_first_index(s, c);
}

proof fn lemma_split_lines(text: Seq<char>, p: int)
    requires
        1 <= p <= text.len(),
        text[p - 1] == '\n',
    ensures
        lines(text) == lines(text.subrange(0, p - 1)) + lines(text.subrange(p, text.len() as int)),
    decreases text.len(),
{
    let n = text.len() as int;
    let i = first_index(text, '\n');
    lemma_first_index(text, '\n');
    let head = text.subrange(0, p - 1);
    let tail = text.subrange(p, n);
    if i == p - 1 {
        lemma_index_is(head, '\n', p - 1);
        assert(lines(text) =~= lines(head) + lines(tail));
    } else {
        lemma_index_is(head, '\n', i);
        let rest = text.subrange(i + 1, n);
        lemma_split_lines(rest, p - i - 1);
        assert(rest.subrange(0, p - i - 2) =~= head.subrange(i + 1, p - 1));
        assert(rest.subrange(p - i - 1, rest.len() as int) =~= tail);
        assert(head.subrange(0, i) =~= text.subrange(0, i));
        assert(lines(text) =~= lines(head) + lines(tail));
    }
}

/// A text is its lines, in order: those before a line, the line, and those
/// after it.
pub proof fn law_a_text_is_its_lines(text: Seq<char>, a: int, b: int)
    requires
        line_at(text, a, b),
    ensures
        lines(text) == lines_before(text, a) + seq![text.subrange(a, b)] + lines_after(text, b),
{
    let n = text.len() as int;
    let from = text.subrange(a, n);
    lemma_index_is(from, '\n', b - a);
    assert(from.subrange(0, b - a) =~= text.subrange(a, b));
    if b < n {
        assert(from.subrange(b - a + 1, from.len() as int) =~= text.subrange(b + 1, n));
    } else {
        assert(from =~= text.subrange(a, b));
    }
    assert(lines(from) =~= seq![text.subrange(a, b)] + lines_after(text, b));
    if a > 0 {
        lemma_split_lines(text, a);
    } else {
        assert(from =~= text);
    }
    assert(lines(text) =~= lines_before(text, a) + seq![text.subrange(a, b)] + lines_after(text, b));
}

/// Every line of a text is a stretch of it.
pub proof fn lemma_line_is_a_stretch(text: Seq<char>, i: int) -> (r: (int, int))
    requires
        0 <= i < lines(text).len(),
    ensures
        line_at(text, r.0, r.1),
        lines(text)[i] == text.subrange(r.0, r.1),
    decreases text.len(),
{
    let n = text.len() as int;
    let j = first_index(text, '\n');
    lemma_first_index(text, '\n');
    if j >= n {
        assert(text.subrange(0, n) =~= text);
        (0, n)
    } else if i == 0 {
        (0, j)
    } else {
        let rest = text.subrange(j + 1, n);
        let r = lemma_line_is_a_stretch(rest, i - 1);
        let (a, b) = (r.0 + j + 1, r.1 + j + 1);
        assert(rest.subrange(r.0, r.1) =~= text.subrange(a, b));
        assert forall|k: int| a <= k < b implies #[trigger] text[k] != '\n' by {
            assert(rest[k - j - 1] == text[k]);
        }
        assert(r.0 > 0 ==> rest[r.0 - 1] == text[a - 1]);
        assert(r.1 < rest.len() ==> rest[r.1] == text[b]);
        (a, b)
    }
}

/// Trimming gives a stretch of what it trims, and takes only characters of
/// its set away.
pub proof fn lemma_trimmed_stretch(s: Seq<char>, set: Trim) -> (r: (int, int))
    ensures
        0 <= r.0 <= r.1 <= s.len(),
        trimmed(s, set) == s.subrange(r.0, r.1),
        forall|k: int| 0 <= k < r.0 ==> set.has(#[trigger] s[k]),
        forall|k: int| r.1 <= k < s.len() ==> set.has(#[trigger] s[k]),
        r.0 < r.1 ==> !set.has(s[r.0]) && !set.has(s[r.1 - 1]),
{
    let a = lemma_start_stretch(s, set);
    let t = trimmed_start(s, set);
    let m = lemma_end_stretch(t, set);
    assert(t.subrange(0, m) =~= s.subrange(a, a + m));
    assert forall|k: int| a + m <= k < s.len() implies set.has(#[trigger] s[k]) by {
        assert(t[k - a] == s[k]);
    }
    if m > 0 {
        assert(t[m - 1] == s[a + m - 1]);
    }
    (a, a + m)
}

pub proof fn lemma_start_stretch(s: Seq<char>, set: Trim) -> (a: int)
    ensures
        0 <= a <= s.len(),
        trimmed_start(s, set) == s.subrange(a, s.len() as int),
        forall|k: int| 0 <= k < a ==> set.has(#[trigger] s[k]),
        a < s.len() ==> !set.has(s[a]),
    decreases s.len(),
{
    if s.len() > 0 && set.has(s[0]) {
        let t = s.subrange(1, s.len() as int);
        let a = lemma_start_stretch(t, set);
        assert(t.subrange(a, t.len() as int) =~= s.subrange(a + 1, s.len() as int));
        assert forall|k: int| 0 <= k < a + 1 implies set.has(#[trigger] s[k]) by {
            if k > 0 {
                assert(t[k - 1] == s[k]);
            }
        }
        a + 1
    } else {
        assert(s.subrange(0, s.len() as int) =~= s);
        0
    }
}

pub proof fn lemma_end_stretch(s: Seq<char>, set: Trim) -> (m: int)
    ensures
        0 <= m <= s.len(),
        trimmed_end(s, set) == s.subrange(0, m),
        forall|k: int| m <= k < s.len() ==> set.has(#[trigger] s[k]),
        m > 0 ==> !set.has(s[m - 1]),
    decreases s.len(),
{
    if s.len() > 0 && set.has(s[s.len() - 1]) {
        let t = s.subrange(0, s.len() - 1);
        let m = lemma_end_stretch(t, set);
        assert(t.subrange(0, m) =~= s.subrange(0, m));
        assert forall|k: int| m <= k < s.len() implies set.has(#[trigger] s[k]) by {
            if k < s.len() - 1 {
                assert(t[k] == s[k]);
            }
        }
        m
    } else {
        assert(s.subrange(0, s.len() as int) =~= s);
        s.len() as int
    }
}

/// Which characters trimming takes away from either end: blanks, tabs, line
/// ends and the wide spaces as white space, NUL as the padding of a sector,
/// the double quote around a value.
pub proof fn law_what_trimming_takes(c: char)
    ensures
        is_white(c) <==> ({
            let n = c as int;
            ||| 9 <= n <= 13
            ||| n == 32
            ||| n == 133
            ||| n == 160
            ||| n == 5760
            ||| 8192 <= n <= 8202
            ||| n == 8232
            ||| n == 8233
            ||| n == 8239
            ||| n == 8287
            ||| n == 12288
        }),
        Trim::White.has(c) <==> is_white(c),
        Trim::Nul.has(c) <==> c == '\0',
        Trim::WhiteOrNul.has(c) <==> is_white(c) || c == '\0',
        Trim::Quote.has(c) <==> c == '"',
{
}

/// What trimming gives is a stretch of the text whose ends are not of the
/// set, with only characters of the set before and after it; and any such
/// stretch is what it gives.
pub proof fn law_trimming_takes_the_ends(s: Seq<char>, set: Trim, a: int, b: int)
    requires
        0 <= a < b <= s.len(),
        forall|k: int| 0 <= k < a ==> set.has(#[trigger] s[k]),
        forall|k: int| b <= k < s.len() ==> set.has(#[trigger] s[k]),
        !set.has(s[a]),
        !set.has(s[b - 1]),
    ensures
        trimmed(s, set) == s.subrange(a, b),
{
    let r = lemma_trimmed_stretch(s, set);
    assert(r.0 <= a) by {
        if r.0 > a {
            assert(set.has(s[a]));
        }
    }
    assert(r.1 >= b) by {
        if r.1 < b {
            assert(set.has(s[b - 1]));
        }
    }
    if r.0 < a {
        assert(set.has(s[r.0]));
    }
    if r.1 > b {
        assert(set.has(s[r.1 - 1]));
    }
}

/// A text of characters of the set alone is trimmed to nothing.
pub proof fn law_trimming_blanks_leaves_nothing(s: Seq<char>, set: Trim)
    requires
        forall|k: int| 0 <= k < s.len() ==> set.has(#[trigger] s[k]),
    ensures
        trimmed(s, set).len() == 0,
{
    let r = lemma_trimmed_stretch(s, set);
}

/// Whether no character of `s` is white space, and there is one.
pub open spec fn is_word(s: Seq<char>) -> bool {
    s.len() > 0 && forall|k: int| 0 <= k < s.len() ==> !is_white(#[trigger] s[k])
}

/// The first word of a text is the stretch up to the first white space, once
/// that before it is passed over.
pub proof fn law_the_first_word(gap: Seq<char>, w: Seq<char>, rest: Seq<char>)
    requires
        forall|k: int| 0 <= k < gap.len() ==> is_white(#[trigger] gap[k]),
        is_word(w),
        rest.len() > 0 ==> is_white(rest[0]),
    ensures
        next_word(gap + w + rest) == Some((w, rest)),
{
    let s = gap + w + rest;
    let a = lemma_start_stretch(s, Trim::White);
    assert(s[gap.len() as int] == w[0]);
    assert(!is_white(w[0]));
    if a < gap.len() {
        assert(s[a] == gap[a]);
    }
    if a > gap.len() {
        assert(Trim::White.has(s[gap.len() as int]));
    }
    let t = trimmed_start(s, Trim::White);
    assert(t =~= w + rest);
    lemma_word_len(t);
    let n = word_len(t);
    if n < w.len() {
        assert(is_white(t[n]));
        assert(t[n] == w[n]);
    }
    if n > w.len() {
        assert(!is_white(t[w.len() as int]));
        assert(t[w.len() as int] == rest[0]);
    }
    assert(t.subrange(0, n) =~= w);
    assert(t.subrange(n, t.len() as int) =~= rest);
}

/// A text without a word has none.
pub proof fn law_blanks_hold_no_word(s: Seq<char>)
    requires
        forall|k: int| 0 <= k < s.len() ==> is_white(#[trigger] s[k]),
    ensures
        next_word(s) is None,
{
    let a = lemma_start_stretch(s, Trim::White);
}

spec fn ten_to(n: nat) -> int
    decreases n,
{
    if n == 0 {
        1
    } else {
        10 * ten_to((n - 1) as nat)
    }
}

proof fn lemma_decimal_bound(s: Seq<char>)
    requires
        all_digits(s),
    ensures
        0 <= decimal_value(s) < ten_to(s.len()),
    decreases s.len(),
{
    if s.len() > 0 {
        let t = s.subrange(0, s.len() - 1);
        assert forall|i: int| 0 <= i < t.len() implies '0' <= #[trigger] t[i] <= '9' by {
            assert(t[i] == s[i]);
        }
        lemma_decimal_bound(t);
    }
}

/// Whether `s` is made of digits alone, and there is one.
pub open spec fn is_number(s: Seq<char>) -> bool {
    s.len() > 0 && forall|k: int| 0 <= k < s.len() ==> '0' <= #[trigger] s[k] <= '9'
}

/// Digits spell a number: one digit its own, a further digit ten times the
/// number before it and the digit. Up to nineteen always fit, and a plus
/// sign before them changes nothing.
pub proof fn law_digits_spell_a_number(s: Seq<char>, d: char)
    requires
        is_number(s),
        '0' <= d <= '9',
    ensures
        decimal_value(seq![d]) == d as int - 48,
        decimal_value(s.push(d)) == 10 * decimal_value(s) + (d as int - 48),
        s.len() <= 19 ==> decimal_value(s) <= u64::MAX,
        decimal_value(s) <= u64::MAX ==> decimal_u64(s) == Some(decimal_value(s) as u64),
        decimal_value(s) > u64::MAX ==> decimal_u64(s) is None,
        decimal_u64(seq!['+'] + s) == decimal_u64(s),
        decimal_u64(Seq::empty()) is None,
        decimal_value(s) >= 0,
{
    assert(seq![d].subrange(0, 0) =~= Seq::<char>::empty());
    assert(s.push(d).subrange(0, s.push(d).len() - 1) =~= s);
    reveal_with_fuel(decimal_value, 2);
    assert(all_digits(s));
    lemma_decimal_bound(s);
    assert(s[0] != '+');
    let signed = seq!['+'] + s;
    assert(signed.subrange(1, signed.len() as int) =~= s);
    if s.len() <= 19 {
        lemma_ten_to(s.len());
    }
}

/// A text with another character than digits, but for a plus sign before
/// them, spells no number.
pub proof fn law_only_digits_spell_a_number(s: Seq<char>, k: int)
    requires
        0 <= k < s.len(),
        s[k] < '0' || s[k] > '9',
        k > 0 || s[k] != '+',
    ensures
        decimal_u64(s) is None,
{
    if s[0] == '+' {
        let t = s.subrange(1, s.len() as int);
        assert(t[k - 1] == s[k]);
    }
}

proof fn lemma_ten_to(n: nat)
    requires
        n <= 19,
    ensures
        ten_to(n) <= 10_000_000_000_000_000_000,
{
    reveal_with_fuel(ten_to, 20);
}

} // verus!
