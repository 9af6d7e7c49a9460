//! Text as sequences of characters: lines, words, trimming, numbers.

use vstd::prelude::*;
use vstd::slice::slice_subrange;

verus! {

/// `String::push`: the character is appended and nothing else changes.
pub assume_specification[ String::push ](s: &mut String, c: char)
    ensures
        final(s)@ == old(s)@.push(c),
;

/// `core::str::Utf8Error`, carried unread.
#[verifier::external_type_specification]
#[verifier::external_body]
pub struct ExUtf8Error(core::str::Utf8Error);

/// `core::str::from_utf8`: succeeds exactly on valid UTF-8, and gives the
/// text that the bytes encode.
pub assume_specification[ core::str::from_utf8 ](v: &[u8]) -> (r: std::result::Result<
    &str,
    core::str::Utf8Error,
>)
    ensures
        r is Ok <==> vstd::utf8::valid_utf8(v@),
        r is Ok ==> r->Ok_0@ == vstd::utf8::decode_utf8(v@),
;

/// The characters of a string, one by one.
pub fn chars_of(s: &str) -> (v: Vec<char>)
    ensures
        v@ == s@,
{
    let mut v: Vec<char> = Vec::new();
    for c in it: s.chars()
        invariant
            v@ == it.seq().take(it.index() as int),
            it.seq() == s@,
    {
        v.push(c);
    }
    v
}

/// A string made of `s`.
pub fn string_of(s: &[char]) -> (r: String)
    ensures
        r@ == s@,
{
    let mut r: String = String::new();
    let mut i: usize = 0;
    while i < s.len()
        invariant
            0 <= i <= s@.len(),
            r@ == s@.take(i as int),
        decreases s@.len() - i,
    {
        r.push(s[i]);
        assert(s@.take(i + 1) =~= s@.take(i as int).push(s@[i as int]));
        i += 1;
    }
    assert(s@.take(s@.len() as int) =~= s@);
    r
}

/// Whether `a` is the text `b`.
pub fn same_text(a: &[char], b: &str) -> (r: bool)
    ensures
        r == (a@ == b@),
{
    let other: Vec<char> = chars_of(b);
    if a.len() != other.len() {
        return false;
    }
    let mut i: usize = 0;
    while i < a.len()
        invariant
            0 <= i <= a@.len(),
            a@.len() == b@.len(),
            other@ == b@,
            forall|k: int| 0 <= k < i ==> a@[k] == b@[k],
        decreases a@.len() - i,
    {
        if a[i] != other[i] {
            return false;
        }
        i += 1;
    }
    assert(a@ =~= b@);
    true
}

/// Unicode's `White_Space` property.
pub open spec fn is_white(c: char) -> bool {
    ||| '\u{9}' <= c <= '\u{d}'
    ||| c == ' '
    ||| c == '\u{85}'
    ||| c == '\u{a0}'
    ||| c == '\u{1680}'
    ||| '\u{2000}' <= c <= '\u{200a}'
    ||| c == '\u{2028}'
    ||| c == '\u{2029}'
    ||| c == '\u{202f}'
    ||| c == '\u{205f}'
    ||| c == '\u{3000}'
}

/// The sets of characters that trimming removes.
#[derive(Clone, Copy)]
pub enum Trim {
    /// White space.
    White,
    /// NUL, the padding of a sector.
    Nul,
    /// White space and NUL.
    WhiteOrNul,
    /// The double quote.
    Quote,
}

impl Trim {
    /// Whether `c` is in the set.
    pub open spec fn has(self, c: char) -> bool {
        match self {
            Trim::White => is_white(c),
            Trim::Nul => c == '\0',
            Trim::WhiteOrNul => c == '\0' || is_white(c),
            Trim::Quote => c == '"',
        }
    }

    fn test(self, c: char) -> (r: bool)
        ensures
            r == self.has(c),
    {
        let white: bool = ('\u{9}' <= c && c <= '\u{d}') || c == ' ' || c == '\u{85}' || c
            == '\u{a0}' || c == '\u{1680}' || ('\u{2000}' <= c && c <= '\u{200a}') || c
            == '\u{2028}' || c == '\u{2029}' || c == '\u{202f}' || c == '\u{205f}' || c
            == '\u{3000}';
        match self {
            Trim::White => white,
            Trim::Nul => c == '\0',
            Trim::WhiteOrNul => c == '\0' || white,
            Trim::Quote => c == '"',
        }
    }
}

/// `s` without the leading characters that are in `set`.
pub open spec fn trimmed_start(s: Seq<char>, set: Trim) -> Seq<char>
    decreases s.len(),
{
    if s.len() > 0 && set.has(s[0]) {
        trimmed_start(s.subrange(1, s.len() as int), set)
    } else {
        s
    }
}

/// `s` without the trailing characters that are in `set`.
pub open spec fn trimmed_end(s: Seq<char>, set: Trim) -> Seq<char>
    decreases s.len(),
{
    if s.len() > 0 && set.has(s[s.len() - 1]) {
        trimmed_end(s.subrange(0, s.len() - 1), set)
    } else {
        s
    }
}

/// `s` without the characters of `set` at either end.
pub open spec fn trimmed(s: Seq<char>, set: Trim) -> Seq<char> {
    trimmed_end(trimmed_start(s, set), set)
}

pub fn trim_start(s: &[char], set: Trim) -> (r: &[char])
    ensures
        r@ == trimmed_start(s@, set),
{
    let n: usize = s.len();
    let mut i: usize = 0;
    assert(s@.subrange(0, n as int) =~= s@);
    while i < n && set.test(s[i])
        invariant
            0 <= i <= n,
            n == s@.len(),
            trimmed_start(s@, set) == trimmed_start(s@.subrange(i as int, n as int), set),
        decreases n - i,
    {
        assert(s@.subrange(i as int, n as int).subrange(1, n - i) =~= s@.subrange(i + 1, n as int));
        i += 1;
    }
    slice_subrange(s, i, n)
}

pub fn trim_end(s: &[char], set: Trim) -> (r: &[char])
    ensures
        r@ == trimmed_end(s@, set),
{
    let mut n: usize = s.len();
    assert(s@.subrange(0, n as int) =~= s@);
    while n > 0 && set.test(s[n - 1])
        invariant
            0 <= n <= s@.len(),
            trimmed_end(s@, set) == trimmed_end(s@.subrange(0, n as int), set),
        decreases n,
    {
        assert(s@.subrange(0, n as int).subrange(0, n - 1) =~= s@.subrange(0, n - 1));
        n -= 1;
    }
    slice_subrange(s, 0, n)
}

pub fn trim(s: &[char], set: Trim) -> (r: &[char])
    ensures
        r@ == trimmed(s@, set),
{
    trim_end(trim_start(s, set), set)
}

/// The index of the first `c` in `s`, or the length of `s` where there is
/// none.
pub open spec fn first_index(s: Seq<char>, c: char) -> int
    decreases s.len(),
{
    if s.len() == 0 || s[0] == c {
        0
    } else {
        1 + first_index(s.subrange(1, s.len() as int), c)
    }
}

pub proof fn lemma_first_index(s: Seq<char>, c: char)
    ensures
        0 <= first_index(s, c) <= s.len(),
        first_index(s, c) < s.len() ==> s[first_index(s, c)] == c,
        forall|k: int| 0 <= k < first_index(s, c) ==> s[k] != c,
    decreases s.len(),
{
    if s.len() > 0 && s[0] != c {
        let t = s.subrange(1, s.len() as int);
        lemma_first_index(t, c);
        assert forall|k: int| 0 <= k < first_index(s, c) implies s[k] != c by {
            if k > 0 {
                assert(t[k - 1] == s[k]);
            }
        }
    }
}

pub fn find_char(s: &[char], c: char) -> (i: usize)
    ensures
        i == first_index(s@, c),
        i <= s@.len(),
{
    let n: usize = s.len();
    let mut i: usize = 0;
    proof {
        lemma_first_index(s@, c);
    }
    while i < n && s[i] != c
        invariant
            0 <= i <= n,
            n == s@.len(),
            0 <= first_index(s@, c) <= s@.len(),
            first_index(s@, c) < s@.len() ==> s@[first_index(s@, c)] == c,
            forall|k: int| 0 <= k < first_index(s@, c) ==> s@[k] != c,
            forall|k: int| 0 <= k < i ==> s@[k] != c,
        decreases n - i,
    {
        i += 1;
    }
    i
}

/// The pieces of `s` between its line feeds.
pub open spec fn lines(s: Seq<char>) -> Seq<Seq<char>>
    decreases s.len(),
{
    let i = first_index(s, '\n');
    if i >= s.len() {
        seq![s]
    } else {
        proof {
            lemma_first_index(s, '\n');
        }
        seq![s.subrange(0, i)] + lines(s.subrange(i + 1, s.len() as int))
    }
}

/// The words of `s` that white space separates: the first, and what
/// follows it.
pub open spec fn next_word(s: Seq<char>) -> Option<(Seq<char>, Seq<char>)> {
    let t = trimmed_start(s, Trim::White);
    if t.len() == 0 {
        None
    } else {
        let n = word_len(t);
        Some((t.subrange(0, n), t.subrange(n, t.len() as int)))
    }
}

/// How many characters of `s` precede its first white space.
pub open spec fn word_len(s: Seq<char>) -> int
    decreases s.len(),
{
    if s.len() == 0 || is_white(s[0]) {
        0
    } else {
        1 + word_len(s.subrange(1, s.len() as int))
    }
}

pub proof fn lemma_word_len(s: Seq<char>)
    ensures
        0 <= word_len(s) <= s.len(),
        word_len(s) < s.len() ==> is_white(s[word_len(s)]),
        forall|k: int| 0 <= k < word_len(s) ==> !is_white(s[k]),
    decreases s.len(),
{
    if s.len() > 0 && !is_white(s[0]) {
        let t = s.subrange(1, s.len() as int);
        lemma_word_len(t);
        assert forall|k: int| 0 <= k < word_len(s) implies !is_white(s[k]) by {
            if k > 0 {
                assert(t[k - 1] == s[k]);
            }
        }
    }
}

pub fn take_word(s: &[char]) -> (r: Option<(&[char], &[char])>)
    ensures
        match r {
            Some((word, rest)) => next_word(s@) == Some((word@, rest@)),
            None => next_word(s@) is None,
        },
{
    let t: &[char] = trim_start(s, Trim::White);
    let n: usize = t.len();
    if n == 0 {
        return None;
    }
    proof {
        lemma_word_len(t@);
    }
    let mut i: usize = 0;
    while i < n && !Trim::White.test(t[i])
        invariant
            0 <= i <= n,
            n == t@.len(),
            0 <= word_len(t@) <= t@.len(),
            word_len(t@) < t@.len() ==> is_white(t@[word_len(t@)]),
            forall|k: int| 0 <= k < word_len(t@) ==> !is_white(t@[k]),
            forall|k: int| 0 <= k < i ==> !is_white(t@[k]),
        decreases n - i,
    {
        i += 1;
    }
    Some((slice_subrange(t, 0, i), slice_subrange(t, i, n)))
}

/// Whether every character of `s` is an ASCII digit.
pub open spec fn all_digits(s: Seq<char>) -> bool {
    forall|i: int| 0 <= i < s.len() ==> '0' <= #[trigger] s[i] <= '9'
}

/// The number that the digits of `s` spell in base ten.
pub open spec fn decimal_value(s: Seq<char>) -> int
    decreases s.len(),
{
    if s.len() == 0 {
        0
    } else {
        10 * decimal_value(s.subrange(0, s.len() - 1)) + (s[s.len() - 1] as int - '0' as int)
    }
}

/// The `u64` that `s` spells: an optional plus sign, then one or more
/// digits whose value fits.
pub open spec fn decimal_u64(s: Seq<char>) -> Option<u64> {
    let t = if s.len() > 0 && s[0] == '+' {
        s.subrange(1, s.len() as int)
    } else {
        s
    };
    if t.len() > 0 && all_digits(t) && decimal_value(t) <= u64::MAX {
        Some(decimal_value(t) as u64)
    } else {
        None
    }
}

proof fn lemma_decimal_prefix(s: Seq<char>, n: int)
    requires
        all_digits(s),
        0 <= n <= s.len(),
    ensures
        0 <= decimal_value(s.subrange(0, n)) <= decimal_value(s),
    decreases s.len(),
{
    if n < s.len() {
        let t = s.subrange(0, s.len() - 1);
        lemma_decimal_prefix(t, n);
        assert(t.subrange(0, n) =~= s.subrange(0, n));
    } else {
        assert(s.subrange(0, n) =~= s);
        if n > 0 {
            let t = s.subrange(0, n - 1);
            lemma_decimal_prefix(t, n - 1);
            assert(t.subrange(0, n - 1) =~= t);
        }
    }
}

pub fn parse_decimal(s: &[char]) -> (r: Option<u64>)
    ensures
        r == decimal_u64(s@),
{
    let from: usize = if s.len() > 0 && s[0] == '+' {
        1
    } else {
        0
    };
    let t: &[char] = slice_subrange(s, from, s.len());
    assert(from == 0 ==> t@ =~= s@);
    let n: usize = t.len();
    if n == 0 {
        return None;
    }
    let mut value: u64 = 0;
    let mut i: usize = 0;
    while i < n
        invariant
            0 <= i <= n,
            n == t@.len(),
            n > 0,
            t@ == (if s@.len() > 0 && s@[0] == '+' {
                s@.subrange(1, s@.len() as int)
            } else {
                s@
            }),
            forall|k: int| 0 <= k < i ==> '0' <= #[trigger] t@[k] <= '9',
            value == decimal_value(t@.subrange(0, i as int)),
        decreases n - i,
    {
        let c: char = t[i];
        if c < '0' || c > '9' {
            return None;
        }
        let digit: u64 = c as u64 - '0' as u64;
        proof {
            let next = t@.subrange(0, i + 1);
            assert(next.subrange(0, next.len() - 1) =~= t@.subrange(0, i as int));
            assert(decimal_value(next) == 10 * value + digit);
            if all_digits(t@) {
                lemma_decimal_prefix(t@, i + 1);
            }
        }
        if value > (u64::MAX - digit) / 10 {
            return None;
        }
        value = value * 10 + digit;
        i += 1;
    }
    assert(t@.subrange(0, n as int) =~= t@);
    Some(value)
}

/// The decimal digits of `n`.
pub open spec fn decimal_digits(n: nat) -> Seq<char>
    decreases n,
{
    let last = ('0' as int + n % 10) as char;
    if n < 10 {
        seq![last]
    } else {
        decimal_digits(n / 10).push(last)
    }
}

/// The digits of a number spell it.
pub proof fn law_decimal_round_trip(n: nat)
    ensures
        decimal_digits(n).len() > 0,
        all_digits(decimal_digits(n)),
        decimal_value(decimal_digits(n)) == n,
    decreases n,
{
    let d = decimal_digits(n);
    if n >= 10 {
        law_decimal_round_trip(n / 10);
        assert(d.subrange(0, d.len() - 1) =~= decimal_digits(n / 10));
    } else {
        assert(d.subrange(0, d.len() - 1) =~= Seq::<char>::empty());
        assert(decimal_value(Seq::<char>::empty()) == 0);
    }
}

/// Append the decimal digits of `n` to `text`.
pub fn push_decimal(text: &mut String, n: u64)
    ensures
        final(text)@ == old(text)@ + decimal_digits(n as nat),
    decreases n,
{
    let ghost before = text@;
    if n >= 10 {
        push_decimal(text, n / 10);
    }
    let last: u8 = (n % 10) as u8;
    text.push((48 + last) as char);
    assert(text@ =~= before + decimal_digits(n as nat));
}

/// Append `more` to `text`.
pub fn push_text(text: &mut String, more: &str)
    ensures
        final(text)@ == old(text)@ + more@,
{
    let chars: Vec<char> = chars_of(more);
    let ghost before = text@;
    let mut i: usize = 0;
    while i < chars.len()
        invariant
            0 <= i <= chars@.len(),
            chars@ == more@,
            text@ == before + more@.take(i as int),
        decreases chars@.len() - i,
    {
        text.push(chars[i]);
        assert(more@.take(i + 1) =~= more@.take(i as int).push(more@[i as int]));
        assert(text@ =~= before + more@.take(i + 1));
        i += 1;
    }
    assert(more@.take(more@.len() as int) =~= more@);
}

/// The ASCII lower-case form of `c`; other characters stay.
pub open spec fn ascii_lower(c: char) -> char {
    if 'A' <= c <= 'Z' {
        (c as int + 32) as char
    } else {
        c
    }
}

/// Whether `a` and `b` are the same but for the case of ASCII letters.
pub open spec fn same_ignoring_case(a: Seq<char>, b: Seq<char>) -> bool {
    a.len() == b.len() && forall|i: int|
        0 <= i < a.len() ==> ascii_lower(#[trigger] a[i]) == ascii_lower(b[i])
}

fn to_lower(c: char) -> (r: u32)
    ensures
        r == ascii_lower(c) as u32,
{
    if 'A' <= c && c <= 'Z' {
        c as u32 + 32
    } else {
        c as u32
    }
}

pub fn eq_ignore_ascii_case(a: &[char], b: &str) -> (r: bool)
    ensures
        r == same_ignoring_case(a@, b@),
{
    let other: Vec<char> = chars_of(b);
    if a.len() != other.len() {
        return false;
    }
    let mut i: usize = 0;
    while i < a.len()
        invariant
            0 <= i <= a@.len(),
            a@.len() == b@.len(),
            other@ == b@,
            forall|k: int| 0 <= k < i ==> ascii_lower(#[trigger] a@[k]) == ascii_lower(b@[k]),
        decreases a@.len() - i,
    {
        if to_lower(a[i]) != to_lower(other[i]) {
            return false;
        }
        i += 1;
    }
    true
}

} // verus!
