//! The descriptor's `CID=` value: where it stands, what replaces it, and
//! the bytes of the replacement.
//!
//! `CID` is a content identifier. A child disk records its parent's value
//! in `parentCID`, so a child whose remembered value no longer matches
//! can be recognised as stale. A writer therefore gives the image a fresh
//! one before it changes any data.

use std::time::{Duration, SystemTime};
use vstd::prelude::*;

verus! {

/// How many hex digits a descriptor's `CID` value has.
pub const CID_DIGITS: usize = 8;

/// Where a descriptor's `CID=` value is, as [`locate_content_id`] found it.
#[derive(Debug, Clone, Copy, PartialEq, Eq, Structural)]
pub struct ContentIdField {
    /// Byte offset of the first hex digit.
    pub start: usize,
    /// How many hex digits the value has: one to [`CID_DIGITS`].
    pub len: usize,
    /// One past the region's last non-NUL byte: the end of the text that
    /// has to move when a short value is widened.
    pub content_end: usize,
}

/// Whether `b` is an ASCII hex digit.
pub open spec fn is_hex(b: u8) -> bool {
    0x30 <= b <= 0x39 || 0x41 <= b <= 0x46 || 0x61 <= b <= 0x66
}

/// The value of a hex digit.
pub open spec fn hex_digit_value(b: u8) -> int {
    if 0x30 <= b <= 0x39 {
        b - 0x30
    } else if 0x41 <= b <= 0x46 {
        b - 0x41 + 10
    } else {
        b - 0x61 + 10
    }
}

/// The number that the hex digits of `s` spell.
pub open spec fn hex_value(s: Seq<u8>) -> int
    decreases s.len(),
{
    if s.len() == 0 {
        0
    } else {
        16 * hex_value(s.subrange(0, s.len() - 1)) + hex_digit_value(s[s.len() - 1])
    }
}

/// Whether a line that begins with `CID=` starts at byte `i`. Matched at
/// the start of a line so that `parentCID=`, the other half of the pair,
/// cannot be mistaken for it.
pub open spec fn cid_line_at(region: Seq<u8>, i: int) -> bool {
    &&& i == 0 || region[i - 1] == 0x0a || region[i - 1] == 0x0d
    &&& i + 4 <= region.len()
    &&& region[i] == 0x43
    &&& region[i + 1] == 0x49
    &&& region[i + 2] == 0x44
    &&& region[i + 3] == 0x3d
}

/// The first byte from `from` on at which a `CID=` line starts, or the
/// length of the region where none does.
pub open spec fn first_cid_line(region: Seq<u8>, from: int) -> int
    decreases region.len() - from,
{
    if from >= region.len() {
        region.len() as int
    } else if cid_line_at(region, from) {
        from
    } else {
        first_cid_line(region, from + 1)
    }
}

/// How many hex digits stand at `at`.
pub open spec fn hex_run(region: Seq<u8>, at: int) -> int
    decreases region.len() - at,
{
    if at < region.len() && is_hex(region[at]) {
        1 + hex_run(region, at + 1)
    } else {
        0
    }
}

/// One past the last byte of the first `n` that is not NUL.
pub open spec fn text_end(region: Seq<u8>, n: int) -> int
    decreases n,
{
    if n <= 0 {
        0
    } else if region[n - 1] != 0 {
        n
    } else {
        text_end(region, n - 1)
    }
}

/// What [`locate_content_id`] finds in a region.
pub open spec fn content_id_of(region: Seq<u8>) -> Result<Option<ContentIdField>, &'static str> {
    let line = first_cid_line(region, 0);
    let start = line + 4;
    let len = hex_run(region, start);
    let after = start + len;
    let text = text_end(region, region.len() as int);
    let end = if text > after {
        text
    } else {
        after
    };
    if line >= region.len() {
        Ok(None)
    } else if len == 0 || len > CID_DIGITS || (after < region.len() && region[after] != 0x0a
        && region[after] != 0x0d && region[after] != 0) {
        Err("descriptor CID is not one to eight hex digits on its own line")
    } else if end + (CID_DIGITS - len) > region.len() {
        Err("descriptor CID is too short to widen and the descriptor region has no room")
    } else {
        Ok(
            Some(
                ContentIdField {
                    start: start as usize,
                    len: len as usize,
                    content_end: end as usize,
                },
            ),
        )
    }
}

pub proof fn lemma_first_cid_line(region: Seq<u8>, from: int)
    requires
        0 <= from <= region.len(),
    ensures
        from <= first_cid_line(region, from) <= region.len(),
        first_cid_line(region, from) < region.len() ==> cid_line_at(
            region,
            first_cid_line(region, from),
        ),
        forall|k: int| from <= k < first_cid_line(region, from) ==> !cid_line_at(region, k),
    decreases region.len() - from,
{
    if from < region.len() && !cid_line_at(region, from) {
        lemma_first_cid_line(region, from + 1);
    }
}

pub proof fn lemma_hex_run(region: Seq<u8>, at: int)
    requires
        0 <= at <= region.len(),
    ensures
        0 <= hex_run(region, at) <= region.len() - at,
        forall|k: int| at <= k < at + hex_run(region, at) ==> is_hex(#[trigger] region[k]),
        at + hex_run(region, at) < region.len() ==> !is_hex(region[at + hex_run(region, at)]),
    decreases region.len() - at,
{
    if at < region.len() && is_hex(region[at]) {
        lemma_hex_run(region, at + 1);
    }
}

pub proof fn lemma_text_end(region: Seq<u8>, n: int)
    requires
        0 <= n <= region.len(),
    ensures
        0 <= text_end(region, n) <= n,
        text_end(region, n) > 0 ==> region[text_end(region, n) - 1] != 0,
        forall|k: int| text_end(region, n) <= k < n ==> region[k] == 0,
    decreases n,
{
    if n > 0 && region[n - 1] == 0 {
        lemma_text_end(region, n - 1);
    }
}

/// A field that [`content_id_of`] finds is inside its region, is made of
/// hex digits, is ended, and leaves room to be widened.
pub proof fn law_located_field(region: Seq<u8>)
    requires
        region.len() <= usize::MAX,
    ensures
        content_id_of(region) matches Ok(Some(f)) ==> {
            &&& 4 <= f.start
            &&& f.start == first_cid_line(region, 0) + 4
            &&& cid_line_at(region, f.start - 4)
            &&& 1 <= f.len <= CID_DIGITS
            &&& f.start + f.len <= f.content_end <= region.len()
            &&& f.content_end + (CID_DIGITS - f.len) <= region.len()
            &&& forall|k: int| f.start <= k < f.start + f.len ==> is_hex(#[trigger] region[k])
            &&& f.start + f.len < region.len() ==> !is_hex(region[f.start + f.len])
            &&& f.start + f.len < region.len() ==> region[f.start + f.len] == 0x0a || region[f.start
                + f.len] == 0x0d || region[f.start + f.len] == 0
            &&& f.start + f.len < f.content_end ==> region[f.content_end - 1] != 0
            &&& forall|k: int| f.content_end <= k < region.len() ==> region[k] == 0
        },
{
    lemma_first_cid_line(region, 0);
    if first_cid_line(region, 0) < region.len() {
        lemma_hex_run(region, first_cid_line(region, 0) + 4);
        lemma_text_end(region, region.len() as int);
    }
}

fn is_hex_digit(b: u8) -> (r: bool)
    ensures
        r == is_hex(b),
{
    (0x30 <= b && b <= 0x39) || (0x41 <= b && b <= 0x46) || (0x61 <= b && b <= 0x66)
}

/// Find the descriptor's `CID=` value and check it can be rewritten as
/// eight digits without losing a byte.
///
/// `Ok(None)` when there is no `CID=` line at all: every image the
/// reference producers write has one, and inserting one would move every
/// byte after it on the strength of a field being absent.
///
/// The value must be one to eight hex digits ended by a line end, a NUL,
/// or the end of the region. Anything else, non-hex, too long, trailing
/// text, or a short value with no NUL padding left to widen into, is
/// refused rather than guessed at.
pub fn locate_content_id(region: &[u8]) -> (r: Result<Option<ContentIdField>, &'static str>)
    ensures
        r == content_id_of(region@),
{
    let n: usize = region.len();
    let mut i: usize = 0;
    let mut at_line_start: bool = true;
    let mut found: bool = false;
    while i < n && !found
        invariant
            0 <= i <= n,
            n == region@.len(),
            at_line_start == (i == 0 || region@[i - 1] == 0x0a || region@[i - 1] == 0x0d),
            first_cid_line(region@, 0) == first_cid_line(region@, i as int),
            found ==> i < n && cid_line_at(region@, i as int),
        decreases n - i, (if found { 0int } else { 1 }),
    {
        if at_line_start && n - i >= 4 && region[i] == 0x43 && region[i + 1] == 0x49 && region[i
            + 2] == 0x44 && region[i + 3] == 0x3d {
            found = true;
        } else {
            at_line_start = region[i] == 0x0a || region[i] == 0x0d;
            i += 1;
        }
    }
    if !found {
        return Ok(None);
    }
    let start: usize = i + 4;
    proof {
        lemma_hex_run(region@, start as int);
        lemma_text_end(region@, n as int);
    }
    let mut len: usize = 0;
    while start + len < n && is_hex_digit(region[start + len])
        invariant
            start + len <= n,
            n == region@.len(),
            hex_run(region@, start as int) == len + hex_run(region@, start + len),
        decreases n - start - len,
    {
        len += 1;
    }
    let terminated: bool = start + len >= n || region[start + len] == 0x0a || region[start + len]
        == 0x0d || region[start + len] == 0;
    if len == 0 || len > CID_DIGITS || !terminated {
        return Err("descriptor CID is not one to eight hex digits on its own line");
    }
    let mut content_end: usize = n;
    while content_end > 0 && region[content_end - 1] == 0
        invariant
            content_end <= n,
            n == region@.len(),
            text_end(region@, n as int) == text_end(region@, content_end as int),
        decreases content_end,
    {
        content_end -= 1;
    }
    if content_end < start + len {
        content_end = start + len;
    }
    if CID_DIGITS - len > n - content_end {
        return Err("descriptor CID is too short to widen and the descriptor region has no room");
    }
    Ok(Some(ContentIdField { start, len, content_end }))
}

/// The lower-case hex digit of a value under sixteen.
pub open spec fn hex_digit(v: int) -> u8 {
    if v < 10 {
        (0x30 + v) as u8
    } else {
        (0x61 + v - 10) as u8
    }
}

/// The lower-case hex digits of `x`, as many as `n`.
pub open spec fn hex_digits(x: int, n: nat) -> Seq<u8>
    decreases n,
{
    if n == 0 {
        Seq::empty()
    } else {
        hex_digits(x / 16, (n - 1) as nat).push(hex_digit(x % 16))
    }
}

pub proof fn lemma_hex_digits(x: int, n: nat)
    requires
        0 <= x,
    ensures
        hex_digits(x, n).len() == n,
        forall|k: int| 0 <= k < n ==> is_hex(#[trigger] hex_digits(x, n)[k]),
    decreases n,
{
    if n > 0 {
        lemma_hex_digits(x / 16, (n - 1) as nat);
    }
}

/// The eight lower-case hex digits of an identifier, which spell it.
pub proof fn law_hex_round_trip(x: u32)
    ensures
        hex_digits(x as int, 8).len() == 8,
        hex_value(hex_digits(x as int, 8)) == x,
        forall|k: int| 0 <= k < 8 ==> is_hex(#[trigger] hex_digits(x as int, 8)[k]),
{
    lemma_hex_digits(x as int, 8);
    reveal_with_fuel(sixteen_to, 9);
    lemma_hex_value(x as int, 8, 0x1_0000_0000);
}

proof fn lemma_hex_value(x: int, n: nat, bound: int)
    requires
        0 <= x < bound,
        bound == sixteen_to(n),
    ensures
        hex_value(hex_digits(x, n)) == x,
    decreases n,
{
    reveal_with_fuel(sixteen_to, 9);
    if n > 0 {
        lemma_hex_value(x / 16, (n - 1) as nat, sixteen_to((n - 1) as nat));
        let s = hex_digits(x, n);
        assert(s.subrange(0, s.len() - 1) =~= hex_digits(x / 16, (n - 1) as nat));
    }
}

spec fn sixteen_to(n: nat) -> int
    decreases n,
{
    if n == 0 {
        1
    } else {
        16 * sixteen_to((n - 1) as nat)
    }
}

/// `x` as eight lower-case hex digits.
pub fn hex_bytes(x: u32) -> (v: Vec<u8>)
    ensures
        v@ == hex_digits(x as int, 8),
{
    let mut v: Vec<u8> = Vec::new();
    let mut shift: usize = 8;
    let ghost all = x as int;
    while shift > 0
        invariant
            shift <= 8,
            v@ == hex_digits(all / sixteen_to(shift as nat), (8 - shift) as nat),
            all == x,
        decreases shift,
    {
        shift -= 1;
        let divisor: u32 = match shift {
            7 => 0x1000_0000,
            6 => 0x100_0000,
            5 => 0x10_0000,
            4 => 0x1_0000,
            3 => 0x1000,
            2 => 0x100,
            1 => 0x10,
            _ => 1,
        };
        let digit: u32 = (x / divisor) % 16;
        proof {
            reveal_with_fuel(sixteen_to, 9);
            assert(divisor == sixteen_to(shift as nat));
            assert((x as int / divisor as int) / 16 == x as int / (16 * divisor)) by (nonlinear_arith)
                requires
                    divisor > 0,
            ;
        }
        v.push(
            if digit < 10 {
                0x30 + digit as u8
            } else {
                0x61 + (digit as u8 - 10)
            },
        );
    }
    v
}

/// The number that hex digits spell, when there are at most eight.
fn parse_hex(s: &[u8]) -> (x: u32)
    requires
        s@.len() <= 8,
        forall|k: int| 0 <= k < s@.len() ==> is_hex(#[trigger] s@[k]),
    ensures
        x == hex_value(s@),
{
    let mut x: u64 = 0;
    let mut i: usize = 0;
    while i < s.len()
        invariant
            0 <= i <= s@.len() <= 8,
            forall|k: int| 0 <= k < s@.len() ==> is_hex(#[trigger] s@[k]),
            x == hex_value(s@.subrange(0, i as int)),
            x < sixteen_to(i as nat),
        decreases s@.len() - i,
    {
        let b: u8 = s[i];
        let digit: u8 = if b <= 0x39 {
            b - 0x30
        } else if b <= 0x46 {
            b - 0x41 + 10
        } else {
            b - 0x61 + 10
        };
        proof {
            reveal_with_fuel(sixteen_to, 9);
            let next = s@.subrange(0, i + 1);
            assert(next.subrange(0, next.len() - 1) =~= s@.subrange(0, i as int));
        }
        x = x * 16 + digit as u64;
        i += 1;
    }
    proof {
        reveal_with_fuel(sixteen_to, 9);
        assert(s@.subrange(0, s@.len() as int) =~= s@);
    }
    x as u32
}

/// What a descriptor region holds once the identifier at `f` is `next`:
/// the text before it, the new digits, the text that followed, and the
/// padding that is left.
pub open spec fn with_content_id(region: Seq<u8>, f: ContentIdField, next: u32) -> Seq<u8> {
    region.subrange(0, f.start as int) + replacement(region, f, next) + region.subrange(
        f.content_end + 8 - f.len,
        region.len() as int,
    )
}

/// The bytes that change: the new digits, and the text that followed the
/// old ones.
pub open spec fn replacement(region: Seq<u8>, f: ContentIdField, next: u32) -> Seq<u8> {
    hex_digits(next as int, 8) + region.subrange(f.start + f.len, f.content_end as int)
}

/// The bytes to write at `f.start` to give the region the identifier
/// `next`.
pub fn content_id_replacement(region: &[u8], f: ContentIdField, next: u32) -> (v: Vec<u8>)
    requires
        f.start + f.len <= f.content_end <= region@.len(),
    ensures
        v@ == replacement(region@, f, next),
{
    proof {
        lemma_hex_digits(next as int, 8);
    }
    let mut v: Vec<u8> = hex_bytes(next);
    let mut i: usize = f.start + f.len;
    assert(region@.subrange(f.start + f.len, i as int) =~= Seq::<u8>::empty());
    assert(v@ =~= hex_digits(next as int, 8) + region@.subrange(f.start + f.len, i as int));
    while i < f.content_end
        invariant
            f.start + f.len <= i <= f.content_end <= region@.len(),
            v@ == hex_digits(next as int, 8) + region@.subrange(f.start + f.len, i as int),
        decreases f.content_end - i,
    {
        v.push(region[i]);
        assert(region@.subrange(f.start + f.len, i + 1) =~= region@.subrange(
            f.start + f.len,
            i as int,
        ).push(region@[i as int]));
        i += 1;
    }
    v
}

/// Giving a region a fresh identifier keeps its length, moves the text
/// that followed the old one without changing it, and leaves a region
/// whose identifier is found at the same place and spells the new value.
pub proof fn law_rewritten_identifier_reads_back(region: Seq<u8>, next: u32)
    requires
        region.len() <= usize::MAX,
        content_id_of(region) matches Ok(Some(_)),
    ensures
        ({
            let f = content_id_of(region)->Ok_0->0;
            let new = with_content_id(region, f, next);
            let g = ContentIdField {
                start: f.start,
                len: 8,
                content_end: (f.content_end + 8 - f.len) as usize,
            };
            &&& new.len() == region.len()
            &&& new.subrange(0, f.start as int) == region.subrange(0, f.start as int)
            &&& new.subrange(f.start + 8, f.content_end + 8 - f.len) == region.subrange(
                f.start + f.len,
                f.content_end as int,
            )
            &&& content_id_of(new) == Ok::<Option<ContentIdField>, &'static str>(Some(g))
            &&& hex_value(new.subrange(g.start as int, g.start + 8)) == next
        }),
{
    law_located_field(region);
    law_hex_round_trip(next);
    lemma_first_cid_line(region, 0);
    let f = content_id_of(region)->Ok_0->0;
    let new = with_content_id(region, f, next);
    let line = f.start - 4;
    assert(new.len() == region.len());
    assert(new.subrange(0, f.start as int) =~= region.subrange(0, f.start as int));
    assert(new.subrange(f.start + 8, f.content_end + 8 - f.len) =~= region.subrange(
        f.start + f.len,
        f.content_end as int,
    ));
    assert(new.subrange(f.start as int, f.start + 8) =~= hex_digits(next as int, 8));
    lemma_first_cid_line(new, 0);
    assert forall|k: int| 0 <= k < line implies !cid_line_at(new, k) by {
        assert(!cid_line_at(region, k));
        assert(k + 4 <= f.start);
        assert(new[k] == region[k] && new[k + 1] == region[k + 1] && new[k + 2] == region[k + 2]
            && new[k + 3] == region[k + 3]);
        if k > 0 {
            assert(new[k - 1] == region[k - 1]);
        }
    }
    assert(cid_line_at(new, line)) by {
        assert(cid_line_at(region, line));
        assert(new[line] == region[line] && new[line + 1] == region[line + 1] && new[line + 2]
            == region[line + 2] && new[line + 3] == region[line + 3]);
        if line > 0 {
            assert(new[line - 1] == region[line - 1]);
        }
    }
    assert(first_cid_line(new, 0) == line);
    let after = f.start + f.len;
    let end = f.content_end + 8 - f.len;
    assert(f.start + 8 < new.len() ==> new[f.start + 8] == (if after < f.content_end {
        region[after]
    } else {
        0
    })) by {
        if f.start + 8 < new.len() && after >= f.content_end {
            assert(new[f.start + 8] == region[f.start + 8]);
        }
    }
    assert forall|k: int| f.start <= k < f.start + 8 implies is_hex(#[trigger] new[k]) by {
        assert(new[k] == hex_digits(next as int, 8)[k - f.start]);
    }
    lemma_hex_run(region, f.start as int);
    lemma_hex_run(new, f.start as int);
    assert(hex_run(new, f.start as int) == 8) by {
        let run = hex_run(new, f.start as int);
        if run < 8 {
            assert(!is_hex(new[f.start + run]));
        } else if run > 8 {
            assert(is_hex(new[f.start + 8]));
            assert(!is_hex(region[after]));
        }
    }
    lemma_text_end(new, new.len() as int);
    lemma_text_end(region, region.len() as int);
    let text = text_end(new, new.len() as int);
    assert(forall|k: int| end <= k < new.len() ==> new[k] == 0);
    if f.content_end > after {
        assert(new[end - 1] == region[f.content_end - 1]);
        assert(text == end);
    } else {
        assert(text <= end);
    }
}

/// The identifier that follows `current`, given what the clock
/// contributed: the two mixed, and moved on past the values it must not
/// have.
pub open spec fn following_content_id(current: u32, mix: u32) -> u32 {
    first_allowed_id(
        current,
        current.wrapping_mul(1_664_525).wrapping_add(1_013_904_223) ^ mix,
        4,
    )
}

/// Whether an identifier may replace `current`: it differs from it, is
/// not the "no parent" sentinel and not zero.
pub open spec fn allowed_id(current: u32, id: u32) -> bool {
    id != current && id != 0xFFFF_FFFF && id != 0
}

/// The first identifier from `from` on that may replace `current`; at most
/// three are refused.
pub open spec fn first_allowed_id(current: u32, from: u32, tries: nat) -> u32
    decreases tries,
{
    if tries == 0 || allowed_id(current, from) {
        from
    } else {
        first_allowed_id(current, from.wrapping_add(1), (tries - 1) as nat)
    }
}

/// The identifier that follows `current`, given what the clock
/// contributed.
///
/// It has to differ from the value it replaces, and it must not be
/// `ffffffff`, which is the sentinel a `parentCID` uses for "no parent".
/// Beyond that the format asks nothing of it: it is an identifier, not a
/// counter.
pub fn mixed_content_id(current: u32, mix: u32) -> (next: u32)
    ensures
        next == following_content_id(current, mix),
        next != current,
        next != 0xFFFF_FFFF,
        next != 0,
{
    let mut next: u32 = current.wrapping_mul(1_664_525).wrapping_add(1_013_904_223) ^ mix;
    let ghost first = next;
    let mut tries: usize = 4;
    while (next == current || next == 0xFFFF_FFFF || next == 0) && tries > 0
        invariant
            0 <= tries <= 4,
            following_content_id(current, mix) == first_allowed_id(current, next, tries as nat),
            next as int == (first + (4 - tries)) % 0x1_0000_0000,
            forall|k: int|
                0 <= k < 4 - tries ==> !allowed_id(
                    current,
                    #[trigger] ((first + k) % 0x1_0000_0000) as u32,
                ),
        decreases tries,
    {
        next = next.wrapping_add(1);
        tries -= 1;
    }
    proof {
        if tries == 0 {
            assert(!allowed_id(current, ((first + 0) % 0x1_0000_0000) as u32));
            assert(!allowed_id(current, ((first + 1) % 0x1_0000_0000) as u32));
            assert(!allowed_id(current, ((first + 2) % 0x1_0000_0000) as u32));
            assert(!allowed_id(current, ((first + 3) % 0x1_0000_0000) as u32));
            assert(false);
        }
    }
    next
}

/// `std::time::SystemTime`, carried unread.
#[verifier::external_type_specification]
#[verifier::external_body]
pub struct ExSystemTime(SystemTime);

/// `std::time::SystemTimeError`, carried unread.
#[verifier::external_type_specification]
#[verifier::external_body]
pub struct ExSystemTimeError(std::time::SystemTimeError);

/// `SystemTime::now`: the clock's reading, of which nothing is claimed.
pub assume_specification[ SystemTime::now ]() -> (t: SystemTime)
;

/// `SystemTime::duration_since`: the time between two readings, or an
/// error where the second is later; nothing is claimed of either.
pub assume_specification[ SystemTime::duration_since ](t: &SystemTime, earlier: SystemTime) -> (r:
    std::result::Result<Duration, std::time::SystemTimeError>)
;

/// `Duration::subsec_nanos`: the fractional part in nanoseconds, which is
/// less than one second; what it is is not claimed.
pub assume_specification[ Duration::subsec_nanos ](d: &Duration) -> (n: u32)
    ensures
        n < 1_000_000_000,
;

/// `Duration::as_secs`: the whole seconds, of which nothing is claimed.
pub assume_specification[ Duration::as_secs ](d: &Duration) -> (n: u64)
;

/// The constant `std::time::UNIX_EPOCH`.
#[verifier::external_body]
fn unix_epoch() -> (t: SystemTime) {
    std::time::UNIX_EPOCH
}

/// The next content identifier, given the current one.
///
/// Mixing the clock with the old value rather than incrementing keeps two
/// images that started from the same `CID` from staying in step. What the
/// clock contributes is open, so the result is one of
/// [`following_content_id`]'s for some contribution.
pub fn next_content_id(current: u32) -> (next: u32)
    ensures
        next != current,
        next != 0xFFFF_FFFF,
        next != 0,
        exists|mix: u32| next == #[trigger] following_content_id(current, mix),
{
    let mix: u32 = match SystemTime::now().duration_since(unix_epoch()) {
        Ok(d) => d.subsec_nanos() ^ (d.as_secs() % 0x1_0000_0000) as u32,
        Err(_) => 0,
    };
    mixed_content_id(current, mix)
}

/// The identifier a located field spells.
pub fn content_id_value(region: &[u8], f: ContentIdField) -> (x: u32)
    requires
        f.len <= 8,
        f.start + f.len <= region@.len(),
        forall|k: int| f.start <= k < f.start + f.len ==> is_hex(#[trigger] region@[k]),
    ensures
        x == hex_value(region@.subrange(f.start as int, f.start + f.len)),
{
    assert(f.start + f.len <= region.len());
    parse_hex(vstd::slice::slice_subrange(region, f.start, f.start + f.len))
}

} // verus!
