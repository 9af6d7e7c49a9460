//! The content identifier of a descriptor, byte by byte.

use crate::content_id::{
    cid_line_at, content_id_of, first_cid_line, hex_digits, hex_run, hex_value, is_hex,
    law_hex_round_trip, law_located_field, lemma_first_cid_line, lemma_hex_run, lemma_text_end,
    text_end, with_content_id, ContentIdField,
};
use crate::reader::mark::{fresh_id, refreshed};
use crate::reader::state::State;
use vstd::prelude::*;

verus! {

/// Whether the four bytes at `i` are `CID=` and begin a line: they stand at
/// the front, or a line feed or a carriage return stands before them.
pub open spec fn cid_starts_at(region: Seq<u8>, i: int) -> bool {
    &&& 0 <= i
    &&& i + 4 <= region.len()
    &&& region[i] == 67 && region[i + 1] == 73 && region[i + 2] == 68 && region[i + 3] == 61
    &&& i == 0 || region[i - 1] == 10 || region[i - 1] == 13
}

/// Whether `b` is one of `0` to `9`, `A` to `F`, `a` to `f`.
pub open spec fn hex_letter(b: u8) -> bool {
    48 <= b <= 57 || 65 <= b <= 70 || 97 <= b <= 102
}

/// Whether a value of `len` digits stands at `at`, and ends there: with a
/// line end, a NUL or the region.
pub open spec fn value_stands(region: Seq<u8>, at: int, len: int) -> bool {
    &&& 1 <= len <= 8
    &&& at + len <= region.len()
    &&& forall|k: int| at <= k < at + len ==> hex_letter(#[trigger] region[k])
    &&& at + len < region.len() ==> region[at + len] == 10 || region[at + len] == 13 || region[at
        + len] == 0
}

/// Whether the identifier at `at`, `len` digits long, can be written with
/// eight: as many NULs end the region, after the identifier, as digits are
/// missing.
pub open spec fn room_for_eight(region: Seq<u8>, at: int, len: int) -> bool {
    &&& at + 8 <= region.len()
    &&& forall|k: int|
        at + len <= k < region.len() && region.len() - (8 - len) <= k ==> #[trigger] region[k] == 0
}

/// Wherever in a region the first `CID=` line starts, its value is what is
/// located: never is it taken as absent. It is refused exactly where no
/// value of one to eight hex digits stands there, or one that cannot be
/// written with eight.
pub proof fn law_the_first_cid_line_is_located(region: Seq<u8>, i: int)
    requires
        region.len() <= usize::MAX,
        cid_starts_at(region, i),
        forall|k: int| 0 <= k < i ==> !cid_starts_at(region, k),
    ensures
        content_id_of(region) != Ok::<Option<ContentIdField>, &'static str>(None),
        content_id_of(region) matches Ok(Some(f)) ==> {
            &&& f.start == i + 4
            &&& value_stands(region, i + 4, f.len as int)
            &&& room_for_eight(region, i + 4, f.len as int)
        },
        forall|len: int| #[trigger]
            value_stands(region, i + 4, len) && room_for_eight(region, i + 4, len)
                ==> content_id_of(region) is Ok,
{
    lemma_first_cid_line(region, 0);
    let line = first_cid_line(region, 0);
    assert(cid_line_at(region, i));
    assert(line <= i);
    if line < i {
        assert(cid_line_at(region, line));
        assert(cid_starts_at(region, line));
    }
    assert(line == i);
    lemma_hex_run(region, i + 4);
    lemma_text_end(region, region.len() as int);
    let run = hex_run(region, i + 4);
    let text = text_end(region, region.len() as int);
    if content_id_of(region) is Ok {
        assert forall|k: int| i + 4 <= k < i + 4 + run implies hex_letter(#[trigger] region[k]) by {
            assert(is_hex(region[k]));
        }
        assert(value_stands(region, i + 4, run));
    }
    assert forall|len: int| #[trigger]
        value_stands(region, i + 4, len) && room_for_eight(
            region,
            i + 4,
            len,
        ) implies content_id_of(region) is Ok by {
        assert(run == len) by {
            if run < len {
                assert(hex_letter(region[i + 4 + run]));
                assert(!is_hex(region[i + 4 + run]));
            }
            if run > len {
                assert(is_hex(region[i + 4 + len]));
            }
        }
        if text > region.len() - (8 - len) && text > i + 4 + len {
            assert(region[text - 1] != 0);
        }
    }
}

/// A region without a `CID=` line has no identifier.
pub proof fn law_no_cid_line_no_identifier(region: Seq<u8>)
    requires
        forall|k: int| !cid_starts_at(region, k),
    ensures
        content_id_of(region) == Ok::<Option<ContentIdField>, &'static str>(None),
{
    lemma_first_cid_line(region, 0);
    let line = first_cid_line(region, 0);
    if line < region.len() {
        assert(cid_line_at(region, line));
        assert(cid_starts_at(region, line));
    }
}

/// Whether `a` and `b` are the same hex digit, in either case.
pub open spec fn same_digit(a: u8, b: u8) -> bool {
    a == b || (65 <= a <= 70 && b == a + 32) || (65 <= b <= 70 && a == b + 32)
}

/// Whether the eight digits at `at` of `new` and the `len` at `at` of `old`
/// spell the same number: they agree from the right, and zeros stand before
/// them.
pub open spec fn same_number(new: Seq<u8>, old: Seq<u8>, at: int, len: int) -> bool {
    &&& forall|k: int| 0 <= k < 8 - len ==> #[trigger] new[at + k] == 48
    &&& forall|k: int| 0 <= k < len ==> same_digit(new[at + 8 - len + k], #[trigger] old[at + k])
}

/// Whether `new` is `old` with the identifier at `at`, `len` digits long,
/// replaced by another: eight lower-case digits that spell another number,
/// neither zero nor the one that stands for "no parent". What stood before
/// it stays, and what followed it follows.
pub open spec fn renamed_at(old: Seq<u8>, new: Seq<u8>, at: int, len: int) -> bool {
    &&& new.len() == old.len()
    &&& forall|k: int| 0 <= k < at ==> #[trigger] new[k] == old[k]
    &&& forall|k: int|
        at <= k < at + 8 ==> 48 <= #[trigger] new[k] <= 57 || 97 <= new[k] <= 102
    &&& !same_number(new, old, at, len)
    &&& exists|k: int| at <= k < at + 8 && #[trigger] new[k] != 48
    &&& exists|k: int| at <= k < at + 8 && #[trigger] new[k] != 102
    &&& forall|k: int| at + 8 <= k < old.len() ==> #[trigger] new[k] == old[k - (8 - len)]
}

proof fn lemma_zero_digits(a: Seq<u8>)
    requires
        forall|k: int| 0 <= k < a.len() ==> a[k] == 48,
    ensures
        hex_value(a) == 0,
    decreases a.len(),
{
    if a.len() > 0 {
        lemma_zero_digits(a.subrange(0, a.len() - 1));
    }
}

proof fn lemma_same_number(a: Seq<u8>, b: Seq<u8>)
    requires
        b.len() <= a.len(),
        forall|k: int| 0 <= k < a.len() - b.len() ==> a[k] == 48,
        forall|k: int| 0 <= k < b.len() ==> same_digit(a[a.len() - b.len() + k], #[trigger] b[k]),
        forall|k: int| 0 <= k < b.len() ==> is_hex(#[trigger] b[k]),
    ensures
        hex_value(a) == hex_value(b),
    decreases b.len(),
{
    if b.len() == 0 {
        lemma_zero_digits(a);
    } else {
        let m = b.len() - 1;
        assert(same_digit(a[a.len() - b.len() + m], b[m]));
        assert(is_hex(b[m]));
        let a1 = a.subrange(0, a.len() - 1);
        let b1 = b.subrange(0, m);
        assert forall|k: int| 0 <= k < b1.len() implies same_digit(
            a1[a1.len() - b1.len() + k],
            #[trigger] b1[k],
        ) by {
            assert(same_digit(a[a.len() - b.len() + k], b[k]));
        }
        assert forall|k: int| 0 <= k < b1.len() implies is_hex(#[trigger] b1[k]) by {
            assert(is_hex(b[k]));
        }
        lemma_same_number(a1, b1);
    }
}

proof fn lemma_lower_case(x: int, n: nat)
    requires
        0 <= x,
    ensures
        hex_digits(x, n).len() == n,
        forall|k: int|
            0 <= k < n ==> 48 <= #[trigger] hex_digits(x, n)[k] <= 57 || 97 <= hex_digits(x, n)[k]
                <= 102,
    decreases n,
{
    if n > 0 {
        lemma_lower_case(x / 16, (n - 1) as nat);
    }
}

proof fn lemma_effs(a: Seq<u8>)
    requires
        a.len() == 8,
        forall|k: int| 0 <= k < 8 ==> a[k] == 102,
    ensures
        hex_value(a) == 0xFFFF_FFFF,
{
    let a7 = a.subrange(0, 7);
    let a6 = a7.subrange(0, 6);
    let a5 = a6.subrange(0, 5);
    let a4 = a5.subrange(0, 4);
    let a3 = a4.subrange(0, 3);
    let a2 = a3.subrange(0, 2);
    let a1 = a2.subrange(0, 1);
    let a0 = a1.subrange(0, 0);
    assert(hex_value(a0) == 0);
    assert(hex_value(a1) == 0xF);
    assert(hex_value(a2) == 0xFF);
    assert(hex_value(a3) == 0xFFF);
    assert(hex_value(a4) == 0xFFFF);
    assert(hex_value(a5) == 0xF_FFFF);
    assert(hex_value(a6) == 0xFF_FFFF);
    assert(hex_value(a7) == 0xFFF_FFFF);
}

/// Giving a region a fresh identifier rewrites the value of its first
/// `CID=` line, wherever that stands, and leaves a region without such a
/// line alone.
pub proof fn law_a_fresh_identifier_replaces_the_first(region: Seq<u8>, new: Seq<u8>, i: int)
    requires
        region.len() <= usize::MAX,
        refreshed(region, new),
        content_id_of(region) is Ok,
    ensures
        cid_starts_at(region, i) && (forall|k: int| 0 <= k < i ==> !cid_starts_at(region, k))
            ==> exists|len: int| #[trigger]
            value_stands(region, i + 4, len) && renamed_at(region, new, i + 4, len),
        (forall|k: int| !cid_starts_at(region, k)) ==> new == region,
{
    if forall|k: int| !cid_starts_at(region, k) {
        law_no_cid_line_no_identifier(region);
    } else if cid_starts_at(region, i) && (forall|k: int| 0 <= k < i ==> !cid_starts_at(region, k)) {
        law_the_first_cid_line_is_located(region, i);
        law_located_field(region);
        let f = content_id_of(region)->Ok_0->0;
        let at = i + 4;
        let len = f.len as int;
        let next = choose|next: u32| #[trigger]
            fresh_id(region, f, next) && new == with_content_id(region, f, next);
        law_hex_round_trip(next);
        lemma_lower_case(next as int, 8);
        let digits = hex_digits(next as int, 8);
        let now = new.subrange(at, at + 8);
        let was = region.subrange(at, at + len);
        assert(now =~= digits);
        assert(new.len() == region.len());
        assert forall|k: int| at <= k < at + 8 implies 48 <= #[trigger] new[k] <= 57 || 97 <= new[k]
            <= 102 by {
            assert(digits[k - at] == new[k]);
        }
        assert(value_stands(region, at, len));
        if same_number(new, region, at, len) {
            assert forall|k: int| 0 <= k < 8 - len implies now[k] == 48 by {
                assert(new[at + k] == 48);
            }
            assert forall|k: int| 0 <= k < len implies same_digit(
                now[8 - len + k],
                #[trigger] was[k],
            ) by {
                assert(same_digit(new[at + 8 - len + k], region[at + k]));
            }
            assert forall|k: int| 0 <= k < len implies is_hex(#[trigger] was[k]) by {
                assert(is_hex(region[at + k]));
            }
            lemma_same_number(now, was);
        }
        if forall|k: int| at <= k < at + 8 ==> new[k] == 48 {
            assert forall|k: int| 0 <= k < 8 implies now[k] == 48 by {
                assert(new[at + k] == 48);
            }
            lemma_zero_digits(now);
        }
        if forall|k: int| at <= k < at + 8 ==> new[k] == 102 {
            assert forall|k: int| 0 <= k < 8 implies now[k] == 102 by {
                assert(new[at + k] == 102);
            }
            lemma_effs(now);
        }
        assert forall|k: int| at + 8 <= k < region.len() implies #[trigger] new[k] == region[k - (8
            - len)] by {
            if k >= f.content_end + 8 - len {
                assert(new[k] == region[k]);
                assert(region[k] == 0);
                assert(region[k - (8 - len)] == 0);
            }
        }
        assert(renamed_at(region, new, at, len));
    }
}

/// An image whose identifier this session has changed, or can change, takes
/// what a write records. A write leaves on the device, in the header's
/// sector, nothing changed but byte 72, which is 1 afterwards. The first write of a session gives the
/// value of the first `CID=` line of the descriptor, wherever in the
/// descriptor that line stands, to a fresh one; later writes, and writes to
/// an image without such a line, leave the descriptor as it is.
pub proof fn law_what_a_write_records(s: State, n: State, i: int)
    requires
        s.text_marked(&n),
        s.content_id_bumped || content_id_of(
            s.contents.subrange(
                s.header.descriptor_offset * 512,
                s.header.descriptor_offset * 512 + s.header.descriptor_size * 512,
            ),
        ) is Ok,
        s.unclean_marked ==> s.contents[72] == 1,
        n.header == s.header,
        s.header.descriptor_size * 512 <= usize::MAX,
        s.header.descriptor_offset * 512 + s.header.descriptor_size * 512 <= s.contents.len(),
        s.contents.len() <= n.contents.len(),
    ensures
        s.describable(),
        n.contents[72] == 1,
        forall|b: int| 0 <= b < 512 && b != 72 ==> #[trigger] n.contents[b] == s.contents[b],
        ({
            let lo = s.header.descriptor_offset * 512;
            let hi = lo + s.header.descriptor_size * 512;
            let was = s.contents.subrange(lo, hi);
            let now = n.contents.subrange(lo, hi);
            &&& s.content_id_bumped || (forall|k: int| !cid_starts_at(was, k)) ==> now == was
            &&& !s.content_id_bumped && cid_starts_at(was, i) && (forall|k: int|
                0 <= k < i ==> !cid_starts_at(was, k)) ==> exists|len: int| #[trigger]
                value_stands(was, i + 4, len) && renamed_at(was, now, i + 4, len)
        }),
{
    let lo = s.header.descriptor_offset * 512;
    let hi = lo + s.header.descriptor_size * 512;
    let was = s.contents.subrange(lo, hi);
    let now = n.contents.subrange(lo, hi);
    assert(s.descriptor_bytes() =~= was);
    assert(n.descriptor_bytes() =~= now);
    if !s.content_id_bumped {
        law_a_fresh_identifier_replaces_the_first(was, now, i);
    }
}

} // verus!
