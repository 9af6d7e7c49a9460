//! What a read gives, byte by byte, and which reads succeed.

use super::{law_integers_are_sums_of_bytes, law_what_the_flags_mean, u32_at};
use crate::error::Error;
use crate::image::lemma_offset_of;
use crate::reader::state::{hits, zeros, State};
use vstd::prelude::*;

verus! {

/// The sector of the grain table of byte `v` of the disk: the entry of the
/// directory that its grain's number, divided by the entries of a table,
/// names.
pub open spec fn table_for(s: State, v: int) -> int {
    u32_at(
        s.contents,
        s.header.gd_offset * 512 + 4 * (v / (s.header.grain_size * 512)
            / s.header.num_gtes_per_gt as int),
    )
}

/// The pointer to the grain of byte `v` of the disk: the entry of its table
/// that what is left over names, or zero where there is no table.
pub open spec fn pointer_for(s: State, v: int) -> int {
    if table_for(s, v) == 0 {
        0
    } else {
        u32_at(
            s.contents,
            table_for(s, v) * 512 + 4 * (v / (s.header.grain_size * 512)
                % s.header.num_gtes_per_gt as int),
        )
    }
}

/// Whether a pointer leads to no grain: it is zero, or it is one in an image
/// whose flags, as a number, have their four set.
pub open spec fn leads_nowhere(s: State, pointer: int) -> bool {
    pointer == 0 || pointer == 1 && (s.header.flags / 4) % 2 == 1
}

/// Where byte `v` of the disk is in the file, if its pointer leads to a
/// grain.
pub open spec fn place_for(s: State, v: int) -> int {
    pointer_for(s, v) * 512 + v % (s.header.grain_size * 512)
}

/// Whether byte `v` of the disk can be reached: its table, where there is
/// one, lies inside the file and clear of the fixed regions, and its place,
/// where it has one, lies inside the file, not before the first grain, and
/// in no metadata.
pub open spec fn reached(s: State, v: int) -> bool {
    table_for(s, v) == 0 || {
        &&& table_for(s, v) * 512 + 4 * s.header.num_gtes_per_gt <= s.extent()
        &&& forall|b: int|
            table_for(s, v) * 512 <= b < table_for(s, v) * 512 + 4 * s.header.num_gtes_per_gt
                ==> !#[trigger] s.fixed.contains(b)
        &&& leads_nowhere(s, pointer_for(s, v)) || {
            &&& pointer_for(s, v) * 512 >= s.floor
            &&& place_for(s, v) < s.extent()
            &&& !s.fixed.contains(place_for(s, v))
            &&& !s.tables.contains(place_for(s, v))
        }
    }
}

/// The byte the disk has at `v`.
pub open spec fn byte_at(s: State, v: int) -> u8 {
    if leads_nowhere(s, pointer_for(s, v)) {
        0
    } else {
        s.contents[place_for(s, v)]
    }
}

pub proof fn lemma_same_grain(s: State, v: int, u: int, end: int)
    requires
        s.header.grain_size > 0,
        0 <= v < end,
        v <= u < v + s.chunk_len(v, end),
    ensures
        0 < s.chunk_len(v, end) <= end - v,
        u / (s.header.grain_size * 512) == v / (s.header.grain_size * 512),
        u % (s.header.grain_size * 512) == v % (s.header.grain_size * 512) + (u - v),
        table_for(s, u) == table_for(s, v),
        pointer_for(s, u) == pointer_for(s, v),
{
    let g = s.geometry();
    let gb = s.header.grain_size * 512;
    let q = v / gb;
    let m = v % gb;
    vstd::arithmetic::div_mod::lemma_fundamental_div_mod(v, gb);
    vstd::arithmetic::div_mod::lemma_mod_bound(v, gb);
    assert(gb * q == q * gb) by (nonlinear_arith);
    lemma_offset_of(g, q, m + (u - v));
}

proof fn lemma_chunk_at(s: State, v: int, end: int)
    requires
        s.header.compress_algorithm == 0,
        s.header.grain_size > 0,
        s.header.num_gtes_per_gt > 0,
        0 <= v < end,
    ensures
        0 < s.chunk_len(v, end) <= end - v,
        s.chunk(v, end) is Ok <==> forall|u: int|
            v <= u < v + s.chunk_len(v, end) ==> #[trigger] reached(s, u),
        s.chunk(v, end) matches Ok(bytes) ==> {
            &&& bytes.len() == s.chunk_len(v, end)
            &&& forall|k: int| 0 <= k < bytes.len() ==> #[trigger] bytes[k] == byte_at(s, v + k)
        },
{
    let gb = s.header.grain_size * 512;
    let n = s.chunk_len(v, end);
    vstd::arithmetic::div_mod::lemma_mod_bound(v, gb);
    assert(0 < n <= end - v);
    let gi = v / gb;
    let per = s.header.num_gtes_per_gt as int;
    let t = table_for(s, v);
    let p = pointer_for(s, v);
    law_integers_are_sums_of_bytes(s.contents, s.header.gd_offset * 512 + 4 * (gi / per), 0);
    law_integers_are_sums_of_bytes(s.contents, t * 512 + 4 * (gi % per), 0);
    law_what_the_flags_mean(s.header);
    assert forall|u: int| v <= u < v + n implies table_for(s, u) == t && pointer_for(s, u) == p
        && #[trigger] place_for(s, u) == p * 512 + v % gb + (u - v) by {
        lemma_same_grain(s, v, u, end);
    }
    assert(reached(s, v) ==> t == 0 || !hits(s.fixed, t * 512, t * 512 + 4 * per));
    if t != 0 && t * 512 + 4 * per <= s.extent() && !hits(s.fixed, t * 512, t * 512 + 4 * per) {
        assert forall|b: int| t * 512 <= b < t * 512 + 4 * per implies
            !#[trigger] s.fixed.contains(b) by {}
    }
    assert(s.entry(gi) is Ok ==> s.entry(gi)->Ok_0 == p);
    let lo = p * 512 + v % gb;
    if s.chunk(v, end) is Ok {
        assert forall|u: int| v <= u < v + n implies #[trigger] reached(s, u) by {
            assert(place_for(s, u) == lo + (u - v));
            if !leads_nowhere(s, p) {
                assert(!hits(s.fixed, lo, lo + n) && !hits(s.tables, lo, lo + n));
            }
        }
        let bytes = s.chunk(v, end)->Ok_0;
        assert forall|k: int| 0 <= k < bytes.len() implies #[trigger] bytes[k] == byte_at(
            s,
            v + k,
        ) by {
            assert(place_for(s, v + k) == lo + k);
        }
    }
    if forall|u: int| v <= u < v + n ==> #[trigger] reached(s, u) {
        assert(reached(s, v));
        assert(reached(s, v + n - 1));
        assert(s.entry(gi) is Ok);
        if !leads_nowhere(s, p) {
            assert(place_for(s, v + n - 1) == lo + n - 1);
            if hits(s.fixed, lo, lo + n) {
                let b = choose|b: int| lo <= b < lo + n && #[trigger] s.fixed.contains(b);
                assert(place_for(s, v + (b - lo)) == b);
                assert(reached(s, v + (b - lo)));
            }
            if hits(s.tables, lo, lo + n) {
                let b = choose|b: int| lo <= b < lo + n && #[trigger] s.tables.contains(b);
                assert(place_for(s, v + (b - lo)) == b);
                assert(reached(s, v + (b - lo)));
            }
        }
    }
}

proof fn lemma_range_at(s: State, v: int, end: int)
    requires
        s.header.compress_algorithm == 0,
        s.header.grain_size > 0,
        s.header.num_gtes_per_gt > 0,
        0 <= v <= end,
    ensures
        s.range(v, end) is Ok <==> forall|u: int| v <= u < end ==> #[trigger] reached(s, u),
        s.range(v, end) matches Ok(bytes) ==> {
            &&& bytes.len() == end - v
            &&& forall|k: int| 0 <= k < bytes.len() ==> #[trigger] bytes[k] == byte_at(s, v + k)
        },
    decreases end - v,
{
    if v < end {
        let n = s.chunk_len(v, end);
        lemma_chunk_at(s, v, end);
        lemma_range_at(s, v + n, end);
        if s.range(v, end) is Ok {
            assert forall|u: int| v <= u < end implies #[trigger] reached(s, u) by {}
            let head = s.chunk(v, end)->Ok_0;
            let tail = s.range(v + n, end)->Ok_0;
            let all = s.range(v, end)->Ok_0;
            assert(all == head + tail);
            assert forall|k: int| 0 <= k < all.len() implies #[trigger] all[k] == byte_at(
                s,
                v + k,
            ) by {
                if k >= n {
                    assert(all[k] == tail[k - n]);
                    assert(tail[k - n] == byte_at(s, v + n + (k - n)));
                } else {
                    assert(all[k] == head[k]);
                }
            }
        }
    }
}

/// A read of an image whose grains are not compressed succeeds exactly where
/// it stays inside the disk and each of its bytes can be reached, and gives
/// the bytes of the disk: those of the file where the pointers lead, and
/// zeros where they lead nowhere.
pub proof fn law_what_a_read_gives(s: State, offset: int, len: int)
    requires
        s.header.compress_algorithm == 0,
        s.header.grain_size > 0,
        s.header.num_gtes_per_gt > 0,
        s.header.capacity * 512 <= u64::MAX,
        0 <= offset,
        0 < len,
    ensures
        s.read(offset, len) is Ok <==> offset + len <= s.header.capacity * 512 && forall|v: int|
            offset <= v < offset + len ==> #[trigger] reached(s, v),
        s.read(offset, len) matches Ok(bytes) ==> {
            &&& bytes.len() == len
            &&& forall|k: int| 0 <= k < len ==> #[trigger] bytes[k] == byte_at(s, offset + k)
        },
        s.read(offset, len) matches Err(e) ==> e is Corrupt || e is OutOfBounds,
        offset + len <= u64::MAX ==> (offset + len > s.header.capacity * 512 <==> s.read(
            offset,
            len,
        ) == Err::<Seq<u8>, Error>(
            Error::OutOfBounds {
                offset: offset as u64,
                len: len as u64,
                size: (s.header.capacity * 512) as u64,
            },
        )),
{
    if offset + len <= s.header.capacity * 512 {
        lemma_range_at(s, offset, offset + len);
        lemma_range_errors(s, offset, offset + len);
    }
}

proof fn lemma_range_errors(s: State, v: int, end: int)
    requires
        s.header.compress_algorithm == 0,
        s.header.grain_size > 0,
        0 <= v <= end,
    ensures
        s.range(v, end) matches Err(e) ==> e is Corrupt,
    decreases end - v,
{
    if v < end {
        let gb = s.header.grain_size * 512;
        vstd::arithmetic::div_mod::lemma_mod_bound(v, gb);
        lemma_range_errors(s, v + s.chunk_len(v, end), end);
    }
}

/// Only a device that does not serve what it holds can fail a read that
/// succeeds otherwise, where the device holds all of the file.
pub proof fn law_a_whole_file_serves_its_reads(s: State, offset: int, len: int)
    requires
        s.header.compress_algorithm == 0,
        s.header.grain_size > 0,
        s.header.num_gtes_per_gt > 0,
        s.reliable,
        s.extent() <= s.contents.len(),
        0 <= offset,
        0 < len,
        offset + len <= s.header.capacity * 512 <= u64::MAX,
        s.read(offset, len) is Ok,
    ensures
        s.served_for(offset, offset + len),
{
    let end = offset + len;
    law_what_a_read_gives(s, offset, len);
    assert forall|u: int| offset <= u < end implies #[trigger] s.chunk_held(u, end) by {
        assert(reached(s, u));
        let gb = s.header.grain_size * 512;
        let per = s.header.num_gtes_per_gt as int;
        let gi = u / gb;
        law_integers_are_sums_of_bytes(s.contents, s.header.gd_offset * 512 + 4 * (gi / per), 0);
        law_integers_are_sums_of_bytes(
            s.contents,
            table_for(s, u) * 512 + 4 * (gi % per),
            0,
        );
    }
}

/// An entry of one is a grain of zeros exactly where the flags, as a number,
/// have their four set, whatever the header's revision: bytes of such a
/// grain read as zeros there, and are otherwise refused or those of the
/// file's second sector on.
pub proof fn law_an_entry_of_one(s: State, offset: int, len: int)
    requires
        s.header.compress_algorithm == 0,
        s.header.grain_size > 0,
        s.header.num_gtes_per_gt > 0,
        0 <= offset,
        0 < len,
        offset + len <= s.header.capacity * 512 <= u64::MAX,
        forall|v: int| offset <= v < offset + len ==> #[trigger] pointer_for(s, v) == 1,
        table_for(s, offset) * 512 + 4 * s.header.num_gtes_per_gt <= s.extent(),
        forall|v: int, b: int|
            offset <= v < offset + len && #[trigger] table_for(s, v) * 512 <= b < table_for(s, v)
                * 512 + 4 * s.header.num_gtes_per_gt ==> !#[trigger] s.fixed.contains(b),
        forall|v: int|
            offset <= v < offset + len ==> #[trigger] table_for(s, v) == table_for(s, offset),
    ensures
        (s.header.flags / 4) % 2 == 1 ==> s.read(offset, len) == Ok::<Seq<u8>, Error>(zeros(len)),
        (s.header.flags / 4) % 2 == 0 ==> (s.read(offset, len) matches Ok(bytes) ==> forall|k: int|
            0 <= k < len ==> #[trigger] bytes[k] == s.contents[512 + (offset + k) % (
            s.header.grain_size * 512)]),
        forall|i: int| 0 <= i < len ==> #[trigger] zeros(len)[i] == 0,
        zeros(len).len() == len,
{
    law_what_a_read_gives(s, offset, len);
    if (s.header.flags / 4) % 2 == 1 {
        assert forall|v: int| offset <= v < offset + len implies #[trigger] reached(s, v) by {
            assert(pointer_for(s, v) == 1);
            assert(table_for(s, v) == table_for(s, offset));
        }
        let bytes = s.read(offset, len)->Ok_0;
        assert forall|k: int| 0 <= k < len implies bytes[k] == 0 by {
            assert(bytes[k] == byte_at(s, offset + k));
            assert(pointer_for(s, offset + k) == 1);
        }
        assert(bytes =~= zeros(len));
    } else if s.read(offset, len) is Ok {
        let bytes = s.read(offset, len)->Ok_0;
        assert forall|k: int| 0 <= k < len implies #[trigger] bytes[k] == s.contents[512 + (offset
            + k) % (s.header.grain_size * 512)] by {
            assert(bytes[k] == byte_at(s, offset + k));
            assert(pointer_for(s, offset + k) == 1);
        }
    }
}

} // verus!
