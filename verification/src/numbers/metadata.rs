//! What an open reader keeps grains away from, as numbers of the file.

use super::opening::{
    declares_copy, in_regions, law_what_opens_is_in_place, lemma_fixed_regions,
    lemma_laid_out_header, named_sector, table_stands, takes_tables,
};
use super::reading::{law_an_entry_of_one, leads_nowhere, place_for, pointer_for, reached, table_for};
use super::{law_integers_are_sums_of_bytes, u32_at, u64_at};
use crate::image::{copy_sector, table_sector};
use crate::reader::laws::law_opening_protects_the_metadata;
use crate::reader::open::{fixed_bytes, in_tables, named_tables, opened, protects};
use crate::reader::sessions::law_opening_spreads_the_tables;
use crate::reader::state::{div_up, hits, lemma_div_up, lemma_tables_cover, State};
use vstd::prelude::*;

verus! {

/// Whether byte `b` is of a table that the directory names, or, where the
/// header declares a redundant directory, that names.
pub open spec fn in_a_table(c: Seq<u8>, t: int, b: int) -> bool {
    ||| exists|i: int|
        0 <= i < t && (#[trigger] named_sector(c, false, i)) > 0 && named_sector(c, false, i) * 512
            <= b < named_sector(c, false, i) * 512 + 4 * u32_at(c, 44)
    ||| declares_copy(c) && exists|i: int|
        0 <= i < t && (#[trigger] named_sector(c, true, i)) > 0 && named_sector(c, true, i) * 512
            <= b < named_sector(c, true, i) * 512 + 4 * u32_at(c, 44)
}

/// The first byte a grain may occupy: as many sectors in as the header says
/// come before the grains, where that is inside the file, and never in the
/// first sector.
pub open spec fn grains_from(c: Seq<u8>, n: int) -> int {
    if 1 < u64_at(c, 64) && u64_at(c, 64) * 512 <= n {
        u64_at(c, 64) * 512
    } else {
        512
    }
}

/// A reader takes as metadata the header's sector, the descriptor, the
/// directories and the tables that they name, and nothing else; grains begin
/// where the header says and end with the file's last sector.
pub proof fn law_what_an_open_reader_protects(
    c: Seq<u8>,
    n: int,
    writable: bool,
    served: bool,
    reliable: bool,
    t: int,
)
    requires
        n <= c.len(),
        n <= u64::MAX,
        opened(c, n, writable, served, reliable) is Ok,
        takes_tables(u64_at(c, 12), u64_at(c, 20), u32_at(c, 44), t),
    ensures
        ({
            let s = opened(c, n, writable, served, reliable)->Ok_0;
            &&& s.contents == c
            &&& s.header.compress_algorithm == 0
            &&& s.header.flags == u32_at(c, 8)
            &&& s.header.capacity == u64_at(c, 12)
            &&& s.header.grain_size == u64_at(c, 20)
            &&& s.header.num_gtes_per_gt == u32_at(c, 44)
            &&& s.header.gd_offset == u64_at(c, 56)
            &&& s.header.rgd_offset == u64_at(c, 48)
            &&& s.header.descriptor_offset == u64_at(c, 28)
            &&& s.header.descriptor_size == u64_at(c, 36)
            &&& n <= s.extent() < n + 512
            &&& s.floor == grains_from(c, n)
            &&& s.redundant ==> declares_copy(c)
            &&& forall|b: int| 0 <= b && #[trigger] s.fixed.contains(b) ==> in_regions(c, t, b)
            &&& forall|b: int| 0 <= b < 512 ==> #[trigger] s.fixed.contains(b)
            &&& forall|b: int|
                u64_at(c, 28) * 512 <= b < (u64_at(c, 28) + u64_at(c, 36)) * 512
                    ==> #[trigger] s.fixed.contains(b)
            &&& forall|b: int|
                u64_at(c, 56) * 512 <= b < u64_at(c, 56) * 512 + 4 * t && n % 512 == 0
                    ==> #[trigger] s.fixed.contains(b)
            &&& s.redundant ==> forall|b: int|
                u64_at(c, 48) * 512 <= b < u64_at(c, 48) * 512 + 4 * t && n % 512 == 0
                    ==> #[trigger] s.fixed.contains(b)
            &&& forall|b: int| #[trigger] s.tables.contains(b) ==> in_a_table(c, t, b)
            &&& forall|i: int, b: int|
                0 <= i < t && table_stands(c, n, t, #[trigger] named_sector(c, false, i))
                    && named_sector(c, false, i) * 512 <= b < named_sector(c, false, i) * 512 + 4
                    * u32_at(c, 44) ==> #[trigger] s.tables.contains(b)
            &&& s.redundant ==> forall|i: int, b: int|
                0 <= i < t && table_stands(c, n, t, #[trigger] named_sector(c, true, i))
                    && named_sector(c, true, i) * 512 <= b < named_sector(c, true, i) * 512 + 4
                    * u32_at(c, 44) ==> #[trigger] s.tables.contains(b)
        }),
{
    law_what_opens_is_in_place(c, n, writable, served, reliable, t);
    let s = opened(c, n, writable, served, reliable)->Ok_0;
    let h = lemma_laid_out_header(c, n, t, writable);
    assert(s.header == h);
    lemma_div_up(n, 512);
    lemma_div_up(4 * t, 512);
    let dir = div_up(4 * t, 512);
    let fixed = fixed_bytes(h, n, s.redundant);
    let named = named_tables(c, h, s.redundant);
    assert(s.fixed == fixed);
    assert(s.redundant ==> declares_copy(c) && u64_at(c, 48) * 512 + 4 * t <= n);
    assert forall|b: int| 0 <= b && #[trigger] s.fixed.contains(b) implies in_regions(c, t, b) by {
        lemma_fixed_regions(c, n, t, h, s.redundant, b);
    }
    assert forall|i: int| 0 <= i < t implies #[trigger] named_sector(c, false, i) == named[i] by {
        law_integers_are_sums_of_bytes(c, u64_at(c, 56) * 512 + 4 * i, 0);
    }
    assert forall|i: int| 0 <= i < t && s.redundant implies #[trigger] named_sector(c, true, i)
        == named[t + i] by {
        law_integers_are_sums_of_bytes(c, u64_at(c, 48) * 512 + 4 * i, 0);
    }
    assert forall|b: int| #[trigger] s.tables.contains(b) implies in_a_table(c, t, b) by {
        assert(in_tables(h, n, fixed, named, b));
        let k = choose|k: int|
            0 <= k < named.len() && protects(h, n, fixed, #[trigger] named[k]) && named[k] * 512
                <= b < named[k] * 512 + 4 * h.num_gtes_per_gt;
        if k < t {
            assert(named_sector(c, false, k) == named[k]);
        } else {
            assert(named_sector(c, true, k - t) == named[k]);
        }
    }
    assert forall|i: int, b: int|
        0 <= i < t && table_stands(c, n, t, #[trigger] named_sector(c, false, i)) && named_sector(
            c,
            false,
            i,
        ) * 512 <= b < named_sector(c, false, i) * 512 + 4 * u32_at(
            c,
            44,
        ) implies #[trigger] s.tables.contains(b) by {
        let x = named_sector(c, false, i);
        assert(named[i] == x);
        let end = x * 512 + 4 * h.num_gtes_per_gt;
        if hits(fixed, x * 512, end) {
            let z = choose|z: int| x * 512 <= z < end && #[trigger] fixed.contains(z);
            lemma_fixed_regions(c, n, t, h, s.redundant, z);
        }
        assert(protects(h, n, fixed, named[i]));
        assert(in_tables(h, n, fixed, named, b));
    }
    if s.redundant {
        assert forall|i: int, b: int|
            0 <= i < t && table_stands(c, n, t, #[trigger] named_sector(c, true, i))
                && named_sector(c, true, i) * 512 <= b < named_sector(c, true, i) * 512 + 4 * u32_at(
                c,
                44,
            ) implies #[trigger] s.tables.contains(b) by {
            let x = named_sector(c, true, i);
            assert(named[t + i] == x);
            let end = x * 512 + 4 * h.num_gtes_per_gt;
            if hits(fixed, x * 512, end) {
                let z = choose|z: int| x * 512 <= z < end && #[trigger] fixed.contains(z);
                lemma_fixed_regions(c, n, t, h, s.redundant, z);
            }
            assert(protects(h, n, fixed, named[t + i]));
            assert(in_tables(h, n, fixed, named, b));
        }
    }
}

/// Whether byte `v` of the disk is where an image has its bytes: its table,
/// where there is one, inside the file and clear of the regions whose place
/// the header states, and its place, where it has one, among the grains and
/// in no table.
pub open spec fn ordinary(s: State, n: int, t: int, v: int) -> bool {
    let c = s.contents;
    table_for(s, v) == 0 || {
        &&& table_stands(c, n, t, table_for(s, v))
        &&& leads_nowhere(s, pointer_for(s, v)) || {
            &&& pointer_for(s, v) * 512 >= grains_from(c, n)
            &&& place_for(s, v) < n
            &&& !in_regions(c, t, place_for(s, v))
            &&& !in_a_table(c, t, place_for(s, v))
        }
    }
}

/// A byte of the disk that is where an image has its bytes can be reached by
/// a reader that was just opened, and one whose place is metadata, before
/// the grains, or past the file's last sector, cannot.
pub proof fn law_which_bytes_an_open_reader_reaches(
    c: Seq<u8>,
    n: int,
    writable: bool,
    served: bool,
    reliable: bool,
    t: int,
    v: int,
)
    requires
        n <= c.len(),
        n <= u64::MAX,
        opened(c, n, writable, served, reliable) is Ok,
        takes_tables(u64_at(c, 12), u64_at(c, 20), u32_at(c, 44), t),
        0 <= v,
    ensures
        ({
            let s = opened(c, n, writable, served, reliable)->Ok_0;
            let p = place_for(s, v);
            &&& ordinary(s, n, t, v) ==> reached(s, v)
            &&& table_for(s, v) > 0 && !leads_nowhere(s, pointer_for(s, v)) && (p < 512 || p >= n
                + 512 || pointer_for(s, v) * 512 < grains_from(c, n) || u64_at(c, 28) * 512 <= p < (
            u64_at(c, 28) + u64_at(c, 36)) * 512 || (n % 512 == 0 && u64_at(c, 56) * 512 <= p
                < u64_at(c, 56) * 512 + 4 * t)) ==> !reached(s, v)
        }),
{
    law_what_an_open_reader_protects(c, n, writable, served, reliable, t);
    law_what_opens_is_in_place(c, n, writable, served, reliable, t);
    let s = opened(c, n, writable, served, reliable)->Ok_0;
    vstd::arithmetic::div_mod::lemma_mod_bound(v, s.header.grain_size * 512);
    if ordinary(s, n, t, v) && table_for(s, v) != 0 {
        let x = table_for(s, v);
        assert forall|b: int| x * 512 <= b < x * 512 + 4 * s.header.num_gtes_per_gt implies
            !#[trigger] s.fixed.contains(b) by {
            assert(!in_regions(c, t, b));
        }
    }
}

/// Whether the regions whose place the header states share no sector.
pub open spec fn regions_apart(c: Seq<u8>, t: int) -> bool {
    let span = (4 * t + 511) / 512 * 512;
    let gd = u64_at(c, 56) * 512;
    let rgd = u64_at(c, 48) * 512;
    let desc = u64_at(c, 28) * 512;
    let end = (u64_at(c, 28) + u64_at(c, 36)) * 512;
    &&& gd + span <= desc || end <= gd
    &&& declares_copy(c) ==> {
        &&& rgd + span <= desc || end <= rgd
        &&& gd + span <= rgd || rgd + span <= gd
    }
}

/// Whether no entry of the directories names a table that runs past the
/// file.
pub open spec fn entries_in_file(c: Seq<u8>, n: int, t: int) -> bool {
    let span = (4 * u32_at(c, 44) + 511) / 512 * 512;
    &&& forall|i: int|
        0 <= i < t ==> (#[trigger] named_sector(c, false, i)) == 0 || named_sector(c, false, i) * 512
            + span <= n
    &&& declares_copy(c) ==> forall|i: int|
        0 <= i < t ==> (#[trigger] named_sector(c, true, i)) == 0 || named_sector(c, true, i) * 512
            + span <= n
}

/// An image of whole sectors that opens read-write is in order: the numbers
/// that fix its layout fit, unless the regions whose place its header states
/// overlap, its metadata is protected and its identifier can be replaced.
pub proof fn law_opened_images_are_in_order(
    c: Seq<u8>,
    n: int,
    reliable: bool,
    t: int,
)
    requires
        n <= c.len(),
        n <= u64::MAX,
        n % 512 == 0,
        opened(c, n, true, true, reliable) is Ok,
        takes_tables(u64_at(c, 12), u64_at(c, 20), u32_at(c, 44), t),
        regions_apart(c, t),
    ensures
        ({
            let s = opened(c, n, true, true, reliable)->Ok_0;
            &&& s.geometry().wf()
            &&& s.geometry().virtual_size == u64_at(c, 12) * 512
            &&& s.guarded()
            &&& s.spread()
            &&& s.describable()
            &&& 2 <= s.cursor
            &&& s.redundant == declares_copy(c)
            &&& entries_in_file(c, n, t) ==> s.tidy()
        }),
{
    law_what_an_open_reader_protects(c, n, true, true, reliable, t);
    law_what_opens_is_in_place(c, n, true, true, reliable, t);
    let s = opened(c, n, true, true, reliable)->Ok_0;
    let h = lemma_laid_out_header(c, n, t, true);
    assert(s.header == h);
    let g = s.geometry();
    lemma_tables_cover(h);
    assert(g.wf());
    law_opening_protects_the_metadata(c, n, true, reliable);
    law_opening_spreads_the_tables(c, n, true, reliable);
    if entries_in_file(c, n, t) {
        assert forall|i: int| 0 <= i < g.tables implies #[trigger] s.entry_rooted(i) by {
            law_integers_are_sums_of_bytes(c, u64_at(c, 56) * 512 + 4 * i, 0);
            law_integers_are_sums_of_bytes(c, u64_at(c, 48) * 512 + 4 * i, 0);
            assert(table_sector(g, c, i) == named_sector(c, false, i));
            assert(s.redundant ==> copy_sector(g, c, i) == named_sector(c, true, i));
        }
    }
}

/// On every image that opens, whatever its revision, a grain whose entry is
/// one reads as zeros exactly where the number at byte 8 has its four set;
/// where it has not, the entry is a pointer like any other, and a read of
/// the grain is refused or gives the bytes from the file's second sector on.
pub proof fn law_zeroed_grains_of_an_open_image(
    c: Seq<u8>,
    n: int,
    writable: bool,
    served: bool,
    reliable: bool,
    t: int,
    offset: int,
    len: int,
)
    requires
        n <= c.len(),
        n <= u64::MAX,
        opened(c, n, writable, served, reliable) is Ok,
        takes_tables(u64_at(c, 12), u64_at(c, 20), u32_at(c, 44), t),
        0 <= offset,
        0 < len,
        offset + len <= u64_at(c, 12) * 512,
        offset / (u64_at(c, 20) * 512) == (offset + len - 1) / (u64_at(c, 20) * 512),
        ({
            let gi = offset / (u64_at(c, 20) * 512);
            let table = named_sector(c, false, gi / u32_at(c, 44));
            &&& table_stands(c, n, t, table)
            &&& u32_at(c, table * 512 + 4 * (gi % u32_at(c, 44))) == 1
        }),
    ensures
        ({
            let r = (opened(c, n, writable, served, reliable)->Ok_0).read(offset, len);
            &&& (u32_at(c, 8) / 4) % 2 == 1 ==> r is Ok && r->Ok_0.len() == len && forall|k: int|
                0 <= k < len ==> #[trigger] r->Ok_0[k] == 0
            &&& (u32_at(c, 8) / 4) % 2 == 0 && r is Ok ==> forall|k: int|
                0 <= k < len ==> #[trigger] r->Ok_0[k] == c[512 + (offset + k) % (u64_at(c, 20)
                    * 512)]
        }),
{
    law_what_an_open_reader_protects(c, n, writable, served, reliable, t);
    law_what_opens_is_in_place(c, n, writable, served, reliable, t);
    let s = opened(c, n, writable, served, reliable)->Ok_0;
    let gb = s.header.grain_size * 512;
    let gi = offset / gb;
    assert forall|v: int| offset <= v < offset + len implies #[trigger] pointer_for(s, v) == 1
        && table_for(s, v) == table_for(s, offset) by {
        vstd::arithmetic::div_mod::lemma_div_is_ordered(offset, v, gb);
        vstd::arithmetic::div_mod::lemma_div_is_ordered(v, offset + len - 1, gb);
        assert(v / gb == gi);
    }
    assert forall|v: int| offset <= v < offset + len implies #[trigger] table_for(s, v)
        == table_for(s, offset) by {
        assert(pointer_for(s, v) == 1);
    }
    let x = table_for(s, offset);
    assert forall|v: int, b: int|
        offset <= v < offset + len && #[trigger] table_for(s, v) * 512 <= b < table_for(s, v) * 512
            + 4 * s.header.num_gtes_per_gt implies !#[trigger] s.fixed.contains(b) by {
        assert(table_for(s, v) == x);
        assert(!in_regions(c, t, b));
    }
    law_an_entry_of_one(s, offset, len);
}

} // verus!
