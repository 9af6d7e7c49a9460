//! What holds of opening, reading and writing taken together.

use super::grain::{lemma_grain_reachable, lemma_table_loads};
use super::mark::{fresh_id, lemma_mark_step, lemma_synced_notes};
use super::open::{
    descriptor_stage, directory_refusal, fits, fixed_bytes, grain_floor, header_stage, in_tables,
    named_tables, opened, protects, redundant_refusal, table_bytes, tables_clash,
};
use super::sound::{is_state, pointwise, same_text};
use super::state::{bytes_at, div_up, hits, lemma_div_up, table_count, zeros, State};
use crate::bytes::overlaid;
use crate::content_id::{content_id_of, hex_value, law_rewritten_identifier_reads_back};
use crate::crash::{crash_image, law_crash_reads_no_wrong_data, sector_survives, window_ok};
use crate::descriptor::DescriptorView;
use crate::error::Error;
use crate::header::SparseHeader;
use crate::image::{
    apart, copy_entry, copy_sector, disk, disk_byte, entry_at, grain_entry, grain_state, healthy,
    lemma_apart_in_sectors, lemma_byte_in_grain, lemma_grain_index, mirrored, placed, sectors_up, slot_range, table_sector,
    Geometry, GrainState, Slot,
};
use vstd::prelude::*;

verus! {

/// Opening a healthy image gives a sound reader with nothing unflushed.
/// Opened for writing, its identifier can be changed, and the header sector
/// and the descriptor are protected.
pub proof fn law_opening_a_healthy_image_is_sound(
    c: Seq<u8>,
    n: int,
    writable: bool,
    served: bool,
    reliable: bool,
)
    requires
        0 <= n <= u64::MAX,
        opened(c, n, writable, served, reliable) is Ok,
        ({
            let s = opened(c, n, writable, served, reliable)->Ok_0;
            !s.header.stream() && healthy(s.geometry(), c, s.extent())
        }),
    ensures
        ({
            let s = opened(c, n, writable, served, reliable)->Ok_0;
            &&& s.sound()
            &&& s.settled()
            &&& writable ==> s.describable()
            &&& s.charted()
            &&& s.marks_settled()
            &&& s.disk() == disk(s.geometry(), c)
        }),
{
    let s = opened(c, n, writable, served, reliable)->Ok_0;
    let g = s.geometry();
    let h = s.header;
    reveal(State::sound);
    reveal(healthy);
    lemma_div_up(n, 512);
    let dir = div_up(4 * table_count(h), 512);
    assert(dir * 512 == g.dir_span());
    let named = named_tables(c, h, s.redundant);
    assert(s.tables == table_bytes(h, n, s.fixed, named));
    assert forall|b: int| #[trigger] s.tables.contains(b) implies b < s.extent() by {
        assert(in_tables(h, n, s.fixed, named, b));
    }
    assert forall|gi: int| (#[trigger] slot_range(g, c, Slot::Grain(gi))) is Some implies !hits(
        s.tables,
        (slot_range(g, c, Slot::Grain(gi))->0).0,
        (slot_range(g, c, Slot::Grain(gi))->0).1,
    ) by {
        let r = slot_range(g, c, Slot::Grain(gi))->0;
        if hits(s.tables, r.0, r.1) {
            let b = choose|b: int| r.0 <= b < r.1 && #[trigger] s.tables.contains(b);
            assert(in_tables(h, n, s.fixed, named, b));
            let k = choose|k: int|
                0 <= k < named.len() && protects(h, n, s.fixed, #[trigger] named[k]) && named[k]
                    * 512 <= b < named[k] * 512 + 4 * h.num_gtes_per_gt;
            assert(4 * g.per_table <= g.table_span());
            if k < table_count(h) {
                assert(named[k] == table_sector(g, c, k));
                assert(slot_range(g, c, Slot::Table(k)) is Some);
                assert(Slot::Table(k) != Slot::Grain(gi));
            } else {
                let i = k - table_count(h);
                assert(named[k] == entry_at(c, h.rgd_offset * 512, i));
                assert(slot_range(g, c, Slot::Copy(i)) is Some);
                assert(Slot::Copy(i) != Slot::Grain(gi));
            }
        }
    }
    let w = seq![c];
    assert(window_ok(g, w)) by {
        assert(healthy(g, c, c.len() as int)) by {
            assert forall|x: Slot| (#[trigger] slot_range(g, c, x)) is Some implies placed(
                g,
                c,
                c.len() as int,
                slot_range(g, c, x)->0,
            ) by {}
        }
    }
    assert(s.journal_ok()) by {
        assert forall|e: int| 0 <= e < s.journal.len() implies window_ok(
            g,
            #[trigger] s.journal[e],
        ) by {
            assert(s.journal[e] == w);
        }
    }
    let off = h.descriptor_offset * 512;
    let len = h.descriptor_size * 512;
    assert(s.descriptor_bytes() =~= c.subrange(off, off + len));
    assert forall|b: int| #[trigger] s.is_text(b) implies s.fixed.contains(b) by {
        assert(fits(h.descriptor_offset as int, h.descriptor_size as int, n));
    }
}

/// An image of whole sectors, opened read-write, has its metadata protected
/// unless the regions whose place its header states overlap, and takes a
/// fresh identifier. What its grain tables say does not matter.
pub proof fn law_opening_protects_the_metadata(
    c: Seq<u8>,
    n: int,
    served: bool,
    reliable: bool,
)
    requires
        0 <= n <= u64::MAX,
        n % 512 == 0,
        n <= c.len(),
        opened(c, n, true, served, reliable) is Ok,
        (opened(c, n, true, served, reliable)->Ok_0).geometry().wf(),
    ensures
        (opened(c, n, true, served, reliable)->Ok_0).guarded(),
        (opened(c, n, true, served, reliable)->Ok_0).describable(),
{
    let s = opened(c, n, true, served, reliable)->Ok_0;
    lemma_opened_parts(c, n, served, reliable);
    lemma_regions_protected(c, n, s);
    lemma_tables_protected(c, n, s);
    lemma_copies_protected(c, n, s);
}

/// An image that ends inside a sector, opened read-write, has what a write
/// to grain `gi` rests on protected, if its directories lie in the whole
/// sectors, and the grain's table and its copy in the file where they are
/// not refused. A grain that has a place needs no copy.
pub proof fn law_opening_protects_a_grain(c: Seq<u8>, served: bool, reliable: bool, gi: int)
    requires
        c.len() <= u64::MAX,
        opened(c, c.len() as int, true, served, reliable) is Ok,
        ({
            let n = c.len() as int;
            let s = opened(c, n, true, served, reliable)->Ok_0;
            let g = s.geometry();
            let i = gi / g.per_table;
            let t = table_sector(g, c, i);
            let q = copy_sector(g, c, i);
            let dir = div_up(4 * table_count(s.header), 512);
            &&& g.wf()
            &&& g.has_grain(gi)
            &&& fits(s.header.gd_offset as int, dir, n)
            &&& s.redundant ==> fits(s.header.rgd_offset as int, dir, n)
            &&& s.table_refusal(t) is None ==> t * 512 + g.table_span() <= n
            &&& s.has_place(gi) || (s.copy_refusal(q) is None ==> q * 512 + g.table_span() <= n)
        }),
    ensures
        (opened(c, c.len() as int, true, served, reliable)->Ok_0).guarded_at(gi),
        (opened(c, c.len() as int, true, served, reliable)->Ok_0).describable(),
{
    let n = c.len() as int;
    let r = opened(c, n, true, served, reliable);
    lemma_opened_parts(c, n, served, reliable);
    lemma_grain_protected(r->Ok_0, gi);
}

proof fn lemma_grain_protected(s: State, gi: int)
    requires
        s.geometry().has_grain(gi),
        s.as_opened(),
        ({
            let c = s.contents;
            let g = s.geometry();
            let i = gi / g.per_table;
            let t = table_sector(g, c, i);
            let q = copy_sector(g, c, i);
            &&& s.table_refusal(t) is None ==> t * 512 + g.table_span() <= c.len()
            &&& s.has_place(gi) || (s.copy_refusal(q) is None ==> q * 512 + g.table_span()
                <= c.len())
        }),
    ensures
        s.guarded_at(gi),
{
    let g = s.geometry();
    lemma_grain_index(g, gi);
    lemma_table_in_file(s, gi / g.per_table);
}

impl State {
    /// Whether this is what opening a file read-write gives whose
    /// directories lie in its whole sectors.
    pub open spec fn as_opened(&self) -> bool {
        let c = self.contents;
        let n = c.len() as int;
        let g = self.geometry();
        let h = self.header;
        let dir = div_up(4 * table_count(h), 512);
        let named = named_tables(c, h, self.redundant);
        &&& n <= u64::MAX
        &&& g.wf()
        &&& fits(h.gd_offset as int, dir, n)
        &&& self.redundant ==> fits(h.rgd_offset as int, dir, n)
        &&& self.cursor == div_up(n, 512)
        &&& self.floor == grain_floor(h, n)
        &&& self.fixed == fixed_bytes(h, n, self.redundant)
        &&& self.tables == table_bytes(h, n, self.fixed, named)
        &&& !tables_clash(h, n, self.fixed, named)
        &&& g.desc_at + g.desc_len <= n
        &&& 512 <= n
    }
}

/// The regions whose place the header states are protected.
pub(super) proof fn lemma_opened_grounded(s: State)
    requires
        s.as_opened(),
    ensures
        s.grounded(),
{
    let c = s.contents;
    let n = c.len() as int;
    let g = s.geometry();
    let h = s.header;
    let named = named_tables(c, h, s.redundant);
    lemma_div_up(n, 512);
    assert(div_up(4 * table_count(h), 512) * 512 == g.dir_span());
    assert(4 * g.tables <= g.dir_span());
    assert(fits(h.descriptor_offset as int, h.descriptor_size as int, n));
    assert forall|b: int| #[trigger] g.fixed(b) implies s.fixed.contains(b) by {}
    assert forall|b: int| #[trigger] s.is_text(b) implies s.fixed.contains(b) by {
        assert(g.fixed(b));
    }
    assert forall|b: int| #[trigger] s.tables.contains(b) implies b < s.extent() by {
        assert(in_tables(h, n, s.fixed, named, b));
    }
}

/// A table in the file is protected, and so is its copy.
pub(super) proof fn lemma_table_in_file(s: State, i: int)
    requires
        s.as_opened(),
        0 <= i < s.geometry().tables,
        ({
            let g = s.geometry();
            let t = table_sector(g, s.contents, i);
            t != 0 && s.table_refusal(t) is None ==> t * 512 + g.table_span() <= s.contents.len()
        }),
    ensures
        s.grounded(),
        s.table_guarded(i),
        ({
            let g = s.geometry();
            let t = table_sector(g, s.contents, i);
            let q = copy_sector(g, s.contents, i);
            t != 0 && s.table_refusal(t) is None && q != 0 && s.copy_refusal(q) is None ==> q * 512
                + g.table_span() <= s.contents.len()
        }) ==> s.copy_guarded(i),
{
    let c = s.contents;
    let n = c.len() as int;
    let g = s.geometry();
    let h = s.header;
    let t = table_sector(g, c, i);
    let q = copy_sector(g, c, i);
    let named = named_tables(c, h, s.redundant);
    lemma_opened_grounded(s);
    assert(4 * g.per_table <= g.table_span());
    assert(named[i] == t);
    if t != 0 && s.table_refusal(t) is None {
        assert(protects(h, n, s.fixed, named[i]));
        lemma_whole_sectors_clear(s, n, t, 4 * g.per_table);
        assert forall|b: int|
            t * 512 <= b < t * 512 + 4 * g.per_table implies #[trigger] s.tables.contains(b) by {
            assert(in_tables(h, n, s.fixed, named, b));
        }
        if q != 0 && s.copy_refusal(q) is None && q * 512 + g.table_span() <= n {
            let k = g.tables + i;
            assert(named[k] == q);
            assert(!hits(s.fixed, q * 512, q * 512 + 4 * g.per_table)) by {
                if hits(s.fixed, q * 512, q * 512 + 4 * g.per_table) {
                    let b = choose|b: int|
                        q * 512 <= b < q * 512 + 4 * g.per_table && #[trigger] s.fixed.contains(b);
                    assert(hits(s.fixed, q * 512, q * 512 + g.table_span()));
                }
            }
            assert(protects(h, n, s.fixed, named[k]));
            assert(apart(
                (t * 512, t * 512 + 4 * g.per_table),
                (q * 512, q * 512 + 4 * g.per_table),
            ));
            lemma_apart_in_sectors(t as int, q as int, 4 * g.per_table, 4 * g.per_table);
        }
    }
}

/// What opening an image read-write fixes of the reader.
pub(super) proof fn lemma_opened_parts(c: Seq<u8>, n: int, served: bool, reliable: bool)
    requires
        0 <= n <= u64::MAX,
        n <= c.len(),
        opened(c, n, true, served, reliable) is Ok,
    ensures
        ({
            let s = opened(c, n, true, served, reliable)->Ok_0;
            &&& s.contents == c
            &&& s.cursor == div_up(n, 512)
            &&& s.floor == grain_floor(s.header, n)
            &&& s.fixed == fixed_bytes(s.header, n, s.redundant)
            &&& s.tables == table_bytes(
                s.header,
                n,
                s.fixed,
                named_tables(c, s.header, s.redundant),
            )
            &&& !tables_clash(s.header, n, s.fixed, named_tables(c, s.header, s.redundant))
            &&& directory_refusal(n, s.header) is None
            &&& s.redundant ==> redundant_refusal(n, s.header) is None
            &&& s.geometry().desc_at + s.geometry().desc_len <= n
            &&& 512 <= n
            &&& s.describable()
        }),
{
    let s = opened(c, n, true, served, reliable)->Ok_0;
    let off = s.header.descriptor_offset * 512;
    let len = s.header.descriptor_size * 512;
    assert(s.descriptor_bytes() =~= c.subrange(off, off + len));
}

/// The regions whose place the header states are protected in an image of
/// whole sectors.
proof fn lemma_regions_protected(c: Seq<u8>, n: int, s: State)
    requires
        0 <= n <= u64::MAX,
        n % 512 == 0,
        n <= c.len(),
        s.contents == c,
        s.cursor == div_up(n, 512),
        s.floor == grain_floor(s.header, n),
        s.fixed == fixed_bytes(s.header, n, s.redundant),
        s.tables == table_bytes(s.header, n, s.fixed, named_tables(c, s.header, s.redundant)),
        directory_refusal(n, s.header) is None,
        s.redundant ==> redundant_refusal(n, s.header) is None,
        s.geometry().desc_at + s.geometry().desc_len <= n,
        512 <= n,
        s.geometry().wf(),
    ensures
        s.grounded(),
        s.extent() == n,
{
    let g = s.geometry();
    let h = s.header;
    let dir = div_up(4 * table_count(h), 512);
    let named = named_tables(c, h, s.redundant);
    assert(s.extent() == n);
    assert(dir * 512 == g.dir_span());
    assert(fits(h.descriptor_offset as int, h.descriptor_size as int, n));
    assert(fits(h.gd_offset as int, dir, n));
    assert(s.redundant ==> fits(h.rgd_offset as int, dir, n));
    assert forall|b: int| #[trigger] g.fixed(b) implies s.fixed.contains(b) by {}
    assert forall|b: int| #[trigger] s.is_text(b) implies s.fixed.contains(b) by {
        assert(g.fixed(b));
    }
    assert forall|b: int| #[trigger] s.tables.contains(b) implies b < s.extent() by {
        assert(in_tables(h, n, s.fixed, named, b));
    }
}

/// A range of whole sectors meets the fixed regions only where a range that
/// reaches into its last sector does.
pub(super) proof fn lemma_whole_sectors_clear(s: State, n: int, t: u32, len: int)
    requires
        s.fixed == fixed_bytes(s.header, n, s.redundant),
        0 < len,
        !hits(s.fixed, t * 512, t * 512 + len),
    ensures
        !hits(s.fixed, t * 512, t * 512 + sectors_up(len)),
{
    let end = t * 512 + sectors_up(len);
    if hits(s.fixed, t * 512, end) {
        let b = choose|b: int| t * 512 <= b < end && #[trigger] s.fixed.contains(b);
        // The first byte of its sector is fixed too.
        let f = b / 512 * 512;
        assert(s.fixed.contains(f));
        assert(t * 512 <= f < t * 512 + len);
    }
}

/// The grain tables that are not refused are protected in an image of whole
/// sectors.
proof fn lemma_tables_protected(c: Seq<u8>, n: int, s: State)
    requires
        n % 512 == 0,
        n <= c.len(),
        s.contents == c,
        s.extent() == n,
        s.geometry().per_table > 0,
        s.fixed == fixed_bytes(s.header, n, s.redundant),
        s.tables == table_bytes(s.header, n, s.fixed, named_tables(c, s.header, s.redundant)),
    ensures
        forall|i: int| 0 <= i < s.geometry().tables ==> #[trigger] s.table_guarded(i),
{
    assert forall|i: int| 0 <= i < s.geometry().tables implies #[trigger] s.table_guarded(i) by {
        lemma_table_protected(c, n, s, i);
    }
}

proof fn lemma_table_protected(c: Seq<u8>, n: int, s: State, i: int)
    requires
        n % 512 == 0,
        n <= c.len(),
        s.contents == c,
        s.extent() == n,
        s.geometry().per_table > 0,
        s.fixed == fixed_bytes(s.header, n, s.redundant),
        s.tables == table_bytes(s.header, n, s.fixed, named_tables(c, s.header, s.redundant)),
        0 <= i < s.geometry().tables,
    ensures
        s.table_guarded(i),
{
    let g = s.geometry();
    let h = s.header;
    let fixed = s.fixed;
    let named = named_tables(c, h, s.redundant);
    let t = table_sector(g, c, i);
    if t != 0 && s.table_refusal(t) is None {
        assert(named[i] == t);
        assert(protects(h, n, fixed, named[i]));
        lemma_whole_sectors_clear(s, n, t, 4 * g.per_table);
        assert(t * 512 + g.table_span() <= n);
        assert forall|b: int|
            t * 512 <= b < t * 512 + 4 * g.per_table implies #[trigger] s.tables.contains(b) by {
            assert(in_tables(h, n, fixed, named, b));
        }
    }
}

/// The grain tables and the copies that are not refused are apart in an
/// image of whole sectors that is opened read-write.
proof fn lemma_copies_protected(c: Seq<u8>, n: int, s: State)
    requires
        n % 512 == 0,
        n <= c.len(),
        s.contents == c,
        s.extent() == n,
        s.geometry().per_table > 0,
        !tables_clash(s.header, n, s.fixed, named_tables(c, s.header, s.redundant)),
    ensures
        forall|i: int| 0 <= i < s.geometry().tables ==> #[trigger] s.copy_guarded(i),
{
    let g = s.geometry();
    let h = s.header;
    let named = named_tables(c, h, s.redundant);
    assert forall|i: int| 0 <= i < g.tables implies #[trigger] s.copy_guarded(i) by {
        let t = table_sector(g, c, i);
        let q = copy_sector(g, c, i);
        if t != 0 && s.table_refusal(t) is None && q != 0 && s.copy_refusal(q) is None {
            let k = g.tables + i;
            assert(named[i] == t);
            assert(named[k] == q);
            assert(4 * g.per_table <= g.table_span());
            assert(!hits(s.fixed, q * 512, q * 512 + 4 * g.per_table)) by {
                if hits(s.fixed, q * 512, q * 512 + 4 * g.per_table) {
                    let b = choose|b: int|
                        q * 512 <= b < q * 512 + 4 * g.per_table && #[trigger] s.fixed.contains(b);
                    assert(hits(s.fixed, q * 512, q * 512 + g.table_span()));
                }
            }
            assert(protects(h, n, s.fixed, named[i]));
            assert(protects(h, n, s.fixed, named[k]));
            assert(apart(
                (t * 512, t * 512 + 4 * g.per_table),
                (q * 512, q * 512 + 4 * g.per_table),
            ));
            lemma_apart_in_sectors(t as int, q as int, 4 * g.per_table, 4 * g.per_table);
        }
    }
}

/// Reading a sound reader gives the disk, and only a device that fails
/// reads it holds the bytes of can make that fail.
pub proof fn law_reading_gives_the_disk(s: State, offset: int, len: int)
    requires
        s.sound(),
        0 <= offset,
        0 <= len,
        offset + len <= s.geometry().virtual_size,
        offset + len <= u64::MAX,
    ensures
        s.read(offset, len) == Ok::<Seq<u8>, Error>(s.disk().subrange(offset, offset + len)),
        s.reliable ==> s.served_for(offset, offset + len),
{
    if len == 0 {
        assert(s.disk().subrange(offset, offset + len) =~= Seq::<u8>::empty());
    } else {
        lemma_range(s, offset, offset + len);
    }
    assert forall|u: int| offset <= u < offset + len implies #[trigger] s.chunk_held(
        u,
        offset + len,
    ) by {
        lemma_chunk(s, u, offset + len);
    }
}

/// One grain's part of a sound reader's disk.
proof fn lemma_chunk(s: State, v: int, end: int)
    requires
        s.sound(),
        0 <= v < end,
        end <= s.geometry().virtual_size,
    ensures
        0 < s.chunk_len(v, end) <= end - v,
        s.chunk(v, end) == Ok::<Seq<u8>, Error>(
            s.disk().subrange(v, v + s.chunk_len(v, end)),
        ),
        s.chunk_held(v, end),
{
    let g = s.geometry();
    let c = s.contents;
    let n = s.chunk_len(v, end);
    let gi = v / g.grain_bytes;
    let k = v % g.grain_bytes;
    assert(g.wf() && !s.header.stream()) by {
        reveal(State::sound);
        reveal(healthy);
    }
    lemma_byte_in_grain(g, v);
    lemma_grain_index(g, gi);
    let i = gi / g.per_table;
    if table_sector(g, c, i) != 0 {
        lemma_table_loads(s, i);
    }
    assert(s.entry(gi) == Ok::<u32, Error>(grain_entry(g, c, i, gi % g.per_table)));
    let part = s.disk().subrange(v, v + n);
    assert forall|x: int| 0 <= x < n implies #[trigger] part[x] == (match grain_state(g, c, gi) {
        GrainState::At(t) => c[t * 512 + k + x],
        _ => 0,
    }) by {
        crate::image::lemma_offset_of(g, gi, k + x);
    }
    match grain_state(g, c, gi) {
        GrainState::At(t) => {
            lemma_grain_reachable(s, gi, k, n);
            assert(t * 512 + k + n <= c.len()) by {
                reveal(State::sound);
                reveal(healthy);
                assert(slot_range(g, c, Slot::Grain(gi)) is Some);
            }
            assert(bytes_at(c, t * 512 + k, n) =~= part);
        },
        _ => {
            assert(zeros(n) =~= part);
        },
    }
}

proof fn lemma_range(s: State, v: int, end: int)
    requires
        s.sound(),
        0 <= v <= end,
        end <= s.geometry().virtual_size,
    ensures
        s.range(v, end) == Ok::<Seq<u8>, Error>(s.disk().subrange(v, end)),
    decreases end - v,
{
    if v == end {
        assert(s.disk().subrange(v, end) =~= Seq::<u8>::empty());
    } else {
        lemma_chunk(s, v, end);
        let n = s.chunk_len(v, end);
        lemma_range(s, v + n, end);
        assert(s.disk().subrange(v, v + n) + s.disk().subrange(v + n, end)
            =~= s.disk().subrange(v, end));
    }
}

/// After a write, reading where it was gives what was written, and reading
/// anywhere else gives what it gave before.
pub proof fn law_read_after_write(s: State, n: State, offset: int, data: Seq<u8>)
    requires
        s.sound(),
        n.sound(),
        n.geometry() == s.geometry(),
        s.geometry().virtual_size <= u64::MAX,
        0 <= offset,
        offset + data.len() <= s.geometry().virtual_size,
        n.disk() == overlaid(s.disk(), offset, data),
    ensures
        n.read(offset, data.len() as int) == Ok::<Seq<u8>, Error>(data),
        forall|v: int, len: int|
            0 <= v && 0 <= len && v + len <= s.geometry().virtual_size && apart(
                (v, v + len),
                (offset, offset + data.len()),
            ) ==> #[trigger] n.read(v, len) == s.read(v, len),
{
    law_reading_gives_the_disk(n, offset, data.len() as int);
    assert(n.disk().subrange(offset, offset + data.len()) =~= data);
    assert forall|v: int, len: int|
        0 <= v && 0 <= len && v + len <= s.geometry().virtual_size && apart(
            (v, v + len),
            (offset, offset + data.len()),
        ) implies #[trigger] n.read(v, len) == s.read(v, len) by {
        law_reading_gives_the_disk(s, v, len);
        law_reading_gives_the_disk(n, v, len);
        assert(n.disk().subrange(v, v + len) =~= s.disk().subrange(v, v + len));
    }
}

/// A range that no grain backs reads as zeros, on any image.
pub proof fn law_unbacked_reads_as_zeros(s: State, v: int, end: int)
    requires
        0 <= v <= end,
        s.header.grain_size > 0,
        forall|u: int|
            v <= u < end ==> (#[trigger] s.entry(u / s.geometry().grain_bytes)) is Ok
                && s.geometry().meaning(s.entry(u / s.geometry().grain_bytes)->Ok_0) !is At,
    ensures
        s.range(v, end) == Ok::<Seq<u8>, Error>(zeros(end - v)),
    decreases end - v,
{
    if v == end {
        assert(zeros(end - v) =~= Seq::<u8>::empty());
    } else {
        let gb = s.geometry().grain_bytes;
        vstd::arithmetic::div_mod::lemma_mod_bound(v, gb);
        let n = s.chunk_len(v, end);
        assert(s.entry(v / gb) is Ok);
        law_unbacked_reads_as_zeros(s, v + n, end);
        assert(zeros(n) + zeros(end - v - n) =~= zeros(end - v));
    }
}

/// A grain pointer that is followed leads to bytes inside the file that are
/// none of the image's metadata, on any image.
pub proof fn law_no_grain_reaches_metadata(s: State, sector: u32, in_grain: int, len: int, b: int)
    requires
        s.host_offset(sector, in_grain, len) is Ok,
        ({
            let off = s.host_offset(sector, in_grain, len)->Ok_0;
            off <= b < off + len
        }),
    ensures
        b < s.extent(),
        !s.fixed.contains(b),
        !s.tables.contains(b),
        s.floor <= sector * 512,
{
    let off = s.host_offset(sector, in_grain, len)->Ok_0;
    if s.fixed.contains(b) {
        assert(hits(s.fixed, off, off + len));
    }
    if s.tables.contains(b) {
        assert(hits(s.tables, off, off + len));
    }
}

/// The first states of a harmless window make a harmless window.
proof fn lemma_window_prefix(g: Geometry, w: Seq<Seq<u8>>, k: int)
    requires
        window_ok(g, w),
        0 <= k < w.len(),
    ensures
        window_ok(g, w.take(k + 1)),
{
    let p = w.take(k + 1);
    assert forall|j: int| 0 <= j < p.len() implies healthy(g, #[trigger] p[j], p[j].len() as int)
        && p[0].len() <= p[j].len() by {
        assert(p[j] == w[j]);
    }
    if p.len() >= 2 {
        assert(p[0] == w[0] && p[1] == w[1]);
        assert forall|j: int| 1 <= j < p.len() implies crate::image::same_reading(
            g,
            p[1],
            #[trigger] p[j],
        ) by {
            assert(p[j] == w[j]);
        }
    }
}

/// A crash at any point of a write leaves, in each byte of the disk, what
/// was there before the write, what the write put there, or what was there
/// in a state before the write that no flush has followed.
pub proof fn law_crash_during_a_write(
    s: State,
    n: State,
    target: Seq<u8>,
    e: int,
    k: int,
    x: Seq<u8>,
    v: int,
) -> (j: int)
    requires
        s.sound(),
        n.sound(),
        s.modified_to(&n, target),
        is_state(n.journal, e, k),
        crash_image(n.journal[e].take(k + 1), x),
        0 <= v < s.geometry().virtual_size,
    ensures
        ({
            let b = disk_byte(s.geometry(), x, v);
            ||| b == s.disk()[v]
            ||| b == target[v]
            ||| is_state(s.journal, e, j) && b == disk_byte(s.geometry(), s.journal[e][j], v)
        }),
{
    let g = s.geometry();
    assert(n.geometry() == g);
    assert(window_ok(g, n.journal[e])) by {
        reveal(State::sound);
    }
    lemma_window_prefix(g, n.journal[e], k);
    let w = n.journal[e].take(k + 1);
    let j = law_crash_reads_no_wrong_data(g, w, x, v);
    assert(w[j] == n.journal[e][j]);
    assert(is_state(n.journal, e, j));
    if is_state(s.journal, e, j) {
        assert(n.journal[e][j] == s.journal[e][j]);
    } else {
        let d = disk(g, n.journal[e][j]);
        assert(pointwise(d, s.disk(), target));
        assert(d[v] == s.disk()[v] || d[v] == target[v]);
    }
    j
}

/// A crash with nothing unflushed leaves the disk as it is.
pub proof fn law_flushed_writes_survive_a_crash(s: State, x: Seq<u8>)
    requires
        s.sound(),
        s.settled(),
        crash_image(s.journal.last(), x),
    ensures
        disk(s.geometry(), x) == s.disk(),
        forall|b: int| 0 <= b < s.contents.len() ==> #[trigger] x[b] == s.contents[b],
{
    let g = s.geometry();
    let w = s.journal.last();
    assert(w =~= seq![s.contents] && window_ok(g, w)) by {
        reveal(State::sound);
    }
    assert forall|v: int| 0 <= v < g.virtual_size implies disk(g, x)[v] == s.disk()[v] by {
        let j = law_crash_reads_no_wrong_data(g, w, x, v);
        assert(j == 0);
    }
    assert(disk(g, x) =~= s.disk());
    assert forall|b: int| 0 <= b < s.contents.len() implies #[trigger] x[b] == s.contents[b] by {
        assert(sector_survives(w, x, b / 512));
        let j = choose|j: int|
            0 <= j < w.len() && #[trigger] crate::crash::same_sector(x, w[j], w[0].len(), b / 512);
        assert(crate::crash::same_sector(x, w[0], w[0].len(), b / 512));
    }
}

/// A flush keeps the disk, leaves nothing unflushed, and changes no byte of
/// the image but the mark it takes down.
pub proof fn law_flush_keeps_the_disk(s: State)
    requires
        s.sound(),
    ensures
        s.flushed().sound(),
        s.flushed().settled(),
        s.flushed().disk() == s.disk(),
        s.twinned() ==> s.flushed().twinned(),
        !s.flushed().unclean_marked,
        s.unclean_marked ==> s.flushed().contents[72] == 0,
        s.flushed().contents.len() == s.contents.len(),
        forall|b: int|
            0 <= b < s.contents.len() && !(b == 72 && s.unclean_marked)
                ==> #[trigger] s.flushed().contents[b] == s.contents[b],
{
    lemma_synced_notes(s);
    if s.unclean_marked {
        let m = s.synced().wrote(72, seq![0u8]).synced();
        lemma_mark_step(s.synced(), m, s.flushed(), 0u8);
    }
}

/// A write leaves the image marked as not shut down cleanly.
pub proof fn law_write_leaves_the_mark(s: State, n: State, target: Seq<u8>)
    requires
        s.modified_to(&n, target),
        s.unclean_marked ==> s.contents[72] == 1,
    ensures
        n.unclean_marked,
        n.contents[72] == 1,
{
}

/// The `uncleanShutdown` byte is up from a write until the next flush, and
/// down after it, whatever state the image is in.
pub proof fn law_mark_stands_until_a_flush(s: State, n: State)
    requires
        s.unclean_marked ==> s.contents[72] == 1,
        s.text_marked(&n),
        n.unclean_marked,
        72 < n.contents.len(),
    ensures
        n.contents[72] == 1,
        n.flushed().contents[72] == 0,
        !n.flushed().unclean_marked,
        n.flushed().contents == n.contents.update(72, 0u8),
{
    assert(n.flushed().contents =~= n.contents.update(72, 0u8));
}

/// Before any data moves, the marks of a write are on the device and
/// durable: in every state since the write began in which the disk differs,
/// the `uncleanShutdown` byte is up and the descriptor carries the
/// identifier that the write leaves, and both were so at the flush before
/// that state.
pub proof fn law_marks_come_before_data(s: State, n: State, target: Seq<u8>, e: int, k: int)
    requires
        s.sound(),
        s.marks_settled(),
        s.modified_to(&n, target),
        is_state(n.journal, e, k),
        !is_state(s.journal, e, k),
        disk(s.geometry(), n.journal[e][k]) != s.disk(),
    ensures
        n.journal[e][k][72] == 1,
        n.journal[e][0][72] == 1,
        ({
            let g = s.geometry();
            &&& bytes_at(n.journal[e][k], g.desc_at, g.desc_len) == n.descriptor_bytes()
            &&& bytes_at(n.journal[e][0], g.desc_at, g.desc_len) == n.descriptor_bytes()
        }),
{
    reveal(same_text);
    let g = s.geometry();
    assert(n.geometry() == g);
    let c = n.journal[e][k];
    let d = n.journal[e][0];
    assert(same_text(g, n.contents, c) && same_text(g, n.contents, d));
    assert(n.contents[72] == c[72] && n.contents[72] == d[72]);
    assert forall|x: int| g.desc_at <= x < g.desc_at + g.desc_len implies c[x] == n.contents[x]
        && d[x] == n.contents[x] by {
        assert(n.contents[x] == c[x]);
        assert(n.contents[x] == d[x]);
    }
    assert(bytes_at(c, g.desc_at, g.desc_len) =~= n.descriptor_bytes());
    assert(bytes_at(d, g.desc_at, g.desc_len) =~= n.descriptor_bytes());
}

/// An image that opens has whole numbers of grains and tables to divide
/// by, and no compressed grains.
pub proof fn law_opened_images_are_plain(
    c: Seq<u8>,
    n: int,
    writable: bool,
    served: bool,
    reliable: bool,
)
    requires
        opened(c, n, writable, served, reliable) is Ok,
    ensures
        ({
            let s = opened(c, n, writable, served, reliable)->Ok_0;
            &&& !s.header.stream()
            &&& s.header.grain_size > 0
            &&& s.header.num_gtes_per_gt > 0
            &&& s.header.capacity * 512 <= u64::MAX
            &&& s.writable == writable
        }),
{
}

/// When an image that opens read-only opens read-write too: its identifier
/// can be changed, a redundant directory that it declares lies inside the
/// file, and no two tables that its directories name share a byte, of those
/// that lie inside the file and clear of the fixed regions. It is refused
/// as corrupt otherwise.
pub proof fn law_when_a_read_write_open_succeeds(c: Seq<u8>, n: int, reliable: bool)
    requires
        0 <= n <= u64::MAX,
        opened(c, n, false, true, reliable) is Ok,
    ensures
        ({
            let s = opened(c, n, false, true, reliable)->Ok_0;
            let h = s.header;
            let at = h.descriptor_offset * 512;
            let region = c.subrange(at, at + h.descriptor_size * 512);
            let fixed = fixed_bytes(h, n, h.redundant());
            let w = opened(c, n, true, true, reliable);
            &&& w is Ok <==> {
                &&& content_id_of(region) is Ok
                &&& h.redundant() ==> h.rgd_offset * 512 + 4 * table_count(h) <= n
                &&& !tables_clash(h, n, fixed, named_tables(c, h, h.redundant()))
            }
            &&& w is Ok ==> w == Ok::<State, Error>(State { writable: true, ..s })
            &&& w matches Err(e) ==> e is Corrupt
        }),
{
    let s = opened(c, n, false, true, reliable)->Ok_0;
    let h = s.header;
    law_opened_images_are_plain(c, n, false, true, reliable);
    assert(header_stage(c, n, false) == Ok::<SparseHeader, Error>(h));
    assert(header_stage(c, n, true) == Ok::<SparseHeader, Error>(h));
    let d = descriptor_stage(c, n, false, h)->Ok_0;
    let at = h.descriptor_offset * 512;
    let region = c.subrange(at, at + h.descriptor_size * 512);
    assert(descriptor_stage(c, n, true, h) == (match content_id_of(region) {
        Ok(_) => Ok::<DescriptorView, Error>(d),
        Err(m) => Err::<DescriptorView, Error>(Error::Corrupt(m)),
    }));
    lemma_div_up(h.capacity as int, h.grain_size as int);
}

/// The first write of a session gives the image another identifier, never
/// zero and never the one that stands for "no parent", and later writes
/// keep it.
pub proof fn law_identifier_changes_once(s: State, n: State, target: Seq<u8>)
    requires
        s.modified_to(&n, target),
        s.geometry().desc_len <= usize::MAX,
    ensures
        s.content_id_bumped ==> n.descriptor_bytes() == s.descriptor_bytes(),
        !s.content_id_bumped ==> match content_id_of(s.descriptor_bytes()) {
            Ok(Some(f)) => {
                let old_id = s.descriptor_bytes().subrange(f.start as int, f.start + f.len);
                &&& content_id_of(n.descriptor_bytes()) matches Ok(Some(h))
                &&& ({
                    let id = n.descriptor_bytes().subrange(h.start as int, h.start + h.len);
                    &&& h.start == f.start
                    &&& h.len == 8
                    &&& hex_value(id) != hex_value(old_id)
                    &&& hex_value(id) != 0
                    &&& hex_value(id) != 0xFFFF_FFFF
                })
            },
            _ => n.descriptor_bytes() == s.descriptor_bytes(),
        },
{
    let region = s.descriptor_bytes();
    if !s.content_id_bumped {
        if let Ok(Some(f)) = content_id_of(region) {
            let next = choose|next: u32| #[trigger]
                fresh_id(region, f, next) && n.descriptor_bytes()
                    == crate::content_id::with_content_id(region, f, next);
            law_rewritten_identifier_reads_back(region, next);
        }
    }
}

/// A redundant copy that this session has merged holds an entry for every
/// grain its table holds one for: the primary is never ahead of it.
pub proof fn law_merged_copy_is_not_behind(s: State, i: int, j: int)
    requires
        s.sound(),
        s.merged.contains(i),
        0 <= j < s.geometry().per_table,
        grain_entry(s.geometry(), s.contents, i, j) != 0,
    ensures
        copy_entry(s.geometry(), s.contents, i, j) != 0,
{
    reveal(State::sound);
    assert(mirrored(s.geometry(), s.contents, i));
}

} // verus!
