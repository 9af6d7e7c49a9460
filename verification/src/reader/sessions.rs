//! Orderly images from one session to the next: how opening finds them, and
//! that what was written to one is there when it is opened again.

use super::beside_text::lemma_grounded_beside_text;
use super::bytewise::{
    lemma_byte_beside_text, lemma_marked_byte, lemma_placed_byte, lemma_reads_as,
    lemma_tidy_beside_text,
};
use super::effect::lemma_within_clear;
use super::laws::{
    law_opening_a_healthy_image_is_sound, lemma_opened_grounded, lemma_opened_parts,
    lemma_table_in_file, lemma_whole_sectors_clear,
};
use super::open::{
    descriptor_stage, directory_refusal, fits, fixed_bytes, in_tables, named_tables, opened,
    protects, redundant_refusal, table_bytes, tables_clash,
};
use super::orderly::{
    law_a_sound_protected_image_is_orderly, law_flush_keeps_an_image_orderly, law_read_after_write_on_an_orderly_image,
    law_reading_a_readable_image,
};
use super::reopen::{lemma_flushed_record, lemma_record_kept};
use super::state::{div_up, hits, lemma_div_up, table_count, State};
use crate::bytes::overlaid;
use crate::descriptor::DescriptorView;
use crate::error::Error;
use crate::header::SparseHeader;
use crate::image::{
    apart, copy_sector, healthy, lemma_apart_in_sectors, slot_range, table_sector, GrainState, Slot,
};
use vstd::prelude::*;

verus! {

impl State {
    /// Whether the regions whose place the header states lie in the file,
    /// and are the fixed ones.
    pub open spec fn regions_in_place(&self) -> bool {
        let h = self.header;
        let n = self.contents.len() as int;
        let dir = div_up(4 * table_count(h), 512);
        &&& fits(h.descriptor_offset as int, h.descriptor_size as int, n)
        &&& fits(h.gd_offset as int, dir, n)
        &&& self.redundant ==> fits(h.rgd_offset as int, dir, n)
        &&& self.fixed == fixed_bytes(h, n, self.redundant)
    }
}

/// Where the sector of table or copy `x` stands among those the directories
/// name.
spec fn index_named(count: int, x: Slot) -> int {
    match x {
        Slot::Table(i) => i,
        Slot::Copy(i) => count + i,
        Slot::Grain(gi) => gi,
    }
}

/// A live table is one of those to protect.
proof fn lemma_live_is_protected(s: State, n: int, x: Slot)
    requires
        s.live(x),
        s.geometry().per_table > 0,
        (slot_range(s.geometry(), s.contents, x)->0).0 + 4 * s.geometry().per_table <= n,
    ensures
        ({
            let named = named_tables(s.contents, s.header, s.redundant);
            let k = index_named(table_count(s.header), x);
            &&& 0 <= k < named.len()
            &&& protects(s.header, n, s.fixed, named[k])
            &&& slot_range(s.geometry(), s.contents, x) == Some(
                (named[k] * 512, named[k] * 512 + s.geometry().table_span()),
            )
        }),
{
    let g = s.geometry();
    let named = named_tables(s.contents, s.header, s.redundant);
    let k = index_named(table_count(s.header), x);
    let r = slot_range(g, s.contents, x)->0;
    assert(4 * g.per_table <= g.table_span());
    assert(named[k] * 512 == r.0);
    assert(!hits(s.fixed, r.0, r.0 + 4 * g.per_table)) by {
        if hits(s.fixed, r.0, r.0 + 4 * g.per_table) {
            let b = choose|b: int|
                r.0 <= b < r.0 + 4 * g.per_table && #[trigger] s.fixed.contains(b);
            assert(hits(s.fixed, r.0, r.1));
        }
    }
}

/// Tables none of which clash are spread.
proof fn lemma_spread(s: State, n: int)
    requires
        s.geometry().per_table > 0,
        forall|x: Slot| #[trigger]
            s.live(x) ==> (slot_range(s.geometry(), s.contents, x)->0).0 + 4
                * s.geometry().per_table <= n,
        s.tables == table_bytes(
            s.header,
            n,
            s.fixed,
            named_tables(s.contents, s.header, s.redundant),
        ),
        !tables_clash(
            s.header,
            n,
            s.fixed,
            named_tables(s.contents, s.header, s.redundant),
        ),
    ensures
        s.spread(),
{
    let g = s.geometry();
    let h = s.header;
    let c = s.contents;
    let named = named_tables(c, h, s.redundant);
    let count = table_count(h);
    assert forall|x: Slot, y: Slot|
        x != y && #[trigger] s.live(x) && #[trigger] s.live(y) implies apart(
        slot_range(g, c, x)->0,
        slot_range(g, c, y)->0,
    ) by {
        lemma_live_is_protected(s, n, x);
        lemma_live_is_protected(s, n, y);
        let j = index_named(count, x);
        let k = index_named(count, y);
        assert(j != k);
        assert(apart(
            (named[j] * 512, named[j] * 512 + 4 * g.per_table),
            (named[k] * 512, named[k] * 512 + 4 * g.per_table),
        ));
        lemma_apart_in_sectors(
            named[j] as int,
            named[k] as int,
            4 * g.per_table,
            4 * g.per_table,
        );
    }
    assert forall|x: Slot, b: int| #[trigger]
        s.live(x) && (slot_range(g, c, x)->0).0 <= b < (slot_range(g, c, x)->0).0 + 4
            * g.per_table implies #[trigger] s.tables.contains(b) by {
        lemma_live_is_protected(s, n, x);
        assert(in_tables(h, n, s.fixed, named, b));
    }
}

/// An image of whole sectors that is opened read-write has its tables
/// spread, and the regions whose place its header states in place, unless
/// those overlap.
pub proof fn law_opening_spreads_the_tables(c: Seq<u8>, n: int, served: bool, reliable: bool)
    requires
        0 <= n <= u64::MAX,
        n % 512 == 0,
        n <= c.len(),
        opened(c, n, true, served, reliable) is Ok,
        (opened(c, n, true, served, reliable)->Ok_0).geometry().wf(),
    ensures
        (opened(c, n, true, served, reliable)->Ok_0).spread(),
        n == c.len() ==> (opened(c, n, true, served, reliable)->Ok_0).regions_in_place(),
{
    lemma_opened_parts(c, n, served, reliable);
    let r = opened(c, n, true, served, reliable);
    let s = r->Ok_0;
    lemma_spread_opened(s, n);
}

/// What an opened image's parts come to.
proof fn lemma_spread_opened(s: State, n: int)
    requires
        0 <= n <= u64::MAX,
        n % 512 == 0,
        s.geometry().wf(),
        s.cursor == div_up(n, 512),
        s.fixed == fixed_bytes(s.header, n, s.redundant),
        s.tables == table_bytes(
            s.header,
            n,
            s.fixed,
            named_tables(s.contents, s.header, s.redundant),
        ),
        !tables_clash(
            s.header,
            n,
            s.fixed,
            named_tables(s.contents, s.header, s.redundant),
        ),
        directory_refusal(n, s.header) is None,
        s.redundant ==> redundant_refusal(n, s.header) is None,
        s.geometry().desc_at + s.geometry().desc_len <= n,
    ensures
        s.spread(),
        n == s.contents.len() ==> s.regions_in_place(),
{
    assert(s.extent() == n);
    assert(4 * s.geometry().per_table <= s.geometry().table_span());
    lemma_spread(s, n);
    assert(div_up(4 * table_count(s.header), 512) * 512 == s.geometry().dir_span());
}

impl State {
    /// Whether neither table `i` nor its copy runs past the end of the file,
    /// where it is not refused.
    pub open spec fn table_in_file(&self, i: int) -> bool {
        let g = self.geometry();
        let n = self.contents.len();
        let t = table_sector(g, self.contents, i);
        let q = copy_sector(g, self.contents, i);
        &&& self.table_refusal(t) is None ==> t * 512 + g.table_span() <= n
        &&& self.copy_refusal(q) is None ==> q * 512 + g.table_span() <= n
    }
}

/// A file of any length that is opened read-write has its metadata
/// protected and its tables spread, if the regions whose place its header
/// states lie apart and in its whole sectors, and no table that is not
/// refused runs past its end.
pub proof fn law_opening_protects_a_file_of_any_length(c: Seq<u8>, served: bool, reliable: bool)
    requires
        c.len() <= u64::MAX,
        opened(c, c.len() as int, true, served, reliable) is Ok,
        ({
            let n = c.len() as int;
            let s = opened(c, n, true, served, reliable)->Ok_0;
            let g = s.geometry();
            let dir = div_up(4 * table_count(s.header), 512);
            &&& g.wf()
            &&& fits(s.header.gd_offset as int, dir, n)
            &&& s.redundant ==> fits(s.header.rgd_offset as int, dir, n)
            &&& forall|i: int| 0 <= i < g.tables ==> #[trigger] s.table_in_file(i)
        }),
    ensures
        ({
            let s = opened(c, c.len() as int, true, served, reliable)->Ok_0;
            &&& s.guarded()
            &&& s.describable()
            &&& s.spread()
            &&& s.regions_in_place()
            &&& s.tail_held()
        }),
{
    let r = opened(c, c.len() as int, true, served, reliable);
    lemma_opened_parts(c, c.len() as int, served, reliable);
    lemma_opened_any_length(r->Ok_0);
}

proof fn lemma_opened_any_length(s: State)
    requires
        s.as_opened(),
        forall|i: int| 0 <= i < s.geometry().tables ==> #[trigger] s.table_in_file(i),
    ensures
        s.guarded(),
        s.spread(),
        s.regions_in_place(),
        s.tail_held(),
{
    let g = s.geometry();
    let n = s.contents.len() as int;
    lemma_opened_grounded(s);
    assert forall|b: int| #[trigger] s.tables.contains(b) implies b < n by {
        assert(in_tables(
            s.header,
            n,
            s.fixed,
            named_tables(s.contents, s.header, s.redundant),
            b,
        ));
    }
    assert forall|i: int| 0 <= i < g.tables implies #[trigger] s.table_guarded(i) by {
        assert(s.table_in_file(i));
        lemma_table_in_file(s, i);
    }
    assert forall|i: int| 0 <= i < g.tables implies #[trigger] s.copy_guarded(i) by {
        assert(s.table_in_file(i));
        lemma_table_in_file(s, i);
    }
    assert forall|x: Slot| #[trigger] s.live(x) implies (slot_range(g, s.contents, x)->0).0 + 4
        * g.per_table <= n by {
        assert(4 * g.per_table <= g.table_span());
        match x {
            Slot::Table(i) => {
                assert(s.table_in_file(i));
                let t = table_sector(g, s.contents, i) * 512;
                lemma_within_clear(s.fixed, t, t + g.table_span(), t, t + 4 * g.per_table);
            },
            Slot::Copy(i) => assert(s.table_in_file(i)),
            Slot::Grain(_) => {},
        }
    }
    lemma_spread(s, n);
}

/// A healthy image that is opened read-write is orderly, if its directories
/// lie in its whole sectors.
pub proof fn law_opening_a_healthy_image_is_orderly(c: Seq<u8>, served: bool, reliable: bool)
    requires
        c.len() <= u64::MAX,
        opened(c, c.len() as int, true, served, reliable) is Ok,
        ({
            let n = c.len() as int;
            let s = opened(c, n, true, served, reliable)->Ok_0;
            let dir = div_up(4 * table_count(s.header), 512);
            &&& healthy(s.geometry(), c, s.extent())
            &&& fits(s.header.gd_offset as int, dir, n)
            &&& s.redundant ==> fits(s.header.rgd_offset as int, dir, n)
        }),
    ensures
        (opened(c, c.len() as int, true, served, reliable)->Ok_0).orderly(),
        (opened(c, c.len() as int, true, served, reliable)->Ok_0).regions_in_place(),
        (opened(c, c.len() as int, true, served, reliable)->Ok_0).tail_held(),
{
    let n = c.len() as int;
    let r = opened(c, n, true, served, reliable);
    let s = r->Ok_0;
    law_opening_a_healthy_image_is_sound(c, n, true, served, reliable);
    lemma_opened_parts(c, n, served, reliable);
    assert(s.geometry().wf()) by {
        reveal(healthy);
    }
    assert forall|i: int| 0 <= i < s.geometry().tables implies #[trigger] s.table_in_file(i) by {
        lemma_healthy_table_in_file(s, i);
    }
    law_opening_protects_a_file_of_any_length(c, served, reliable);
    law_a_sound_protected_image_is_orderly(s);
}

/// A table of a healthy image lies in the file.
proof fn lemma_healthy_table_in_file(s: State, i: int)
    requires
        healthy(s.geometry(), s.contents, s.extent()),
        0 <= i < s.geometry().tables,
        s.as_opened(),
    ensures
        s.table_in_file(i),
{
    reveal(healthy);
    let g = s.geometry();
    lemma_opened_grounded(s);
    assert(s.fixed.contains(0)) by {
        assert(g.fixed(0));
    }
    assert(0 < 4 * g.per_table <= g.table_span());
    assert(hits(s.fixed, 0, 4 * g.per_table));
    assert(hits(s.fixed, 0, g.table_span()));
    assert(slot_range(g, s.contents, Slot::Table(i)) is Some || table_sector(g, s.contents, i)
        == 0);
    assert(slot_range(g, s.contents, Slot::Copy(i)) is Some || copy_sector(g, s.contents, i) == 0);
}

/// The table or copy that the `k`th of the named sectors is the place of.
spec fn slot_at(count: int, k: int) -> Slot {
    if k < count {
        Slot::Table(k)
    } else {
        Slot::Copy(k - count)
    }
}

/// A table to protect is live in a tidy image.
proof fn lemma_protected_is_live(s: State, n: int, k: int)
    requires
        s.tidy(),
        s.fixed == fixed_bytes(s.header, n, s.redundant),
        0 <= k < named_tables(s.contents, s.header, s.redundant).len(),
        protects(
            s.header,
            n,
            s.fixed,
            named_tables(s.contents, s.header, s.redundant)[k],
        ),
    ensures
        ({
            let t = named_tables(s.contents, s.header, s.redundant)[k];
            let x = slot_at(table_count(s.header), k);
            &&& s.live(x)
            &&& slot_range(s.geometry(), s.contents, x) == Some(
                (t * 512, t * 512 + s.geometry().table_span()),
            )
        }),
{
    let g = s.geometry();
    let t = named_tables(s.contents, s.header, s.redundant)[k];
    let count = table_count(s.header);
    let i = if k < count {
        k
    } else {
        k - count
    };
    assert(s.entry_rooted(i));
    lemma_whole_sectors_clear(s, n, t, 4 * g.per_table);
}

/// The tables of a tidy image do not clash.
proof fn lemma_tidy_no_clash(s: State, n: int)
    requires
        s.tidy(),
        s.fixed == fixed_bytes(s.header, n, s.redundant),
    ensures
        !tables_clash(
            s.header,
            n,
            s.fixed,
            named_tables(s.contents, s.header, s.redundant),
        ),
{
    let g = s.geometry();
    let named = named_tables(s.contents, s.header, s.redundant);
    let count = table_count(s.header);
    assert forall|j: int, k: int|
        0 <= j < k < named.len() && protects(s.header, n, s.fixed, #[trigger] named[j]) && protects(
            s.header,
            n,
            s.fixed,
            #[trigger] named[k],
        ) implies apart(
        (named[j] * 512, named[j] * 512 + 4 * g.per_table),
        (named[k] * 512, named[k] * 512 + 4 * g.per_table),
    ) by {
        lemma_protected_is_live(s, n, j);
        lemma_protected_is_live(s, n, k);
        assert(slot_at(count, j) != slot_at(count, k));
        assert(4 * g.per_table <= g.table_span());
    }
}

/// What protects the tables of a tidy image in a new session protects
/// nothing more.
proof fn lemma_tables_again(s: State, n: int, b: int)
    requires
        s.tidy(),
        s.fixed == fixed_bytes(s.header, n, s.redundant),
        table_bytes(
            s.header,
            n,
            s.fixed,
            named_tables(s.contents, s.header, s.redundant),
        ).contains(b),
    ensures
        s.tables.contains(b),
{
    let named = named_tables(s.contents, s.header, s.redundant);
    assert(in_tables(s.header, n, s.fixed, named, b));
    let k = choose|k: int|
        0 <= k < named.len() && protects(s.header, n, s.fixed, #[trigger] named[k]) && named[k]
            * 512 <= b < named[k] * 512 + 4 * s.header.num_gtes_per_gt;
    lemma_protected_is_live(s, n, k);
}

/// A reader of the same file whose protection is no wider reads what this
/// one reads.
proof fn lemma_reads_again(s: State, t: State)
    requires
        s.readable(),
        t.contents == s.contents,
        t.geometry() == s.geometry(),
        !t.header.stream(),
        t.header.num_gtes_per_gt == s.header.num_gtes_per_gt,
        t.fixed == s.fixed,
        t.floor == s.floor,
        s.extent() <= t.extent(),
        forall|b: int| #[trigger] t.tables.contains(b) ==> s.tables.contains(b),
    ensures
        t.readable(),
        t.disk() == s.disk(),
{
    let g = s.geometry();
    assert forall|gi: int| g.has_grain(gi) implies #[trigger] t.grain_readable(gi) by {
        assert(s.grain_readable(gi));
        assert(t.entry(gi) == s.entry(gi));
        if let GrainState::At(e) = g.meaning(s.entry(gi)->Ok_0) {
            let lo = e * 512;
            let hi = lo + g.used(gi);
            if hits(t.tables, lo, hi) {
                let b = choose|b: int| lo <= b < hi && #[trigger] t.tables.contains(b);
                assert(hits(s.tables, lo, hi));
            }
        }
    }
}

/// Opening an image that is recorded in place gives what a state of
/// its own parts says.
proof fn lemma_reopened_parts(s: State, writable: bool, reliable: bool)
    requires
        !tables_clash(
            s.header,
            s.contents.len() as int,
            s.fixed,
            named_tables(s.contents, s.header, s.redundant),
        ),
        s.recorded_in_place(),
        s.regions_in_place(),
    ensures
        ({
            let n = s.contents.len() as int;
            &&& opened(s.contents, n, writable, true, reliable) matches Ok(t)
            &&& t.contents == s.contents
            &&& t.header == (SparseHeader { unclean_shutdown: s.contents[72], ..s.header })
            &&& t.redundant == s.redundant
            &&& t.cursor == div_up(n, 512)
            &&& t.reliable == reliable
            &&& t.fixed == s.fixed
            &&& t.floor == s.floor
            &&& t.tables == table_bytes(
                s.header,
                n,
                s.fixed,
                named_tables(s.contents, s.header, s.redundant),
            )
            &&& s.readable_descriptor() == Ok::<DescriptorView, Error>(t.descriptor)
        }),
{
    let c = s.contents;
    let n = c.len() as int;
    let h = SparseHeader { unclean_shutdown: c[72], ..s.header };
    assert(h.stream() == s.header.stream() && h.redundant() == s.header.redundant()
        && h.zeroed_marker() == s.header.zeroed_marker());
    assert(descriptor_stage(c, n, writable, h) == s.readable_descriptor());
    assert(fixed_bytes(h, n, s.redundant) == s.fixed);
    let named = named_tables(c, h, s.redundant);
    assert(named == named_tables(c, s.header, s.redundant));
    assert(table_bytes(h, n, s.fixed, named) == table_bytes(s.header, n, s.fixed, named));
    assert(tables_clash(h, n, s.fixed, named) == tables_clash(s.header, n, s.fixed, named));
}

/// Opening a tidy image that is recorded in place, for reading or for
/// writing, succeeds, and every byte that could be read can be read again
/// and is what it was. Opened for writing it is tidy again.
pub proof fn law_reopening_a_tidy_image(s: State, writable: bool, reliable: bool)
    requires
        s.tidy(),
        s.recorded_in_place(),
        s.regions_in_place(),
        s.tail_held(),
    ensures
        ({
            let n = s.contents.len() as int;
            &&& opened(s.contents, n, writable, true, reliable) matches Ok(t)
            &&& !t.header.stream()
            &&& t.geometry() == s.geometry()
            &&& t.disk() == s.disk()
            &&& t.reliable == reliable
            &&& s.readable_descriptor() == Ok::<DescriptorView, Error>(t.descriptor)
            &&& forall|u: int| #[trigger] s.byte_reads(u) ==> t.byte_reads(u)
            &&& writable ==> t.tidy()
        }),
{
    let n = s.contents.len() as int;
    lemma_tidy_no_clash(s, n);
    lemma_reopened_parts(s, writable, reliable);
    let t = opened(s.contents, n, writable, true, reliable)->Ok_0;
    lemma_div_up(n, 512);
    assert(t.geometry() == s.geometry());
    assert(t.header.stream() == s.header.stream());
    assert forall|b: int| #[trigger] t.tables.contains(b) implies s.tables.contains(b) by {
        lemma_tables_again(s, n, b);
    }
    assert forall|u: int| #[trigger] s.byte_reads(u) implies t.byte_reads(u) by {
        lemma_byte_again(s, t, u);
    }
    if writable {
        lemma_opened_parts(s.contents, n, true, reliable);
        lemma_protected_again(s, t);
    }
}

/// A reader of the same file whose protection is no wider reads each byte
/// that this one reads.
proof fn lemma_byte_again(s: State, t: State, u: int)
    requires
        s.byte_reads(u),
        t.contents == s.contents,
        t.geometry() == s.geometry(),
        t.header.num_gtes_per_gt == s.header.num_gtes_per_gt,
        t.fixed == s.fixed,
        t.floor == s.floor,
        s.extent() <= t.extent(),
        forall|b: int| #[trigger] t.tables.contains(b) ==> s.tables.contains(b),
    ensures
        t.byte_reads(u),
{
    let g = s.geometry();
    let gi = u / g.grain_bytes;
    assert(t.entry(gi) == s.entry(gi));
    if let GrainState::At(e) = g.meaning(s.entry(gi)->Ok_0) {
        let h = e * 512 + u % g.grain_bytes;
        if hits(t.tables, h, h + 1) {
            assert(t.tables.contains(h));
            assert(hits(s.tables, h, h + 1));
        }
    }
}

/// What was written to a tidy image and flushed is there when the image is
/// opened again, for reading or for writing, and so is every byte that could
/// be read before and that the write left alone. The descriptor has to be
/// accepted still under its new identifier.
pub proof fn law_readable_bytes_survive_reopening(
    s: State,
    m: State,
    offset: int,
    data: Seq<u8>,
    at: int,
    len: int,
    writable: bool,
    reliable: bool,
)
    requires
        s.tidy(),
        s.recorded_in_place(),
        s.regions_in_place(),
        s.tail_held(),
        s.content_id_bumped || s.plain_identifier() || m.readable_descriptor() is Ok,
        0 <= offset,
        offset + data.len() <= s.geometry().virtual_size,
        forall|w: int| offset <= w < offset + data.len() ==> #[trigger] s.byte_reads(w),
        s.with_data(offset, data) matches Some((n, refusal)) && refusal is None && n.text_only(&m),
        s.text_marked(&m),
        m.contents.len() <= u64::MAX,
        0 <= at,
        0 < len,
        at + len <= s.geometry().virtual_size,
        forall|u: int| at <= u < at + len ==> #[trigger] s.byte_reads(u) && s.byte_apart(u),
        forall|u: int, w: int|
            at <= u < at + len && offset <= w < offset + data.len() && u
                / s.geometry().grain_bytes != w / s.geometry().grain_bytes ==> s.host_byte(u) is None
                || #[trigger] s.host_byte(w) != #[trigger] s.host_byte(u),
    ensures
        ({
            let c = m.flushed().contents;
            let target = overlaid(s.disk(), offset, data);
            &&& opened(c, c.len() as int, writable, true, reliable) matches Ok(t)
            &&& t.read(at, len) == Ok::<Seq<u8>, Error>(target.subrange(at, at + len))
            &&& reliable ==> t.served_for(at, at + len)
            &&& writable ==> t.tidy()
        }),
{
    let target = overlaid(s.disk(), offset, data);
    let n = (s.with_data(offset, data)->0).0;
    assert forall|u: int| at <= u < at + len implies #[trigger] m.byte_reads(u) && m.disk()[u]
        == target[u] by {
        assert(s.byte_reads(u));
        lemma_marked_byte(s, n, m, offset, data, u);
    }
    assert(s.byte_reads(at));
    lemma_marked_byte(s, n, m, offset, data, at);
    lemma_tidy_reopens(s, m, target, at, len, writable, reliable);
}

/// What was written in place and flushed is there when the image is opened
/// again, for reading or for writing, and so is every byte that could be
/// read before and that the write left alone, if the file kept its length.
/// As in the session that wrote it, what the write does not come to may be
/// in any state. The descriptor has to be accepted still under its new
/// identifier.
pub proof fn law_bytes_written_in_place_survive_reopening(
    s: State,
    m: State,
    offset: int,
    data: Seq<u8>,
    at: int,
    len: int,
    writable: bool,
    reliable: bool,
)
    requires
        s.as_opened(),
        s.recorded_in_place(),
        s.content_id_bumped || s.plain_identifier() || m.readable_descriptor() is Ok,
        0 <= offset,
        offset + data.len() <= s.geometry().virtual_size,
        forall|w: int| offset <= w < offset + data.len() ==> #[trigger] s.byte_placed(w),
        s.with_data(offset, data) matches Some((n, refusal)) && refusal is None && n.text_only(&m),
        s.text_marked(&m),
        m.contents.len() == s.contents.len(),
        0 <= at,
        0 < len,
        at + len <= s.geometry().virtual_size,
        forall|u: int|
            at <= u < at + len ==> #[trigger] s.byte_guarded(u) && (s.byte_reads(u) || offset <= u
                < offset + data.len()),
        forall|u: int, w: int|
            at <= u < at + len && offset <= w < offset + data.len() && u
                / s.geometry().grain_bytes != w / s.geometry().grain_bytes ==> s.host_byte(u) is None
                || #[trigger] s.host_byte(w) != #[trigger] s.host_byte(u),
    ensures
        ({
            let c = m.flushed().contents;
            let target = overlaid(s.disk(), offset, data);
            &&& opened(c, c.len() as int, writable, true, reliable) matches Ok(t)
            &&& t.read(at, len) == Ok::<Seq<u8>, Error>(target.subrange(at, at + len))
            &&& reliable ==> t.served_for(at, at + len)
        }),
{
    let target = overlaid(s.disk(), offset, data);
    let n = (s.with_data(offset, data)->0).0;
    lemma_opened_grounded(s);
    assert forall|u: int| at <= u < at + len implies #[trigger] m.byte_reads(u) && m.disk()[u]
        == target[u] by {
        assert(s.byte_guarded(u));
        lemma_placed_byte(s, n, m, offset, data, u);
    }
    assert(s.byte_guarded(at));
    lemma_placed_byte(s, n, m, offset, data, at);
    lemma_same_tables_reopen(s, m, target, at, len, writable, reliable);
}

/// An image whose directories and tables are those it was opened with opens
/// again once it is flushed.
proof fn lemma_same_tables_reopen(
    s: State,
    m: State,
    target: Seq<u8>,
    at: int,
    len: int,
    writable: bool,
    reliable: bool,
)
    requires
        s.as_opened(),
        s.recorded_in_place(),
        s.content_id_bumped || s.plain_identifier() || m.readable_descriptor() is Ok,
        m.grounded(),
        m.geometry() == s.geometry(),
        s.same_open(&m),
        s.text_marked(&m),
        m.cursor == s.cursor,
        m.tables == s.tables,
        s.keeps_directories(&m),
        m.contents.len() == s.contents.len(),
        0 <= at,
        0 < len,
        at + len <= s.geometry().virtual_size,
        target.len() == s.geometry().virtual_size,
        forall|u: int|
            at <= u < at + len ==> #[trigger] m.byte_reads(u) && m.disk()[u] == target[u],
    ensures
        ({
            let c = m.flushed().contents;
            &&& opened(c, c.len() as int, writable, true, reliable) matches Ok(t)
            &&& t.read(at, len) == Ok::<Seq<u8>, Error>(target.subrange(at, at + len))
            &&& reliable ==> t.served_for(at, at + len)
        }),
{
    let size = s.contents.len() as int;
    lemma_record_kept(s, m);
    lemma_flushed_record(m);
    let f = m.flushed();
    assert(m.text_only(&f)) by {
        assert forall|b: int| 0 <= b < m.contents.len() && !m.is_text(b) implies
            #[trigger] f.contents[b] == m.contents[b] by {}
    }
    lemma_grounded_beside_text(m, f);
    lemma_same_named(s, m);
    lemma_same_named(m, f);
    assert(f.regions_in_place()) by {
        assert(div_up(4 * table_count(s.header), 512) * 512 == s.geometry().dir_span());
    }
    lemma_reopened_parts(f, writable, reliable);
    let c = f.contents;
    let r = opened(c, c.len() as int, writable, true, reliable);
    let t = r->Ok_0;
    assert(t.geometry() == s.geometry());
    assert(t.header.stream() == s.header.stream());
    assert(t.tables == f.tables);
    assert(t.cursor == f.cursor);
    assert forall|u: int| at <= u < at + len implies #[trigger] t.byte_reads(u) && t.disk()[u]
        == target[u] by {
        assert(m.byte_reads(u));
        lemma_byte_beside_text(m, f, u);
        lemma_byte_again(f, t, u);
    }
    lemma_reads_as(t, target, at, len);
}

/// The same directories name the same tables.
proof fn lemma_same_named(s: State, m: State)
    requires
        s.keeps_directories(&m),
        m.header == s.header,
        m.redundant == s.redundant,
        s.geometry().wf(),
    ensures
        named_tables(m.contents, m.header, m.redundant) == named_tables(
            s.contents,
            s.header,
            s.redundant,
        ),
{
    let g = s.geometry();
    let a = named_tables(s.contents, s.header, s.redundant);
    let b = named_tables(m.contents, m.header, m.redundant);
    assert forall|k: int| 0 <= k < a.len() implies #[trigger] b[k] == a[k] by {
        if k < g.tables {
            assert(table_sector(g, m.contents, k) == table_sector(g, s.contents, k));
        } else {
            assert(copy_sector(g, m.contents, k - g.tables) == copy_sector(
                g,
                s.contents,
                k - g.tables,
            ));
        }
    }
    assert(b =~= a);
}

/// A tidy image that carries the marks of a write opens again once it is
/// flushed.
proof fn lemma_tidy_reopens(
    s: State,
    m: State,
    target: Seq<u8>,
    at: int,
    len: int,
    writable: bool,
    reliable: bool,
)
    requires
        s.tidy(),
        s.recorded_in_place(),
        s.regions_in_place(),
        s.content_id_bumped || s.plain_identifier() || m.readable_descriptor() is Ok,
        m.tidy(),
        s.same_open(&m),
        s.text_marked(&m),
        s.contents.len() <= m.contents.len() <= u64::MAX,
        m.tail_held(),
        0 <= at,
        0 < len,
        at + len <= s.geometry().virtual_size,
        target.len() == s.geometry().virtual_size,
        forall|u: int|
            at <= u < at + len ==> #[trigger] m.byte_reads(u) && m.disk()[u] == target[u],
    ensures
        ({
            let c = m.flushed().contents;
            &&& opened(c, c.len() as int, writable, true, reliable) matches Ok(t)
            &&& t.read(at, len) == Ok::<Seq<u8>, Error>(target.subrange(at, at + len))
            &&& reliable ==> t.served_for(at, at + len)
            &&& writable ==> t.tidy()
        }),
{
    lemma_record_kept(s, m);
    lemma_flushed_record(m);
    let f = m.flushed();
    assert(m.text_only(&f)) by {
        assert forall|b: int| 0 <= b < m.contents.len() && !m.is_text(b) implies
            #[trigger] f.contents[b] == m.contents[b] by {}
    }
    lemma_tidy_beside_text(m, f);
    lemma_regions_stay(s, f);
    law_reopening_a_tidy_image(f, writable, reliable);
    let c = f.contents;
    let r = opened(c, c.len() as int, writable, true, reliable);
    let t = r->Ok_0;
    assert forall|u: int| at <= u < at + len implies #[trigger] t.byte_reads(u) && t.disk()[u]
        == target[u] by {
        assert(m.byte_reads(u));
        lemma_byte_beside_text(m, f, u);
        assert(f.byte_reads(u));
    }
    lemma_reads_as(t, target, at, len);
}

/// Opening an orderly image that is recorded in place, for reading or for
/// writing, succeeds and gives the disk. Opened for writing it is orderly
/// again.
pub proof fn law_reopening_an_orderly_image(s: State, writable: bool, reliable: bool)
    requires
        s.orderly(),
        s.recorded_in_place(),
        s.regions_in_place(),
        s.tail_held(),
    ensures
        ({
            let n = s.contents.len() as int;
            &&& opened(s.contents, n, writable, true, reliable) matches Ok(t)
            &&& t.readable()
            &&& t.geometry() == s.geometry()
            &&& t.disk() == s.disk()
            &&& t.reliable == reliable
            &&& s.readable_descriptor() == Ok::<DescriptorView, Error>(t.descriptor)
            &&& writable ==> t.orderly()
        }),
{
    let n = s.contents.len() as int;
    lemma_tidy_no_clash(s, n);
    lemma_reopened_parts(s, writable, reliable);
    let t = opened(s.contents, n, writable, true, reliable)->Ok_0;
    lemma_div_up(n, 512);
    assert forall|b: int| #[trigger] t.tables.contains(b) implies s.tables.contains(b) by {
        lemma_tables_again(s, n, b);
    }
    assert(t.geometry() == s.geometry());
    assert(t.header.stream() == s.header.stream());
    lemma_reads_again(s, t);
    if writable {
        lemma_opened_parts(s.contents, n, true, reliable);
        lemma_protected_again(s, t);
        lemma_orderly_again(s, t);
    }
}

/// A tidy image that is opened for writing again is tidy again.
proof fn lemma_protected_again(s: State, t: State)
    requires
        s.tidy(),
        s.tail_held(),
        t.as_opened(),
        t.contents == s.contents,
        t.geometry() == s.geometry(),
        t.header.num_gtes_per_gt == s.header.num_gtes_per_gt,
        t.fixed == s.fixed,
        s.extent() <= t.extent(),
    ensures
        t.tidy(),
{
    let g = s.geometry();
    let n = s.contents.len() as int;
    lemma_opened_grounded(t);
    assert(4 * g.per_table <= g.table_span());
    assert forall|i: int| 0 <= i < g.tables implies #[trigger] t.table_guarded(i) by {
        assert(s.entry_rooted(i) && s.table_guarded(i));
        lemma_table_in_file(t, i);
    }
    assert forall|i: int| 0 <= i < g.tables implies #[trigger] t.copy_guarded(i) by {
        assert(s.entry_rooted(i) && s.table_guarded(i) && s.copy_guarded(i));
        lemma_table_in_file(t, i);
    }
    assert forall|x: Slot| #[trigger] t.live(x) implies (slot_range(g, t.contents, x)->0).0 + 4
        * g.per_table <= n by {
        match x {
            Slot::Table(i) => assert(s.entry_rooted(i)),
            Slot::Copy(i) => assert(s.entry_rooted(i)),
            Slot::Grain(_) => {},
        }
        assert(s.live(x));
        let b = (slot_range(g, s.contents, x)->0).0 + 4 * g.per_table - 1;
        assert(s.tables.contains(b));
    }
    lemma_spread(t, n);
    assert forall|i: int| 0 <= i < g.tables implies #[trigger] t.entry_rooted(i) by {
        assert(s.entry_rooted(i));
    }
}

/// What makes an image orderly that is not a matter of protection is a
/// matter of its bytes.
proof fn lemma_orderly_again(s: State, t: State)
    requires
        s.orderly(),
        t.tidy(),
        t.readable(),
        t.contents == s.contents,
        t.geometry() == s.geometry(),
    ensures
        t.orderly(),
{
    let g = s.geometry();
    assert forall|gi: int, gj: int|
        g.has_grain(gi) && g.has_grain(gj) && gi != gj implies #[trigger] t.grains_apart(gi, gj) by {
        assert(s.grains_apart(gi, gj));
    }
}

/// What was written to an orderly image and flushed is there when the image
/// is opened again, for reading or for writing, laid over what the disk
/// held, as long as the descriptor is still accepted under its new
/// identifier. This holds whatever the redundant copies of the grain tables
/// say, as long as the write is not refused.
pub proof fn law_data_on_an_orderly_image_survives_reopening(
    s: State,
    m: State,
    offset: int,
    data: Seq<u8>,
    at: int,
    len: int,
    writable: bool,
    reliable: bool,
)
    requires
        s.orderly(),
        s.recorded_in_place(),
        s.regions_in_place(),
        s.tail_held(),
        s.content_id_bumped || s.plain_identifier() || m.readable_descriptor() is Ok,
        0 <= offset,
        offset + data.len() <= s.geometry().virtual_size,
        s.with_data(offset, data) matches Some((n, refusal)) ==> refusal is None && n.text_only(&m),
        s.text_marked(&m),
        m.contents.len() <= u64::MAX,
        0 <= at,
        0 <= len,
        at + len <= s.geometry().virtual_size,
    ensures
        ({
            let c = m.flushed().contents;
            let target = overlaid(s.disk(), offset, data);
            &&& opened(c, c.len() as int, writable, true, reliable) matches Ok(t)
            &&& t.readable()
            &&& t.disk() == target
            &&& t.read(at, len) == Ok::<Seq<u8>, Error>(target.subrange(at, at + len))
            &&& reliable ==> t.served_for(at, at + len)
            &&& writable ==> t.orderly()
        }),
{
    law_read_after_write_on_an_orderly_image(s, m, offset, data, at, len);
    lemma_marked_reopens(s, m, at, len, writable, reliable);
}

/// An orderly image that carries the marks of a write opens again once it
/// is flushed.
proof fn lemma_marked_reopens(
    s: State,
    m: State,
    at: int,
    len: int,
    writable: bool,
    reliable: bool,
)
    requires
        s.orderly(),
        s.recorded_in_place(),
        s.regions_in_place(),
        s.content_id_bumped || s.plain_identifier() || m.readable_descriptor() is Ok,
        m.orderly(),
        s.same_open(&m),
        s.text_marked(&m),
        s.contents.len() <= m.contents.len() <= u64::MAX,
        m.tail_held(),
        0 <= at,
        0 <= len,
        at + len <= s.geometry().virtual_size,
    ensures
        ({
            let c = m.flushed().contents;
            &&& opened(c, c.len() as int, writable, true, reliable) matches Ok(t)
            &&& t.readable()
            &&& t.disk() == m.disk()
            &&& t.read(at, len) == Ok::<Seq<u8>, Error>(m.disk().subrange(at, at + len))
            &&& reliable ==> t.served_for(at, at + len)
            &&& writable ==> t.orderly()
        }),
{
    lemma_record_kept(s, m);
    lemma_flushed_record(m);
    law_flush_keeps_an_image_orderly(m);
    let f = m.flushed();
    lemma_regions_stay(s, f);
    law_reopening_an_orderly_image(f, writable, reliable);
    let c = f.contents;
    let r = opened(c, c.len() as int, writable, true, reliable);
    law_reading_a_readable_image(r->Ok_0, at, len);
}

/// Regions in place stay so as the file grows.
proof fn lemma_regions_stay(s: State, f: State)
    requires
        s.regions_in_place(),
        f.header == s.header,
        f.redundant == s.redundant,
        f.fixed == s.fixed,
        s.contents.len() <= f.contents.len(),
    ensures
        f.regions_in_place(),
{
    let h = s.header;
    assert(s.contents.len() / 512 <= f.contents.len() / 512);
    assert(fixed_bytes(h, f.contents.len() as int, s.redundant) =~= fixed_bytes(
        h,
        s.contents.len() as int,
        s.redundant,
    ));
}

} // verus!
