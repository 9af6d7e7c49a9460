//! What a write and a flush leave, byte by byte.

use super::opening::declares_copy;
use super::reading::{byte_at, leads_nowhere, place_for, pointer_for, reached, table_for};
use super::{law_integers_are_sums_of_bytes, law_what_the_flags_mean, u32_at, u64_at};
use crate::bytes::{law_le32_round_trip, le32_bytes};
use crate::device::{device_error, BlockDevice};
use crate::error::{Error, Result};
use crate::image::{
    copy_entry, copy_sector, grain_entry, lemma_byte_in_grain, lemma_grain_index, table_sector,
};
use crate::reader::allocate::{decided, write_fault};
use crate::reader::effect::outcome;
use crate::reader::mirrors::law_placed_grains_stand_in_both_maps;
use crate::reader::open::{opened, opens_as};
use crate::reader::orderly::touches;
use crate::reader::sound::is_state;
use crate::reader::state::{hits, table_count, State};
use crate::reader::twins::{twin_at, twins};
use crate::reader::VmdkReader;
use vstd::prelude::*;

verus! {

/// The disk is as long as the header says and has at each offset the byte
/// that its pointer leads to, or zero.
pub proof fn law_the_disk_byte_by_byte(s: State, v: int)
    requires
        s.header.grain_size > 0,
        s.header.num_gtes_per_gt > 0,
        0 <= v < s.header.capacity * 512,
    ensures
        s.disk().len() == s.header.capacity * 512,
        s.disk()[v] == byte_at(s, v),
{
    let gi = v / (s.header.grain_size * 512);
    let per = s.header.num_gtes_per_gt as int;
    law_integers_are_sums_of_bytes(s.contents, s.header.gd_offset * 512 + 4 * (gi / per), 0);
    law_integers_are_sums_of_bytes(s.contents, table_for(s, v) * 512 + 4 * (gi % per), 0);
    law_what_the_flags_mean(s.header);
}

/// On an image whose header declares a redundant directory, of whichever
/// revision, every grain that a write gives a place has the same pointer in
/// both maps afterwards: the directory and the redundant directory both name
/// a table, and both tables have the one number in the grain's entry.
///
/// `c` is what the image held when it was opened, `s` the reader before the
/// write and `m` after it.
pub proof fn law_writes_reach_both_maps(
    c: Seq<u8>,
    n: int,
    reliable: bool,
    s: State,
    m: State,
    offset: int,
    data: Seq<u8>,
    v: int,
)
    requires
        n <= c.len(),
        n <= u64::MAX,
        opened(c, n, true, true, reliable) is Ok,
        (opened(c, n, true, true, reliable)->Ok_0).same_image(&s),
        (u32_at(c, 8) / 2) % 2 == 1,
        u64_at(c, 48) > 0,
        s.tidy(),
        2 <= s.cursor,
        0 <= offset,
        offset + data.len() <= s.header.capacity * 512,
        s.with_data(offset, data) matches Some((w, refusal)) && refusal is None && w.text_only(&m),
        offset <= v < offset + data.len(),
        reached(s, v),
        leads_nowhere(s, pointer_for(s, v)),
    ensures
        ({
            let gi = v / (s.header.grain_size * 512);
            let i = gi / s.header.num_gtes_per_gt as int;
            let j = gi % s.header.num_gtes_per_gt as int;
            let t = u32_at(m.contents, u64_at(c, 56) * 512 + 4 * i);
            let q = u32_at(m.contents, u64_at(c, 48) * 512 + 4 * i);
            &&& t > 0
            &&& q > 0
            &&& u32_at(m.contents, t * 512 + 4 * j) > 0
            &&& u32_at(m.contents, q * 512 + 4 * j) == u32_at(m.contents, t * 512 + 4 * j)
            &&& !leads_nowhere(m, u32_at(m.contents, t * 512 + 4 * j))
        }),
{
    let s0 = opened(c, n, true, true, reliable)->Ok_0;
    lemma_opened_numbers(c, n, reliable);
    let g = s.geometry();
    let gb = s.header.grain_size * 512;
    let gi = v / gb;
    let per = s.header.num_gtes_per_gt as int;
    let i = gi / per;
    let j = gi % per;
    lemma_byte_in_grain(g, v);
    lemma_grain_index(g, gi);
    law_integers_are_sums_of_bytes(s.contents, s.header.gd_offset * 512 + 4 * i, 0);
    law_integers_are_sums_of_bytes(s.contents, table_for(s, v) * 512 + 4 * j, 0);
    law_what_the_flags_mean(s.header);
    assert(s.entry(gi) is Ok && !s.has_place(gi));
    assert(touches(g, offset, data.len() as int, gi));
    law_placed_grains_stand_in_both_maps(s, m, offset, data, gi);
    lemma_same_header(s, offset, data);
    assert(m.header == s.header && m.redundant);
    let t = u32_at(m.contents, u64_at(c, 56) * 512 + 4 * i);
    let q = u32_at(m.contents, u64_at(c, 48) * 512 + 4 * i);
    law_integers_are_sums_of_bytes(m.contents, u64_at(c, 56) * 512 + 4 * i, 0);
    law_integers_are_sums_of_bytes(m.contents, u64_at(c, 48) * 512 + 4 * i, 0);
    law_integers_are_sums_of_bytes(m.contents, t * 512 + 4 * j, 0);
    law_integers_are_sums_of_bytes(m.contents, q * 512 + 4 * j, 0);
}

proof fn lemma_same_header(s: State, offset: int, data: Seq<u8>)
    ensures
        s.with_data(offset, data) matches Some((w, _)) ==> w.header == s.header && w.redundant
            == s.redundant,
    decreases data.len(),
{
    let n = s.chunk_len(offset, offset + data.len());
    if data.len() > 0 && n > 0 && s.guarded_at(offset / s.geometry().grain_bytes) {
        let part = data.subrange(0, n);
        crate::reader::effect::lemma_part_session(s, offset, part);
        lemma_same_header(
            s.with_part(offset, part).0,
            offset + n,
            data.subrange(n, data.len() as int),
        );
    }
}

proof fn lemma_opened_numbers(c: Seq<u8>, n: int, reliable: bool)
    requires
        n <= c.len(),
        n <= u64::MAX,
        opened(c, n, true, true, reliable) is Ok,
    ensures
        ({
            let s = opened(c, n, true, true, reliable)->Ok_0;
            &&& s.header.flags == u32_at(c, 8)
            &&& s.header.rgd_offset == u64_at(c, 48)
            &&& s.header.gd_offset == u64_at(c, 56)
            &&& s.header.grain_size > 0
            &&& s.header.num_gtes_per_gt > 0
            &&& s.redundant == declares_copy(c)
        }),
{
    let s = opened(c, n, true, true, reliable)->Ok_0;
    let b = c.subrange(0, 512);
    assert(crate::header::header_of(b) == Ok::<crate::header::SparseHeader, Error>(s.header));
    super::law_header_fields(b, s.header);
    super::law_which_headers_are_read(b);
    assert(u32_at(b, 8) == u32_at(c, 8) && u64_at(b, 48) == u64_at(c, 48) && u64_at(b, 56) == u64_at(
        c,
        56,
    ));
    law_what_the_flags_mean(s.header);
}

/// Every image that opens read-write, of whichever revision and on whichever
/// device, has a live redundant directory exactly where its flags, as a
/// number, have their two set and the directory has a place.
pub proof fn law_a_read_write_open_keeps_its_copy<D: BlockDevice>(
    dev: &D,
    r: Result<VmdkReader<D>>,
)
    requires
        opens_as(dev, true, r),
        r is Ok,
        dev.size() <= dev.contents().len(),
        dev.size() <= u64::MAX,
    ensures
        r->Ok_0@.redundant <==> (u32_at(dev.contents(), 8) / 2) % 2 == 1 && u64_at(
            dev.contents(),
            48,
        ) > 0,
{
    lemma_opened_numbers(dev.contents(), dev.size() as int, dev.reliable());
}

/// What a write inside one grain does where the grain's table and its
/// metadata are protected, and the pointer leads to a grain: where all its
/// bytes can be reached it changes them, and nothing else; where one cannot,
/// or the table cannot, it is refused as corrupt and changes nothing.
pub proof fn law_what_a_write_in_place_does(s: State, v: int, part: Seq<u8>)
    requires
        s.header.grain_size > 0,
        s.header.num_gtes_per_gt > 0,
        0 <= v,
        0 < part.len(),
        v % (s.header.grain_size * 512) + part.len() <= s.header.grain_size * 512,
        s.guarded_at(v / (s.header.grain_size * 512)),
        !leads_nowhere(s, pointer_for(s, v)),
    ensures
        s.with_data(v, part) is Some,
        ({
            let (n, refusal) = s.with_data(v, part)->0;
            let at = place_for(s, v);
            &&& (forall|u: int| v <= u < v + part.len() ==> #[trigger] reached(s, u)) ==> {
                &&& refusal is None
                &&& n.cursor == s.cursor
                &&& n.contents.len() >= s.contents.len()
                &&& forall|k: int| 0 <= k < part.len() ==> #[trigger] n.contents[at + k] == part[k]
                &&& forall|b: int|
                    0 <= b < s.contents.len() && !(at <= b < at + part.len())
                        ==> #[trigger] n.contents[b] == s.contents[b]
            }
            &&& !(forall|u: int| v <= u < v + part.len() ==> #[trigger] reached(s, u)) ==> n == s
                && (refusal matches Some(e) && e is Corrupt)
        }),
{
    reveal(State::with_part);
    let gb = s.header.grain_size * 512;
    let len = part.len() as int;
    let end = v + len;
    vstd::arithmetic::div_mod::lemma_mod_bound(v, gb);
    assert(s.chunk_len(v, end) == len);
    assert(part.subrange(0, len) =~= part);
    assert(part.subrange(len, len) =~= Seq::<u8>::empty());
    let gi = v / gb;
    let per = s.header.num_gtes_per_gt as int;
    let t = table_for(s, v);
    let p = pointer_for(s, v);
    law_integers_are_sums_of_bytes(s.contents, s.header.gd_offset * 512 + 4 * (gi / per), 0);
    law_integers_are_sums_of_bytes(s.contents, t * 512 + 4 * (gi % per), 0);
    law_what_the_flags_mean(s.header);
    let lo = place_for(s, v);
    assert forall|u: int| v <= u < end implies table_for(s, u) == t && pointer_for(s, u) == p
        && #[trigger] place_for(s, u) == lo + (u - v) by {
        super::reading::lemma_same_grain(s, v, u, end);
    }
    assert(t != 0);
    if s.entry(gi) is Ok {
        assert(s.entry(gi)->Ok_0 == p);
        assert forall|b: int| t * 512 <= b < t * 512 + 4 * per implies
            !#[trigger] s.fixed.contains(b) by {}
    } else {
        assert(!reached(s, v));
    }
    let (w, refusal) = s.with_part(v, part);
    assert(w.with_data(end, Seq::<u8>::empty()) == Some((w, None::<Error>)));
    if forall|u: int| v <= u < end ==> #[trigger] reached(s, u) {
        assert(reached(s, v) && reached(s, end - 1));
        assert(place_for(s, end - 1) == lo + len - 1);
        if hits(s.fixed, lo, lo + len) {
            let b = choose|b: int| lo <= b < lo + len && #[trigger] s.fixed.contains(b);
            assert(place_for(s, v + (b - lo)) == b);
            assert(reached(s, v + (b - lo)));
        }
        if hits(s.tables, lo, lo + len) {
            let b = choose|b: int| lo <= b < lo + len && #[trigger] s.tables.contains(b);
            assert(place_for(s, v + (b - lo)) == b);
            assert(reached(s, v + (b - lo)));
        }
    } else {
        let u = choose|u: int| v <= u < end && !#[trigger] reached(s, u);
        assert(place_for(s, u) == lo + (u - v));
        if s.entry(gi) is Ok {
            assert(s.host_offset(p as u32, v % gb, len) is Err) by {
                if s.fixed.contains(lo + (u - v)) {
                    assert(hits(s.fixed, lo, lo + len));
                }
                if s.tables.contains(lo + (u - v)) {
                    assert(hits(s.tables, lo, lo + len));
                }
            }
        }
    }
}

/// The sectors of one grain table.
pub open spec fn sectors_of_a_table(s: State) -> int {
    (4 * s.header.num_gtes_per_gt + 511) / 512
}

/// A grain without a place, in a table that is there, whose copy, if there is
/// one, lies inside the file and clear of the fixed regions, is refused one
/// only for want of sectors that thirty-two bits can
/// number, or of memory for a grain of which a part is written.
pub proof fn law_when_a_new_grain_is_refused(s: State, i: int, j: int, k: int, src: Seq<u8>)
    requires
        s.header.grain_size > 0,
        s.header.num_gtes_per_gt > 0,
        0 <= s.cursor,
        s.with_new_grain(i, j, k, src).1 is Some,
        ({
            let q = u32_at(s.contents, s.header.rgd_offset * 512 + 4 * i) * 512;
            let span = 512 * sectors_of_a_table(s);
            s.redundant && q > 0 ==> q + span <= s.extent() && forall|b: int|
                q <= b < q + span ==> !#[trigger] s.fixed.contains(b)
        }),
        u32_at(s.contents, s.header.gd_offset * 512 + 4 * i) > 0,
    ensures
        s.with_new_grain(i, j, k, src).1 matches Some(Error::Unsupported(_)),
        s.header.grain_size * 512 > usize::MAX || s.cursor + s.header.grain_size
            + sectors_of_a_table(s) > 4294967295,
{
    reveal(State::with_grain_in_table);
    let g = s.geometry();
    law_integers_are_sums_of_bytes(s.contents, s.header.gd_offset * 512 + 4 * i, 0);
    law_integers_are_sums_of_bytes(s.contents, s.header.rgd_offset * 512 + 4 * i, 0);
    assert(s.table_sectors() == sectors_of_a_table(s));
    assert(g.table_span() == 512 * sectors_of_a_table(s));
    let copied = s.with_copy(i);
    if copied.1 is None {
        assert(copied.0.cursor <= s.cursor + sectors_of_a_table(s));
        assert(copied.0.header == s.header);
    }
}

/// What a write of a healthy image can want, where it wants something, is
/// sectors that thirty-two bits can number, of which it takes at most one
/// grain and three tables for each grain that it comes to, or memory for a
/// grain: with room for those it succeeds.
pub proof fn law_writes_with_room_succeed(s: State, r: Result<()>, offset: int, len: int)
    requires
        s.header.grain_size > 0,
        r matches Err(e) ==> s.wants(s.need() * s.grains_in(offset, len), e),
        0 <= offset,
        0 < len,
        s.header.grain_size * 512 <= usize::MAX,
        s.cursor + (s.header.grain_size + 3 * sectors_of_a_table(s)) * ((offset + len - 1) / (
        s.header.grain_size * 512) - offset / (s.header.grain_size * 512) + 1) <= 4294967295,
    ensures
        r is Ok,
{
    assert(s.table_sectors() == sectors_of_a_table(s));
    assert(s.need() == s.header.grain_size + 3 * sectors_of_a_table(s));
}

/// When a grain's entry is set, the redundant copy leads: each state of the
/// device in which the table has the new entry, and the flush before it,
/// has it in the copy too, so that no crash leaves a grain in the table
/// alone.
pub proof fn law_the_copy_leads(s: State, i: int, j: int, new: u32, e: int, k: int)
    requires
        s.redundant,
        s.journal.len() > 0,
        0 <= j < s.header.num_gtes_per_gt,
        ({
            let p = u32_at(s.contents, s.header.gd_offset * 512 + 4 * i) * 512;
            let q = u32_at(s.contents, s.header.rgd_offset * 512 + 4 * i) * 512;
            &&& p + 4 * s.header.num_gtes_per_gt <= q || q + 4 * s.header.num_gtes_per_gt <= p
            &&& p + 4 * s.header.num_gtes_per_gt <= s.contents.len()
            &&& q + 4 * s.header.num_gtes_per_gt <= s.contents.len()
            &&& u32_at(s.contents, p + 4 * j) != new
        }),
        is_state(s.with_entry(i, j, new).journal, e, k),
        !is_state(s.journal, e, k),
    ensures
        ({
            let p = u32_at(s.contents, s.header.gd_offset * 512 + 4 * i) * 512;
            let q = u32_at(s.contents, s.header.rgd_offset * 512 + 4 * i) * 512;
            let w = s.with_entry(i, j, new).journal;
            &&& u32_at(w[e][k], q + 4 * j) == new
            &&& u32_at(w[e][k], p + 4 * j) == new ==> u32_at(w[e][0], q + 4 * j) == new
            &&& u32_at(s.with_entry(i, j, new).contents, p + 4 * j) == new
            &&& u32_at(s.with_entry(i, j, new).contents, q + 4 * j) == new
        }),
{
    let g = s.geometry();
    let p = u32_at(s.contents, s.header.gd_offset * 512 + 4 * i) * 512;
    let q = u32_at(s.contents, s.header.rgd_offset * 512 + 4 * i) * 512;
    law_integers_are_sums_of_bytes(s.contents, s.header.gd_offset * 512 + 4 * i, 0);
    law_integers_are_sums_of_bytes(s.contents, s.header.rgd_offset * 512 + 4 * i, 0);
    let d = le32_bytes(new);
    law_le32_round_trip(new);
    let a = s.wrote(q + 4 * j, d);
    let b = a.synced();
    let n = b.wrote(p + 4 * j, d);
    assert(n == s.with_entry(i, j, new));
    let ca = a.contents;
    let cn = n.contents;
    assert(ca[q + 4 * j] == d[0] && ca[q + 4 * j + 1] == d[1] && ca[q + 4 * j + 2] == d[2] && ca[q
        + 4 * j + 3] == d[3]);
    assert(cn[p + 4 * j] == d[0] && cn[p + 4 * j + 1] == d[1] && cn[p + 4 * j + 2] == d[2] && cn[p
        + 4 * j + 3] == d[3]);
    assert(cn[q + 4 * j] == d[0] && cn[q + 4 * j + 1] == d[1] && cn[q + 4 * j + 2] == d[2] && cn[q
        + 4 * j + 3] == d[3]);
    assert(u32_at(ca, q + 4 * j) == new && u32_at(cn, q + 4 * j) == new && u32_at(cn, p + 4 * j)
        == new) by {
        law_integers_are_sums_of_bytes(ca, q + 4 * j, new);
        law_integers_are_sums_of_bytes(cn, q + 4 * j, new);
        law_integers_are_sums_of_bytes(cn, p + 4 * j, new);
    }
    assert(u32_at(ca, p + 4 * j) == u32_at(s.contents, p + 4 * j));
    let l = s.journal.len();
    assert(a.journal.len() == l && b.journal.len() == l + 1 && n.journal.len() == l + 1);
    assert(n.journal[l as int] =~= seq![ca, cn]);
    assert(n.journal[l - 1] == s.journal[l - 1].push(ca));
}

/// A flush leaves every byte as it is but byte 72, which is 0 afterwards
/// where a write had raised it. What was written is durable before that byte
/// comes down, and nothing is unflushed afterwards.
pub proof fn law_what_a_flush_leaves(s: State, b: int)
    requires
        72 < s.contents.len(),
        s.journal.len() > 0,
    ensures
        ({
            let n = s.flushed();
            &&& n.contents.len() == s.contents.len()
            &&& 0 <= b < s.contents.len() && b != 72 ==> n.contents[b] == s.contents[b]
            &&& n.contents[72] == (if s.unclean_marked {
                0
            } else {
                s.contents[72]
            })
            &&& !n.unclean_marked
            &&& n.content_id_bumped == s.content_id_bumped
            &&& n.header == s.header
            &&& n.cursor == s.cursor
            &&& n.redundant == s.redundant
            &&& n.writable == s.writable
            &&& n.journal.last() == seq![n.contents]
            &&& n.journal.len() > s.journal.len()
            &&& n.journal[s.journal.len() as int][0] == s.contents
        }),
{
    let n = s.flushed();
    let l = s.journal.len() as int;
    if s.unclean_marked {
        let a = s.synced();
        let w = a.wrote(72, seq![0u8]);
        assert(w.journal[l] =~= seq![s.contents, w.contents]);
        assert(n.journal[l] == w.journal[l]);
    }
}

/// What decides a call: a refusal, where there is one, and nothing else
/// makes it fail; an error that no device gives is never the device's doing.
/// The errors that a device gives are those of input and output, of a range
/// past the end, and of a device that takes no writes.
pub proof fn law_what_decides_a_call(r: Result<()>, e: Error)
    ensures
        outcome(r, None) <==> r is Ok,
        outcome(r, Some(e)) <==> r == Err::<(), Error>(e),
        device_error(e) <==> e is Io || e is OutOfBounds || e is ReadOnly,
        decided(false, r) <==> r is Ok || r->Err_0 is Corrupt || r->Err_0 is Unsupported
            || r->Err_0 is NotVmdk,
        decided(true, r),
        write_fault(true, e) ==> e is Io || e is OutOfBounds || e is ReadOnly || e is Unsupported,
        write_fault(false, e) ==> !(e is NotVmdk),
{
}

/// A reader's device takes every write where it does all that it can and
/// writes can reach as far as thirty-two bits can number sectors.
pub proof fn law_which_devices_take_every_write<D: BlockDevice>(reader: &VmdkReader<D>)
    ensures
        reader.steady() <==> reader@.reliable && reader@.extent() <= reader.limit() && 4294967295
            * 512 <= reader.limit(),
{
}

/// A write to a grain whose table cannot be reached is refused as corrupt
/// and changes nothing, and so is one to a grain without a place where the
/// image has copies and the table's copy runs past the end or into the fixed
/// regions.
pub proof fn law_what_cannot_be_mapped_is_not_written(s: State, v: int, part: Seq<u8>)
    requires
        s.header.grain_size > 0,
        s.header.num_gtes_per_gt > 0,
        0 <= v,
        0 < part.len(),
        v % (s.header.grain_size * 512) + part.len() <= s.header.grain_size * 512,
        s.guarded_at(v / (s.header.grain_size * 512)),
        table_for(s, v) > 0,
        ({
            let t = table_for(s, v) * 512;
            let q = copy_for(s, v) * 512;
            let span = 512 * sectors_of_a_table(s);
            ||| t + 4 * s.header.num_gtes_per_gt > s.extent()
            ||| exists|b: int|
                t <= b < t + 4 * s.header.num_gtes_per_gt && #[trigger] s.fixed.contains(b)
            ||| leads_nowhere(s, pointer_for(s, v)) && s.redundant && q > 0 && (q + span
                > s.extent() || exists|b: int| q <= b < q + span && #[trigger] s.fixed.contains(b))
        }),
    ensures
        s.with_data(v, part) matches Some((n, refusal)) && n == s && (refusal matches Some(e) && e is Corrupt),
{
    reveal(State::with_part);
    reveal(State::with_grain_in_table);
    let gb = s.header.grain_size * 512;
    let len = part.len() as int;
    vstd::arithmetic::div_mod::lemma_mod_bound(v, gb);
    assert(s.chunk_len(v, v + len) == len);
    assert(part.subrange(0, len) =~= part);
    let gi = v / gb;
    let per = s.header.num_gtes_per_gt as int;
    let t = table_for(s, v) * 512;
    let q = copy_for(s, v) * 512;
    let span = 512 * sectors_of_a_table(s);
    law_integers_are_sums_of_bytes(s.contents, s.header.gd_offset * 512 + 4 * (gi / per), 0);
    law_integers_are_sums_of_bytes(s.contents, s.header.rgd_offset * 512 + 4 * (gi / per), 0);
    law_integers_are_sums_of_bytes(s.contents, t + 4 * (gi % per), 0);
    law_what_the_flags_mean(s.header);
    assert(s.geometry().table_span() == span);
    if s.entry(gi) is Ok {
        assert(!hits(s.fixed, t, t + 4 * per));
        assert forall|b: int| t <= b < t + 4 * per implies !#[trigger] s.fixed.contains(b) by {}
        assert(s.entry(gi)->Ok_0 == pointer_for(s, v));
        assert(q + span > s.extent() || hits(s.fixed, q, q + span));
        assert(s.with_part(v, part).1 is Some);
    }
}

/// The sector of the redundant copy of the table of byte `v` of the disk.
pub open spec fn copy_for(s: State, v: int) -> int {
    u32_at(
        s.contents,
        s.header.rgd_offset * 512 + 4 * (v / (s.header.grain_size * 512)
            / s.header.num_gtes_per_gt as int),
    )
}

/// A grain in a table that is not there yet is refused a place only for want
/// of sectors that thirty-two bits can number, or of memory for a grain of
/// which a part is written.
pub proof fn law_when_a_first_grain_is_refused(s: State, i: int, j: int, k: int, src: Seq<u8>)
    requires
        s.grounded(),
        2 <= s.cursor,
        s.header.grain_size > 0,
        s.header.num_gtes_per_gt > 0,
        0 <= i < s.geometry().tables,
        table_sector(s.geometry(), s.contents, i) == 0,
        s.with_new_grain(i, j, k, src).1 is Some,
    ensures
        s.with_new_grain(i, j, k, src).1 matches Some(Error::Unsupported(_)),
        s.header.grain_size * 512 > usize::MAX || s.cursor + s.header.grain_size + 3
            * sectors_of_a_table(s) > 4294967295,
{
    reveal(State::with_table);
    assert(s.table_sectors() == sectors_of_a_table(s));
    let tabled = s.with_table(i);
    if tabled.1 is None {
        let a = tabled.0;
        lemma_new_table_sound(s, i);
        assert(a.cursor <= s.cursor + 2 * sectors_of_a_table(s));
        let g = a.geometry();
        let q = copy_sector(g, a.contents, i);
        law_integers_are_sums_of_bytes(a.contents, a.header.gd_offset * 512 + 4 * i, 0);
        law_integers_are_sums_of_bytes(a.contents, a.header.rgd_offset * 512 + 4 * i, 0);
        assert(g.table_span() == 512 * sectors_of_a_table(a));
        if a.redundant && q != 0 {
            let span = g.table_span();
            assert forall|b: int| q * 512 <= b < q * 512 + span implies
                !#[trigger] a.fixed.contains(b) by {
                assert(!hits(a.fixed, q * 512, q * 512 + span));
            }
        }
        law_when_a_new_grain_is_refused(a, i, j, k, src);
    }
}

/// Whether `w` is one of the states that the device passes through from
/// `s` to `n`.
pub open spec fn passed(s: State, n: State, w: Seq<u8>) -> bool {
    exists|e: int, k: int| #[trigger]
        is_state(n.journal, e, k) && !is_state(s.journal, e, k) && n.journal[e][k] == w
}

/// When a table is allocated in an image with copies, the redundant
/// directory leads: no state of the device on the way has an entry in the
/// directory and none in the redundant directory.
pub proof fn law_the_redundant_directory_leads(s: State, i: int, w: Seq<u8>)
    requires
        s.redundant,
        s.grounded(),
        s.journal.len() > 0,
        2 <= s.cursor,
        0 <= i < s.geometry().tables,
        u32_at(s.contents, s.header.gd_offset * 512 + 4 * i) == 0,
        s.with_table(i).1 is None,
        passed(s, s.with_table(i).0, w),
    ensures
        u32_at(w, s.header.gd_offset * 512 + 4 * i) != 0 ==> u32_at(
            w,
            s.header.rgd_offset * 512 + 4 * i,
        ) != 0,
        u32_at(s.with_table(i).0.contents, s.header.gd_offset * 512 + 4 * i) != 0,
        u32_at(s.with_table(i).0.contents, s.header.rgd_offset * 512 + 4 * i) != 0,
{
    reveal(State::with_table);
    let g = s.geometry();
    let gd = s.header.gd_offset * 512 + 4 * i;
    let rgd = s.header.rgd_offset * 512 + 4 * i;
    let span = g.table_span();
    assert(4 * g.tables <= g.dir_span());
    assert(s.table_sectors() * 512 == span);
    assert(s.extent() == s.cursor * 512);
    let r1 = State {
        cursor: s.cursor + s.table_sectors(),
        tables: s.tables.union(Set::new(|b: int| s.cursor * 512 <= b < s.cursor * 512 + span)),
        ..s
    };
    let a = s.with_blank_table();
    let b = a.with_blank_table();
    let x = b.published(true, i, a.cursor);
    let y = x.published(false, i, s.cursor);
    assert(y == s.with_table(i).0);
    let (c1, c2, c3, c4) = (a.contents, b.contents, x.contents, y.contents);
    let d3 = le32_bytes(a.cursor as u32);
    let d4 = le32_bytes(s.cursor as u32);
    law_le32_round_trip(a.cursor as u32);
    law_le32_round_trip(s.cursor as u32);
    assert(b.directory_at(true) + 4 * i == rgd && x.directory_at(false) + 4 * i == gd);
    assert(u32_at(c1, gd) == 0 && u32_at(c2, gd) == 0);
    assert(c3[rgd] == d3[0] && c3[rgd + 1] == d3[1] && c3[rgd + 2] == d3[2] && c3[rgd + 3] == d3[3]);
    law_integers_are_sums_of_bytes(c3, rgd, a.cursor as u32);
    assert(u32_at(c3, rgd) != 0 && u32_at(c3, gd) == 0);
    assert(c4[gd] == d4[0] && c4[gd + 1] == d4[1] && c4[gd + 2] == d4[2] && c4[gd + 3] == d4[3]);
    law_integers_are_sums_of_bytes(c4, gd, s.cursor as u32);
    assert(u32_at(c4, rgd) == u32_at(c3, rgd));
    let l = s.journal.len() as int;
    assert(a.journal.len() == l + 1 && b.journal.len() == l + 2 && x.journal.len() == l + 3
        && y.journal.len() == l + 4);
    assert(y.journal[l - 1] == s.journal[l - 1].push(c1));
    assert(y.journal[l] =~= seq![c1, c2]);
    assert(y.journal[l + 1] =~= seq![c2, c3]);
    assert(y.journal[l + 2] =~= seq![c3, c4]);
    assert(y.journal[l + 3] =~= seq![c4]);
    let (e, k) = choose|e: int, k: int| #[trigger]
        is_state(y.journal, e, k) && !is_state(s.journal, e, k) && y.journal[e][k] == w;
    if e < l - 1 {
        assert(y.journal[e] == s.journal[e]);
    }
}

proof fn lemma_new_table_sound(s: State, i: int)
    requires
        s.grounded(),
        2 <= s.cursor,
        0 <= i < s.geometry().tables,
        table_sector(s.geometry(), s.contents, i) == 0,
        s.with_table(i).1 is None,
    ensures
        ({
            let a = s.with_table(i).0;
            let q = copy_sector(a.geometry(), a.contents, i);
            &&& table_sector(a.geometry(), a.contents, i) != 0
            &&& q != 0 ==> a.copy_refusal(q) is None
            &&& a.header == s.header
            &&& 0 <= a.cursor
        }),
{
    crate::reader::mirrors::lemma_fresh_table(s, i);
}

/// The two copies of the grain map agree exactly where both directories name
/// a table for the same grains, and both tables have the same number in
/// every entry.
pub proof fn law_when_the_copies_agree(s: State)
    requires
        s.redundant,
        s.header.num_gtes_per_gt > 0,
    ensures
        s.twinned() <==> forall|i: int, j: int|
            0 <= i < table_count(s.header) && 0 <= j < s.header.num_gtes_per_gt
                ==> #[trigger] entries_agree(s, i, j),
{
    reveal(twins);
    let g = s.geometry();
    let c = s.contents;
    let per = s.header.num_gtes_per_gt;
    assert forall|i: int, j: int| 0 <= i < g.tables && 0 <= j < per implies entries_agree(s, i, j)
        == ((table_sector(g, c, i) == 0) == (copy_sector(g, c, i) == 0) && copy_entry(g, c, i, j)
        == grain_entry(g, c, i, j)) by {
        let t = table_sector(g, c, i);
        let q = copy_sector(g, c, i);
        law_integers_are_sums_of_bytes(c, s.header.gd_offset * 512 + 4 * i, 0);
        law_integers_are_sums_of_bytes(c, s.header.rgd_offset * 512 + 4 * i, 0);
        law_integers_are_sums_of_bytes(c, t * 512 + 4 * j, 0);
        law_integers_are_sums_of_bytes(c, q * 512 + 4 * j, 0);
    }
    if s.twinned() {
        assert forall|i: int, j: int|
            0 <= i < table_count(s.header) && 0 <= j < s.header.num_gtes_per_gt implies
            #[trigger] entries_agree(s, i, j) by {
            assert(twin_at(g, c, i));
            assert(copy_entry(g, c, i, j) == grain_entry(g, c, i, j));
        }
    }
    if forall|i: int, j: int|
        0 <= i < table_count(s.header) && 0 <= j < s.header.num_gtes_per_gt
            ==> #[trigger] entries_agree(s, i, j) {
        assert forall|i: int| 0 <= i < g.tables implies #[trigger] twin_at(g, c, i) by {
            assert(entries_agree(s, i, 0));
            assert forall|j: int| 0 <= j < g.per_table implies #[trigger] copy_entry(g, c, i, j)
                == grain_entry(g, c, i, j) by {
                assert(entries_agree(s, i, j));
            }
        }
    }
}

/// Whether both directories name a table `i` or neither does, and the two
/// tables have the same number in entry `j`.
pub open spec fn entries_agree(s: State, i: int, j: int) -> bool {
    let t = u32_at(s.contents, s.header.gd_offset * 512 + 4 * i);
    let q = u32_at(s.contents, s.header.rgd_offset * 512 + 4 * i);
    &&& t == 0 <==> q == 0
    &&& t > 0 ==> u32_at(s.contents, t * 512 + 4 * j) == u32_at(s.contents, q * 512 + 4 * j)
}

} // verus!
