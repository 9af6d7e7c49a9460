//! What a write leaves of the bytes that could be read before it, byte by
//! byte: no grain has to be whole, and grains and tables that the write
//! does not come to may be in any state.

use super::beside_text::{
    lemma_grounded_beside_text, lemma_guarded_beside_text, lemma_rooted_beside_text,
};
use super::damage::lemma_part_keeps_protection;
use super::effect::{lemma_clear, lemma_clear_write, lemma_part_session, lemma_within_clear};
use super::mark::lemma_text_entry;
use super::orderly::{
    lemma_clear_of_sectors, lemma_gains, lemma_gains_grown, lemma_gains_keeps, lemma_gains_own,
    lemma_gains_spread, lemma_gains_state, lemma_slot_old_or_new, lemma_table_live,
};
use super::state::{bytes_at, hits, zeros, State};
use crate::bytes::overlaid;
use crate::error::Error;
use crate::image::{
    copy_sector, grain_state, lemma_byte_in_grain, lemma_grain_index, lemma_offset_of, slot_range,
    table_sector, GrainState, Slot,
};
use vstd::prelude::*;

verus! {

impl State {
    /// Whether byte `v` of the disk can be read: its grain's table is not
    /// refused, nor is its place, and the device holds both.
    pub open spec fn byte_reads(&self, v: int) -> bool {
        let g = self.geometry();
        let gi = v / g.grain_bytes;
        let k = v % g.grain_bytes;
        &&& self.entry(gi) is Ok
        &&& self.table_held(gi)
        &&& g.meaning(self.entry(gi)->Ok_0) matches GrainState::At(t) ==> {
            &&& self.host_offset(t, k, 1) is Ok
            &&& t * 512 + k < self.contents.len()
        }
    }

    /// Where byte `v` of the disk is in the file, if its grain has a place.
    pub open spec fn host_byte(&self, v: int) -> Option<int> {
        let g = self.geometry();
        match grain_state(g, self.contents, v / g.grain_bytes) {
            GrainState::At(t) => Some(t * 512 + v % g.grain_bytes),
            _ => None,
        }
    }

    /// Whether the table of byte `v` is protected.
    pub open spec fn byte_guarded(&self, v: int) -> bool {
        let g = self.geometry();
        self.table_guarded(v / g.grain_bytes / g.per_table)
    }
}

/// The entry of a grain that is not refused is the one its table holds.
proof fn lemma_entry_says(s: State, gi: int)
    requires
        s.geometry().wf(),
        s.geometry().has_grain(gi),
        s.entry(gi) is Ok,
    ensures
        ({
            let g = s.geometry();
            let i = gi / g.per_table;
            &&& g.meaning(s.entry(gi)->Ok_0) == grain_state(g, s.contents, gi)
            &&& 0 <= i < g.tables
            &&& 0 <= gi % g.per_table < g.per_table
        }),
{
    lemma_grain_index(s.geometry(), gi);
}

/// Bytes of one grain that can each be read can be read together.
proof fn lemma_bytes_together(s: State, t: u32, k: int, n: int)
    requires
        0 <= k,
        0 < n,
        forall|x: int| k <= x < k + n ==> (#[trigger] s.host_offset(t, x, 1)) is Ok,
    ensures
        s.host_offset(t, k, n) == Ok::<int, Error>(t * 512 + k),
{
    assert(s.host_offset(t, k, 1) is Ok);
    assert(s.host_offset(t, k + n - 1, 1) is Ok);
    if hits(s.fixed, t * 512 + k, t * 512 + k + n) {
        let b = choose|b: int|
            t * 512 + k <= b < t * 512 + k + n && #[trigger] s.fixed.contains(b);
        assert(s.host_offset(t, b - t * 512, 1) is Ok);
        assert(hits(s.fixed, b, b + 1));
    }
    if hits(s.tables, t * 512 + k, t * 512 + k + n) {
        let b = choose|b: int|
            t * 512 + k <= b < t * 512 + k + n && #[trigger] s.tables.contains(b);
        assert(s.host_offset(t, b - t * 512, 1) is Ok);
        assert(hits(s.tables, b, b + 1));
    }
}

/// One grain's part of a range whose bytes can be read.
proof fn lemma_bytes_chunk(s: State, v: int, end: int)
    requires
        s.geometry().wf(),
        !s.header.stream(),
        0 <= v < end,
        end <= s.geometry().virtual_size,
        forall|u: int| v <= u < end ==> #[trigger] s.byte_reads(u),
    ensures
        0 < s.chunk_len(v, end) <= end - v,
        s.chunk(v, end) == Ok::<Seq<u8>, Error>(
            s.disk().subrange(v, v + s.chunk_len(v, end)),
        ),
        s.chunk_held(v, end),
{
    let g = s.geometry();
    let c = s.contents;
    let n = s.chunk_len(v, end);
    let gi = v / g.grain_bytes;
    let k = v % g.grain_bytes;
    lemma_byte_in_grain(g, v);
    assert(s.byte_reads(v));
    lemma_entry_says(s, gi);
    let part = s.disk().subrange(v, v + n);
    assert forall|x: int| 0 <= x < n implies #[trigger] part[x] == (match grain_state(g, c, gi) {
        GrainState::At(t) => c[t * 512 + k + x],
        _ => 0,
    }) by {
        lemma_offset_of(g, gi, k + x);
    }
    match grain_state(g, c, gi) {
        GrainState::At(t) => {
            assert forall|x: int| k <= x < k + n implies (#[trigger] s.host_offset(t, x, 1)) is Ok
                && t * 512 + x < c.len() by {
                lemma_offset_of(g, gi, x);
                assert(s.byte_reads(gi * g.grain_bytes + x));
            }
            lemma_bytes_together(s, t, k, n);
            assert(s.host_offset(t, k + n - 1, 1) is Ok);
            assert(bytes_at(c, t * 512 + k, n) =~= part);
        },
        _ => {
            assert(zeros(n) =~= part);
        },
    }
}

proof fn lemma_bytes_range(s: State, v: int, end: int)
    requires
        s.geometry().wf(),
        !s.header.stream(),
        0 <= v <= end,
        end <= s.geometry().virtual_size,
        forall|u: int| v <= u < end ==> #[trigger] s.byte_reads(u),
    ensures
        s.range(v, end) == Ok::<Seq<u8>, Error>(s.disk().subrange(v, end)),
    decreases end - v,
{
    if v == end {
        assert(s.disk().subrange(v, end) =~= Seq::<u8>::empty());
    } else {
        lemma_bytes_chunk(s, v, end);
        let n = s.chunk_len(v, end);
        lemma_bytes_range(s, v + n, end);
        assert(s.disk().subrange(v, v + n) + s.disk().subrange(v + n, end)
            =~= s.disk().subrange(v, end));
    }
}

/// Where each byte of a range can be read, reading the range gives its part
/// of the disk.
pub proof fn law_reading_readable_bytes(s: State, offset: int, len: int)
    requires
        s.geometry().wf(),
        !s.header.stream(),
        0 <= offset,
        0 <= len,
        offset + len <= s.geometry().virtual_size <= u64::MAX,
        forall|u: int| offset <= u < offset + len ==> #[trigger] s.byte_reads(u),
    ensures
        s.read(offset, len) == Ok::<Seq<u8>, Error>(s.disk().subrange(offset, offset + len)),
        s.reliable ==> s.served_for(offset, offset + len),
{
    if len == 0 {
        assert(s.disk().subrange(offset, offset + len) =~= Seq::<u8>::empty());
    } else {
        lemma_bytes_range(s, offset, offset + len);
    }
    assert forall|u: int| offset <= u < offset + len implies #[trigger] s.chunk_held(
        u,
        offset + len,
    ) by {
        lemma_bytes_chunk(s, u, offset + len);
    }
}

/// A range whose bytes can be read and are those of `want` reads as its part
/// of it.
pub(super) proof fn lemma_reads_as(m: State, want: Seq<u8>, at: int, len: int)
    requires
        m.geometry().wf(),
        !m.header.stream(),
        0 <= at,
        0 <= len,
        at + len <= m.geometry().virtual_size <= u64::MAX,
        want.len() == m.geometry().virtual_size,
        forall|u: int|
            at <= u < at + len ==> #[trigger] m.byte_reads(u) && m.disk()[u] == want[u],
    ensures
        m.read(at, len) == Ok::<Seq<u8>, Error>(want.subrange(at, at + len)),
        m.reliable ==> m.served_for(at, at + len),
{
    law_reading_readable_bytes(m, at, len);
    let got = m.disk().subrange(at, at + len);
    assert forall|x: int| 0 <= x < len implies #[trigger] got[x] == want.subrange(
        at,
        at + len,
    )[x] by {
        assert(m.byte_reads(at + x));
    }
    assert(got =~= want.subrange(at, at + len));
}

/// A range that reads, the device holding what that takes, has bytes each
/// of which can be read.
pub proof fn law_a_read_shows_its_bytes(s: State, offset: int, len: int)
    requires
        s.geometry().wf(),
        !s.header.stream(),
        0 <= offset,
        0 <= len,
        offset + len <= s.geometry().virtual_size <= u64::MAX,
        s.read(offset, len) is Ok,
        forall|u: int|
            offset <= u < offset + len ==> #[trigger] s.chunk_held(u, offset + len),
    ensures
        forall|u: int| offset <= u < offset + len ==> #[trigger] s.byte_reads(u),
{
    assert forall|u: int| offset <= u < offset + len implies #[trigger] s.byte_reads(u) by {
        lemma_byte_of_range(s, offset, offset + len, u);
    }
}

proof fn lemma_byte_of_range(s: State, v: int, end: int, u: int)
    requires
        s.geometry().wf(),
        !s.header.stream(),
        0 <= v <= u < end,
        end <= s.geometry().virtual_size,
        s.range(v, end) is Ok,
        forall|u: int| v <= u < end ==> #[trigger] s.chunk_held(u, end),
    ensures
        s.byte_reads(u),
    decreases end - v,
{
    let g = s.geometry();
    let n = s.chunk_len(v, end);
    lemma_byte_in_grain(g, v);
    assert(0 < n <= end - v);
    assert(s.chunk(v, end) is Ok && s.range(v + n, end) is Ok);
    assert(s.chunk_held(v, end));
    if u < v + n {
        let gi = v / g.grain_bytes;
        let k = v % g.grain_bytes;
        let x = k + (u - v);
        lemma_offset_of(g, gi, x);
        if let GrainState::At(t) = g.meaning(s.entry(gi)->Ok_0) {
            let lo = t * 512 + k;
            lemma_within_clear(s.fixed, lo, lo + n, t * 512 + x, t * 512 + x + 1);
            lemma_within_clear(s.tables, lo, lo + n, t * 512 + x, t * 512 + x + 1);
        }
    } else {
        lemma_byte_of_range(s, v + n, end, u);
    }
}

impl State {
    /// Whether the grain of byte `v` has a place, under a protected table.
    pub open spec fn byte_placed(&self, v: int) -> bool {
        self.has_place(v / self.geometry().grain_bytes) && self.byte_guarded(v)
    }

    /// Whether `n` has the file of this state but for bytes of grains.
    pub open spec fn beside_tables(&self, n: &State) -> bool {
        &&& self.same_open(n)
        &&& n.cursor == self.cursor
        &&& n.tables == self.tables
        &&& self.contents.len() <= n.contents.len()
        &&& self.keeps_directories(n)
    }
}

/// What a write clear of all that is protected leaves of a grain's entry.
proof fn lemma_entry_stays(s: State, off: int, data: Seq<u8>, gj: int)
    requires
        s.grounded(),
        0 <= off,
        0 < data.len(),
        !hits(s.fixed, off, off + data.len()),
        !hits(s.tables, off, off + data.len()),
        s.geometry().has_grain(gj),
        s.table_guarded(gj / s.geometry().per_table),
        s.entry(gj) is Ok,
    ensures
        ({
            let n = s.wrote(off, data);
            let g = s.geometry();
            &&& n.grounded()
            &&& n.geometry() == g
            &&& s.beside_tables(&n)
            &&& n.entry(gj) == s.entry(gj)
            &&& n.table_held(gj)
            &&& n.table_guarded(gj / g.per_table)
            &&& grain_state(g, n.contents, gj) == grain_state(g, s.contents, gj)
        }),
{
    let g = s.geometry();
    let n = s.wrote(off, data);
    let i = gj / g.per_table;
    let j = gj % g.per_table;
    lemma_clear_write(s, off, data);
    lemma_entry_says(s, gj);
    let t = table_sector(g, s.contents, i);
    assert(table_sector(g, n.contents, i) == t);
    if t != 0 {
        assert(4 * g.per_table <= g.table_span());
        lemma_clear(s.tables, off, off + data.len(), t * 512, t * 512 + 4 * g.per_table);
        crate::image::lemma_entry_kept(s.contents, off, data, t * 512, j);
    }
}

/// What a part written in place leaves of byte `u`.
proof fn lemma_in_place_byte(s: State, v: int, part: Seq<u8>, u: int)
    requires
        s.grounded(),
        0 <= v,
        0 < part.len(),
        v % s.geometry().grain_bytes + part.len() <= s.geometry().grain_bytes,
        v + part.len() <= s.geometry().virtual_size,
        s.has_place(v / s.geometry().grain_bytes),
        s.with_part(v, part).1 is None,
        0 <= u < s.geometry().virtual_size,
        s.byte_guarded(u),
        s.entry(u / s.geometry().grain_bytes) is Ok,
    ensures
        ({
            let n = s.with_part(v, part).0;
            let g = s.geometry();
            &&& n.grounded()
            &&& n.geometry() == g
            &&& s.beside_tables(&n)
            &&& n.entry(u / g.grain_bytes) == s.entry(u / g.grain_bytes)
            &&& n.byte_guarded(u)
            &&& n.host_byte(u) == s.host_byte(u)
            &&& s.byte_reads(u) ==> n.byte_reads(u)
            &&& v <= u < v + part.len() ==> n.byte_reads(u) && n.disk()[u] == part[u - v]
            &&& s.byte_reads(u) && !(v <= u < v + part.len()) && (forall|w: int|
                v <= w < v + part.len() && w / g.grain_bytes != u / g.grain_bytes
                    ==> s.host_byte(u) is None || #[trigger] s.host_byte(w) != s.host_byte(u))
                ==> n.disk()[u] == s.disk()[u]
        }),
{
    reveal(State::with_part);
    let g = s.geometry();
    let gb = g.grain_bytes;
    let gi = v / gb;
    let k = v % gb;
    let gj = u / gb;
    lemma_byte_in_grain(g, v);
    lemma_byte_in_grain(g, u);
    lemma_entry_says(s, gi);
    lemma_entry_says(s, gj);
    let t = g.meaning(s.entry(gi)->Ok_0)->At_0;
    let off = t * 512 + k;
    let n = s.wrote(off, part);
    assert(s.host_offset(t, k, part.len() as int) == Ok::<int, Error>(off));
    lemma_entry_stays(s, off, part, gj);
    let x = u % gb;
    assert(gj == gi ==> u == v - k + x);
    if let GrainState::At(e) = grain_state(g, s.contents, gj) {
        let h = e * 512 + x;
        assert(s.host_byte(u) == Some(h));
        assert(n.disk()[u] == n.contents[h]);
        assert(s.disk()[u] == s.contents[h]);
        if v <= u < v + part.len() {
            lemma_offset_of(g, gi, k + (u - v));
            lemma_within_clear(s.fixed, off, off + part.len(), h, h + 1);
            lemma_within_clear(s.tables, off, off + part.len(), h, h + 1);
            assert(n.contents[h] == part[u - v]);
        } else if s.byte_reads(u) && off <= h < off + part.len() {
            if gj != gi {
                let w = v + (h - off);
                lemma_offset_of(g, gi, k + (h - off));
                assert(s.host_byte(w) == Some(h));
            }
        }
    } else if v <= u < v + part.len() {
        lemma_offset_of(g, gi, k + (u - v));
    }
}

/// What data written in place leaves of byte `u`.
proof fn lemma_in_place_data(s: State, v: int, data: Seq<u8>, u: int)
    requires
        s.grounded(),
        0 <= v,
        v + data.len() <= s.geometry().virtual_size,
        forall|w: int| v <= w < v + data.len() ==> #[trigger] s.byte_placed(w),
        s.with_data(v, data) matches Some((_, refusal)) && refusal is None,
        0 <= u < s.geometry().virtual_size,
        s.byte_guarded(u),
        s.byte_reads(u) || v <= u < v + data.len(),
        forall|w: int|
            v <= w < v + data.len() && w / s.geometry().grain_bytes != u
                / s.geometry().grain_bytes ==> s.host_byte(u) is None || #[trigger] s.host_byte(w)
                != s.host_byte(u),
    ensures
        ({
            let n = (s.with_data(v, data)->0).0;
            &&& n.grounded()
            &&& s.beside_tables(&n)
            &&& n.byte_guarded(u)
            &&& n.byte_reads(u)
            &&& n.disk()[u] == overlaid(s.disk(), v, data)[u]
        }),
    decreases data.len(),
{
    let g = s.geometry();
    let gb = g.grain_bytes;
    let n = s.chunk_len(v, v + data.len());
    if data.len() > 0 {
        lemma_byte_in_grain(g, v);
        lemma_byte_in_grain(g, u);
        let gi = v / gb;
        let k = v % gb;
        assert(0 < n <= data.len() && k + n <= gb);
        assert(s.byte_placed(v));
        if v <= u < v + data.len() {
            assert(s.byte_placed(u));
        }
        let part = data.subrange(0, n);
        let rest = data.subrange(n, data.len() as int);
        let a = s.with_part(v, part).0;
        assert(s.guarded_at(gi) && s.with_part(v, part).1 is None);
        lemma_in_place_byte(s, v, part, u);
        assert forall|w: int| v + n <= w < v + data.len() implies #[trigger] a.byte_placed(w)
            && a.host_byte(w) == s.host_byte(w) by {
            assert(s.byte_placed(w));
            lemma_in_place_byte(s, v, part, w);
        }
        assert forall|w: int|
            v + n <= w < v + data.len() && w / gb != u / gb implies a.host_byte(u) is None
            || #[trigger] a.host_byte(w) != a.host_byte(u) by {
            assert(a.byte_placed(w));
            assert(s.host_byte(u) is None || s.host_byte(w) != s.host_byte(u));
        }
        lemma_in_place_data(a, v + n, rest, u);
        let z = (a.with_data(v + n, rest)->0).0;
        assert(z == (s.with_data(v, data)->0).0);
        assert(z.disk()[u] == overlaid(a.disk(), v + n, rest)[u]);
    }
}

/// What the header sector and the descriptor say does not bear on a byte
/// that can be read.
pub(super) proof fn lemma_byte_beside_text(s: State, m: State, u: int)
    requires
        s.grounded(),
        s.text_only(&m),
        0 <= u < s.geometry().virtual_size,
        s.byte_reads(u),
    ensures
        m.byte_reads(u),
        m.disk()[u] == s.disk()[u],
        m.geometry() == s.geometry(),
{
    let g = s.geometry();
    let gi = u / g.grain_bytes;
    lemma_byte_in_grain(g, u);
    lemma_entry_says(s, gi);
    lemma_text_entry(s, m, gi);
    lemma_entry_says(m, gi);
    if let GrainState::At(t) = grain_state(g, s.contents, gi) {
        let h = t * 512 + u % g.grain_bytes;
        if s.is_text(h) {
            assert(s.fixed.contains(h));
            assert(hits(s.fixed, h, h + 1));
        }
        assert(m.contents[h] == s.contents[h]);
    }
}

/// What a write in place and its marks leave of byte `u`.
pub(super) proof fn lemma_placed_byte(
    s: State,
    n: State,
    m: State,
    offset: int,
    data: Seq<u8>,
    u: int,
)
    requires
        s.grounded(),
        0 <= offset,
        offset + data.len() <= s.geometry().virtual_size,
        forall|w: int| offset <= w < offset + data.len() ==> #[trigger] s.byte_placed(w),
        s.with_data(offset, data) == Some((n, None::<Error>)),
        n.text_only(&m),
        0 <= u < s.geometry().virtual_size,
        s.byte_guarded(u),
        s.byte_reads(u) || offset <= u < offset + data.len(),
        forall|w: int|
            offset <= w < offset + data.len() && w / s.geometry().grain_bytes != u
                / s.geometry().grain_bytes ==> s.host_byte(u) is None || #[trigger] s.host_byte(w)
                != s.host_byte(u),
    ensures
        m.grounded(),
        s.beside_tables(&m),
        m.byte_reads(u),
        m.disk()[u] == overlaid(s.disk(), offset, data)[u],
{
    lemma_in_place_data(s, offset, data, u);
    lemma_grounded_beside_text(n, m);
    lemma_byte_beside_text(n, m, u);
    let g = s.geometry();
    assert forall|i: int| 0 <= i < g.tables implies #[trigger] table_sector(g, m.contents, i)
        == table_sector(g, s.contents, i) by {
        assert(table_sector(g, n.contents, i) == table_sector(g, s.contents, i));
    }
    assert forall|i: int| 0 <= i < g.tables implies #[trigger] copy_sector(g, m.contents, i)
        == copy_sector(g, s.contents, i) by {
        assert(copy_sector(g, n.contents, i) == copy_sector(g, s.contents, i));
    }
}

/// A write that only comes to grains that have a place reads back, and
/// every other byte that could be read is as it was, if it shares no place
/// with what was written. The grains and tables that the write does not
/// come to may be in any state, directory entries may name places past the
/// end, and a grain may be cut short by the end of the file.
pub proof fn law_read_after_a_write_in_place(
    s: State,
    m: State,
    offset: int,
    data: Seq<u8>,
    at: int,
    len: int,
)
    requires
        s.grounded(),
        !s.header.stream(),
        0 <= offset,
        offset + data.len() <= s.geometry().virtual_size <= u64::MAX,
        forall|w: int| offset <= w < offset + data.len() ==> #[trigger] s.byte_placed(w),
        s.with_data(offset, data) matches Some((n, refusal)) && refusal is None && n.text_only(&m),
        0 <= at,
        0 <= len,
        at + len <= s.geometry().virtual_size,
        forall|u: int|
            at <= u < at + len ==> #[trigger] s.byte_guarded(u) && (s.byte_reads(u) || offset <= u
                < offset + data.len()),
        forall|u: int, w: int|
            at <= u < at + len && offset <= w < offset + data.len() && u
                / s.geometry().grain_bytes != w / s.geometry().grain_bytes ==> s.host_byte(u) is None
                || #[trigger] s.host_byte(w) != #[trigger] s.host_byte(u),
    ensures
        m.read(at, len) == Ok::<Seq<u8>, Error>(
            overlaid(s.disk(), offset, data).subrange(at, at + len),
        ),
        m.reliable ==> m.served_for(at, at + len),
{
    let g = s.geometry();
    let n = (s.with_data(offset, data)->0).0;
    let want = overlaid(s.disk(), offset, data);
    assert forall|u: int| at <= u < at + len implies #[trigger] m.byte_reads(u) && m.disk()[u]
        == want[u] && s.same_open(&m) by {
        assert(s.byte_guarded(u));
        lemma_placed_byte(s, n, m, offset, data, u);
    }
    if len > 0 {
        assert(m.byte_reads(at));
        lemma_reads_as(m, want, at, len);
    } else {
        assert(want.subrange(at, at + len) =~= Seq::<u8>::empty());
    }
}

impl State {
    /// Whether byte `u` lies outside the sectors of every live table and
    /// copy.
    pub open spec fn byte_apart(&self, u: int) -> bool {
        self.host_byte(u) matches Some(h) ==> forall|x: Slot| #[trigger]
            self.live(x) ==> !((slot_range(self.geometry(), self.contents, x)->0).0 <= h < (
            slot_range(self.geometry(), self.contents, x)->0).1)
    }
}

/// What byte `u` is when a grain gains a place.
proof fn lemma_gain_byte(s: State, n: State, gi: int, new: u32, k: int, src: Seq<u8>, u: int)
    requires
        s.tidy(),
        s.geometry().has_grain(gi),
        s.entry(gi) is Ok,
        s.table_held(gi),
        grain_state(s.geometry(), s.contents, gi) !is At,
        s.gains(
            &n,
            gi / s.geometry().per_table,
            gi % s.geometry().per_table,
            new,
            k,
            src,
        ),
        n.geometry() == s.geometry(),
        n.guarded(),
        n.spread(),
        0 <= u < s.geometry().virtual_size,
        s.byte_reads(u),
        0 <= k,
        k + src.len() <= s.geometry().used(gi),
    ensures
        ({
            let g = s.geometry();
            &&& new * 512 >= s.extent()
            &&& n.byte_reads(u)
            &&& n.host_byte(u) == (if u / g.grain_bytes == gi {
                Some(new * 512 + u % g.grain_bytes)
            } else {
                s.host_byte(u)
            })
            &&& s.byte_apart(u) ==> {
                &&& n.byte_apart(u)
                &&& n.disk()[u] == overlaid(s.disk(), gi * g.grain_bytes + k, src)[u]
            }
        }),
{
    let g = s.geometry();
    let gb = g.grain_bytes;
    let i = gi / g.per_table;
    let j = gi % g.per_table;
    let gj = u / gb;
    let x = u % gb;
    lemma_byte_in_grain(g, u);
    lemma_grain_index(g, gi);
    lemma_gains_state(s, n, gi, new, k, src, gj);
    lemma_gains_own(s, n, gi, new, k, src);
    lemma_entry_says(s, gj);
    if gj == gi {
        assert(u == gi * gb + x);
        assert(n.grain_readable(gi));
        lemma_within_clear(n.fixed, new * 512, new * 512 + g.used(gi), new * 512 + x, new * 512 + x
            + 1);
        lemma_within_clear(n.tables, new * 512, new * 512 + g.used(gi), new * 512 + x, new * 512 + x
            + 1);
        assert(s.disk()[u] == 0);
        assert(n.disk()[u] == n.contents[new * 512 + x]);
        lemma_new_byte_apart(s, n, gi, new, k, src, u);
    } else {
        if gi * gb + k <= u < gi * gb + k + src.len() {
            lemma_offset_of(g, gi, u - gi * gb);
        }
        if let GrainState::At(t) = grain_state(g, s.contents, gj) {
            let h = t * 512 + x;
            if hits(n.tables, h, h + 1) {
                assert(n.tables.contains(h));
                assert(hits(s.tables, h, h + 1)) by {
                    reveal(State::gains);
                    assert(s.tables.contains(h));
                }
            }
            assert(n.byte_reads(u)) by {
                reveal(State::gains);
            }
            if s.byte_apart(u) {
                assert(s.host_byte(u) == Some(h));
                if table_sector(g, s.contents, i) != 0 {
                    lemma_table_live(s, gi);
                }
                lemma_gains_keeps(s, n, i, j, new, k, src, h, h + 1);
                assert(n.contents[h] == s.contents[h]);
                assert forall|y: Slot| #[trigger] n.live(y) implies !((slot_range(
                    g,
                    n.contents,
                    y,
                )->0).0 <= h < (slot_range(g, n.contents, y)->0).1) by {
                    lemma_slot_old_or_new(s, n, i, j, new, k, src, y);
                }
            }
        }
    }
}

/// A byte of a grain that gained a place lies outside the tables' sectors.
proof fn lemma_new_byte_apart(s: State, n: State, gi: int, new: u32, k: int, src: Seq<u8>, u: int)
    requires
        s.tidy(),
        s.geometry().has_grain(gi),
        s.entry(gi) is Ok,
        s.table_held(gi),
        s.gains(
            &n,
            gi / s.geometry().per_table,
            gi % s.geometry().per_table,
            new,
            k,
            src,
        ),
        n.geometry() == s.geometry(),
        n.guarded(),
        n.spread(),
        0 <= u < s.geometry().virtual_size,
        u / s.geometry().grain_bytes == gi,
    ensures
        n.byte_apart(u),
{
    let g = s.geometry();
    let i = gi / g.per_table;
    let j = gi % g.per_table;
    let h = new * 512 + u % g.grain_bytes;
    lemma_byte_in_grain(g, u);
    lemma_grain_index(g, gi);
    lemma_gains_state(s, n, gi, new, k, src, gi);
    assert(n.host_byte(u) == Some(h));
    assert forall|y: Slot| #[trigger] n.live(y) implies !((slot_range(g, n.contents, y)->0).0 <= h
        < (slot_range(g, n.contents, y)->0).1) by {
        let r = slot_range(g, n.contents, y)->0;
        let t = match y {
            Slot::Table(l) => table_sector(g, n.contents, l),
            Slot::Copy(l) => copy_sector(g, n.contents, l),
            Slot::Grain(_) => 0u32,
        };
        assert(r.0 == t * 512);
        assert forall|b: int| r.0 <= b < r.0 + 4 * g.per_table implies #[trigger] n.tables.contains(
            b,
        ) by {
            assert(n.live(y));
        }
        assert(!hits(n.tables, new * 512, new * 512 + g.grain_bytes)) by {
            reveal(State::gains);
        }
        lemma_clear(n.tables, new * 512, new * 512 + g.grain_bytes, r.0, r.0 + 4 * g.per_table);
        lemma_clear_of_sectors(new, g.grain_bytes, t, 4 * g.per_table);
    }
}

/// A write in place leaves the tables spread.
proof fn lemma_in_place_spread(s: State, off: int, data: Seq<u8>)
    requires
        s.grounded(),
        s.spread(),
        0 <= off,
        0 < data.len(),
        !hits(s.fixed, off, off + data.len()),
    ensures
        s.wrote(off, data).spread(),
        s.grown(&s.wrote(off, data)),
        forall|x: Slot| #[trigger]
            s.wrote(off, data).live(x) ==> s.live(x) && slot_range(
                s.geometry(),
                s.wrote(off, data).contents,
                x,
            ) == slot_range(s.geometry(), s.contents, x),
{
    let g = s.geometry();
    let n = s.wrote(off, data);
    lemma_clear_write(s, off, data);
    assert forall|x: Slot| #[trigger] n.live(x) implies s.live(x) && slot_range(g, n.contents, x)
        == slot_range(g, s.contents, x) by {
        match x {
            Slot::Table(l) => assert(table_sector(g, n.contents, l) == table_sector(
                g,
                s.contents,
                l,
            )),
            Slot::Copy(l) => assert(copy_sector(g, n.contents, l) == copy_sector(
                g,
                s.contents,
                l,
            )),
            Slot::Grain(_) => {},
        }
    }
}

/// A grain that is given a place leaves the tables of a tidy image spread.
proof fn lemma_new_grain_tidy(s: State, i: int, j: int, k: int, src: Seq<u8>)
    requires
        s.tidy(),
        0 <= i < s.geometry().tables,
        table_sector(s.geometry(), s.contents, i) == 0 || s.table_refusal(
            table_sector(s.geometry(), s.contents, i),
        ) is None,
        2 <= s.cursor,
        0 <= j < s.geometry().per_table,
        0 <= k,
        0 < src.len(),
        k + src.len() <= s.geometry().grain_bytes,
        s.with_new_grain(i, j, k, src).1 is None,
        s.with_new_grain(i, j, k, src).0.guarded(),
        s.with_new_grain(i, j, k, src).0.geometry() == s.geometry(),
    ensures
        s.with_new_grain(i, j, k, src).0.spread(),
        s.grown(&s.with_new_grain(i, j, k, src).0),
{
    let n = s.with_new_grain(i, j, k, src).0;
    assert(s.table_guarded(i) && s.copy_guarded(i));
    lemma_gains(s, i, j, k, src);
    let new = choose|new: u32| #[trigger]
        s.gains(&s.with_new_grain(i, j, k, src).0, i, j, new, k, src);
    assert(n.table_guarded(i));
    lemma_gains_spread(s, n, i, j, new, k, src);
    lemma_gains_grown(s, n, i, j, new, k, src);
}

/// A part of a write leaves a tidy image tidy.
pub(super) proof fn lemma_part_tidy(s: State, v: int, part: Seq<u8>)
    requires
        s.tidy(),
        2 <= s.cursor,
        0 <= v,
        0 < part.len(),
        v % s.geometry().grain_bytes + part.len() <= s.geometry().grain_bytes,
        v + part.len() <= s.geometry().virtual_size,
        s.with_part(v, part).1 is None,
    ensures
        s.with_part(v, part).0.tidy(),
        s.same_session(&s.with_part(v, part).0),
        s.grown(&s.with_part(v, part).0),
{
    reveal(State::with_part);
    let g = s.geometry();
    let gi = v / g.grain_bytes;
    let i = gi / g.per_table;
    let j = gi % g.per_table;
    let k = v % g.grain_bytes;
    lemma_byte_in_grain(g, v);
    lemma_grain_index(g, gi);
    lemma_part_session(s, v, part);
    lemma_part_keeps_protection(s, v, part);
    lemma_entry_says(s, gi);
    assert(s.table_guarded(i) && s.copy_guarded(i));
    let n = s.with_part(v, part).0;
    assert(n.geometry() == g);
    if let GrainState::At(t) = grain_state(g, s.contents, gi) {
        lemma_in_place_spread(s, t * 512 + k, part);
        assert(n == s.wrote(t * 512 + k, part));
    } else {
        assert(n == s.with_new_grain(i, j, k, part).0);
        lemma_new_grain_tidy(s, i, j, k, part);
    }
}

/// What a part of a write leaves of byte `u`.
proof fn lemma_part_byte(s: State, v: int, part: Seq<u8>, u: int)
    requires
        s.tidy(),
        2 <= s.cursor,
        0 <= v,
        0 < part.len(),
        v % s.geometry().grain_bytes + part.len() <= s.geometry().grain_bytes,
        v + part.len() <= s.geometry().virtual_size,
        s.byte_reads(v),
        s.with_part(v, part).1 is None,
        0 <= u < s.geometry().virtual_size,
        s.byte_reads(u),
    ensures
        ({
            let n = s.with_part(v, part).0;
            let g = s.geometry();
            &&& n.byte_reads(u)
            &&& s.host_byte(u) is Some ==> n.host_byte(u) == s.host_byte(u)
                && s.host_byte(u)->0 < s.extent()
            &&& s.host_byte(u) is None ==> n.host_byte(u) is None || (n.host_byte(u)->0
                >= s.extent() && u / g.grain_bytes == v / g.grain_bytes)
            &&& s.byte_apart(u) && (v <= u < v + part.len() || (forall|w: int|
                v <= w < v + part.len() && w / g.grain_bytes != u / g.grain_bytes
                    ==> s.host_byte(u) is None || #[trigger] s.host_byte(w) != s.host_byte(u)))
                ==> n.byte_apart(u) && n.disk()[u] == overlaid(s.disk(), v, part)[u]
        }),
{
    reveal(State::with_part);
    let g = s.geometry();
    let gb = g.grain_bytes;
    let gi = v / gb;
    let i = gi / g.per_table;
    let j = gi % g.per_table;
    let k = v % gb;
    lemma_byte_in_grain(g, v);
    lemma_byte_in_grain(g, u);
    lemma_grain_index(g, gi);
    lemma_grain_index(g, u / gb);
    lemma_part_tidy(s, v, part);
    lemma_entry_says(s, gi);
    lemma_entry_says(s, u / gb);
    assert(s.table_guarded(i) && s.copy_guarded(i) && s.table_guarded(u / gb / g.per_table));
    let n = s.with_part(v, part).0;
    assert(n.geometry() == g);
    assert(k + part.len() <= g.used(gi));
    if let GrainState::At(t) = grain_state(g, s.contents, gi) {
        let off = t * 512 + k;
        lemma_in_place_byte(s, v, part, u);
        lemma_in_place_spread(s, off, part);
    } else {
        lemma_gains(s, i, j, k, part);
        let new = choose|new: u32| #[trigger]
            s.gains(&s.with_new_grain(i, j, k, part).0, i, j, new, k, part);
        lemma_gain_byte(s, n, gi, new, k, part, u);
    }
}

/// What a write leaves of byte `u`.
proof fn lemma_data_byte(s: State, v: int, data: Seq<u8>, u: int)
    requires
        s.tidy(),
        2 <= s.cursor,
        0 <= v,
        v + data.len() <= s.geometry().virtual_size,
        forall|w: int| v <= w < v + data.len() ==> #[trigger] s.byte_reads(w),
        s.with_data(v, data) matches Some((_, refusal)) && refusal is None,
        0 <= u < s.geometry().virtual_size,
        s.byte_reads(u),
        s.byte_apart(u),
        forall|w: int|
            v <= w < v + data.len() && w / s.geometry().grain_bytes != u
                / s.geometry().grain_bytes ==> s.host_byte(u) is None || #[trigger] s.host_byte(w)
                != s.host_byte(u),
    ensures
        ({
            let n = (s.with_data(v, data)->0).0;
            &&& n.tidy()
            &&& s.same_session(&n)
            &&& s.grown(&n)
            &&& n.byte_reads(u)
            &&& n.disk()[u] == overlaid(s.disk(), v, data)[u]
        }),
    decreases data.len(),
{
    let g = s.geometry();
    let gb = g.grain_bytes;
    let n = s.chunk_len(v, v + data.len());
    if data.len() > 0 {
        lemma_byte_in_grain(g, v);
        lemma_byte_in_grain(g, u);
        let gi = v / gb;
        let k = v % gb;
        assert(0 < n <= data.len() && k + n <= gb);
        let part = data.subrange(0, n);
        let rest = data.subrange(n, data.len() as int);
        let a = s.with_part(v, part).0;
        assert(s.guarded_at(gi) && s.with_part(v, part).1 is None);
        assert(s.byte_reads(v));
        lemma_part_tidy(s, v, part);
        lemma_part_byte(s, v, part, u);
        assert forall|w: int| v + n <= w < v + data.len() implies #[trigger] a.byte_reads(w) by {
            assert(s.byte_reads(w));
            lemma_part_byte(s, v, part, w);
        }
        assert forall|w: int|
            v + n <= w < v + data.len() && w / gb != u / gb implies a.host_byte(u) is None
            || #[trigger] a.host_byte(w) != a.host_byte(u) by {
            assert(s.byte_reads(w));
            lemma_part_byte(s, v, part, w);
            lemma_next_grain(v, n, v + data.len(), gb, w);
            assert(s.host_byte(u) is None || s.host_byte(w) != s.host_byte(u));
        }
        lemma_data_byte(a, v + n, rest, u);
        let z = (a.with_data(v + n, rest)->0).0;
        assert(z == (s.with_data(v, data)->0).0);
        assert(z.disk()[u] == overlaid(a.disk(), v + n, rest)[u]);
    }
}

/// What follows one grain's part of a range lies in later grains.
proof fn lemma_next_grain(v: int, n: int, end: int, gb: int, w: int)
    requires
        0 <= v,
        0 < gb,
        n == (if gb - v % gb < end - v {
            gb - v % gb
        } else {
            end - v
        }),
        v + n <= w < end,
    ensures
        w / gb != v / gb,
{
    vstd::arithmetic::div_mod::lemma_fundamental_div_mod(v, gb);
    vstd::arithmetic::div_mod::lemma_fundamental_div_mod(w, gb);
    vstd::arithmetic::div_mod::lemma_mod_bound(v, gb);
    vstd::arithmetic::div_mod::lemma_mod_bound(w, gb);
    if w / gb == v / gb {
        assert(gb * (w / gb) == gb * (v / gb));
    }
}

/// What the header sector and the descriptor say does not bear on whether
/// an image is tidy.
pub(super) proof fn lemma_tidy_beside_text(s: State, m: State)
    requires
        s.tidy(),
        s.text_only(&m),
    ensures
        m.tidy(),
        s.grown(&m),
{
    let g = s.geometry();
    lemma_guarded_beside_text(s, m);
    lemma_grounded_beside_text(s, m);
    lemma_rooted_beside_text(s, m);
    assert forall|x: Slot| #[trigger] m.live(x) implies s.live(x) && slot_range(g, m.contents, x)
        == slot_range(g, s.contents, x) by {
        match x {
            Slot::Table(l) => assert(table_sector(g, m.contents, l) == table_sector(
                g,
                s.contents,
                l,
            )),
            Slot::Copy(l) => assert(copy_sector(g, m.contents, l) == copy_sector(
                g,
                s.contents,
                l,
            )),
            Slot::Grain(_) => {},
        }
    }
}

/// What a write and its marks leave of byte `u`.
pub(super) proof fn lemma_marked_byte(s: State, n: State, m: State, offset: int, data: Seq<u8>, u: int)
    requires
        s.tidy(),
        0 <= offset,
        offset + data.len() <= s.geometry().virtual_size,
        forall|w: int| offset <= w < offset + data.len() ==> #[trigger] s.byte_reads(w),
        s.with_data(offset, data) == Some((n, None::<Error>)),
        n.text_only(&m),
        0 <= u < s.geometry().virtual_size,
        s.byte_reads(u),
        s.byte_apart(u),
        forall|w: int|
            offset <= w < offset + data.len() && w / s.geometry().grain_bytes != u
                / s.geometry().grain_bytes ==> s.host_byte(u) is None || #[trigger] s.host_byte(w)
                != s.host_byte(u),
    ensures
        m.tidy(),
        s.grown(&m),
        s.same_open(&m),
        m.byte_reads(u),
        m.disk()[u] == overlaid(s.disk(), offset, data)[u],
{
    let g = s.geometry();
    assert(2 <= s.cursor) by {
        lemma_byte_in_grain(g, u);
        lemma_grain_index(g, u / g.grain_bytes);
    }
    lemma_data_byte(s, offset, data, u);
    lemma_tidy_beside_text(n, m);
    lemma_byte_beside_text(n, m, u);
}

/// A write over any number of grains reads back, and every other byte that
/// could be read is as it was, if it shares neither a place with what was
/// written nor a sector with a table. This holds on a tidy image whatever
/// the grains that the write does not come to say: they may be refused, and
/// one may be cut short by the end of the file.
pub proof fn law_readable_bytes_survive_a_write(
    s: State,
    m: State,
    offset: int,
    data: Seq<u8>,
    at: int,
    len: int,
)
    requires
        s.tidy(),
        !s.header.stream(),
        0 <= offset,
        offset + data.len() <= s.geometry().virtual_size <= u64::MAX,
        forall|w: int| offset <= w < offset + data.len() ==> #[trigger] s.byte_reads(w),
        s.with_data(offset, data) matches Some((n, refusal)) && refusal is None && n.text_only(&m),
        0 <= at,
        0 <= len,
        at + len <= s.geometry().virtual_size,
        forall|u: int| at <= u < at + len ==> #[trigger] s.byte_reads(u) && s.byte_apart(u),
        forall|u: int, w: int|
            at <= u < at + len && offset <= w < offset + data.len() && u
                / s.geometry().grain_bytes != w / s.geometry().grain_bytes ==> s.host_byte(u) is None
                || #[trigger] s.host_byte(w) != #[trigger] s.host_byte(u),
    ensures
        s.read(at, len) == Ok::<Seq<u8>, Error>(s.disk().subrange(at, at + len)),
        m.read(at, len) == Ok::<Seq<u8>, Error>(
            overlaid(s.disk(), offset, data).subrange(at, at + len),
        ),
        m.reliable ==> m.served_for(at, at + len),
{
    let g = s.geometry();
    let n = (s.with_data(offset, data)->0).0;
    let want = overlaid(s.disk(), offset, data);
    law_reading_readable_bytes(s, at, len);
    assert forall|u: int| at <= u < at + len implies #[trigger] m.byte_reads(u) && m.disk()[u]
        == want[u] && s.same_open(&m) by {
        assert(s.byte_reads(u));
        lemma_marked_byte(s, n, m, offset, data, u);
    }
    if len > 0 {
        assert(m.byte_reads(at));
        lemma_reads_as(m, want, at, len);
    } else {
        assert(want.subrange(at, at + len) =~= Seq::<u8>::empty());
    }
}

} // verus!
