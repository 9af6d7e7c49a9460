//! The redundant copy of the grain map, entry by entry: where a grain that
//! is given a place stands in both.

use super::bytewise::lemma_part_tidy;
use super::damage::law_merging_a_copy;
use super::effect::{
    lemma_clear, lemma_clear_write, lemma_part_session, lemma_with_copy, lemma_with_entry,
    lemma_with_grain, usable,
};
use super::orderly::{lemma_gains, lemma_tabled, lemma_touched_grain, touches};
use super::state::{bytes_at, hits, State};
use crate::bytes::{law_le32_round_trip, le32_bytes};
use crate::device::written;
use crate::error::Error;
use crate::numbers::reading::{leads_nowhere, pointer_for, reached, table_for};
use crate::numbers::{law_integers_are_sums_of_bytes, law_what_the_flags_mean, u32_at};
use crate::image::{
    apart, copy_sector, entry_at, grain_entry, lemma_byte_in_grain, lemma_entry_kept,
    lemma_grain_index, table_sector, GrainState, Slot,
};
use vstd::prelude::*;

verus! {

impl State {
    /// Whether grain `gi` has a place, and the redundant copy of its table
    /// names the same one; neither the table nor the copy is refused.
    pub open spec fn in_both(&self, gi: int) -> bool {
        let g = self.geometry();
        let i = gi / g.per_table;
        let j = gi % g.per_table;
        let t = table_sector(g, self.contents, i);
        let q = copy_sector(g, self.contents, i);
        &&& t != 0
        &&& q != 0
        &&& self.table_refusal(t) is None
        &&& self.copy_refusal(q) is None
        &&& g.meaning(entry_at(self.contents, t * 512, j)) is At
        &&& entry_at(self.contents, q * 512, j) == entry_at(self.contents, t * 512, j)
    }
}

/// What a copy that was prepared holds: every entry that it had, and where
/// it had none, or there was no copy, that of the table.
proof fn lemma_copy_filled(s: State, i: int, l: int)
    requires
        usable(s, i),
        s.redundant,
        s.with_copy(i).1 is None,
        0 <= l < s.geometry().per_table,
        copy_sector(s.geometry(), s.contents, i) != 0,
        entry_at(s.contents, copy_sector(s.geometry(), s.contents, i) * 512, l) != 0,
    ensures
        copy_sector(s.geometry(), s.with_copy(i).0.contents, i) == copy_sector(
            s.geometry(),
            s.contents,
            i,
        ),
        entry_at(
            s.with_copy(i).0.contents,
            copy_sector(s.geometry(), s.contents, i) * 512,
            l,
        ) == entry_at(s.contents, copy_sector(s.geometry(), s.contents, i) * 512, l),
{
    let g = s.geometry();
    let p = table_sector(g, s.contents, i);
    let q = copy_sector(g, s.contents, i);
    lemma_with_copy(s, i);
    if !s.merged.contains(i) {
        law_merging_a_copy(s, p, q);
        let n = s.merged_into(p, q);
        assert(4 * g.per_table <= g.table_span());
        assert(entry_at(n.contents, q * 512, l) == entry_at(s.contents, q * 512, l));
    }
}

/// What placing a grain in a table leaves in the table's copy: the new place
/// in its entry, and the other entries that the copy had.
proof fn lemma_copy_after(s: State, i: int, j: int, k: int, src: Seq<u8>, l: int)
    requires
        usable(s, i),
        s.redundant,
        2 <= s.cursor,
        0 <= j < s.geometry().per_table,
        0 <= l < s.geometry().per_table,
        0 <= k,
        0 < src.len(),
        k + src.len() <= s.geometry().grain_bytes,
        s.with_grain_in_table(i, j, k, src).1 is None,
    ensures
        ({
            let g = s.geometry();
            let n = s.with_grain_in_table(i, j, k, src).0;
            let t = table_sector(g, n.contents, i);
            let q = copy_sector(g, n.contents, i);
            let q0 = copy_sector(g, s.contents, i);
            &&& q != 0
            &&& entry_at(n.contents, q * 512, j) == entry_at(n.contents, t * 512, j)
            &&& l != j && q0 != 0 && entry_at(s.contents, q0 * 512, l) != 0 ==> q == q0 && entry_at(
                n.contents,
                q * 512,
                l,
            ) == entry_at(s.contents, q0 * 512, l)
        }),
{
    reveal(State::with_grain_in_table);
    let g = s.geometry();
    lemma_with_copy(s, i);
    let b = s.with_copy(i).0;
    lemma_with_grain(b, i, k, src);
    let c = b.with_grain(k, src).0;
    let new = b.cursor as u32;
    lemma_with_entry(c, i, j, new);
    let n = c.with_entry(i, j, new);
    let p = table_sector(g, c.contents, i);
    let q = copy_sector(g, c.contents, i);
    assert(q == copy_sector(g, b.contents, i));
    assert(4 * g.per_table <= g.table_span());
    let a = c.wrote(q * 512 + 4 * j, le32_bytes(new)).synced();
    law_le32_round_trip(new);
    let d = le32_bytes(new);
    let at = q * 512 + 4 * j;
    assert(a.contents[at] == d[0] && a.contents[at + 1] == d[1] && a.contents[at + 2] == d[2]
        && a.contents[at + 3] == d[3]);
    assert(entry_at(a.contents, q * 512, j) == new);
    assert(apart((p * 512, p * 512 + g.table_span()), (q * 512, q * 512 + g.table_span())));
    lemma_entry_kept(a.contents, p * 512 + 4 * j, d, q * 512, j);
    assert(entry_at(n.contents, q * 512, j) == new);
    assert(copy_sector(g, n.contents, i) == q);
    assert(table_sector(g, n.contents, i) == p);
    let q0 = copy_sector(g, s.contents, i);
    if l != j && q0 != 0 && entry_at(s.contents, q0 * 512, l) != 0 {
        lemma_copy_filled(s, i, l);
        assert(q == q0);
        assert(entry_at(c.contents, q * 512, l) == entry_at(b.contents, q * 512, l)) by {
            assert(q * 512 + g.table_span() <= b.extent());
            assert(q * 512 + g.table_span() <= b.contents.len());
        }
        lemma_entry_kept(c.contents, at, d, q * 512, l);
        lemma_entry_kept(a.contents, p * 512 + 4 * j, d, q * 512, l);
    }
}

/// A grain that is given a place stands in both maps.
proof fn lemma_new_grain_in_both(s: State, gi: int, k: int, src: Seq<u8>)
    requires
        s.grounded(),
        s.redundant,
        s.geometry().has_grain(gi),
        s.table_guarded(gi / s.geometry().per_table),
        s.copy_guarded(gi / s.geometry().per_table),
        s.entry(gi) is Ok,
        2 <= s.cursor,
        0 <= k,
        0 < src.len(),
        k + src.len() <= s.geometry().grain_bytes,
        s.with_new_grain(
            gi / s.geometry().per_table,
            gi % s.geometry().per_table,
            k,
            src,
        ).1 is None,
    ensures
        s.with_new_grain(
            gi / s.geometry().per_table,
            gi % s.geometry().per_table,
            k,
            src,
        ).0.in_both(gi),
{
    let g = s.geometry();
    let i = gi / g.per_table;
    let j = gi % g.per_table;
    lemma_grain_index(g, gi);
    let n = s.with_new_grain(i, j, k, src).0;
    lemma_gains(s, i, j, k, src);
    let new = choose|new: u32| #[trigger]
        s.gains(&s.with_new_grain(i, j, k, src).0, i, j, new, k, src);
    reveal(State::gains);
    assert(n.geometry() == g);
    if table_sector(g, s.contents, i) == 0 {
        lemma_tabled(s, i);
        let a = s.with_table(i).0;
        assert(a.redundant) by {
            assert(a.geometry() == g);
        }
        lemma_copy_after(a, i, j, k, src, j);
    } else {
        lemma_copy_after(s, i, j, k, src, j);
    }
    let u = table_sector(g, n.contents, i);
    assert(entry_at(n.contents, u * 512, j) == new);
}

/// A grain that stands in both maps stands in both after another is given a
/// place.
proof fn lemma_new_grain_keeps_both(s: State, gi: int, k: int, src: Seq<u8>, gj: int)
    requires
        s.tidy(),
        s.redundant,
        s.geometry().has_grain(gi),
        s.geometry().has_grain(gj),
        gi != gj,
        s.in_both(gj),
        s.entry(gi) is Ok,
        2 <= s.cursor,
        0 <= k,
        0 < src.len(),
        k + src.len() <= s.geometry().grain_bytes,
        s.with_new_grain(
            gi / s.geometry().per_table,
            gi % s.geometry().per_table,
            k,
            src,
        ).1 is None,
        s.with_new_grain(
            gi / s.geometry().per_table,
            gi % s.geometry().per_table,
            k,
            src,
        ).0.grounded(),
    ensures
        s.with_new_grain(
            gi / s.geometry().per_table,
            gi % s.geometry().per_table,
            k,
            src,
        ).0.in_both(gj),
{
    let g = s.geometry();
    let i = gi / g.per_table;
    let j = gi % g.per_table;
    let h = gj / g.per_table;
    let l = gj % g.per_table;
    lemma_grain_index(g, gi);
    lemma_grain_index(g, gj);
    let n = s.with_new_grain(i, j, k, src).0;
    assert(s.table_guarded(i) && s.copy_guarded(i) && s.table_guarded(h) && s.copy_guarded(h));
    lemma_gains(s, i, j, k, src);
    let new = choose|new: u32| #[trigger]
        s.gains(&s.with_new_grain(i, j, k, src).0, i, j, new, k, src);
    reveal(State::gains);
    assert(n.geometry() == g);
    assert(n.fixed == s.fixed);
    let t = table_sector(g, s.contents, h);
    let q = copy_sector(g, s.contents, h);
    assert(4 * g.per_table <= g.table_span());
    if h == i {
        assert(l != j);
        assert(grain_entry(g, s.contents, i, l) == entry_at(s.contents, t * 512, l));
        assert(entry_at(n.contents, t * 512, l) == entry_at(s.contents, t * 512, l));
        assert(entry_at(s.contents, q * 512, l) != 0);
        lemma_copy_after(s, i, j, k, src, l);
    } else {
        let ti = table_sector(g, s.contents, i);
        assert(table_sector(g, n.contents, h) == t && copy_sector(g, n.contents, h) == q);
        assert(s.live(Slot::Table(h)) && s.live(Slot::Copy(h)));
        assert forall|b: int| t * 512 <= b < t * 512 + g.table_span() || q * 512 <= b < q * 512
            + g.table_span() implies #[trigger] n.contents[b] == s.contents[b] by {
            assert(!s.fixed.contains(b));
            if s.in_copy(i, b) {
                assert(s.live(Slot::Copy(i)));
                assert(Slot::Copy(i) != Slot::Copy(h) && Slot::Copy(i) != Slot::Table(h));
            }
            if ti != 0 && ti * 512 <= b < ti * 512 + g.table_span() {
                assert(s.live(Slot::Table(i)));
                assert(Slot::Table(i) != Slot::Copy(h) && Slot::Table(i) != Slot::Table(h));
            }
        }
        assert(entry_at(n.contents, t * 512, l) == entry_at(s.contents, t * 512, l));
        assert(entry_at(n.contents, q * 512, l) == entry_at(s.contents, q * 512, l));
    }
}

/// A grain that stands in both maps stands in both after a write in place.
proof fn lemma_in_place_keeps_both(s: State, off: int, part: Seq<u8>, gj: int)
    requires
        s.tidy(),
        s.redundant,
        s.geometry().has_grain(gj),
        s.in_both(gj),
        0 <= off,
        0 < part.len(),
        !hits(s.fixed, off, off + part.len()),
        !hits(s.tables, off, off + part.len()),
    ensures
        s.wrote(off, part).in_both(gj),
{
    let g = s.geometry();
    let h = gj / g.per_table;
    let l = gj % g.per_table;
    lemma_grain_index(g, gj);
    lemma_clear_write(s, off, part);
    assert(s.table_guarded(h) && s.copy_guarded(h));
    let t = table_sector(g, s.contents, h);
    let q = copy_sector(g, s.contents, h);
    assert(s.live(Slot::Table(h)) && s.live(Slot::Copy(h)));
    assert(4 * g.per_table <= g.table_span());
    lemma_clear(s.tables, off, off + part.len(), t * 512, t * 512 + 4 * g.per_table);
    lemma_clear(s.tables, off, off + part.len(), q * 512, q * 512 + 4 * g.per_table);
    lemma_entry_kept(s.contents, off, part, t * 512, l);
    lemma_entry_kept(s.contents, off, part, q * 512, l);
}

/// A part of a write leaves in both maps every grain that was, and the one
/// it gives a place.
proof fn lemma_part_in_both(s: State, v: int, part: Seq<u8>, gj: int)
    requires
        s.tidy(),
        s.redundant,
        2 <= s.cursor,
        0 <= v,
        0 < part.len(),
        v % s.geometry().grain_bytes + part.len() <= s.geometry().grain_bytes,
        v + part.len() <= s.geometry().virtual_size,
        s.with_part(v, part).1 is None,
        s.geometry().has_grain(gj),
    ensures
        s.in_both(gj) || (gj == v / s.geometry().grain_bytes && !s.has_place(gj)) ==> s.with_part(
            v,
            part,
        ).0.in_both(gj),
        gj != v / s.geometry().grain_bytes && s.entry(gj) is Ok && !s.has_place(gj) ==> {
            let n = s.with_part(v, part).0;
            n.entry(gj) is Ok && !n.has_place(gj)
        },
{
    reveal(State::with_part);
    let g = s.geometry();
    let gi = v / g.grain_bytes;
    let i = gi / g.per_table;
    let j = gi % g.per_table;
    let k = v % g.grain_bytes;
    lemma_byte_in_grain(g, v);
    lemma_grain_index(g, gi);
    lemma_grain_index(g, gj);
    lemma_part_session(s, v, part);
    lemma_part_tidy(s, v, part);
    assert(s.table_guarded(i) && s.copy_guarded(i));
    let n = s.with_part(v, part).0;
    if let GrainState::At(t) = g.meaning(s.entry(gi)->Ok_0) {
        let off = t * 512 + k;
        if s.in_both(gj) {
            lemma_in_place_keeps_both(s, off, part, gj);
        }
        lemma_entry_stays(s, n, off, part, gj);
    } else {
        if gj == gi {
            lemma_new_grain_in_both(s, gi, k, part);
        } else {
            if s.in_both(gj) {
                lemma_new_grain_keeps_both(s, gi, k, part, gj);
            }
            lemma_vacancy_stays(s, gi, k, part, gj);
        }
    }
}

proof fn lemma_entry_stays(s: State, n: State, off: int, part: Seq<u8>, gj: int)
    requires
        s.tidy(),
        s.geometry().has_grain(gj),
        0 <= off,
        0 < part.len(),
        !hits(s.fixed, off, off + part.len()),
        !hits(s.tables, off, off + part.len()),
        n == s.wrote(off, part),
    ensures
        n.entry(gj) == s.entry(gj),
{
    let g = s.geometry();
    let h = gj / g.per_table;
    let l = gj % g.per_table;
    lemma_grain_index(g, gj);
    lemma_clear_write(s, off, part);
    let t = table_sector(g, s.contents, h);
    if t != 0 && s.table_refusal(t) is None {
        assert(s.table_guarded(h));
        lemma_clear(s.tables, off, off + part.len(), t * 512, t * 512 + 4 * g.per_table);
        lemma_entry_kept(s.contents, off, part, t * 512, l);
    }
}

/// A grain that is not refused and has no place has none after another is
/// given one.
proof fn lemma_vacancy_stays(s: State, gi: int, k: int, src: Seq<u8>, gj: int)
    requires
        s.tidy(),
        s.geometry().has_grain(gi),
        s.geometry().has_grain(gj),
        gi != gj,
        s.entry(gi) is Ok,
        2 <= s.cursor,
        0 <= k,
        0 < src.len(),
        k + src.len() <= s.geometry().grain_bytes,
        s.with_new_grain(
            gi / s.geometry().per_table,
            gi % s.geometry().per_table,
            k,
            src,
        ).1 is None,
    ensures
        s.entry(gj) is Ok && !s.has_place(gj) ==> {
            let n = s.with_new_grain(
                gi / s.geometry().per_table,
                gi % s.geometry().per_table,
                k,
                src,
            ).0;
            n.entry(gj) is Ok && !n.has_place(gj)
        },
{
    let g = s.geometry();
    let i = gi / g.per_table;
    let j = gi % g.per_table;
    let h = gj / g.per_table;
    let l = gj % g.per_table;
    lemma_grain_index(g, gi);
    lemma_grain_index(g, gj);
    let n = s.with_new_grain(i, j, k, src).0;
    assert(s.table_guarded(i) && s.copy_guarded(i) && s.table_guarded(h));
    lemma_gains(s, i, j, k, src);
    let new = choose|new: u32| #[trigger]
        s.gains(&s.with_new_grain(i, j, k, src).0, i, j, new, k, src);
    reveal(State::gains);
    assert(n.geometry() == g);
    assert(n.fixed == s.fixed);
    let t = table_sector(g, s.contents, h);
    assert(4 * g.per_table <= g.table_span());
    if s.entry(gj) is Ok && !s.has_place(gj) {
        if h == i {
            assert(l != j);
            let u = table_sector(g, n.contents, i);
            assert(entry_at(n.contents, u * 512, l) == grain_entry(g, s.contents, i, l));
        } else if t != 0 {
            let ti = table_sector(g, s.contents, i);
            assert(table_sector(g, n.contents, h) == t);
            assert(s.live(Slot::Table(h)));
            assert forall|b: int| t * 512 <= b < t * 512 + g.table_span() implies
                #[trigger] n.contents[b] == s.contents[b] by {
                assert(!s.fixed.contains(b));
                if s.in_copy(i, b) {
                    assert(s.live(Slot::Copy(i)));
                    assert(Slot::Copy(i) != Slot::Table(h));
                }
                if ti != 0 && ti * 512 <= b < ti * 512 + g.table_span() {
                    assert(s.live(Slot::Table(i)));
                    assert(Slot::Table(i) != Slot::Table(h));
                }
            }
            assert(entry_at(n.contents, t * 512, l) == entry_at(s.contents, t * 512, l));
        } else {
            assert(table_sector(g, n.contents, h) == 0);
        }
    }
}

proof fn lemma_data_in_both(s: State, v: int, data: Seq<u8>, gj: int)
    requires
        s.tidy(),
        s.redundant,
        2 <= s.cursor,
        0 <= v,
        v + data.len() <= s.geometry().virtual_size,
        s.geometry().has_grain(gj),
        s.with_data(v, data) matches Some((n, refusal)) && refusal is None,
    ensures
        s.in_both(gj) || (touches(s.geometry(), v, data.len() as int, gj) && s.entry(gj) is Ok
            && !s.has_place(gj)) ==> (s.with_data(v, data)->0).0.in_both(gj),
    decreases data.len(),
{
    let g = s.geometry();
    let n = s.chunk_len(v, v + data.len());
    if data.len() > 0 {
        lemma_byte_in_grain(g, v);
        let gi = v / g.grain_bytes;
        lemma_grain_index(g, gi);
        assert(0 < n <= data.len());
        let part = data.subrange(0, n);
        let rest = data.subrange(n, data.len() as int);
        lemma_part_tidy(s, v, part);
        lemma_part_in_both(s, v, part, gj);
        lemma_touched_grain(g, v, n, gj);
        let a = s.with_part(v, part).0;
        lemma_data_in_both(a, v + n, rest, gj);
    }
}

/// Every grain that a write gives a place stands in both maps afterwards, on
/// any image whose metadata is in order, and every grain that stood in both
/// still does.
pub proof fn law_placed_grains_stand_in_both_maps(
    s: State,
    m: State,
    offset: int,
    data: Seq<u8>,
    gi: int,
)
    requires
        s.tidy(),
        s.redundant,
        2 <= s.cursor,
        0 <= offset,
        offset + data.len() <= s.geometry().virtual_size,
        s.with_data(offset, data) matches Some((n, refusal)) && refusal is None && n.text_only(&m),
        s.geometry().has_grain(gi),
        s.in_both(gi) || (touches(s.geometry(), offset, data.len() as int, gi) && s.entry(gi) is Ok
            && !s.has_place(gi)),
    ensures
        m.in_both(gi),
{
    let g = s.geometry();
    lemma_data_in_both(s, offset, data, gi);
    lemma_data_keeps_tidy(s, offset, data);
    let n = (s.with_data(offset, data)->0).0;
    lemma_both_beside_text(n, m, gi);
}

proof fn lemma_data_keeps_tidy(s: State, v: int, data: Seq<u8>)
    requires
        s.tidy(),
        2 <= s.cursor,
        0 <= v,
        v + data.len() <= s.geometry().virtual_size,
        s.with_data(v, data) matches Some((n, refusal)) && refusal is None,
    ensures
        (s.with_data(v, data)->0).0.tidy(),
        s.same_session(&(s.with_data(v, data)->0).0),
    decreases data.len(),
{
    let g = s.geometry();
    let n = s.chunk_len(v, v + data.len());
    if data.len() > 0 {
        lemma_byte_in_grain(g, v);
        assert(0 < n <= data.len());
        let part = data.subrange(0, n);
        let rest = data.subrange(n, data.len() as int);
        lemma_part_tidy(s, v, part);
        lemma_data_keeps_tidy(s.with_part(v, part).0, v + n, rest);
    }
}

proof fn lemma_both_beside_text(n: State, m: State, gi: int)
    requires
        n.tidy(),
        n.text_only(&m),
        n.redundant,
        n.geometry().has_grain(gi),
        n.in_both(gi),
    ensures
        m.in_both(gi),
{
    let g = n.geometry();
    let i = gi / g.per_table;
    let j = gi % g.per_table;
    lemma_grain_index(g, gi);
    assert(m.geometry() == g);
    super::beside_text::lemma_grounded_beside_text(n, m);
    let t = table_sector(g, n.contents, i);
    let q = copy_sector(g, n.contents, i);
    assert(n.table_guarded(i) && n.copy_guarded(i));
    assert(4 * g.per_table <= g.table_span());
    assert forall|b: int| 0 <= b < n.contents.len() && !n.fixed.contains(b) implies
        #[trigger] m.contents[b] == n.contents[b] by {
        assert(!n.is_text(b));
    }
    assert forall|b: int| t * 512 <= b < t * 512 + g.table_span() || q * 512 <= b < q * 512
        + g.table_span() implies #[trigger] m.contents[b] == n.contents[b] by {
        assert(!n.fixed.contains(b));
    }
    assert(table_sector(g, m.contents, i) == t && copy_sector(g, m.contents, i) == q);
    assert(entry_at(m.contents, t * 512, j) == entry_at(n.contents, t * 512, j));
    assert(entry_at(m.contents, q * 512, j) == entry_at(n.contents, q * 512, j));
}

/// A table that was just placed is there, and so is a copy of it that is not
/// refused, in an image that has copies.
pub proof fn lemma_fresh_table(s: State, i: int)
    requires
        s.grounded(),
        2 <= s.cursor,
        0 <= i < s.geometry().tables,
        table_sector(s.geometry(), s.contents, i) == 0,
        s.with_table(i).1 is None,
    ensures
        ({
            let a = s.with_table(i).0;
            let q = copy_sector(a.geometry(), a.contents, i);
            &&& table_sector(a.geometry(), a.contents, i) != 0
            &&& q != 0 ==> a.copy_refusal(q) is None
            &&& a.header == s.header
            &&& 0 <= a.cursor
        }),
{
    lemma_tabled(s, i);
    super::effect::lemma_table_session(s, i);
    if s.redundant {
        super::orderly::lemma_new_copy_kept(s, s.with_table(i).0, i);
    }
}

/// What a copy that was merged holds in entry `l`.
proof fn lemma_merged_entry(s: State, i: int, l: int)
    requires
        usable(s, i),
        s.redundant,
        !s.merged.contains(i),
        s.with_copy(i).1 is None,
        0 <= l < s.geometry().per_table,
        copy_sector(s.geometry(), s.contents, i) != 0,
    ensures
        ({
            let g = s.geometry();
            let n = s.with_copy(i).0;
            let p = table_sector(g, s.contents, i);
            let q = copy_sector(g, s.contents, i);
            &&& copy_sector(g, n.contents, i) == q
            &&& entry_at(n.contents, q * 512, l) == (if entry_at(s.contents, q * 512, l) != 0 {
                entry_at(s.contents, q * 512, l)
            } else {
                entry_at(s.contents, p * 512, l)
            })
        }),
{
    let g = s.geometry();
    let p = table_sector(g, s.contents, i);
    let q = copy_sector(g, s.contents, i);
    lemma_with_copy(s, i);
    assert(4 * g.per_table <= g.table_span());
    law_merging_a_copy(s, p, q);
    assert(s.with_copy(i).0.contents == s.merged_into(p, q).contents);
    assert(0 <= l < g.table_span() / 4);
}

/// What a copy that was seeded holds in entry `l`.
proof fn lemma_seeded_entry(s: State, i: int, l: int)
    requires
        usable(s, i),
        s.redundant,
        s.with_copy(i).1 is None,
        0 <= l < s.geometry().per_table,
        copy_sector(s.geometry(), s.contents, i) == 0,
    ensures
        ({
            let g = s.geometry();
            let n = s.with_copy(i).0;
            let p = table_sector(g, s.contents, i);
            let q = copy_sector(g, n.contents, i);
            &&& q != 0
            &&& entry_at(n.contents, q * 512, l) == entry_at(s.contents, p * 512, l)
        }),
{
    let g = s.geometry();
    let n = s.with_copy(i).0;
    let p = table_sector(g, s.contents, i);
    let span = g.table_span();
    lemma_with_copy(s, i);
    assert(s.extent() == s.cursor * 512);
    assert(copy_sector(g, n.contents, i) == s.cursor as u32);
    assert(s.table_guarded(i));
    let q = s.cursor;
    let b = s.with_blank_table();
    let t = bytes_at(b.contents, p * 512, span);
    let w = b.wrote(q * 512, t).synced();
    let at = s.directory_at(true) + 4 * i;
    assert(n.contents == written(w.contents, at, le32_bytes(q as u32)));
    assert(at + 4 <= q * 512);
    law_le32_round_trip(q as u32);
    assert forall|x: int| 0 <= x < 4 * g.per_table implies #[trigger] n.contents[q * 512 + x]
        == s.contents[p * 512 + x] by {
        assert(w.contents[q * 512 + x] == t[x]);
        assert(b.contents[p * 512 + x] == s.contents[p * 512 + x]);
    }
    assert(n.contents[q * 512 + 4 * l] == s.contents[p * 512 + 4 * l]);
    assert(n.contents[q * 512 + (4 * l + 1)] == s.contents[p * 512 + (4 * l + 1)]);
    assert(n.contents[q * 512 + (4 * l + 2)] == s.contents[p * 512 + (4 * l + 2)]);
    assert(n.contents[q * 512 + (4 * l + 3)] == s.contents[p * 512 + (4 * l + 3)]);
}

/// A redundant copy that a write has prepared lacks no entry that its table
/// has, keeps every entry it had, and leaves the table as it was.
pub proof fn law_a_copy_is_brought_up(s: State, i: int, l: int)
    requires
        usable(s, i),
        s.redundant,
        !s.merged.contains(i),
        s.with_copy(i).1 is None,
        0 <= l < s.header.num_gtes_per_gt,
    ensures
        ({
            let n = s.with_copy(i).0;
            let gd = s.header.gd_offset * 512 + 4 * i;
            let rgd = s.header.rgd_offset * 512 + 4 * i;
            let p = u32_at(s.contents, gd) * 512;
            let q0 = u32_at(s.contents, rgd) * 512;
            let q = u32_at(n.contents, rgd) * 512;
            &&& u32_at(n.contents, gd) * 512 == p
            &&& q > 0
            &&& q0 > 0 ==> q == q0
            &&& u32_at(n.contents, p + 4 * l) == u32_at(s.contents, p + 4 * l)
            &&& u32_at(n.contents, q + 4 * l) == (if q0 > 0 && u32_at(s.contents, q0 + 4 * l) != 0 {
                u32_at(s.contents, q0 + 4 * l)
            } else {
                u32_at(s.contents, p + 4 * l)
            })
        }),
{
    let g = s.geometry();
    let n = s.with_copy(i).0;
    lemma_with_copy(s, i);
    let p = table_sector(g, s.contents, i);
    let q0 = copy_sector(g, s.contents, i);
    let q = copy_sector(g, n.contents, i);
    assert(4 * g.per_table <= g.table_span());
    assert(table_sector(g, n.contents, i) == p);
    assert(entry_at(n.contents, p * 512, l) == entry_at(s.contents, p * 512, l));
    if q0 != 0 {
        lemma_merged_entry(s, i, l);
    } else {
        lemma_seeded_entry(s, i, l);
    }
    lemma_entries_as_numbers(s.contents, s.header.gd_offset * 512, i, p as int, l);
    lemma_entries_as_numbers(s.contents, s.header.rgd_offset * 512, i, q0 as int, l);
    lemma_entries_as_numbers(n.contents, s.header.gd_offset * 512, i, p as int, l);
    lemma_entries_as_numbers(n.contents, s.header.rgd_offset * 512, i, q as int, l);
}

proof fn lemma_entries_as_numbers(c: Seq<u8>, dir: int, i: int, t: int, l: int)
    ensures
        entry_at(c, dir, i) == u32_at(c, dir + 4 * i),
        entry_at(c, t * 512, l) == u32_at(c, t * 512 + 4 * l),
{
    law_integers_are_sums_of_bytes(c, dir + 4 * i, 0);
    law_integers_are_sums_of_bytes(c, t * 512 + 4 * l, 0);
}

/// A grain that a write gives a place stands past what was the end of the
/// file, whole, and holds what was written and zeros around it.
pub proof fn law_what_a_new_grain_holds(s: State, n: State, v: int, part: Seq<u8>, x: int)
    requires
        s.geometry().wf(),
        2 <= s.cursor,
        0 <= v,
        0 < part.len(),
        v % (s.header.grain_size * 512) + part.len() <= s.header.grain_size * 512,
        v + part.len() <= s.header.capacity * 512,
        reached(s, v),
        leads_nowhere(s, pointer_for(s, v)),
        s.with_data(v, part) == Some((n, None::<Error>)),
        0 <= x < s.header.grain_size * 512,
    ensures
        ({
            let k = v % (s.header.grain_size * 512);
            let at = pointer_for(n, v) * 512;
            &&& !leads_nowhere(n, pointer_for(n, v))
            &&& at >= s.extent()
            &&& at >= n.floor
            &&& at + s.header.grain_size * 512 <= n.contents.len()
            &&& at + s.header.grain_size * 512 <= n.extent()
            &&& n.contents[at + x] == (if k <= x < k + part.len() {
                part[x - k]
            } else {
                0
            })
        }),
{
    reveal(State::with_part);
    let g = s.geometry();
    let gb = g.grain_bytes;
    let gi = v / gb;
    let i = gi / g.per_table;
    let j = gi % g.per_table;
    let k = v % gb;
    let end = v + part.len();
    lemma_byte_in_grain(g, v);
    lemma_grain_index(g, gi);
    assert(part.subrange(0, part.len() as int) =~= part);
    assert(part.subrange(part.len() as int, part.len() as int) =~= Seq::<u8>::empty());
    assert(s.chunk_len(v, end) == part.len());
    assert(s.guarded_at(gi));
    lemma_part_session(s, v, part);
    let w = s.with_part(v, part).0;
    assert(w.with_data(end, Seq::<u8>::empty()) == Some((w, None::<Error>)));
    assert(n == w && s.with_part(v, part).1 is None);
    lemma_entries_as_numbers(s.contents, s.header.gd_offset * 512, i, table_for(s, v), j);
    law_what_the_flags_mean(s.header);
    assert(s.entry(gi) is Ok && !s.has_place(gi));
    lemma_gains(s, i, j, k, part);
    let new = choose|new: u32| #[trigger]
        s.gains(&s.with_new_grain(i, j, k, part).0, i, j, new, k, part);
    reveal(State::gains);
    assert(n == s.with_new_grain(i, j, k, part).0);
    assert(n.header == s.header && n.geometry() == g);
    let u = table_sector(g, n.contents, i);
    assert(entry_at(n.contents, u * 512, j) == new);
    lemma_entries_as_numbers(n.contents, s.header.gd_offset * 512, i, u as int, j);
    assert(pointer_for(n, v) == new);
}

} // verus!
