//! What a crash can leave, and why it never reads as wrong data.
//!
//! Between two flushes a device may put the sectors it was given on stable
//! storage in any order, and not all of them. The states it passed through
//! since the last flush are a *window*; what a crash leaves is, sector by
//! sector, one of those states.

use crate::bytes::le32_bytes;
use crate::image::{
    apart, disk_byte, entry_at, grain_entry, grain_published, grain_state, healthy,
    lemma_backed_byte, lemma_byte_in_grain, lemma_grain_index, placed, same_reading, slot_range,
    table_published, table_sector, Geometry, GrainState, Slot,
};
use vstd::prelude::*;

verus! {

/// Whether `d` is `c` after one entry was published: a grain in a table,
/// or an empty table in the directory.
pub open spec fn published(g: Geometry, c: Seq<u8>, d: Seq<u8>) -> bool {
    ||| exists|i: int, j: int, new: u32| #[trigger] grain_published(g, c, d, i, j, new)
    ||| exists|i: int, t: u32| #[trigger] table_published(g, c, d, i, t)
}

/// A window in which a crash is harmless: every state is a healthy image,
/// and only the first write may publish an entry.
pub open spec fn window_ok(g: Geometry, w: Seq<Seq<u8>>) -> bool {
    &&& w.len() >= 1
    &&& forall|j: int| 0 <= j < w.len() ==> healthy(g, #[trigger] w[j], w[j].len() as int)
    &&& forall|j: int| 0 <= j < w.len() ==> w[0].len() <= (#[trigger] w[j]).len()
    &&& w.len() >= 2 ==> same_reading(g, w[0], w[1]) || (published(g, w[0], w[1]) && w[0].len()
        == w[1].len())
    &&& forall|j: int| 1 <= j < w.len() ==> same_reading(g, w[1], #[trigger] w[j])
}

/// Whether sector `k` of `s` is that sector of `w`, as far as the file
/// reached `len`.
pub open spec fn same_sector(s: Seq<u8>, w: Seq<u8>, len: nat, k: int) -> bool {
    forall|b: int| 512 * k <= b < 512 * k + 512 && b < len ==> #[trigger] s[b] == w[b]
}

/// Whether sector `k` of `s` is that sector of one of the states of `w`.
pub open spec fn sector_survives(w: Seq<Seq<u8>>, s: Seq<u8>, k: int) -> bool {
    exists|j: int| 0 <= j < w.len() && #[trigger] same_sector(s, w[j], w[0].len(), k)
}

/// What a crash in window `w` can leave: every sector that was in the file
/// at the last flush is that sector of one of the window's states.
pub open spec fn crash_image(w: Seq<Seq<u8>>, s: Seq<u8>) -> bool {
    &&& w[0].len() <= s.len()
    &&& forall|k: int| 0 <= k ==> #[trigger] sector_survives(w, s, k)
}

/// The state that byte `b` of a crash image comes from.
spec fn source(w: Seq<Seq<u8>>, s: Seq<u8>, b: int) -> int {
    choose|j: int| 0 <= j < w.len() && #[trigger] same_sector(s, w[j], w[0].len(), b / 512)
}

proof fn lemma_source(w: Seq<Seq<u8>>, s: Seq<u8>, b: int)
    requires
        crash_image(w, s),
        0 <= b < w[0].len(),
    ensures
        0 <= source(w, s, b) < w.len(),
        s[b] == w[source(w, s, b)][b],
{
    assert(sector_survives(w, s, b / 512));
    let j = source(w, s, b);
    assert(same_sector(s, w[j], w[0].len(), b / 512));
}

/// An entry lies inside one sector, so a crash image has it from one
/// state.
proof fn lemma_source_entry(w: Seq<Seq<u8>>, s: Seq<u8>, at: int, i: int)
    requires
        crash_image(w, s),
        at % 512 == 0,
        0 <= at,
        0 <= i,
        at + 4 * i + 4 <= w[0].len(),
    ensures
        0 <= source(w, s, at + 4 * i) < w.len(),
        entry_at(s, at, i) == entry_at(w[source(w, s, at + 4 * i)], at, i),
{
    let b = at + 4 * i;
    assert(sector_survives(w, s, b / 512));
    let j = source(w, s, b);
    assert(same_sector(s, w[j], w[0].len(), b / 512));
    assert(b / 512 == (b + 3) / 512);
    assert(s[b] == w[j][b]);
    assert(s[b + 1] == w[j][b + 1]);
    assert(s[b + 2] == w[j][b + 2]);
    assert(s[b + 3] == w[j][b + 3]);
}

/// Where no entry was published, every state of a window has the first
/// one's map.
proof fn lemma_window_map(g: Geometry, w: Seq<Seq<u8>>, j: int, i: int, l: int)
    requires
        window_ok(g, w),
        0 <= j < w.len(),
        0 <= i < g.tables,
        0 <= l < g.per_table,
    ensures
        j >= 1 ==> table_sector(g, w[j], i) == table_sector(g, w[1], i),
        j >= 1 ==> grain_entry(g, w[j], i, l) == grain_entry(g, w[1], i, l),
        w.len() >= 2 && same_reading(g, w[0], w[1]) ==> table_sector(g, w[j], i) == table_sector(
            g,
            w[0],
            i,
        ) && grain_entry(g, w[j], i, l) == grain_entry(g, w[0], i, l),
{
    reveal(crate::image::same_reading);
    if j >= 1 {
        assert(same_reading(g, w[1], w[j]));
        assert(table_sector(g, w[1], i) == table_sector(g, w[j], i));
        assert(grain_entry(g, w[1], i, l) == grain_entry(g, w[j], i, l));
        if same_reading(g, w[0], w[1]) {
            assert(table_sector(g, w[0], i) == table_sector(g, w[1], i));
            assert(grain_entry(g, w[0], i, l) == grain_entry(g, w[1], i, l));
        }
    }
}

/// Where every state of a window has the same entry for a grain, a crash
/// image has it too.
proof fn lemma_settled_entry(g: Geometry, w: Seq<Seq<u8>>, s: Seq<u8>, i: int, l: int)
    requires
        window_ok(g, w),
        crash_image(w, s),
        0 <= i < g.tables,
        0 <= l < g.per_table,
        forall|j: int|
            0 <= j < w.len() ==> table_sector(g, #[trigger] w[j], i) == table_sector(g, w[0], i),
        forall|j: int|
            0 <= j < w.len() ==> grain_entry(g, #[trigger] w[j], i, l) == grain_entry(
                g,
                w[0],
                i,
                l,
            ),
    ensures
        grain_entry(g, s, i, l) == grain_entry(g, w[0], i, l),
{
    reveal(crate::image::healthy);
    assert(healthy(g, w[0], w[0].len() as int));
    lemma_source_entry(w, s, g.gd_at, i);
    let a = source(w, s, g.gd_at + 4 * i);
    assert(table_sector(g, w[a], i) == table_sector(g, w[0], i));
    let t = table_sector(g, w[0], i);
    if t != 0 {
        assert(slot_range(g, w[0], Slot::Table(i)) is Some);
        assert(placed(g, w[0], w[0].len() as int, slot_range(g, w[0], Slot::Table(i))->0));
        lemma_source_entry(w, s, t * 512, l);
        let b = source(w, s, t * 512 + 4 * l);
        assert(grain_entry(g, w[b], i, l) == grain_entry(g, w[0], i, l));
        assert(table_sector(g, w[b], i) == t);
    }
}

/// Where every state of a window has the same entry for a grain, each byte
/// of it in a crash image is that byte in one of the states.
proof fn lemma_settled_byte(g: Geometry, w: Seq<Seq<u8>>, s: Seq<u8>, v: int) -> (j: int)
    requires
        window_ok(g, w),
        crash_image(w, s),
        0 <= v < g.virtual_size,
        ({
            let x = v / g.grain_bytes;
            let i = x / g.per_table;
            let l = x % g.per_table;
            &&& forall|j: int|
                0 <= j < w.len() ==> table_sector(g, #[trigger] w[j], i) == table_sector(
                    g,
                    w[0],
                    i,
                )
            &&& forall|j: int|
                0 <= j < w.len() ==> grain_entry(g, #[trigger] w[j], i, l) == grain_entry(
                    g,
                    w[0],
                    i,
                    l,
                )
        }),
    ensures
        0 <= j < w.len(),
        disk_byte(g, s, v) == disk_byte(g, w[j], v),
{
    reveal(crate::image::healthy);
    assert(healthy(g, w[0], w[0].len() as int));
    let x = v / g.grain_bytes;
    lemma_byte_in_grain(g, v);
    lemma_grain_index(g, x);
    let i = x / g.per_table;
    let l = x % g.per_table;
    lemma_settled_entry(g, w, s, i, l);
    assert(grain_state(g, s, x) == grain_state(g, w[0], x));
    match grain_state(g, w[0], x) {
        GrainState::At(t) => {
            lemma_backed_byte(g, w[0], v);
            assert(placed(g, w[0], w[0].len() as int, slot_range(g, w[0], Slot::Grain(x))->0));
            let a = t * 512 + v % g.grain_bytes;
            lemma_source(w, s, a);
            let j = source(w, s, a);
            assert(grain_entry(g, w[j], i, l) == grain_entry(g, w[0], i, l));
            j
        },
        _ => 0,
    }
}

/// A crash between two flushes never produces a wrong-data read: whatever
/// mixture of the window's states it leaves, each byte of the disk is that
/// byte in one of those states.
pub proof fn law_crash_reads_no_wrong_data(
    g: Geometry,
    w: Seq<Seq<u8>>,
    s: Seq<u8>,
    v: int,
) -> (j: int)
    requires
        window_ok(g, w),
        crash_image(w, s),
        0 <= v < g.virtual_size,
    ensures
        0 <= j < w.len(),
        disk_byte(g, s, v) == disk_byte(g, w[j], v),
{
    reveal(crate::image::healthy);
    reveal(crate::image::same_reading);
    assert(healthy(g, w[0], w[0].len() as int));
    let x = v / g.grain_bytes;
    lemma_byte_in_grain(g, v);
    lemma_grain_index(g, x);
    let i = x / g.per_table;
    let l = x % g.per_table;
    assert forall|j: int| 1 <= j < w.len() implies table_sector(g, #[trigger] w[j], i)
        == table_sector(g, w[1], i) && grain_entry(g, w[j], i, l) == grain_entry(g, w[1], i, l) by {
        lemma_window_map(g, w, j, i, l);
    }
    if w.len() == 1 || (table_sector(g, w[1], i) == table_sector(g, w[0], i) && grain_entry(
        g,
        w[1],
        i,
        l,
    ) == grain_entry(g, w[0], i, l)) {
        lemma_settled_byte(g, w, s, v)
    } else {
        assert(!same_reading(g, w[0], w[1])) by {
            if same_reading(g, w[0], w[1]) {
                lemma_window_map(g, w, 1, i, l);
            }
        }
        assert(healthy(g, w[1], w[1].len() as int));
        if exists|i0: int, j0: int, new: u32| #[trigger]
            grain_published(g, w[0], w[1], i0, j0, new) {
            let (i0, j0, new) = choose|i0: int, j0: int, new: u32| #[trigger]
                grain_published(g, w[0], w[1], i0, j0, new);
            lemma_crash_at_grain(g, w, s, v, i0, j0, new)
        } else {
            let (i0, t) = choose|i0: int, t: u32| #[trigger]
                table_published(g, w[0], w[1], i0, t);
            lemma_crash_at_table(g, w, s, v, i0, t)
        }
    }
}

proof fn lemma_crash_at_grain(
    g: Geometry,
    w: Seq<Seq<u8>>,
    s: Seq<u8>,
    v: int,
    i0: int,
    j0: int,
    new: u32,
) -> (j: int)
    requires
        window_ok(g, w),
        crash_image(w, s),
        0 <= v < g.virtual_size,
        w.len() >= 2,
        w[0].len() == w[1].len(),
        grain_published(g, w[0], w[1], i0, j0, new),
        ({
            let x = v / g.grain_bytes;
            let i = x / g.per_table;
            let l = x % g.per_table;
            &&& !(table_sector(g, w[1], i) == table_sector(g, w[0], i) && grain_entry(
                g,
                w[1],
                i,
                l,
            ) == grain_entry(g, w[0], i, l))
        }),
    ensures
        0 <= j < w.len(),
        disk_byte(g, s, v) == disk_byte(g, w[j], v),
{
    reveal(crate::image::healthy);
    assert(healthy(g, w[0], w[0].len() as int));
    assert(healthy(g, w[1], w[1].len() as int));
    let x = v / g.grain_bytes;
    lemma_byte_in_grain(g, v);
    lemma_grain_index(g, x);
    let i = x / g.per_table;
    let l = x % g.per_table;
    let t0 = table_sector(g, w[0], i0);
    let at = t0 * 512 + 4 * j0;
    crate::bytes::law_le32_round_trip(new);
    assert(slot_range(g, w[0], Slot::Table(i0)) is Some);
    assert(placed(g, w[0], w[0].len() as int, slot_range(g, w[0], Slot::Table(i0))->0));
    assert(table_sector(g, w[1], i) == table_sector(g, w[0], i)) by {
        crate::image::lemma_entry_kept(w[0], at, le32_bytes(new), g.gd_at, i);
    }
    let t = table_sector(g, w[0], i);
    assert(i == i0 && l == j0) by {
        if t != 0 && !(i == i0 && l == j0) {
            assert(slot_range(g, w[0], Slot::Table(i)) is Some);
            assert(placed(g, w[0], w[0].len() as int, slot_range(g, w[0], Slot::Table(i))->0));
            if i != i0 {
                assert(Slot::Table(i) != Slot::Table(i0));
            }
            crate::image::lemma_entry_kept(w[0], at, le32_bytes(new), t * 512, l);
        }
    }
    assert(table_sector(g, w[1], i) == t0);
    assert forall|j: int| 1 <= j < w.len() implies table_sector(g, #[trigger] w[j], i)
        == table_sector(g, w[1], i) && grain_entry(g, w[j], i, l) == grain_entry(g, w[1], i, l) by {
        lemma_window_map(g, w, j, i, l);
    }
    // The crash image's directory names the table, and its entry is the old
    // one or the new one.
    lemma_source_entry(w, s, g.gd_at, i);
    let a = source(w, s, g.gd_at + 4 * i);
    assert(table_sector(g, s, i) == t0) by {
        if a >= 1 {
            assert(table_sector(g, w[a], i) == table_sector(g, w[1], i));
        }
    }
    lemma_source_entry(w, s, t0 * 512, l);
    let b = source(w, s, t0 * 512 + 4 * l);
    if b == 0 {
        assert(grain_entry(g, s, i, l) == grain_entry(g, w[0], i, l));
        0
    } else {
        assert(grain_entry(g, w[b], i, l) == grain_entry(g, w[1], i, l));
        assert(table_sector(g, w[b], i) == table_sector(g, w[1], i));
        assert(grain_entry(g, s, i, l) == grain_entry(g, w[1], i, l));
        let written_at = w[1];
        assert(written_at[at] == le32_bytes(new)[0] && written_at[at + 1] == le32_bytes(new)[1]
            && written_at[at + 2] == le32_bytes(new)[2] && written_at[at + 3] == le32_bytes(
            new,
        )[3]);
        assert(grain_entry(g, w[1], i, l) == new);
        lemma_backed_byte(g, w[1], v);
        assert(placed(g, w[1], w[1].len() as int, slot_range(g, w[1], Slot::Grain(x))->0));
        let addr = new * 512 + v % g.grain_bytes;
        lemma_source(w, s, addr);
        let j = source(w, s, addr);
        if j == 0 {
            assert(slot_range(g, w[1], Slot::Table(i0)) is Some);
            assert(Slot::Table(i0) != Slot::Grain(x));
            assert(apart(
                slot_range(g, w[1], Slot::Table(i0))->0,
                slot_range(g, w[1], Slot::Grain(x))->0,
            ));
            assert(w[1][addr] == w[0][addr]);
            1
        } else {
            assert(grain_entry(g, w[j], i, l) == grain_entry(g, w[1], i, l));
            j
        }
    }
}

proof fn lemma_crash_at_table(
    g: Geometry,
    w: Seq<Seq<u8>>,
    s: Seq<u8>,
    v: int,
    i0: int,
    t: u32,
) -> (j: int)
    requires
        window_ok(g, w),
        crash_image(w, s),
        0 <= v < g.virtual_size,
        w.len() >= 2,
        w[0].len() == w[1].len(),
        table_published(g, w[0], w[1], i0, t),
        ({
            let x = v / g.grain_bytes;
            let i = x / g.per_table;
            let l = x % g.per_table;
            &&& !(table_sector(g, w[1], i) == table_sector(g, w[0], i) && grain_entry(
                g,
                w[1],
                i,
                l,
            ) == grain_entry(g, w[0], i, l))
        }),
    ensures
        0 <= j < w.len(),
        disk_byte(g, s, v) == disk_byte(g, w[j], v),
{
    reveal(crate::image::healthy);
    assert(healthy(g, w[0], w[0].len() as int));
    assert(healthy(g, w[1], w[1].len() as int));
    let x = v / g.grain_bytes;
    lemma_byte_in_grain(g, v);
    lemma_grain_index(g, x);
    let i = x / g.per_table;
    let l = x % g.per_table;
    let at = g.gd_at + 4 * i0;
    crate::bytes::law_le32_round_trip(t);
    assert(i == i0) by {
        if i != i0 {
            crate::image::lemma_entry_kept(w[0], at, le32_bytes(t), g.gd_at, i);
            let u = table_sector(g, w[0], i);
            if u != 0 {
                assert(slot_range(g, w[0], Slot::Table(i)) is Some);
                assert(placed(g, w[0], w[0].len() as int, slot_range(g, w[0], Slot::Table(i))->0));
                crate::image::lemma_entry_kept(w[0], at, le32_bytes(t), u * 512, l);
            }
        }
    }
    let one = w[1];
    assert(one[at] == le32_bytes(t)[0] && one[at + 1] == le32_bytes(t)[1] && one[at + 2]
        == le32_bytes(t)[2] && one[at + 3] == le32_bytes(t)[3]);
    assert(table_sector(g, w[1], i) == t);
    assert(slot_range(g, w[1], Slot::Table(i)) is Some);
    assert(placed(g, w[1], w[1].len() as int, slot_range(g, w[1], Slot::Table(i))->0));
    crate::image::lemma_entry_kept(w[0], at, le32_bytes(t), t * 512, l);
    assert(entry_at(w[0], t * 512, l) == 0);
    assert forall|j: int| 1 <= j < w.len() implies table_sector(g, #[trigger] w[j], i)
        == table_sector(g, w[1], i) && grain_entry(g, w[j], i, l) == grain_entry(g, w[1], i, l) by {
        lemma_window_map(g, w, j, i, l);
    }
    lemma_source_entry(w, s, g.gd_at, i);
    let a = source(w, s, g.gd_at + 4 * i);
    lemma_source_entry(w, s, t * 512, l);
    let b = source(w, s, t * 512 + 4 * l);
    if a == 0 {
        assert(table_sector(g, s, i) == 0);
    } else {
        assert(table_sector(g, w[a], i) == t);
        assert(table_sector(g, s, i) == t);
        if b >= 1 {
            assert(grain_entry(g, w[b], i, l) == grain_entry(g, w[1], i, l));
            assert(table_sector(g, w[b], i) == t);
        }
        assert(grain_entry(g, s, i, l) == 0);
    }
    0
}

} // verus!
