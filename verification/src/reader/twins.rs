//! The two copies of the grain map, and that a write keeps them alike.

use super::allocate::{law_merge_only_fills, lemma_same_bytes, merged_tables};
use super::state::{bytes_at, State};
use crate::bytes::{law_le32_round_trip, le32_bytes};
use crate::device::written;
use crate::image::{
    apart, copy_entry, copy_sector, grain_entry, grain_state, healthy, lemma_entry_kept, placed,
    slot_range, table_sector, Geometry, Slot,
};
use vstd::prelude::*;

verus! {

/// Whether a grain table and its redundant copy say the same: both are
/// allocated or neither is, and their entries agree.
pub open spec fn twin_at(g: Geometry, c: Seq<u8>, i: int) -> bool {
    &&& (table_sector(g, c, i) == 0) == (copy_sector(g, c, i) == 0)
    &&& forall|j: int|
        0 <= j < g.per_table ==> #[trigger] copy_entry(g, c, i, j) == grain_entry(g, c, i, j)
}

/// Whether the redundant copy of the grain map, where there is one, says
/// what the primary says.
#[verifier::opaque]
pub open spec fn twins(g: Geometry, c: Seq<u8>) -> bool {
    g.rgd_at is Some ==> forall|i: int| 0 <= i < g.tables ==> #[trigger] twin_at(g, c, i)
}

impl State {
    /// Whether the two copies of the grain map agree; see [`twins`].
    pub open spec fn twinned(&self) -> bool {
        twins(self.geometry(), self.contents)
    }
}

/// A write beside the directories, table `i` and its copy keeps the two
/// alike.
proof fn lemma_twin_beside(s: State, at: int, data: Seq<u8>, i: int)
    requires
        s.sound(),
        s.redundant,
        0 <= at,
        0 <= i < s.geometry().tables,
        twin_at(s.geometry(), s.contents, i),
        apart(
            (at, at + data.len()),
            (s.geometry().gd_at, s.geometry().gd_at + s.geometry().dir_span()),
        ),
        apart(
            (at, at + data.len()),
            (s.geometry().rgd_at->0, s.geometry().rgd_at->0 + s.geometry().dir_span()),
        ),
        slot_range(s.geometry(), s.contents, Slot::Table(i)) is Some ==> apart(
            (at, at + data.len()),
            slot_range(s.geometry(), s.contents, Slot::Table(i))->0,
        ),
        slot_range(s.geometry(), s.contents, Slot::Copy(i)) is Some ==> apart(
            (at, at + data.len()),
            slot_range(s.geometry(), s.contents, Slot::Copy(i))->0,
        ),
    ensures
        twin_at(s.geometry(), written(s.contents, at, data), i),
{
    let g = s.geometry();
    let c = s.contents;
    let d = written(c, at, data);
    let t = table_sector(g, c, i);
    let u = copy_sector(g, c, i);
    reveal(State::sound);
    reveal(healthy);
    assert(4 * g.tables <= g.dir_span() && 4 * g.per_table <= g.table_span());
    lemma_entry_kept(c, at, data, g.gd_at, i);
    lemma_entry_kept(c, at, data, g.rgd_at->0, i);
    if t != 0 {
        assert(slot_range(g, c, Slot::Table(i)) is Some);
        assert(slot_range(g, c, Slot::Copy(i)) is Some);
        assert(placed(g, c, s.extent(), slot_range(g, c, Slot::Table(i))->0));
        assert(placed(g, c, s.extent(), slot_range(g, c, Slot::Copy(i))->0));
        assert forall|j: int| 0 <= j < g.per_table implies #[trigger] copy_entry(g, d, i, j)
            == grain_entry(g, d, i, j) by {
            lemma_entry_kept(c, at, data, t * 512, j);
            lemma_entry_kept(c, at, data, u * 512, j);
            assert(copy_entry(g, c, i, j) == grain_entry(g, c, i, j));
        }
    }
}

/// A write beside the directories and every table keeps the two copies
/// alike.
pub(super) proof fn lemma_twins_beside(s: State, at: int, data: Seq<u8>)
    requires
        s.sound(),
        0 <= at,
        apart(
            (at, at + data.len()),
            (s.geometry().gd_at, s.geometry().gd_at + s.geometry().dir_span()),
        ),
        s.redundant ==> apart(
            (at, at + data.len()),
            (s.geometry().rgd_at->0, s.geometry().rgd_at->0 + s.geometry().dir_span()),
        ),
        forall|t: Slot|
            t !is Grain && (#[trigger] slot_range(s.geometry(), s.contents, t)) is Some ==> apart(
                (at, at + data.len()),
                slot_range(s.geometry(), s.contents, t)->0,
            ),
    ensures
        s.twinned() ==> twins(s.geometry(), written(s.contents, at, data)),
{
    reveal(twins);
    if s.twinned() && s.redundant {
        let g = s.geometry();
        assert forall|i: int| 0 <= i < g.tables implies #[trigger] twin_at(
            g,
            written(s.contents, at, data),
            i,
        ) by {
            assert(twin_at(g, s.contents, i));
            lemma_twin_beside(s, at, data, i);
        }
    }
}

/// A write into a vacant range keeps the two copies alike.
pub(super) proof fn lemma_twins_vacant(s: State, lo: int, hi: int, at: int, data: Seq<u8>)
    requires
        s.sound(),
        s.vacant(lo, hi),
        lo <= at,
        at + data.len() <= hi,
    ensures
        s.twinned() ==> twins(s.geometry(), written(s.contents, at, data)),
{
    reveal(State::vacant);
    lemma_twins_beside(s, at, data);
}

/// A write into an allocated grain keeps the two copies alike.
pub(super) proof fn lemma_twins_data(s: State, gi: int, k: int, data: Seq<u8>)
    requires
        s.sound(),
        s.geometry().has_grain(gi),
        grain_state(s.geometry(), s.contents, gi) is At,
        0 <= k,
        k + data.len() <= s.geometry().used(gi),
    ensures
        s.twinned() ==> twins(
            s.geometry(),
            written(
                s.contents,
                grain_state(s.geometry(), s.contents, gi)->At_0 * 512 + k,
                data,
            ),
        ),
{
    let g = s.geometry();
    let here = Slot::Grain(gi);
    let at = grain_state(g, s.contents, gi)->At_0 * 512 + k;
    assert(slot_range(g, s.contents, here) is Some);
    super::allocate::lemma_slot_clear(s, here);
    assert forall|t: Slot|
        t !is Grain && (#[trigger] slot_range(g, s.contents, t)) is Some implies apart(
        (at, at + data.len()),
        slot_range(g, s.contents, t)->0,
    ) by {
        reveal(State::sound);
        reveal(healthy);
        assert(t != here);
    }
    lemma_twins_beside(s, at, data);
}

/// A write to the header sector or the descriptor keeps the two copies
/// alike.
pub(super) proof fn lemma_twins_text(s: State, at: int, data: Seq<u8>)
    requires
        s.sound(),
        0 <= at,
        at + data.len() <= 512 || (s.geometry().desc_at <= at && at + data.len()
            <= s.geometry().desc_at + s.geometry().desc_len),
    ensures
        s.twinned() ==> twins(s.geometry(), written(s.contents, at, data)),
{
    let g = s.geometry();
    assert(g.wf()) by {
        reveal(State::sound);
        reveal(healthy);
    }
    assert forall|t: Slot|
        t !is Grain && (#[trigger] slot_range(g, s.contents, t)) is Some implies apart(
        (at, at + data.len()),
        slot_range(g, s.contents, t)->0,
    ) by {
        super::allocate::lemma_slot_clear(s, t);
    }
    lemma_twins_beside(s, at, data);
}

/// Merging a table into a copy that agrees with it keeps the two alike.
pub(super) proof fn lemma_twins_merged(s: State, i: int)
    requires
        s.sound(),
        s.redundant,
        0 <= i < s.geometry().tables,
        table_sector(s.geometry(), s.contents, i) != 0,
        copy_sector(s.geometry(), s.contents, i) != 0,
        s.twinned(),
    ensures
        ({
            let g = s.geometry();
            let p = table_sector(g, s.contents, i) * 512;
            let r = copy_sector(g, s.contents, i) * 512;
            let m = merged_tables(
                bytes_at(s.contents, p, g.table_span()),
                bytes_at(s.contents, r, g.table_span()),
            );
            twins(g, written(s.contents, r, m))
        }),
{
    reveal(twins);
    let g = s.geometry();
    let c = s.contents;
    let span = g.table_span();
    let p = table_sector(g, c, i) * 512;
    let r = copy_sector(g, c, i) * 512;
    let pb = bytes_at(c, p, span);
    let rb = bytes_at(c, r, span);
    let m = merged_tables(pb, rb);
    let d = written(c, r, m);
    let here = Slot::Copy(i);
    assert(slot_range(g, c, here) is Some);
    assert(slot_range(g, c, Slot::Table(i)) is Some);
    super::allocate::lemma_slot_clear(s, here);
    assert(4 * g.tables <= g.dir_span() && 4 * g.per_table <= span);
    assert forall|k: int| 0 <= k < g.tables implies #[trigger] twin_at(g, d, k) by {
        assert(twin_at(g, c, k));
        reveal(State::sound);
        reveal(healthy);
        assert(Slot::Table(k) != here);
        assert(Slot::Copy(k) != here || k == i);
        if k != i {
            lemma_twin_beside(s, r, m, k);
        } else {
            lemma_entry_kept(c, r, m, g.gd_at, i);
            lemma_entry_kept(c, r, m, g.rgd_at->0, i);
            assert(placed(g, c, s.extent(), slot_range(g, c, Slot::Table(i))->0));
            assert forall|j: int| 0 <= j < g.per_table implies #[trigger] copy_entry(g, d, i, j)
                == grain_entry(g, d, i, j) by {
                lemma_entry_kept(c, r, m, p, j);
                law_merge_only_fills(pb, rb, j);
                lemma_same_bytes(c, pb, p, 0, j);
                lemma_same_bytes(c, rb, r, 0, j);
                lemma_same_bytes(d, m, r, 0, j);
                assert(copy_entry(g, c, i, j) == grain_entry(g, c, i, j));
            }
        }
    }
}

/// An entry written to a copy and then to its table keeps the two alike.
pub(super) proof fn lemma_twins_entry(s: State, i: int, j: int, new: u32)
    requires
        s.sound(),
        s.redundant,
        0 <= i < s.geometry().tables,
        0 <= j < s.geometry().per_table,
        table_sector(s.geometry(), s.contents, i) != 0,
        copy_sector(s.geometry(), s.contents, i) != 0,
        s.twinned(),
    ensures
        ({
            let g = s.geometry();
            let p = table_sector(g, s.contents, i) * 512;
            let r = copy_sector(g, s.contents, i) * 512;
            let d = written(s.contents, r + 4 * j, le32_bytes(new));
            twins(g, written(d, p + 4 * j, le32_bytes(new)))
        }),
{
    reveal(twins);
    law_le32_round_trip(new);
    let g = s.geometry();
    let c = s.contents;
    let span = g.table_span();
    let p = table_sector(g, c, i) * 512;
    let r = copy_sector(g, c, i) * 512;
    let b = le32_bytes(new);
    let d = written(c, r + 4 * j, b);
    let e = written(d, p + 4 * j, b);
    assert(slot_range(g, c, Slot::Copy(i)) is Some);
    assert(slot_range(g, c, Slot::Table(i)) is Some);
    super::allocate::lemma_slot_clear(s, Slot::Copy(i));
    super::allocate::lemma_slot_clear(s, Slot::Table(i));
    assert(4 * g.tables <= g.dir_span() && 4 * g.per_table <= span);
    assert(apart((p, p + span), (r, r + span)) && g.gd_at + 4 * g.tables <= c.len() && g.rgd_at->0
        + 4 * g.tables <= c.len()) by {
        reveal(State::sound);
        reveal(healthy);
        assert(Slot::Table(i) != Slot::Copy(i));
    }
    assert(d.len() == c.len() && e.len() == c.len());
    assert forall|k: int| 0 <= k < g.tables implies #[trigger] twin_at(g, e, k) by {
        assert(twin_at(g, c, k));
        lemma_entry_kept(c, r + 4 * j, b, g.gd_at, k);
        lemma_entry_kept(d, p + 4 * j, b, g.gd_at, k);
        lemma_entry_kept(c, r + 4 * j, b, g.rgd_at->0, k);
        lemma_entry_kept(d, p + 4 * j, b, g.rgd_at->0, k);
        let t = table_sector(g, c, k);
        let u = copy_sector(g, c, k);
        if t != 0 {
            assert(slot_range(g, c, Slot::Table(k)) is Some);
            assert(slot_range(g, c, Slot::Copy(k)) is Some);
            super::allocate::lemma_slot_clear(s, Slot::Table(k));
            super::allocate::lemma_slot_clear(s, Slot::Copy(k));
            assert(apart((t * 512, t * 512 + span), (r, r + span)) && apart(
                (u * 512, u * 512 + span),
                (p, p + span),
            ) && (k != i ==> apart((t * 512, t * 512 + span), (p, p + span)) && apart(
                (u * 512, u * 512 + span),
                (r, r + span),
            ))) by {
                reveal(State::sound);
                reveal(healthy);
                assert(Slot::Table(k) != Slot::Copy(i));
                assert(Slot::Copy(k) != Slot::Table(i));
                assert(k != i ==> Slot::Table(k) != Slot::Table(i) && Slot::Copy(k) != Slot::Copy(i));
            }
            assert forall|l: int| 0 <= l < g.per_table implies #[trigger] copy_entry(g, e, k, l)
                == grain_entry(g, e, k, l) by {
                assert(copy_entry(g, c, k, l) == grain_entry(g, c, k, l));
                lemma_entry_kept(c, r + 4 * j, b, t * 512, l);
                lemma_entry_kept(d, p + 4 * j, b, u * 512, l);
                if k == i && l == j {
                    assert(e[p + 4 * j] == b[0] && e[p + 4 * j + 1] == b[1] && e[p + 4 * j + 2]
                        == b[2] && e[p + 4 * j + 3] == b[3]);
                    assert(d[r + 4 * j] == b[0] && d[r + 4 * j + 1] == b[1] && d[r + 4 * j + 2]
                        == b[2] && d[r + 4 * j + 3] == b[3]);
                } else {
                    lemma_entry_kept(d, p + 4 * j, b, t * 512, l);
                    lemma_entry_kept(c, r + 4 * j, b, u * 512, l);
                }
            }
        }
    }
}

/// A blank table published in both directories keeps the two copies alike.
pub(super) proof fn lemma_twins_new_table(s: State, i: int, first: u32, second: u32)
    requires
        s.sound(),
        s.redundant,
        0 <= i < s.geometry().tables,
        s.twinned(),
        table_sector(s.geometry(), s.contents, i) == 0,
        first != 0,
        second != 0,
        s.vacant(first * 512, first * 512 + s.geometry().table_span()),
        s.vacant(second * 512, second * 512 + s.geometry().table_span()),
        first * 512 + s.geometry().table_span() <= s.contents.len(),
        second * 512 + s.geometry().table_span() <= s.contents.len(),
        forall|b: int|
            first * 512 <= b < first * 512 + s.geometry().table_span() ==> s.contents[b] == 0,
        forall|b: int|
            second * 512 <= b < second * 512 + s.geometry().table_span() ==> s.contents[b] == 0,
    ensures
        ({
            let g = s.geometry();
            let d = written(s.contents, g.rgd_at->0 + 4 * i, le32_bytes(second));
            twins(g, written(d, g.gd_at + 4 * i, le32_bytes(first)))
        }),
{
    reveal(twins);
    law_le32_round_trip(first);
    law_le32_round_trip(second);
    let g = s.geometry();
    let c = s.contents;
    let span = g.table_span();
    let x = g.rgd_at->0 + 4 * i;
    let y = g.gd_at + 4 * i;
    let bx = le32_bytes(second);
    let by = le32_bytes(first);
    let d = written(c, x, bx);
    let e = written(d, y, by);
    assert(4 * g.tables <= g.dir_span() && 4 * g.per_table <= span);
    assert(g.wf() && g.gd_at + 4 * g.tables <= c.len() && g.rgd_at->0 + 4 * g.tables <= c.len()) by {
        reveal(State::sound);
        reveal(healthy);
    }
    assert(apart((first * 512, first * 512 + span), (g.gd_at, g.gd_at + g.dir_span())) && apart(
        (first * 512, first * 512 + span),
        (g.rgd_at->0, g.rgd_at->0 + g.dir_span()),
    ) && apart((second * 512, second * 512 + span), (g.gd_at, g.gd_at + g.dir_span())) && apart(
        (second * 512, second * 512 + span),
        (g.rgd_at->0, g.rgd_at->0 + g.dir_span()),
    )) by {
        reveal(State::vacant);
    }
    assert(d.len() == c.len() && e.len() == c.len());
    assert(table_sector(g, e, i) == first) by {
        assert(e[y] == by[0] && e[y + 1] == by[1] && e[y + 2] == by[2] && e[y + 3] == by[3]);
    }
    assert(copy_sector(g, e, i) == second) by {
        assert(d[x] == bx[0] && d[x + 1] == bx[1] && d[x + 2] == bx[2] && d[x + 3] == bx[3]);
        lemma_entry_kept(d, y, by, g.rgd_at->0, i);
    }
    assert forall|k: int| 0 <= k < g.tables implies #[trigger] twin_at(g, e, k) by {
        assert(twin_at(g, c, k));
        if k == i {
            assert forall|j: int| 0 <= j < g.per_table implies #[trigger] copy_entry(g, e, i, j)
                == grain_entry(g, e, i, j) by {
                lemma_entry_kept(c, x, bx, first * 512, j);
                lemma_entry_kept(d, y, by, first * 512, j);
                lemma_entry_kept(c, x, bx, second * 512, j);
                lemma_entry_kept(d, y, by, second * 512, j);
                crate::bytes::lemma_le32_zero(c, first * 512 + 4 * j);
                crate::bytes::lemma_le32_zero(c, second * 512 + 4 * j);
            }
        } else {
            lemma_entry_kept(c, x, bx, g.gd_at, k);
            lemma_entry_kept(d, y, by, g.gd_at, k);
            lemma_entry_kept(c, x, bx, g.rgd_at->0, k);
            lemma_entry_kept(d, y, by, g.rgd_at->0, k);
            let t = table_sector(g, c, k);
            let u = copy_sector(g, c, k);
            if t != 0 {
                assert(slot_range(g, c, Slot::Table(k)) is Some);
                assert(slot_range(g, c, Slot::Copy(k)) is Some);
                super::allocate::lemma_slot_clear(s, Slot::Table(k));
                super::allocate::lemma_slot_clear(s, Slot::Copy(k));
                assert forall|l: int| 0 <= l < g.per_table implies #[trigger] copy_entry(
                    g,
                    e,
                    k,
                    l,
                ) == grain_entry(g, e, k, l) by {
                    assert(copy_entry(g, c, k, l) == grain_entry(g, c, k, l));
                    lemma_entry_kept(c, x, bx, t * 512, l);
                    lemma_entry_kept(d, y, by, t * 512, l);
                    lemma_entry_kept(c, x, bx, u * 512, l);
                    lemma_entry_kept(d, y, by, u * 512, l);
                }
            }
        }
    }
}

} // verus!
