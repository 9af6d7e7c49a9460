//! What a healthy image's reader keeps true through every write.

use super::state::{hits, State};
use crate::bytes::{le32_bytes, overlaid};
use crate::crash::{published, window_ok};
use crate::device::written;
use crate::image::{
    apart, copy_entry, copy_sector, disk, disk_byte, entry_at, fresh, grain_entry, grain_state,
    healthy, lemma_copy_kept, lemma_data_write, lemma_neutral_write, lemma_publish_copy,
    lemma_publish_grain, lemma_publish_table, lemma_same_map_healthy, lemma_same_map_slots,
    mirrored, placed, same_map, same_reading, slot_range, table_sector, Geometry, GrainState, Slot,
};
use vstd::prelude::*;

verus! {

/// Whether a journal has a state `k` in window `e`.
pub open spec fn is_state(j: Seq<Seq<Seq<u8>>>, e: int, k: int) -> bool {
    0 <= e < j.len() && 0 <= k < j[e].len()
}

/// Whether journal `b` holds all that `a` holds.
pub open spec fn extends(a: Seq<Seq<Seq<u8>>>, b: Seq<Seq<Seq<u8>>>) -> bool {
    forall|e: int, k: int| #[trigger]
        is_state(a, e, k) ==> is_state(b, e, k) && b[e][k] == a[e][k]
}

/// Whether every byte of `d` is that byte of `a` or of `b`.
pub open spec fn pointwise(d: Seq<u8>, a: Seq<u8>, b: Seq<u8>) -> bool {
    d.len() == a.len() && d.len() == b.len() && forall|v: int|
        0 <= v < d.len() ==> #[trigger] d[v] == a[v] || d[v] == b[v]
}

/// Whether in every state that `after` has and `before` has not, each byte
/// of the disk is that byte of `a` or of `b`.
pub open spec fn passes_between(
    g: Geometry,
    before: Seq<Seq<Seq<u8>>>,
    after: Seq<Seq<Seq<u8>>>,
    a: Seq<u8>,
    b: Seq<u8>,
) -> bool {
    forall|e: int, k: int| #[trigger]
        is_state(after, e, k) && !is_state(before, e, k) ==> pointwise(disk(g, after[e][k]), a, b)
}

/// Whether the header sector and the descriptor have the same bytes in two
/// contents.
#[verifier::opaque]
pub open spec fn same_text(g: Geometry, c: Seq<u8>, d: Seq<u8>) -> bool {
    forall|b: int|
        0 <= b < 512 || g.desc_at <= b < g.desc_at + g.desc_len ==> #[trigger] c[b] == d[b]
}

/// A write clear of the header sector and the descriptor keeps both.
pub proof fn lemma_same_text(g: Geometry, c: Seq<u8>, extent: int, at: int, data: Seq<u8>)
    requires
        healthy(g, c, extent),
        0 <= at,
        apart((at, at + data.len()), (0, 512)),
        apart((at, at + data.len()), g.descriptor()),
    ensures
        same_text(g, c, written(c, at, data)),
{
    reveal(crate::image::healthy);
    reveal(same_text);
}

pub proof fn lemma_text_trans(g: Geometry, a: Seq<u8>, b: Seq<u8>, c: Seq<u8>)
    requires
        same_text(g, a, b),
        same_text(g, b, c),
    ensures
        same_text(g, a, c),
{
    reveal(same_text);
    assert forall|x: int|
        0 <= x < 512 || g.desc_at <= x < g.desc_at + g.desc_len implies #[trigger] a[x] == c[x] by {
        assert(a[x] == b[x] && b[x] == c[x]);
    }
}

pub proof fn lemma_text_reflexive(g: Geometry, c: Seq<u8>)
    ensures
        same_text(g, c, c),
{
    reveal(same_text);
}

/// The journal once the device holds `c` after a write.
pub open spec fn recorded(j: Seq<Seq<Seq<u8>>>, c: Seq<u8>) -> Seq<Seq<Seq<u8>>> {
    j.drop_last().push(j.last().push(c))
}

/// The journal once a flush made `c` durable.
pub open spec fn settled_at(j: Seq<Seq<Seq<u8>>>, c: Seq<u8>) -> Seq<Seq<Seq<u8>>> {
    j.push(seq![c])
}

/// Whether a journal only grew at its end, and every state that `after`
/// has and `before` has not has the header sector and the descriptor of
/// `c`.
#[verifier::opaque]
pub open spec fn text_throughout(
    g: Geometry,
    before: Seq<Seq<Seq<u8>>>,
    after: Seq<Seq<Seq<u8>>>,
    c: Seq<u8>,
) -> bool {
    &&& before.len() <= after.len()
    &&& forall|e: int| 0 <= e < before.len() - 1 ==> #[trigger] after[e] == before[e]
    &&& forall|e: int, k: int| #[trigger]
        is_state(after, e, k) && !is_state(before, e, k) ==> same_text(g, c, after[e][k])
}

pub proof fn lemma_text_recorded(g: Geometry, j: Seq<Seq<Seq<u8>>>, c: Seq<u8>, d: Seq<u8>)
    requires
        j.len() >= 1,
        same_text(g, c, d),
    ensures
        text_throughout(g, j, recorded(j, d), c),
{
    reveal(text_throughout);
    let n = recorded(j, d);
    assert forall|e: int, k: int| #[trigger] is_state(n, e, k) && !is_state(j, e, k) implies same_text(
        g,
        c,
        n[e][k],
    ) by {
        assert(e == j.len() - 1);
        assert(k == j.last().len());
    }
}

pub proof fn lemma_text_settled(g: Geometry, j: Seq<Seq<Seq<u8>>>, c: Seq<u8>)
    ensures
        text_throughout(g, j, settled_at(j, c), c),
{
    reveal(text_throughout);
    lemma_text_reflexive(g, c);
    let n = settled_at(j, c);
    assert forall|e: int, k: int| #[trigger] is_state(n, e, k) && !is_state(j, e, k) implies same_text(
        g,
        c,
        n[e][k],
    ) by {
        assert(e == j.len());
    }
}

pub proof fn lemma_text_unrecorded(g: Geometry, j: Seq<Seq<Seq<u8>>>, c: Seq<u8>)
    ensures
        text_throughout(g, j, j, c),
{
    reveal(text_throughout);
}

pub proof fn lemma_text_through_trans(
    g: Geometry,
    j0: Seq<Seq<Seq<u8>>>,
    j1: Seq<Seq<Seq<u8>>>,
    j2: Seq<Seq<Seq<u8>>>,
    c: Seq<u8>,
    d: Seq<u8>,
)
    requires
        same_text(g, c, d),
        extends(j1, j2),
        text_throughout(g, j0, j1, c),
        text_throughout(g, j1, j2, d),
    ensures
        text_throughout(g, j0, j2, c),
{
    reveal(text_throughout);
    assert forall|e: int| 0 <= e < j0.len() - 1 implies #[trigger] j2[e] == j0[e] by {
        assert(j1[e] == j0[e]);
    }
    assert forall|e: int, k: int| #[trigger]
        is_state(j2, e, k) && !is_state(j0, e, k) implies same_text(g, c, j2[e][k]) by {
        if is_state(j1, e, k) {
            assert(j2[e][k] == j1[e][k]);
        } else {
            lemma_text_trans(g, c, d, j2[e][k]);
        }
    }
}

impl State {
    /// Whether every window of the journal is harmless, and the last state
    /// is what the device holds.
    pub open spec fn journal_ok(&self) -> bool {
        &&& self.journal.len() >= 1
        &&& forall|e: int|
            0 <= e < self.journal.len() ==> window_ok(self.geometry(), #[trigger] self.journal[e])
        &&& self.journal.last().last() == self.contents
    }

    /// Whether nothing was written since the last flush.
    pub open spec fn settled(&self) -> bool {
        self.journal.last().len() == 1
    }

    /// A reader on a healthy image: the image is healthy, the reader
    /// protects nothing that a grain occupies, every redundant copy it has
    /// merged holds all its table holds, and no crash so far could have
    /// been read as wrong data.
    #[verifier::opaque]
    pub open spec fn sound(&self) -> bool {
        let g = self.geometry();
        &&& !self.header.stream()
        &&& healthy(g, self.contents, self.extent())
        &&& forall|b: int| #[trigger] self.fixed.contains(b) ==> g.fixed(b)
        &&& forall|b: int| #[trigger] self.tables.contains(b) ==> b < self.extent()
        &&& forall|gi: int|
            (#[trigger] slot_range(g, self.contents, Slot::Grain(gi))) is Some ==> !hits(
                self.tables,
                (slot_range(g, self.contents, Slot::Grain(gi))->0).0,
                (slot_range(g, self.contents, Slot::Grain(gi))->0).1,
            )
        &&& forall|i: int| #[trigger]
            self.merged.contains(i) ==> self.redundant && 0 <= i < g.tables && mirrored(
                g,
                self.contents,
                i,
            )
        &&& self.journal_ok()
    }

    /// This state after a write of `data` at `at`.
    pub open spec fn wrote(&self, at: int, data: Seq<u8>) -> State {
        let c = written(self.contents, at, data);
        State { contents: c, journal: recorded(self.journal, c), ..*self }
    }

    /// This state after a flush.
    pub open spec fn synced(&self) -> State {
        State { journal: settled_at(self.journal, self.contents), ..*self }
    }
}

/// A healthy image is healthy as far as its own bytes reach.
proof fn lemma_healthy_to_end(g: Geometry, c: Seq<u8>, extent: int)
    requires
        healthy(g, c, extent),
    ensures
        healthy(g, c, c.len() as int),
{
    reveal(crate::image::healthy);
    reveal(crate::image::same_reading);
    reveal(crate::image::same_map);
    assert forall|s: Slot| (#[trigger] slot_range(g, c, s)) is Some implies placed(
        g,
        c,
        c.len() as int,
        slot_range(g, c, s)->0,
    ) by {}
}

pub proof fn lemma_extends_trans(
    a: Seq<Seq<Seq<u8>>>,
    b: Seq<Seq<Seq<u8>>>,
    c: Seq<Seq<Seq<u8>>>,
)
    requires
        extends(a, b),
        extends(b, c),
    ensures
        extends(a, c),
{
    assert forall|e: int, k: int| #[trigger] is_state(a, e, k) implies is_state(c, e, k) && c[e][k]
        == a[e][k] by {
        assert(is_state(b, e, k));
    }
}

pub proof fn lemma_between_trans(
    g: Geometry,
    j0: Seq<Seq<Seq<u8>>>,
    j1: Seq<Seq<Seq<u8>>>,
    j2: Seq<Seq<Seq<u8>>>,
    a: Seq<u8>,
    b: Seq<u8>,
)
    requires
        extends(j0, j1),
        extends(j1, j2),
        passes_between(g, j0, j1, a, b),
        passes_between(g, j1, j2, a, b),
    ensures
        extends(j0, j2),
        passes_between(g, j0, j2, a, b),
{
    lemma_extends_trans(j0, j1, j2);
    assert forall|e: int, k: int| #[trigger]
        is_state(j2, e, k) && !is_state(j0, e, k) implies pointwise(disk(g, j2[e][k]), a, b) by {
        if is_state(j1, e, k) {
            assert(j2[e][k] == j1[e][k]);
        }
    }
}

/// States between two disks are between any two disks that those are
/// between.
pub proof fn lemma_between_widen(
    g: Geometry,
    j0: Seq<Seq<Seq<u8>>>,
    j1: Seq<Seq<Seq<u8>>>,
    a: Seq<u8>,
    b: Seq<u8>,
    x: Seq<u8>,
    y: Seq<u8>,
)
    requires
        passes_between(g, j0, j1, a, b),
        pointwise(a, x, y),
        pointwise(b, x, y),
    ensures
        passes_between(g, j0, j1, x, y),
{
    assert forall|e: int, k: int| #[trigger]
        is_state(j1, e, k) && !is_state(j0, e, k) implies pointwise(disk(g, j1[e][k]), x, y) by {
        let d = disk(g, j1[e][k]);
        assert(pointwise(d, a, b));
        assert forall|v: int| 0 <= v < d.len() implies #[trigger] d[v] == x[v] || d[v] == y[v] by {
            assert(d[v] == a[v] || d[v] == b[v]);
            assert(a[v] == x[v] || a[v] == y[v]);
            assert(b[v] == x[v] || b[v] == y[v]);
        }
    }
}

/// Recording a state extends a journal by that state.
proof fn lemma_recorded(g: Geometry, j: Seq<Seq<Seq<u8>>>, c: Seq<u8>, a: Seq<u8>, b: Seq<u8>)
    requires
        j.len() >= 1,
        pointwise(disk(g, c), a, b),
    ensures
        extends(j, recorded(j, c)),
        passes_between(g, j, recorded(j, c), a, b),
        recorded(j, c).len() == j.len(),
        recorded(j, c).last() == j.last().push(c),
        forall|e: int| 0 <= e < j.len() - 1 ==> #[trigger] recorded(j, c)[e] == j[e],
{
    let n = recorded(j, c);
    assert forall|e: int, k: int| #[trigger] is_state(n, e, k) && !is_state(j, e, k) implies pointwise(
        disk(g, n[e][k]),
        a,
        b,
    ) by {
        assert(e == j.len() - 1);
        assert(k == j.last().len());
    }
}

proof fn lemma_settled_at(g: Geometry, j: Seq<Seq<Seq<u8>>>, c: Seq<u8>, a: Seq<u8>, b: Seq<u8>)
    requires
        pointwise(disk(g, c), a, b),
    ensures
        extends(j, settled_at(j, c)),
        passes_between(g, j, settled_at(j, c), a, b),
{
    let n = settled_at(j, c);
    assert forall|e: int, k: int| #[trigger] is_state(n, e, k) && !is_state(j, e, k) implies pointwise(
        disk(g, n[e][k]),
        a,
        b,
    ) by {
        assert(e == j.len());
    }
}

/// A window stays harmless when a state with the same map follows.
proof fn lemma_window_push(g: Geometry, w: Seq<Seq<u8>>, c: Seq<u8>)
    requires
        window_ok(g, w),
        healthy(g, c, c.len() as int),
        w.last().len() <= c.len(),
        same_reading(g, w.last(), c),
    ensures
        window_ok(g, w.push(c)),
{
    reveal(crate::image::healthy);
    reveal(crate::image::same_reading);
    reveal(crate::image::same_map);
    let n = w.push(c);
    assert forall|j: int| 0 <= j < n.len() implies healthy(g, #[trigger] n[j], n[j].len() as int) by {
        if j < w.len() {
            assert(n[j] == w[j]);
        }
    }
    assert forall|j: int| 0 <= j < n.len() implies n[0].len() <= (#[trigger] n[j]).len() by {
        if j < w.len() {
            assert(n[j] == w[j]);
        } else {
            assert(w[0].len() <= w[w.len() - 1].len());
        }
    }
    assert(n[0] == w[0]);
    if w.len() == 1 {
        assert(same_reading(g, n[0], n[1]));
        lemma_same_reading_reflexive(g, n[1]);
    } else {
        assert(n[1] == w[1]);
        assert forall|j: int| 1 <= j < n.len() implies same_reading(g, n[1], #[trigger] n[j]) by {
            if j < w.len() {
                assert(n[j] == w[j]);
            } else {
                assert(same_reading(g, w[1], w[w.len() - 1]));
                lemma_same_reading_trans(g, w[1], w.last(), c);
            }
        }
    }
}

proof fn lemma_same_reading_reflexive(g: Geometry, c: Seq<u8>)
    ensures
        same_reading(g, c, c),
{
    reveal(crate::image::healthy);
    reveal(crate::image::same_reading);
    reveal(crate::image::same_map);
}

pub proof fn lemma_same_reading_trans(g: Geometry, a: Seq<u8>, b: Seq<u8>, c: Seq<u8>)
    requires
        same_reading(g, a, b),
        same_reading(g, b, c),
    ensures
        same_reading(g, a, c),
{
    reveal(crate::image::healthy);
    reveal(crate::image::same_reading);
    reveal(crate::image::same_map);
    assert forall|i: int| 0 <= i < g.tables implies #[trigger] table_sector(g, a, i)
        == table_sector(g, c, i) by {
        assert(table_sector(g, a, i) == table_sector(g, b, i));
        assert(table_sector(g, b, i) == table_sector(g, c, i));
    }
    assert forall|i: int, j: int|
        0 <= i < g.tables && 0 <= j < g.per_table implies #[trigger] grain_entry(g, a, i, j)
        == grain_entry(g, c, i, j) by {
        assert(grain_entry(g, a, i, j) == grain_entry(g, b, i, j));
        assert(grain_entry(g, b, i, j) == grain_entry(g, c, i, j));
    }
}

/// A window that holds only the durable state stays harmless when a
/// published entry follows.
proof fn lemma_window_publish(g: Geometry, w: Seq<Seq<u8>>, c: Seq<u8>)
    requires
        window_ok(g, w),
        w.len() == 1,
        healthy(g, c, c.len() as int),
        published(g, w[0], c),
        w[0].len() == c.len(),
    ensures
        window_ok(g, w.push(c)),
{
    reveal(crate::image::healthy);
    reveal(crate::image::same_reading);
    reveal(crate::image::same_map);
    let n = w.push(c);
    assert(n[0] == w[0] && n[1] == c);
    lemma_same_reading_reflexive(g, c);
}

/// The journal of a sound reader, after a write that leaves a healthy
/// image.
proof fn lemma_journal_after(s: State, c: Seq<u8>, a: Seq<u8>, b: Seq<u8>)
    requires
        s.journal_ok(),
        healthy(s.geometry(), s.contents, s.extent()),
        healthy(s.geometry(), c, s.extent()),
        s.contents.len() <= c.len(),
        same_reading(s.geometry(), s.contents, c) || (s.settled() && published(
            s.geometry(),
            s.contents,
            c,
        ) && s.contents.len() == c.len()),
        pointwise(disk(s.geometry(), c), a, b),
    ensures
        (State { contents: c, journal: recorded(s.journal, c), ..s }).journal_ok(),
        extends(s.journal, recorded(s.journal, c)),
        passes_between(s.geometry(), s.journal, recorded(s.journal, c), a, b),
{
    reveal(crate::image::healthy);
    reveal(crate::image::same_reading);
    reveal(crate::image::same_map);
    let g = s.geometry();
    let n = State { contents: c, journal: recorded(s.journal, c), ..s };
    assert(n.geometry() == g);
    lemma_recorded(g, s.journal, c, a, b);
    lemma_healthy_to_end(g, c, s.extent());
    let w = s.journal.last();
    assert(window_ok(g, s.journal[s.journal.len() - 1]));
    assert(w.last() == s.contents);
    if same_reading(g, s.contents, c) {
        lemma_window_push(g, w, c);
    } else {
        lemma_window_publish(g, w, c);
    }
    assert forall|e: int| 0 <= e < n.journal.len() implies window_ok(g, #[trigger] n.journal[e]) by {
        if e < s.journal.len() - 1 {
            assert(n.journal[e] == s.journal[e]);
        } else {
            assert(n.journal[e] == w.push(c));
        }
    }
    assert(n.journal.last().last() == c);
}

/// Flushing keeps a reader sound and leaves nothing unsettled.
pub proof fn lemma_synced(s: State)
    requires
        s.sound(),
    ensures
        s.synced().sound(),
        s.synced().settled(),
        s.synced().disk() == s.disk(),
        s.keeps_to(&s.synced()),
        extends(s.journal, s.synced().journal),
        passes_between(s.geometry(), s.journal, s.synced().journal, s.disk(), s.disk()),
{
    reveal(crate::image::healthy);
    reveal(crate::image::same_reading);
    reveal(crate::image::same_map);
    reveal(State::sound);
    let g = s.geometry();
    let n = s.synced();
    assert(n.geometry() == g);
    lemma_settled_at(g, s.journal, s.contents, s.disk(), s.disk());
    lemma_healthy_to_end(g, s.contents, s.extent());
    let w = seq![s.contents];
    assert(window_ok(g, w));
    assert forall|e: int| 0 <= e < n.journal.len() implies window_ok(g, #[trigger] n.journal[e]) by {
        if e < s.journal.len() {
            assert(n.journal[e] == s.journal[e]);
        } else {
            assert(n.journal[e] == w);
        }
    }
    assert(n.journal.last() == w);
    lemma_text_reflexive(g, s.contents);
    lemma_text_settled(g, s.journal, s.contents);
    reveal(State::steps_to);
}

/// What of a sound reader does not depend on the map survives a write that
/// keeps the map.
proof fn lemma_same_map_sound(s: State, c: Seq<u8>)
    requires
        s.sound(),
        same_map(s.geometry(), s.contents, c),
        s.contents.len() <= c.len(),
        forall|i: int| #[trigger] s.merged.contains(i) ==> mirrored(s.geometry(), c, i),
        pointwise(disk(s.geometry(), c), s.disk(), disk(s.geometry(), c)),
    ensures
        (State { contents: c, journal: recorded(s.journal, c), ..s }).sound(),
        extends(s.journal, recorded(s.journal, c)),
        passes_between(
            s.geometry(),
            s.journal,
            recorded(s.journal, c),
            s.disk(),
            disk(s.geometry(), c),
        ),
{
    reveal(crate::image::healthy);
    reveal(crate::image::same_reading);
    reveal(crate::image::same_map);
    reveal(State::sound);
    let g = s.geometry();
    let n = State { contents: c, journal: recorded(s.journal, c), ..s };
    assert(n.geometry() == g);
    assert(n.extent() == s.extent());
    lemma_same_map_healthy(g, s.contents, c, s.extent(), s.extent());
    lemma_same_map_slots(g, s.contents, c);
    lemma_journal_after(s, c, s.disk(), disk(g, c));
    assert forall|gi: int| (#[trigger] slot_range(g, n.contents, Slot::Grain(gi))) is Some implies !hits(
        n.tables,
        (slot_range(g, n.contents, Slot::Grain(gi))->0).0,
        (slot_range(g, n.contents, Slot::Grain(gi))->0).1,
    ) by {
        assert(slot_range(g, s.contents, Slot::Grain(gi)) == slot_range(
            g,
            n.contents,
            Slot::Grain(gi),
        ));
    }
}

/// A write that touches no directory and no slot keeps a reader sound and
/// its disk as it was.
pub proof fn lemma_neutral(s: State, at: int, data: Seq<u8>)
    requires
        s.sound(),
        0 <= at,
        apart((at, at + data.len()), (s.geometry().gd_at, s.geometry().gd_at + s.geometry().dir_span())),
        s.geometry().rgd_at is Some ==> apart(
            (at, at + data.len()),
            (s.geometry().rgd_at->0, s.geometry().rgd_at->0 + s.geometry().dir_span()),
        ),
        forall|t: Slot|
            (#[trigger] slot_range(s.geometry(), s.contents, t)) is Some ==> apart(
                (at, at + data.len()),
                slot_range(s.geometry(), s.contents, t)->0,
            ),
    ensures
        s.wrote(at, data).sound(),
        same_map(s.geometry(), s.contents, s.wrote(at, data).contents),
        s.wrote(at, data).disk() == s.disk(),
        extends(s.journal, s.wrote(at, data).journal),
        passes_between(s.geometry(), s.journal, s.wrote(at, data).journal, s.disk(), s.disk()),
{
    reveal(crate::image::healthy);
    reveal(crate::image::same_reading);
    reveal(crate::image::same_map);
    reveal(State::sound);
    let g = s.geometry();
    let c = written(s.contents, at, data);
    lemma_neutral_write(g, s.contents, s.extent(), at, data);
    assert forall|i: int| #[trigger] s.merged.contains(i) implies mirrored(g, c, i) by {
        lemma_mirror_kept(s, at, data, i);
    }
    lemma_same_map_sound(s, c);
}

/// A write that keeps the map and a copy keeps the mirror.
proof fn lemma_mirror_kept(s: State, at: int, data: Seq<u8>, i: int)
    requires
        s.sound(),
        s.merged.contains(i),
        0 <= at,
        same_map(s.geometry(), s.contents, written(s.contents, at, data)),
        slot_range(s.geometry(), s.contents, Slot::Copy(i)) is Some ==> apart(
            (at, at + data.len()),
            slot_range(s.geometry(), s.contents, Slot::Copy(i))->0,
        ),
    ensures
        mirrored(s.geometry(), written(s.contents, at, data), i),
{
    reveal(crate::image::healthy);
    reveal(crate::image::same_reading);
    reveal(crate::image::same_map);
    reveal(State::sound);
    let g = s.geometry();
    let c = written(s.contents, at, data);
    assert(mirrored(g, s.contents, i));
    assert(copy_sector(g, s.contents, i) == copy_sector(g, c, i));
    assert forall|j: int| 0 <= j < g.per_table && #[trigger] grain_entry(g, c, i, j) != 0 implies copy_entry(
        g,
        c,
        i,
        j,
    ) != 0 by {
        assert(grain_entry(g, s.contents, i, j) == grain_entry(g, c, i, j));
        lemma_copy_kept(g, s.contents, s.extent(), at, data, i, j);
    }
}

/// A write into an allocated grain keeps a reader sound, and changes the
/// disk exactly where the grain stands.
pub proof fn lemma_data(s: State, gi: int, k: int, data: Seq<u8>)
    requires
        s.sound(),
        s.geometry().has_grain(gi),
        grain_state(s.geometry(), s.contents, gi) is At,
        0 <= k,
        k + data.len() <= s.geometry().used(gi),
    ensures
        ({
            let n = s.wrote(grain_state(s.geometry(), s.contents, gi)->At_0 * 512 + k, data);
            &&& n.sound()
            &&& same_map(s.geometry(), s.contents, n.contents)
            &&& n.disk() == overlaid(s.disk(), gi * s.geometry().grain_bytes + k, data)
            &&& s.steps_to(&n)
            &&& extends(s.journal, n.journal)
            &&& passes_between(s.geometry(), s.journal, n.journal, s.disk(), n.disk())
        }),
{
    reveal(crate::image::healthy);
    reveal(crate::image::same_reading);
    reveal(crate::image::same_map);
    reveal(State::sound);
    let g = s.geometry();
    let at = grain_state(g, s.contents, gi)->At_0 * 512 + k;
    let c = written(s.contents, at, data);
    lemma_data_write(g, s.contents, s.extent(), gi, k, data);
    let here = Slot::Grain(gi);
    assert(slot_range(g, s.contents, here) is Some);
    assert forall|i: int| #[trigger] s.merged.contains(i) implies mirrored(g, c, i) by {
        assert(Slot::Copy(i) != here);
        lemma_mirror_kept(s, at, data, i);
    }
    lemma_same_map_sound(s, c);
    assert(placed(g, s.contents, s.extent(), slot_range(g, s.contents, here)->0));
    lemma_same_text(g, s.contents, s.extent(), at, data);
    lemma_text_recorded(g, s.journal, s.contents, written(s.contents, at, data));
    reveal(State::steps_to);
}

/// A write into the redundant copy of a table keeps a reader sound and its
/// disk, as long as the copy still mirrors the table.
pub proof fn lemma_copy(s: State, i: int, at: int, data: Seq<u8>)
    requires
        s.sound(),
        slot_range(s.geometry(), s.contents, Slot::Copy(i)) is Some,
        (slot_range(s.geometry(), s.contents, Slot::Copy(i))->0).0 <= at,
        at + data.len() <= (slot_range(s.geometry(), s.contents, Slot::Copy(i))->0).1,
        s.merged.contains(i) ==> mirrored(s.geometry(), written(s.contents, at, data), i),
    ensures
        s.wrote(at, data).sound(),
        same_map(s.geometry(), s.contents, s.wrote(at, data).contents),
        s.wrote(at, data).disk() == s.disk(),
        s.keeps_to(&s.wrote(at, data)),
        extends(s.journal, s.wrote(at, data).journal),
        passes_between(s.geometry(), s.journal, s.wrote(at, data).journal, s.disk(), s.disk()),
{
    reveal(crate::image::healthy);
    reveal(crate::image::same_reading);
    reveal(crate::image::same_map);
    reveal(State::sound);
    let g = s.geometry();
    let c = written(s.contents, at, data);
    let here = Slot::Copy(i);
    assert(placed(g, s.contents, s.extent(), slot_range(g, s.contents, here)->0));
    assert forall|t: Slot|
        t !is Copy && (#[trigger] slot_range(g, s.contents, t)) is Some implies apart(
        (at, at + data.len()),
        slot_range(g, s.contents, t)->0,
    ) by {
        assert(t != here);
    }
    lemma_neutral_write(g, s.contents, s.extent(), at, data);
    assert forall|k: int| #[trigger] s.merged.contains(k) implies mirrored(g, c, k) by {
        if k != i {
            assert(Slot::Copy(k) != here);
            lemma_mirror_kept(s, at, data, k);
        }
    }
    lemma_same_map_sound(s, c);
    lemma_same_text(g, s.contents, s.extent(), at, data);
    lemma_text_recorded(g, s.journal, s.contents, written(s.contents, at, data));
    reveal(State::steps_to);
}

impl State {
    /// Whether a range is inside the file and nothing has a claim on it: no
    /// fixed region, no slot, no protected table.
    #[verifier::opaque]
    pub open spec fn vacant(&self, lo: int, hi: int) -> bool {
        let g = self.geometry();
        &&& 0 <= lo
        &&& hi <= self.extent()
        &&& apart((lo, hi), (0, 512))
        &&& apart((lo, hi), g.descriptor())
        &&& apart((lo, hi), (g.gd_at, g.gd_at + g.dir_span()))
        &&& g.rgd_at is Some ==> apart((lo, hi), (g.rgd_at->0, g.rgd_at->0 + g.dir_span()))
        &&& forall|t: Slot|
            (#[trigger] slot_range(g, self.contents, t)) is Some ==> apart(
                (lo, hi),
                slot_range(g, self.contents, t)->0,
            )
    }
}

/// Sectors reserved at the tail are vacant, and reserving them keeps a
/// reader sound.
pub proof fn lemma_reserved(s: State, sectors: int)
    requires
        s.sound(),
        0 <= sectors,
        (s.cursor + sectors) * 512 <= u64::MAX,
    ensures
        ({
            let n = State { cursor: s.cursor + sectors, ..s };
            &&& n.sound()
            &&& n.vacant(s.cursor * 512, (s.cursor + sectors) * 512)
            &&& forall|b: int| #[trigger] s.tables.contains(b) ==> b < s.cursor * 512
            &&& s.keeps_to(&n)
            &&& n.disk() == s.disk()
            &&& n.geometry() == s.geometry()
        }),
{
    reveal(crate::image::healthy);
    reveal(crate::image::same_reading);
    reveal(crate::image::same_map);
    reveal(State::sound);
    reveal(State::vacant);
    let g = s.geometry();
    let n = State { cursor: s.cursor + sectors, ..s };
    assert(n.geometry() == g);
    lemma_same_map_healthy(g, s.contents, s.contents, s.extent(), n.extent());
    let lo = s.cursor * 512;
    assert forall|t: Slot| (#[trigger] slot_range(g, n.contents, t)) is Some implies apart(
        (lo, n.extent()),
        slot_range(g, n.contents, t)->0,
    ) by {
        assert(placed(g, s.contents, s.extent(), slot_range(g, s.contents, t)->0));
    }
    assert(g.gd_at + g.dir_span() <= lo);
    assert(n.journal_ok());
    assert forall|gi: int| (#[trigger] slot_range(g, n.contents, Slot::Grain(gi))) is Some implies !hits(
        n.tables,
        (slot_range(g, n.contents, Slot::Grain(gi))->0).0,
        (slot_range(g, n.contents, Slot::Grain(gi))->0).1,
    ) by {
        assert(slot_range(g, s.contents, Slot::Grain(gi)) is Some);
    }
    lemma_text_reflexive(g, s.contents);
    lemma_text_unrecorded(g, s.journal, s.contents);
    reveal(State::steps_to);
}

/// Protecting a vacant range keeps a reader sound.
pub proof fn lemma_protected(s: State, lo: int, hi: int)
    requires
        s.sound(),
        s.vacant(lo, hi),
    ensures
        ({
            let n = State {
                tables: s.tables.union(Set::new(|b: int| lo <= b < hi)),
                ..s
            };
            &&& n.sound()
            &&& n.vacant(lo, hi)
            &&& s.keeps_to(&n)
            &&& n.disk() == s.disk()
            &&& n.geometry() == s.geometry()
        }),
{
    reveal(crate::image::healthy);
    reveal(crate::image::same_reading);
    reveal(crate::image::same_map);
    reveal(State::sound);
    reveal(State::vacant);
    let g = s.geometry();
    let n = State { tables: s.tables.union(Set::new(|b: int| lo <= b < hi)), ..s };
    assert(n.geometry() == g);
    assert(n.extent() == s.extent());
    assert(n.journal_ok());
    assert forall|gi: int| (#[trigger] slot_range(g, n.contents, Slot::Grain(gi))) is Some implies !hits(
        n.tables,
        (slot_range(g, n.contents, Slot::Grain(gi))->0).0,
        (slot_range(g, n.contents, Slot::Grain(gi))->0).1,
    ) by {
        let r = slot_range(g, s.contents, Slot::Grain(gi))->0;
        assert(slot_range(g, s.contents, Slot::Grain(gi)) is Some);
        assert(apart((lo, hi), r));
        if hits(n.tables, r.0, r.1) {
            let b = choose|b: int| r.0 <= b < r.1 && #[trigger] n.tables.contains(b);
            assert(s.tables.contains(b));
        }
    }
    lemma_text_reflexive(g, s.contents);
    lemma_text_unrecorded(g, s.journal, s.contents);
    reveal(State::steps_to);
}

/// A write into a vacant range keeps a reader sound, its disk as it was,
/// and every vacant range vacant.
pub proof fn lemma_vacant_write(s: State, lo: int, hi: int, at: int, data: Seq<u8>)
    requires
        s.sound(),
        s.vacant(lo, hi),
        lo <= at,
        at + data.len() <= hi,
    ensures
        s.wrote(at, data).sound(),
        same_map(s.geometry(), s.contents, s.wrote(at, data).contents),
        s.wrote(at, data).vacant(lo, hi),
        s.wrote(at, data).disk() == s.disk(),
        s.wrote(at, data).geometry() == s.geometry(),
        s.keeps_to(&s.wrote(at, data)),
        extends(s.journal, s.wrote(at, data).journal),
        passes_between(s.geometry(), s.journal, s.wrote(at, data).journal, s.disk(), s.disk()),
{
    reveal(crate::image::healthy);
    reveal(crate::image::same_reading);
    reveal(crate::image::same_map);
    reveal(State::sound);
    reveal(State::vacant);
    let g = s.geometry();
    let n = s.wrote(at, data);
    assert(n.geometry() == g);
    lemma_neutral(s, at, data);
    lemma_same_map_slots(g, s.contents, n.contents);
    assert forall|t: Slot| (#[trigger] slot_range(g, n.contents, t)) is Some implies apart(
        (lo, hi),
        slot_range(g, n.contents, t)->0,
    ) by {
        assert(slot_range(g, s.contents, t) is Some);
    }
    lemma_same_text(g, s.contents, s.extent(), at, data);
    lemma_text_recorded(g, s.journal, s.contents, written(s.contents, at, data));
    reveal(State::steps_to);
}

/// A vacant range whose bytes are in the file is fresh.
pub proof fn lemma_vacant_fresh(s: State, lo: int, hi: int)
    requires
        s.sound(),
        s.vacant(lo, hi),
        hi <= s.contents.len(),
    ensures
        fresh(s.geometry(), s.contents, s.extent(), (lo, hi)),
{
    reveal(crate::image::healthy);
    reveal(crate::image::same_reading);
    reveal(crate::image::same_map);
    reveal(State::sound);
    reveal(State::vacant);
    assert(placed(s.geometry(), s.contents, s.extent(), (lo, hi)));
}

/// Publishing a grain in a vacant place, with nothing unsettled and its
/// copy in place, keeps a reader sound and gives the grain's part of the
/// disk the bytes that stand there.
#[verifier::rlimit(30)]
pub proof fn lemma_grain_goes_live(s: State, i: int, j: int, new: u32)
    requires
        s.sound(),
        s.settled(),
        0 <= i < s.geometry().tables,
        0 <= j < s.geometry().per_table,
        table_sector(s.geometry(), s.contents, i) != 0,
        s.geometry().meaning(grain_entry(s.geometry(), s.contents, i, j)) !is At,
        s.geometry().meaning(new) == GrainState::At(new),
        s.geometry().has_grain(i * s.geometry().per_table + j),
        s.vacant(new * 512, new * 512 + s.geometry().grain_bytes),
        new * 512 + s.geometry().grain_bytes <= s.contents.len(),
        s.geometry().floor <= new * 512,
        !hits(s.tables, new * 512, new * 512 + s.geometry().grain_bytes),
        s.merged.contains(i) ==> copy_entry(s.geometry(), s.contents, i, j) != 0,
    ensures
        ({
            let g = s.geometry();
            let n = s.wrote(
                table_sector(g, s.contents, i) * 512 + 4 * j,
                le32_bytes(new),
            );
            let gi = i * g.per_table + j;
            &&& n.sound()
            &&& n.geometry() == g
            &&& n.contents.len() == s.contents.len()
            &&& forall|k: int|
                0 <= k < g.tables ==> #[trigger] table_sector(g, n.contents, k) == table_sector(
                    g,
                    s.contents,
                    k,
                )
            &&& forall|k: int|
                0 <= k < g.tables ==> #[trigger] copy_sector(g, n.contents, k) == copy_sector(
                    g,
                    s.contents,
                    k,
                )
            &&& forall|k: int, l: int|
                0 <= k < g.tables && 0 <= l < g.per_table ==> #[trigger] grain_entry(
                    g,
                    n.contents,
                    k,
                    l,
                ) == (if k == i && l == j {
                    new
                } else {
                    grain_entry(g, s.contents, k, l)
                })
            &&& forall|v: int|
                0 <= v < g.virtual_size ==> #[trigger] n.disk()[v] == (if v / g.grain_bytes == gi {
                    s.contents[new * 512 + v % g.grain_bytes]
                } else {
                    s.disk()[v]
                })
            &&& s.steps_to(&n)
            &&& extends(s.journal, n.journal)
            &&& passes_between(g, s.journal, n.journal, s.disk(), n.disk())
        }),
{
    reveal(crate::image::healthy);
    reveal(crate::image::same_reading);
    reveal(crate::image::same_map);
    reveal(State::sound);
    reveal(State::vacant);
    let g = s.geometry();
    let gi = i * g.per_table + j;
    let t = table_sector(g, s.contents, i);
    let at = t * 512 + 4 * j;
    let data = le32_bytes(new);
    let n = s.wrote(at, data);
    let c = n.contents;
    assert(n.geometry() == g);
    crate::image::lemma_grain_index(g, gi);
    let r = (new * 512, new * 512 + g.used(gi));
    assert(fresh(g, s.contents, s.extent(), r)) by {
        lemma_vacant_fresh(s, new * 512, new * 512 + g.grain_bytes);
        assert forall|x: Slot| (#[trigger] slot_range(g, s.contents, x)) is Some implies apart(
            r,
            slot_range(g, s.contents, x)->0,
        ) by {
            assert(apart(
                (new * 512, new * 512 + g.grain_bytes),
                slot_range(g, s.contents, x)->0,
            ));
        }
    }
    lemma_publish_grain(g, s.contents, s.extent(), i, j, new);
    assert(published(g, s.contents, c));
    assert(pointwise(disk(g, c), s.disk(), disk(g, c)));
    lemma_journal_after(s, c, s.disk(), disk(g, c));
    lemma_mirror_after_grain(s, i, j, new);
    lemma_clear_after_grain(s, i, j, new);
    assert forall|v: int| 0 <= v < g.virtual_size implies #[trigger] n.disk()[v] == (if v
        / g.grain_bytes == gi {
        s.contents[new * 512 + v % g.grain_bytes]
    } else {
        s.disk()[v]
    }) by {
        assert(n.disk()[v] == disk_byte(g, c, v));
        assert(s.disk()[v] == disk_byte(g, s.contents, v));
    }
    assert(s.steps_to(&n)) by {
        assert(slot_range(g, s.contents, Slot::Table(i)) is Some);
        assert(placed(g, s.contents, s.extent(), slot_range(g, s.contents, Slot::Table(i))->0));
        lemma_same_text(g, s.contents, s.extent(), at, data);
        lemma_text_recorded(g, s.journal, s.contents, written(s.contents, at, data));
        reveal(State::steps_to);
    }
}

proof fn lemma_mirror_after_grain(s: State, i: int, j: int, new: u32)
    requires
        s.sound(),
        0 <= i < s.geometry().tables,
        0 <= j < s.geometry().per_table,
        table_sector(s.geometry(), s.contents, i) != 0,
        s.merged.contains(i) ==> copy_entry(s.geometry(), s.contents, i, j) != 0,
        ({
            let g = s.geometry();
            let c = written(
                s.contents,
                table_sector(g, s.contents, i) * 512 + 4 * j,
                le32_bytes(new),
            );
            &&& forall|k: int|
                0 <= k < g.tables ==> #[trigger] copy_sector(g, c, k) == copy_sector(
                    g,
                    s.contents,
                    k,
                )
            &&& forall|k: int, l: int|
                0 <= k < g.tables && 0 <= l < g.per_table ==> #[trigger] grain_entry(g, c, k, l)
                    == (if k == i && l == j {
                    new
                } else {
                    grain_entry(g, s.contents, k, l)
                })
        }),
    ensures
        forall|k: int| #[trigger]
            s.merged.contains(k) ==> mirrored(
                s.geometry(),
                written(
                    s.contents,
                    table_sector(s.geometry(), s.contents, i) * 512 + 4 * j,
                    le32_bytes(new),
                ),
                k,
            ),
{
    reveal(crate::image::healthy);
    reveal(crate::image::same_reading);
    reveal(crate::image::same_map);
    reveal(State::sound);
    let g = s.geometry();
    let gi = i * g.per_table + j;
    let at = table_sector(g, s.contents, i) * 512 + 4 * j;
    let data = le32_bytes(new);
    let n = s.wrote(at, data);
    let c = n.contents;
    let home = Slot::Table(i);
    assert(slot_range(g, s.contents, home) is Some);
    assert forall|k: int| #[trigger] s.merged.contains(k) implies mirrored(g, c, k) by {
        assert(mirrored(g, s.contents, k));
        assert forall|l: int|
            0 <= l < g.per_table && #[trigger] grain_entry(g, c, k, l) != 0 implies copy_entry(
            g,
            c,
            k,
            l,
        ) != 0 by {
            assert(copy_sector(g, c, k) == copy_sector(g, s.contents, k));
            assert(Slot::Copy(k) != home);
            lemma_copy_kept(g, s.contents, s.extent(), at, data, k, l);
            if !(k == i && l == j) {
                assert(grain_entry(g, s.contents, k, l) != 0);
            }
        }
    }
}

proof fn lemma_clear_after_grain(s: State, i: int, j: int, new: u32)
    requires
        s.sound(),
        0 <= i < s.geometry().tables,
        0 <= j < s.geometry().per_table,
        table_sector(s.geometry(), s.contents, i) != 0,
        !hits(s.tables, new * 512, new * 512 + s.geometry().grain_bytes),
        s.geometry().meaning(new) == GrainState::At(new),
        ({
            let g = s.geometry();
            let c = written(
                s.contents,
                table_sector(g, s.contents, i) * 512 + 4 * j,
                le32_bytes(new),
            );
            &&& forall|k: int|
                0 <= k < g.tables ==> #[trigger] copy_sector(g, c, k) == copy_sector(
                    g,
                    s.contents,
                    k,
                )
            &&& forall|k: int, l: int|
                0 <= k < g.tables && 0 <= l < g.per_table ==> #[trigger] grain_entry(g, c, k, l)
                    == (if k == i && l == j {
                    new
                } else {
                    grain_entry(g, s.contents, k, l)
                })
        }),
    ensures
        ({
            let g = s.geometry();
            let c = written(
                s.contents,
                table_sector(g, s.contents, i) * 512 + 4 * j,
                le32_bytes(new),
            );
            forall|x: int|
                (#[trigger] slot_range(g, c, Slot::Grain(x))) is Some ==> !hits(
                    s.tables,
                    (slot_range(g, c, Slot::Grain(x))->0).0,
                    (slot_range(g, c, Slot::Grain(x))->0).1,
                )
        }),
{
    reveal(crate::image::healthy);
    reveal(crate::image::same_reading);
    reveal(crate::image::same_map);
    reveal(State::sound);
    let g = s.geometry();
    let gi = i * g.per_table + j;
    let at = table_sector(g, s.contents, i) * 512 + 4 * j;
    let data = le32_bytes(new);
    let n = s.wrote(at, data);
    let c = n.contents;
    assert forall|x: int| (#[trigger] slot_range(g, c, Slot::Grain(x))) is Some implies !hits(
        n.tables,
        (slot_range(g, c, Slot::Grain(x))->0).0,
        (slot_range(g, c, Slot::Grain(x))->0).1,
    ) by {
        let rx = slot_range(g, c, Slot::Grain(x))->0;
        crate::image::lemma_grain_index(g, x);
        assert(grain_entry(g, c, x / g.per_table, x % g.per_table) == (if x / g.per_table == i && x
            % g.per_table == j {
            new
        } else {
            grain_entry(g, s.contents, x / g.per_table, x % g.per_table)
        }));
        if x / g.per_table == i && x % g.per_table == j {
            assert(x == gi);
            if hits(n.tables, rx.0, rx.1) {
                let b = choose|b: int| rx.0 <= b < rx.1 && #[trigger] n.tables.contains(b);
                assert(hits(s.tables, new * 512, new * 512 + g.grain_bytes));
            }
        } else {
            assert(slot_range(g, s.contents, Slot::Grain(x)) == Some(rx));
        }
    }
}

/// Publishing an empty table in a vacant place, with nothing unsettled,
/// keeps a reader sound and its disk as it was.
pub proof fn lemma_table_goes_live(s: State, i: int, t: u32)
    requires
        s.sound(),
        s.settled(),
        0 <= i < s.geometry().tables,
        t != 0,
        table_sector(s.geometry(), s.contents, i) == 0,
        s.vacant(t * 512, t * 512 + s.geometry().table_span()),
        t * 512 + s.geometry().table_span() <= s.contents.len(),
        forall|j: int|
            0 <= j < s.geometry().per_table ==> #[trigger] entry_at(s.contents, t * 512, j) == 0,
    ensures
        ({
            let g = s.geometry();
            let n = s.wrote(g.gd_at + 4 * i, le32_bytes(t));
            &&& n.sound()
            &&& n.geometry() == g
            &&& n.contents.len() == s.contents.len()
            &&& n.disk() == s.disk()
            &&& forall|k: int|
                0 <= k < g.tables ==> #[trigger] table_sector(g, n.contents, k) == (if k == i {
                    t
                } else {
                    table_sector(g, s.contents, k)
                })
            &&& forall|k: int|
                0 <= k < g.tables ==> #[trigger] copy_sector(g, n.contents, k) == copy_sector(
                    g,
                    s.contents,
                    k,
                )
            &&& forall|k: int, l: int|
                0 <= k < g.tables && 0 <= l < g.per_table ==> #[trigger] grain_entry(
                    g,
                    n.contents,
                    k,
                    l,
                ) == grain_entry(g, s.contents, k, l)
            &&& s.keeps_to(&n)
            &&& extends(s.journal, n.journal)
            &&& passes_between(g, s.journal, n.journal, s.disk(), s.disk())
        }),
{
    reveal(crate::image::healthy);
    reveal(crate::image::same_reading);
    reveal(crate::image::same_map);
    reveal(State::sound);
    reveal(State::vacant);
    let g = s.geometry();
    let at = g.gd_at + 4 * i;
    let data = le32_bytes(t);
    let n = s.wrote(at, data);
    let c = n.contents;
    assert(n.geometry() == g);
    lemma_vacant_fresh(s, t * 512, t * 512 + g.table_span());
    lemma_publish_table(g, s.contents, s.extent(), i, t);
    assert(published(g, s.contents, c));
    lemma_journal_after(s, c, s.disk(), s.disk());
    lemma_beside_directory(s, at, data);
    assert(4 * g.tables <= g.dir_span());
    lemma_same_text(g, s.contents, s.extent(), at, data);
    lemma_text_recorded(g, s.journal, s.contents, written(s.contents, at, data));
    reveal(State::steps_to);
}

/// Publishing a copy in a vacant place keeps a reader sound and its disk
/// as it was.
pub proof fn lemma_copy_goes_live(s: State, i: int, t: u32)
    requires
        s.sound(),
        s.geometry().rgd_at is Some,
        0 <= i < s.geometry().tables,
        t != 0,
        s.vacant(t * 512, t * 512 + s.geometry().table_span()),
        t * 512 + s.geometry().table_span() <= s.contents.len(),
        s.merged.contains(i) ==> forall|j: int|
            0 <= j < s.geometry().per_table && #[trigger] grain_entry(
                s.geometry(),
                s.contents,
                i,
                j,
            ) != 0 ==> entry_at(s.contents, t * 512, j) != 0,
    ensures
        ({
            let g = s.geometry();
            let n = s.wrote(g.rgd_at->0 + 4 * i, le32_bytes(t));
            &&& n.sound()
            &&& n.geometry() == g
            &&& n.contents.len() == s.contents.len()
            &&& n.disk() == s.disk()
            &&& same_reading(g, s.contents, n.contents)
            &&& forall|k: int|
                0 <= k < g.tables ==> #[trigger] copy_sector(g, n.contents, k) == (if k == i {
                    t
                } else {
                    copy_sector(g, s.contents, k)
                })
            &&& s.keeps_to(&n)
            &&& extends(s.journal, n.journal)
            &&& passes_between(g, s.journal, n.journal, s.disk(), s.disk())
        }),
{
    reveal(crate::image::healthy);
    reveal(crate::image::same_reading);
    reveal(crate::image::same_map);
    reveal(State::sound);
    reveal(State::vacant);
    let g = s.geometry();
    let at = g.rgd_at->0 + 4 * i;
    let data = le32_bytes(t);
    let n = s.wrote(at, data);
    let c = n.contents;
    assert(n.geometry() == g);
    lemma_vacant_fresh(s, t * 512, t * 512 + g.table_span());
    lemma_publish_copy(g, s.contents, s.extent(), i, t);
    assert(same_reading(g, s.contents, c));
    lemma_journal_after(s, c, s.disk(), s.disk());
    lemma_beside_directory_but(s, at, data, i, t);
    assert(4 * g.tables <= g.dir_span());
    lemma_same_text(g, s.contents, s.extent(), at, data);
    lemma_text_recorded(g, s.journal, s.contents, written(s.contents, at, data));
    reveal(State::steps_to);
}

/// What of a sound reader rests on the grains' entries survives a write
/// into a directory that keeps them.
proof fn lemma_beside_directory(s: State, at: int, data: Seq<u8>)
    requires
        s.sound(),
        ({
            let g = s.geometry();
            let c = written(s.contents, at, data);
            &&& g.gd_at <= at
            &&& at + data.len() <= g.gd_at + g.dir_span()
            &&& healthy(g, c, s.extent())
            &&& s.wrote(at, data).journal_ok()
            &&& forall|k: int|
                0 <= k < g.tables ==> #[trigger] copy_sector(g, c, k) == copy_sector(
                    g,
                    s.contents,
                    k,
                )
            &&& forall|k: int, l: int|
                0 <= k < g.tables && 0 <= l < g.per_table ==> #[trigger] grain_entry(g, c, k, l)
                    == grain_entry(g, s.contents, k, l)
        }),
    ensures
        s.wrote(at, data).sound(),
{
    reveal(crate::image::healthy);
    reveal(crate::image::same_reading);
    reveal(crate::image::same_map);
    reveal(State::sound);
    let g = s.geometry();
    let n = s.wrote(at, data);
    let c = n.contents;
    assert(n.geometry() == g);
    assert forall|k: int| #[trigger] s.merged.contains(k) implies mirrored(g, c, k) by {
        assert(mirrored(g, s.contents, k));
        assert forall|l: int|
            0 <= l < g.per_table && #[trigger] grain_entry(g, c, k, l) != 0 implies copy_entry(
            g,
            c,
            k,
            l,
        ) != 0 by {
            assert(copy_sector(g, c, k) == copy_sector(g, s.contents, k));
            if slot_range(g, s.contents, Slot::Copy(k)) is Some {
                assert(placed(
                    g,
                    s.contents,
                    s.extent(),
                    slot_range(g, s.contents, Slot::Copy(k))->0,
                ));
            }
            lemma_copy_kept(g, s.contents, s.extent(), at, data, k, l);
            assert(grain_entry(g, s.contents, k, l) != 0);
        }
    }
    lemma_grains_unmoved(s, c);
}

proof fn lemma_beside_directory_but(s: State, at: int, data: Seq<u8>, i: int, t: u32)
    requires
        s.sound(),
        ({
            let g = s.geometry();
            let c = written(s.contents, at, data);
            &&& g.rgd_at is Some
            &&& g.rgd_at->0 <= at
            &&& at + data.len() <= g.rgd_at->0 + g.dir_span()
            &&& healthy(g, c, s.extent())
            &&& s.wrote(at, data).journal_ok()
            &&& 0 <= i < g.tables
            &&& t != 0
            &&& s.vacant(t * 512, t * 512 + g.table_span())
            &&& t * 512 + g.table_span() <= s.contents.len()
            &&& forall|k: int|
                0 <= k < g.tables ==> #[trigger] copy_sector(g, c, k) == (if k == i {
                    t
                } else {
                    copy_sector(g, s.contents, k)
                })
            &&& forall|k: int, l: int|
                0 <= k < g.tables && 0 <= l < g.per_table ==> #[trigger] grain_entry(g, c, k, l)
                    == grain_entry(g, s.contents, k, l)
            &&& s.merged.contains(i) ==> forall|j: int|
                0 <= j < g.per_table && #[trigger] grain_entry(g, s.contents, i, j) != 0
                    ==> entry_at(s.contents, t * 512, j) != 0
        }),
    ensures
        s.wrote(at, data).sound(),
{
    reveal(crate::image::healthy);
    reveal(crate::image::same_reading);
    reveal(crate::image::same_map);
    reveal(State::sound);
    reveal(State::vacant);
    let g = s.geometry();
    let n = s.wrote(at, data);
    let c = n.contents;
    assert(n.geometry() == g);
    assert forall|k: int| #[trigger] s.merged.contains(k) implies mirrored(g, c, k) by {
        assert(mirrored(g, s.contents, k));
        assert forall|l: int|
            0 <= l < g.per_table && #[trigger] grain_entry(g, c, k, l) != 0 implies copy_entry(
            g,
            c,
            k,
            l,
        ) != 0 by {
            assert(grain_entry(g, s.contents, k, l) != 0);
            if k == i {
                assert(copy_sector(g, c, k) == t);
                crate::image::lemma_entry_kept(s.contents, at, data, t * 512, l);
            } else {
                assert(copy_sector(g, c, k) == copy_sector(g, s.contents, k));
                if slot_range(g, s.contents, Slot::Copy(k)) is Some {
                    assert(placed(
                        g,
                        s.contents,
                        s.extent(),
                        slot_range(g, s.contents, Slot::Copy(k))->0,
                    ));
                }
                lemma_copy_kept(g, s.contents, s.extent(), at, data, k, l);
            }
        }
    }
    lemma_grains_unmoved(s, c);
}

proof fn lemma_grains_unmoved(s: State, c: Seq<u8>)
    requires
        s.sound(),
        forall|k: int, l: int|
            0 <= k < s.geometry().tables && 0 <= l < s.geometry().per_table
                ==> #[trigger] grain_entry(s.geometry(), c, k, l) == grain_entry(
                s.geometry(),
                s.contents,
                k,
                l,
            ),
    ensures
        forall|gi: int|
            (#[trigger] slot_range(s.geometry(), c, Slot::Grain(gi))) is Some ==> !hits(
                s.tables,
                (slot_range(s.geometry(), c, Slot::Grain(gi))->0).0,
                (slot_range(s.geometry(), c, Slot::Grain(gi))->0).1,
            ),
{
    reveal(crate::image::healthy);
    reveal(crate::image::same_reading);
    reveal(crate::image::same_map);
    reveal(State::sound);
    let g = s.geometry();
    assert forall|gi: int| (#[trigger] slot_range(g, c, Slot::Grain(gi))) is Some implies !hits(
        s.tables,
        (slot_range(g, c, Slot::Grain(gi))->0).0,
        (slot_range(g, c, Slot::Grain(gi))->0).1,
    ) by {
        crate::image::lemma_grain_index(g, gi);
        assert(grain_entry(g, c, gi / g.per_table, gi % g.per_table) == grain_entry(
            g,
            s.contents,
            gi / g.per_table,
            gi % g.per_table,
        ));
        assert(slot_range(g, s.contents, Slot::Grain(gi)) == slot_range(g, c, Slot::Grain(gi)));
    }
}

impl State {
    /// Whether two states are of one session: what opening fixed is the
    /// same, and so are the two marks a write leaves on the image.
    pub open spec fn same_session(&self, n: &State) -> bool {
        &&& n.header == self.header
        &&& n.descriptor == self.descriptor
        &&& n.redundant == self.redundant
        &&& n.fixed == self.fixed
        &&& n.floor == self.floor
        &&& n.writable == self.writable
        &&& n.reliable == self.reliable
        &&& n.content_id_bumped == self.content_id_bumped
        &&& n.unclean_marked == self.unclean_marked
        &&& self.cursor <= n.cursor
    }

    /// Whether `n` follows this state by writes on whose way each byte of
    /// the disk is as before or as after.
    #[verifier::opaque]
    pub open spec fn steps_to(&self, n: &State) -> bool {
        &&& self.same_session(n)
        &&& same_text(self.geometry(), self.contents, n.contents)
        &&& self.contents.len() <= n.contents.len()
        &&& extends(self.journal, n.journal)
        &&& passes_between(self.geometry(), self.journal, n.journal, self.disk(), n.disk())
        &&& text_throughout(self.geometry(), self.journal, n.journal, self.contents)
    }

    /// Whether `n` follows this state by writes that leave the disk as it
    /// is.
    pub open spec fn keeps_to(&self, n: &State) -> bool {
        self.steps_to(n) && n.disk() == self.disk()
    }
}

/// A step that keeps the disk may precede another.
pub proof fn lemma_keep_step(a: State, b: State, c: State)
    requires
        a.keeps_to(&b),
        b.steps_to(&c),
    ensures
        a.steps_to(&c),
{
    reveal(State::steps_to);
    let g = a.geometry();
    lemma_text_trans(g, a.contents, b.contents, c.contents);
    assert(b.geometry() == g);
    lemma_text_through_trans(g, a.journal, b.journal, c.journal, a.contents, b.contents);
    lemma_self_pointwise(a.disk(), c.disk());
    lemma_between_widen(g, a.journal, b.journal, a.disk(), a.disk(), a.disk(), c.disk());
    lemma_between_trans(g, a.journal, b.journal, c.journal, a.disk(), c.disk());
}

pub proof fn lemma_self_pointwise(a: Seq<u8>, b: Seq<u8>)
    ensures
        a.len() == b.len() ==> pointwise(a, a, b) && pointwise(a, b, a) && pointwise(b, a, b),
{
}

/// A state follows itself.
pub proof fn lemma_stays(a: State)
    ensures
        a.keeps_to(&a),
{
    lemma_text_reflexive(a.geometry(), a.contents);
    lemma_text_unrecorded(a.geometry(), a.journal, a.contents);
    reveal(State::steps_to);
}

/// A vacant range stays vacant while the map and the fixed regions stay
/// and the file does not shrink.
pub proof fn lemma_still_vacant(s: State, n: State, lo: int, hi: int)
    requires
        s.sound(),
        s.vacant(lo, hi),
        n.geometry() == s.geometry(),
        s.cursor <= n.cursor,
        same_map(s.geometry(), s.contents, n.contents),
    ensures
        n.vacant(lo, hi),
{
    reveal(crate::image::healthy);
    reveal(crate::image::same_reading);
    reveal(crate::image::same_map);
    reveal(State::sound);
    reveal(State::vacant);
    let g = s.geometry();
    lemma_same_map_slots(g, s.contents, n.contents);
    assert forall|t: Slot| (#[trigger] slot_range(g, n.contents, t)) is Some implies apart(
        (lo, hi),
        slot_range(g, n.contents, t)->0,
    ) by {
        assert(slot_range(g, s.contents, t) is Some);
    }
}

/// A vacant range stays vacant when a copy goes live elsewhere.
pub proof fn lemma_vacant_beside_copy(s: State, n: State, i: int, t: u32, lo: int, hi: int)
    requires
        s.sound(),
        s.vacant(lo, hi),
        n.geometry() == s.geometry(),
        s.cursor <= n.cursor,
        same_reading(s.geometry(), s.contents, n.contents),
        forall|k: int|
            0 <= k < s.geometry().tables ==> #[trigger] copy_sector(s.geometry(), n.contents, k)
                == (if k == i {
                t
            } else {
                copy_sector(s.geometry(), s.contents, k)
            }),
        apart((lo, hi), (t * 512, t * 512 + s.geometry().table_span())),
    ensures
        n.vacant(lo, hi),
{
    reveal(crate::image::healthy);
    reveal(crate::image::same_reading);
    reveal(crate::image::same_map);
    reveal(State::sound);
    reveal(State::vacant);
    let g = s.geometry();
    assert forall|x: Slot| (#[trigger] slot_range(g, n.contents, x)) is Some implies apart(
        (lo, hi),
        slot_range(g, n.contents, x)->0,
    ) by {
        match x {
            Slot::Table(k) => {
                assert(table_sector(g, s.contents, k) == table_sector(g, n.contents, k));
                assert(slot_range(g, s.contents, x) is Some);
            },
            Slot::Copy(k) => {
                assert(copy_sector(g, n.contents, k) == (if k == i {
                    t
                } else {
                    copy_sector(g, s.contents, k)
                }));
                if k != i {
                    assert(slot_range(g, s.contents, x) is Some);
                }
            },
            Slot::Grain(gi) => {
                crate::image::lemma_grain_index(g, gi);
                assert(grain_entry(g, s.contents, gi / g.per_table, gi % g.per_table)
                    == grain_entry(g, n.contents, gi / g.per_table, gi % g.per_table));
                assert(slot_range(g, s.contents, x) is Some);
            },
        }
    }
}

/// Two contents in which every grain has the same entry.
#[verifier::opaque]
pub open spec fn same_entries(g: Geometry, c: Seq<u8>, d: Seq<u8>) -> bool {
    forall|k: int, l: int|
        0 <= k < g.tables && 0 <= l < g.per_table ==> #[trigger] grain_entry(g, c, k, l)
            == grain_entry(g, d, k, l)
}

pub proof fn lemma_entries_trans(g: Geometry, a: Seq<u8>, b: Seq<u8>, c: Seq<u8>)
    requires
        same_entries(g, a, b),
        same_entries(g, b, c),
    ensures
        same_entries(g, a, c),
{
    reveal(same_entries);
    assert forall|k: int, l: int|
        0 <= k < g.tables && 0 <= l < g.per_table implies #[trigger] grain_entry(g, a, k, l)
        == grain_entry(g, c, k, l) by {
        assert(grain_entry(g, a, k, l) == grain_entry(g, b, k, l));
        assert(grain_entry(g, b, k, l) == grain_entry(g, c, k, l));
    }
}

pub proof fn lemma_map_entries(g: Geometry, a: Seq<u8>, b: Seq<u8>)
    ensures
        same_reading(g, a, b) ==> same_entries(g, a, b),
        same_map(g, a, b) ==> same_entries(g, a, b) && same_reading(g, a, b),
{
    reveal(same_entries);
    reveal(crate::image::same_reading);
    reveal(crate::image::same_map);
}

/// Noting that a copy mirrors its table keeps a reader sound.
pub proof fn lemma_noted(s: State, i: int)
    requires
        s.sound(),
        s.redundant,
        0 <= i < s.geometry().tables,
        mirrored(s.geometry(), s.contents, i),
    ensures
        (State { merged: s.merged.insert(i), ..s }).sound(),
        s.keeps_to(&(State { merged: s.merged.insert(i), ..s })),
{
    reveal(State::sound);
    lemma_text_reflexive(s.geometry(), s.contents);
    lemma_text_unrecorded(s.geometry(), s.journal, s.contents);
    reveal(State::steps_to);
    let n = State { merged: s.merged.insert(i), ..s };
    assert(n.geometry() == s.geometry());
    assert(n.journal_ok());
    assert forall|k: int| #[trigger] n.merged.contains(k) implies s.redundant && 0 <= k
        < s.geometry().tables && mirrored(s.geometry(), s.contents, k) by {
        if k != i {
            assert(s.merged.contains(k));
        }
    }
}

/// What a step leaves as it was.
pub proof fn lemma_step_frame(a: State, b: State)
    requires
        a.steps_to(&b),
    ensures
        a.same_session(&b),
        b.geometry() == a.geometry(),
        b.table_sectors() == a.table_sectors(),
        a.contents.len() <= b.contents.len(),
        same_text(a.geometry(), a.contents, b.contents),
        extends(a.journal, b.journal),
        passes_between(a.geometry(), a.journal, b.journal, a.disk(), b.disk()),
        text_throughout(a.geometry(), a.journal, b.journal, a.contents),
{
    reveal(State::steps_to);
}

} // verus!
