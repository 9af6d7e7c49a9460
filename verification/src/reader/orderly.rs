//! Images on which a write changes what it is told to and nothing else:
//! every grain can be read, and no two share a byte. What the redundant
//! copies of the grain tables say does not matter.

use super::beside_text::{
    lemma_grounded_beside_text, lemma_guarded_beside_text, lemma_rooted_beside_text,
};
use super::damage::lemma_part_keeps_protection;
use super::effect::{
    lemma_clear, lemma_clear_write, lemma_copy_session, lemma_entry_session, lemma_grain_session,
    lemma_part_session, lemma_table_session, lemma_with_copy, lemma_with_entry, lemma_with_grain,
    lemma_with_table, lemma_within_clear, usable,
};
use super::grain::{lemma_grain_reachable, lemma_table_loads};
use super::state::{bytes_at, hits, zeros, State};
use crate::bytes::overlaid;
use crate::error::Error;
use crate::image::{
    apart, copy_sector, entry_at, grain_entry, grain_state, healthy, lemma_byte_in_grain,
    lemma_grain_index, lemma_offset_of, placed, sectors_up, slot_range, table_sector, Geometry, GrainState,
    Slot,
};
use vstd::prelude::*;

verus! {

/// Whether one of the `len` bytes at `v` lies in grain `gi`.
pub open spec fn touches(g: Geometry, v: int, len: int, gi: int) -> bool {
    0 < len && gi * g.grain_bytes < v + len && v < gi * g.grain_bytes + g.grain_bytes
}

impl State {
    /// Whether `x` is a grain table or a redundant copy of one that lies in
    /// the image and clear of the fixed regions.
    pub open spec fn live(&self, x: Slot) -> bool {
        &&& x !is Grain
        &&& slot_range(self.geometry(), self.contents, x) is Some
        &&& ({
            let r = slot_range(self.geometry(), self.contents, x)->0;
            r.1 <= self.extent() && !hits(self.fixed, r.0, r.1)
        })
    }

    /// Whether the live tables and copies are apart and protected.
    pub open spec fn spread(&self) -> bool {
        let g = self.geometry();
        &&& forall|x: Slot, y: Slot|
            x != y && #[trigger] self.live(x) && #[trigger] self.live(y) ==> apart(
                slot_range(g, self.contents, x)->0,
                slot_range(g, self.contents, y)->0,
            )
        &&& forall|x: Slot, b: int| #[trigger]
            self.live(x) && (slot_range(g, self.contents, x)->0).0 <= b < (slot_range(
                g,
                self.contents,
                x,
            )->0).0 + 4 * g.per_table ==> #[trigger] self.tables.contains(b)
    }

    /// Whether an image's metadata is protected, no entry of a directory
    /// names a place past the end, and the tables are spread.
    pub open spec fn tidy(&self) -> bool {
        self.guarded() && self.rooted() && self.spread()
    }

    /// Whether grain `gi` can be read: nothing about its table or its place
    /// is refused, and the device holds the bytes of both.
    pub open spec fn grain_readable(&self, gi: int) -> bool {
        let g = self.geometry();
        &&& self.entry(gi) is Ok
        &&& self.table_held(gi)
        &&& g.meaning(self.entry(gi)->Ok_0) matches GrainState::At(t) ==> {
            &&& self.host_offset(t, 0, g.used(gi)) is Ok
            &&& t * 512 + g.used(gi) <= self.contents.len()
        }
    }

    /// The entry of grain `gi` in its table, zero where there is no table.
    pub open spec fn entry_of(&self, gi: int) -> u32 {
        let g = self.geometry();
        grain_entry(g, self.contents, gi / g.per_table, gi % g.per_table)
    }

    /// Whether `n` has for grain `gi` the entry that a write of `len` bytes
    /// at `v` leaves: the one it had, if it has a place or the write does
    /// not touch it, and one that names a place at what was the tail
    /// otherwise.
    pub open spec fn entry_moves(&self, n: &State, v: int, len: int, gi: int) -> bool {
        let g = self.geometry();
        let e = n.entry_of(gi);
        if g.meaning(self.entry_of(gi)) is At || !touches(g, v, len, gi) {
            e == self.entry_of(gi)
        } else {
            g.meaning(e) == GrainState::At(e) && e * 512 >= self.extent()
        }
    }

    /// Whether `n` has the grain map that a write of `len` bytes at `v`
    /// leaves.
    pub open spec fn maps_to(&self, n: &State, v: int, len: int) -> bool {
        forall|gi: int|
            self.geometry().has_grain(gi) ==> #[trigger] self.entry_moves(n, v, len, gi)
    }

    /// Whether every grain of the disk can be read.
    pub open spec fn readable(&self) -> bool {
        let g = self.geometry();
        &&& g.wf()
        &&& !self.header.stream()
        &&& forall|gi: int| g.has_grain(gi) ==> #[trigger] self.grain_readable(gi)
    }

    /// Whether grains `gi` and `gj`, where both have a place, share no byte.
    pub open spec fn grains_apart(&self, gi: int, gj: int) -> bool {
        let g = self.geometry();
        let x = slot_range(g, self.contents, Slot::Grain(gi));
        let y = slot_range(g, self.contents, Slot::Grain(gj));
        x is Some && y is Some ==> apart(x->0, y->0)
    }

    /// Whether an image is tidy, every grain of the disk can be read, and no two share a byte.
    pub open spec fn orderly(&self) -> bool {
        let g = self.geometry();
        &&& self.tidy()
        &&& self.readable()
        &&& forall|gi: int, gj: int|
            g.has_grain(gi) && g.has_grain(gj) && gi != gj ==> #[trigger] self.grains_apart(gi, gj)
    }
}

/// The entry of a grain that can be read is the one its table holds.
proof fn lemma_entry_of(s: State, gi: int)
    requires
        s.geometry().wf(),
        s.geometry().has_grain(gi),
        s.grain_readable(gi),
    ensures
        ({
            let g = s.geometry();
            let i = gi / g.per_table;
            let j = gi % g.per_table;
            let t = table_sector(g, s.contents, i);
            &&& s.entry(gi) == Ok::<u32, Error>(grain_entry(g, s.contents, i, j))
            &&& grain_state(g, s.contents, gi) == g.meaning(s.entry(gi)->Ok_0)
            &&& t != 0 ==> s.table_refusal(t) is None
            &&& 0 <= i < g.tables
            &&& 0 <= j < g.per_table
            &&& gi == i * g.per_table + j
            &&& 0 < g.used(gi) <= g.grain_bytes
            &&& grain_state(g, s.contents, gi) matches GrainState::At(e) ==> slot_range(
                g,
                s.contents,
                Slot::Grain(gi),
            ) == Some((e * 512, e * 512 + g.used(gi)))
        }),
{
    lemma_grain_index(s.geometry(), gi);
}

/// A part of a grain that can be read is where the grain is.
proof fn lemma_part_reachable(s: State, t: u32, used: int, k: int, n: int)
    requires
        s.host_offset(t, 0, used) is Ok,
        0 <= k,
        0 < n,
        k + n <= used,
    ensures
        s.host_offset(t, k, n) == Ok::<int, Error>(t * 512 + k),
{
    lemma_within_clear(s.fixed, t * 512, t * 512 + used, t * 512 + k, t * 512 + k + n);
    lemma_within_clear(s.tables, t * 512, t * 512 + used, t * 512 + k, t * 512 + k + n);
}

/// One grain's part of the disk of an image that can be read.
proof fn lemma_readable_chunk(s: State, v: int, end: int)
    requires
        s.readable(),
        0 <= v < end,
        end <= s.geometry().virtual_size,
    ensures
        0 < s.chunk_len(v, end) <= end - v,
        s.chunk(v, end) == Ok::<Seq<u8>, Error>(
            s.disk().subrange(v, v + s.chunk_len(v, end)),
        ),
        s.chunk_held(v, end),
{
    let g = s.geometry();
    let c = s.contents;
    let n = s.chunk_len(v, end);
    let gi = v / g.grain_bytes;
    let k = v % g.grain_bytes;
    lemma_byte_in_grain(g, v);
    assert(s.grain_readable(gi));
    lemma_entry_of(s, gi);
    let part = s.disk().subrange(v, v + n);
    assert forall|x: int| 0 <= x < n implies #[trigger] part[x] == (match grain_state(g, c, gi) {
        GrainState::At(t) => c[t * 512 + k + x],
        _ => 0,
    }) by {
        lemma_offset_of(g, gi, k + x);
    }
    match grain_state(g, c, gi) {
        GrainState::At(t) => {
            lemma_part_reachable(s, t, g.used(gi), k, n);
            assert(bytes_at(c, t * 512 + k, n) =~= part);
        },
        _ => {
            assert(zeros(n) =~= part);
        },
    }
}

proof fn lemma_readable_range(s: State, v: int, end: int)
    requires
        s.readable(),
        0 <= v <= end,
        end <= s.geometry().virtual_size,
    ensures
        s.range(v, end) == Ok::<Seq<u8>, Error>(s.disk().subrange(v, end)),
    decreases end - v,
{
    if v == end {
        assert(s.disk().subrange(v, end) =~= Seq::<u8>::empty());
    } else {
        lemma_readable_chunk(s, v, end);
        let n = s.chunk_len(v, end);
        lemma_readable_range(s, v + n, end);
        assert(s.disk().subrange(v, v + n) + s.disk().subrange(v + n, end)
            =~= s.disk().subrange(v, end));
    }
}

/// A grain clear of a table's entries is clear of the whole sectors that
/// the table takes: both begin where a sector does.
pub(super) proof fn lemma_clear_of_sectors(a: u32, used: int, t: u32, len: int)
    requires
        0 < len,
        apart((a * 512, a * 512 + used), (t * 512, t * 512 + len)),
    ensures
        apart((a * 512, a * 512 + used), (t * 512, t * 512 + crate::image::sectors_up(len))),
{
}

/// A grain that can be read lies in the image, clear of the fixed regions
/// and of every live table.
proof fn lemma_grain_clear(s: State, gi: int, x: Slot)
    requires
        s.orderly(),
        s.geometry().has_grain(gi),
        grain_state(s.geometry(), s.contents, gi) is At,
    ensures
        ({
            let g = s.geometry();
            let r = slot_range(g, s.contents, Slot::Grain(gi))->0;
            let t = grain_state(g, s.contents, gi)->At_0;
            &&& slot_range(g, s.contents, Slot::Grain(gi)) is Some
            &&& r == (t * 512, t * 512 + g.used(gi))
            &&& 0 < g.used(gi) <= g.grain_bytes
            &&& r.1 <= s.extent()
            &&& r.1 <= s.contents.len()
            &&& s.floor <= r.0
            &&& r.1 <= u64::MAX
            &&& !hits(s.fixed, r.0, r.1)
            &&& !hits(s.tables, r.0, r.1)
            &&& s.live(x) ==> apart(r, slot_range(g, s.contents, x)->0)
        }),
{
    let g = s.geometry();
    assert(s.grain_readable(gi));
    lemma_entry_of(s, gi);
    let r = slot_range(g, s.contents, Slot::Grain(gi))->0;
    let t = grain_state(g, s.contents, gi)->At_0;
    if s.live(x) {
        let y = slot_range(g, s.contents, x)->0;
        assert forall|b: int| y.0 <= b < y.0 + 4 * g.per_table implies #[trigger] s.tables.contains(
            b,
        ) by {
            assert(s.live(x));
        }
        lemma_clear(s.tables, r.0, r.1, y.0, y.0 + 4 * g.per_table);
        match x {
            Slot::Table(i) => lemma_clear_of_sectors(
                t,
                g.used(gi),
                table_sector(g, s.contents, i),
                4 * g.per_table,
            ),
            Slot::Copy(i) => lemma_clear_of_sectors(
                t,
                g.used(gi),
                copy_sector(g, s.contents, i),
                4 * g.per_table,
            ),
            Slot::Grain(_) => {},
        }
    }
}

/// Where every grain of an image can be read, reading gives its disk, and
/// only a device that fails reads it holds the bytes of can make that fail.
pub proof fn law_reading_a_readable_image(s: State, offset: int, len: int)
    requires
        s.readable(),
        0 <= offset,
        0 <= len,
        offset + len <= s.geometry().virtual_size <= u64::MAX,
    ensures
        s.read(offset, len) == Ok::<Seq<u8>, Error>(s.disk().subrange(offset, offset + len)),
        s.reliable ==> s.served_for(offset, offset + len),
{
    if len == 0 {
        assert(s.disk().subrange(offset, offset + len) =~= Seq::<u8>::empty());
    } else {
        lemma_readable_range(s, offset, offset + len);
    }
    assert forall|u: int| offset <= u < offset + len implies #[trigger] s.chunk_held(
        u,
        offset + len,
    ) by {
        lemma_readable_chunk(s, u, offset + len);
    }
}

impl State {
    /// Whether `n` follows this state by giving grain `j` of table `i` the
    /// place at sector `new`, with `src` at `k` in it and zeros around it:
    /// nothing that a read of another grain follows has changed.
    #[verifier::opaque]
    pub open spec fn gains(&self, n: &State, i: int, j: int, new: u32, k: int, src: Seq<u8>) -> bool {
        let g = self.geometry();
        let t = table_sector(g, self.contents, i);
        let u = table_sector(g, n.contents, i);
        let q = copy_sector(g, n.contents, i);
        &&& self.same_session(n)
        &&& self.extent() <= n.extent() <= n.contents.len()
        &&& self.contents.len() <= n.contents.len()
        &&& forall|b: int|
            #[trigger] n.tables.contains(b) ==> self.tables.contains(b) || b >= self.extent()
        &&& forall|b: int| #[trigger] self.tables.contains(b) ==> n.tables.contains(b)
        &&& self.redundant && q != copy_sector(g, self.contents, i) ==> forall|b: int|
            q * 512 <= b < q * 512 + g.table_span() ==> #[trigger] n.tables.contains(b)
        &&& forall|b: int|
            0 <= b < self.extent() && b < self.contents.len() && !self.fixed.contains(b)
                && !self.in_copy(i, b) && !(t != 0 && t * 512 <= b < t * 512 + g.table_span())
                ==> #[trigger] n.contents[b] == self.contents[b]
        &&& forall|l: int|
            0 <= l < g.tables && l != i ==> #[trigger] table_sector(g, n.contents, l)
                == table_sector(g, self.contents, l)
        &&& forall|l: int|
            0 <= l < g.tables && l != i ==> #[trigger] copy_sector(g, n.contents, l)
                == copy_sector(g, self.contents, l)
        &&& u != 0
        &&& n.table_refusal(u) is None
        &&& t != 0 ==> u == t
        &&& t == 0 ==> u * 512 >= self.extent()
        &&& self.redundant ==> q != 0 && n.copy_refusal(q) is None
        &&& q == copy_sector(g, self.contents, i) || q * 512 >= self.extent()
        &&& t == 0 && self.redundant ==> q * 512 >= self.extent() && apart(
            (u * 512, u * 512 + g.table_span()),
            (q * 512, q * 512 + g.table_span()),
        )
        &&& forall|l: int|
            0 <= l < g.per_table ==> #[trigger] entry_at(n.contents, u * 512, l) == (if l == j {
                new
            } else {
                grain_entry(g, self.contents, i, l)
            })
        &&& new * 512 >= self.extent()
        &&& g.meaning(new) == GrainState::At(new)
        &&& n.floor <= new * 512
        &&& new * 512 + g.grain_bytes <= n.extent()
        &&& new * 512 + g.grain_bytes <= n.contents.len()
        &&& new * 512 + g.grain_bytes <= u64::MAX
        &&& !hits(n.fixed, new * 512, new * 512 + g.grain_bytes)
        &&& !hits(n.tables, new * 512, new * 512 + g.grain_bytes)
        &&& forall|x: int|
            0 <= x < g.grain_bytes ==> #[trigger] n.contents[new * 512 + x] == (if k <= x < k
                + src.len() {
                src[x - k]
            } else {
                0
            })
    }
}

/// What a grain placed in a table that is there leaves as it was.
proof fn lemma_gains_in_table(s: State, i: int, j: int, k: int, src: Seq<u8>)
    requires
        usable(s, i),
        2 <= s.cursor,
        0 <= j < s.geometry().per_table,
        0 <= k,
        0 < src.len(),
        k + src.len() <= s.geometry().grain_bytes,
        s.with_grain_in_table(i, j, k, src).1 is None,
    ensures
        exists|new: u32| #[trigger]
            s.gains(&s.with_grain_in_table(i, j, k, src).0, i, j, new, k, src),
{
    reveal(State::with_grain_in_table);
    lemma_with_copy(s, i);
    lemma_copy_session(s, i);
    let b = s.with_copy(i).0;
    lemma_with_grain(b, i, k, src);
    lemma_grain_session(b, k, src);
    let c = b.with_grain(k, src).0;
    let new = b.cursor as u32;
    lemma_with_entry(c, i, j, new);
    lemma_entry_session(c, i, j, new);
    let n = c.with_entry(i, j, new);
    assert(n.tables == c.tables);
    assert(n.cursor == c.cursor);
    lemma_gains_chain(s, b, c, n, i, j, new, k, src);
    assert(n == s.with_grain_in_table(i, j, k, src).0);
    assert(s.gains(&s.with_grain_in_table(i, j, k, src).0, i, j, new, k, src));
}

/// The steps of placing a grain in a table that is there, put together.
proof fn lemma_gains_chain(
    s: State,
    b: State,
    c: State,
    n: State,
    i: int,
    j: int,
    new: u32,
    k: int,
    src: Seq<u8>,
)
    requires
        usable(s, i),
        2 <= s.cursor,
        0 <= j < s.geometry().per_table,
        0 <= k,
        k + src.len() <= s.geometry().grain_bytes,
        // The copy is prepared.
        b.prepared(i),
        b.geometry() == s.geometry(),
        s.same_session(&b),
        s.contents.len() <= b.contents.len(),
        ({
            let g = s.geometry();
            let t = table_sector(g, s.contents, i);
            &&& forall|l: int|
                0 <= l < g.tables ==> #[trigger] table_sector(g, b.contents, l) == table_sector(
                    g,
                    s.contents,
                    l,
                )
            &&& forall|l: int|
                0 <= l < g.tables ==> #[trigger] copy_sector(g, b.contents, l) == (if l == i
                    && s.redundant {
                    s.copy_at(i)->0
                } else {
                    copy_sector(g, s.contents, l)
                })
            &&& forall|x: int|
                t * 512 <= x < t * 512 + g.table_span() ==> #[trigger] b.contents[x]
                    == s.contents[x]
        }),
        forall|x: int|
            0 <= x < s.extent() && x < s.contents.len() && !s.fixed.contains(x) && !s.in_copy(i, x)
                ==> #[trigger] b.contents[x] == s.contents[x],
        forall|x: int| #[trigger] b.tables.contains(x) ==> s.tables.contains(x) || x >= s.extent(),
        forall|x: int| #[trigger] s.tables.contains(x) ==> b.tables.contains(x),
        s.redundant && copy_sector(s.geometry(), s.contents, i) == 0 ==> forall|x: int|
            s.cursor * 512 <= x < s.cursor * 512 + s.geometry().table_span()
                ==> #[trigger] b.tables.contains(x),
        ({
            let q = copy_sector(s.geometry(), s.contents, i);
            s.redundant && q != 0 ==> s.copy_refusal(q) is None
        }),
        s.copy_at(i) matches Some(q) ==> q == copy_sector(s.geometry(), s.contents, i) || q
            == s.cursor,
        // The grain is laid at the tail.
        c.geometry() == s.geometry(),
        b.same_session(&c),
        c.tables == b.tables,
        b.agrees_below(&c, b.extent()),
        b.keeps_directories(&c),
        c.prepared(i),
        b.cursor == new,
        b.extent() == new * 512,
        c.extent() == new * 512 + s.geometry().grain_bytes,
        new * 512 + s.geometry().grain_bytes <= c.contents.len(),
        !hits(c.fixed, new * 512, new * 512 + s.geometry().grain_bytes),
        !hits(c.tables, new * 512, new * 512 + s.geometry().grain_bytes),
        forall|x: int|
            0 <= x < s.geometry().grain_bytes ==> #[trigger] c.contents[new * 512 + x] == (if k <= x
                < k + src.len() {
                src[x - k]
            } else {
                0
            }),
        // Its entry is set.
        n.geometry() == s.geometry(),
        c.same_session(&n),
        n.tables == c.tables,
        n.cursor == c.cursor,
        n.contents.len() == c.contents.len(),
        c.keeps_directories(&n),
        ({
            let g = s.geometry();
            let t = table_sector(g, c.contents, i);
            let q = copy_sector(g, c.contents, i);
            &&& forall|l: int|
                0 <= l < g.per_table ==> #[trigger] entry_at(n.contents, t * 512, l) == (if l == j {
                    new
                } else {
                    entry_at(c.contents, t * 512, l)
                })
            &&& forall|x: int|
                0 <= x < c.contents.len() && !(t * 512 <= x < t * 512 + g.table_span()) && !(
                c.redundant && q * 512 <= x < q * 512 + g.table_span()) ==> #[trigger] n.contents[x]
                    == c.contents[x]
        }),
    ensures
        s.gains(&n, i, j, new, k, src),
{
    reveal(State::gains);
    let g = s.geometry();
    let t = table_sector(g, s.contents, i);
    let q = copy_sector(g, b.contents, i);
    assert(0 < 4 * g.per_table <= g.table_span());
    assert(table_sector(g, b.contents, i) == t && table_sector(g, c.contents, i) == t
        && table_sector(g, n.contents, i) == t);
    assert(copy_sector(g, c.contents, i) == q && copy_sector(g, n.contents, i) == q);
    assert(b.table_guarded(i));
    assert(s.extent() <= b.extent() <= c.extent() && n.extent() == c.extent());
    assert(s.redundant ==> q == s.copy_at(i)->0);
    assert(q == copy_sector(g, s.contents, i) || q * 512 >= s.extent());
    assert forall|x: int|
        0 <= x < s.extent() && x < s.contents.len() && !s.fixed.contains(x) && !s.in_copy(i, x)
            && !(t != 0 && t * 512 <= x < t * 512 + g.table_span()) implies #[trigger] n.contents[x]
        == s.contents[x] by {
        assert(b.contents[x] == s.contents[x]);
        assert(c.contents[x] == b.contents[x]);
        if s.redundant && q * 512 <= x < q * 512 + g.table_span() {
            assert(q == copy_sector(g, s.contents, i));
            assert(s.in_copy(i, x));
        }
        assert(n.contents[x] == c.contents[x]);
    }
    assert forall|l: int| 0 <= l < g.per_table implies #[trigger] entry_at(n.contents, t * 512, l)
        == (if l == j {
        new
    } else {
        grain_entry(g, s.contents, i, l)
    }) by {
        let p = t * 512 + 4 * l;
        assert forall|x: int| p <= x < p + 4 implies #[trigger] c.contents[x] == s.contents[x] by {
            assert(b.contents[x] == s.contents[x]);
        }
        assert(c.contents[p] == s.contents[p] && c.contents[p + 1] == s.contents[p + 1]
            && c.contents[p + 2] == s.contents[p + 2] && c.contents[p + 3] == s.contents[p + 3]);
    }
    assert forall|x: int| 0 <= x < g.grain_bytes implies #[trigger] n.contents[new * 512 + x] == (
    if k <= x < k + src.len() {
        src[x - k]
    } else {
        0
    }) by {
        assert(n.contents[new * 512 + x] == c.contents[new * 512 + x]);
    }
}

/// Whether `a` is `s` with an empty table `i`, and an empty copy of it in an
/// image that has copies, at what was the tail.
#[verifier::opaque]
pub(super) closed spec fn tabled(s: State, a: State, i: int) -> bool {
    &&& s.grounded()
    &&& 0 <= i < s.geometry().tables
    &&& table_sector(s.geometry(), s.contents, i) == 0
    &&& s.extent() == s.cursor * 512
    &&& a.geometry() == s.geometry()
    &&& s.same_session(&a)
    &&& s.extent() <= a.extent()
    &&& s.contents.len() <= a.contents.len()
    &&& forall|b: int|
        0 <= b < s.extent() && b < s.contents.len() && !s.fixed.contains(b)
            ==> #[trigger] a.contents[b] == s.contents[b]
    &&& forall|b: int| #[trigger] a.tables.contains(b) ==> s.tables.contains(b) || b >= s.extent()
    &&& forall|b: int| #[trigger] s.tables.contains(b) ==> a.tables.contains(b)
    &&& ({
        let g = s.geometry();
        let u = table_sector(g, a.contents, i);
        let q = copy_sector(g, a.contents, i);
        &&& u == s.cursor
        &&& forall|l: int|
            0 <= l < g.tables && l != i ==> #[trigger] table_sector(g, a.contents, l)
                == table_sector(g, s.contents, l)
        &&& forall|l: int|
            0 <= l < g.tables && l != i ==> #[trigger] copy_sector(g, a.contents, l)
                == copy_sector(g, s.contents, l)
        &&& forall|l: int|
            0 <= l < g.per_table ==> #[trigger] entry_at(a.contents, u * 512, l) == 0
        &&& u * 512 + g.table_span() <= a.extent()
        &&& s.redundant ==> {
            &&& q * 512 == u * 512 + g.table_span()
            &&& a.copy_refusal(q) is None
            &&& forall|b: int|
                q * 512 <= b < q * 512 + g.table_span() ==> #[trigger] a.tables.contains(b)
        }
    })
}

/// A table that was placed is ready for a grain.
pub(super) proof fn lemma_tabled(s: State, i: int)
    requires
        s.grounded(),
        0 <= i < s.geometry().tables,
        table_sector(s.geometry(), s.contents, i) == 0,
        2 <= s.cursor,
        s.with_table(i).1 is None,
    ensures
        tabled(s, s.with_table(i).0, i),
        usable(s.with_table(i).0, i),
        2 <= s.with_table(i).0.cursor,
        s.with_table(i).0.geometry() == s.geometry(),
{
    reveal(tabled);
    lemma_with_table(s, i);
    lemma_table_session(s, i);
    let a = s.with_table(i).0;
    assert(s.table_sectors() * 512 == s.geometry().table_span());
    if s.redundant {
        lemma_new_copy_kept(s, a, i);
    }
}

/// What a new grain leaves as it was.
pub(super) proof fn lemma_gains(s: State, i: int, j: int, k: int, src: Seq<u8>)
    requires
        s.grounded(),
        s.table_guarded(i),
        s.copy_guarded(i),
        0 <= i < s.geometry().tables,
        table_sector(s.geometry(), s.contents, i) == 0 || s.table_refusal(
            table_sector(s.geometry(), s.contents, i),
        ) is None,
        2 <= s.cursor,
        0 <= j < s.geometry().per_table,
        0 <= k,
        0 < src.len(),
        k + src.len() <= s.geometry().grain_bytes,
        s.with_new_grain(i, j, k, src).1 is None,
    ensures
        exists|new: u32| #[trigger]
            s.gains(&s.with_new_grain(i, j, k, src).0, i, j, new, k, src),
{
    let g = s.geometry();
    if table_sector(g, s.contents, i) == 0 {
        lemma_tabled(s, i);
        let a = s.with_table(i).0;
        lemma_gains_in_table(a, i, j, k, src);
        let n = a.with_grain_in_table(i, j, k, src).0;
        let new = choose|new: u32| #[trigger] a.gains(&n, i, j, new, k, src);
        lemma_gains_after_table(s, a, n, i, j, new, k, src);
        assert(s.gains(&s.with_new_grain(i, j, k, src).0, i, j, new, k, src));
    } else {
        lemma_gains_in_table(s, i, j, k, src);
    }
}

proof fn lemma_gains_after_table(
    s: State,
    a: State,
    n: State,
    i: int,
    j: int,
    new: u32,
    k: int,
    src: Seq<u8>,
)
    requires
        tabled(s, a, i),
        a.gains(&n, i, j, new, k, src),
    ensures
        s.gains(&n, i, j, new, k, src),
{
    reveal(tabled);
    reveal(State::gains);
    let g = s.geometry();
    let u = table_sector(g, a.contents, i);
    let q = copy_sector(g, a.contents, i);
    let r = copy_sector(g, n.contents, i);
    assert(0 < 4 * g.per_table <= g.table_span());
    assert(u != 0 && table_sector(g, n.contents, i) == u);
    assert(s.redundant ==> r * 512 >= u * 512 + g.table_span());
    assert(!s.redundant ==> r == 0 && copy_sector(g, s.contents, i) == 0);
    assert forall|b: int| s.redundant && r * 512 <= b < r * 512 + g.table_span() implies
        #[trigger] n.tables.contains(b) by {
        if r == q {
            assert(a.tables.contains(b));
        }
    }
    assert forall|x: int|
        0 <= x < s.extent() && x < s.contents.len() && !s.fixed.contains(x) && !s.in_copy(i, x)
            implies #[trigger] n.contents[x] == s.contents[x] by {
        assert(a.contents[x] == s.contents[x]);
        assert(!a.in_copy(i, x));
        assert(!(u * 512 <= x < u * 512 + g.table_span()));
    }
    assert forall|l: int| 0 <= l < g.per_table implies #[trigger] entry_at(n.contents, u * 512, l)
        == (if l == j {
        new
    } else {
        grain_entry(g, s.contents, i, l)
    }) by {
        assert(entry_at(a.contents, u * 512, l) == 0);
        assert(grain_entry(g, a.contents, i, l) == 0);
    }
    assert forall|l: int| 0 <= l < g.tables && l != i implies #[trigger] table_sector(
        g,
        n.contents,
        l,
    ) == table_sector(g, s.contents, l) by {
        assert(table_sector(g, a.contents, l) == table_sector(g, s.contents, l));
    }
    assert forall|l: int| 0 <= l < g.tables && l != i implies #[trigger] copy_sector(
        g,
        n.contents,
        l,
    ) == copy_sector(g, s.contents, l) by {
        assert(copy_sector(g, a.contents, l) == copy_sector(g, s.contents, l));
    }
}

/// The copy of a table just allocated is not refused.
pub(super) proof fn lemma_new_copy_kept(s: State, a: State, i: int)
    requires
        s.grounded(),
        s.redundant,
        0 <= i < s.geometry().tables,
        table_sector(s.geometry(), s.contents, i) == 0,
        2 <= s.cursor,
        a == s.with_table(i).0,
        s.with_table(i).1 is None,
    ensures
        a.copy_refusal(copy_sector(s.geometry(), a.contents, i)) is None,
{
    let g = s.geometry();
    lemma_with_table(s, i);
    lemma_table_session(s, i);
    let q = copy_sector(g, a.contents, i);
    let span = g.table_span();
    assert(s.table_sectors() * 512 == span);
    assert(a.cursor == s.cursor + 2 * s.table_sectors()) by {
        reveal(State::with_table);
    }
    if hits(a.fixed, q * 512, q * 512 + span) {
        let b = choose|b: int| q * 512 <= b < q * 512 + span && #[trigger] a.fixed.contains(b);
        assert(s.fixed.contains(b));
        assert(b < s.extent());
    }
}

/// A table that some grain of the disk is in, where it is there, is live.
pub(super) proof fn lemma_table_live(s: State, gi: int)
    requires
        s.tidy(),
        s.geometry().has_grain(gi),
        s.entry(gi) is Ok,
        table_sector(s.geometry(), s.contents, gi / s.geometry().per_table) != 0,
    ensures
        s.live(Slot::Table(gi / s.geometry().per_table)),
        s.table_guarded(gi / s.geometry().per_table),
{
    lemma_grain_index(s.geometry(), gi);
    assert(s.table_guarded(gi / s.geometry().per_table));
}

/// The bytes of a copy that is not refused are those of a live one.
proof fn lemma_copy_live(s: State, i: int, b: int)
    requires
        s.in_copy(i, b),
        0 <= i < s.geometry().tables,
    ensures
        s.live(Slot::Copy(i)),
        (slot_range(s.geometry(), s.contents, Slot::Copy(i))->0).0 <= b < (slot_range(
            s.geometry(),
            s.contents,
            Slot::Copy(i),
        )->0).1,
{
}

/// A range that lies in the image, clear of the fixed regions, of table `i`
/// and of its copy, keeps its bytes when a grain of that table gains a
/// place.
pub(super) proof fn lemma_gains_keeps(
    s: State,
    n: State,
    i: int,
    j: int,
    new: u32,
    k: int,
    src: Seq<u8>,
    lo: int,
    hi: int,
)
    requires
        s.gains(&n, i, j, new, k, src),
        0 <= i < s.geometry().tables,
        0 <= lo,
        hi <= s.extent(),
        hi <= s.contents.len(),
        !hits(s.fixed, lo, hi),
        s.live(Slot::Copy(i)) ==> apart(
            (lo, hi),
            slot_range(s.geometry(), s.contents, Slot::Copy(i))->0,
        ),
        ({
            let t = table_sector(s.geometry(), s.contents, i);
            t != 0 ==> apart((lo, hi), (t * 512, t * 512 + s.geometry().table_span()))
        }),
    ensures
        forall|b: int| lo <= b < hi ==> #[trigger] n.contents[b] == s.contents[b],
{
    reveal(State::gains);
    assert forall|b: int| lo <= b < hi implies #[trigger] n.contents[b] == s.contents[b] by {
        if s.fixed.contains(b) {
            assert(hits(s.fixed, lo, hi));
        }
        if s.in_copy(i, b) {
            lemma_copy_live(s, i, b);
        }
    }
}

/// What a gain of grain `gi` does to what the image says of grain `gj`:
/// nothing, unless it is that grain.
pub(super) proof fn lemma_gains_state(s: State, n: State, gi: int, new: u32, k: int, src: Seq<u8>, gj: int)
    requires
        s.tidy(),
        s.geometry().has_grain(gi),
        s.geometry().has_grain(gj),
        s.entry(gi) is Ok,
        s.entry(gj) is Ok,
        s.table_held(gj),
        s.gains(
            &n,
            gi / s.geometry().per_table,
            gi % s.geometry().per_table,
            new,
            k,
            src,
        ),
        n.geometry() == s.geometry(),
    ensures
        ({
            let g = s.geometry();
            &&& grain_state(g, n.contents, gj) == (if gj == gi {
                GrainState::At(new)
            } else {
                grain_state(g, s.contents, gj)
            })
            &&& n.entry_of(gj) == (if gj == gi {
                new
            } else {
                s.entry_of(gj)
            })
            &&& n.entry(gj) is Ok
            &&& n.table_held(gj)
            &&& g.meaning(n.entry(gj)->Ok_0) == grain_state(g, n.contents, gj)
        }),
{
    reveal(State::gains);
    let g = s.geometry();
    let i = gi / g.per_table;
    let j = gi % g.per_table;
    lemma_grain_index(g, gi);
    lemma_grain_index(g, gj);
    let a = gj / g.per_table;
    let l = gj % g.per_table;
    assert(4 * g.per_table <= g.table_span());
    if a == i {
        let u = table_sector(g, n.contents, i);
        assert(entry_at(n.contents, u * 512, l) == (if l == j {
            new
        } else {
            grain_entry(g, s.contents, i, l)
        }));
    } else {
        let t = table_sector(g, s.contents, a);
        assert(table_sector(g, n.contents, a) == t);
        if t != 0 {
            lemma_table_live(s, gj);
            if table_sector(g, s.contents, i) != 0 {
                lemma_table_live(s, gi);
                assert(Slot::Table(i) != Slot::Table(a));
            }
            assert(Slot::Copy(i) != Slot::Table(a));
            lemma_gains_keeps(
                s,
                n,
                i,
                j,
                new,
                k,
                src,
                t * 512,
                t * 512 + g.table_span(),
            );
            let p = t * 512 + 4 * l;
            assert(n.contents[p] == s.contents[p] && n.contents[p + 1] == s.contents[p + 1]
                && n.contents[p + 2] == s.contents[p + 2] && n.contents[p + 3] == s.contents[p
                + 3]);
            assert(n.table_refusal(t) is None);
        }
    }
}

/// Another grain keeps its bytes when a grain gains a place, and can still
/// be read.
proof fn lemma_gains_other(s: State, n: State, gi: int, new: u32, k: int, src: Seq<u8>, gj: int)
    requires
        s.orderly(),
        s.geometry().has_grain(gi),
        s.geometry().has_grain(gj),
        gi != gj,
        s.gains(
            &n,
            gi / s.geometry().per_table,
            gi % s.geometry().per_table,
            new,
            k,
            src,
        ),
        n.geometry() == s.geometry(),
        grain_state(s.geometry(), s.contents, gj) is At,
    ensures
        n.grain_readable(gj),
        ({
            let r = slot_range(s.geometry(), s.contents, Slot::Grain(gj))->0;
            &&& slot_range(s.geometry(), s.contents, Slot::Grain(gj)) is Some
            &&& slot_range(s.geometry(), n.contents, Slot::Grain(gj)) == Some(r)
            &&& r.1 <= s.extent()
            &&& forall|b: int| r.0 <= b < r.1 ==> #[trigger] n.contents[b] == s.contents[b]
        }),
{
    assert(s.grain_readable(gi) && s.grain_readable(gj));
    reveal(State::gains);
    let g = s.geometry();
    let i = gi / g.per_table;
    lemma_grain_index(g, gi);
    lemma_gains_state(s, n, gi, new, k, src, gj);
    lemma_grain_clear(s, gj, Slot::Copy(i));
    lemma_grain_clear(s, gj, Slot::Table(i));
    let r = slot_range(g, s.contents, Slot::Grain(gj))->0;
    if table_sector(g, s.contents, i) != 0 {
        lemma_table_live(s, gi);
    }
    lemma_gains_keeps(s, n, i, gi % g.per_table, new, k, src, r.0, r.1);
    if hits(n.tables, r.0, r.1) {
        let b = choose|b: int| r.0 <= b < r.1 && #[trigger] n.tables.contains(b);
        assert(hits(s.tables, r.0, r.1));
    }
}

/// A gain keeps the tables spread.
pub(super) proof fn lemma_gains_spread(s: State, n: State, i: int, j: int, new: u32, k: int, src: Seq<u8>)
    requires
        s.tidy(),
        0 <= i < s.geometry().tables,
        s.gains(&n, i, j, new, k, src),
        n.geometry() == s.geometry(),
        n.table_guarded(i),
    ensures
        n.spread(),
{
    reveal(State::gains);
    let g = s.geometry();
    assert(0 < 4 * g.per_table <= g.table_span());
    assert forall|x: Slot, y: Slot|
        x != y && #[trigger] n.live(x) && #[trigger] n.live(y) implies apart(
        slot_range(g, n.contents, x)->0,
        slot_range(g, n.contents, y)->0,
    ) by {
        lemma_slot_old_or_new(s, n, i, j, new, k, src, x);
        lemma_slot_old_or_new(s, n, i, j, new, k, src, y);
    }
    assert forall|x: Slot, b: int| #[trigger]
        n.live(x) && (slot_range(g, n.contents, x)->0).0 <= b < (slot_range(
            g,
            n.contents,
            x,
        )->0).0 + 4 * g.per_table implies #[trigger] n.tables.contains(b) by {
        lemma_slot_old_or_new(s, n, i, j, new, k, src, x);
        if s.live(x) && slot_range(g, n.contents, x) == slot_range(g, s.contents, x) {
            assert(s.tables.contains(b));
        }
    }
}

/// After a gain a live table is one that was there, or table `i` or its
/// copy at what was the tail.
pub(super) proof fn lemma_slot_old_or_new(
    s: State,
    n: State,
    i: int,
    j: int,
    new: u32,
    k: int,
    src: Seq<u8>,
    x: Slot,
)
    requires
        s.tidy(),
        0 <= i < s.geometry().tables,
        s.gains(&n, i, j, new, k, src),
        n.geometry() == s.geometry(),
        n.live(x),
    ensures
        ({
            let g = s.geometry();
            let r = slot_range(g, n.contents, x)->0;
            ||| s.live(x) && slot_range(g, n.contents, x) == slot_range(g, s.contents, x) && r.1
                <= s.extent()
            ||| x == Slot::Table(i) && r.0 >= s.extent() && table_sector(g, s.contents, i) == 0
            ||| x == Slot::Copy(i) && r.0 >= s.extent() && s.redundant && copy_sector(
                g,
                n.contents,
                i,
            ) != copy_sector(g, s.contents, i)
        }),
{
    reveal(State::gains);
    let g = s.geometry();
    match x {
        Slot::Table(l) => {
            assert(s.entry_rooted(l));
            if l != i {
                assert(table_sector(g, n.contents, l) == table_sector(g, s.contents, l));
            }
        },
        Slot::Copy(l) => {
            assert(s.entry_rooted(l));
            if l != i {
                assert(copy_sector(g, n.contents, l) == copy_sector(g, s.contents, l));
            }
        },
        Slot::Grain(_) => {},
    }
}

/// A grain that gained a place can be read, and lies where nothing was.
pub(super) proof fn lemma_gains_own(s: State, n: State, gi: int, new: u32, k: int, src: Seq<u8>)
    requires
        s.tidy(),
        s.geometry().has_grain(gi),
        s.entry(gi) is Ok,
        s.table_held(gi),
        s.gains(
            &n,
            gi / s.geometry().per_table,
            gi % s.geometry().per_table,
            new,
            k,
            src,
        ),
        n.geometry() == s.geometry(),
    ensures
        n.grain_readable(gi),
        slot_range(s.geometry(), n.contents, Slot::Grain(gi)) == Some(
            (new * 512, new * 512 + s.geometry().used(gi)),
        ),
        new * 512 >= s.extent(),
        0 < s.geometry().used(gi) <= s.geometry().grain_bytes,
        forall|x: int|
            0 <= x < s.geometry().grain_bytes ==> #[trigger] n.contents[new * 512 + x] == (if k <= x
                < k + src.len() {
                src[x - k]
            } else {
                0
            }),
{
    reveal(State::gains);
    let g = s.geometry();
    lemma_grain_index(g, gi);
    lemma_gains_state(s, n, gi, new, k, src, gi);
    let at = new * 512;
    lemma_within_clear(n.fixed, at, at + g.grain_bytes, at, at + g.used(gi));
    lemma_within_clear(n.tables, at, at + g.grain_bytes, at, at + g.used(gi));
}

/// A gain leaves any two grains apart.
proof fn lemma_gains_apart(
    s: State,
    n: State,
    gi: int,
    new: u32,
    k: int,
    src: Seq<u8>,
    ga: int,
    gb: int,
)
    requires
        s.orderly(),
        s.geometry().has_grain(gi),
        s.gains(
            &n,
            gi / s.geometry().per_table,
            gi % s.geometry().per_table,
            new,
            k,
            src,
        ),
        n.geometry() == s.geometry(),
        s.geometry().has_grain(ga),
        s.geometry().has_grain(gb),
        ga != gb,
    ensures
        n.grains_apart(ga, gb),
{
    assert(s.grain_readable(gi) && s.grain_readable(ga) && s.grain_readable(gb));
    let g = s.geometry();
    lemma_gains_own(s, n, gi, new, k, src);
    lemma_gains_state(s, n, gi, new, k, src, ga);
    lemma_gains_state(s, n, gi, new, k, src, gb);
    assert(s.grains_apart(ga, gb));
    if ga != gi && grain_state(g, s.contents, ga) is At {
        lemma_gains_other(s, n, gi, new, k, src, ga);
    }
    if gb != gi && grain_state(g, s.contents, gb) is At {
        lemma_gains_other(s, n, gi, new, k, src, gb);
    }
}

/// Byte `v` of the disk after a gain.
proof fn lemma_gains_byte(s: State, n: State, gi: int, new: u32, k: int, src: Seq<u8>, v: int)
    requires
        s.orderly(),
        s.geometry().has_grain(gi),
        s.gains(
            &n,
            gi / s.geometry().per_table,
            gi % s.geometry().per_table,
            new,
            k,
            src,
        ),
        n.geometry() == s.geometry(),
        grain_state(s.geometry(), s.contents, gi) !is At,
        0 <= k,
        k + src.len() <= s.geometry().used(gi),
        0 <= v < s.geometry().virtual_size,
    ensures
        n.disk()[v] == overlaid(s.disk(), gi * s.geometry().grain_bytes + k, src)[v],
{
    let g = s.geometry();
    let from = gi * g.grain_bytes + k;
    lemma_byte_in_grain(g, v);
    let gj = v / g.grain_bytes;
    let x = v % g.grain_bytes;
    assert(s.grain_readable(gi) && s.grain_readable(gj));
    lemma_gains_own(s, n, gi, new, k, src);
    lemma_gains_state(s, n, gi, new, k, src, gj);
    if gj == gi {
        assert(v == gi * g.grain_bytes + x);
        assert(s.disk()[v] == 0);
        assert(n.disk()[v] == n.contents[new * 512 + x]);
    } else {
        if from <= v < from + src.len() {
            lemma_offset_of(g, gi, k + (v - from));
        }
        if grain_state(g, s.contents, gj) is At {
            lemma_gains_other(s, n, gi, new, k, src, gj);
            assert(s.grain_readable(gj));
            lemma_entry_of(s, gj);
        }
    }
}

/// A grain that gains a place leaves an image orderly, and changes its disk
/// exactly where the data is.
proof fn lemma_gains_orderly(s: State, n: State, gi: int, new: u32, k: int, src: Seq<u8>)
    requires
        s.orderly(),
        s.geometry().has_grain(gi),
        s.gains(
            &n,
            gi / s.geometry().per_table,
            gi % s.geometry().per_table,
            new,
            k,
            src,
        ),
        n.geometry() == s.geometry(),
        grain_state(s.geometry(), s.contents, gi) !is At,
        n.guarded(),
        n.rooted(),
        0 <= k,
        k + src.len() <= s.geometry().used(gi),
    ensures
        n.orderly(),
        n.disk() == overlaid(s.disk(), gi * s.geometry().grain_bytes + k, src),
{
    let g = s.geometry();
    let i = gi / g.per_table;
    let j = gi % g.per_table;
    lemma_grain_index(g, gi);
    assert(n.header == s.header) by {
        reveal(State::gains);
    }
    assert(n.spread()) by {
        assert(n.table_guarded(i));
        lemma_gains_spread(s, n, i, j, new, k, src);
    }
    assert forall|gj: int| g.has_grain(gj) implies #[trigger] n.grain_readable(gj) by {
        assert(s.grain_readable(gi) && s.grain_readable(gj));
        if gj == gi {
            lemma_gains_own(s, n, gi, new, k, src);
        } else {
            lemma_gains_state(s, n, gi, new, k, src, gj);
            if grain_state(g, s.contents, gj) is At {
                lemma_gains_other(s, n, gi, new, k, src, gj);
            }
        }
    }
    assert forall|ga: int, gb: int|
        g.has_grain(ga) && g.has_grain(gb) && ga != gb implies #[trigger] n.grains_apart(ga, gb) by {
        lemma_gains_apart(s, n, gi, new, k, src, ga, gb);
    }
    let want = overlaid(s.disk(), gi * g.grain_bytes + k, src);
    assert forall|v: int| 0 <= v < g.virtual_size implies n.disk()[v] == want[v] by {
        lemma_gains_byte(s, n, gi, new, k, src, v);
    }
    assert(n.disk() =~= want);
}

/// An image stays orderly while its directories and its live tables stand.
proof fn lemma_unmoved(s: State, n: State)
    requires
        s.orderly(),
        n.guarded(),
        n.rooted(),
        n.header == s.header,
        n.redundant == s.redundant,
        n.fixed == s.fixed,
        n.floor == s.floor,
        n.cursor == s.cursor,
        n.tables == s.tables,
        s.contents.len() <= n.contents.len(),
        s.keeps_directories(&n),
        forall|i: int, b: int|
            #![trigger s.live(Slot::Table(i)), n.contents[b]]
            s.live(Slot::Table(i)) && (slot_range(
                s.geometry(),
                s.contents,
                Slot::Table(i),
            )->0).0 <= b < (slot_range(s.geometry(), s.contents, Slot::Table(i))->0).1
                ==> n.contents[b] == s.contents[b],
    ensures
        n.orderly(),
        forall|gi: int|
            s.geometry().has_grain(gi) ==> #[trigger] grain_state(s.geometry(), n.contents, gi)
                == grain_state(s.geometry(), s.contents, gi),
        forall|gi: int|
            s.geometry().has_grain(gi) ==> #[trigger] n.entry_of(gi) == s.entry_of(gi),
{
    let g = s.geometry();
    assert forall|gi: int| g.has_grain(gi) implies #[trigger] grain_state(g, n.contents, gi)
        == grain_state(g, s.contents, gi) && n.entry(gi) == s.entry(gi) && n.entry_of(gi)
        == s.entry_of(gi) by {
        lemma_grain_index(g, gi);
        let i = gi / g.per_table;
        let t = table_sector(g, s.contents, i);
        assert(table_sector(g, n.contents, i) == t);
        assert(s.grain_readable(gi));
        if t != 0 {
            lemma_table_live(s, gi);
            assert(4 * g.per_table <= g.table_span());
            let p = t * 512 + 4 * (gi % g.per_table);
            assert(n.contents[p] == s.contents[p] && n.contents[p + 1] == s.contents[p + 1]
                && n.contents[p + 2] == s.contents[p + 2] && n.contents[p + 3] == s.contents[p
                + 3]);
        }
    }
    assert forall|gi: int| g.has_grain(gi) implies #[trigger] n.entry_of(gi) == s.entry_of(gi) by {
        assert(grain_state(g, n.contents, gi) == grain_state(g, s.contents, gi));
    }
    assert forall|x: Slot| #[trigger] n.live(x) implies s.live(x) && slot_range(g, n.contents, x)
        == slot_range(g, s.contents, x) by {
        match x {
            Slot::Table(l) => assert(table_sector(g, n.contents, l) == table_sector(
                g,
                s.contents,
                l,
            )),
            Slot::Copy(l) => assert(copy_sector(g, n.contents, l) == copy_sector(
                g,
                s.contents,
                l,
            )),
            Slot::Grain(_) => {},
        }
    }
    assert(n.spread());
    assert forall|gi: int| g.has_grain(gi) implies #[trigger] n.grain_readable(gi) by {
        lemma_grain_index(g, gi);
        let i = gi / g.per_table;
        assert(table_sector(g, n.contents, i) == table_sector(g, s.contents, i));
        assert(s.grain_readable(gi));
        assert(grain_state(g, n.contents, gi) == grain_state(g, s.contents, gi));
    }
    assert forall|ga: int, gb: int|
        g.has_grain(ga) && g.has_grain(gb) && ga != gb implies #[trigger] n.grains_apart(ga, gb) by {
        assert(s.grains_apart(ga, gb));
        assert(grain_state(g, n.contents, ga) == grain_state(g, s.contents, ga));
        assert(grain_state(g, n.contents, gb) == grain_state(g, s.contents, gb));
    }
}

/// A write inside a grain that has a place leaves an image orderly, and
/// changes its disk exactly where the data is.
proof fn lemma_in_place_orderly(s: State, gi: int, k: int, part: Seq<u8>)
    requires
        s.orderly(),
        s.geometry().has_grain(gi),
        grain_state(s.geometry(), s.contents, gi) is At,
        0 <= k,
        0 < part.len(),
        k + part.len() <= s.geometry().used(gi),
        ({
            let n = s.wrote(grain_state(s.geometry(), s.contents, gi)->At_0 * 512 + k, part);
            n.guarded() && n.rooted()
        }),
    ensures
        ({
            let n = s.wrote(grain_state(s.geometry(), s.contents, gi)->At_0 * 512 + k, part);
            &&& n.orderly()
            &&& n.disk() == overlaid(s.disk(), gi * s.geometry().grain_bytes + k, part)
            &&& forall|gj: int|
                s.geometry().has_grain(gj) ==> #[trigger] n.entry_of(gj) == s.entry_of(gj)
        }),
{
    let g = s.geometry();
    let at = grain_state(g, s.contents, gi)->At_0 * 512;
    let n = s.wrote(at + k, part);
    lemma_grain_clear(s, gi, Slot::Grain(gi));
    lemma_within_clear(s.fixed, at, at + g.used(gi), at + k, at + k + part.len());
    lemma_clear_write(s, at + k, part);
    assert forall|b: int| 0 <= b < s.contents.len() && !(at + k <= b < at + k + part.len()) implies
        #[trigger] n.contents[b] == s.contents[b] by {}
    assert forall|i: int, b: int|
        #![trigger s.live(Slot::Table(i)), n.contents[b]]
        s.live(Slot::Table(i)) && (slot_range(g, s.contents, Slot::Table(i))->0).0 <= b < (
        slot_range(g, s.contents, Slot::Table(i))->0).1 implies n.contents[b] == s.contents[b] by {
        lemma_grain_clear(s, gi, Slot::Table(i));
        assert(s.table_guarded(i));
    }
    lemma_unmoved(s, n);
    let from = gi * g.grain_bytes + k;
    let want = overlaid(s.disk(), from, part);
    assert forall|v: int| 0 <= v < g.virtual_size implies n.disk()[v] == want[v] by {
        lemma_byte_in_grain(g, v);
        let gj = v / g.grain_bytes;
        let x = v % g.grain_bytes;
        assert(grain_state(g, n.contents, gj) == grain_state(g, s.contents, gj));
        if gj == gi {
            assert(v == gi * g.grain_bytes + x);
            assert(n.disk()[v] == n.contents[at + x]);
        } else {
            if from <= v < from + part.len() {
                lemma_offset_of(g, gi, k + (v - from));
            }
            if let GrainState::At(t) = grain_state(g, s.contents, gj) {
                lemma_grain_clear(s, gj, Slot::Grain(gi));
                assert(s.grains_apart(gi, gj));
                assert(x < g.used(gj));
                assert(n.contents[t * 512 + x] == s.contents[t * 512 + x]);
            }
        }
    }
    assert(n.disk() =~= want);
}

impl State {
    /// Whether the device holds the file up to the sector its tail is in,
    /// and every protected table.
    pub open spec fn tail_held(&self) -> bool {
        &&& self.extent() <= sectors_up(self.contents.len() as int)
        &&& forall|b: int| #[trigger] self.tables.contains(b) ==> b < self.contents.len()
    }

    /// Whether the file of `n` is at least as long as this one's, and held
    /// up to its tail where this one's is.
    pub open spec fn grown(&self, n: &State) -> bool {
        &&& self.contents.len() <= n.contents.len()
        &&& self.tail_held() ==> n.tail_held()
    }
}

/// A grain that gains a place leaves the file held up to its tail.
pub(super) proof fn lemma_gains_grown(
    s: State,
    n: State,
    i: int,
    j: int,
    new: u32,
    k: int,
    src: Seq<u8>,
)
    requires
        s.gains(&n, i, j, new, k, src),
        n.grounded(),
    ensures
        s.grown(&n),
{
    reveal(State::gains);
}

/// What lies inside one grain touches that grain alone.
pub(super) proof fn lemma_touched_grain(g: Geometry, v: int, len: int, gi: int)
    requires
        0 < g.grain_bytes,
        0 < len,
        v % g.grain_bytes + len <= g.grain_bytes,
    ensures
        touches(g, v, len, gi) == (gi == v / g.grain_bytes),
{
    let gb = g.grain_bytes;
    let q = v / gb;
    vstd::arithmetic::div_mod::lemma_fundamental_div_mod(v, gb);
    vstd::arithmetic::div_mod::lemma_mod_bound(v, gb);
    assert(gb * q == q * gb) by (nonlinear_arith);
    if gi < q {
        assert(gi * gb + gb <= q * gb) by (nonlinear_arith)
            requires
                gi + 1 <= q,
                0 < gb,
        ;
    } else if gi > q {
        assert(q * gb + gb <= gi * gb) by (nonlinear_arith)
            requires
                q + 1 <= gi,
                0 < gb,
        ;
    }
}

/// A part written to an orderly image leaves it orderly, and changes its
/// disk exactly where the part is.
proof fn lemma_part_orderly(s: State, v: int, part: Seq<u8>)
    requires
        s.orderly(),
        2 <= s.cursor,
        0 <= v,
        0 < part.len(),
        v % s.geometry().grain_bytes + part.len() <= s.geometry().grain_bytes,
        v + part.len() <= s.geometry().virtual_size,
        s.with_part(v, part).1 is None,
    ensures
        s.with_part(v, part).0.orderly(),
        s.with_part(v, part).0.disk() == overlaid(s.disk(), v, part),
        s.same_session(&s.with_part(v, part).0),
        s.grown(&s.with_part(v, part).0),
        s.maps_to(&s.with_part(v, part).0, v, part.len() as int),
{
    reveal(State::with_part);
    let g = s.geometry();
    let gi = v / g.grain_bytes;
    let i = gi / g.per_table;
    let j = gi % g.per_table;
    let k = v % g.grain_bytes;
    lemma_byte_in_grain(g, v);
    lemma_grain_index(g, gi);
    lemma_part_session(s, v, part);
    lemma_part_keeps_protection(s, v, part);
    assert(s.grain_readable(gi));
    lemma_entry_of(s, gi);
    assert(k + part.len() <= g.used(gi));
    let n = s.with_part(v, part).0;
    assert(n.geometry() == g);
    if let GrainState::At(t) = grain_state(g, s.contents, gi) {
        lemma_part_reachable(s, t, g.used(gi), k, part.len() as int);
        lemma_in_place_orderly(s, gi, k, part);
        assert forall|gj: int| g.has_grain(gj) implies #[trigger] s.entry_moves(
            &n,
            v,
            part.len() as int,
            gj,
        ) by {
            lemma_touched_grain(g, v, part.len() as int, gj);
            assert(n.entry_of(gj) == s.entry_of(gj));
        }
    } else {
        assert(s.table_guarded(i) && s.copy_guarded(i));
        lemma_gains(s, i, j, k, part);
        let new = choose|new: u32| #[trigger]
            s.gains(&s.with_new_grain(i, j, k, part).0, i, j, new, k, part);
        lemma_gains_orderly(s, n, gi, new, k, part);
        lemma_gains_grown(s, n, i, j, new, k, part);
        assert forall|gj: int| g.has_grain(gj) implies #[trigger] s.entry_moves(
            &n,
            v,
            part.len() as int,
            gj,
        ) by {
            lemma_touched_grain(g, v, part.len() as int, gj);
            assert(s.grain_readable(gj));
            lemma_gains_state(s, n, gi, new, k, part, gj);
            lemma_gains_own(s, n, gi, new, k, part);
        }
    }
}

/// The grain map after one part of a write and then the rest.
proof fn lemma_maps_trans(s: State, a: State, z: State, v: int, n: int, len: int)
    requires
        s.maps_to(&a, v, n),
        a.maps_to(&z, v + n, len - n),
        a.geometry() == s.geometry(),
        z.geometry() == s.geometry(),
        s.extent() <= a.extent(),
        0 < s.geometry().grain_bytes,
        0 < n <= len,
    ensures
        s.maps_to(&z, v, len),
{
    assert forall|gi: int| s.geometry().has_grain(gi) implies #[trigger] s.entry_moves(
        &z,
        v,
        len,
        gi,
    ) by {
        assert(s.entry_moves(&a, v, n, gi));
        assert(a.entry_moves(&z, v + n, len - n, gi));
    }
}

/// Data written to an orderly image leaves it orderly, and changes its disk
/// exactly where the data is.
proof fn lemma_data_orderly(s: State, v: int, data: Seq<u8>)
    requires
        s.orderly(),
        2 <= s.cursor,
        0 <= v,
        v + data.len() <= s.geometry().virtual_size,
    ensures
        s.with_data(v, data) is Some,
        (s.with_data(v, data)->0).1 is None ==> {
            let n = (s.with_data(v, data)->0).0;
            &&& n.orderly()
            &&& n.disk() == overlaid(s.disk(), v, data)
            &&& s.same_session(&n)
            &&& s.grown(&n)
            &&& s.maps_to(&n, v, data.len() as int)
        },
    decreases data.len(),
{
    let g = s.geometry();
    let n = s.chunk_len(v, v + data.len());
    if data.len() == 0 {
        assert(overlaid(s.disk(), v, data) =~= s.disk());
    } else {
        lemma_byte_in_grain(g, v);
        let gi = v / g.grain_bytes;
        lemma_grain_index(g, gi);
        assert(0 < n <= data.len());
        assert(s.table_guarded(gi / g.per_table) && s.copy_guarded(gi / g.per_table));
        let part = data.subrange(0, n);
        let rest = data.subrange(n, data.len() as int);
        if s.with_part(v, part).1 is None {
            lemma_part_orderly(s, v, part);
            let a = s.with_part(v, part).0;
            lemma_data_orderly(a, v + n, rest);
            assert(overlaid(overlaid(s.disk(), v, part), v + n, rest) =~= overlaid(
                s.disk(),
                v,
                data,
            ));
            if (a.with_data(v + n, rest)->0).1 is None {
                let z = (a.with_data(v + n, rest)->0).0;
                lemma_maps_trans(s, a, z, v, n, data.len() as int);
            }
        }
    }
}

/// What the header sector and the descriptor say does not bear on whether
/// an image is orderly, nor on its disk.
proof fn lemma_orderly_beside_text(s: State, m: State)
    requires
        s.orderly(),
        s.text_only(&m),
    ensures
        m.orderly(),
        m.disk() == s.disk(),
        forall|gi: int| s.geometry().has_grain(gi) ==> #[trigger] m.entry_of(gi) == s.entry_of(gi),
{
    let g = s.geometry();
    lemma_guarded_beside_text(s, m);
    lemma_grounded_beside_text(s, m);
    lemma_rooted_beside_text(s, m);
    assert forall|b: int| 0 <= b < s.contents.len() && !s.fixed.contains(b) implies
        #[trigger] m.contents[b] == s.contents[b] by {
        assert(!s.is_text(b));
    }
    assert forall|i: int, b: int|
        #![trigger s.live(Slot::Table(i)), m.contents[b]]
        s.live(Slot::Table(i)) && (slot_range(g, s.contents, Slot::Table(i))->0).0 <= b < (
        slot_range(g, s.contents, Slot::Table(i))->0).1 implies m.contents[b] == s.contents[b] by {
        assert(s.table_guarded(i));
        if s.fixed.contains(b) {
            let r = slot_range(g, s.contents, Slot::Table(i))->0;
            assert(hits(s.fixed, r.0, r.1));
        }
    }
    lemma_unmoved(s, m);
    assert forall|v: int| 0 <= v < g.virtual_size implies m.disk()[v] == s.disk()[v] by {
        lemma_byte_in_grain(g, v);
        let gj = v / g.grain_bytes;
        assert(grain_state(g, m.contents, gj) == grain_state(g, s.contents, gj));
        if let GrainState::At(t) = grain_state(g, s.contents, gj) {
            lemma_grain_clear(s, gj, Slot::Grain(gj));
            let b = t * 512 + v % g.grain_bytes;
            if s.fixed.contains(b) {
                assert(hits(s.fixed, t * 512, t * 512 + g.used(gj)));
            }
            assert(m.contents[b] == s.contents[b]);
        }
    }
    assert(m.disk() =~= s.disk());
}

/// An orderly image takes a write over any number of grains, and reads back
/// with the data laid over what it read as before: nothing else on the disk
/// has changed. Every grain that had a place keeps it, every grain beside
/// the write keeps its entry, and each other one gets a place at what was
/// the tail. This holds whatever the redundant copies of the grain
/// tables say, as long as the write is not refused.
pub proof fn law_read_after_write_on_an_orderly_image(
    s: State,
    m: State,
    offset: int,
    data: Seq<u8>,
    at: int,
    len: int,
)
    requires
        s.orderly(),
        0 <= offset,
        offset + data.len() <= s.geometry().virtual_size <= u64::MAX,
        s.with_data(offset, data) matches Some((n, refusal)) ==> refusal is None && n.text_only(&m),
        0 <= at,
        0 <= len,
        at + len <= s.geometry().virtual_size,
    ensures
        s.with_data(offset, data) is Some,
        s.read(at, len) == Ok::<Seq<u8>, Error>(s.disk().subrange(at, at + len)),
        s.same_open(&m),
        m.orderly(),
        m.disk() == overlaid(s.disk(), offset, data),
        m.read(at, len) == Ok::<Seq<u8>, Error>(
            overlaid(s.disk(), offset, data).subrange(at, at + len),
        ),
        m.reliable ==> m.served_for(at, at + len),
        s.maps_to(&m, offset, data.len() as int),
        s.grown(&m),
{
    let g = s.geometry();
    if data.len() == 0 {
        assert(overlaid(s.disk(), offset, data) =~= s.disk());
    } else {
        lemma_byte_in_grain(g, offset);
        lemma_grain_index(g, offset / g.grain_bytes);
        assert(2 <= s.cursor);
        lemma_data_orderly(s, offset, data);
    }
    let n = (s.with_data(offset, data)->0).0;
    lemma_orderly_beside_text(n, m);
    assert(s.maps_to(&m, offset, data.len() as int)) by {
        assert forall|gi: int| g.has_grain(gi) implies #[trigger] s.entry_moves(
            &m,
            offset,
            data.len() as int,
            gi,
        ) by {
            assert(m.entry_of(gi) == n.entry_of(gi));
            if data.len() > 0 {
                assert(s.entry_moves(&n, offset, data.len() as int, gi));
            }
        }
    }
    law_reading_a_readable_image(s, at, len);
    law_reading_a_readable_image(m, at, len);
}

/// A flush leaves an orderly image orderly, with the disk it had.
pub proof fn law_flush_keeps_an_image_orderly(s: State)
    requires
        s.orderly(),
    ensures
        s.flushed().orderly(),
        s.flushed().disk() == s.disk(),
        forall|gi: int|
            s.geometry().has_grain(gi) ==> #[trigger] s.flushed().entry_of(gi) == s.entry_of(gi),
        s.grown(&s.flushed()),
{
    let n = s.flushed();
    assert(s.text_only(&n)) by {
        assert forall|b: int| 0 <= b < s.contents.len() && !s.is_text(b) implies
            #[trigger] n.contents[b] == s.contents[b] by {}
    }
    lemma_orderly_beside_text(s, n);
}

/// A range that reads gives what each of its grains gives.
proof fn lemma_range_reads(s: State, v: int, end: int, gi: int)
    requires
        s.geometry().wf(),
        !s.header.stream(),
        0 <= v,
        v % s.geometry().grain_bytes == 0,
        end == s.geometry().virtual_size,
        s.range(v, end) is Ok,
        s.geometry().has_grain(gi),
        v <= gi * s.geometry().grain_bytes,
        forall|u: int| v <= u < end ==> #[trigger] s.chunk_held(u, end),
    ensures
        s.grain_readable(gi),
    decreases end - v,
{
    let g = s.geometry();
    let gb = g.grain_bytes;
    let n = s.chunk_len(v, end);
    assert(v < end);
    assert(s.chunk(v, end) is Ok && s.range(v + n, end) is Ok);
    assert(s.chunk_held(v, end));
    lemma_byte_in_grain(g, v);
    lemma_offset_of(g, gi, 0);
    let here = v / gb;
    if here != gi {
        assert(here < gi && v + gb <= gi * gb) by (nonlinear_arith)
            requires
                v == here * gb,
                v <= gi * gb,
                here != gi,
                0 < gb,
        ;
        assert(n == gb);
        lemma_offset_of(g, here + 1, 0);
        assert((here + 1) * gb == v + gb) by (nonlinear_arith)
            requires
                v == here * gb,
        ;
        lemma_range_reads(s, v + n, end, gi);
    }
}

/// An image of which the whole disk was read, the device holding what that
/// took, is orderly if its metadata is protected, no entry of a directory
/// names a place past the end, its tables are spread and no two of its
/// grains share a byte.
pub proof fn law_a_disk_that_reads_is_orderly(s: State)
    requires
        s.guarded(),
        s.rooted(),
        s.spread(),
        !s.header.stream(),
        forall|u: int|
            0 <= u < s.geometry().virtual_size ==> #[trigger] s.chunk_held(
                u,
                s.geometry().virtual_size,
            ),
        s.geometry().virtual_size <= u64::MAX,
        s.read(0, s.geometry().virtual_size) is Ok,
        forall|gi: int, gj: int|
            s.geometry().has_grain(gi) && s.geometry().has_grain(gj) && gi != gj
                ==> #[trigger] s.grains_apart(gi, gj),
    ensures
        s.orderly(),
{
    let g = s.geometry();
    assert forall|gi: int| g.has_grain(gi) implies #[trigger] s.grain_readable(gi) by {
        lemma_offset_of(g, 0, 0);
        assert(0 <= gi * g.grain_bytes) by (nonlinear_arith)
            requires
                0 <= gi,
                0 < g.grain_bytes,
        ;
        lemma_range_reads(s, 0, g.virtual_size, gi);
    }
}

/// A reader on a healthy image whose metadata is protected and whose tables
/// are spread is on an orderly one.
pub proof fn law_a_sound_protected_image_is_orderly(s: State)
    requires
        s.sound(),
        s.guarded(),
        s.spread(),
    ensures
        s.orderly(),
{
    reveal(State::sound);
    reveal(healthy);
    let g = s.geometry();
    let c = s.contents;
    assert forall|i: int| 0 <= i < g.tables implies #[trigger] s.entry_rooted(i) by {
        assert(slot_range(g, c, Slot::Table(i)) is Some || table_sector(g, c, i) == 0);
        assert(slot_range(g, c, Slot::Copy(i)) is Some || copy_sector(g, c, i) == 0);
    }
    assert forall|gi: int| g.has_grain(gi) implies #[trigger] s.grain_readable(gi) by {
        lemma_grain_index(g, gi);
        let i = gi / g.per_table;
        if table_sector(g, c, i) != 0 {
            lemma_table_loads(s, i);
        }
        if let GrainState::At(t) = grain_state(g, c, gi) {
            assert(slot_range(g, c, Slot::Grain(gi)) is Some);
            assert(0 < g.used(gi));
            lemma_grain_reachable(s, gi, 0, g.used(gi));
        }
    }
    assert forall|ga: int, gb: int|
        g.has_grain(ga) && g.has_grain(gb) && ga != gb implies #[trigger] s.grains_apart(ga, gb) by {
        assert(Slot::Grain(ga) != Slot::Grain(gb));
    }
}

/// A range in the image that is clear of the fixed regions is placed.
proof fn lemma_clear_is_placed(s: State, r: (int, int))
    requires
        s.grounded(),
        0 <= r.0 < r.1 <= s.extent(),
        s.extent() <= s.contents.len(),
        !hits(s.fixed, r.0, r.1),
        s.geometry().desc_len > 0,
        s.geometry().tables > 0,
    ensures
        placed(s.geometry(), s.contents, s.extent(), r),
{
    let g = s.geometry();
    lemma_clear_of_region(s, r, 0, 512);
    lemma_clear_of_region(s, r, g.desc_at, g.desc_at + g.desc_len);
    lemma_clear_of_region(s, r, g.gd_at, g.gd_at + g.dir_span());
    if let Some(at) = g.rgd_at {
        lemma_clear_of_region(s, r, at, at + g.dir_span());
    }
}

proof fn lemma_clear_of_region(s: State, r: (int, int), lo: int, hi: int)
    requires
        s.grounded(),
        0 <= r.0 < r.1,
        lo <= hi,
        !hits(s.fixed, r.0, r.1),
        forall|b: int| lo <= b < hi ==> #[trigger] s.geometry().fixed(b),
    ensures
        lo < hi ==> apart(r, (lo, hi)),
{
    if lo < hi {
        assert forall|b: int| lo <= b < hi implies #[trigger] s.fixed.contains(b) by {
            assert(s.geometry().fixed(b));
        }
        lemma_clear(s.fixed, r.0, r.1, lo, hi);
    }
}

/// An orderly image is healthy, if neither a table nor a redundant copy of
/// one is refused.
pub proof fn law_an_orderly_image_with_its_copies_is_healthy(s: State)
    requires
        s.orderly(),
        s.extent() <= s.contents.len(),
        s.header.descriptor_size > 0,
        forall|i: int|
            0 <= i < s.geometry().tables ==> (#[trigger] table_sector(s.geometry(), s.contents, i))
                == 0 || s.table_refusal(table_sector(s.geometry(), s.contents, i)) is None,
        forall|i: int|
            0 <= i < s.geometry().tables ==> (#[trigger] copy_sector(s.geometry(), s.contents, i))
                == 0 || s.copy_refusal(copy_sector(s.geometry(), s.contents, i)) is None,
    ensures
        healthy(s.geometry(), s.contents, s.extent()),
{
    reveal(healthy);
    let g = s.geometry();
    let c = s.contents;
    assert(0 < 4 * g.per_table <= g.table_span());
    assert(s.fixed.contains(511)) by {
        assert(g.fixed(511));
    }
    assert(s.fixed.contains(g.desc_at + g.desc_len - 1)) by {
        assert(g.fixed(g.desc_at + g.desc_len - 1));
    }
    assert forall|x: Slot| (#[trigger] slot_range(g, c, x)) is Some && x !is Grain implies s.live(
        x,
    ) by {
        match x {
            Slot::Table(i) => {
                assert(s.table_guarded(i));
                assert(table_sector(g, c, i) != 0);
            },
            Slot::Copy(i) => {
                assert(copy_sector(g, c, i) != 0);
            },
            Slot::Grain(_) => {},
        }
    }
    assert forall|x: Slot| (#[trigger] slot_range(g, c, x)) is Some implies {
        let r = slot_range(g, c, x)->0;
        &&& r.0 < r.1 <= s.extent()
        &&& 0 <= r.0
        &&& !hits(s.fixed, r.0, r.1)
        &&& x is Grain ==> g.floor <= r.0
        &&& g.tables > 0
    } by {
        if let Slot::Grain(gi) = x {
            lemma_grain_index(g, gi);
            lemma_grain_clear(s, gi, x);
        } else {
            assert(s.live(x));
        }
    }
    assert forall|x: Slot| (#[trigger] slot_range(g, c, x)) is Some implies placed(
        g,
        c,
        s.extent(),
        slot_range(g, c, x)->0,
    ) by {
        lemma_clear_is_placed(s, slot_range(g, c, x)->0);
    }
    assert forall|x: Slot, y: Slot|
        x != y && (#[trigger] slot_range(g, c, x)) is Some && (#[trigger] slot_range(
            g,
            c,
            y,
        )) is Some implies apart(slot_range(g, c, x)->0, slot_range(g, c, y)->0) by {
        if let Slot::Grain(gi) = x {
            if let Slot::Grain(gj) = y {
                assert(s.grains_apart(gi, gj));
            } else {
                lemma_grain_clear(s, gi, y);
            }
        } else if let Slot::Grain(gj) = y {
            lemma_grain_clear(s, gj, x);
        } else {
            assert(s.live(x) && s.live(y));
        }
    }
}

} // verus!
