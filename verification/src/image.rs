//! What a sparse image says, as mathematics: where its tables and grains
//! are, and which byte the virtual disk has at each offset.

use crate::bytes::le32;
use crate::device::written;
use vstd::prelude::*;

verus! {

/// Bytes per sector.
pub const SECTOR_SIZE: u64 = 512;

/// Bytes per grain-directory and grain-table entry: both are arrays of
/// little-endian `u32` sector numbers.
pub const GD_GT_ENTRY_SIZE: u64 = 4;

/// What a grain-table entry says about its grain.
#[derive(Debug, Clone, Copy, PartialEq, Eq, Structural)]
pub enum GrainState {
    /// No grain: nothing is allocated for this range.
    Unallocated,
    /// A grain exists and is entirely zero: the zeroed-grain marker.
    /// Reads as zeros; a write into it must allocate, exactly as
    /// [`GrainState::Unallocated`] does.
    Zeroed,
    /// A grain at this host sector.
    At(u32),
}

/// The numbers that fix how an image is laid out.
pub struct Geometry {
    /// Bytes per grain.
    pub grain_bytes: int,
    /// Entries per grain table.
    pub per_table: int,
    /// Grain tables, and so entries of a directory.
    pub tables: int,
    /// Where the grain directory starts.
    pub gd_at: int,
    /// Where the redundant grain directory starts, in an image with a live
    /// one.
    pub rgd_at: Option<int>,
    /// Where the descriptor starts.
    pub desc_at: int,
    /// How long the descriptor is.
    pub desc_len: int,
    /// Bytes of the virtual disk.
    pub virtual_size: int,
    /// Whether entry 1 is the zeroed-grain marker.
    pub zeroed: bool,
    /// The first byte a grain may occupy.
    pub floor: int,
}

/// `n` rounded up to whole sectors.
pub open spec fn sectors_up(n: int) -> int {
    (n + 511) / 512 * 512
}

impl Geometry {
    /// The bytes a grain table takes, in whole sectors.
    pub open spec fn table_span(&self) -> int {
        sectors_up(4 * self.per_table)
    }

    /// The bytes a directory takes, in whole sectors.
    pub open spec fn dir_span(&self) -> int {
        sectors_up(4 * self.tables)
    }

    /// The numbers are in range, and the regions whose place the header
    /// states do not overlap.
    pub open spec fn wf(&self) -> bool {
        &&& self.grain_bytes > 0
        &&& self.per_table > 0
        &&& self.tables >= 0
        &&& 0 <= self.virtual_size <= (self.tables * self.per_table) * self.grain_bytes
        &&& self.floor >= 512
        &&& self.gd_at % 512 == 0
        &&& self.gd_at >= 512
        &&& self.desc_at >= 512
        &&& self.desc_len >= 0
        &&& apart((self.gd_at, self.gd_at + self.dir_span()), self.descriptor())
        &&& match self.rgd_at {
            Some(at) => {
                &&& at % 512 == 0
                &&& at >= 512
                &&& apart((at, at + self.dir_span()), self.descriptor())
                &&& apart(
                    (at, at + self.dir_span()),
                    (self.gd_at, self.gd_at + self.dir_span()),
                )
            },
            None => true,
        }
    }

    /// The descriptor's bytes.
    pub open spec fn descriptor(&self) -> (int, int) {
        (self.desc_at, self.desc_at + self.desc_len)
    }

    /// Whether byte `b` belongs to a region whose place the header states.
    pub open spec fn fixed(&self, b: int) -> bool {
        ||| 0 <= b < 512
        ||| self.desc_at <= b < self.desc_at + self.desc_len
        ||| self.gd_at <= b < self.gd_at + self.dir_span()
        ||| self.rgd_at is Some && self.rgd_at->0 <= b < self.rgd_at->0 + self.dir_span()
    }

    /// Whether grain `gi` is one of the disk's.
    pub open spec fn has_grain(&self, gi: int) -> bool {
        0 <= gi && gi * self.grain_bytes < self.virtual_size
    }

    /// The bytes of grain `gi` that the disk uses: all, but for a last
    /// grain that the disk ends inside.
    pub open spec fn used(&self, gi: int) -> int {
        if self.virtual_size - gi * self.grain_bytes < self.grain_bytes {
            self.virtual_size - gi * self.grain_bytes
        } else {
            self.grain_bytes
        }
    }

    /// What a raw grain-table entry means in this image.
    pub open spec fn meaning(&self, entry: u32) -> GrainState {
        if entry == 0 {
            GrainState::Unallocated
        } else if entry == crate::header::GTE_ZEROED_GRAIN && self.zeroed {
            GrainState::Zeroed
        } else {
            GrainState::At(entry)
        }
    }
}

/// Whether two byte ranges share no byte.
pub open spec fn apart(a: (int, int), b: (int, int)) -> bool {
    a.1 <= b.0 || b.1 <= a.0
}

/// Entry `i` of the array of sector numbers at byte `at`.
pub open spec fn entry_at(c: Seq<u8>, at: int, i: int) -> u32 {
    le32(c, at + 4 * i)
}

/// The sector of grain table `i`, or zero where it is not allocated.
pub open spec fn table_sector(g: Geometry, c: Seq<u8>, i: int) -> u32 {
    entry_at(c, g.gd_at, i)
}

/// The sector of the redundant copy of grain table `i`, or zero where
/// there is none.
pub open spec fn copy_sector(g: Geometry, c: Seq<u8>, i: int) -> u32 {
    match g.rgd_at {
        Some(at) => entry_at(c, at, i),
        None => 0,
    }
}

/// The grain-table entry of grain `j` of table `i`, zero where the table
/// is not allocated.
pub open spec fn grain_entry(g: Geometry, c: Seq<u8>, i: int, j: int) -> u32 {
    let t = table_sector(g, c, i);
    if t == 0 {
        0
    } else {
        entry_at(c, t * 512, j)
    }
}

/// What the image says about grain `gi`.
pub open spec fn grain_state(g: Geometry, c: Seq<u8>, gi: int) -> GrainState {
    g.meaning(grain_entry(g, c, gi / g.per_table, gi % g.per_table))
}

/// The byte the virtual disk has at offset `v`: zero where no grain backs
/// it.
pub open spec fn disk_byte(g: Geometry, c: Seq<u8>, v: int) -> u8 {
    match grain_state(g, c, v / g.grain_bytes) {
        GrainState::At(s) => c[s * 512 + v % g.grain_bytes],
        _ => 0,
    }
}

/// The contents of the virtual disk.
pub open spec fn disk(g: Geometry, c: Seq<u8>) -> Seq<u8> {
    Seq::new(g.virtual_size as nat, |v: int| disk_byte(g, c, v))
}

/// The places an image hands out: a grain table, the redundant copy of
/// one, a grain.
pub enum Slot {
    Table(int),
    Copy(int),
    Grain(int),
}

/// The bytes a slot occupies, where it is allocated. Tables and copies
/// take whole sectors; of a grain it is the part the disk uses.
pub open spec fn slot_range(g: Geometry, c: Seq<u8>, s: Slot) -> Option<(int, int)> {
    match s {
        Slot::Table(i) => {
            let t = table_sector(g, c, i);
            if 0 <= i < g.tables && t != 0 {
                Some((t * 512, t * 512 + g.table_span()))
            } else {
                None
            }
        },
        Slot::Copy(i) => {
            let t = copy_sector(g, c, i);
            if 0 <= i < g.tables && t != 0 {
                Some((t * 512, t * 512 + g.table_span()))
            } else {
                None
            }
        },
        Slot::Grain(gi) => match grain_state(g, c, gi) {
            GrainState::At(t) => if g.has_grain(gi) {
                Some((t * 512, t * 512 + g.used(gi)))
            } else {
                None
            },
            _ => None,
        },
    }
}

/// Whether a range lies inside the file and clear of the regions whose
/// place the header states.
pub open spec fn placed(g: Geometry, c: Seq<u8>, extent: int, r: (int, int)) -> bool {
    &&& r.1 <= extent
    &&& r.1 <= c.len()
    &&& apart(r, (0, 512))
    &&& apart(r, g.descriptor())
    &&& apart(r, (g.gd_at, g.gd_at + g.dir_span()))
    &&& g.rgd_at is Some ==> apart(r, (g.rgd_at->0, g.rgd_at->0 + g.dir_span()))
}

/// A healthy image: the directories are in the file, every allocated slot
/// lies inside it and clear of the fixed regions, no grain lies under the
/// floor, and no two slots share a byte.
#[verifier::opaque]
pub open spec fn healthy(g: Geometry, c: Seq<u8>, extent: int) -> bool {
    &&& g.wf()
    &&& g.gd_at + 4 * g.tables <= c.len()
    &&& g.gd_at + 4 * g.tables <= extent
    &&& g.rgd_at is Some ==> g.rgd_at->0 + 4 * g.tables <= c.len()
    &&& g.rgd_at is Some ==> g.rgd_at->0 + 4 * g.tables <= extent
    &&& 512 <= c.len()
    &&& 512 <= extent
    &&& g.desc_at + g.desc_len <= c.len()
    &&& g.desc_at + g.desc_len <= extent
    &&& forall|s: Slot|
        (#[trigger] slot_range(g, c, s)) is Some ==> placed(g, c, extent, slot_range(g, c, s)->0)
    &&& forall|gi: int|
        (#[trigger] slot_range(g, c, Slot::Grain(gi))) is Some ==> g.floor <= (slot_range(
            g,
            c,
            Slot::Grain(gi),
        )->0).0
    &&& forall|s: Slot, t: Slot|
        s != t && (#[trigger] slot_range(g, c, s)) is Some && (#[trigger] slot_range(
            g,
            c,
            t,
        )) is Some ==> apart(slot_range(g, c, s)->0, slot_range(g, c, t)->0)
}

/// Two contents that agree on the grain directory and on every live grain
/// table: what a read follows.
#[verifier::opaque]
pub open spec fn same_reading(g: Geometry, c: Seq<u8>, d: Seq<u8>) -> bool {
    &&& forall|i: int| 0 <= i < g.tables ==> #[trigger] table_sector(g, c, i) == table_sector(g, d, i)
    &&& forall|i: int, j: int|
        0 <= i < g.tables && 0 <= j < g.per_table ==> #[trigger] grain_entry(g, c, i, j)
            == grain_entry(g, d, i, j)
}

/// Two contents that agree on both directories and on every live grain
/// table.
#[verifier::opaque]
pub open spec fn same_map(g: Geometry, c: Seq<u8>, d: Seq<u8>) -> bool {
    &&& same_reading(g, c, d)
    &&& forall|i: int| 0 <= i < g.tables ==> #[trigger] copy_sector(g, c, i) == copy_sector(g, d, i)
}

/// A grain of the disk belongs to one of its tables.
pub proof fn lemma_grain_index(g: Geometry, gi: int)
    requires
        g.wf(),
        g.has_grain(gi),
    ensures
        0 <= gi / g.per_table < g.tables,
        0 <= gi % g.per_table < g.per_table,
        gi == (gi / g.per_table) * g.per_table + gi % g.per_table,
        0 < g.used(gi) <= g.grain_bytes,
{
    let gb = g.grain_bytes;
    let per = g.per_table;
    assert(gi < g.tables * per) by (nonlinear_arith)
        requires
            gi * gb < (g.tables * per) * gb,
            gb > 0,
    ;
    vstd::arithmetic::div_mod::lemma_fundamental_div_mod(gi, per);
    assert(per * (gi / per) == (gi / per) * per) by (nonlinear_arith);
    assert(0 <= gi % per < per && 0 <= gi / per) by (nonlinear_arith)
        requires
            gi >= 0,
            per > 0,
    ;
    assert(gi / per < g.tables) by (nonlinear_arith)
        requires
            gi == (gi / per) * per + gi % per,
            0 <= gi % per,
            gi < g.tables * per,
            per > 0,
    ;
}

/// Offset `v` of the disk is byte `v % grain_bytes` of grain
/// `v / grain_bytes`, and inside the part of it that the disk uses.
pub proof fn lemma_byte_in_grain(g: Geometry, v: int)
    requires
        g.wf(),
        0 <= v < g.virtual_size,
    ensures
        g.has_grain(v / g.grain_bytes),
        0 <= v % g.grain_bytes < g.used(v / g.grain_bytes),
        v == (v / g.grain_bytes) * g.grain_bytes + v % g.grain_bytes,
{
    let gb = g.grain_bytes;
    vstd::arithmetic::div_mod::lemma_fundamental_div_mod(v, gb);
    assert(gb * (v / gb) == (v / gb) * gb) by (nonlinear_arith);
    assert(0 <= v % gb < gb && 0 <= v / gb) by (nonlinear_arith)
        requires
            v >= 0,
            gb > 0,
    ;
}

/// Byte `k` of grain `gi` is at offset `gi * grain_bytes + k`.
pub proof fn lemma_offset_of(g: Geometry, gi: int, k: int)
    requires
        g.grain_bytes > 0,
        0 <= k < g.grain_bytes,
    ensures
        (gi * g.grain_bytes + k) / g.grain_bytes == gi,
        (gi * g.grain_bytes + k) % g.grain_bytes == k,
{
    vstd::arithmetic::div_mod::lemma_fundamental_div_mod_converse(
        gi * g.grain_bytes + k,
        g.grain_bytes,
        gi,
        k,
    );
}

/// What fits in some sectors fits in them with its last sector whole.
proof fn lemma_sectors_up(len: int, d: int)
    requires
        0 < len <= d * 512,
    ensures
        len <= sectors_up(len) <= d * 512,
{
}

/// Two ranges that begin where a sector does and share no byte share no
/// sector.
pub proof fn lemma_apart_in_sectors(a: int, b: int, m: int, n: int)
    requires
        0 < m,
        0 < n,
        apart((a * 512, a * 512 + m), (b * 512, b * 512 + n)),
    ensures
        apart((a * 512, a * 512 + sectors_up(m)), (b * 512, b * 512 + sectors_up(n))),
{
    if a * 512 + m <= b * 512 {
        lemma_sectors_up(m, b - a);
    }
    if b * 512 + n <= a * 512 {
        lemma_sectors_up(n, a - b);
    }
}

/// Contents with the same map allocate the same slots in the same places.
pub proof fn lemma_same_map_slots(g: Geometry, c: Seq<u8>, d: Seq<u8>)
    requires
        g.wf(),
        same_map(g, c, d),
    ensures
        forall|gi: int| g.has_grain(gi) ==> #[trigger] grain_state(g, d, gi) == grain_state(g, c, gi),
        forall|s: Slot| #[trigger] slot_range(g, d, s) == slot_range(g, c, s),
{
    reveal(same_reading);
    reveal(same_map);
    assert forall|gi: int| g.has_grain(gi) implies #[trigger] grain_state(g, d, gi)
        == grain_state(g, c, gi) by {
        lemma_grain_index(g, gi);
        assert(grain_entry(g, c, gi / g.per_table, gi % g.per_table) == grain_entry(
            g,
            d,
            gi / g.per_table,
            gi % g.per_table,
        ));
    }
    assert forall|s: Slot| #[trigger] slot_range(g, d, s) == slot_range(g, c, s) by {
        match s {
            Slot::Table(i) => {
                assert(0 <= i < g.tables ==> table_sector(g, c, i) == table_sector(g, d, i));
            },
            Slot::Copy(i) => {
                assert(0 <= i < g.tables ==> copy_sector(g, c, i) == copy_sector(g, d, i));
            },
            Slot::Grain(gi) => {
                if g.has_grain(gi) {
                    assert(grain_state(g, d, gi) == grain_state(g, c, gi));
                }
            },
        }
    }
}

/// An entry whose four bytes a write does not touch keeps its value.
pub proof fn lemma_entry_kept(c: Seq<u8>, at: int, data: Seq<u8>, base: int, i: int)
    requires
        0 <= at,
        0 <= base + 4 * i,
        base + 4 * i + 4 <= c.len(),
        apart((at, at + data.len()), (base + 4 * i, base + 4 * i + 4)),
    ensures
        entry_at(written(c, at, data), base, i) == entry_at(c, base, i),
{
}

/// A write clear of the directories and of every live grain table keeps
/// the map.
pub proof fn lemma_write_keeps_map(g: Geometry, c: Seq<u8>, extent: int, at: int, data: Seq<u8>)
    requires
        healthy(g, c, extent),
        0 <= at,
        apart((at, at + data.len()), (g.gd_at, g.gd_at + g.dir_span())),
        g.rgd_at is Some ==> apart(
            (at, at + data.len()),
            (g.rgd_at->0, g.rgd_at->0 + g.dir_span()),
        ),
        forall|i: int|
            (#[trigger] slot_range(g, c, Slot::Table(i))) is Some ==> apart(
                (at, at + data.len()),
                slot_range(g, c, Slot::Table(i))->0,
            ),
    ensures
        same_map(g, c, written(c, at, data)),
{
    reveal(healthy);
    reveal(same_reading);
    reveal(same_map);
    let d = written(c, at, data);
    assert forall|i: int| 0 <= i < g.tables implies #[trigger] table_sector(g, c, i)
        == table_sector(g, d, i) by {
        lemma_entry_kept(c, at, data, g.gd_at, i);
    }
    assert forall|i: int| 0 <= i < g.tables implies #[trigger] copy_sector(g, c, i) == copy_sector(
        g,
        d,
        i,
    ) by {
        if let Some(r) = g.rgd_at {
            lemma_entry_kept(c, at, data, r, i);
        }
    }
    assert forall|i: int, j: int|
        0 <= i < g.tables && 0 <= j < g.per_table implies #[trigger] grain_entry(g, c, i, j)
        == grain_entry(g, d, i, j) by {
        assert(table_sector(g, c, i) == table_sector(g, d, i));
        let t = table_sector(g, c, i);
        if t != 0 {
            assert(slot_range(g, c, Slot::Table(i)) is Some);
            lemma_entry_kept(c, at, data, t * 512, j);
        }
    }
}

/// Contents with the same map as a healthy image, and no shorter, are
/// healthy.
pub proof fn lemma_same_map_healthy(
    g: Geometry,
    c: Seq<u8>,
    d: Seq<u8>,
    extent: int,
    new_extent: int,
)
    requires
        healthy(g, c, extent),
        same_map(g, c, d),
        c.len() <= d.len(),
        extent <= new_extent,
    ensures
        healthy(g, d, new_extent),
{
    reveal(healthy);
    reveal(same_reading);
    reveal(same_map);
    lemma_same_map_slots(g, c, d);
    assert forall|s: Slot| (#[trigger] slot_range(g, d, s)) is Some implies placed(
        g,
        d,
        new_extent,
        slot_range(g, d, s)->0,
    ) by {
        assert(slot_range(g, c, s) is Some);
    }
    assert forall|gi: int| (#[trigger] slot_range(g, d, Slot::Grain(gi))) is Some implies g.floor
        <= (slot_range(g, d, Slot::Grain(gi))->0).0 by {
        assert(slot_range(g, c, Slot::Grain(gi)) is Some);
    }
    assert forall|s: Slot, t: Slot|
        s != t && (#[trigger] slot_range(g, d, s)) is Some && (#[trigger] slot_range(
            g,
            d,
            t,
        )) is Some implies apart(slot_range(g, d, s)->0, slot_range(g, d, t)->0) by {
        assert(slot_range(g, c, s) is Some && slot_range(g, c, t) is Some);
    }
}

/// Where grain bytes stand: a byte of the disk that a grain backs is a
/// byte of that grain's slot.
pub proof fn lemma_backed_byte(g: Geometry, c: Seq<u8>, v: int)
    requires
        g.wf(),
        0 <= v < g.virtual_size,
        grain_state(g, c, v / g.grain_bytes) is At,
    ensures
        slot_range(g, c, Slot::Grain(v / g.grain_bytes)) is Some,
        ({
            let r = slot_range(g, c, Slot::Grain(v / g.grain_bytes))->0;
            let s = grain_state(g, c, v / g.grain_bytes)->At_0;
            r.0 == s * 512 && r.0 <= s * 512 + v % g.grain_bytes < r.1
        }),
{
    lemma_byte_in_grain(g, v);
}

/// A write that touches no directory, no grain table and no grain keeps
/// the image healthy and every byte of the disk.
pub proof fn lemma_neutral_write(g: Geometry, c: Seq<u8>, extent: int, at: int, data: Seq<u8>)
    requires
        healthy(g, c, extent),
        0 <= at,
        apart((at, at + data.len()), (g.gd_at, g.gd_at + g.dir_span())),
        g.rgd_at is Some ==> apart(
            (at, at + data.len()),
            (g.rgd_at->0, g.rgd_at->0 + g.dir_span()),
        ),
        forall|s: Slot|
            s !is Copy && (#[trigger] slot_range(g, c, s)) is Some ==> apart(
                (at, at + data.len()),
                slot_range(g, c, s)->0,
            ),
    ensures
        healthy(g, written(c, at, data), extent),
        same_map(g, c, written(c, at, data)),
        disk(g, written(c, at, data)) == disk(g, c),
{
    reveal(healthy);
    reveal(same_reading);
    reveal(same_map);
    let d = written(c, at, data);
    assert forall|i: int| (#[trigger] slot_range(g, c, Slot::Table(i))) is Some implies apart(
        (at, at + data.len()),
        slot_range(g, c, Slot::Table(i))->0,
    ) by {
        assert(Slot::Table(i) !is Copy);
    }
    lemma_write_keeps_map(g, c, extent, at, data);
    lemma_same_map_healthy(g, c, d, extent, extent);
    lemma_same_map_slots(g, c, d);
    assert forall|v: int| 0 <= v < g.virtual_size implies disk_byte(g, d, v) == disk_byte(g, c, v) by {
        lemma_byte_in_grain(g, v);
        assert(grain_state(g, d, v / g.grain_bytes) == grain_state(g, c, v / g.grain_bytes));
        if grain_state(g, c, v / g.grain_bytes) is At {
            lemma_backed_byte(g, c, v);
            let s = Slot::Grain(v / g.grain_bytes);
            assert(s !is Copy);
            assert(slot_range(g, c, s) is Some);
        }
    }
    assert(disk(g, d) =~= disk(g, c));
}

/// A write into an allocated grain keeps the image healthy, and changes
/// the disk exactly where the grain stands.
pub proof fn lemma_data_write(
    g: Geometry,
    c: Seq<u8>,
    extent: int,
    gi: int,
    k: int,
    data: Seq<u8>,
)
    requires
        healthy(g, c, extent),
        g.has_grain(gi),
        grain_state(g, c, gi) is At,
        0 <= k,
        k + data.len() <= g.used(gi),
    ensures
        ({
            let d = written(c, grain_state(g, c, gi)->At_0 * 512 + k, data);
            &&& healthy(g, d, extent)
            &&& same_map(g, c, d)
            &&& disk(g, d) == crate::bytes::overlaid(disk(g, c), gi * g.grain_bytes + k, data)
        }),
{
    reveal(healthy);
    reveal(same_reading);
    reveal(same_map);
    let at = grain_state(g, c, gi)->At_0 * 512 + k;
    let d = written(c, at, data);
    let here = Slot::Grain(gi);
    assert(slot_range(g, c, here) is Some);
    assert(placed(g, c, extent, slot_range(g, c, here)->0));
    assert forall|i: int| (#[trigger] slot_range(g, c, Slot::Table(i))) is Some implies apart(
        (at, at + data.len()),
        slot_range(g, c, Slot::Table(i))->0,
    ) by {
        assert(Slot::Table(i) != here);
    }
    lemma_write_keeps_map(g, c, extent, at, data);
    lemma_same_map_healthy(g, c, d, extent, extent);
    lemma_same_map_slots(g, c, d);
    let from = gi * g.grain_bytes + k;
    assert forall|v: int| 0 <= v < g.virtual_size implies disk_byte(g, d, v)
        == crate::bytes::overlaid(disk(g, c), from, data)[v] by {
        lemma_byte_in_grain(g, v);
        let vi = v / g.grain_bytes;
        assert(grain_state(g, d, vi) == grain_state(g, c, vi));
        if vi == gi {
        } else {
            if from <= v < from + data.len() {
                lemma_offset_of(g, gi, k + (v - from));
                assert(gi * g.grain_bytes + (k + (v - from)) == v);
            }
            if grain_state(g, c, vi) is At {
                lemma_backed_byte(g, c, v);
                assert(Slot::Grain(vi) != here);
                assert(apart(slot_range(g, c, Slot::Grain(vi))->0, slot_range(g, c, here)->0));
            }
        }
    }
    assert(disk(g, d) =~= crate::bytes::overlaid(disk(g, c), from, data));
}

/// Whether a range is inside the file and shares no byte with a fixed
/// region or a slot.
pub open spec fn fresh(g: Geometry, c: Seq<u8>, extent: int, r: (int, int)) -> bool {
    &&& placed(g, c, extent, r)
    &&& forall|s: Slot| (#[trigger] slot_range(g, c, s)) is Some ==> apart(r, slot_range(g, c, s)->0)
}

/// `d` is `c` with the grain-table entry of grain `j` of table `i` set to
/// `new`.
pub open spec fn grain_published(
    g: Geometry,
    c: Seq<u8>,
    d: Seq<u8>,
    i: int,
    j: int,
    new: u32,
) -> bool {
    &&& 0 <= i < g.tables
    &&& 0 <= j < g.per_table
    &&& table_sector(g, c, i) != 0
    &&& g.meaning(grain_entry(g, c, i, j)) !is At
    &&& g.meaning(new) == GrainState::At(new)
    &&& d == written(c, table_sector(g, c, i) * 512 + 4 * j, crate::bytes::le32_bytes(new))
}

/// Publishing a grain in a fresh place keeps the image healthy, changes
/// that one entry of the map, and gives the grain's part of the disk the
/// bytes that stand there.
pub proof fn lemma_publish_grain(
    g: Geometry,
    c: Seq<u8>,
    extent: int,
    i: int,
    j: int,
    new: u32,
)
    requires
        healthy(g, c, extent),
        0 <= i < g.tables,
        0 <= j < g.per_table,
        table_sector(g, c, i) != 0,
        g.meaning(grain_entry(g, c, i, j)) !is At,
        g.meaning(new) == GrainState::At(new),
        g.has_grain(i * g.per_table + j),
        fresh(g, c, extent, (new * 512, new * 512 + g.used(i * g.per_table + j))),
        g.floor <= new * 512,
    ensures
        ({
            let d = written(
                c,
                table_sector(g, c, i) * 512 + 4 * j,
                crate::bytes::le32_bytes(new),
            );
            let gi = i * g.per_table + j;
            &&& healthy(g, d, extent)
            &&& d.len() == c.len()
            &&& grain_published(g, c, d, i, j, new)
            &&& forall|k: int|
                0 <= k < g.tables ==> #[trigger] table_sector(g, d, k) == table_sector(g, c, k)
            &&& forall|k: int|
                0 <= k < g.tables ==> #[trigger] copy_sector(g, d, k) == copy_sector(g, c, k)
            &&& forall|k: int, l: int|
                0 <= k < g.tables && 0 <= l < g.per_table ==> #[trigger] grain_entry(g, d, k, l)
                    == (if k == i && l == j {
                    new
                } else {
                    grain_entry(g, c, k, l)
                })
            &&& forall|v: int|
                0 <= v < g.virtual_size ==> #[trigger] disk_byte(g, d, v) == (if v
                    / g.grain_bytes == gi {
                    c[new * 512 + v % g.grain_bytes]
                } else {
                    disk_byte(g, c, v)
                })
        }),
{
    reveal(healthy);
    let t = table_sector(g, c, i);
    let at = t * 512 + 4 * j;
    let data = crate::bytes::le32_bytes(new);
    let d = written(c, at, data);
    let gi = i * g.per_table + j;
    let home = Slot::Table(i);
    assert(slot_range(g, c, home) is Some);
    assert(placed(g, c, extent, slot_range(g, c, home)->0));
    assert(at + 4 <= (slot_range(g, c, home)->0).1);
    crate::bytes::law_le32_round_trip(new);
    assert forall|k: int| 0 <= k < g.tables implies #[trigger] table_sector(g, d, k)
        == table_sector(g, c, k) by {
        lemma_entry_kept(c, at, data, g.gd_at, k);
    }
    assert forall|k: int| 0 <= k < g.tables implies #[trigger] copy_sector(g, d, k) == copy_sector(
        g,
        c,
        k,
    ) by {
        if let Some(r) = g.rgd_at {
            lemma_entry_kept(c, at, data, r, k);
        }
    }
    assert forall|k: int, l: int|
        0 <= k < g.tables && 0 <= l < g.per_table implies #[trigger] grain_entry(g, d, k, l) == (
    if k == i && l == j {
        new
    } else {
        grain_entry(g, c, k, l)
    }) by {
        assert(table_sector(g, d, k) == table_sector(g, c, k));
        let u = table_sector(g, c, k);
        if k == i && l == j {
            assert(d[at] == data[0] && d[at + 1] == data[1] && d[at + 2] == data[2] && d[at + 3]
                == data[3]);
        } else if u != 0 {
            assert(slot_range(g, c, Slot::Table(k)) is Some);
            assert(placed(g, c, extent, slot_range(g, c, Slot::Table(k))->0));
            if k != i {
                assert(Slot::Table(k) != home);
            }
            lemma_entry_kept(c, at, data, u * 512, l);
        }
    }
    vstd::arithmetic::div_mod::lemma_fundamental_div_mod_converse(gi, g.per_table, i, j);
    let now = (new * 512, new * 512 + g.used(gi));
    assert forall|s: Slot| #[trigger] slot_range(g, d, s) == (if s == Slot::Grain(gi) {
        Some(now)
    } else {
        slot_range(g, c, s)
    }) by {
        match s {
            Slot::Table(k) => {
                assert(0 <= k < g.tables ==> table_sector(g, d, k) == table_sector(g, c, k));
            },
            Slot::Copy(k) => {
                assert(0 <= k < g.tables ==> copy_sector(g, d, k) == copy_sector(g, c, k));
            },
            Slot::Grain(x) => {
                if g.has_grain(x) {
                    lemma_grain_index(g, x);
                    assert(grain_entry(g, d, x / g.per_table, x % g.per_table) == (if x
                        / g.per_table == i && x % g.per_table == j {
                        new
                    } else {
                        grain_entry(g, c, x / g.per_table, x % g.per_table)
                    }));
                }
            },
        }
    }
    assert(slot_range(g, c, Slot::Grain(gi)) is None) by {
        assert(grain_entry(g, c, gi / g.per_table, gi % g.per_table) == grain_entry(g, c, i, j));
    }
    assert forall|s: Slot| (#[trigger] slot_range(g, d, s)) is Some implies placed(
        g,
        d,
        extent,
        slot_range(g, d, s)->0,
    ) by {
        if s != Slot::Grain(gi) {
            assert(slot_range(g, c, s) is Some);
        }
    }
    assert forall|x: int| (#[trigger] slot_range(g, d, Slot::Grain(x))) is Some implies g.floor <= (
    slot_range(g, d, Slot::Grain(x))->0).0 by {
        if x != gi {
            assert(Slot::Grain(x) != Slot::Grain(gi));
            assert(slot_range(g, c, Slot::Grain(x)) is Some);
        }
    }
    assert forall|s: Slot, u: Slot|
        s != u && (#[trigger] slot_range(g, d, s)) is Some && (#[trigger] slot_range(
            g,
            d,
            u,
        )) is Some implies apart(slot_range(g, d, s)->0, slot_range(g, d, u)->0) by {
        if s == Slot::Grain(gi) {
            assert(slot_range(g, c, u) is Some);
        } else if u == Slot::Grain(gi) {
            assert(slot_range(g, c, s) is Some);
        } else {
            assert(slot_range(g, c, s) is Some && slot_range(g, c, u) is Some);
        }
    }
    assert(healthy(g, d, extent));
    assert forall|v: int| 0 <= v < g.virtual_size implies #[trigger] disk_byte(g, d, v) == (if v
        / g.grain_bytes == gi {
        c[new * 512 + v % g.grain_bytes]
    } else {
        disk_byte(g, c, v)
    }) by {
        lemma_byte_in_grain(g, v);
        let x = v / g.grain_bytes;
        lemma_grain_index(g, x);
        assert(grain_entry(g, d, x / g.per_table, x % g.per_table) == (if x / g.per_table == i && x
            % g.per_table == j {
            new
        } else {
            grain_entry(g, c, x / g.per_table, x % g.per_table)
        }));
        if x == gi {
            let a = new * 512 + v % g.grain_bytes;
            assert(apart(now, slot_range(g, c, home)->0));
            assert(d[a] == c[a]);
        } else if grain_state(g, c, x) is At {
            lemma_backed_byte(g, c, v);
            assert(Slot::Grain(x) != home);
            assert(apart(slot_range(g, c, Slot::Grain(x))->0, slot_range(g, c, home)->0));
        }
    }
}

/// `d` is `c` with directory entry `i` set to the table at sector `t`.
pub open spec fn table_published(g: Geometry, c: Seq<u8>, d: Seq<u8>, i: int, t: u32) -> bool {
    &&& 0 <= i < g.tables
    &&& t != 0
    &&& table_sector(g, c, i) == 0
    &&& d == written(c, g.gd_at + 4 * i, crate::bytes::le32_bytes(t))
    &&& forall|j: int| 0 <= j < g.per_table ==> #[trigger] entry_at(c, t * 512, j) == 0
}

/// Publishing an empty grain table in a fresh place keeps the image
/// healthy, every grain's entry, and every byte of the disk.
pub proof fn lemma_publish_table(g: Geometry, c: Seq<u8>, extent: int, i: int, t: u32)
    requires
        healthy(g, c, extent),
        0 <= i < g.tables,
        t != 0,
        table_sector(g, c, i) == 0,
        fresh(g, c, extent, (t * 512, t * 512 + g.table_span())),
        forall|j: int| 0 <= j < g.per_table ==> #[trigger] entry_at(c, t * 512, j) == 0,
    ensures
        ({
            let d = written(c, g.gd_at + 4 * i, crate::bytes::le32_bytes(t));
            &&& healthy(g, d, extent)
            &&& d.len() == c.len()
            &&& table_published(g, c, d, i, t)
            &&& forall|k: int|
                0 <= k < g.tables ==> #[trigger] table_sector(g, d, k) == (if k == i {
                    t
                } else {
                    table_sector(g, c, k)
                })
            &&& forall|k: int|
                0 <= k < g.tables ==> #[trigger] copy_sector(g, d, k) == copy_sector(g, c, k)
            &&& forall|k: int, l: int|
                0 <= k < g.tables && 0 <= l < g.per_table ==> #[trigger] grain_entry(g, d, k, l)
                    == grain_entry(g, c, k, l)
            &&& disk(g, d) == disk(g, c)
        }),
{
    reveal(healthy);
    let at = g.gd_at + 4 * i;
    let data = crate::bytes::le32_bytes(t);
    let d = written(c, at, data);
    crate::bytes::law_le32_round_trip(t);
    assert(4 * g.tables <= g.dir_span());
    assert forall|k: int| 0 <= k < g.tables implies #[trigger] table_sector(g, d, k) == (if k == i {
        t
    } else {
        table_sector(g, c, k)
    }) by {
        if k == i {
            assert(d[at] == data[0] && d[at + 1] == data[1] && d[at + 2] == data[2] && d[at + 3]
                == data[3]);
        } else {
            lemma_entry_kept(c, at, data, g.gd_at, k);
        }
    }
    assert forall|k: int| 0 <= k < g.tables implies #[trigger] copy_sector(g, d, k) == copy_sector(
        g,
        c,
        k,
    ) by {
        if let Some(r) = g.rgd_at {
            lemma_entry_kept(c, at, data, r, k);
        }
    }
    assert forall|k: int, l: int|
        0 <= k < g.tables && 0 <= l < g.per_table implies #[trigger] grain_entry(g, d, k, l)
        == grain_entry(g, c, k, l) by {
        assert(table_sector(g, d, k) == (if k == i {
            t
        } else {
            table_sector(g, c, k)
        }));
        if k == i {
            assert(entry_at(c, t * 512, l) == 0);
            lemma_entry_kept(c, at, data, t * 512, l);
        } else {
            let u = table_sector(g, c, k);
            if u != 0 {
                assert(slot_range(g, c, Slot::Table(k)) is Some);
                assert(placed(g, c, extent, slot_range(g, c, Slot::Table(k))->0));
                lemma_entry_kept(c, at, data, u * 512, l);
            }
        }
    }
    let now = (t * 512, t * 512 + g.table_span());
    lemma_slots_after_table(g, c, d, extent, Slot::Table(i), now);
    lemma_disk_beside_directory(g, c, d, extent, at, data);
}

/// With one more table or copy in a fresh place and every grain's entry as
/// it was, an image is still healthy.
proof fn lemma_slots_after_table(
    g: Geometry,
    c: Seq<u8>,
    d: Seq<u8>,
    extent: int,
    added: Slot,
    now: (int, int),
)
    requires
        healthy(g, c, extent),
        added is Table || added is Copy,
        slot_range(g, d, added) == Some(now),
        fresh(g, c, extent, now),
        d.len() == c.len(),
        forall|k: int|
            0 <= k < g.tables && added != Slot::Table(k) ==> #[trigger] table_sector(g, d, k)
                == table_sector(g, c, k),
        forall|k: int|
            0 <= k < g.tables && added != Slot::Copy(k) ==> #[trigger] copy_sector(g, d, k)
                == copy_sector(g, c, k),
        forall|k: int, l: int|
            0 <= k < g.tables && 0 <= l < g.per_table ==> #[trigger] grain_entry(g, d, k, l)
                == grain_entry(g, c, k, l),
    ensures
        healthy(g, d, extent),
{
    reveal(healthy);
    assert forall|s: Slot| #[trigger] slot_range(g, d, s) == (if s == added {
        Some(now)
    } else {
        slot_range(g, c, s)
    }) by {
        match s {
            Slot::Table(k) => {
                if s != added && 0 <= k < g.tables {
                    assert(table_sector(g, d, k) == table_sector(g, c, k));
                }
            },
            Slot::Copy(k) => {
                if s != added && 0 <= k < g.tables {
                    assert(copy_sector(g, d, k) == copy_sector(g, c, k));
                }
            },
            Slot::Grain(x) => {
                if g.has_grain(x) {
                    lemma_grain_index(g, x);
                    assert(grain_entry(g, d, x / g.per_table, x % g.per_table) == grain_entry(
                        g,
                        c,
                        x / g.per_table,
                        x % g.per_table,
                    ));
                }
            },
        }
    }
    assert forall|s: Slot| (#[trigger] slot_range(g, d, s)) is Some implies placed(
        g,
        d,
        extent,
        slot_range(g, d, s)->0,
    ) by {
        if s != added {
            assert(slot_range(g, c, s) is Some);
        }
    }
    assert forall|x: int| (#[trigger] slot_range(g, d, Slot::Grain(x))) is Some implies g.floor <= (
    slot_range(g, d, Slot::Grain(x))->0).0 by {
        assert(Slot::Grain(x) != added);
        assert(slot_range(g, c, Slot::Grain(x)) is Some);
    }
    assert forall|s: Slot, u: Slot|
        s != u && (#[trigger] slot_range(g, d, s)) is Some && (#[trigger] slot_range(
            g,
            d,
            u,
        )) is Some implies apart(slot_range(g, d, s)->0, slot_range(g, d, u)->0) by {
        if s == added {
            assert(slot_range(g, c, u) is Some);
        } else if u == added {
            assert(slot_range(g, c, s) is Some);
        } else {
            assert(slot_range(g, c, s) is Some && slot_range(g, c, u) is Some);
        }
    }
}

/// A write inside a directory that keeps every grain's entry keeps the
/// disk.
proof fn lemma_disk_beside_directory(
    g: Geometry,
    c: Seq<u8>,
    d: Seq<u8>,
    extent: int,
    at: int,
    data: Seq<u8>,
)
    requires
        healthy(g, c, extent),
        d == written(c, at, data),
        0 <= at,
        (g.gd_at <= at && at + data.len() <= g.gd_at + g.dir_span()) || (g.rgd_at is Some
            && g.rgd_at->0 <= at && at + data.len() <= g.rgd_at->0 + g.dir_span()),
        forall|k: int, l: int|
            0 <= k < g.tables && 0 <= l < g.per_table ==> #[trigger] grain_entry(g, d, k, l)
                == grain_entry(g, c, k, l),
    ensures
        disk(g, d) == disk(g, c),
{
    reveal(healthy);
    assert forall|v: int| 0 <= v < g.virtual_size implies disk_byte(g, d, v) == disk_byte(g, c, v) by {
        lemma_byte_in_grain(g, v);
        let x = v / g.grain_bytes;
        lemma_grain_index(g, x);
        assert(grain_entry(g, d, x / g.per_table, x % g.per_table) == grain_entry(
            g,
            c,
            x / g.per_table,
            x % g.per_table,
        ));
        if grain_state(g, c, x) is At {
            lemma_backed_byte(g, c, v);
            assert(slot_range(g, c, Slot::Grain(x)) is Some);
            assert(placed(g, c, extent, slot_range(g, c, Slot::Grain(x))->0));
        }
    }
    assert(disk(g, d) =~= disk(g, c));
}

/// Publishing the redundant copy of a grain table in a fresh place keeps
/// the image healthy, the map reads follow, and every byte of the disk.
pub proof fn lemma_publish_copy(g: Geometry, c: Seq<u8>, extent: int, i: int, t: u32)
    requires
        healthy(g, c, extent),
        g.rgd_at is Some,
        0 <= i < g.tables,
        t != 0,
        fresh(g, c, extent, (t * 512, t * 512 + g.table_span())),
    ensures
        ({
            let d = written(c, g.rgd_at->0 + 4 * i, crate::bytes::le32_bytes(t));
            &&& healthy(g, d, extent)
            &&& d.len() == c.len()
            &&& forall|k: int|
                0 <= k < g.tables ==> #[trigger] table_sector(g, d, k) == table_sector(g, c, k)
            &&& forall|k: int|
                0 <= k < g.tables ==> #[trigger] copy_sector(g, d, k) == (if k == i {
                    t
                } else {
                    copy_sector(g, c, k)
                })
            &&& forall|k: int, l: int|
                0 <= k < g.tables && 0 <= l < g.per_table ==> #[trigger] grain_entry(g, d, k, l)
                    == grain_entry(g, c, k, l)
            &&& disk(g, d) == disk(g, c)
        }),
{
    reveal(healthy);
    let r = g.rgd_at->0;
    let at = r + 4 * i;
    let data = crate::bytes::le32_bytes(t);
    let d = written(c, at, data);
    crate::bytes::law_le32_round_trip(t);
    assert(4 * g.tables <= g.dir_span());
    assert forall|k: int| 0 <= k < g.tables implies #[trigger] table_sector(g, d, k)
        == table_sector(g, c, k) by {
        lemma_entry_kept(c, at, data, g.gd_at, k);
    }
    assert forall|k: int| 0 <= k < g.tables implies #[trigger] copy_sector(g, d, k) == (if k == i {
        t
    } else {
        copy_sector(g, c, k)
    }) by {
        if k == i {
            assert(d[at] == data[0] && d[at + 1] == data[1] && d[at + 2] == data[2] && d[at + 3]
                == data[3]);
        } else {
            lemma_entry_kept(c, at, data, r, k);
        }
    }
    assert forall|k: int, l: int|
        0 <= k < g.tables && 0 <= l < g.per_table implies #[trigger] grain_entry(g, d, k, l)
        == grain_entry(g, c, k, l) by {
        assert(table_sector(g, d, k) == table_sector(g, c, k));
        let u = table_sector(g, c, k);
        if u != 0 {
            assert(slot_range(g, c, Slot::Table(k)) is Some);
            assert(placed(g, c, extent, slot_range(g, c, Slot::Table(k))->0));
            lemma_entry_kept(c, at, data, u * 512, l);
        }
    }
    let now = (t * 512, t * 512 + g.table_span());
    lemma_slots_after_table(g, c, d, extent, Slot::Copy(i), now);
    lemma_disk_beside_directory(g, c, d, extent, at, data);
}

/// Whether the redundant copy of grain table `i` has an entry wherever the
/// table has one.
pub open spec fn mirrored(g: Geometry, c: Seq<u8>, i: int) -> bool {
    forall|j: int|
        0 <= j < g.per_table && #[trigger] grain_entry(g, c, i, j) != 0 ==> copy_entry(g, c, i, j)
            != 0
}

/// Entry `j` of the redundant copy of grain table `i`, zero where there is
/// no copy.
pub open spec fn copy_entry(g: Geometry, c: Seq<u8>, i: int, j: int) -> u32 {
    let t = copy_sector(g, c, i);
    if t == 0 {
        0
    } else {
        entry_at(c, t * 512, j)
    }
}

/// A write clear of a copy keeps its entries.
pub proof fn lemma_copy_kept(
    g: Geometry,
    c: Seq<u8>,
    extent: int,
    at: int,
    data: Seq<u8>,
    i: int,
    j: int,
)
    requires
        healthy(g, c, extent),
        0 <= at,
        0 <= i < g.tables,
        0 <= j < g.per_table,
        copy_sector(g, written(c, at, data), i) == copy_sector(g, c, i),
        slot_range(g, c, Slot::Copy(i)) is Some ==> apart(
            (at, at + data.len()),
            slot_range(g, c, Slot::Copy(i))->0,
        ),
    ensures
        copy_entry(g, written(c, at, data), i, j) == copy_entry(g, c, i, j),
{
    reveal(healthy);
    let t = copy_sector(g, c, i);
    if t != 0 {
        assert(slot_range(g, c, Slot::Copy(i)) is Some);
        assert(placed(g, c, extent, slot_range(g, c, Slot::Copy(i))->0));
        lemma_entry_kept(c, at, data, t * 512, j);
    }
}

} // verus!
