//! Writing into one grain.

use super::allocate::{decided, write_fault, GREW};
use super::effect::{
    lemma_with_copy, lemma_with_entry, lemma_with_grain, lemma_with_table, outcome,
};
use super::open::{zeroed, TOO_LARGE};
use super::sound::{
    lemma_copy, lemma_data, lemma_grain_goes_live, lemma_keep_step, lemma_reserved, lemma_stays,
    lemma_step_frame, lemma_still_vacant, lemma_synced, lemma_vacant_write,
};
use super::twins::{lemma_twins_data, lemma_twins_entry, lemma_twins_vacant, twins};
use super::state::{hits, zeros, State};
use super::{GrainAddress, VmdkReader};
use crate::bytes::{le32_bytes, overlaid, u32_le};
use crate::device::{device_error, written, BlockDevice};
use crate::error::{Error, Result};
use crate::image::{
    apart, copy_entry, copy_sector, entry_at, grain_entry, grain_state, healthy, mirrored, placed,
    same_map, same_reading, slot_range, table_sector, GrainState, Slot, SECTOR_SIZE,
};
use vstd::prelude::*;

verus! {

impl State {
    /// Whether grain `j` of table `i` may be published at sector `new`: the
    /// grain is the disk's and has no data yet, its bytes at `new` are
    /// durable and nothing else claims them, and a live redundant copy of
    /// the table is merged.
    pub open spec fn grain_ready(&self, i: int, j: int, new: u32) -> bool {
        let g = self.geometry();
        &&& self.settled()
        &&& 0 <= i < g.tables
        &&& 0 <= j < g.per_table
        &&& g.has_grain(i * g.per_table + j)
        &&& table_sector(g, self.contents, i) != 0
        &&& g.meaning(grain_entry(g, self.contents, i, j)) !is At
        &&& g.meaning(new) == GrainState::At(new)
        &&& self.vacant(new * 512, new * 512 + g.grain_bytes)
        &&& new * 512 + g.grain_bytes <= self.contents.len()
        &&& g.floor <= new * 512
        &&& !hits(self.tables, new * 512, new * 512 + g.grain_bytes)
        &&& self.redundant ==> self.merged.contains(i) && copy_sector(g, self.contents, i) != 0
    }
}

/// Writing the entry of a grain into the redundant copy leaves the grain
/// ready to be published.
proof fn lemma_copy_leads(s: State, i: int, j: int, new: u32)
    requires
        s.sound(),
        s.redundant,
        s.grain_ready(i, j, new),
    ensures
        ({
            let g = s.geometry();
            let n = s.wrote(
                copy_sector(g, s.contents, i) * 512 + 4 * j,
                le32_bytes(new),
            ).synced();
            &&& n.sound()
            &&& s.keeps_to(&n)
            &&& same_map(g, s.contents, n.contents)
            &&& n.grain_ready(i, j, new)
            &&& copy_entry(g, n.contents, i, j) == new
            &&& forall|b: int|
                new * 512 <= b < new * 512 + g.grain_bytes ==> n.contents[b] == s.contents[b]
        }),
{
    let g = s.geometry();
    let c = s.contents;
    let t = copy_sector(g, c, i);
    let at = t * 512 + 4 * j;
    let data = le32_bytes(new);
    let d = written(c, at, data);
    super::allocate::lemma_copy_placed(s, i);
    crate::bytes::law_le32_round_trip(new);
    assert(4 * g.per_table <= g.table_span() && 4 * g.tables <= g.dir_span());
    assert(slot_range(g, c, Slot::Copy(i)) is Some);
    assert(copy_sector(g, d, i) == t && table_sector(g, d, i) == table_sector(g, c, i)) by {
        reveal(State::sound);
        reveal(healthy);
        assert(placed(g, c, s.extent(), slot_range(g, c, Slot::Copy(i))->0));
        crate::image::lemma_entry_kept(c, at, data, g.rgd_at->0, i);
        crate::image::lemma_entry_kept(c, at, data, g.gd_at, i);
    }
    assert(copy_entry(g, d, i, j) == new) by {
        assert(d[at] == data[0] && d[at + 1] == data[1] && d[at + 2] == data[2] && d[at + 3]
            == data[3]);
    }
    assert(mirrored(g, d, i)) by {
        assert(mirrored(g, c, i)) by {
            reveal(State::sound);
        }
        assert forall|l: int| 0 <= l < g.per_table && #[trigger] grain_entry(g, d, i, l)
            != 0 implies copy_entry(g, d, i, l) != 0 by {
            if l != j {
                let p = table_sector(g, c, i);
                assert(slot_range(g, c, Slot::Table(i)) is Some);
                assert(apart((at, at + 4), (p * 512, p * 512 + g.table_span())) && p * 512
                    + g.table_span() <= c.len()) by {
                    reveal(State::sound);
                    reveal(healthy);
                    assert(Slot::Table(i) != Slot::Copy(i));
                    assert(placed(g, c, s.extent(), slot_range(g, c, Slot::Table(i))->0));
                }
                crate::image::lemma_entry_kept(c, at, data, p * 512, l);
                assert(grain_entry(g, c, i, l) != 0);
                crate::image::lemma_entry_kept(c, at, data, t * 512, l);
            }
        }
    }
    lemma_copy(s, i, at, data);
    let w = s.wrote(at, data);
    lemma_synced(w);
    let n = w.synced();
    lemma_keep_step(s, w, n);
    assert(n.geometry() == g);
    lemma_still_vacant(s, n, new * 512, new * 512 + g.grain_bytes);
    assert(apart(
        (new * 512, new * 512 + g.grain_bytes),
        (t * 512, t * 512 + g.table_span()),
    )) by {
        reveal(State::vacant);
    }
    assert(grain_entry(g, c, i, j) == grain_entry(g, d, i, j)) by {
        reveal(same_map);
        reveal(same_reading);
    }
}

impl<D: BlockDevice> VmdkReader<D> {
    /// Overwrite a single grain-table entry, in both copies of the table,
    /// and refresh the in-memory cache.
    ///
    /// The redundant copy is written first, for the same reason the
    /// redundant directory entry is: a crash between the two writes should
    /// leave the primary behind the redundant copy rather than ahead of
    /// it.
    #[verifier::rlimit(30)]
    fn update_gt_entry(
        &mut self,
        gt_idx: usize,
        gte_idx: usize,
        gt_sector: u32,
        new_grain_sector: u32,
    ) -> (r: Result<()>)
        requires
            old(self).inv(),
            old(self).writable,
            gt_idx < old(self).gd@.len(),
            gte_idx < old(self).header.num_gtes_per_gt,
            gt_sector == old(self).gd@[gt_idx as int],
            gt_sector != 0,
            old(self).gt_cache.loaded == Some((gt_idx, gt_sector)),
        ensures
            final(self).inv(),
            final(self).limit() == old(self).limit(),
            final(self).same_image(old(self)),
            final(self).tail_from(old(self)),
            r matches Err(e) ==> write_fault(false, e),
            old(self).sound() && old(self)@.grain_ready(
                gt_idx as int,
                gte_idx as int,
                new_grain_sector,
            ) ==> match r {
                Ok(()) => {
                    let g = old(self)@.geometry();
                    let gi = gt_idx * g.per_table + gte_idx;
                    &&& final(self).sound()
                    &&& old(self)@.steps_to(&final(self)@)
                    &&& final(self)@.cursor == old(self)@.cursor
                    &&& old(self)@.twinned() ==> final(self)@.twinned()
                    &&& forall|v: int|
                        0 <= v < g.virtual_size ==> #[trigger] final(self)@.disk()[v] == (if v
                            / g.grain_bytes == gi {
                            old(self)@.contents[new_grain_sector * 512 + v % g.grain_bytes]
                        } else {
                            old(self)@.disk()[v]
                        })
                },
                Err(e) => device_error(e) && !old(self).steady(),
            },
            old(self).in_step() && decided(old(self).steady(), r) && old(self)@.prepared(
                gt_idx as int,
            ) ==> {
                &&& r is Ok
                &&& final(self)@ == old(self)@.with_entry(
                    gt_idx as int,
                    gte_idx as int,
                    new_grain_sector,
                )
                &&& final(self).in_step()
            },
    {
        let ghost s0 = self@;
        let ghost r0 = *self;
        let ghost g = s0.geometry();
        let ghost i = gt_idx as int;
        let ghost j = gte_idx as int;
        let ghost exact = r0.in_step() && s0.prepared(i);
        let ghost ready = r0.sound() && s0.grain_ready(i, j, new_grain_sector);
        let bytes: [u8; 4] = u32_le(new_grain_sector);
        let entry_within: u64 = (gte_idx as u64) * 4;
        proof {
            lemma_stays(s0);
            if exact {
                Self::lemma_directory(&r0, i);
            }
        }
        let copy: Option<u32> = match self.redundant_gt_sector(gt_idx, gt_sector) {
            Ok(copy) => copy,
            Err(e) => return Err(e),
        };
        assert(ready || exact ==> self@ == s0);
        let ghost r1 = *self;
        if let Some(redundant) = copy {
            match self.dev_write((redundant as u64) * SECTOR_SIZE + entry_within, &bytes) {
                Ok(()) => {},
                Err(e) => return Err(e),
            }
            match self.dev_flush() {
                Ok(()) => {},
                Err(e) => return Err(e),
            }
            proof {
                if ready {
                    lemma_copy_leads(s0, i, j, new_grain_sector);
                    Self::lemma_still_in_step(&r1, self);
                }
            }
        }
        let ghost s2 = self@;
        let ghost r2 = *self;
        // No flush after the primary entry: nothing later depends on it
        // being durable first, and the caller's `flush` makes it so.
        match self.dev_write((gt_sector as u64) * SECTOR_SIZE + entry_within, &bytes) {
            Ok(()) => {},
            Err(e) => return Err(e),
        }
        self.gt_cache.entries.set(gte_idx, new_grain_sector);
        proof {
            if exact {
                assert(self@ == s0.with_entry(i, j, new_grain_sector));
                if r0.rgd is Some {
                    assert(r0.rgd->0@.update(i, copy->0) =~= r0.rgd->0@) by {
                        reveal(VmdkReader::in_step);
                    }
                }
                Self::lemma_entry_step(&r0, self, i, j, new_grain_sector);
            }
            if ready {
                assert(gt_sector == table_sector(g, s2.contents, i)) by {
                    reveal(VmdkReader::in_step);
                }
                Self::lemma_updated(&r2, self, s0, i, j, new_grain_sector);
                Self::lemma_directory(&r0, i);
                assert(self@.geometry() == g) by {
                    reveal(State::steps_to);
                }
                if !s0.redundant {
                    reveal(twins);
                } else if s0.twinned() {
                    lemma_twins_entry(s0, i, j, new_grain_sector);
                    assert(s2 == s0.wrote(
                        copy_sector(g, s0.contents, i) * 512 + 4 * j,
                        le32_bytes(new_grain_sector),
                    ).synced());
                }
            }
        }
        Ok(())
    }

    /// Setting the entry of a grain leaves the reader in step once its
    /// cached table has the entry too.
    proof fn lemma_entry_step(before: &Self, after: &Self, i: int, j: int, new: u32)
        requires
            before.inv(),
            before.writable,
            before.in_step(),
            before@.prepared(i),
            0 <= j < before@.geometry().per_table,
            after@ == before@.with_entry(i, j, new),
            after.header == before.header,
            after.gd == before.gd,
            after.rgd is Some == before.rgd is Some,
            before.rgd matches Some(rgd) ==> after.rgd->0@ == rgd@,
            after.inflated == before.inflated,
            before.gt_cache.loaded matches Some((k, t)) && k == i && t == before.gd@[i],
            after.gt_cache.loaded == before.gt_cache.loaded,
            after.gt_cache.entries@ == before.gt_cache.entries@.update(j, new),
        ensures
            after.in_step(),
    {
        reveal(VmdkReader::in_step);
        let s = before@;
        let n = after@;
        let g = s.geometry();
        lemma_with_entry(s, i, j, new);
        assert(n.geometry() == g);
        assert forall|k: int| 0 <= k < after.gd@.len() implies #[trigger] after.gd@[k]
            == table_sector(g, n.contents, k) by {
            assert(before.gd@[k] == table_sector(g, s.contents, k));
        }
        if let Some(rgd) = after.rgd {
            assert forall|k: int| 0 <= k < rgd@.len() implies #[trigger] rgd@[k] == copy_sector(
                g,
                n.contents,
                k,
            ) by {
                assert(before.rgd->0@[k] == copy_sector(g, s.contents, k));
            }
        }
        let t = before.gd@[i];
        assert(t == table_sector(g, s.contents, i));
        assert forall|l: int|
            0 <= l < after.gt_cache.entries@.len() implies #[trigger] after.gt_cache.entries@[l]
            == entry_at(n.contents, t * 512, l) by {
            assert(before.gt_cache.entries@[l] == entry_at(s.contents, t * 512, l));
        }
    }

    /// A grain published where all is ready keeps the reader sound, and
    /// gives the grain's part of the disk the bytes that stand there.
    proof fn lemma_updated(before: &Self, after: &Self, s0: State, i: int, j: int, new: u32)
        requires
            before.sound(),
            after.inv(),
            before@.grain_ready(i, j, new),
            before@.redundant ==> copy_entry(before@.geometry(), before@.contents, i, j) != 0,
            s0.keeps_to(&before@),
            s0.cursor == before@.cursor,
            forall|b: int|
                new * 512 <= b < new * 512 + s0.geometry().grain_bytes ==> before@.contents[b]
                    == s0.contents[b],
            after@ == before@.wrote(
                table_sector(before@.geometry(), before@.contents, i) * 512 + 4 * j,
                le32_bytes(new),
            ),
            i < before.gd@.len(),
            after.header == before.header,
            after.gd == before.gd,
            after.rgd == before.rgd,
            after.inflated == before.inflated,
            before.gt_cache.loaded matches Some((k, t)) && k == i && t == before.gd@[i],
            after.gt_cache.loaded == before.gt_cache.loaded,
            after.gt_cache.entries@ == before.gt_cache.entries@.update(j, new),
        ensures
            ({
                let g = s0.geometry();
                let gi = i * g.per_table + j;
                &&& after.sound()
                &&& s0.steps_to(&after@)
                &&& after@.cursor == s0.cursor
                &&& forall|v: int|
                    0 <= v < g.virtual_size ==> #[trigger] after@.disk()[v] == (if v
                        / g.grain_bytes == gi {
                        s0.contents[new * 512 + v % g.grain_bytes]
                    } else {
                        s0.disk()[v]
                    })
            }),
    {
        reveal(VmdkReader::in_step);
        let g = s0.geometry();
        let s2 = before@;
        assert(s2.geometry() == g && s2.disk() == s0.disk()) by {
            reveal(State::steps_to);
        }
        assert(s2.merged.contains(i) ==> s2.redundant) by {
            reveal(State::sound);
        }
        lemma_grain_goes_live(s2, i, j, new);
        Self::lemma_in_step_after_grain(before, after, i, j, new);
        lemma_keep_step(s0, s2, after@);
        assert forall|v: int| 0 <= v < g.virtual_size implies #[trigger] after@.disk()[v] == (if v
            / g.grain_bytes == i * g.per_table + j {
            s0.contents[new * 512 + v % g.grain_bytes]
        } else {
            s0.disk()[v]
        }) by {
            assert(0 <= v % g.grain_bytes < g.grain_bytes);
        }
    }

    /// A published grain leaves the reader in step once its cached table
    /// has the entry too.
    proof fn lemma_in_step_after_grain(before: &Self, after: &Self, i: int, j: int, new: u32)
        requires
            before.sound(),
            0 <= i < before.gd@.len(),
            0 <= j < before.header.num_gtes_per_gt,
            after.header == before.header,
            after.gd == before.gd,
            after.rgd == before.rgd,
            after.inflated == before.inflated,
            after@.geometry() == before@.geometry(),
            after@.contents.len() == before@.contents.len(),
            before.gt_cache.loaded matches Some((k, t)) && k == i && t == before.gd@[i],
            after.gt_cache.loaded == before.gt_cache.loaded,
            after.gt_cache.entries@ == before.gt_cache.entries@.update(j, new),
            ({
                let g = before@.geometry();
                let c = before@.contents;
                let d = after@.contents;
                &&& forall|k: int|
                    0 <= k < g.tables ==> #[trigger] table_sector(g, d, k) == table_sector(g, c, k)
                &&& forall|k: int|
                    0 <= k < g.tables ==> #[trigger] copy_sector(g, d, k) == copy_sector(g, c, k)
                &&& forall|k: int, l: int|
                    0 <= k < g.tables && 0 <= l < g.per_table ==> #[trigger] grain_entry(g, d, k, l)
                        == (if k == i && l == j {
                        new
                    } else {
                        grain_entry(g, c, k, l)
                    })
            }),
        ensures
            after.in_step(),
    {
        reveal(VmdkReader::in_step);
        reveal(State::sound);
        let g = before@.geometry();
        let c = before@.contents;
        let d = after@.contents;
        assert forall|k: int| 0 <= k < after.gd@.len() implies #[trigger] after.gd@[k]
            == table_sector(g, d, k) by {
            assert(before.gd@[k] == table_sector(g, c, k));
        }
        if let Some(rgd) = after.rgd {
            assert forall|k: int| 0 <= k < rgd@.len() implies #[trigger] rgd@[k] == copy_sector(
                g,
                d,
                k,
            ) by {
                assert(before.rgd->0@[k] == copy_sector(g, c, k));
            }
        }
        let t = before.gd@[i];
        assert(table_sector(g, d, i) == t);
        assert forall|l: int|
            0 <= l < after.gt_cache.entries@.len() implies #[trigger] after.gt_cache.entries@[l]
            == entry_at(d, t * 512, l) by {
            assert(before.gt_cache.entries@[l] == entry_at(c, t * 512, l));
            assert(grain_entry(g, d, i, l) == (if l == j {
                new
            } else {
                grain_entry(g, c, i, l)
            }));
        }
    }
}

impl State {
    /// The most sectors that writing into one grain can allocate: a grain,
    /// its table, the table's copy, and a copy that a directory lacked.
    pub open spec fn need(&self) -> int {
        3 * self.table_sectors() + self.header.grain_size
    }

    /// Whether an allocation fails for want of something: sectors that an
    /// entry can address, or memory for a grain.
    pub open spec fn wants(&self, sectors: int, e: Error) -> bool {
        ||| e == Error::Unsupported(GREW) && self.cursor + sectors > u32::MAX
        ||| e == Error::Unsupported(TOO_LARGE) && self.header.grain_size * 512 > usize::MAX
    }
}

/// A grain of a healthy image is where its entry says, as far as the disk
/// uses it.
pub(super) proof fn lemma_grain_reachable(s: State, gi: int, k: int, n: int)
    requires
        s.sound(),
        s.geometry().has_grain(gi),
        grain_state(s.geometry(), s.contents, gi) is At,
        0 <= k,
        0 < n,
        k + n <= s.geometry().used(gi),
    ensures
        s.host_offset(grain_state(s.geometry(), s.contents, gi)->At_0, k, n) == Ok::<int, Error>(
            grain_state(s.geometry(), s.contents, gi)->At_0 * 512 + k,
        ),
{
    let g = s.geometry();
    let t = grain_state(g, s.contents, gi)->At_0;
    let x = Slot::Grain(gi);
    assert(slot_range(g, s.contents, x) is Some);
    super::allocate::lemma_slot_clear(s, x);
    reveal(State::sound);
    reveal(healthy);
    let r = slot_range(g, s.contents, x)->0;
    let off = t * 512 + k;
    if hits(s.fixed, off, off + n) {
        let b = choose|b: int| off <= b < off + n && #[trigger] s.fixed.contains(b);
        assert(hits(s.fixed, r.0, r.1));
    }
    if hits(s.tables, off, off + n) {
        let b = choose|b: int| off <= b < off + n && #[trigger] s.tables.contains(b);
        assert(hits(s.tables, r.0, r.1));
    }
}

impl State {
    /// Whether `n` follows this state by filling the vacant grain at `new`
    /// with `src` at `k` and zeros around it, durably.
    pub open spec fn fills(&self, n: &State, new: u32, k: int, src: Seq<u8>) -> bool {
        let g = self.geometry();
        let gb = g.grain_bytes;
        &&& n.sound()
        &&& self.keeps_to(n)
        &&& n.settled()
        &&& n.geometry() == g
        &&& n.merged == self.merged
        &&& n.tables == self.tables
        &&& n.cursor == self.cursor
        &&& n.vacant(new * 512, new * 512 + gb)
        &&& same_map(g, self.contents, n.contents)
        &&& self.twinned() ==> n.twinned()
        &&& new * 512 + gb <= n.contents.len()
        &&& forall|x: int|
            0 <= x < gb ==> #[trigger] n.contents[new * 512 + x] == (if k <= x < k + src.len() {
                src[x - k]
            } else {
                0
            })
    }
}

/// A vacant grain at the tail, once its data is in place and durable.
proof fn lemma_filled(s: State, a: State, new: u32, k: int, src: Seq<u8>)
    requires
        s.sound(),
        if k != 0 || src.len() < s.geometry().grain_bytes {
            a == s.wrote(new * 512, zeros(s.geometry().grain_bytes))
        } else {
            a == s
        },
        s.vacant(new * 512, new * 512 + s.geometry().grain_bytes),
        0 <= k,
        k + src.len() <= s.geometry().grain_bytes,
        src.len() > 0,
    ensures
        s.fills(&a.wrote(new * 512 + k, src).synced(), new, k, src),
{
    let g = s.geometry();
    let gb = g.grain_bytes;
    let lo = new * 512;
    if k != 0 || src.len() < gb {
        lemma_vacant_write(s, lo, lo + gb, lo, zeros(gb));
        lemma_twins_vacant(s, lo, lo + gb, lo, zeros(gb));
    } else {
        lemma_stays(s);
        super::allocate::lemma_map_reflexive(g, s.contents);
    }
    lemma_vacant_write(a, lo, lo + gb, lo + k, src);
    lemma_twins_vacant(a, lo, lo + gb, lo + k, src);
    let w = a.wrote(lo + k, src);
    lemma_synced(w);
    let n = w.synced();
    lemma_keep_step(s, a, w);
    lemma_keep_step(s, w, n);
    super::allocate::lemma_map_trans(g, s.contents, a.contents, w.contents);
    assert(n.vacant(lo, lo + gb)) by {
        reveal(State::vacant);
    }
    assert forall|x: int| 0 <= x < gb implies #[trigger] n.contents[lo + x] == (if k <= x < k
        + src.len() {
        src[x - k]
    } else {
        0
    }) by {}
}

impl<D: BlockDevice> VmdkReader<D> {
    /// The host sector backing this grain, or `None` if the grain has no
    /// data yet: because its table is unallocated, its entry is zero, or
    /// its entry is the zeroed-grain marker.
    pub(super) fn backing_sector(&mut self, gt_idx: usize, gte_idx: usize) -> (r: Result<Option<u32>>)
        requires
            old(self).inv(),
            gt_idx < old(self).gd@.len(),
            gte_idx < old(self).header.num_gtes_per_gt,
        ensures
            final(self).inv(),
            final(self).limit() == old(self).limit(),
            final(self).same_but_caches(old(self)),
            final(self)@ == old(self)@,
            old(self).in_step() ==> final(self).in_step(),
            r matches Err(e) ==> write_fault(false, e),
            r matches Ok(Some(_)) ==> final(self).gt_cache.loaded == Some(
                (gt_idx, final(self).gd@[gt_idx as int]),
            ),
            old(self).in_step() ==> ({
                let g = old(self)@.geometry();
                let gi = gt_idx * g.per_table + gte_idx;
                match r {
                    Ok(x) => old(self)@.entry(gi) is Ok && x == (match g.meaning(
                        old(self)@.entry(gi)->Ok_0,
                    ) {
                        GrainState::At(t) => Some(t),
                        _ => None,
                    }),
                    Err(e) => match old(self)@.entry(gi) {
                        Ok(_) => device_error(e) && !(old(self)@.reliable && old(
                            self,
                        )@.table_held(gi)),
                        Err(f) => e == f,
                    },
                }
            }),
            old(self).sound() ==> ({
                let g = old(self)@.geometry();
                match r {
                    Ok(x) => match g.meaning(
                        grain_entry(g, old(self)@.contents, gt_idx as int, gte_idx as int),
                    ) {
                        GrainState::At(t) => x == Some(t),
                        _ => x is None,
                    },
                    Err(e) => device_error(e) && !old(self)@.reliable,
                }
            }),
    {
        proof {
            reveal(VmdkReader::in_step);
        }
        let ghost s = self@;
        let ghost g = s.geometry();
        let ghost i = gt_idx as int;
        proof {
            if self.sound() && table_sector(g, s.contents, i) != 0 {
                lemma_table_loads(s, i);
            }
            vstd::arithmetic::div_mod::lemma_fundamental_div_mod_converse(
                gt_idx * g.per_table + gte_idx,
                g.per_table,
                gt_idx as int,
                gte_idx as int,
            );
        }
        let gt_sector: u32 = match self.gd_entry(gt_idx) {
            Ok(t) => t,
            Err(e) => return Err(e),
        };
        if gt_sector == 0 {
            return Ok(None);
        }
        let entry: u32 = match self.lookup_grain(gt_idx, gte_idx, gt_sector) {
            Ok(entry) => entry,
            Err(e) => return Err(e),
        };
        match self.grain_state(entry) {
            GrainState::At(sector) => Ok(Some(sector)),
            GrainState::Unallocated => Ok(None),
            GrainState::Zeroed => Ok(None),
        }
    }

    /// No flush: nothing is published, so there is nothing to order the
    /// write against, and durability is the caller's `flush`.
    pub(super) fn write_through(&mut self, grain_sector: u32, addr: &GrainAddress, src: &[u8]) -> (r: Result<
        (),
    >)
        requires
            old(self).inv(),
            old(self).writable,
            src@.len() == addr.chunk_len,
            0 < addr.chunk_len,
        ensures
            final(self).inv(),
            final(self).limit() == old(self).limit(),
            final(self).same_but_device(old(self)),
            match old(self)@.host_offset(grain_sector, addr.in_grain as int, src@.len() as int) {
                Err(f) => r == Err::<(), Error>(f) && final(self)@ == old(self)@,
                Ok(off) => match r {
                    Ok(()) => final(self)@ == old(self)@.wrote(off, src@),
                    Err(e) => device_error(e) && !old(self).steady(),
                },
            },
            old(self).sound() && old(self).addresses(addr) && ({
                let g = old(self)@.geometry();
                g.meaning(
                    grain_entry(
                        g,
                        old(self)@.contents,
                        addr.gt_idx as int,
                        addr.gte_idx as int,
                    ),
                ) == GrainState::At(grain_sector)
            }) ==> ({
                let g = old(self)@.geometry();
                let gi = addr.gt_idx * g.per_table + addr.gte_idx;
                match r {
                    Ok(()) => {
                        &&& final(self).sound()
                        &&& old(self)@.steps_to(&final(self)@)
                        &&& final(self)@.cursor == old(self)@.cursor
                        &&& old(self)@.twinned() ==> final(self)@.twinned()
                        &&& final(self)@.disk() == overlaid(
                            old(self)@.disk(),
                            gi * g.grain_bytes + addr.in_grain,
                            src@,
                        )
                    },
                    Err(e) => device_error(e) && !old(self).steady(),
                }
            }),
    {
        let ghost r0 = *self;
        let ghost s = self@;
        let ghost g = s.geometry();
        let ghost gi = addr.gt_idx * g.per_table + addr.gte_idx;
        let ghost here = g.meaning(
            grain_entry(g, s.contents, addr.gt_idx as int, addr.gte_idx as int),
        ) == GrainState::At(grain_sector);
        proof {
            if r0.sound() && r0.addresses(addr) && here {
                lemma_state_of(g, s.contents, addr.gt_idx as int, addr.gte_idx as int);
                lemma_grain_reachable(s, gi, addr.in_grain as int, src@.len() as int);
            }
        }
        let host_off: u64 = match self.grain_host_offset(
            grain_sector,
            addr.in_grain,
            addr.chunk_len as u64,
        ) {
            Ok(off) => off,
            Err(e) => return Err(e),
        };
        match self.dev_write(host_off, src) {
            Ok(()) => {},
            Err(e) => return Err(e),
        }
        proof {
            if r0.sound() && r0.addresses(addr) && here {
                lemma_data(s, gi, addr.in_grain as int, src@);
                lemma_twins_data(s, gi, addr.in_grain as int, src@);
                Self::lemma_still_in_step(&r0, self);
            }
        }
        Ok(())
    }
}

/// The state of grain `j` of table `i`.
proof fn lemma_state_of(g: crate::image::Geometry, c: Seq<u8>, i: int, j: int)
    requires
        g.per_table > 0,
        0 <= j < g.per_table,
    ensures
        grain_state(g, c, i * g.per_table + j) == g.meaning(grain_entry(g, c, i, j)),
{
    vstd::arithmetic::div_mod::lemma_fundamental_div_mod_converse(
        i * g.per_table + j,
        g.per_table,
        i,
        j,
    );
}

/// A live grain table of a healthy image is not refused, and its bytes are
/// in the file.
pub(super) proof fn lemma_table_loads(s: State, i: int)
    requires
        s.sound(),
        0 <= i < s.geometry().tables,
        table_sector(s.geometry(), s.contents, i) != 0,
    ensures
        s.table_refusal(table_sector(s.geometry(), s.contents, i)) is None,
        table_sector(s.geometry(), s.contents, i) * 512 + 4 * s.geometry().per_table
            <= s.contents.len(),
{
    let g = s.geometry();
    let t = table_sector(g, s.contents, i);
    super::allocate::lemma_table_placed(s, i);
    assert(4 * g.per_table <= g.table_span());
    if hits(s.fixed, t * 512, t * 512 + 4 * g.per_table) {
        let b = choose|b: int|
            t * 512 <= b < t * 512 + 4 * g.per_table && #[trigger] s.fixed.contains(b);
        assert(hits(s.fixed, t * 512, t * 512 + g.table_span()));
    }
}

impl<D: BlockDevice> VmdkReader<D> {
    /// Give this grain a home and land `src` in it.
    ///
    /// A sparse grain, or one the table marks as all-zero: allocate,
    /// zero-pad, write the payload, then publish the grain-table entry. The
    /// zeroed-grain marker takes this branch because it is not a sector
    /// number; following it would write the payload over the embedded
    /// descriptor.
    pub(super) fn allocate_and_write(&mut self, addr: &GrainAddress, src: &[u8]) -> (r: Result<()>)
        requires
            old(self).inv(),
            old(self).writable,
            old(self).addresses(addr),
            src@.len() == addr.chunk_len,
        ensures
            final(self).inv(),
            final(self).limit() == old(self).limit(),
            final(self).same_image(old(self)),
            final(self).tail_from(old(self)),
            r matches Err(e) ==> write_fault(false, e),
            old(self).sound() ==> ({
                let g = old(self)@.geometry();
                let gi = addr.gt_idx * g.per_table + addr.gte_idx;
                match r {
                    Ok(()) => {
                        &&& final(self).sound()
                        &&& old(self)@.steps_to(&final(self)@)
                        &&& final(self)@.cursor <= old(self)@.cursor + old(self)@.need()
                        &&& old(self)@.twinned() ==> final(self)@.twinned()
                        &&& final(self)@.disk() == overlaid(
                            old(self)@.disk(),
                            gi * g.grain_bytes + addr.in_grain,
                            src@,
                        )
                    },
                    Err(e) => write_fault(true, e) && (decided(old(self).steady(), r) ==> {
                        &&& old(self)@.wants(old(self)@.need(), e)
                        &&& final(self).sound()
                        &&& old(self)@.keeps_to(&final(self)@)
                    }),
                }
            }),
            old(self).vacancy(addr) && decided(old(self).steady(), r) ==> {
                let (n, refusal) = old(self)@.with_new_grain(
                    addr.gt_idx as int,
                    addr.gte_idx as int,
                    addr.in_grain as int,
                    src@,
                );
                &&& outcome(r, refusal)
                &&& final(self)@ == n
                &&& final(self).in_step()
            },
    {
        let ghost s0 = self@;
        let ghost r0 = *self;
        let ghost g = s0.geometry();
        let ghost i = addr.gt_idx as int;
        let ghost j = addr.gte_idx as int;
        let ghost exact = r0.vacancy(addr);
        proof {
            if exact {
                r0.lemma_vacant_entry(addr);
            }
        }
        let gt_sector: u32 = match self.table_of(addr.gt_idx) {
            Ok(t) => t,
            Err(e) => return Err(e),
        };
        let ghost s1 = self@;
        let ghost r1 = *self;
        assert(exact ==> g.meaning(entry_at(s1.contents, gt_sector * 512, j)) !is At) by {
            if exact && table_sector(g, s0.contents, i) == 0 {
                assert(entry_at(s1.contents, gt_sector * 512, j) == 0);
            }
        }
        proof {
            if r0.sound() {
                lemma_step_frame(s0, s1);
            }
        }
        let entry: u32 = match self.lookup_grain(addr.gt_idx, addr.gte_idx, gt_sector) {
            Ok(entry) => entry,
            Err(e) => {
                proof {
                    if r0.sound() {
                        Self::lemma_lookup_served(&r1, i);
                    }
                }
                return Err(e);
            },
        };
        assert(r0.sound() ==> entry == grain_entry(g, s1.contents, i, j)) by {
            if r0.sound() {
                Self::lemma_directory(&r1, i);
            }
        }
        if let GrainState::At(grain_sector) = self.grain_state(entry) {
            let r: Result<()> = self.write_through(grain_sector, addr, src);
            proof {
                if r0.sound() && r is Ok {
                    lemma_keep_step(s0, s1, self@);
                    lemma_step_frame(s1, self@);
                }
            }
            return r;
        }
        let r: Result<()> = self.copy_and_place(addr, gt_sector, src);
        proof {
            if r0.sound() && decided(r0.steady(), r) {
                lemma_keep_step(s0, s1, self@);
            }
        }
        r
    }

    /// The sector of grain table `gt_idx`, allocated where there is none.
    fn table_of(&mut self, gt_idx: usize) -> (r: Result<u32>)
        requires
            old(self).inv(),
            old(self).writable,
            gt_idx < old(self).gd@.len(),
        ensures
            final(self).inv(),
            final(self).limit() == old(self).limit(),
            final(self).same_image(old(self)),
            final(self).tail_from(old(self)),
            r matches Ok(t) ==> t != 0 && final(self).gd@[gt_idx as int] == t,
            r matches Err(e) ==> write_fault(false, e),
            old(self).sound() ==> match r {
                Ok(t) => {
                    &&& final(self).sound()
                    &&& old(self)@.keeps_to(&final(self)@)
                    &&& final(self)@.cursor <= old(self)@.cursor + 2 * old(self)@.table_sectors()
                    &&& old(self)@.twinned() ==> final(self)@.twinned()
                },
                Err(e) => write_fault(true, e) && (decided(old(self).steady(), r) ==> Self::out_of_room(
                    old(self),
                    final(self),
                    2 * old(self)@.table_sectors(),
                    e,
                )),
            },
            old(self).in_step() && decided(old(self).steady(), r) && old(self)@.grounded() && ({
                let t = table_sector(old(self)@.geometry(), old(self)@.contents, gt_idx as int);
                t == 0 || (old(self)@.table_refusal(t) is None && old(self)@.table_guarded(
                    gt_idx as int,
                ) && old(self)@.copy_guarded(gt_idx as int))
            }) ==> ({
                let i = gt_idx as int;
                let s = old(self)@;
                let n = final(self)@;
                let g = s.geometry();
                let absent = table_sector(g, s.contents, i) == 0;
                let tabled = if absent {
                    s.with_table(i)
                } else {
                    (s, None)
                };
                &&& n == tabled.0
                &&& final(self).in_step()
                &&& match r {
                    Ok(t) => {
                        &&& tabled.1 is None
                        &&& old(self).steady() ==> final(self).steady()
                        &&& n.grounded()
                        &&& n.geometry() == g
                        &&& table_sector(g, n.contents, i) == t
                        &&& n.table_refusal(t) is None
                        &&& n.table_guarded(i)
                        &&& n.copy_guarded(i)
                        &&& absent ==> forall|j: int|
                            0 <= j < g.per_table ==> #[trigger] entry_at(n.contents, t * 512, j)
                                == 0
                    },
                    Err(e) => tabled.1 == Some(e),
                }
            }),
    {
        let ghost s0 = self@;
        let ghost r0 = *self;
        let ghost g = s0.geometry();
        let ghost i = gt_idx as int;
        proof {
            lemma_stays(s0);
            if r0.in_step() {
                Self::lemma_directory(&r0, i);
                if s0.grounded() && table_sector(g, s0.contents, i) == 0 {
                    lemma_with_table(s0, i);
                }
            }
        }
        // Zero means the whole grain table is unallocated, so one has to
        // exist before the grain inside it can.
        let listed: u32 = match self.gd_entry(gt_idx) {
            Ok(t) => t,
            Err(e) => return Err(e),
        };
        if listed != 0 {
            return Ok(listed);
        }
        let r: Result<u32> = self.allocate_grain_table(gt_idx);
        proof {
            if r0.in_step() && decided(r0.steady(), r) && s0.grounded() {
                Self::lemma_table_step(&r0, self, i);
            }
        }
        r
    }

    /// Bring the redundant copy of the grain's table up to date, then place
    /// the grain.
    ///
    /// The redundant table is resolved, and checked, before a grain is
    /// allocated, so a bad redundant pointer fails the write without
    /// leaking a grain.
    fn copy_and_place(&mut self, addr: &GrainAddress, gt_sector: u32, src: &[u8]) -> (r: Result<()>)
        requires
            old(self).inv(),
            old(self).writable,
            old(self).addresses(addr),
            src@.len() == addr.chunk_len,
            gt_sector == old(self).gd@[addr.gt_idx as int],
            gt_sector != 0,
            old(self).gt_cache.loaded == Some((addr.gt_idx, gt_sector)),
        ensures
            final(self).inv(),
            final(self).limit() == old(self).limit(),
            final(self).same_image(old(self)),
            final(self).tail_from(old(self)),
            r matches Err(e) ==> write_fault(false, e),
            old(self).sound() && ({
                let g = old(self)@.geometry();
                g.meaning(
                    grain_entry(
                        g,
                        old(self)@.contents,
                        addr.gt_idx as int,
                        addr.gte_idx as int,
                    ),
                ) !is At
            }) ==> ({
                let g = old(self)@.geometry();
                let gi = addr.gt_idx * g.per_table + addr.gte_idx;
                match r {
                    Ok(()) => {
                        &&& final(self).sound()
                        &&& old(self)@.steps_to(&final(self)@)
                        &&& final(self)@.cursor <= old(self)@.cursor + old(self)@.table_sectors()
                            + old(self)@.header.grain_size
                        &&& old(self)@.twinned() ==> final(self)@.twinned()
                        &&& final(self)@.disk() == overlaid(
                            old(self)@.disk(),
                            gi * g.grain_bytes + addr.in_grain,
                            src@,
                        )
                    },
                    Err(e) => write_fault(true, e) && (decided(old(self).steady(), r) ==> {
                        &&& old(self)@.wants(
                            old(self)@.table_sectors() + old(self)@.header.grain_size,
                            e,
                        )
                        &&& final(self).sound()
                        &&& old(self)@.keeps_to(&final(self)@)
                    }),
                }
            }),
            old(self).in_step() && decided(old(self).steady(), r) && old(self)@.grounded() && old(
                self,
            )@.table_refusal(gt_sector) is None && old(self)@.table_guarded(addr.gt_idx as int)
                && old(self)@.copy_guarded(addr.gt_idx as int) ==> ({
                let (n, refusal) = old(self)@.with_grain_in_table(
                    addr.gt_idx as int,
                    addr.gte_idx as int,
                    addr.in_grain as int,
                    src@,
                );
                &&& outcome(r, refusal)
                &&& final(self)@ == n
                &&& final(self).in_step()
            }),
    {
        let ghost s0 = self@;
        let ghost r0 = *self;
        let ghost g = s0.geometry();
        let ghost i = addr.gt_idx as int;
        let ghost exact = r0.in_step() && s0.grounded() && s0.table_refusal(
            gt_sector,
        ) is None && s0.table_guarded(i) && s0.copy_guarded(i);
        proof {
            reveal(State::with_grain_in_table);
            lemma_stays(s0);
            if r0.in_step() {
                Self::lemma_directory(&r0, i);
            }
            if exact {
                lemma_with_copy(s0, i);
            }
        }
        match self.redundant_gt_sector(addr.gt_idx, gt_sector) {
            Ok(_) => {
                proof {
                    if exact {
                        Self::lemma_copy_step(&r0, self, i);
                    }
                }
            },
            Err(e) => {
                proof {
                    if exact && (r0.steady() || !device_error(e)) {
                        Self::lemma_copy_step(&r0, self, i);
                    }
                }
                return Err(e);
            },
        }
        let ghost s1 = self@;
        proof {
            if r0.sound() {
                lemma_step_frame(s0, s1);
                reveal(same_reading);
            }
        }
        let r: Result<()> = self.place_grain(addr, gt_sector, src);
        proof {
            if r0.sound() && g.meaning(
                grain_entry(g, s0.contents, i, addr.gte_idx as int),
            ) !is At && decided(r0.steady(), r) {
                lemma_keep_step(s0, s1, self@);
            }
        }
        r
    }

    /// Put `src` at `in_grain` inside the grain at `sector`, zeros around
    /// it, and flush.
    fn fill_grain(&mut self, sector: u32, in_grain: u64, src: &[u8]) -> (r: Result<()>)
        requires
            old(self).inv(),
            old(self).writable,
            0 < src@.len(),
            in_grain + src@.len() <= old(self)@.geometry().grain_bytes,
            sector * 512 + old(self)@.geometry().grain_bytes <= old(self).alloc_cursor * 512,
            old(self).alloc_cursor <= u32::MAX,
        ensures
            final(self).inv(),
            final(self).limit() == old(self).limit(),
            final(self).same_but_device(old(self)),
            r matches Err(e) ==> write_fault(true, e),
            old(self).sound() && old(self)@.vacant(
                sector * 512,
                sector * 512 + old(self)@.geometry().grain_bytes,
            ) ==> match r {
                Ok(()) => {
                    &&& final(self).in_step()
                    &&& old(self)@.fills(&final(self)@, sector, in_grain as int, src@)
                },
                Err(e) => decided(old(self).steady(), r) ==> {
                    &&& e == Error::Unsupported(TOO_LARGE)
                    &&& old(self)@.header.grain_size * 512 > usize::MAX
                    &&& final(self).in_step()
                    &&& final(self)@ == old(self)@
                },
            },
            decided(old(self).steady(), r) ==> ({
                let gb = old(self)@.geometry().grain_bytes;
                let part = in_grain != 0 || src@.len() < gb;
                if part && gb > usize::MAX {
                    r == Err::<(), Error>(Error::Unsupported(TOO_LARGE)) && final(self)@ == old(
                        self,
                    )@
                } else {
                    &&& r is Ok
                    &&& final(self)@ == (if part {
                        old(self)@.wrote(sector * 512, zeros(gb))
                    } else {
                        old(self)@
                    }).wrote(sector * 512 + in_grain, src@).synced()
                }
            }),
    {
        let ghost s = self@;
        let ghost r0 = *self;
        let grain_bytes: u64 = self.grain_size_bytes();
        if in_grain != 0 || (src.len() as u64) < grain_bytes {
            // Partial-grain write: zero-init the whole grain first so the
            // unwritten head and tail read as zero.
            let blank: Vec<u8> = match zeroed(grain_bytes) {
                Ok(blank) => blank,
                Err(e) => return Err(e),
            };
            match self.dev_write((sector as u64) * SECTOR_SIZE, blank.as_slice()) {
                Ok(()) => {},
                Err(e) => return Err(e),
            }
        }
        let ghost a = self@;
        match self.dev_write((sector as u64) * SECTOR_SIZE + in_grain, src) {
            Ok(()) => {},
            Err(e) => return Err(e),
        }
        match self.dev_flush() {
            Ok(()) => {},
            Err(e) => return Err(e),
        }
        proof {
            if r0.sound() && s.vacant(sector * 512, sector * 512 + s.geometry().grain_bytes) {
                lemma_filled(s, a, sector, in_grain as int, src@);
                Self::lemma_still_in_step(&r0, self);
            }
        }
        Ok(())
    }

    /// Allocate a grain, fill it and publish its entry.
    fn place_grain(&mut self, addr: &GrainAddress, gt_sector: u32, src: &[u8]) -> (r: Result<()>)
        requires
            old(self).inv(),
            old(self).writable,
            old(self).addresses(addr),
            src@.len() == addr.chunk_len,
            gt_sector == old(self).gd@[addr.gt_idx as int],
            gt_sector != 0,
            old(self).gt_cache.loaded == Some((addr.gt_idx, gt_sector)),
        ensures
            final(self).inv(),
            final(self).limit() == old(self).limit(),
            final(self).same_image(old(self)),
            final(self).tail_from(old(self)),
            r matches Err(e) ==> write_fault(false, e),
            old(self).sound() && ({
                let g = old(self)@.geometry();
                let i = addr.gt_idx as int;
                &&& g.meaning(
                    grain_entry(g, old(self)@.contents, i, addr.gte_idx as int),
                ) !is At
                &&& old(self)@.redundant ==> old(self)@.merged.contains(i) && copy_sector(
                    g,
                    old(self)@.contents,
                    i,
                ) != 0
            }) ==> ({
                let g = old(self)@.geometry();
                let gi = addr.gt_idx * g.per_table + addr.gte_idx;
                match r {
                    Ok(()) => {
                        &&& final(self).sound()
                        &&& old(self)@.steps_to(&final(self)@)
                        &&& final(self)@.cursor <= old(self)@.cursor + old(
                            self,
                        )@.header.grain_size
                        &&& old(self)@.twinned() ==> final(self)@.twinned()
                        &&& final(self)@.disk() == overlaid(
                            old(self)@.disk(),
                            gi * g.grain_bytes + addr.in_grain,
                            src@,
                        )
                    },
                    Err(e) => write_fault(true, e) && (decided(old(self).steady(), r) ==> {
                        &&& old(self)@.wants(old(self)@.header.grain_size as int, e)
                        &&& final(self).sound()
                        &&& old(self)@.keeps_to(&final(self)@)
                    }),
                }
            }),
            old(self).in_step() && decided(old(self).steady(), r) && old(self)@.prepared(
                addr.gt_idx as int,
            ) ==> {
                let (n, refusal) = old(self)@.with_grain(addr.in_grain as int, src@);
                &&& outcome(r, refusal)
                &&& final(self)@ == (if refusal is None {
                    n.with_entry(
                        addr.gt_idx as int,
                        addr.gte_idx as int,
                        old(self)@.cursor as u32,
                    )
                } else {
                    n
                })
                &&& final(self).in_step()
            },
    {
        let ghost s0 = self@;
        let ghost r0 = *self;
        let ghost g = s0.geometry();
        let ghost i = addr.gt_idx as int;
        let ghost j = addr.gte_idx as int;
        let ghost ready = r0.sound() && g.meaning(grain_entry(g, s0.contents, i, j)) !is At && (
        s0.redundant ==> s0.merged.contains(i) && copy_sector(g, s0.contents, i) != 0);
        let ghost exact = r0.in_step() && s0.prepared(i);
        proof {
            lemma_stays(s0);
            if exact {
                lemma_with_grain(s0, i, addr.in_grain as int, src@);
            }
        }
        let new_grain_sector: u32 = match self.allocate_grain() {
            Ok(s) => s,
            Err(e) => return Err(e),
        };
        assert(exact && r0.steady() ==> self.steady());
        let ghost s1 = self@;
        proof {
            if ready {
                lemma_reserved(s0, s0.header.grain_size as int);
                Self::lemma_noted_in_step(&r0, self);
            }
        }
        match self.fill_grain(new_grain_sector, addr.in_grain, src) {
            Ok(()) => {},
            Err(e) => {
                proof {
                    if exact && (r0.steady() || !device_error(e)) {
                        Self::lemma_tail_step(&r0, self);
                    }
                }
                return Err(e);
            },
        }
        let ghost s3 = self@;
        proof {
            if exact {
                assert(s3 == s0.with_grain(addr.in_grain as int, src@).0);
                Self::lemma_tail_step(&r0, self);
            }
            if ready {
                Self::lemma_directory(&r0, i);
                assert(g.wf()) by {
                    reveal(State::sound);
                    reveal(healthy);
                }
                lemma_step_frame(s1, s3);
                lemma_keep_step(s0, s1, s3);
                lemma_placed_grain_ready(s0, s1, s3, i, j, new_grain_sector);
            }
        }
        // Step 2: publish the entry.
        let r: Result<()> = self.update_gt_entry(
            addr.gt_idx,
            addr.gte_idx,
            gt_sector,
            new_grain_sector,
        );
        proof {
            if ready && r is Ok {
                lemma_keep_step(s0, s3, self@);
                lemma_landed(
                    g,
                    s0,
                    s3,
                    self@,
                    i,
                    j,
                    new_grain_sector,
                    addr.in_grain as int,
                    src@,
                );
            }
        }
        r
    }

    /// The entry of a grain that has no place.
    proof fn lemma_vacant_entry(&self, addr: &GrainAddress)
        requires
            self.vacancy(addr),
        ensures
            ({
                let g = self@.geometry();
                let i = addr.gt_idx as int;
                let t = table_sector(g, self@.contents, i);
                &&& 0 <= i < g.tables
                &&& self.gd@[i] == t
                &&& t != 0 ==> self@.table_refusal(t) is None && g.meaning(
                    entry_at(self@.contents, t * 512, addr.gte_idx as int),
                ) !is At
                &&& 1 <= self@.cursor
            }),
    {
        reveal(VmdkReader::in_step);
        let g = self@.geometry();
        vstd::arithmetic::div_mod::lemma_fundamental_div_mod_converse(
            addr.gt_idx * g.per_table + addr.gte_idx,
            g.per_table,
            addr.gt_idx as int,
            addr.gte_idx as int,
        );
    }

    /// Allocating a table leaves the reader in step.
    proof fn lemma_table_step(before: &Self, after: &Self, i: int)
        requires
            before.inv(),
            before.writable,
            before.in_step(),
            before@.grounded(),
            0 <= i < before@.geometry().tables,
            table_sector(before@.geometry(), before@.contents, i) == 0,
            after@ == before@.with_table(i).0,
            after.header == before.header,
            after.gt_cache == before.gt_cache,
            after.inflated == before.inflated,
            after.rgd is Some == before.rgd is Some,
            match before@.with_table(i).1 {
                None => {
                    &&& after.gd@ == before.gd@.update(i, before@.cursor as u32)
                    &&& before.rgd matches Some(rgd) ==> after.rgd->0@ == rgd@.update(
                        i,
                        (before@.cursor as u32 + before@.table_sectors()) as u32,
                    )
                },
                Some(_) => after.gd == before.gd && after.rgd == before.rgd,
            },
        ensures
            after.in_step(),
    {
        reveal(VmdkReader::in_step);
        let s = before@;
        let n = after@;
        let g = s.geometry();
        lemma_with_table(s, i);
        assert forall|k: int| 0 <= k < after.gd@.len() implies #[trigger] after.gd@[k]
            == table_sector(g, n.contents, k) by {
            assert(before.gd@[k] == table_sector(g, s.contents, k));
        }
        if let Some(rgd) = after.rgd {
            assert forall|k: int| 0 <= k < rgd@.len() implies #[trigger] rgd@[k] == copy_sector(
                g,
                n.contents,
                k,
            ) by {
                assert(before.rgd->0@[k] == copy_sector(g, s.contents, k));
            }
        }
        if let Some((k, t)) = after.gt_cache.loaded {
            assert forall|l: int|
                0 <= l < after.gt_cache.entries@.len() implies #[trigger] after.gt_cache.entries@[l]
                == entry_at(n.contents, t * 512, l) by {
                assert(before.gt_cache.entries@[l] == entry_at(s.contents, t * 512, l));
                lemma_entry_unfixed(s, n, t, l);
            }
        }
    }

    /// Preparing the copy of a table leaves the reader in step that has the
    /// table cached.
    proof fn lemma_copy_step(before: &Self, after: &Self, i: int)
        requires
            before.inv(),
            before.writable,
            before.in_step(),
            before@.grounded(),
            0 <= i < before@.geometry().tables,
            ({
                let t = table_sector(before@.geometry(), before@.contents, i);
                &&& t != 0
                &&& before@.table_refusal(t) is None
                &&& before.gt_cache.loaded matches Some((k, u)) && k == i && u == t
            }),
            before@.table_guarded(i),
            before@.copy_guarded(i),
            after@ == before@.with_copy(i).0,
            after.header == before.header,
            after.gd == before.gd,
            after.gt_cache == before.gt_cache,
            after.inflated == before.inflated,
            after.rgd is Some == before.rgd is Some,
            match before@.with_copy(i).1 {
                None => before.rgd matches Some(rgd) ==> after.rgd->0@ == rgd@.update(
                    i,
                    before@.copy_at(i)->0,
                ),
                Some(_) => after.rgd == before.rgd,
            },
        ensures
            after.in_step(),
    {
        reveal(VmdkReader::in_step);
        let s = before@;
        let n = after@;
        let g = s.geometry();
        lemma_with_copy(s, i);
        assert forall|k: int| 0 <= k < after.gd@.len() implies #[trigger] after.gd@[k]
            == table_sector(g, n.contents, k) by {
            assert(before.gd@[k] == table_sector(g, s.contents, k));
        }
        if let Some(rgd) = after.rgd {
            assert forall|k: int| 0 <= k < rgd@.len() implies #[trigger] rgd@[k] == copy_sector(
                g,
                n.contents,
                k,
            ) by {
                assert(before.rgd->0@[k] == copy_sector(g, s.contents, k));
            }
        }
        let t = table_sector(g, s.contents, i);
        assert(4 * g.per_table <= g.table_span());
        assert forall|l: int|
            0 <= l < after.gt_cache.entries@.len() implies #[trigger] after.gt_cache.entries@[l]
            == entry_at(n.contents, t * 512, l) by {
            assert(before.gt_cache.entries@[l] == entry_at(s.contents, t * 512, l));
            let p = t * 512 + 4 * l;
            assert(n.contents[p] == s.contents[p] && n.contents[p + 1] == s.contents[p + 1]
                && n.contents[p + 2] == s.contents[p + 2] && n.contents[p + 3] == s.contents[p + 3]);
        }
    }

    /// What happens past the end of the image leaves the reader in step.
    proof fn lemma_tail_step(before: &Self, after: &Self)
        requires
            before.inv(),
            before.writable,
            before.in_step(),
            before@.agrees_below(&after@, before@.extent()),
            after@.geometry() == before@.geometry(),
            after.header == before.header,
            after.gd == before.gd,
            after.rgd == before.rgd,
            after.gt_cache == before.gt_cache,
            after.inflated == before.inflated,
        ensures
            after.in_step(),
    {
        reveal(VmdkReader::in_step);
        let s = before@;
        let n = after@;
        let g = s.geometry();
        assert forall|k: int| 0 <= k < after.gd@.len() implies #[trigger] after.gd@[k]
            == table_sector(g, n.contents, k) by {
            assert(before.gd@[k] == table_sector(g, s.contents, k));
            lemma_entry_below(s, n, g.gd_at, k);
        }
        if let Some(rgd) = after.rgd {
            assert forall|k: int| 0 <= k < rgd@.len() implies #[trigger] rgd@[k] == copy_sector(
                g,
                n.contents,
                k,
            ) by {
                assert(before.rgd->0@[k] == copy_sector(g, s.contents, k));
                lemma_entry_below(s, n, g.rgd_at->0, k);
            }
        }
        if let Some((k, t)) = after.gt_cache.loaded {
            assert forall|l: int|
                0 <= l < after.gt_cache.entries@.len() implies #[trigger] after.gt_cache.entries@[l]
                == entry_at(n.contents, t * 512, l) by {
                assert(before.gt_cache.entries@[l] == entry_at(s.contents, t * 512, l));
                lemma_entry_below(s, n, t * 512, l);
            }
        }
    }

    /// A reader in step has the directory as the device holds it.
    proof fn lemma_directory(r: &Self, i: int)
        requires
            r.in_step(),
            0 <= i < r.gd@.len(),
        ensures
            r.gd@[i] == table_sector(r@.geometry(), r@.contents, i),
    {
        reveal(VmdkReader::in_step);
    }

    /// Loading a live table of a healthy image fails only with the device.
    proof fn lemma_lookup_served(r: &Self, i: int)
        requires
            r.sound(),
            r.inv(),
            0 <= i < r.gd@.len(),
            r.gd@[i] != 0,
        ensures
            r@.table_refusal(r.gd@[i]) is None,
            r.gd@[i] * 512 + 4 * r@.header.num_gtes_per_gt <= r@.contents.len(),
    {
        Self::lemma_directory(r, i);
        lemma_table_loads(r@, i);
    }
}

/// An entry of a table that is not refused is kept where all is kept that
/// lies in the image and is not fixed.
proof fn lemma_entry_unfixed(s: State, n: State, t: u32, l: int)
    requires
        s.table_refusal(t) is None,
        t * 512 + 4 * s.geometry().per_table <= s.contents.len(),
        0 <= l < s.geometry().per_table,
        forall|b: int|
            0 <= b < s.extent() && b < s.contents.len() && !s.fixed.contains(b)
                ==> #[trigger] n.contents[b] == s.contents[b],
    ensures
        entry_at(n.contents, t * 512, l) == entry_at(s.contents, t * 512, l),
{
    let p = t * 512 + 4 * l;
    assert forall|b: int| p <= b < p + 4 implies #[trigger] n.contents[b] == s.contents[b] by {
        if s.fixed.contains(b) {
            assert(hits(s.fixed, t * 512, t * 512 + 4 * s.header.num_gtes_per_gt));
        }
    }
    assert(n.contents[p] == s.contents[p] && n.contents[p + 1] == s.contents[p + 1]
        && n.contents[p + 2] == s.contents[p + 2] && n.contents[p + 3] == s.contents[p + 3]);
}

/// An entry below the end of the image is kept by what happens past it.
proof fn lemma_entry_below(s: State, n: State, at: int, i: int)
    requires
        s.agrees_below(&n, s.extent()),
        0 <= at,
        0 <= i,
        at + 4 * i + 4 <= s.extent(),
        at + 4 * i + 4 <= s.contents.len(),
    ensures
        entry_at(n.contents, at, i) == entry_at(s.contents, at, i),
{
    let p = at + 4 * i;
    assert(n.contents[p] == s.contents[p] && n.contents[p + 1] == s.contents[p + 1]
        && n.contents[p + 2] == s.contents[p + 2] && n.contents[p + 3] == s.contents[p + 3]);
}

/// A filled grain at the tail may be published.
proof fn lemma_placed_grain_ready(s0: State, s1: State, s3: State, i: int, j: int, new: u32)
    requires
        s0.sound(),
        s1 == (State { cursor: s0.cursor + s0.header.grain_size, ..s0 }),
        s3.sound(),
        s3.settled(),
        s1.keeps_to(&s3),
        s3.merged == s1.merged,
        s3.tables == s1.tables,
        same_map(s1.geometry(), s1.contents, s3.contents),
        new == s0.cursor,
        new >= 2,
        s0.floor <= new * 512,
        0 <= i < s0.geometry().tables,
        0 <= j < s0.geometry().per_table,
        s0.geometry().has_grain(i * s0.geometry().per_table + j),
        table_sector(s0.geometry(), s0.contents, i) != 0,
        s0.geometry().meaning(grain_entry(s0.geometry(), s0.contents, i, j)) !is At,
        s0.redundant ==> s0.merged.contains(i) && copy_sector(s0.geometry(), s0.contents, i) != 0,
        s3.vacant(new * 512, new * 512 + s0.geometry().grain_bytes),
        new * 512 + s0.geometry().grain_bytes <= s3.contents.len(),
        forall|b: int| #[trigger] s0.tables.contains(b) ==> b < s0.cursor * 512,
    ensures
        s3.grain_ready(i, j, new),
{
    reveal(same_map);
    reveal(same_reading);
    let g = s0.geometry();
    assert(s1.geometry() == g);
    assert(s3.geometry() == g && s3.redundant == s0.redundant) by {
        reveal(State::steps_to);
    }
    assert(table_sector(g, s1.contents, i) == table_sector(g, s3.contents, i));
    assert(copy_sector(g, s1.contents, i) == copy_sector(g, s3.contents, i));
    assert(grain_entry(g, s1.contents, i, j) == grain_entry(g, s3.contents, i, j));
    if hits(s3.tables, new * 512, new * 512 + g.grain_bytes) {
        let b = choose|b: int|
            new * 512 <= b < new * 512 + g.grain_bytes && #[trigger] s3.tables.contains(b);
        assert(s0.tables.contains(b));
    }
}

/// Publishing a filled grain changes the disk exactly where its data is.
proof fn lemma_landed(
    g: crate::image::Geometry,
    s0: State,
    s3: State,
    n: State,
    i: int,
    j: int,
    new: u32,
    k: int,
    src: Seq<u8>,
)
    requires
        g == s0.geometry(),
        g == n.geometry(),
        g.wf(),
        s3.disk() == s0.disk(),
        0 <= i < g.tables,
        0 <= j < g.per_table,
        g.has_grain(i * g.per_table + j),
        g.meaning(grain_entry(g, s0.contents, i, j)) !is At,
        0 <= k,
        k + src.len() <= g.used(i * g.per_table + j),
        forall|x: int|
            0 <= x < g.grain_bytes ==> #[trigger] s3.contents[new * 512 + x] == (if k <= x < k
                + src.len() {
                src[x - k]
            } else {
                0
            }),
        forall|v: int|
            0 <= v < g.virtual_size ==> #[trigger] n.disk()[v] == (if v / g.grain_bytes == i
                * g.per_table + j {
                s3.contents[new * 512 + v % g.grain_bytes]
            } else {
                s3.disk()[v]
            }),
    ensures
        n.disk() == overlaid(s0.disk(), (i * g.per_table + j) * g.grain_bytes + k, src),
{
    let gi = i * g.per_table + j;
    let from = gi * g.grain_bytes + k;
    let want = overlaid(s0.disk(), from, src);
    lemma_state_of(g, s0.contents, i, j);
    assert forall|v: int| 0 <= v < g.virtual_size implies n.disk()[v] == want[v] by {
        crate::image::lemma_byte_in_grain(g, v);
        let x = v % g.grain_bytes;
        if v / g.grain_bytes == gi {
            assert(v == gi * g.grain_bytes + x);
            assert(s0.disk()[v] == 0);
            assert(n.disk()[v] == s3.contents[new * 512 + x]);
        } else if from <= v < from + src.len() {
            crate::image::lemma_offset_of(g, gi, k + (v - from));
        }
    }
    assert(n.disk() =~= want);
}

} // verus!
