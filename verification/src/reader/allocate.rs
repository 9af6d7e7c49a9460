//! Allocating at the device tail: grains, grain tables and their
//! redundant copies.

use super::open::TOO_LARGE;
use super::sound::{
    extends, lemma_copy, lemma_copy_goes_live, lemma_keep_step, lemma_protected, lemma_reserved,
    lemma_stays, lemma_still_vacant, lemma_synced, lemma_table_goes_live, lemma_vacant_beside_copy,
    lemma_vacant_write, lemma_entries_trans, lemma_map_entries, lemma_noted, recorded,
    same_entries, settled_at,
};
use super::twins::{lemma_twins_merged, lemma_twins_new_table, lemma_twins_vacant, twin_at, twins};
use super::state::{bytes_at, hits, zeros, State};
use super::VmdkReader;
use crate::bytes::{le32_bytes, u32_le};
use crate::device::{device_error, written, BlockDevice, BlockRead};
use crate::error::{Error, Result};
use crate::image::{
    apart, copy_entry, copy_sector, entry_at, grain_entry, healthy, mirrored, placed, same_map,
    same_reading, slot_range, table_sector, Slot, SECTOR_SIZE,
};
use vstd::prelude::*;

verus! {

/// The refusal of a growth past what a grain-table entry can address.
pub const GREW: &'static str = "image grew past u32 sector addressable range";

/// Whether a write may fail with `e`: with an error of the device's own,
/// for want of addressable sectors or of memory, and, on an image that is
/// not sound, with a verdict on its bytes.
pub open spec fn write_fault(sound: bool, e: Error) -> bool {
    ||| device_error(e)
    ||| e == Error::Unsupported(GREW)
    ||| e == Error::Unsupported(TOO_LARGE)
    ||| !sound && (e is Corrupt || e is Unsupported)
}

/// Whether what came of a call is not the device's doing: the device takes
/// every write, or the call did not fail with an error of the device's own.
pub open spec fn decided<T>(steady: bool, r: Result<T>) -> bool {
    steady || (r matches Err(e) ==> !device_error(e))
}

impl<D: BlockRead> VmdkReader<D> {
    /// A device write that keeps the map keeps the reader in step.
    pub(super) proof fn lemma_still_in_step(before: &Self, after: &Self)
        requires
            before.sound(),
            before.same_but_device(after),
            same_map(before@.geometry(), before@.contents, after@.contents),
            before@.contents.len() <= after@.contents.len(),
        ensures
            after.in_step(),
    {
        reveal(VmdkReader::in_step);
        reveal(same_reading);
        reveal(same_map);
        reveal(healthy);
        reveal(State::sound);
        let g = before@.geometry();
        let c = before@.contents;
        let d = after@.contents;
        assert(after@.geometry() == g);
        assert forall|i: int| 0 <= i < after.gd@.len() implies #[trigger] after.gd@[i]
            == table_sector(g, d, i) by {
            assert(before.gd@[i] == table_sector(g, c, i));
        }
        if let Some(rgd) = after.rgd {
            assert forall|i: int| 0 <= i < rgd@.len() implies #[trigger] rgd@[i] == copy_sector(
                g,
                d,
                i,
            ) by {
                assert(before.rgd->0@[i] == copy_sector(g, c, i));
            }
        }
        if let Some((i, t)) = after.gt_cache.loaded {
            assert(before.gd@[i as int] == table_sector(g, c, i as int));
            assert(table_sector(g, d, i as int) == t);
            assert forall|j: int|
                0 <= j < after.gt_cache.entries@.len() implies #[trigger] after.gt_cache.entries@[j]
                == entry_at(d, t * 512, j) by {
                assert(before.gt_cache.entries@[j] == entry_at(c, t * 512, j));
                assert(grain_entry(g, c, i as int, j) == grain_entry(g, d, i as int, j));
            }
        }
    }
}

impl<D: BlockDevice> VmdkReader<D> {
    pub(super) fn dev_write(&mut self, off: u64, buf: &[u8]) -> (r: Result<()>)
        requires
            old(self).inv(),
            off + buf@.len() <= old(self).alloc_cursor * 512,
        ensures
            final(self).inv(),
            final(self).same_but_device(old(self)),
            final(self).limit() == old(self).limit(),
            match r {
                Ok(()) => old(self).writable && final(self)@ == old(self)@.wrote(off as int, buf@),
                Err(e) => if old(self).writable {
                    &&& device_error(e)
                    &&& final(self).journal == old(self).journal
                    &&& !(old(self)@.reliable && off + buf@.len() <= old(self).limit())
                } else {
                    e == Error::ReadOnly && final(self)@ == old(self)@
                },
            },
    {
        if !self.writable {
            return Err(Error::ReadOnly);
        }
        match self.dev.write_at(off, buf) {
            Ok(()) => {
                self.journal = Ghost(recorded(self.journal@, self.dev.contents()));
                Ok(())
            },
            Err(e) => Err(e),
        }
    }

    pub(super) fn dev_flush(&mut self) -> (r: Result<()>)
        requires
            old(self).inv(),
        ensures
            final(self).inv(),
            final(self).same_but_device(old(self)),
            final(self).limit() == old(self).limit(),
            match r {
                Ok(()) => old(self).writable && final(self)@ == old(self)@.synced(),
                Err(e) => if old(self).writable {
                    &&& device_error(e)
                    &&& final(self).journal == old(self).journal
                    &&& !old(self)@.reliable
                } else {
                    e == Error::ReadOnly && final(self)@ == old(self)@
                },
            },
    {
        if !self.writable {
            return Err(Error::ReadOnly);
        }
        match self.dev.flush() {
            Ok(()) => {
                self.journal = Ghost(settled_at(self.journal@, self.dev.contents()));
                Ok(())
            },
            Err(e) => Err(e),
        }
    }

    /// Allocate `n_sectors` worth of host space at the device tail and
    /// return the starting sector.
    pub(super) fn allocate_sectors(&mut self, n_sectors: u64) -> (r: Result<u64>)
        requires
            old(self).inv(),
        ensures
            final(self).inv(),
            final(self).limit() == old(self).limit(),
            final(self).dev == old(self).dev,
            match r {
                Ok(start) => {
                    &&& start == old(self).alloc_cursor
                    &&& start + n_sectors <= u32::MAX
                    &&& *final(self) == (VmdkReader {
                        alloc_cursor: (start + n_sectors) as u64,
                        ..*old(self)
                    })
                    &&& final(self)@ == (State { cursor: start + n_sectors, ..old(self)@ })
                },
                Err(e) => {
                    &&& old(self).alloc_cursor + n_sectors > u32::MAX
                    &&& old(self).alloc_cursor + n_sectors <= u64::MAX ==> e == Error::Unsupported(
                        GREW,
                    )
                    &&& old(self).alloc_cursor + n_sectors > u64::MAX ==> e == Error::Corrupt(
                        "alloc_cursor overflow",
                    )
                    &&& *final(self) == *old(self)
                },
            },
    {
        let start: u64 = self.alloc_cursor;
        let new_end: u64 = match start.checked_add(n_sectors) {
            Some(end) => end,
            None => return Err(Error::Corrupt("alloc_cursor overflow")),
        };
        // Entries are 32-bit sector numbers. Real images never come close,
        // but an error is better than a bad entry.
        if new_end > u32::MAX as u64 {
            return Err(Error::Unsupported(GREW));
        }
        let ghost before = *self;
        self.alloc_cursor = new_end;
        proof {
            if let Some((i, t)) = self.gt_cache.loaded {
                assert(before@.table_refusal(t) is None);
            }
        }
        Ok(start)
    }

    /// Allocate one fresh grain at the device tail and return its starting
    /// sector. Caller is responsible for writing the grain data and
    /// updating the grain table entry.
    pub(super) fn allocate_grain(&mut self) -> (r: Result<u32>)
        requires
            old(self).inv(),
        ensures
            final(self).inv(),
            final(self).limit() == old(self).limit(),
            final(self).dev == old(self).dev,
            match r {
                Ok(start) => {
                    let n = old(self)@.header.grain_size as int;
                    &&& start == old(self).alloc_cursor
                    &&& start + n <= u32::MAX
                    &&& *final(self) == (VmdkReader {
                        alloc_cursor: (start + n) as u64,
                        ..*old(self)
                    })
                    &&& final(self)@ == (State { cursor: start + n, ..old(self)@ })
                },
                Err(e) => {
                    &&& old(self).alloc_cursor + old(self)@.header.grain_size > u32::MAX
                    &&& e == Error::Unsupported(GREW)
                    &&& *final(self) == *old(self)
                },
            },
    {
        let n: u64 = self.header.grain_size;
        match self.allocate_sectors(n) {
            Ok(s) => Ok(s as u32),
            Err(e) => Err(e),
        }
    }

    /// How many sectors one grain table occupies.
    pub(super) fn grain_table_sectors(&self) -> (n: u64)
        requires
            self.inv(),
        ensures
            n * 512 == self@.geometry().table_span(),
            0 < n <= 0x800,
    {
        let bytes: u64 = (self.header.num_gtes_per_gt as u64) * 4;
        (bytes + 511) / SECTOR_SIZE
    }
}

impl State {
    /// The sectors of one grain table.
    pub open spec fn table_sectors(&self) -> int {
        self.geometry().table_span() / 512
    }

    /// This state after an empty grain table was laid at the tail and made
    /// durable.
    pub open spec fn with_blank_table(&self) -> State {
        let span = self.geometry().table_span();
        let lo = self.cursor * 512;
        let reserved = State {
            cursor: self.cursor + self.table_sectors(),
            tables: self.tables.union(Set::new(|b: int| lo <= b < lo + span)),
            ..*self
        };
        reserved.wrote(lo, zeros(span)).synced()
    }
}

/// An empty grain table laid at the tail keeps a reader sound, its disk and
/// its map, and stands in a vacant place.
pub(super) proof fn lemma_blank_table(s: State)
    requires
        s.sound(),
        s.cursor >= 0,
        s.cursor + s.table_sectors() <= u32::MAX,
    ensures
        ({
            let n = s.with_blank_table();
            let lo = s.cursor * 512;
            let span = s.geometry().table_span();
            &&& n.sound()
            &&& n.settled()
            &&& n.geometry() == s.geometry()
            &&& same_map(s.geometry(), s.contents, n.contents)
            &&& s.contents.len() <= n.contents.len()
            &&& n.vacant(lo, lo + span)
            &&& lo + span <= n.contents.len()
            &&& forall|b: int| lo <= b < lo + span ==> n.contents[b] == 0
            &&& s.keeps_to(&n)
            &&& s.twinned() ==> n.twinned()
        }),
{
    reveal(same_reading);
    reveal(same_map);
    reveal(State::sound);
    reveal(State::vacant);
    reveal(healthy);
    let g = s.geometry();
    let span = g.table_span();
    let lo = s.cursor * 512;
    assert(span == s.table_sectors() * 512);
    lemma_reserved(s, s.table_sectors());
    let a = State { cursor: s.cursor + s.table_sectors(), ..s };
    lemma_protected(a, lo, lo + span);
    let b = State { tables: a.tables.union(Set::new(|b: int| lo <= b < lo + span)), ..a };
    lemma_vacant_write(b, lo, lo + span, lo, zeros(span));
    lemma_twins_vacant(b, lo, lo + span, lo, zeros(span));
    let w = b.wrote(lo, zeros(span));
    lemma_synced(w);
    let n = w.synced();
    assert(n == s.with_blank_table());
    lemma_keep_step(s, a, b);
    lemma_keep_step(s, b, w);
    lemma_keep_step(s, w, n);
    assert(n.vacant(lo, lo + span));
}

impl<D: BlockDevice> VmdkReader<D> {
    /// Allocate a fresh, zero-filled grain table at the device tail.
    pub(super) fn allocate_blank_grain_table(&mut self) -> (r: Result<u32>)
        requires
            old(self).inv(),
            old(self).writable,
        ensures
            final(self).inv(),
            final(self).same_but_tail(old(self)),
            final(self).limit() == old(self).limit(),
            final(self).tail_from(old(self)),
            match r {
                Ok(t) => {
                    &&& t == old(self).alloc_cursor
                    &&& final(self).alloc_cursor <= u32::MAX
                    &&& final(self)@ == old(self)@.with_blank_table()
                },
                Err(e) => if old(self)@.cursor + old(self)@.table_sectors() > u32::MAX {
                    e == Error::Unsupported(GREW) && final(self)@ == old(self)@ && *final(self)
                        == *old(self)
                } else {
                    device_error(e) && !old(self).steady()
                },
            },
    {
        let gt_sectors: u64 = self.grain_table_sectors();
        let ghost s = self@;
        let ghost span = s.geometry().table_span();
        assert(s.table_sectors() == gt_sectors);
        let sector: u64 = match self.allocate_sectors(gt_sectors) {
            Ok(sector) => sector,
            Err(e) => return Err(e),
        };
        // Protected before anything can name it.
        let lo: u64 = sector * SECTOR_SIZE;
        let hi: u64 = (sector + gt_sectors) * SECTOR_SIZE;
        self.grain_tables.insert(lo, hi);
        assert(self@.tables =~= s.tables.union(Set::new(|b: int| lo <= b < lo + span)));
        let blank: Vec<u8> = vec![0u8; (gt_sectors * SECTOR_SIZE) as usize];
        assert(blank@ =~= zeros(span));
        match self.dev_write(lo, blank.as_slice()) {
            Ok(()) => {},
            Err(e) => return Err(e),
        }
        match self.dev_flush() {
            Ok(()) => {},
            Err(e) => return Err(e),
        }
        Ok(sector as u32)
    }
}

impl State {
    /// Whether the empty table at sector `t` may be published.
    pub open spec fn table_ready(&self, t: u32) -> bool {
        let g = self.geometry();
        &&& self.settled()
        &&& self.vacant(t * 512, t * 512 + g.table_span())
        &&& t * 512 + g.table_span() <= self.contents.len()
        &&& forall|b: int| t * 512 <= b < t * 512 + g.table_span() ==> self.contents[b] == 0
    }

    /// Whether a table at sector `t` may be published as the copy of table
    /// `i`.
    pub open spec fn copy_ready(&self, i: int, t: u32) -> bool {
        let g = self.geometry();
        &&& self.vacant(t * 512, t * 512 + g.table_span())
        &&& t * 512 + g.table_span() <= self.contents.len()
        &&& self.merged.contains(i) ==> forall|j: int|
            0 <= j < g.per_table && #[trigger] grain_entry(g, self.contents, i, j) != 0
                ==> entry_at(self.contents, t * 512, j) != 0
    }

    /// Where a directory starts.
    pub open spec fn directory_at(&self, redundant: bool) -> int {
        if redundant {
            self.header.rgd_offset * 512
        } else {
            self.header.gd_offset * 512
        }
    }
}

impl<D: BlockDevice> VmdkReader<D> {
    /// Publish `gt_sector` into slot `gt_idx` of one grain directory, on
    /// disk and in the cached copy.
    pub(super) fn publish_directory_entry(&mut self, redundant: bool, gt_idx: usize, gt_sector: u32) -> (r:
        Result<()>)
        requires
            old(self).inv(),
            old(self).writable,
            gt_idx < old(self).gd@.len(),
            redundant ==> old(self).rgd is Some,
            !redundant ==> old(self).gd@[gt_idx as int] == 0,
            gt_sector != 0,
        ensures
            final(self).inv(),
            final(self).limit() == old(self).limit(),
            final(self).same_image(old(self)),
            final(self).gt_cache == old(self).gt_cache,
            final(self).alloc_cursor == old(self).alloc_cursor,
            final(self).inflated == old(self).inflated,
            redundant ==> final(self).gd == old(self).gd,
            redundant && r is Ok ==> final(self).rgd->0@ == old(self).rgd->0@.update(
                gt_idx as int,
                gt_sector,
            ),
            !redundant ==> final(self).rgd == old(self).rgd,
            !redundant && r is Ok ==> final(self).gd@ == old(self).gd@.update(
                gt_idx as int,
                gt_sector,
            ),
            match r {
                Ok(()) => {
                    let at = old(self)@.directory_at(redundant) + 4 * gt_idx;
                    &&& final(self)@ == old(self)@.wrote(at, le32_bytes(gt_sector)).synced()
                    &&& old(self).sound() && (if redundant {
                        old(self)@.copy_ready(gt_idx as int, gt_sector)
                    } else {
                        old(self)@.table_ready(gt_sector)
                    }) ==> {
                        &&& final(self).sound()
                        &&& final(self)@.settled()
                        &&& old(self)@.keeps_to(&final(self)@)
                        &&& same_entries(
                            old(self)@.geometry(),
                            old(self)@.contents,
                            final(self)@.contents,
                        )
                        &&& redundant ==> same_reading(
                            old(self)@.geometry(),
                            old(self)@.contents,
                            final(self)@.contents,
                        )
                        &&& final(self)@.contents.len() == old(self)@.contents.len()
                    }
                },
                Err(e) => device_error(e) && !old(self).steady(),
            },
    {
        let dir_at: u64 = if redundant {
            self.header.rgd_offset * SECTOR_SIZE
        } else {
            self.header.gd_offset * SECTOR_SIZE
        };
        let entry_off: u64 = dir_at + (gt_idx as u64) * 4;
        let bytes: [u8; 4] = u32_le(gt_sector);
        let ghost before = *self;
        let ghost s = self@;
        let ghost g = s.geometry();
        let ghost i = gt_idx as int;
        match self.dev_write(entry_off, &bytes) {
            Ok(()) => {},
            Err(e) => return Err(e),
        }
        let ghost w = self@;
        match self.dev_flush() {
            Ok(()) => {},
            Err(e) => return Err(e),
        }
        if redundant {
            match self.rgd.take() {
                Some(mut dir) => {
                    dir.set(gt_idx, gt_sector);
                    self.rgd = Some(dir);
                },
                None => {
                    assert(false);
                },
            }
        } else {
            self.gd.set(gt_idx, gt_sector);
        }
        proof {
            assert(self@ == w.synced());
            assert(w == s.wrote(s.directory_at(redundant) + 4 * i, le32_bytes(gt_sector)));
            if before.sound() && (if redundant {
                s.copy_ready(i, gt_sector)
            } else {
                s.table_ready(gt_sector)
            }) {
                Self::lemma_entry_published(&before, self, redundant, i, gt_sector);
            }
        }
        Ok(())
    }

    /// A directory entry published where all is ready keeps the reader
    /// sound.
    pub(super) proof fn lemma_entry_published(
        before: &Self,
        after: &Self,
        redundant: bool,
        i: int,
        t: u32,
    )
        requires
            before.sound(),
            after.inv(),
            0 <= i < before.gd@.len(),
            t != 0,
            if redundant {
                before@.copy_ready(i, t)
            } else {
                before@.table_ready(t)
            },
            after@ == before@.wrote(
                before@.directory_at(redundant) + 4 * i,
                le32_bytes(t),
            ).synced(),
            after.header == before.header,
            after.gt_cache == before.gt_cache,
            after.inflated == before.inflated,
            redundant ==> before.rgd is Some && after.rgd is Some && after.rgd->0@
                == before.rgd->0@.update(i, t) && after.gd == before.gd,
            !redundant ==> after.gd@ == before.gd@.update(i, t) && after.rgd == before.rgd
                && before.gd@[i] == 0,
        ensures
            after.sound(),
            after@.settled(),
            before@.keeps_to(&after@),
            same_entries(before@.geometry(), before@.contents, after@.contents),
            redundant ==> same_reading(before@.geometry(), before@.contents, after@.contents),
            after@.contents.len() == before@.contents.len(),
    {
        reveal(VmdkReader::in_step);
        reveal(same_entries);
        reveal(same_reading);
        reveal(same_map);
        reveal(State::steps_to);
        let s = before@;
        let g = s.geometry();
        let w = s.wrote(s.directory_at(redundant) + 4 * i, le32_bytes(t));
        if redundant {
            lemma_copy_goes_live(s, i, t);
        } else {
            assert(before.gd@[i] == table_sector(g, s.contents, i));
            assert forall|j: int| 0 <= j < g.per_table implies #[trigger] entry_at(
                s.contents,
                t * 512,
                j,
            ) == 0 by {
                crate::bytes::lemma_le32_zero(s.contents, t * 512 + 4 * j);
            }
            lemma_table_goes_live(s, i, t);
        }
        lemma_synced(w);
        Self::lemma_published_in_step(before, after, redundant, i, t);
        assert(s.keeps_to(&w));
        assert(w.keeps_to(&after@));
        lemma_keep_step(s, w, after@);
    }

    /// A published directory entry leaves the reader in step once its
    /// cached directory has it too.
    pub(super) proof fn lemma_published_in_step(
        before: &Self,
        after: &Self,
        redundant: bool,
        i: int,
        t: u32,
    )
        requires
            before.sound(),
            0 <= i < before.gd@.len(),
            after@.header == before@.header,
            after.header == before.header,
            after@.geometry() == before@.geometry(),
            after@.contents.len() == before@.contents.len(),
            after.gt_cache == before.gt_cache,
            after.inflated == before.inflated,
            redundant ==> before.rgd is Some && after.rgd is Some && after.rgd->0@
                == before.rgd->0@.update(i, t) && after.gd == before.gd,
            !redundant ==> after.gd@ == before.gd@.update(i, t) && after.rgd == before.rgd
                && before.gd@[i] == 0,
            ({
                let g = before@.geometry();
                let c = before@.contents;
                let d = after@.contents;
                &&& forall|k: int|
                    0 <= k < g.tables ==> #[trigger] table_sector(g, d, k) == (if k == i
                        && !redundant {
                        t
                    } else {
                        table_sector(g, c, k)
                    })
                &&& forall|k: int|
                    0 <= k < g.tables ==> #[trigger] copy_sector(g, d, k) == (if k == i
                        && redundant {
                        t
                    } else {
                        copy_sector(g, c, k)
                    })
                &&& forall|k: int, l: int|
                    0 <= k < g.tables && 0 <= l < g.per_table ==> #[trigger] grain_entry(g, d, k, l)
                        == grain_entry(g, c, k, l)
            }),
        ensures
            after.in_step(),
    {
        reveal(VmdkReader::in_step);
        reveal(same_reading);
        reveal(same_map);
        reveal(healthy);
        reveal(State::sound);
        let g = before@.geometry();
        let c = before@.contents;
        let d = after@.contents;
        assert forall|k: int| 0 <= k < after.gd@.len() implies #[trigger] after.gd@[k]
            == table_sector(g, d, k) by {
            assert(before.gd@[k] == table_sector(g, c, k));
        }
        if let Some(rgd) = after.rgd {
            assert forall|k: int| 0 <= k < rgd@.len() implies #[trigger] rgd@[k] == copy_sector(
                g,
                d,
                k,
            ) by {
                assert(before.rgd->0@[k] == copy_sector(g, c, k));
            }
        }
        if let Some((k, tk)) = after.gt_cache.loaded {
            assert(before.gd@[k as int] == table_sector(g, c, k as int));
            assert forall|j: int|
                0 <= j < after.gt_cache.entries@.len() implies #[trigger] after.gt_cache.entries@[j]
                == entry_at(d, tk * 512, j) by {
                assert(before.gt_cache.entries@[j] == entry_at(c, tk * 512, j));
                assert(grain_entry(g, d, k as int, j) == grain_entry(g, c, k as int, j));
                assert(table_sector(g, d, k as int) == tk);
            }
        }
    }
}

impl<D: BlockDevice> VmdkReader<D> {
    /// A blank table at the tail keeps the reader sound and in step.
    pub(super) proof fn lemma_blank_keeps(before: &Self, after: &Self)
        requires
            before.sound(),
            after.inv(),
            after.same_but_tail(before),
            after@ == before@.with_blank_table(),
            before@.cursor + before@.table_sectors() <= u32::MAX,
        ensures
            after.sound(),
            after@.settled(),
            before@.keeps_to(&after@),
            same_map(before@.geometry(), before@.contents, after@.contents),
            same_entries(before@.geometry(), before@.contents, after@.contents),
            before@.contents.len() <= after@.contents.len(),
            after@.table_ready(before@.cursor as u32),
            before@.twinned() ==> after@.twinned(),
    {
        reveal(VmdkReader::in_step);
        reveal(same_entries);
        reveal(same_reading);
        reveal(same_map);
        reveal(healthy);
        reveal(State::sound);
        reveal(State::steps_to);
        let s = before@;
        lemma_blank_table(s);
        let g = s.geometry();
        let n = after@;
        assert(n.contents == s.with_blank_table().contents);
        assert forall|i: int| 0 <= i < after.gd@.len() implies #[trigger] after.gd@[i]
            == table_sector(g, n.contents, i) by {
            assert(before.gd@[i] == table_sector(g, s.contents, i));
        }
        if let Some(rgd) = after.rgd {
            assert forall|i: int| 0 <= i < rgd@.len() implies #[trigger] rgd@[i] == copy_sector(
                g,
                n.contents,
                i,
            ) by {
                assert(before.rgd->0@[i] == copy_sector(g, s.contents, i));
            }
        }
        if let Some((i, t)) = after.gt_cache.loaded {
            assert(before.gd@[i as int] == table_sector(g, s.contents, i as int));
            assert(table_sector(g, n.contents, i as int) == t);
            assert forall|j: int|
                0 <= j < after.gt_cache.entries@.len() implies #[trigger] after.gt_cache.entries@[j]
                == entry_at(n.contents, t * 512, j) by {
                assert(before.gt_cache.entries@[j] == entry_at(s.contents, t * 512, j));
                assert(grain_entry(g, s.contents, i as int, j) == grain_entry(
                    g,
                    n.contents,
                    i as int,
                    j,
                ));
            }
        }
        assert(after.in_step());
    }

    /// Allocate a grain table for `gt_idx` in both directories and return
    /// the primary's sector number.
    ///
    /// Crash-safety order: zero-init both tables, publish the
    /// **redundant** directory entry, publish the primary. The redundant
    /// copy leads, so a crash leaves the primary behind rather than ahead.
    /// Either way a crash may leak a grain table but never produces a
    /// wrong-data read: an absent directory entry reads as zeros.
    pub(super) fn allocate_grain_table(&mut self, gt_idx: usize) -> (r: Result<u32>)
        requires
            old(self).inv(),
            old(self).writable,
            gt_idx < old(self).gd@.len(),
            old(self).gd@[gt_idx as int] == 0,
        ensures
            final(self).inv(),
            final(self).limit() == old(self).limit(),
            final(self).same_image(old(self)),
            final(self).tail_from(old(self)),
            r matches Err(e) ==> device_error(e) || e == Error::Unsupported(GREW),
            match r {
                Ok(t) => {
                    &&& t != 0
                    &&& final(self).gd@[gt_idx as int] == t
                    &&& old(self).sound() ==> {
                        let g = old(self)@.geometry();
                        &&& final(self).sound()
                        &&& final(self)@.settled()
                        &&& old(self)@.keeps_to(&final(self)@)
                        &&& final(self)@.merged == old(self)@.merged
                        &&& final(self)@.cursor <= old(self)@.cursor + 2 * old(
                            self,
                        )@.table_sectors()
                        &&& same_entries(g, old(self)@.contents, final(self)@.contents)
                        &&& old(self)@.twinned() ==> final(self)@.twinned()
                    }
                },
                Err(e) => old(self).sound() && decided(old(self).steady(), r) ==> Self::out_of_room(
                    old(self),
                    final(self),
                    2 * old(self)@.table_sectors(),
                    e,
                ),
            },
            final(self).gt_cache == old(self).gt_cache,
            final(self).inflated == old(self).inflated,
            decided(old(self).steady(), r) ==> {
                let (n, refusal) = old(self)@.with_table(gt_idx as int);
                &&& final(self)@ == n
                &&& match r {
                    Ok(t) => {
                        &&& refusal is None
                        &&& t == old(self)@.cursor
                        &&& final(self).gd@ == old(self).gd@.update(gt_idx as int, t)
                        &&& old(self).rgd matches Some(rgd) ==> final(self).rgd->0@ == rgd@.update(
                            gt_idx as int,
                            (t + old(self)@.table_sectors()) as u32,
                        )
                    },
                    Err(e) => {
                        &&& refusal == Some(e)
                        &&& final(self).gd == old(self).gd
                        &&& final(self).rgd == old(self).rgd
                    },
                }
            },
    {
        proof {
            reveal(VmdkReader::in_step);
            reveal(State::with_table);
        }
        let ghost s0 = self@;
        let ghost r0 = *self;
        let ghost g = s0.geometry();
        let ghost i = gt_idx as int;
        proof {
            lemma_stays(s0);
        }
        let new_gt_sector: u32 = match self.allocate_blank_grain_table() {
            Ok(t) => t,
            Err(e) => return Err(e),
        };
        let ghost s1 = self@;
        let ghost r1 = *self;
        proof {
            if r0.sound() {
                Self::lemma_blank_keeps(&r0, self);
            }
        }
        if self.rgd.is_some() {
            let redundant: u32 = match self.allocate_blank_grain_table() {
                Ok(t) => t,
                Err(e) => return Err(e),
            };
            let ghost s2 = self@;
            proof {
                if r0.sound() {
                    Self::lemma_blank_keeps(&r1, self);
                    lemma_second_blank(s0, s1, s2, i, new_gt_sector, redundant);
                    lemma_blank_table(s1);
                    if s0.twinned() {
                        lemma_twins_new_table(s2, i, new_gt_sector, redundant);
                    }
                }
            }
            match self.publish_directory_entry(true, gt_idx, redundant) {
                Ok(()) => {},
                Err(e) => return Err(e),
            }
            proof {
                if r0.sound() {
                    lemma_first_after_copy(s0, s2, self@, i, new_gt_sector, redundant);
                }
            }
        }
        let ghost s3 = self@;
        match self.publish_directory_entry(false, gt_idx, new_gt_sector) {
            Ok(()) => {},
            Err(e) => return Err(e),
        }
        proof {
            if r0.sound() {
                lemma_keep_step(s0, s3, self@);
                lemma_entries_trans(g, s0.contents, s3.contents, self@.contents);
                if !s0.redundant {
                    reveal(twins);
                }
            }
        }
        Ok(new_gt_sector)
    }
}

/// A second blank table leaves the first ready, and is ready itself.
pub(super) proof fn lemma_second_blank(s0: State, s1: State, s2: State, i: int, first: u32, second: u32)
    requires
        s0.sound(),
        s1.sound(),
        s2.sound(),
        s0.keeps_to(&s1),
        same_entries(s0.geometry(), s0.contents, s1.contents),
        s1.keeps_to(&s2),
        same_map(s1.geometry(), s1.contents, s2.contents),
        s1.table_ready(first),
        s2 == s1.with_blank_table(),
        second == s1.cursor,
        s1.cursor >= 0,
        s1.cursor + s1.table_sectors() <= u32::MAX,
        0 <= i < s1.geometry().tables,
        table_sector(s1.geometry(), s1.contents, i) == 0,
    ensures
        s0.keeps_to(&s2),
        same_entries(s0.geometry(), s0.contents, s2.contents),
        s2.table_ready(first),
        s2.copy_ready(i, second),
        apart(
            (first * 512, first * 512 + s1.geometry().table_span()),
            (second * 512, second * 512 + s1.geometry().table_span()),
        ),
{
    let g = s1.geometry();
    let span = g.table_span();
    lemma_keep_step(s0, s1, s2);
    assert(s0.geometry() == g) by {
        reveal(State::steps_to);
    }
    lemma_map_entries(g, s1.contents, s2.contents);
    lemma_entries_trans(g, s0.contents, s1.contents, s2.contents);
    lemma_blank_copy_ready(s1, s2, i);
    assert(s2.geometry() == g && s1.cursor <= s2.cursor) by {
        reveal(State::steps_to);
    }
    lemma_still_vacant(s1, s2, first * 512, first * 512 + span);
    assert(first * 512 + span <= s1.extent()) by {
        reveal(State::vacant);
    }
    assert(s2.settled());
    assert(s1.contents.len() <= s2.contents.len());
}

/// A copy published elsewhere leaves the first table ready.
pub(super) proof fn lemma_first_after_copy(s0: State, s2: State, s3: State, i: int, first: u32, second: u32)
    requires
        s0.sound(),
        s2.sound(),
        s3.sound(),
        s0.keeps_to(&s2),
        s2.keeps_to(&s3),
        same_entries(s0.geometry(), s0.contents, s2.contents),
        same_entries(s2.geometry(), s2.contents, s3.contents),
        s2.redundant,
        s2.table_ready(first),
        s2.copy_ready(i, second),
        s3 == s2.wrote(s2.directory_at(true) + 4 * i, le32_bytes(second)).synced(),
        0 <= i < s2.geometry().tables,
        second != 0,
        apart(
            (first * 512, first * 512 + s2.geometry().table_span()),
            (second * 512, second * 512 + s2.geometry().table_span()),
        ),
    ensures
        s0.keeps_to(&s3),
        same_entries(s0.geometry(), s0.contents, s3.contents),
        s3.table_ready(first),
{
    let g = s2.geometry();
    let span = g.table_span();
    lemma_keep_step(s0, s2, s3);
    assert(s0.geometry() == g) by {
        reveal(State::steps_to);
    }
    lemma_entries_trans(g, s0.contents, s2.contents, s3.contents);
    lemma_copy_goes_live(s2, i, second);
    lemma_vacant_beside_copy(s2, s3, i, second, first * 512, first * 512 + span);
    let at = s2.directory_at(true) + 4 * i;
    assert(apart(
        (first * 512, first * 512 + span),
        (g.rgd_at->0, g.rgd_at->0 + g.dir_span()),
    )) by {
        reveal(State::vacant);
    }
    assert(4 * g.tables <= g.dir_span());
    assert forall|b: int| first * 512 <= b < first * 512 + span implies s3.contents[b] == 0 by {
        assert(s3.contents[b] == s2.contents[b]);
    }
}

/// A blank table just laid at the tail may become a copy of a table that
/// has no entries.
pub(super) proof fn lemma_blank_copy_ready(s: State, n: State, i: int)
    requires
        s.sound(),
        n.sound(),
        n == s.with_blank_table(),
        s.cursor >= 0,
        s.cursor + s.table_sectors() <= u32::MAX,
        0 <= i < s.geometry().tables,
        table_sector(s.geometry(), s.contents, i) == 0,
    ensures
        n.copy_ready(i, s.cursor as u32),
{
    reveal(same_reading);
    reveal(same_map);
    lemma_blank_table(s);
    let g = s.geometry();
    assert(table_sector(g, n.contents, i) == 0);
}

/// Two tables merged: the entries of the second, and where it has none
/// those of the first.
pub open spec fn merged_tables(p: Seq<u8>, r: Seq<u8>) -> Seq<u8> {
    Seq::new(
        r.len(),
        |b: int|
            if entry_at(r, 0, b / 4) == 0 {
                p[b]
            } else {
                r[b]
            },
    )
}

/// Merging fills every entry that the second table lacks and the first
/// has, and clears or replaces none.
pub proof fn law_merge_only_fills(p: Seq<u8>, r: Seq<u8>, k: int)
    requires
        p.len() == r.len(),
        0 <= k,
        4 * k + 4 <= r.len(),
    ensures
        entry_at(merged_tables(p, r), 0, k) == (if entry_at(r, 0, k) == 0 {
            entry_at(p, 0, k)
        } else {
            entry_at(r, 0, k)
        }),
{
    let m = merged_tables(p, r);
    assert((4 * k) / 4 == k);
    assert((4 * k + 1) / 4 == k);
    assert((4 * k + 2) / 4 == k);
    assert((4 * k + 3) / 4 == k);
}

/// A second merge of the same table changes nothing.
pub proof fn law_merging_again_changes_nothing(p: Seq<u8>, r: Seq<u8>)
    requires
        p.len() == r.len(),
        r.len() % 4 == 0,
    ensures
        merged_tables(p, merged_tables(p, r)) == merged_tables(p, r),
{
    let m = merged_tables(p, r);
    assert forall|b: int| 0 <= b < r.len() implies merged_tables(p, m)[b] == m[b] by {
        let k = b / 4;
        law_merge_only_fills(p, r, k);
        if entry_at(m, 0, k) == 0 {
            assert(entry_at(r, 0, k) == 0);
        }
    }
    assert(merged_tables(p, m) =~= m);
}

/// Fill every entry the redundant table lacks and the primary has; says
/// whether there was one.
fn merge_tables(primary: &[u8], redundant: &mut Vec<u8>) -> (changed: bool)
    requires
        primary@.len() == old(redundant)@.len(),
        primary@.len() % 4 == 0,
    ensures
        final(redundant)@ == merged_tables(primary@, old(redundant)@),
        changed <==> final(redundant)@ != old(redundant)@,
{
    let ghost p = primary@;
    let ghost r = redundant@;
    let n: usize = primary.len() / 4;
    let mut changed: bool = false;
    let ghost mut at_change: int = 0;
    let mut k: usize = 0;
    while k < n
        invariant
            p == primary@,
            p.len() == r.len(),
            p.len() == 4 * n,
            p.len() == primary.len(),
            0 <= k <= n,
            redundant@.len() == r.len(),
            forall|b: int| 0 <= b < 4 * k ==> redundant@[b] == merged_tables(p, r)[b],
            forall|b: int| 4 * k <= b < r.len() ==> redundant@[b] == r[b],
            !changed ==> redundant@ == r,
            changed ==> 0 <= at_change < r.len() && redundant@[at_change] != r[at_change]
                && at_change < 4 * k,
        decreases n - k,
    {
        let at: usize = 4 * k;
        let empty: bool = redundant[at] == 0 && redundant[at + 1] == 0 && redundant[at + 2] == 0
            && redundant[at + 3] == 0;
        let present: bool = primary[at] != 0 || primary[at + 1] != 0 || primary[at + 2] != 0
            || primary[at + 3] != 0;
        proof {
            assert(at as int / 4 == k && (at + 1) / 4 == k && (at + 2) / 4 == k && (at + 3) / 4
                == k);
            if entry_at(r, 0, k as int) == 0 {
                crate::bytes::lemma_le32_is_zero(r, at as int);
            }
            if empty {
                crate::bytes::lemma_le32_zero(r, at as int);
            }
            assert(empty == (entry_at(r, 0, k as int) == 0));
        }
        if empty && present {
            redundant.set(at, primary[at]);
            redundant.set(at + 1, primary[at + 1]);
            redundant.set(at + 2, primary[at + 2]);
            redundant.set(at + 3, primary[at + 3]);
            changed = true;
            proof {
                at_change = if p[at as int] != 0 {
                    at as int
                } else if p[at + 1] != 0 {
                    at + 1
                } else if p[at + 2] != 0 {
                    at + 2
                } else {
                    at + 3
                };
            }
        }
        k += 1;
    }
    assert(redundant@ =~= merged_tables(p, r));
    changed
}

impl<D: BlockDevice> VmdkReader<D> {
    /// Fill every entry the redundant table lacks and the primary has.
    ///
    /// A redundant table can exist and be incomplete. Used as-is, the
    /// first new entry mirrored into such a table would leave it claiming
    /// that grain and denying every older one.
    ///
    /// A merge, not a copy. The redundant table is written first on every
    /// update, so after a crash it may legitimately hold entries the
    /// primary lacks; nothing nonzero in it is cleared or replaced.
    pub(super) fn merge_primary_into_redundant(
        &mut self,
        primary_gt_sector: u32,
        redundant_gt_sector: u32,
        len: usize,
    ) -> (r: Result<()>)
        requires
            old(self).inv(),
            old(self).writable,
            len == old(self)@.geometry().table_span(),
            redundant_gt_sector * 512 + len <= old(self).alloc_cursor * 512,
        ensures
            final(self).inv(),
            final(self).same_but_device(old(self)),
            final(self).limit() == old(self).limit(),
            match r {
                Ok(()) => {
                    &&& primary_gt_sector * 512 + len <= old(self)@.contents.len()
                    &&& redundant_gt_sector * 512 + len <= old(self)@.contents.len()
                    &&& final(self)@ == old(self)@.merged_into(
                        primary_gt_sector,
                        redundant_gt_sector,
                    )
                },
                Err(e) => device_error(e) && !(old(self).steady() && primary_gt_sector * 512 + len
                    <= old(self)@.contents.len() && redundant_gt_sector * 512 + len <= old(
                    self,
                )@.contents.len()),
            },
    {
        let ghost c = self@.contents;
        let mut primary: Vec<u8> = vec![0u8; len];
        match self.dev_read((primary_gt_sector as u64) * SECTOR_SIZE, primary.as_mut_slice()) {
            Ok(()) => {},
            Err(e) => return Err(e),
        }
        let mut redundant: Vec<u8> = vec![0u8; len];
        match self.dev_read((redundant_gt_sector as u64) * SECTOR_SIZE, redundant.as_mut_slice()) {
            Ok(()) => {},
            Err(e) => return Err(e),
        }
        assert(primary@ =~= bytes_at(c, primary_gt_sector * 512, len as int));
        assert(redundant@ =~= bytes_at(c, redundant_gt_sector * 512, len as int));
        assert(len as int % 4 == 0);
        let changed: bool = merge_tables(primary.as_slice(), &mut redundant);
        if changed {
            match self.dev_write((redundant_gt_sector as u64) * SECTOR_SIZE, redundant.as_slice()) {
                Ok(()) => {},
                Err(e) => return Err(e),
            }
            match self.dev_flush() {
                Ok(()) => {},
                Err(e) => return Err(e),
            }
        }
        Ok(())
    }
}

/// A copy into which its table was merged mirrors it.
pub(super) proof fn lemma_merge_mirrors(s: State, i: int, p: u32, r: u32)
    requires
        s.sound(),
        0 <= i < s.geometry().tables,
        p == table_sector(s.geometry(), s.contents, i),
        p != 0,
        r == copy_sector(s.geometry(), s.contents, i),
        r != 0,
    ensures
        ({
            let span = s.geometry().table_span();
            let m = merged_tables(
                bytes_at(s.contents, p * 512, span),
                bytes_at(s.contents, r * 512, span),
            );
            mirrored(s.geometry(), written(s.contents, r * 512, m), i)
        }),
{
    reveal(same_map);
    reveal(same_reading);
    let g = s.geometry();
    let span = g.table_span();
    let c = s.contents;
    let pb = bytes_at(c, p * 512, span);
    let rb = bytes_at(c, r * 512, span);
    let m = merged_tables(pb, rb);
    let d = written(c, r * 512, m);
    assert(slot_range(g, c, Slot::Table(i)) is Some);
    assert(slot_range(g, c, Slot::Copy(i)) is Some);
    assert(Slot::Table(i) != Slot::Copy(i));
    assert(apart((r * 512, r * 512 + span), (p * 512, p * 512 + span)) && r * 512 + span <= c.len()
        && p * 512 + span <= c.len() && apart(
        (r * 512, r * 512 + span),
        (g.gd_at, g.gd_at + g.dir_span()),
    ) && (g.rgd_at is Some ==> apart(
        (r * 512, r * 512 + span),
        (g.rgd_at->0, g.rgd_at->0 + g.dir_span()),
    )) && g.gd_at + 4 * g.tables <= c.len() && (g.rgd_at is Some ==> g.rgd_at->0 + 4 * g.tables
        <= c.len())) by {
        reveal(State::sound);
        reveal(healthy);
        assert(placed(g, c, s.extent(), slot_range(g, c, Slot::Copy(i))->0));
        assert(placed(g, c, s.extent(), slot_range(g, c, Slot::Table(i))->0));
    }
    assert(4 * g.tables <= g.dir_span() && 4 * g.per_table <= span);
    assert(table_sector(g, d, i) == p) by {
        crate::image::lemma_entry_kept(c, r * 512, m, g.gd_at, i);
    }
    assert(copy_sector(g, d, i) == r) by {
        crate::image::lemma_entry_kept(c, r * 512, m, g.rgd_at->0, i);
    }
    assert forall|j: int| 0 <= j < g.per_table && #[trigger] grain_entry(g, d, i, j) != 0 implies copy_entry(
        g,
        d,
        i,
        j,
    ) != 0 by {
        crate::image::lemma_entry_kept(c, r * 512, m, p * 512, j);
        law_merge_only_fills(pb, rb, j);
        lemma_same_bytes(c, pb, p * 512, 0, j);
        lemma_same_bytes(c, rb, r * 512, 0, j);
        lemma_same_bytes(d, m, r * 512, 0, j);
    }
    assert(mirrored(g, d, i));
}

/// A copy that merging its table into it would leave as it is mirrors it.
proof fn lemma_merged_already(s: State, i: int, p: u32, r: u32)
    requires
        s.sound(),
        0 <= i < s.geometry().tables,
        p == table_sector(s.geometry(), s.contents, i),
        p != 0,
        r == copy_sector(s.geometry(), s.contents, i),
        r != 0,
        merged_tables(
            bytes_at(s.contents, p * 512, s.geometry().table_span()),
            bytes_at(s.contents, r * 512, s.geometry().table_span()),
        ) == bytes_at(s.contents, r * 512, s.geometry().table_span()),
    ensures
        s.keeps_to(&s),
        same_map(s.geometry(), s.contents, s.contents),
        mirrored(s.geometry(), s.contents, i),
{
    let g = s.geometry();
    let span = g.table_span();
    lemma_stays(s);
    lemma_map_reflexive(g, s.contents);
    assert(r * 512 + span <= s.contents.len()) by {
        lemma_copy_placed(s, i);
    }
    lemma_written_again(s.contents, r * 512, span);
    lemma_merge_mirrors(s, i, p, r);
}

/// Writing what is there changes nothing.
proof fn lemma_written_again(c: Seq<u8>, at: int, n: int)
    requires
        0 <= at,
        0 <= n,
        at + n <= c.len(),
    ensures
        written(c, at, bytes_at(c, at, n)) == c,
{
    assert(written(c, at, bytes_at(c, at, n)) =~= c);
}

/// Writing a table merged into its copy keeps a reader sound and its disk,
/// and leaves the copy a mirror.
proof fn lemma_merged_written(s: State, i: int, p: u32, r: u32, m: Seq<u8>)
    requires
        s.sound(),
        0 <= i < s.geometry().tables,
        p == table_sector(s.geometry(), s.contents, i),
        p != 0,
        r == copy_sector(s.geometry(), s.contents, i),
        r != 0,
        m == merged_tables(
            bytes_at(s.contents, p * 512, s.geometry().table_span()),
            bytes_at(s.contents, r * 512, s.geometry().table_span()),
        ),
    ensures
        ({
            let n = s.wrote(r * 512, m).synced();
            &&& n.sound()
            &&& s.keeps_to(&n)
            &&& same_map(s.geometry(), s.contents, n.contents)
            &&& mirrored(s.geometry(), n.contents, i)
            &&& s.contents.len() <= n.contents.len()
            &&& n.settled()
        }),
{
    lemma_merge_mirrors(s, i, p, r);
    lemma_copy_placed(s, i);
    lemma_copy(s, i, r * 512, m);
    let w = s.wrote(r * 512, m);
    lemma_synced(w);
    lemma_keep_step(s, w, w.synced());
}

/// Merging a table into its copy keeps a reader sound and its disk, and
/// leaves the copy a mirror.
pub(super) proof fn lemma_merged_copy(s: State, n: State, i: int, p: u32, r: u32)
    requires
        s.sound(),
        0 <= i < s.geometry().tables,
        p == table_sector(s.geometry(), s.contents, i),
        p != 0,
        r == copy_sector(s.geometry(), s.contents, i),
        r != 0,
        ({
            let span = s.geometry().table_span();
            let m = merged_tables(
                bytes_at(s.contents, p * 512, span),
                bytes_at(s.contents, r * 512, span),
            );
            ||| n == s && m == bytes_at(s.contents, r * 512, span)
            ||| n == s.wrote(r * 512, m).synced()
        }),
    ensures
        n.sound(),
        s.keeps_to(&n),
        same_map(s.geometry(), s.contents, n.contents),
        mirrored(s.geometry(), n.contents, i),
        s.contents.len() <= n.contents.len(),
        n.settled() || n == s,
{
    let span = s.geometry().table_span();
    let rb = bytes_at(s.contents, r * 512, span);
    let m = merged_tables(bytes_at(s.contents, p * 512, span), rb);
    if n == s && m == rb {
        lemma_merged_already(s, i, p, r);
    } else {
        lemma_merged_written(s, i, p, r, m);
    }
}

/// Equal bytes make equal entries.
pub(super) proof fn lemma_same_bytes(c: Seq<u8>, b: Seq<u8>, at: int, from: int, j: int)
    requires
        0 <= j,
        forall|k: int| 0 <= k < 4 ==> #[trigger] c[at + 4 * j + k] == b[from + 4 * j + k],
    ensures
        entry_at(c, at, j) == entry_at(b, from, j),
{
    assert(c[at + 4 * j + 0] == b[from + 4 * j + 0]);
    assert(c[at + 4 * j + 1] == b[from + 4 * j + 1]);
    assert(c[at + 4 * j + 2] == b[from + 4 * j + 2]);
    assert(c[at + 4 * j + 3] == b[from + 4 * j + 3]);
}

/// Seeding a blank table at the tail with a table's contents keeps a
/// reader sound and its disk, and makes it ready to become the copy.
pub(super) proof fn lemma_seeded(s: State, i: int, p: u32)
    requires
        s.sound(),
        s.cursor >= 0,
        s.cursor + s.table_sectors() <= u32::MAX,
        0 <= i < s.geometry().tables,
        p == table_sector(s.geometry(), s.contents, i),
        p != 0,
    ensures
        ({
            let g = s.geometry();
            let span = g.table_span();
            let b = s.with_blank_table();
            let t = s.cursor as u32;
            let n = b.wrote(t * 512, bytes_at(b.contents, p * 512, span)).synced();
            &&& n.sound()
            &&& b.keeps_to(&n)
            &&& n.geometry() == g
            &&& same_map(g, b.contents, n.contents)
            &&& b.contents.len() == n.contents.len()
            &&& n.settled()
            &&& n.copy_ready(i, t)
            &&& p * 512 + span <= b.contents.len()
            &&& forall|j: int|
                0 <= j < g.per_table ==> #[trigger] entry_at(n.contents, t * 512, j)
                    == grain_entry(g, n.contents, i, j)
        }),
{
    reveal(same_map);
    reveal(same_reading);
    lemma_blank_table(s);
    let g = s.geometry();
    let span = g.table_span();
    let b = s.with_blank_table();
    let t = s.cursor as u32;
    let lo = t * 512;
    let data = bytes_at(b.contents, p * 512, span);
    lemma_vacant_write(b, lo, lo + span, lo, data);
    let w = b.wrote(lo, data);
    lemma_synced(w);
    let n = w.synced();
    assert(b.keeps_to(&w) && w.keeps_to(&n)) by {
        reveal(State::steps_to);
    }
    lemma_keep_step(b, w, n);
    assert(table_sector(g, s.contents, i) == table_sector(g, b.contents, i));
    assert(slot_range(g, b.contents, Slot::Table(i)) is Some);
    assert(apart((lo, lo + span), (p * 512, p * 512 + span)) && p * 512 + span
        <= b.contents.len()) by {
        reveal(State::vacant);
        reveal(State::sound);
        reveal(healthy);
        assert(placed(g, b.contents, b.extent(), slot_range(g, b.contents, Slot::Table(i))->0));
    }
    assert(4 * g.per_table <= span);
    assert forall|j: int| 0 <= j < g.per_table implies #[trigger] entry_at(n.contents, lo, j)
        == grain_entry(g, n.contents, i, j) by {
        assert(table_sector(g, n.contents, i) == p) by {
            assert(table_sector(g, b.contents, i) == table_sector(g, n.contents, i));
        }
        crate::image::lemma_entry_kept(b.contents, lo, data, p * 512, j);
        lemma_same_bytes(n.contents, b.contents, lo, p * 512, j);
    }
    assert(n.vacant(lo, lo + span)) by {
        reveal(State::vacant);
    }
}

impl<D: BlockDevice> VmdkReader<D> {
    /// The redundant copy of grain table `gt_idx` where the redundant
    /// directory has none: a fresh one, seeded with the primary's
    /// contents.
    pub(super) fn seed_copy(&mut self, gt_idx: usize, primary_gt_sector: u32, len: usize) -> (r: Result<u32>)
        requires
            old(self).inv(),
            old(self).writable,
            old(self).rgd is Some,
            gt_idx < old(self).gd@.len(),
            primary_gt_sector == old(self).gd@[gt_idx as int],
            primary_gt_sector != 0,
            len == old(self)@.geometry().table_span(),
        ensures
            final(self).inv(),
            final(self).limit() == old(self).limit(),
            final(self).same_image(old(self)),
            final(self).gd == old(self).gd,
            final(self).gt_cache == old(self).gt_cache,
            final(self).tail_from(old(self)),
            r matches Err(e) ==> device_error(e) || e == Error::Unsupported(GREW),
            match r {
                Ok(t) => {
                    &&& t * 512 + old(self)@.geometry().table_span() <= final(self).alloc_cursor
                        * 512
                    &&& old(self).sound() ==> {
                        let g = old(self)@.geometry();
                        let i = gt_idx as int;
                        &&& final(self).sound()
                        &&& old(self)@.keeps_to(&final(self)@)
                        &&& same_reading(g, old(self)@.contents, final(self)@.contents)
                        &&& final(self)@.settled()
                        &&& final(self)@.cursor <= old(self)@.cursor + old(self)@.table_sectors()
                        &&& t != 0
                        &&& t == copy_sector(g, final(self)@.contents, i)
                        &&& mirrored(g, final(self)@.contents, i)
                    }
                },
                Err(e) => old(self).sound() && decided(old(self).steady(), r) ==> Self::out_of_room(
                    old(self),
                    final(self),
                    old(self)@.table_sectors(),
                    e,
                ),
            },
            final(self).inflated == old(self).inflated,
            decided(old(self).steady(), r) && primary_gt_sector * 512 + len <= old(
                self,
            )@.contents.len() ==> {
                let n = old(self)@.with_seeded_copy(gt_idx as int, primary_gt_sector);
                match r {
                    Ok(t) => {
                        &&& old(self)@.room(old(self)@.table_sectors())
                        &&& final(self)@ == (State { merged: old(self)@.merged, ..n })
                        &&& t == old(self)@.cursor
                        &&& final(self).rgd->0@ == old(self).rgd->0@.update(gt_idx as int, t)
                    },
                    Err(e) => {
                        &&& !old(self)@.room(old(self)@.table_sectors())
                        &&& e == Error::Unsupported(GREW)
                        &&& final(self)@ == old(self)@
                        &&& final(self).rgd == old(self).rgd
                    },
                }
            },
    {
        proof {
            reveal(VmdkReader::in_step);
        }
        let ghost s0 = self@;
        let ghost r0 = *self;
        let ghost g = s0.geometry();
        let ghost i = gt_idx as int;
        proof {
            lemma_stays(s0);
        }
        let sector: u32 = match self.allocate_blank_grain_table() {
            Ok(t) => t,
            Err(e) => return Err(e),
        };
        let ghost s1 = self@;
        let ghost r1 = *self;
        proof {
            if r0.sound() {
                assert(primary_gt_sector == table_sector(g, s0.contents, i));
                Self::lemma_blank_keeps(&r0, self);
                lemma_seeded(s0, i, primary_gt_sector);
            }
        }
        let mut primary: Vec<u8> = vec![0u8; len];
        match self.dev_read((primary_gt_sector as u64) * SECTOR_SIZE, primary.as_mut_slice()) {
            Ok(()) => {},
            Err(e) => return Err(e),
        }
        assert(primary@ =~= bytes_at(s1.contents, primary_gt_sector * 512, len as int));
        match self.dev_write((sector as u64) * SECTOR_SIZE, primary.as_slice()) {
            Ok(()) => {},
            Err(e) => return Err(e),
        }
        match self.dev_flush() {
            Ok(()) => {},
            Err(e) => return Err(e),
        }
        let ghost s2 = self@;
        proof {
            if r0.sound() {
                Self::lemma_still_in_step(&r1, self);
                lemma_keep_step(s0, s1, s2);
                lemma_reading_chain(g, s0.contents, s1.contents, s2.contents);
            }
        }
        match self.publish_directory_entry(true, gt_idx, sector) {
            Ok(()) => {},
            Err(e) => return Err(e),
        }
        proof {
            if r0.sound() {
                let s3 = self@;
                lemma_keep_step(s0, s2, s3);
                lemma_seed_mirrors(s2, s3, i, sector);
                lemma_reading_trans(g, s0.contents, s2.contents, s3.contents);
            }
        }
        Ok(sector)
    }

    /// The redundant copy of grain table `gt_idx` at sector `existing`,
    /// with what the primary has merged into it unless this session has
    /// done so already.
    pub(super) fn join_copy(&mut self, gt_idx: usize, primary_gt_sector: u32, existing: u32, len: usize) -> (r:
        Result<()>)
        requires
            old(self).inv(),
            old(self).writable,
            old(self).rgd is Some,
            gt_idx < old(self).gd@.len(),
            primary_gt_sector == old(self).gd@[gt_idx as int],
            primary_gt_sector != 0,
            existing == old(self).rgd->0@[gt_idx as int],
            existing != 0,
            len == old(self)@.geometry().table_span(),
        ensures
            final(self).inv(),
            final(self).limit() == old(self).limit(),
            final(self).same_image(old(self)),
            final(self).gd == old(self).gd,
            final(self).gt_cache == old(self).gt_cache,
            final(self).tail_from(old(self)),
            r matches Err(e) ==> write_fault(old(self).sound(), e),
            match r {
                Ok(()) => {
                    &&& existing * 512 + len <= final(self).alloc_cursor * 512
                    &&& old(self).sound() ==> {
                        let g = old(self)@.geometry();
                        let i = gt_idx as int;
                        &&& final(self).sound()
                        &&& old(self)@.keeps_to(&final(self)@)
                        &&& same_reading(g, old(self)@.contents, final(self)@.contents)
                        &&& old(self)@.settled() ==> final(self)@.settled()
                        &&& final(self)@.cursor == old(self)@.cursor
                        &&& final(self)@.merged == old(self)@.merged
                        &&& existing == copy_sector(g, final(self)@.contents, i)
                        &&& mirrored(g, final(self)@.contents, i)
                        &&& old(self)@.merged.contains(i) ==> final(self)@ == old(self)@
                        &&& old(self)@.twinned() ==> final(self)@.twinned()
                    }
                },
                Err(e) => old(self).sound() ==> device_error(e) && !old(self).steady(),
            },
            final(self).inflated == old(self).inflated,
            final(self).rgd == old(self).rgd,
            decided(old(self).steady(), r) && primary_gt_sector * 512 + len <= old(
                self,
            )@.contents.len() && (old(self)@.copy_refusal(existing) is None ==> existing * 512 + len
                <= old(self)@.contents.len()) ==> match old(self)@.copy_refusal(existing) {
                Some(f) => r == Err::<(), Error>(f) && final(self)@ == old(self)@,
                None => {
                    &&& r is Ok
                    &&& if old(self)@.merged.contains(gt_idx as int) {
                        final(self)@ == old(self)@
                    } else {
                        final(self)@ == (State {
                            merged: old(self)@.merged,
                            ..old(self)@.with_merged_copy(
                                gt_idx as int,
                                primary_gt_sector,
                                existing,
                            )
                        })
                    }
                },
            },
    {
        proof {
            reveal(VmdkReader::in_step);
        }
        broadcast use vstd::std_specs::hash::group_hash_axioms;

        let ghost s0 = self@;
        let ghost r0 = *self;
        let ghost g = s0.geometry();
        let ghost i = gt_idx as int;
        proof {
            lemma_stays(s0);
            lemma_map_reflexive(g, s0.contents);
            if r0.sound() {
                assert(existing == copy_sector(g, s0.contents, i));
                assert(primary_gt_sector == table_sector(g, s0.contents, i));
                lemma_copy_placed(s0, i);
                lemma_table_placed(s0, i);
            }
        }
        // The same two bounds the primary table gets, checked before the
        // merge reads and rewrites the whole table.
        let off: u64 = (existing as u64) * SECTOR_SIZE;
        let end: u64 = off + len as u64;
        if end > self.file_extent() {
            return Err(Error::Corrupt("redundant grain table extends past EOF"));
        }
        let in_fixed: bool = self.fixed_metadata.overlaps(off, end);
        proof {
            self.lemma_overlaps(off as int, end as int);
        }
        if in_fixed {
            return Err(Error::Corrupt("redundant grain table overlaps the image's metadata"));
        }
        if self.redundant_merged.contains(&gt_idx) {
            proof {
                if r0.sound() {
                    assert(s0.merged.contains(i));
                    reveal(State::sound);
                }
            }
            return Ok(());
        }
        match self.merge_primary_into_redundant(primary_gt_sector, existing, len) {
            Ok(()) => {},
            Err(e) => return Err(e),
        }
        proof {
            if r0.sound() {
                lemma_merged_copy(s0, self@, i, primary_gt_sector, existing);
                if s0.twinned() {
                    lemma_twins_merged(s0, i);
                }
                Self::lemma_still_in_step(&r0, self);
                lemma_map_entries(g, s0.contents, self@.contents);
                reveal(same_map);
            }
        }
        Ok(())
    }

    /// The redundant copy of grain table `gt_idx`, if this image has a
    /// redundant directory.
    ///
    /// An image written by a tool that only maintained the primary can
    /// have a primary table where the redundant directory has none. Rather
    /// than skip the mirror, which would leave the copy wrong for every
    /// entry, a table is allocated and seeded with the primary's current
    /// contents.
    pub(super) fn redundant_gt_sector(&mut self, gt_idx: usize, primary_gt_sector: u32) -> (r: Result<
        Option<u32>,
    >)
        requires
            old(self).inv(),
            old(self).writable,
            gt_idx < old(self).gd@.len(),
            primary_gt_sector == old(self).gd@[gt_idx as int],
            primary_gt_sector != 0,
        ensures
            final(self).inv(),
            final(self).limit() == old(self).limit(),
            final(self).same_image(old(self)),
            final(self).gd == old(self).gd,
            final(self).gt_cache == old(self).gt_cache,
            final(self).tail_from(old(self)),
            r matches Err(e) ==> write_fault(old(self).sound(), e),
            match r {
                Ok(x) => {
                    &&& x is Some == old(self).rgd is Some
                    &&& x matches Some(t) ==> t * 512 + old(self)@.geometry().table_span()
                        <= final(self).alloc_cursor * 512
                    &&& old(self).sound() ==> {
                        let g = old(self)@.geometry();
                        let i = gt_idx as int;
                        &&& final(self).sound()
                        &&& old(self)@.keeps_to(&final(self)@)
                        &&& same_reading(g, old(self)@.contents, final(self)@.contents)
                        &&& old(self)@.settled() ==> final(self)@.settled()
                        &&& final(self)@.cursor <= old(self)@.cursor + old(self)@.table_sectors()
                        &&& x matches Some(t) ==> {
                            &&& t != 0
                            &&& t == copy_sector(g, final(self)@.contents, i)
                            &&& final(self)@.merged.contains(i)
                        }
                        &&& x is None || (old(self)@.merged.contains(i) && copy_sector(
                            g,
                            old(self)@.contents,
                            i,
                        ) != 0) ==> final(self)@ == old(self)@
                        &&& old(self)@.twinned() ==> final(self)@.twinned()
                    }
                },
                Err(e) => old(self).sound() && decided(old(self).steady(), r) ==> {
                    &&& old(self)@.redundant
                    &&& copy_sector(old(self)@.geometry(), old(self)@.contents, gt_idx as int) == 0
                    &&& Self::out_of_room(
                        old(self),
                        final(self),
                        old(self)@.table_sectors(),
                        e,
                    )
                },
            },
            final(self).inflated == old(self).inflated,
            old(self).in_step() && decided(old(self).steady(), r) && primary_gt_sector * 512 + old(
                self,
            )@.geometry().table_span() <= old(self)@.contents.len() && ({
                let q = copy_sector(old(self)@.geometry(), old(self)@.contents, gt_idx as int);
                q != 0 && old(self)@.copy_refusal(q) is None ==> q * 512 + old(
                    self,
                )@.geometry().table_span() <= old(self)@.contents.len()
            }) ==> {
                let (n, refusal) = old(self)@.with_copy(gt_idx as int);
                &&& final(self)@ == n
                &&& match r {
                    Ok(x) => {
                        &&& refusal is None
                        &&& x == old(self)@.copy_at(gt_idx as int)
                        &&& match (old(self).rgd, x) {
                            (Some(rgd), Some(t)) => final(self).rgd->0@ == rgd@.update(
                                gt_idx as int,
                                t,
                            ),
                            _ => final(self).rgd == old(self).rgd,
                        }
                    },
                    Err(e) => refusal == Some(e) && final(self).rgd == old(self).rgd,
                }
            },
    {
        proof {
            reveal(VmdkReader::in_step);
        }
        broadcast use vstd::std_specs::hash::group_hash_axioms;

        let ghost s0 = self@;
        let ghost r0 = *self;
        let ghost g = s0.geometry();
        let ghost i = gt_idx as int;
        proof {
            lemma_stays(s0);
            lemma_map_reflexive(g, s0.contents);
        }
        let existing: u32 = match &self.rgd {
            Some(rgd) => rgd[gt_idx],
            None => return Ok(None),
        };
        assert(existing == r0.rgd->0@[i]);
        assert(r0.in_step() ==> existing == copy_sector(g, s0.contents, i) && primary_gt_sector
            == table_sector(g, s0.contents, i));
        let len: usize = (self.grain_table_sectors() * SECTOR_SIZE) as usize;
        assert(r0.sound() && s0.twinned() ==> existing != 0) by {
            if r0.sound() && s0.twinned() {
                reveal(twins);
                assert(twin_at(g, s0.contents, i));
                assert(existing == copy_sector(g, s0.contents, i));
                assert(primary_gt_sector == table_sector(g, s0.contents, i));
            }
        }
        let copy: u32 = if existing != 0 {
            match self.join_copy(gt_idx, primary_gt_sector, existing, len) {
                Ok(()) => existing,
                Err(e) => return Err(e),
            }
        } else {
            match self.seed_copy(gt_idx, primary_gt_sector, len) {
                Ok(t) => t,
                Err(e) => return Err(e),
            }
        };
        let ghost s1 = self@;
        let ghost r1 = *self;
        self.redundant_merged.insert(gt_idx);
        proof {
            assert(self@.merged =~= s1.merged.insert(i));
            if s0.merged.contains(i) {
                assert(s0.merged.insert(i) =~= s0.merged);
            }
            assert(r0.rgd->0@.update(i, existing) =~= r0.rgd->0@);
            if r0.sound() {
                lemma_noted(s1, i);
                Self::lemma_noted_in_step(&r1, self);
                lemma_keep_step(s0, s1, self@);
                if s0.merged.contains(i) && existing != 0 {
                    assert(s1.merged.insert(i) =~= s1.merged);
                }
            }
        }
        Ok(Some(copy))
    }

    /// Noting a merge leaves the reader in step.
    pub(super) proof fn lemma_noted_in_step(before: &Self, after: &Self)
        requires
            before.in_step(),
            after.dev == before.dev,
            after.header == before.header,
            after.gd == before.gd,
            after.rgd == before.rgd,
            after.gt_cache == before.gt_cache,
            after.inflated == before.inflated,
            after@.geometry() == before@.geometry(),
            before.inflated is None,
        ensures
            after.in_step(),
    {
        reveal(VmdkReader::in_step);
    }
}

pub(super) proof fn lemma_map_reflexive(g: crate::image::Geometry, c: Seq<u8>)
    ensures
        same_map(g, c, c),
        same_reading(g, c, c),
{
    reveal(same_map);
    reveal(same_reading);
}

pub(super) proof fn lemma_map_trans(
    g: crate::image::Geometry,
    a: Seq<u8>,
    b: Seq<u8>,
    c: Seq<u8>,
)
    requires
        same_map(g, a, b),
        same_map(g, b, c),
    ensures
        same_map(g, a, c),
{
    lemma_map_entries(g, a, b);
    lemma_map_entries(g, b, c);
    lemma_reading_trans(g, a, b, c);
    reveal(same_map);
    assert forall|i: int| 0 <= i < g.tables implies #[trigger] copy_sector(g, a, i) == copy_sector(
        g,
        c,
        i,
    ) by {
        assert(copy_sector(g, a, i) == copy_sector(g, b, i));
        assert(copy_sector(g, b, i) == copy_sector(g, c, i));
    }
}

pub(super) proof fn lemma_reading_trans(g: crate::image::Geometry, a: Seq<u8>, b: Seq<u8>, c: Seq<u8>)
    requires
        same_reading(g, a, b),
        same_reading(g, b, c),
    ensures
        same_reading(g, a, c),
{
    super::sound::lemma_same_reading_trans(g, a, b, c);
}

pub(super) proof fn lemma_reading_chain(g: crate::image::Geometry, a: Seq<u8>, b: Seq<u8>, c: Seq<u8>)
    requires
        same_map(g, a, b),
        same_map(g, b, c),
    ensures
        same_reading(g, a, c),
{
    lemma_map_entries(g, a, b);
    lemma_map_entries(g, b, c);
    lemma_reading_trans(g, a, b, c);
}

/// In a healthy image a copy lies inside the file and clear of the fixed
/// regions.
pub(super) proof fn lemma_copy_placed(s: State, i: int)
    requires
        s.sound(),
        0 <= i < s.geometry().tables,
        copy_sector(s.geometry(), s.contents, i) != 0,
    ensures
        ({
            let t = copy_sector(s.geometry(), s.contents, i);
            let span = s.geometry().table_span();
            &&& t * 512 + span <= s.extent()
            &&& t * 512 + span <= s.contents.len()
            &&& !hits(s.fixed, t * 512, t * 512 + span)
        }),
{
    reveal(State::sound);
    reveal(healthy);
    lemma_slot_clear(s, Slot::Copy(i));
}

/// In a healthy image a grain table lies inside the file and clear of the
/// fixed regions.
pub(super) proof fn lemma_table_placed(s: State, i: int)
    requires
        s.sound(),
        0 <= i < s.geometry().tables,
        table_sector(s.geometry(), s.contents, i) != 0,
    ensures
        ({
            let t = table_sector(s.geometry(), s.contents, i);
            let span = s.geometry().table_span();
            &&& t * 512 + span <= s.extent()
            &&& t * 512 + span <= s.contents.len()
            &&& !hits(s.fixed, t * 512, t * 512 + span)
        }),
{
    reveal(State::sound);
    reveal(healthy);
    lemma_slot_clear(s, Slot::Table(i));
}

/// In a healthy image no slot has a byte of a fixed region.
pub(super) proof fn lemma_slot_clear(s: State, x: Slot)
    requires
        s.sound(),
        slot_range(s.geometry(), s.contents, x) is Some,
    ensures
        placed(s.geometry(), s.contents, s.extent(), slot_range(s.geometry(), s.contents, x)->0),
        !hits(
            s.fixed,
            (slot_range(s.geometry(), s.contents, x)->0).0,
            (slot_range(s.geometry(), s.contents, x)->0).1,
        ),
{
    reveal(State::sound);
    reveal(healthy);
    let r = slot_range(s.geometry(), s.contents, x)->0;
    if hits(s.fixed, r.0, r.1) {
        let b = choose|b: int| r.0 <= b < r.1 && #[trigger] s.fixed.contains(b);
        assert(s.geometry().fixed(b));
    }
}

/// A copy seeded with its table's contents mirrors it once it is live.
pub(super) proof fn lemma_seed_mirrors(s: State, n: State, i: int, t: u32)
    requires
        s.sound(),
        s.redundant,
        s.copy_ready(i, t),
        0 <= i < s.geometry().tables,
        t != 0,
        n == s.wrote(s.directory_at(true) + 4 * i, le32_bytes(t)).synced(),
        same_reading(s.geometry(), s.contents, n.contents),
        forall|j: int|
            0 <= j < s.geometry().per_table ==> #[trigger] entry_at(s.contents, t * 512, j)
                == grain_entry(s.geometry(), s.contents, i, j),
    ensures
        mirrored(s.geometry(), n.contents, i),
        copy_sector(s.geometry(), n.contents, i) == t,
{
    reveal(same_reading);
    let g = s.geometry();
    let at = s.directory_at(true) + 4 * i;
    lemma_copy_goes_live(s, i, t);
    assert(copy_sector(g, n.contents, i) == t);
    assert(apart(
        (t * 512, t * 512 + g.table_span()),
        (g.rgd_at->0, g.rgd_at->0 + g.dir_span()),
    )) by {
        reveal(State::vacant);
    }
    assert(4 * g.tables <= g.dir_span() && 4 * g.per_table <= g.table_span());
    assert forall|j: int| 0 <= j < g.per_table && #[trigger] grain_entry(g, n.contents, i, j)
        != 0 implies copy_entry(g, n.contents, i, j) != 0 by {
        assert(grain_entry(g, s.contents, i, j) == grain_entry(g, n.contents, i, j));
        assert(entry_at(s.contents, t * 512, j) == grain_entry(g, s.contents, i, j));
        crate::image::lemma_entry_kept(s.contents, at, le32_bytes(t), t * 512, j);
    }
}

} // verus!
