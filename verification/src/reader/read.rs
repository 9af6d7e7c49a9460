//! Reading the virtual disk.

use super::state::{bytes_at, hits, lemma_tables_cover, zeros};
use super::{GrainAddress, InflatedGrain, VmdkReader};
use crate::bytes::{copy_into, overlaid, read_u32, read_u64, zero_range};
use crate::descriptor::Descriptor;
use crate::device::{device_error, BlockRead};
use crate::error::{Error, Result};
use crate::header::{SparseHeader, GTE_ZEROED_GRAIN};
use crate::image::{entry_at, GrainState, SECTOR_SIZE};
use crate::inflate::inflate_grain;
use vstd::prelude::*;

verus! {

impl<D: BlockRead> VmdkReader<D> {
    pub fn virtual_size(&self) -> (n: u64)
        requires
            self.inv(),
        ensures
            n == self@.header.capacity * 512,
            n == self@.disk().len(),
    {
        self.virtual_size
    }

    /// The descriptor this image carries.
    ///
    /// It carries no parent linkage: an image declaring a parent is
    /// refused at open, so there is none to report.
    pub fn descriptor(&self) -> (d: &Descriptor)
        ensures
            d@ == self@.descriptor,
    {
        &self.descriptor
    }

    pub fn grain_size_bytes(&self) -> (n: u64)
        requires
            self.inv(),
        ensures
            n == self@.header.grain_size * 512,
    {
        self.header.grain_size * SECTOR_SIZE
    }

    pub fn header(&self) -> (h: &SparseHeader)
        ensures
            *h == self@.header,
    {
        &self.header
    }

    /// Whether the image was opened read-write.
    pub fn is_writable(&self) -> (b: bool)
        ensures
            b == self@.writable,
    {
        self.writable
    }

    pub(super) fn dev_read(&self, off: u64, buf: &mut [u8]) -> (r: Result<()>)
        ensures
            final(buf)@.len() == old(buf)@.len(),
            r is Ok ==> off + old(buf)@.len() <= self.dev.contents().len() && final(buf)@
                == self.dev.contents().subrange(off as int, off + old(buf)@.len()),
            r matches Err(e) ==> device_error(e) && !(self.dev.reliable() && off + old(buf)@.len()
                <= self.dev.contents().len()),
    {
        self.dev.read_at(off, buf)
    }

    /// How far the file reaches now.
    ///
    /// A device may go on reporting the length it was opened with, so on a
    /// writable image that stops being the file's length the first time a
    /// grain or a grain table is allocated at the tail. The allocation
    /// cursor is where the writer has reached, so the later of the two is
    /// the real extent.
    pub(super) fn file_extent(&self) -> (n: u64)
        requires
            self.inv(),
        ensures
            n == self@.extent(),
    {
        let size: u64 = self.dev.size_bytes();
        let reached: u64 = match self.alloc_cursor.checked_mul(SECTOR_SIZE) {
            Some(n) => n,
            None => u64::MAX,
        };
        if size > reached {
            size
        } else {
            reached
        }
    }

    /// Where a byte offset falls in the grain hierarchy, and how much of
    /// the caller's range this grain can serve.
    pub(super) fn grain_address(&self, cursor: u64, end: u64) -> (a: GrainAddress)
        requires
            self.inv(),
            cursor < end,
            end <= self.virtual_size,
            end - cursor <= usize::MAX,
        ensures
            ({
                let g = self@.geometry();
                let gi = cursor as int / g.grain_bytes;
                &&& a.in_grain == cursor as int % g.grain_bytes
                &&& a.gt_idx == gi / g.per_table
                &&& a.gte_idx == gi % g.per_table
                &&& a.chunk_len == self@.chunk_len(cursor as int, end as int)
                &&& 0 < a.chunk_len <= end - cursor
                &&& a.in_grain + a.chunk_len <= g.grain_bytes
                &&& a.gt_idx < self.gd@.len()
                &&& a.gte_idx < g.per_table
                &&& a.gt_idx * g.per_table + a.gte_idx == gi
                &&& gi * g.grain_bytes + a.in_grain == cursor
            }),
    {
        let grain_bytes: u64 = self.grain_size_bytes();
        let entries_per_gt: u64 = self.header.num_gtes_per_gt as u64;
        let in_grain: u64 = cursor % grain_bytes;
        let grain_idx: u64 = cursor / grain_bytes;
        let rest: u64 = grain_bytes - in_grain;
        let chunk: u64 = if rest < end - cursor {
            rest
        } else {
            end - cursor
        };
        proof {
            lemma_tables_cover(self.header);
            let gb = grain_bytes as int;
            let per = entries_per_gt as int;
            let tables = self.gd@.len() as int;
            let gi = grain_idx as int;
            vstd::arithmetic::div_mod::lemma_fundamental_div_mod(cursor as int, gb);
            assert(gb * gi == gi * gb) by (nonlinear_arith);
            assert(gi < tables * per) by (nonlinear_arith)
                requires
                    gi * gb <= cursor,
                    cursor < (tables * per) * gb,
                    gb > 0,
            ;
            vstd::arithmetic::div_mod::lemma_fundamental_div_mod(gi, per);
            assert(per * (gi / per) == (gi / per) * per) by (nonlinear_arith);
            assert(gi / per < tables) by (nonlinear_arith)
                requires
                    gi == (gi / per) * per + gi % per,
                    0 <= gi % per,
                    gi < tables * per,
                    per > 0,
            ;
            assert(self.gd@.len() == self.gd.len());
        }
        GrainAddress {
            in_grain,
            gt_idx: (grain_idx / entries_per_gt) as usize,
            gte_idx: (grain_idx % entries_per_gt) as usize,
            chunk_len: chunk as usize,
        }
    }

    /// What a raw grain-table entry means in *this* image.
    ///
    /// [`GTE_ZEROED_GRAIN`] is a sentinel only in an image whose header
    /// says so. Elsewhere it is an ordinary sector number that happens to
    /// address the embedded descriptor, and [`Self::grain_host_offset`]
    /// refuses it on that basis.
    pub(super) fn grain_state(&self, entry: u32) -> (s: GrainState)
        ensures
            s == self@.geometry().meaning(entry),
    {
        if entry == 0 {
            GrainState::Unallocated
        } else if entry == GTE_ZEROED_GRAIN && self.header.uses_zeroed_grain_marker() {
            GrainState::Zeroed
        } else {
            GrainState::At(entry)
        }
    }

    /// The host byte offset of `len` bytes at `in_grain` inside the grain
    /// starting at `grain_sector`, refusing a pointer that lands in the
    /// image's own metadata or past its end.
    ///
    /// Only the bytes actually being touched are required to be inside the
    /// file: an image whose final grain is truncated is still readable up
    /// to where it stops, which is how a sparse tail behaves and is not a
    /// reason to refuse the whole image.
    pub(super) fn grain_host_offset(&self, grain_sector: u32, in_grain: u64, len: u64) -> (r: Result<
        u64,
    >)
        requires
            self.inv(),
            len > 0,
        ensures
            match (r, self@.host_offset(grain_sector, in_grain as int, len as int)) {
                (Ok(a), Ok(b)) => a == b && a + len <= self@.extent(),
                (Err(e), Err(f)) => e == f,
                _ => false,
            },
    {
        let start: u64 = (grain_sector as u64) * SECTOR_SIZE;
        if start < self.first_grain_byte {
            return Err(Error::Corrupt("grain pointer lands inside the image's metadata"));
        }
        let off: u64 = match start.checked_add(in_grain) {
            Some(off) => off,
            None => return Err(Error::Corrupt("grain extent overflows")),
        };
        let end: u64 = match off.checked_add(len) {
            Some(end) => end,
            None => return Err(Error::Corrupt("grain extent overflows")),
        };
        let in_fixed: bool = self.fixed_metadata.overlaps(off, end);
        let in_table: bool = self.grain_tables.overlaps(off, end);
        proof {
            self.lemma_overlaps(off as int, end as int);
        }
        if in_fixed || in_table {
            return Err(Error::Corrupt("grain pointer lands inside the image's metadata"));
        }
        if end > self.file_extent() {
            return Err(Error::Corrupt("grain extends past EOF"));
        }
        Ok(off)
    }

    /// Meeting an extent set is having a byte in it.
    pub(super) proof fn lemma_overlaps(&self, lo: int, hi: int)
        requires
            self.fixed_metadata.wf(),
            self.grain_tables.wf(),
            lo < hi,
        ensures
            self.fixed_metadata.meets(lo, hi) == hits(self@.fixed, lo, hi),
            self.grain_tables.meets(lo, hi) == hits(self@.tables, lo, hi),
    {
        self.fixed_metadata.law_meets_is_a_shared_byte(lo, hi);
        self.grain_tables.law_meets_is_a_shared_byte(lo, hi);
        if self.fixed_metadata.meets(lo, hi) {
            let b = choose|b: int| lo <= b < hi && #[trigger] self.fixed_metadata.contains(b);
            assert(self@.fixed.contains(b));
        }
        if hits(self@.fixed, lo, hi) {
            let b = choose|b: int| lo <= b < hi && #[trigger] self@.fixed.contains(b);
            assert(self.fixed_metadata.contains(b));
        }
        if self.grain_tables.meets(lo, hi) {
            let b = choose|b: int| lo <= b < hi && #[trigger] self.grain_tables.contains(b);
            assert(self@.tables.contains(b));
        }
        if hits(self@.tables, lo, hi) {
            let b = choose|b: int| lo <= b < hi && #[trigger] self@.tables.contains(b);
            assert(self.grain_tables.contains(b));
        }
    }

    /// The grain directory's entry for `gt_idx`.
    ///
    /// Zero means the whole grain table is unallocated, which the reader
    /// answers with zeros and the writer answers by allocating.
    pub(super) fn gd_entry(&self, gt_idx: usize) -> (r: Result<u32>)
        ensures
            match r {
                Ok(t) => gt_idx < self.gd@.len() && t == self.gd@[gt_idx as int],
                Err(e) => gt_idx >= self.gd@.len() && e == Error::Corrupt(
                    "gt_idx past grain directory",
                ),
            },
    {
        if gt_idx >= self.gd.len() {
            return Err(Error::Corrupt("gt_idx past grain directory"));
        }
        Ok(self.gd[gt_idx])
    }

    /// Resolve `gt[gte_idx]`, loading the grain table from disk if it
    /// isn't the one currently cached.
    pub(super) fn lookup_grain(&mut self, gt_idx: usize, gte_idx: usize, gt_sector: u32) -> (r: Result<
        u32,
    >)
        requires
            old(self).inv(),
            gt_idx < old(self).gd@.len(),
            gte_idx < old(self).header.num_gtes_per_gt,
            gt_sector == old(self).gd@[gt_idx as int],
            gt_sector != 0,
        ensures
            final(self).inv(),
            final(self).same_but_caches(old(self)),
            final(self)@ == old(self)@,
            final(self).inflated == old(self).inflated,
            old(self).in_step() ==> final(self).in_step(),
            match r {
                Ok(e) => {
                    &&& old(self)@.table_refusal(gt_sector) is None
                    &&& final(self).gt_cache.loaded == Some((gt_idx, gt_sector))
                    &&& old(self).in_step() ==> e == entry_at(
                        old(self)@.contents,
                        gt_sector * 512,
                        gte_idx as int,
                    )
                },
                Err(e) => match old(self)@.table_refusal(gt_sector) {
                    Some(f) => e == f,
                    None => device_error(e) && !(old(self)@.reliable && gt_sector * 512 + 4 * old(
                        self,
                    )@.header.num_gtes_per_gt <= old(self)@.contents.len()),
                },
            },
    {
        proof {
            reveal(VmdkReader::in_step);
        }
        let hit: bool = match self.gt_cache.loaded {
            Some((i, t)) => i == gt_idx && t == gt_sector,
            None => false,
        };
        if !hit {
            // The table is required to fit inside the file it claims to
            // live in; its length is bounded at parse time.
            let off: u64 = (gt_sector as u64) * SECTOR_SIZE;
            let len: u64 = (self.header.num_gtes_per_gt as u64) * 4;
            let end: u64 = off + len;
            if end > self.file_extent() {
                return Err(Error::Corrupt("grain table extends past EOF"));
            }
            // Past EOF is not the only way a table pointer is wrong. One
            // naming the descriptor or a directory passes that bound, and
            // a write allocating a grain in it would publish the entry
            // over that metadata.
            let in_fixed: bool = self.fixed_metadata.overlaps(off, end);
            proof {
                self.lemma_overlaps(off as int, end as int);
            }
            if in_fixed {
                return Err(Error::Corrupt("grain table overlaps the image's metadata"));
            }
            let mut bytes: Vec<u8> = vec![0u8; len as usize];
            match self.dev_read(off, bytes.as_mut_slice()) {
                Ok(()) => {},
                Err(e) => return Err(e),
            }
            let entries: Vec<u32> = entries_of(bytes.as_slice());
            let ghost c = self.dev.contents();
            assert forall|j: int| 0 <= j < entries@.len() implies #[trigger] entries@[j]
                == entry_at(c, off as int, j) by {
                assert(bytes@[4 * j] == c[off + 4 * j]);
                assert(bytes@[4 * j + 1] == c[off + 4 * j + 1]);
                assert(bytes@[4 * j + 2] == c[off + 4 * j + 2]);
                assert(bytes@[4 * j + 3] == c[off + 4 * j + 3]);
            }
            self.gt_cache.entries = entries;
            self.gt_cache.loaded = Some((gt_idx, gt_sector));
        }
        Ok(self.gt_cache.entries[gte_idx])
    }

    /// Have the stream-optimized grain whose virtual start is
    /// `virtual_start` inflated, whole, in [`VmdkReader::inflated`].
    ///
    /// At the grain's host sector is a marker, the grain's virtual LBA in
    /// sectors (u64) and the compressed length (u32), then that many bytes
    /// of zlib. A length of zero marks a metadata record (a grain table,
    /// the directory, the footer), which a grain-table entry must not
    /// name. The LBA has to be this grain's: a pointer at another grain's
    /// record would otherwise serve its bytes here. The inflated length
    /// has to be one grain, less only for the disk's last grain.
    ///
    /// The cache is keyed by the virtual start as well as the host sector:
    /// a record that two table entries name was checked against only the
    /// first of them, and the second must fail the marker check rather
    /// than be served the first one's bytes.
    fn inflated_grain(&mut self, grain_sector: u32, virtual_start: u64) -> (r: Result<()>)
        requires
            old(self).inv(),
            old(self).header.stream(),
            virtual_start < old(self).virtual_size,
        ensures
            final(self).inv(),
            final(self).same_but_caches(old(self)),
            final(self)@ == old(self)@,
            final(self).gt_cache == old(self).gt_cache,
            old(self).in_step() ==> final(self).in_step(),
            match r {
                Ok(()) => {
                    &&& final(self).inflated is Some
                    &&& old(self).in_step() ==> old(self)@.inflated(
                        grain_sector,
                        virtual_start as int,
                    ) == Ok::<Seq<u8>, Error>(final(self).inflated->0.grain@)
                },
                Err(e) => match old(self)@.inflated(grain_sector, virtual_start as int) {
                    Ok(_) => device_error(e) && !old(self)@.served(),
                    Err(f) => e == f || device_error(e) && !old(self)@.served(),
                },
            },
    {
        proof {
            reveal(VmdkReader::in_step);
        }
        let hit: bool = match &self.inflated {
            Some(g) => g.sector == grain_sector && g.virtual_start == virtual_start,
            None => false,
        };
        if hit {
            return Ok(());
        }
        let at: u64 = match self.grain_host_offset(grain_sector, 0, 12) {
            Ok(at) => at,
            Err(e) => return Err(e),
        };
        let mut marker: Vec<u8> = vec![0u8; 12];
        match self.dev_read(at, marker.as_mut_slice()) {
            Ok(()) => {},
            Err(e) => return Err(e),
        }
        let ghost c = self.dev.contents();
        let lba: u64 = read_u64(marker.as_slice(), 0);
        let size: u32 = read_u32(marker.as_slice(), 8);
        proof {
            assert forall|k: int| 0 <= k < 12 implies marker@[k] == c[at + k] by {}
            assert(lba == crate::bytes::le64(c, at as int));
            assert(size == crate::bytes::le32(c, at + 8));
        }
        if size == 0 {
            return Err(
                Error::Corrupt(
                    "a grain table entry names a metadata marker, not a compressed grain",
                ),
            );
        }
        let names_this_grain: bool = match lba.checked_mul(SECTOR_SIZE) {
            Some(start) => start == virtual_start,
            None => false,
        };
        if !names_this_grain {
            return Err(
                Error::Corrupt(
                    "a compressed grain's marker names a different grain than the table entry that points at it",
                ),
            );
        }
        let grain_bytes: u64 = self.grain_size_bytes();
        // No zlib stream of one grain is longer than zlib's own
        // `deflateBound` for it, so a longer record is corrupt, and is
        // refused before its image-controlled length becomes an allocation.
        let bound: u64 = grain_bytes + grain_bytes / 32 + grain_bytes / 128 + grain_bytes / 2048
            + 7 + 6;
        if size as u64 > bound {
            return Err(
                Error::Corrupt(
                    "a compressed grain's record is longer than any zlib stream of one grain",
                ),
            );
        }
        let payload_at: u64 = match self.grain_host_offset(grain_sector, 12, size as u64) {
            Ok(at) => at,
            Err(e) => return Err(e),
        };
        let mut compressed: Vec<u8> = vec![0u8; size as usize];
        match self.dev_read(payload_at, compressed.as_mut_slice()) {
            Ok(()) => {},
            Err(e) => return Err(e),
        }
        let left: u64 = self.virtual_size - virtual_start;
        let expected: u64 = if grain_bytes < left {
            grain_bytes
        } else {
            left
        };
        let grain: Vec<u8> = match inflate_grain(
            compressed.as_slice(),
            grain_bytes as usize,
            expected,
        ) {
            Ok(grain) => grain,
            Err(e) => return Err(e),
        };
        self.inflated = Some(InflatedGrain { sector: grain_sector, virtual_start, grain });
        Ok(())
    }

    /// Issue one pending run of [`Self::read_at`]: `len` bytes from host
    /// offset `at` into `buf[from..]`.
    fn read_run(&self, buf: &mut [u8], at: u64, from: usize, len: usize) -> (r: Result<()>)
        requires
            from + len <= old(buf)@.len(),
        ensures
            final(buf)@.len() == old(buf)@.len(),
            forall|k: int|
                0 <= k < old(buf)@.len() && !(from <= k < from + len) ==> final(buf)@[k] == old(
                    buf,
                )@[k],
            r is Ok ==> at + len <= self.dev.contents().len() && forall|k: int|
                from <= k < from + len ==> final(buf)@[k] == self.dev.contents()[at + (k - from)],
            r matches Err(e) ==> device_error(e) && !(self.dev.reliable() && at + len
                <= self.dev.contents().len()),
    {
        let ghost before = buf@;
        let (head, rest) = buf.split_at_mut(from);
        let (run, tail) = rest.split_at_mut(len);
        let r: Result<()> = self.dev_read(at, run);
        r
    }

    /// Read out a pending run, where there is one.
    fn drain_run(&self, buf: &mut [u8], run: Option<(u64, usize, usize)>, Ghost(done): Ghost<
        Seq<u8>,
    >) -> (r: Result<()>)
        requires
            run matches Some((at, from, n)) ==> from + n == done.len(),
            done.len() <= old(buf)@.len(),
        ensures
            final(buf)@.len() == old(buf)@.len(),
            settled(old(buf)@, done, self.dev.contents(), run) && r is Ok ==> settled(
                final(buf)@,
                done,
                self.dev.contents(),
                None,
            ),
            r matches Err(e) ==> device_error(e) && (run matches Some((at, from, n)) && !(
            self.dev.reliable() && at + n <= self.dev.contents().len())),
    {
        reveal(settled);
        match run {
            Some((at, from, n)) => self.read_run(buf, at, from, n),
            None => Ok(()),
        }
    }

    /// Read exactly `buf.len()` bytes starting at virtual `offset`.
    ///
    /// A grain that nothing backs reads as zeros. The first grain whose
    /// table or pointer is refused fails the read; beyond that only the
    /// device can.
    pub fn read_at(&mut self, offset: u64, buf: &mut [u8]) -> (r: Result<()>)
        requires
            old(self).inv(),
        ensures
            final(self).inv(),
            final(self)@ == old(self)@,
            final(self).same_but_caches(old(self)),
            final(self).device() == old(self).device(),
            old(self).in_step() ==> final(self).in_step(),
            final(buf)@.len() == old(buf)@.len(),
            old(buf)@.len() == 0 ==> r is Ok,
            offset + old(buf)@.len() > old(self)@.header.capacity * 512 ==> final(buf)@ == old(
                buf,
            )@,
            offset + old(buf)@.len() > old(self)@.header.capacity * 512 && old(buf)@.len() > 0
                ==> r is Err && old(self)@.read(offset as int, old(buf)@.len() as int) == Err::<
                Seq<u8>,
                Error,
            >(r->Err_0),
            old(self).in_step() ==> match (
                r,
                old(self)@.read(offset as int, old(buf)@.len() as int),
            ) {
                (Ok(()), Ok(bytes)) => final(buf)@ == bytes,
                (Ok(()), Err(_)) => false,
                (Err(e), Ok(_)) => device_error(e) && !old(self)@.served_for(
                    offset as int,
                    offset + old(buf)@.len(),
                ),
                (Err(e), Err(f)) => e == f || device_error(e) && !old(self)@.served_for(
                    offset as int,
                    offset + old(buf)@.len(),
                ),
            },
    {
        let len: usize = buf.len();
        if len == 0 {
            assert(buf@ =~= Seq::<u8>::empty());
            return Ok(());
        }
        let end: u64 = match offset.checked_add(len as u64) {
            Some(end) => end,
            None => return Err(Error::Corrupt("offset+len overflow")),
        };
        if end > self.virtual_size {
            return Err(
                Error::OutOfBounds { offset, len: len as u64, size: self.virtual_size },
            );
        }
        // Walk grain by grain. Each grain either has a host location, and
        // is read from disk, or is unallocated, and its part of the
        // destination is filled with zeros.
        //
        // One device read per run, not per grain: grains a writer laid out
        // back to back are one contiguous host range. A present grain whose
        // host bytes continue the pending run extends it; anything else
        // reads the run out first. Each grain's pointer is still validated
        // on its own before it joins.

        let ghost st = self@;
        let ghost c = self.dev.contents();
        let ghost stepped = self.in_step();
        let ghost mut done: Seq<u8> = Seq::empty();
        let mut cursor: u64 = offset;
        let mut written: usize = 0;
        // (host offset, start in `buf`, length) of reads not yet issued.
        let mut run: Option<(u64, usize, usize)> = None;
        proof {
            lemma_start(st.range(offset as int, end as int), buf@, c);
        }
        while cursor < end
            invariant
                self.inv(),
                self@ == st,
                self.same_but_caches(old(self)),
                c == self.dev.contents(),
                c == st.contents,
                st == old(self)@,
                len == old(buf)@.len(),
                len > 0,
                stepped == old(self).in_step(),
                stepped ==> self.in_step(),
                end <= self.virtual_size,
                offset <= cursor <= end,
                end == offset + len,
                written == cursor - offset,
                buf@.len() == len,
                done.len() == written,
                run matches Some((at, from, n)) ==> from + n == written && n > 0 && at + n
                    <= st.extent(),
                stepped && st.served_for(offset as int, end as int) ==> (run matches Some(
                    (at, from, n),
                ) ==> at + n <= c.len()),
                stepped ==> st.range(offset as int, end as int) == joined(
                    done,
                    st.range(cursor as int, end as int),
                ),
                stepped ==> settled(buf@, done, c, run),
            decreases end - cursor,
        {
            let addr: GrainAddress = self.grain_address(cursor, end);
            let n: usize = addr.chunk_len;
            let ghost gi = cursor as int / st.geometry().grain_bytes;
            proof {
                assert(st.served_for(offset as int, end as int) ==> st.chunk_held(
                    cursor as int,
                    end as int,
                ));
                if stepped {
                    lemma_next(&st, done, offset as int, cursor as int, end as int);
                }
            }
            let state: GrainState = match self.chunk_state(&addr) {
                Ok(state) => state,
                Err(e) => return Err(e),
            };
            let ghost mut part: Seq<u8> = zeros(n as int);
            match state {
                GrainState::Unallocated | GrainState::Zeroed => {
                    match self.drain_run(buf, run, Ghost(done)) {
                        Ok(()) => {},
                        Err(e) => return Err(e),
                    }
                    run = None;
                    let ghost flushed = buf@;
                    zero_range(buf, written, n);
                    proof {
                        lemma_laid(flushed, done, part, c);
                    }
                },
                GrainState::At(grain_sector) => {
                    if self.header.is_stream_optimized() {
                        match self.drain_run(buf, run, Ghost(done)) {
                            Ok(()) => {},
                            Err(e) => return Err(e),
                        }
                        run = None;
                        let ghost flushed = buf@;
                        match self.inflated_grain(grain_sector, cursor - addr.in_grain) {
                            Ok(()) => {},
                            Err(e) => return Err(e),
                        }
                        let from: usize = addr.in_grain as usize;
                        match &self.inflated {
                            Some(g) => {
                                let bytes: &[u8] = vstd::slice::slice_subrange(
                                    g.grain.as_slice(),
                                    from,
                                    from + n,
                                );
                                copy_into(buf, written, bytes);
                                proof {
                                    part = bytes@;
                                    lemma_laid(flushed, done, part, c);
                                }
                            },
                            None => {
                                assert(false);
                            },
                        }
                    } else {
                        let host_off: u64 = match self.grain_host_offset(
                            grain_sector,
                            addr.in_grain,
                            n as u64,
                        ) {
                            Ok(off) => off,
                            Err(e) => return Err(e),
                        };
                        proof {
                            part = bytes_at(c, host_off as int, n as int);
                        }
                        let extended: Option<(u64, usize, usize)> = match run {
                            Some((at, from, pending)) => if at + pending as u64 == host_off {
                                Some((at, from, pending + n))
                            } else {
                                None
                            },
                            None => None,
                        };
                        if extended.is_some() {
                            proof {
                                lemma_extended(buf@, done, part, c, run, host_off as int, n as int);
                            }
                            run = extended;
                        } else {
                            match self.drain_run(buf, run, Ghost(done)) {
                                Ok(()) => {},
                                Err(e) => return Err(e),
                            }
                            proof {
                                lemma_started(buf@, done, part, c, host_off, written, n);
                            }
                            run = Some((host_off, written, n));
                        }
                    }
                },
            }
            proof {
                if stepped {
                    assert(st.chunk(cursor as int, end as int) == Ok::<Seq<u8>, Error>(part));
                }
                done = done + part;
            }
            cursor = cursor + n as u64;
            written = written + n;
        }
        match self.drain_run(buf, run, Ghost(done)) {
            Ok(()) => {},
            Err(e) => return Err(e),
        }
        proof {
            if stepped {
                lemma_end(buf@, done, c);
                assert(st.range(cursor as int, end as int) == Ok::<Seq<u8>, Error>(Seq::empty()));
            }
        }
        Ok(())
    }

    /// The state of the grain that `addr` names.
    fn chunk_state(&mut self, addr: &GrainAddress) -> (r: Result<GrainState>)
        requires
            old(self).inv(),
            addr.gt_idx < old(self).gd@.len(),
            addr.gte_idx < old(self).header.num_gtes_per_gt,
        ensures
            final(self).inv(),
            final(self).same_but_caches(old(self)),
            final(self)@ == old(self)@,
            final(self).inflated == old(self).inflated,
            old(self).in_step() ==> final(self).in_step(),
            old(self).in_step() ==> ({
                let g = old(self)@.geometry();
                let gi = addr.gt_idx * g.per_table + addr.gte_idx;
                match r {
                    Ok(state) => old(self)@.entry(gi) is Ok && state == g.meaning(
                        old(self)@.entry(gi)->Ok_0,
                    ),
                    Err(e) => match old(self)@.entry(gi) {
                        Ok(_) => device_error(e) && !(old(self)@.reliable && old(
                            self,
                        )@.table_held(gi)),
                        Err(f) => e == f,
                    },
                }
            }),
    {
        proof {
            reveal(VmdkReader::in_step);
        }
        proof {
            let g = self@.geometry();
            vstd::arithmetic::div_mod::lemma_fundamental_div_mod_converse(
                addr.gt_idx * g.per_table + addr.gte_idx,
                g.per_table,
                addr.gt_idx as int,
                addr.gte_idx as int,
            );
        }
        let gt_sector: u32 = match self.gd_entry(addr.gt_idx) {
            Ok(t) => t,
            Err(e) => return Err(e),
        };
        if gt_sector == 0 {
            // Whole grain table unallocated: the region reads as zero.
            Ok(GrainState::Unallocated)
        } else {
            match self.lookup_grain(addr.gt_idx, addr.gte_idx, gt_sector) {
                Ok(entry) => Ok(self.grain_state(entry)),
                Err(e) => Err(e),
            }
        }
    }
}

/// What is known of a range once its head is.
#[verifier::opaque]
spec fn joined(head: Seq<u8>, rest: Result<Seq<u8>>) -> Result<Seq<u8>> {
    match rest {
        Ok(tail) => Ok(head + tail),
        Err(e) => Err(e),
    }
}

/// Whether `buf` starts with `done`, but for the bytes a pending run is to
/// bring.
#[verifier::opaque]
spec fn settled(buf: Seq<u8>, done: Seq<u8>, c: Seq<u8>, run: Option<(u64, usize, usize)>) -> bool {
    forall|k: int|
        0 <= k < done.len() ==> #[trigger] done[k] == (match run {
            Some((at, from, n)) => if from <= k {
                c[at + (k - from)]
            } else {
                buf[k]
            },
            None => buf[k],
        })
}

proof fn lemma_start(range: Result<Seq<u8>>, buf: Seq<u8>, c: Seq<u8>)
    ensures
        joined(Seq::empty(), range) == range,
        settled(buf, Seq::empty(), c, None),
{
    reveal(joined);
    reveal(settled);
    if let Ok(b) = range {
        assert(Seq::<u8>::empty() + b =~= b);
    }
}

/// One step of [`State::range`](super::state::State::range).
proof fn lemma_next(
    st: &super::state::State,
    done: Seq<u8>,
    offset: int,
    cursor: int,
    end: int,
)
    requires
        st.range(offset, end) == joined(done, st.range(cursor, end)),
        offset <= cursor < end,
        st.chunk_len(cursor, end) > 0,
    ensures
        match st.chunk(cursor, end) {
            Ok(part) => st.range(offset, end) == joined(
                done + part,
                st.range(cursor + st.chunk_len(cursor, end), end),
            ),
            Err(e) => st.range(offset, end) == Err::<Seq<u8>, Error>(e),
        },
{
    reveal(joined);
    if let Ok(part) = st.chunk(cursor, end) {
        if let Ok(tail) = st.range(cursor + st.chunk_len(cursor, end), end) {
            assert(done + (part + tail) =~= (done + part) + tail);
        }
    }
}

proof fn lemma_laid(buf: Seq<u8>, done: Seq<u8>, part: Seq<u8>, c: Seq<u8>)
    requires
        done.len() + part.len() <= buf.len(),
    ensures
        settled(buf, done, c, None) ==> settled(
            overlaid(buf, done.len() as int, part),
            done + part,
            c,
            None,
        ),
{
    reveal(settled);
}

proof fn lemma_extended(
    buf: Seq<u8>,
    done: Seq<u8>,
    part: Seq<u8>,
    c: Seq<u8>,
    run: Option<(u64, usize, usize)>,
    host_off: int,
    n: int,
)
    requires
        run matches Some((at, from, pending)) && from + pending == done.len() && at + pending
            == host_off && pending + n <= usize::MAX,
        0 <= n,
        part == bytes_at(c, host_off, n),
    ensures
        settled(buf, done, c, run) ==> settled(
            buf,
            done + part,
            c,
            Some(((run->0).0, (run->0).1, ((run->0).2 + n) as usize)),
        ),
{
    reveal(settled);
}

proof fn lemma_started(
    buf: Seq<u8>,
    done: Seq<u8>,
    part: Seq<u8>,
    c: Seq<u8>,
    host_off: u64,
    written: usize,
    n: usize,
)
    requires
        written == done.len(),
        part == bytes_at(c, host_off as int, n as int),
    ensures
        settled(buf, done, c, None) ==> settled(
            buf,
            done + part,
            c,
            Some((host_off, written, n)),
        ),
{
    reveal(settled);
}

proof fn lemma_end(buf: Seq<u8>, done: Seq<u8>, c: Seq<u8>)
    requires
        settled(buf, done, c, None),
        buf.len() == done.len(),
    ensures
        buf == done,
        joined(done, Ok::<Seq<u8>, Error>(Seq::empty())) == Ok::<Seq<u8>, Error>(done),
{
    reveal(settled);
    reveal(joined);
    assert(buf =~= done);
    assert(done + Seq::<u8>::empty() =~= done);
}

/// The little-endian `u32`s that `bytes` holds one after another.
pub(super) fn entries_of(bytes: &[u8]) -> (v: Vec<u32>)
    ensures
        v@.len() == bytes@.len() / 4,
        forall|j: int| 0 <= j < v@.len() ==> #[trigger] v@[j] == entry_at(bytes@, 0, j),
{
    let n: usize = bytes.len() / 4;
    let mut v: Vec<u32> = Vec::new();
    let mut i: usize = 0;
    while i < n
        invariant
            0 <= i <= n,
            n == bytes@.len() / 4,
            n == bytes.len() / 4,
            v@.len() == i,
            forall|j: int| 0 <= j < v@.len() ==> #[trigger] v@[j] == entry_at(bytes@, 0, j),
        decreases n - i,
    {
        v.push(read_u32(bytes, 4 * i));
        i += 1;
    }
    v
}

} // verus!
