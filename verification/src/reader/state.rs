//! What a reader knows and what its device holds, and what follows from
//! the two for a read.

use crate::bytes::{le32, le64};
use crate::descriptor::DescriptorView;
use crate::error::{Error, Result};
use crate::header::SparseHeader;
use crate::image::{entry_at, table_sector, Geometry, GrainState};
use crate::inflate::{blank, grain_of, zlib_inflated};
use vstd::prelude::*;

verus! {

/// `a` divided by `b`, rounded up.
pub open spec fn div_up(a: int, b: int) -> int {
    (a + b - 1) / b
}

/// How many grain tables a header's capacity takes.
pub open spec fn table_count(h: SparseHeader) -> int {
    div_up(div_up(h.capacity as int, h.grain_size as int), h.num_gtes_per_gt as int)
}

/// The tables of a header have an entry for every grain of its capacity.
pub proof fn lemma_tables_cover(h: SparseHeader)
    requires
        h.grain_size > 0,
        h.num_gtes_per_gt > 0,
    ensures
        table_count(h) >= 0,
        h.capacity * 512 <= (table_count(h) * h.num_gtes_per_gt) * (h.grain_size * 512),
{
    let cap = h.capacity as int;
    let gs = h.grain_size as int;
    let per = h.num_gtes_per_gt as int;
    let grains = div_up(cap, gs);
    let tables = div_up(grains, per);
    lemma_div_up(cap, gs);
    lemma_div_up(grains, per);
    assert(cap * 512 <= (tables * per) * (gs * 512)) by (nonlinear_arith)
        requires
            cap <= grains * gs,
            grains <= tables * per,
            gs > 0,
    ;
}

pub proof fn lemma_div_up(a: int, b: int)
    requires
        0 <= a,
        0 < b,
    ensures
        0 <= div_up(a, b),
        a <= div_up(a, b) * b < a + b,
{
    vstd::arithmetic::div_mod::lemma_fundamental_div_mod(a + b - 1, b);
    let q = (a + b - 1) / b;
    assert(b * q == q * b) by (nonlinear_arith);
    assert(0 <= q && 0 <= (a + b - 1) % b < b) by (nonlinear_arith)
        requires
            a >= 0,
            b > 0,
            q == (a + b - 1) / b,
    ;
}

/// Whether a set of bytes has one in `[lo, hi)`.
pub open spec fn hits(bytes: Set<int>, lo: int, hi: int) -> bool {
    exists|b: int| lo <= b < hi && #[trigger] bytes.contains(b)
}

/// `n` zeros.
pub open spec fn zeros(n: int) -> Seq<u8> {
    Seq::new(n as nat, |i: int| 0u8)
}

/// The `n` bytes of `c` from `at` on.
pub open spec fn bytes_at(c: Seq<u8>, at: int, n: int) -> Seq<u8> {
    Seq::new(n as nat, |i: int| c[at + i])
}

/// A reader, as its callers see it.
pub struct State {
    /// The sparse header, with the directory's place as the footer gives
    /// it where the header leaves it to the footer.
    pub header: SparseHeader,
    /// The embedded descriptor.
    pub descriptor: DescriptorView,
    /// The bytes of the backing device.
    pub contents: Seq<u8>,
    /// The next free sector at the tail of the device.
    pub cursor: int,
    /// Whether a redundant grain directory is live.
    pub redundant: bool,
    /// The bytes of the regions whose place the header states.
    pub fixed: Set<int>,
    /// The bytes of every grain table a directory named at open, and of
    /// every table allocated since.
    pub tables: Set<int>,
    /// The first byte a grain may occupy.
    pub floor: int,
    /// Whether the image was opened read-write.
    pub writable: bool,
    /// The grain tables whose redundant copy holds all they hold.
    pub merged: Set<int>,
    /// Whether this session has changed the content identifier.
    pub content_id_bumped: bool,
    /// Whether `uncleanShutdown` stands raised.
    pub unclean_marked: bool,
    /// Whether the device serves every request it can.
    pub reliable: bool,
    /// The states the device passed through since the image was opened,
    /// one window for each flush.
    pub journal: Seq<Seq<Seq<u8>>>,
}

impl State {
    pub open spec fn geometry(&self) -> Geometry {
        Geometry {
            grain_bytes: self.header.grain_size * 512,
            per_table: self.header.num_gtes_per_gt as int,
            tables: table_count(self.header),
            gd_at: self.header.gd_offset * 512,
            rgd_at: if self.redundant {
                Some(self.header.rgd_offset * 512)
            } else {
                None
            },
            desc_at: self.header.descriptor_offset * 512,
            desc_len: self.header.descriptor_size * 512,
            virtual_size: self.header.capacity * 512,
            zeroed: self.header.zeroed_marker(),
            floor: self.floor,
        }
    }

    /// The contents of the virtual disk.
    pub open spec fn disk(&self) -> Seq<u8> {
        crate::image::disk(self.geometry(), self.contents)
    }

    /// How far the file reaches.
    pub open spec fn extent(&self) -> int {
        if self.cursor * 512 <= u64::MAX {
            self.cursor * 512
        } else {
            u64::MAX as int
        }
    }

    /// Whether the device serves every read inside the file.
    pub open spec fn served(&self) -> bool {
        self.reliable && self.extent() <= self.contents.len()
    }

    /// The host byte of `len` bytes at `in_grain` inside the grain at
    /// `sector`, or why the pointer is refused.
    pub open spec fn host_offset(&self, sector: u32, in_grain: int, len: int) -> Result<int> {
        let off = sector * 512 + in_grain;
        let end = off + len;
        if sector * 512 < self.floor {
            Err(Error::Corrupt("grain pointer lands inside the image's metadata"))
        } else if end > u64::MAX {
            Err(Error::Corrupt("grain extent overflows"))
        } else if hits(self.fixed, off, end) || hits(self.tables, off, end) {
            Err(Error::Corrupt("grain pointer lands inside the image's metadata"))
        } else if end > self.extent() {
            Err(Error::Corrupt("grain extends past EOF"))
        } else {
            Ok(off)
        }
    }

    /// Why the grain table at `sector` is refused, where it is.
    pub open spec fn table_refusal(&self, sector: u32) -> Option<Error> {
        let off = sector * 512;
        let end = off + 4 * self.header.num_gtes_per_gt;
        if end > self.extent() {
            Some(Error::Corrupt("grain table extends past EOF"))
        } else if hits(self.fixed, off, end) {
            Some(Error::Corrupt("grain table overlaps the image's metadata"))
        } else {
            None
        }
    }

    /// The entry of grain `gi`, zero where its table is not allocated, or
    /// why the table is refused.
    pub open spec fn entry(&self, gi: int) -> Result<u32> {
        let g = self.geometry();
        let t = table_sector(g, self.contents, gi / g.per_table);
        if t == 0 {
            Ok(0)
        } else {
            match self.table_refusal(t) {
                Some(e) => Err(e),
                None => Ok(entry_at(self.contents, t * 512, gi % g.per_table)),
            }
        }
    }

    /// The longest record that a compressed grain can have.
    pub open spec fn record_bound(&self) -> int {
        let n = self.header.grain_size * 512;
        n + n / 32 + n / 128 + n / 2048 + 7 + 6
    }

    /// The grain that the compressed record at `sector` holds, when it is
    /// to be the grain that starts at `virtual_start`.
    pub open spec fn inflated(&self, sector: u32, virtual_start: int) -> Result<Seq<u8>> {
        let grain_bytes = self.header.grain_size * 512;
        let left = self.header.capacity * 512 - virtual_start;
        let expected = if grain_bytes < left {
            grain_bytes
        } else {
            left
        };
        match self.host_offset(sector, 0, 12) {
            Err(e) => Err(e),
            Ok(at) => {
                let lba = le64(self.contents, at);
                let size = le32(self.contents, at + 8);
                if size == 0 {
                    Err(
                        Error::Corrupt(
                            "a grain table entry names a metadata marker, not a compressed grain",
                        ),
                    )
                } else if lba * 512 != virtual_start {
                    Err(
                        Error::Corrupt(
                            "a compressed grain's marker names a different grain than the table entry that points at it",
                        ),
                    )
                } else if size > self.record_bound() {
                    Err(
                        Error::Corrupt(
                            "a compressed grain's record is longer than any zlib stream of one grain",
                        ),
                    )
                } else {
                    match self.host_offset(sector, 12, size as int) {
                        Err(e) => Err(e),
                        Ok(payload) => grain_of(
                            zlib_inflated(
                                self.contents.subrange(payload, payload + size),
                                blank(grain_bytes),
                            ),
                            expected,
                        ),
                    }
                }
            },
        }
    }

    /// How many bytes from offset `v` on one grain can serve of a range
    /// that ends at `end`.
    pub open spec fn chunk_len(&self, v: int, end: int) -> int {
        let grain_bytes = self.header.grain_size * 512;
        let rest = grain_bytes - v % grain_bytes;
        if rest < end - v {
            rest
        } else {
            end - v
        }
    }

    /// The bytes that one grain gives from offset `v` on of a range that
    /// ends at `end`, or why it is refused.
    pub open spec fn chunk(&self, v: int, end: int) -> Result<Seq<u8>> {
        let g = self.geometry();
        let in_grain = v % g.grain_bytes;
        let n = self.chunk_len(v, end);
        match self.entry(v / g.grain_bytes) {
            Err(e) => Err(e),
            Ok(entry) => match g.meaning(entry) {
                GrainState::At(sector) => if self.header.stream() {
                    match self.inflated(sector, v - in_grain) {
                        Err(e) => Err(e),
                        Ok(grain) => Ok(grain.subrange(in_grain, in_grain + n)),
                    }
                } else {
                    match self.host_offset(sector, in_grain, n) {
                        Err(e) => Err(e),
                        Ok(at) => Ok(bytes_at(self.contents, at, n)),
                    }
                },
                _ => Ok(zeros(n)),
            },
        }
    }

    /// The bytes of the disk in `[v, end)`, or why the first grain that is
    /// refused is.
    pub open spec fn range(&self, v: int, end: int) -> Result<Seq<u8>>
        decreases end - v,
    {
        let n = self.chunk_len(v, end);
        if v >= end || n <= 0 {
            Ok(Seq::empty())
        } else {
            match self.chunk(v, end) {
                Err(e) => Err(e),
                Ok(head) => match self.range(v + n, end) {
                    Err(e) => Err(e),
                    Ok(tail) => Ok(head + tail),
                },
            }
        }
    }

    /// Whether the device holds the table of grain `gi`, where there is
    /// one.
    pub open spec fn table_held(&self, gi: int) -> bool {
        let g = self.geometry();
        let t = table_sector(g, self.contents, gi / g.per_table);
        t != 0 ==> t * 512 + 4 * g.per_table <= self.contents.len()
    }

    /// Whether the device holds what [`State::chunk`] is made of.
    pub open spec fn chunk_held(&self, v: int, end: int) -> bool {
        let g = self.geometry();
        let n = self.chunk_len(v, end);
        &&& self.table_held(v / g.grain_bytes)
        &&& match self.entry(v / g.grain_bytes) {
            Err(_) => true,
            Ok(entry) => match g.meaning(entry) {
                GrainState::At(sector) => if self.header.stream() {
                    self.extent() <= self.contents.len()
                } else {
                    match self.host_offset(sector, v % g.grain_bytes, n) {
                        Err(_) => true,
                        Ok(at) => at + n <= self.contents.len(),
                    }
                },
                _ => true,
            },
        }
    }

    /// Whether the device serves every read that `[v, end)` takes.
    pub open spec fn served_for(&self, v: int, end: int) -> bool {
        self.reliable && forall|u: int| v <= u < end ==> #[trigger] self.chunk_held(u, end)
    }

    /// What reading `len` bytes at `offset` gives.
    pub open spec fn read(&self, offset: int, len: int) -> Result<Seq<u8>> {
        let size = self.header.capacity * 512;
        if len == 0 {
            Ok(Seq::empty())
        } else if offset + len > u64::MAX {
            Err(Error::Corrupt("offset+len overflow"))
        } else if offset + len > size {
            Err(
                Error::OutOfBounds {
                    offset: offset as u64,
                    len: len as u64,
                    size: size as u64,
                },
            )
        } else {
            self.range(offset, offset + len)
        }
    }
}

} // verus!
