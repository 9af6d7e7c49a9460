//! Sparse extent header (512 bytes at offset 0 of a monolithic sparse VMDK).
//!
//! Layout (offsets within the 512-byte header). All multi-byte integers
//! are LITTLE-ENDIAN.
//!
//! ```text
//!   0   4  magic_number       (= 0x564D444B 'KDMV')
//!   4   4  version
//!   8   4  flags
//!  12   8  capacity            (sectors of 512 bytes: virtual size)
//!  20   8  grain_size          (sectors per grain, typically 128 = 64 KiB)
//!  28   8  descriptor_offset   (sector: embedded descriptor location)
//!  36   8  descriptor_size     (sectors)
//!  44   4  num_gtes_per_gt     (typically 512)
//!  48   8  rgd_offset          (sector: redundant grain directory)
//!  56   8  gd_offset           (sector: primary grain directory)
//!  64   8  over_head           (sectors before first grain)
//!  72   1  unclean_shutdown
//!  73   1  single_end_line_char
//!  74   1  non_end_line_char
//!  75   1  double_end_line_char1
//!  76   1  double_end_line_char2
//!  77   2  compress_algorithm  (0=none, 1=DEFLATE)
//!  79 433  pad (zeros)
//! ```

use crate::bytes::{le16, le32, le64, read_u16, read_u32, read_u64};
use crate::error::{Error, Result};
use vstd::prelude::*;

pub mod offsets;

verus! {

pub const HEADER_SIZE: usize = 512;

/// `KDMV`, little-endian on disk.
pub const MAGIC: u32 = 0x564D_444B;

/// `COWD`, little-endian on disk: the magic of an ESXi `vmfsSparse`
/// extent, a delta disk or redo log laid out differently from the header
/// outwards.
pub const MAGIC_VMFS_SPARSE: u32 = 0x4457_4F43;

/// The format revisions this crate reads: 1 is a plain sparse extent, 2
/// the same layout with the zeroed-grain marker.
pub const SUPPORTED_VERSIONS: [u32; 2] = [1, 2];

/// The largest grain table this reader will accept, in entries.
///
/// `numGTEsPerGT` is 512 in every image the reference producers write,
/// 2 KiB of pointers. The field is a `u32` and the format puts no ceiling
/// on it, and two separate paths size a buffer from it: the read path
/// when it loads a table, the write path when it creates one. 262,144
/// entries is a 1 MiB table, small enough that neither path can be turned
/// into an allocation weapon.
pub const MAX_GTES_PER_GT: u32 = 0x4_0000;

/// `flags` bit 1: the image carries a redundant grain table.
///
/// A second copy of the grain directory, and of every grain table, kept
/// at `rgd_offset`.
pub const FLAG_REDUNDANT_GRAIN_TABLE: u32 = 0x2;

/// `flags` bit 2: the image uses the zeroed-grain marker.
///
/// When set, the grain-table entry [`GTE_ZEROED_GRAIN`] is a sentinel
/// rather than a sector number.
pub const FLAG_ZEROED_GRAIN: u32 = 0x4;

/// The grain-table entry that means "this grain exists and is entirely
/// zero", valid only when [`FLAG_ZEROED_GRAIN`] is set in `flags`.
pub const GTE_ZEROED_GRAIN: u32 = 1;

#[derive(Debug, Clone)]
pub struct SparseHeader {
    pub version: u32,
    pub flags: u32,
    pub capacity: u64,
    pub grain_size: u64,
    pub descriptor_offset: u64,
    pub descriptor_size: u64,
    pub num_gtes_per_gt: u32,
    pub rgd_offset: u64,
    pub gd_offset: u64,
    pub over_head: u64,
    pub unclean_shutdown: u8,
    pub compress_algorithm: u16,
}

/// The fields a header sector holds, whatever their values.
pub open spec fn header_fields(b: Seq<u8>) -> SparseHeader {
    SparseHeader {
        version: le32(b, offsets::VERSION as int),
        flags: le32(b, offsets::FLAGS as int),
        capacity: le64(b, offsets::CAPACITY as int),
        grain_size: le64(b, offsets::GRAIN_SIZE as int),
        descriptor_offset: le64(b, offsets::DESCRIPTOR_OFFSET as int),
        descriptor_size: le64(b, offsets::DESCRIPTOR_SIZE as int),
        num_gtes_per_gt: le32(b, offsets::NUM_GTES_PER_GT as int),
        rgd_offset: le64(b, offsets::RGD_OFFSET as int),
        gd_offset: le64(b, offsets::GD_OFFSET as int),
        over_head: le64(b, offsets::OVER_HEAD as int),
        unclean_shutdown: b[offsets::UNCLEAN_SHUTDOWN as int],
        compress_algorithm: le16(b, offsets::COMPRESS_ALGORITHM as int),
    }
}

/// Why a header sector is refused, or `None` where it is not: the first
/// of these that applies.
pub open spec fn header_refusal(b: Seq<u8>) -> Option<Error> {
    let h = header_fields(b);
    if b.len() < HEADER_SIZE {
        Some(Error::Corrupt("header shorter than 512 bytes"))
    } else if le32(b, offsets::MAGIC as int) != MAGIC {
        Some(Error::NotVmdk)
    } else if h.version == 3 {
        Some(Error::Unsupported("sparse extent version 3, the stream-optimized layout"))
    } else if h.version != 1 && h.version != 2 {
        Some(Error::Unsupported("a sparse extent version other than 1 and 2"))
    } else if h.grain_size == 0 {
        Some(Error::Corrupt("grain_size is zero"))
    } else if h.grain_size * 512 > u64::MAX {
        Some(Error::Corrupt("grain_size in sectors does not fit in a byte count"))
    } else if h.num_gtes_per_gt == 0 {
        Some(Error::Corrupt("num_gtes_per_gt is zero"))
    } else if h.num_gtes_per_gt > MAX_GTES_PER_GT {
        Some(
            Error::Corrupt(
                "grain table larger than any real image declares (num_gtes_per_gt out of range)",
            ),
        )
    } else if h.compress_algorithm != 0 {
        Some(Error::Unsupported("compressed VMDK (compress_algorithm != 0)"))
    } else {
        None
    }
}

/// What parsing a header sector gives: its fields, or why it is refused.
pub open spec fn header_of(b: Seq<u8>) -> Result<SparseHeader> {
    match header_refusal(b) {
        Some(e) => Err(e),
        None => Ok(header_fields(b)),
    }
}

impl SparseHeader {
    pub fn parse(bytes: &[u8]) -> (r: Result<Self>)
        ensures
            r == header_of(bytes@),
    {
        if bytes.len() < HEADER_SIZE {
            return Err(Error::Corrupt("header shorter than 512 bytes"));
        }
        let magic: u32 = read_u32(bytes, offsets::MAGIC);
        if magic != MAGIC {
            return Err(Error::NotVmdk);
        }
        let version: u32 = read_u32(bytes, offsets::VERSION);
        let flags: u32 = read_u32(bytes, offsets::FLAGS);
        let capacity: u64 = read_u64(bytes, offsets::CAPACITY);
        let grain_size: u64 = read_u64(bytes, offsets::GRAIN_SIZE);
        let descriptor_offset: u64 = read_u64(bytes, offsets::DESCRIPTOR_OFFSET);
        let descriptor_size: u64 = read_u64(bytes, offsets::DESCRIPTOR_SIZE);
        let num_gtes_per_gt: u32 = read_u32(bytes, offsets::NUM_GTES_PER_GT);
        let rgd_offset: u64 = read_u64(bytes, offsets::RGD_OFFSET);
        let gd_offset: u64 = read_u64(bytes, offsets::GD_OFFSET);
        let over_head: u64 = read_u64(bytes, offsets::OVER_HEAD);
        let unclean_shutdown: u8 = bytes[offsets::UNCLEAN_SHUTDOWN];
        let compress_algorithm: u16 = read_u16(bytes, offsets::COMPRESS_ALGORITHM);

        if version == 3 {
            return Err(
                Error::Unsupported("sparse extent version 3, the stream-optimized layout"),
            );
        }
        if version != SUPPORTED_VERSIONS[0] && version != SUPPORTED_VERSIONS[1] {
            return Err(Error::Unsupported("a sparse extent version other than 1 and 2"));
        }
        if grain_size == 0 {
            return Err(Error::Corrupt("grain_size is zero"));
        }
        // `grain_size` is a sector count and every use of it multiplies by
        // 512, so it is the product that has to be a usable divisor.
        if grain_size.checked_mul(512).is_none() {
            return Err(Error::Corrupt("grain_size in sectors does not fit in a byte count"));
        }
        if num_gtes_per_gt == 0 {
            return Err(Error::Corrupt("num_gtes_per_gt is zero"));
        }
        if num_gtes_per_gt > MAX_GTES_PER_GT {
            return Err(
                Error::Corrupt(
                    "grain table larger than any real image declares (num_gtes_per_gt out of range)",
                ),
            );
        }
        if compress_algorithm != 0 {
            return Err(Error::Unsupported("compressed VMDK (compress_algorithm != 0)"));
        }
        Ok(
            SparseHeader {
                version,
                flags,
                capacity,
                grain_size,
                descriptor_offset,
                descriptor_size,
                num_gtes_per_gt,
                rgd_offset,
                gd_offset,
                over_head,
                unclean_shutdown,
                compress_algorithm,
            },
        )
    }

    /// Whether bit 2 of `flags` is set.
    pub open spec fn zeroed_marker(&self) -> bool {
        self.flags & FLAG_ZEROED_GRAIN != 0
    }

    /// Whether this image uses the zeroed-grain marker: bit 2 of
    /// `flags`, [`FLAG_ZEROED_GRAIN`].
    ///
    /// In such an image a grain-table entry of [`GTE_ZEROED_GRAIN`]
    /// means "present, and entirely zero" rather than "at host sector
    /// 1".
    pub fn uses_zeroed_grain_marker(&self) -> (r: bool)
        ensures
            r == self.zeroed_marker(),
    {
        self.flags & FLAG_ZEROED_GRAIN != 0
    }

    /// Whether bit 1 of `flags` is set and `rgd_offset` is a place.
    pub open spec fn redundant(&self) -> bool {
        self.flags & FLAG_REDUNDANT_GRAIN_TABLE != 0 && self.rgd_offset != 0
    }

    /// Whether this image carries a redundant grain directory: bit 1 of
    /// `flags`, [`FLAG_REDUNDANT_GRAIN_TABLE`], and a nonzero
    /// `rgd_offset`.
    pub fn has_redundant_grain_directory(&self) -> (r: bool)
        ensures
            r == self.redundant(),
    {
        self.flags & FLAG_REDUNDANT_GRAIN_TABLE != 0 && self.rgd_offset != 0
    }

    /// Whether the grains are compressed.
    pub open spec fn stream(&self) -> bool {
        self.compress_algorithm != 0
    }

    /// Whether this is a stream-optimized extent: one whose grains are
    /// compressed.
    pub fn is_stream_optimized(&self) -> (r: bool)
        ensures
            r == self.stream(),
    {
        self.compress_algorithm != 0
    }
}

} // verus!
