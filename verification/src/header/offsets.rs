//! Byte offsets of each field within the on-disk sparse extent header.
//!
//! [`COMPRESS_ALGORITHM`] is the one that matters most: it is where the
//! compression flag lives, so reading it from the wrong place means
//! accepting a `streamOptimized` image as an ordinary one and then
//! decoding its grains as raw data.

use vstd::prelude::*;

verus! {

/// `magicNumber`, `KDMV`.
pub const MAGIC: usize = 0;

/// `version`.
pub const VERSION: usize = 4;

/// `flags`.
pub const FLAGS: usize = 8;

/// `capacity`, in sectors.
pub const CAPACITY: usize = 12;

/// `grainSize`, in sectors.
pub const GRAIN_SIZE: usize = 20;

/// `descriptorOffset`, in sectors.
pub const DESCRIPTOR_OFFSET: usize = 28;

/// `descriptorSize`, in sectors.
pub const DESCRIPTOR_SIZE: usize = 36;

/// `numGTEsPerGT`.
pub const NUM_GTES_PER_GT: usize = 44;

/// `rgdOffset`: redundant grain directory, in sectors.
pub const RGD_OFFSET: usize = 48;

/// `gdOffset`: grain directory, in sectors.
pub const GD_OFFSET: usize = 56;

/// `overHead`, in sectors.
pub const OVER_HEAD: usize = 64;

/// `uncleanShutdown`, one byte.
pub const UNCLEAN_SHUTDOWN: usize = 72;

/// `compressAlgorithm`.
///
/// Not 76: four single-byte end-of-line fields sit at 73 to 76, so the
/// compression word starts at 77 and is unaligned. That is the format's
/// doing.
pub const COMPRESS_ALGORITHM: usize = 77;

} // verus!
