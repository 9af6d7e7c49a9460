//! Inflating one compressed grain.

use crate::error::{Error, Result};
use vstd::prelude::*;

verus! {

/// What one call of `flate2`'s decompressor gives for a zlib stream and a
/// buffer: whether the stream ended, how many bytes came out, and the
/// buffer afterwards; `None` where the stream is not valid.
pub uninterp spec fn zlib_inflated(
    compressed: Seq<u8>,
    buffer: Seq<u8>,
) -> Option<(bool, u64, Seq<u8>)>;

/// `flate2::Decompress` on a whole zlib stream: a fresh decompressor that
/// expects a zlib header, one `decompress` call with
/// `FlushDecompress::Finish`, then `total_out`. The result is named by
/// [`zlib_inflated`]; of the buffer it is claimed that its length stays.
#[verifier::external_body]
fn inflate(compressed: &[u8], buffer: &mut [u8]) -> (r: Option<(bool, u64)>)
    ensures
        final(buffer)@.len() == old(buffer)@.len(),
        match r {
            Some((ended, produced)) => zlib_inflated(compressed@, old(buffer)@) == Some(
                (ended, produced, final(buffer)@),
            ),
            None => zlib_inflated(compressed@, old(buffer)@) is None,
        },
{
    let mut stream = flate2::Decompress::new(true);
    let ended = match stream.decompress(compressed, buffer, flate2::FlushDecompress::Finish) {
        Ok(flate2::Status::StreamEnd) => true,
        Ok(flate2::Status::Ok) => false,
        Ok(flate2::Status::BufError) => false,
        Err(_) => return None,
    };
    Some((ended, stream.total_out()))
}

/// The grain that an inflation gave, or why it is refused: the stream has
/// to be valid, to end inside the grain, and to fill what the disk needs
/// of it.
pub open spec fn grain_of(
    outcome: Option<(bool, u64, Seq<u8>)>,
    expected: int,
) -> Result<Seq<u8>> {
    match outcome {
        None => Err(Error::Corrupt("a compressed grain is not a valid zlib stream")),
        Some((ended, produced, grain)) => if !ended {
            Err(
                Error::Corrupt(
                    "a compressed grain inflates past one grain, or its stream is truncated",
                ),
            )
        } else if produced < expected {
            Err(Error::Corrupt("a compressed grain inflates to less than one grain"))
        } else {
            Ok(grain)
        },
    }
}

/// Accept or refuse what an inflation gave; see [`grain_of`].
pub fn check_inflated(outcome: Option<(bool, u64)>, grain: Vec<u8>, expected: u64) -> (r: Result<
    Vec<u8>,
>)
    ensures
        match (
            r,
            grain_of(
                match outcome {
                    Some((ended, produced)) => Some((ended, produced, grain@)),
                    None => None,
                },
                expected as int,
            ),
        ) {
            (Ok(v), Ok(g)) => v@ == g,
            (Err(e), Err(f)) => e == f,
            _ => false,
        },
{
    match outcome {
        None => Err(Error::Corrupt("a compressed grain is not a valid zlib stream")),
        Some((ended, produced)) => if !ended {
            Err(
                Error::Corrupt(
                    "a compressed grain inflates past one grain, or its stream is truncated",
                ),
            )
        } else if produced < expected {
            Err(Error::Corrupt("a compressed grain inflates to less than one grain"))
        } else {
            Ok(grain)
        },
    }
}

/// A grain of zeros, the buffer an inflation starts from.
pub open spec fn blank(len: int) -> Seq<u8> {
    Seq::new(len as nat, |i: int| 0u8)
}

/// The grain of `grain_bytes` bytes that `compressed` holds, of which the
/// disk needs the first `expected`.
pub fn inflate_grain(compressed: &[u8], grain_bytes: usize, expected: u64) -> (r: Result<Vec<u8>>)
    ensures
        match (
            r,
            grain_of(zlib_inflated(compressed@, blank(grain_bytes as int)), expected as int),
        ) {
            (Ok(v), Ok(g)) => v@ == g && v@.len() == grain_bytes,
            (Err(e), Err(f)) => e == f,
            _ => false,
        },
{
    let mut grain: Vec<u8> = vec![0u8; grain_bytes];
    assert(grain@ =~= blank(grain_bytes as int));
    let outcome: Option<(bool, u64)> = inflate(compressed, grain.as_mut_slice());
    check_inflated(outcome, grain, expected)
}

} // verus!
