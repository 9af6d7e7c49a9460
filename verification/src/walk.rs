//! Reading whatever an image holds, for the sake of what must not happen.

use crate::device::Bytes;
use crate::reader::VmdkReader;
use vstd::prelude::*;
use vstd::slice::slice_to_vec;

verus! {

/// How far into the virtual disk a walk will read.
///
/// A crafted header can claim any capacity, and reading all of it would
/// make a case slow rather than failing it, which reads as a hang without
/// being one.
pub const READ_BUDGET: u64 = 1 << 20;

/// The smaller of `size` and the budget.
fn within_budget(size: u64) -> (n: u64)
    ensures
        n <= size,
        n <= READ_BUDGET,
        n == size || n == READ_BUDGET,
{
    if size < READ_BUDGET {
        size
    } else {
        READ_BUDGET
    }
}

/// Open an image and read what a caller would: the geometry, the
/// descriptor, and data from either side of the grain table.
///
/// Every result is discarded. A crafted image is *supposed* to be refused;
/// what it may not do is panic, hang, or read somebody else's memory. That
/// is all there is to state, and it is stated by what is missing: nothing
/// is required of `image`.
pub fn walk(image: &[u8]) {
    let dev: Bytes = Bytes(slice_to_vec(image));
    let mut reader: VmdkReader<Bytes> = match VmdkReader::open_on_device(dev) {
        Ok(reader) => reader,
        Err(_) => return,
    };
    let virtual_size: u64 = reader.virtual_size();
    let grain: u64 = reader.grain_size_bytes();
    let _ = reader.descriptor();
    let _ = reader.is_writable();
    let header = reader.header();
    let _ = header.uses_zeroed_grain_marker();
    let _ = header.has_redundant_grain_directory();
    let _ = header.is_stream_optimized();
    // Grain boundaries are where the directory and table arithmetic
    // happens, so step by one, but only while the step is a real number.
    if grain > 0 {
        let mut at: u64 = 0;
        let mut steps: u64 = 0;
        let mut buf: Vec<u8> = vec![0u8; 512];
        while at < within_budget(virtual_size) && steps < 256
            invariant
                reader.inv(),
            decreases 256 - steps,
        {
            let _ = reader.read_at(at, buf.as_mut_slice());
            at = at.saturating_add(grain);
            steps += 1;
        }
    }
    let want: usize = within_budget(virtual_size) as usize;
    if want > 0 {
        let mut buf: Vec<u8> = vec![0u8; want];
        let _ = reader.read_at(0, buf.as_mut_slice());
    }
}

} // verus!
