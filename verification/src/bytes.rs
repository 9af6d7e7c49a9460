//! Little-endian integers inside byte sequences, and copies between slices.

use vstd::prelude::*;

verus! {

/// The little-endian `u16` at byte `at` of `s`.
pub open spec fn le16(s: Seq<u8>, at: int) -> u16 {
    (s[at] + 0x100 * s[at + 1]) as u16
}

/// The little-endian `u32` at byte `at` of `s`.
pub open spec fn le32(s: Seq<u8>, at: int) -> u32 {
    (s[at] + 0x100 * s[at + 1] + 0x1_0000 * s[at + 2] + 0x100_0000 * s[at + 3]) as u32
}

/// The little-endian `u64` at byte `at` of `s`.
pub open spec fn le64(s: Seq<u8>, at: int) -> u64 {
    (le32(s, at) + 0x1_0000_0000 * le32(s, at + 4)) as u64
}

/// The four little-endian bytes of `x`.
pub open spec fn le32_bytes(x: u32) -> Seq<u8> {
    seq![
        (x % 0x100) as u8,
        ((x / 0x100) % 0x100) as u8,
        ((x / 0x1_0000) % 0x100) as u8,
        (x / 0x100_0000) as u8,
    ]
}

/// Writing a `u32` in little-endian order and reading it back gives the
/// same value.
pub proof fn law_le32_round_trip(x: u32)
    ensures
        le32(le32_bytes(x), 0) == x,
        le32_bytes(x).len() == 4,
{
}

/// Four zero bytes read as zero.
pub(crate) proof fn lemma_le32_zero(s: Seq<u8>, at: int)
    requires
        s[at] == 0,
        s[at + 1] == 0,
        s[at + 2] == 0,
        s[at + 3] == 0,
    ensures
        le32(s, at) == 0,
{
}

/// A `u32` is zero only if its four bytes are.
pub(crate) proof fn lemma_le32_is_zero(s: Seq<u8>, at: int)
    requires
        le32(s, at) == 0,
    ensures
        s[at] == 0,
        s[at + 1] == 0,
        s[at + 2] == 0,
        s[at + 3] == 0,
{
}

pub fn read_u16(b: &[u8], off: usize) -> (x: u16)
    requires
        off + 2 <= b@.len(),
    ensures
        x == le16(b@, off as int),
{
    b[off] as u16 + 0x100 * (b[off + 1] as u16)
}

pub fn read_u32(b: &[u8], off: usize) -> (x: u32)
    requires
        off + 4 <= b@.len(),
    ensures
        x == le32(b@, off as int),
{
    b[off] as u32 + 0x100 * (b[off + 1] as u32) + 0x1_0000 * (b[off + 2] as u32) + 0x100_0000 * (
    b[off + 3] as u32)
}

pub fn read_u64(b: &[u8], off: usize) -> (x: u64)
    requires
        off + 8 <= b@.len(),
    ensures
        x == le64(b@, off as int),
{
    assert(off + 8 <= b.len());
    read_u32(b, off) as u64 + 0x1_0000_0000 * (read_u32(b, off + 4) as u64)
}

/// The four little-endian bytes of `x`.
pub(crate) fn u32_le(x: u32) -> (b: [u8; 4])
    ensures
        b@ == le32_bytes(x),
{
    let b: [u8; 4] = [
        (x % 0x100) as u8,
        ((x / 0x100) % 0x100) as u8,
        ((x / 0x1_0000) % 0x100) as u8,
        (x / 0x100_0000) as u8,
    ];
    assert(b@ =~= le32_bytes(x));
    b
}

/// `s` with `data` laid over it from index `at` on.
pub open spec fn overlaid(s: Seq<u8>, at: int, data: Seq<u8>) -> Seq<u8> {
    Seq::new(
        s.len(),
        |i: int|
            if at <= i < at + data.len() {
                data[i - at]
            } else {
                s[i]
            },
    )
}

/// Copy `src` into `dst` from index `at` on.
pub(crate) fn copy_into(dst: &mut [u8], at: usize, src: &[u8])
    requires
        at + src@.len() <= old(dst)@.len(),
    ensures
        final(dst)@ == overlaid(old(dst)@, at as int, src@),
{
    let len: usize = src.len();
    let ghost before = dst@;
    assert(at + len <= dst.len());
    let mut i: usize = 0;
    while i < len
        invariant
            0 <= i <= len,
            len == src@.len(),
            at + len <= usize::MAX,
            at + len <= dst@.len(),
            dst@.len() == before.len(),
            forall|k: int| 0 <= k < i ==> dst@[at + k] == src@[k],
            forall|k: int|
                0 <= k < before.len() && !(at <= k < at + i) ==> dst@[k] == before[k],
        decreases len - i,
    {
        dst[at + i] = src[i];
        i += 1;
    }
    assert forall|k: int| 0 <= k < before.len() implies dst@[k] == overlaid(
        before,
        at as int,
        src@,
    )[k] by {
        if at <= k < at + len {
            assert(dst@[at + (k - at)] == src@[k - at]);
        }
    }
    assert(dst@ =~= overlaid(before, at as int, src@));
}

/// Fill `len` bytes of `dst` from index `at` on with zeros.
pub(crate) fn zero_range(dst: &mut [u8], at: usize, len: usize)
    requires
        at + len <= old(dst)@.len(),
    ensures
        final(dst)@ == overlaid(old(dst)@, at as int, Seq::new(len as nat, |i: int| 0u8)),
{
    let ghost before = dst@;
    assert(at + len <= dst.len());
    let mut i: usize = 0;
    while i < len
        invariant
            0 <= i <= len,
            at + len <= usize::MAX,
            at + len <= dst@.len(),
            dst@.len() == before.len(),
            forall|k: int| at <= k < at + i ==> dst@[k] == 0,
            forall|k: int|
                0 <= k < before.len() && !(at <= k < at + i) ==> dst@[k] == before[k],
        decreases len - i,
    {
        dst[at + i] = 0;
        i += 1;
    }
    assert(dst@ =~= overlaid(before, at as int, Seq::new(len as nat, |i: int| 0u8)));
}

} // verus!
