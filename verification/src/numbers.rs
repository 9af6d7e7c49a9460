//! What the bytes of an image say, read as plain numbers, and what each
//! operation owes for them.
//!
//! The statements here name bytes by their place in the file and go no
//! further: a field is a sum of bytes, a flag a digit of a number, a line a
//! stretch of characters between two line feeds.

use crate::bytes::{le16, le32, le32_bytes, le64, overlaid};
use crate::device::written;
use crate::error::{message_of, Error};
use crate::header::{header_of, SparseHeader};
use crate::inflate::grain_of;
use crate::text::decimal_digits;
use vstd::prelude::*;

pub mod describing;
pub mod identifier;
pub mod lines;
pub mod metadata;
pub mod naming;
pub mod opening;
pub mod reading;
pub mod writing;

verus! {

/// The number in the two bytes at `at`, the low one first.
pub open spec fn u16_at(c: Seq<u8>, at: int) -> int {
    c[at] + 256 * c[at + 1]
}

/// The number in the four bytes at `at`, the low one first.
pub open spec fn u32_at(c: Seq<u8>, at: int) -> int {
    c[at] + 256 * c[at + 1] + 65536 * c[at + 2] + 16777216 * c[at + 3]
}

/// The number in the eight bytes at `at`, the low one first.
pub open spec fn u64_at(c: Seq<u8>, at: int) -> int {
    u32_at(c, at) + 4294967296 * u32_at(c, at + 4)
}

/// Integers in a file are sums of their bytes, the low one first, and the
/// four bytes made of a number are those that give it back wherever they
/// stand.
pub proof fn law_integers_are_sums_of_bytes(c: Seq<u8>, at: int, x: u32)
    ensures
        le16(c, at) == u16_at(c, at),
        le32(c, at) == u32_at(c, at),
        le64(c, at) == u64_at(c, at),
        le32_bytes(x).len() == 4,
        (forall|k: int| 0 <= k < 4 ==> c[at + k] == #[trigger] le32_bytes(x)[k]) ==> u32_at(c, at)
            == x,
{
    let b = le32_bytes(x);
    if forall|k: int| 0 <= k < 4 ==> c[at + k] == #[trigger] b[k] {
        assert(c[at] == b[0] && c[at + 1] == b[1] && c[at + 2] == b[2] && c[at + 3] == b[3]);
    }
}

/// Data laid over a sequence replaces what it covers and nothing else, and
/// data written to a device also grows it to hold the data, with zeros in
/// any gap.
pub proof fn law_written_bytes(c: Seq<u8>, at: int, data: Seq<u8>, k: int)
    requires
        0 <= at,
    ensures
        overlaid(c, at, data).len() == c.len(),
        0 <= k < c.len() ==> overlaid(c, at, data)[k] == (if k >= at && k - at < data.len() {
            data[k - at]
        } else {
            c[k]
        }),
        data.len() == 0 ==> written(c, at, data) == c,
        data.len() > 0 ==> written(c, at, data).len() >= c.len() && written(c, at, data).len() >= at
            + data.len() && (written(c, at, data).len() == c.len() || written(c, at, data).len()
            == at + data.len()),
        0 <= k < data.len() ==> written(c, at, data)[at + k] == data[k],
        0 <= k < c.len() && (k < at || at + data.len() <= k) ==> written(c, at, data)[k] == c[k],
        c.len() <= k < at && data.len() > 0 ==> written(c, at, data)[k] == 0,
{
}

/// An accepted header says what its bytes say, field by field.
pub proof fn law_header_fields(b: Seq<u8>, h: SparseHeader)
    requires
        header_of(b) == Ok::<SparseHeader, Error>(h),
    ensures
        h.version == u32_at(b, 4),
        h.flags == u32_at(b, 8),
        h.capacity == u64_at(b, 12),
        h.grain_size == u64_at(b, 20),
        h.descriptor_offset == u64_at(b, 28),
        h.descriptor_size == u64_at(b, 36),
        h.num_gtes_per_gt == u32_at(b, 44),
        h.rgd_offset == u64_at(b, 48),
        h.gd_offset == u64_at(b, 56),
        h.over_head == u64_at(b, 64),
        h.unclean_shutdown == b[72],
        h.compress_algorithm == u16_at(b, 77),
{
    law_integers_are_sums_of_bytes(b, 4, 0);
    law_integers_are_sums_of_bytes(b, 8, 0);
    law_integers_are_sums_of_bytes(b, 12, 0);
    law_integers_are_sums_of_bytes(b, 20, 0);
    law_integers_are_sums_of_bytes(b, 28, 0);
    law_integers_are_sums_of_bytes(b, 36, 0);
    law_integers_are_sums_of_bytes(b, 44, 0);
    law_integers_are_sums_of_bytes(b, 48, 0);
    law_integers_are_sums_of_bytes(b, 56, 0);
    law_integers_are_sums_of_bytes(b, 64, 0);
    law_integers_are_sums_of_bytes(b, 77, 0);
}

/// Whether the 512 bytes at the front of `b` are a header that is read:
/// `KDMV`, a format revision of 1 or 2, a grain of at least one sector whose
/// bytes can be counted, one to 262144 entries a table, and no compression.
pub open spec fn readable_header(b: Seq<u8>) -> bool {
    &&& b[0] == 0x4b && b[1] == 0x44 && b[2] == 0x4d && b[3] == 0x56
    &&& u32_at(b, 4) == 1 || u32_at(b, 4) == 2
    &&& 0 < u64_at(b, 20) < 0x80_0000_0000_0000
    &&& 0 < u32_at(b, 44) <= 262144
    &&& u16_at(b, 77) == 0
}

/// The headers that are read are exactly those, whatever else they say.
pub proof fn law_which_headers_are_read(b: Seq<u8>)
    ensures
        header_of(b) is Ok <==> b.len() >= 512 && readable_header(b),
{
    law_integers_are_sums_of_bytes(b, 0, 0);
    law_integers_are_sums_of_bytes(b, 4, 0);
    law_integers_are_sums_of_bytes(b, 20, 0);
    law_integers_are_sums_of_bytes(b, 44, 0);
    law_integers_are_sums_of_bytes(b, 77, 0);
}

/// What a header that is not read is called: no VMDK where the four bytes
/// at the front are not `KDMV`, and else unsupported for its revision or
/// its compression and corrupt for its numbers.
pub proof fn law_what_a_refused_header_is_called(b: Seq<u8>)
    requires
        b.len() >= 512,
        !readable_header(b),
    ensures
        header_of(b) is Err,
        header_of(b)->Err_0 is NotVmdk <==> !(b[0] == 0x4b && b[1] == 0x44 && b[2] == 0x4d && b[3]
            == 0x56),
        b[0] == 0x4b && b[1] == 0x44 && b[2] == 0x4d && b[3] == 0x56 ==> {
            &&& u32_at(b, 4) != 1 && u32_at(b, 4) != 2 ==> header_of(b)->Err_0 is Unsupported
            &&& u32_at(b, 4) == 1 || u32_at(b, 4) == 2 ==> (header_of(b)->Err_0 is Unsupported
                <==> 0 < u64_at(b, 20) < 0x80_0000_0000_0000 && 0 < u32_at(b, 44) <= 262144)
            &&& header_of(b)->Err_0 is Unsupported || header_of(b)->Err_0 is Corrupt
        },
{
    law_integers_are_sums_of_bytes(b, 0, 0);
    law_integers_are_sums_of_bytes(b, 4, 0);
    law_integers_are_sums_of_bytes(b, 20, 0);
    law_integers_are_sums_of_bytes(b, 44, 0);
    law_integers_are_sums_of_bytes(b, 77, 0);
}

/// What a header's flags mean, whatever its revision and its other fields:
/// the marker of zeroed grains is in use exactly where the number of the
/// flags has its four set, a redundant directory is declared exactly where
/// it has its two set and the directory has a place, and the grains are
/// compressed exactly where the algorithm is not zero.
pub proof fn law_what_the_flags_mean(h: SparseHeader)
    ensures
        h.zeroed_marker() <==> (h.flags / 4) % 2 == 1,
        h.redundant() <==> (h.flags / 2) % 2 == 1 && h.rgd_offset != 0,
        h.stream() <==> h.compress_algorithm > 0,
{
    let f = h.flags;
    assert((f & 4 != 0) <==> (f / 4) % 2 == 1) by (bit_vector);
    assert((f & 2 != 0) <==> (f / 2) % 2 == 1) by (bit_vector);
}

/// An inflated grain is accepted exactly where its stream is valid, ended,
/// and gave as many bytes as the disk needs, and is then handed on as it is.
pub proof fn law_which_inflated_grains_are_accepted(
    ended: bool,
    produced: u64,
    grain: Seq<u8>,
    expected: int,
)
    ensures
        grain_of(None, expected) is Err,
        grain_of(Some((ended, produced, grain)), expected) is Ok <==> ended && produced >= expected,
        grain_of(Some((ended, produced, grain)), expected) matches Ok(g) ==> g == grain,
{
}

/// What an error says ends with what is the matter: the reason of a verdict,
/// the size of the disk that a range runs past.
pub proof fn law_errors_say_what_is_the_matter(
    m: &'static str,
    offset: u64,
    len: u64,
    size: u64,
    io: Seq<char>,
)
    ensures
        ({
            let x = message_of(Error::Corrupt(m), io);
            x.len() > m@.len() && x.subrange(x.len() - m@.len(), x.len() as int) == m@
        }),
        ({
            let x = message_of(Error::Unsupported(m), io);
            x.len() > m@.len() && x.subrange(x.len() - m@.len(), x.len() as int) == m@
        }),
        ({
            let x = message_of(Error::OutOfBounds { offset, len, size }, io);
            let d = decimal_digits(size as nat);
            &&& x.len() > d.len()
            &&& x.subrange(x.len() - d.len(), x.len() as int) == d
            &&& x[x.len() - d.len() - 1] == ' '
        }),
{
    reveal_strlit("corrupt VMDK: ");
    reveal_strlit("unsupported VMDK feature: ");
    reveal_strlit(") past virtual size ");
    let a = message_of(Error::Corrupt(m), io);
    assert(a.subrange(a.len() - m@.len(), a.len() as int) =~= m@);
    let b = message_of(Error::Unsupported(m), io);
    assert(b.subrange(b.len() - m@.len(), b.len() as int) =~= m@);
    let x = message_of(Error::OutOfBounds { offset, len, size }, io);
    let d = decimal_digits(size as nat);
    assert(x.subrange(x.len() - d.len(), x.len() as int) =~= d);
    let gap = ") past virtual size "@;
    assert(gap[gap.len() - 1] == ' ');
}

} // verus!
