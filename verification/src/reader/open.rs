//! Opening an image.

use super::read::entries_of;
use super::state::{div_up, hits, lemma_div_up, table_count, zeros, State};
use super::{GtCache, VmdkReader};
use crate::bytes::{le32, read_u32};
use crate::content_id::{content_id_of, locate_content_id};
use crate::descriptor::{
    descriptor_of, extent_of, parse_extent, Descriptor, DescriptorView, Extent,
};
use crate::device::{device_error, BlockDevice, BlockRead};
use crate::error::{Error, Result};
use crate::extents::Extents;
use crate::header::{header_of, SparseHeader, HEADER_SIZE, MAGIC, MAGIC_VMFS_SPARSE};
use crate::image::{apart, entry_at, SECTOR_SIZE};
use crate::text::{
    chars_of, eq_ignore_ascii_case, find_char, first_index, lines, same_ignoring_case, same_text,
    trim, trimmed, Trim,
};
use std::collections::HashSet;
use vstd::prelude::*;
use vstd::slice::slice_subrange;
use vstd::utf8::{decode_utf8, valid_utf8};

verus! {

/// The largest file this reader will consider reading whole as a
/// descriptor.
///
/// A descriptor *file* is a few hundred bytes: a handful of key=value
/// lines and one extent line per extent. 64 KiB is far above that and far
/// below anything worth reading into memory on the strength of a guess.
pub const MAX_DESCRIPTOR_FILE_BYTES: u64 = 0x1_0000;

/// The same string [`Descriptor::parse`] returns for
/// `createType="vmfsSparse"`. One layout, one message, whichever file
/// named it.
pub const VMFS_SPARSE_UNSUPPORTED: &'static str = "vmfsSparse";

/// The refusal of a buffer that this machine cannot address.
pub const TOO_LARGE: &'static str = "a structure larger than this machine can address";

/// A buffer of zeros.
pub(super) fn zeroed(len: u64) -> (r: Result<Vec<u8>>)
    ensures
        match r {
            Ok(v) => v@ == zeros(len as int) && len <= usize::MAX,
            Err(e) => len > usize::MAX && e == Error::Unsupported(TOO_LARGE),
        },
{
    if len > usize::MAX as u64 {
        return Err(Error::Unsupported(TOO_LARGE));
    }
    let v: Vec<u8> = vec![0u8; len as usize];
    assert(v@ =~= zeros(len as int));
    Ok(v)
}

/// Whether a device serves every read inside the size it reports.
pub open spec fn dependable<D: BlockRead>(dev: &D) -> bool {
    dev.reliable() && dev.size() <= dev.contents().len()
}

/// Whether `e` is what a device answers that does not serve every read
/// inside the size it reports. A read that failed determined nothing about
/// the bytes, so it is reported as the error it is.
pub open spec fn failed_read<D: BlockRead>(dev: &D, e: Error) -> bool {
    device_error(e) && !dependable(dev)
}

/// Whether a file of `n` bytes begins with a sparse extent header.
pub open spec fn sparse_extent(c: Seq<u8>, n: int) -> Result<bool> {
    if n < HEADER_SIZE {
        Ok(false)
    } else if le32(c, 0) == MAGIC_VMFS_SPARSE {
        Err(Error::Unsupported(VMFS_SPARSE_UNSUPPORTED))
    } else {
        Ok(le32(c, 0) == MAGIC)
    }
}

fn head_magic<D: BlockRead>(dev: &D) -> (r: Result<u32>)
    ensures
        match r {
            Ok(x) => x == le32(dev.contents(), 0),
            Err(e) => device_error(e) && !(dev.reliable() && 4 <= dev.contents().len()),
        },
{
    let mut magic: Vec<u8> = vec![0u8; 4];
    match dev.read_at(0, magic.as_mut_slice()) {
        Ok(()) => {},
        Err(e) => return Err(e),
    }
    assert forall|k: int| 0 <= k < 4 implies magic@[k] == dev.contents()[k] by {}
    Ok(read_u32(magic.as_slice(), 0))
}

/// Whether this device begins with a sparse extent header.
///
/// Anything else is either a descriptor file or not a VMDK at all, and the
/// two are told apart by trying to parse it. An ESXi vmfsSparse extent is
/// a sparse extent too, laid out differently from the header outwards, and
/// is refused by name.
fn looks_like_a_sparse_extent<D: BlockRead>(dev: &D, dev_size: u64) -> (r: Result<bool>)
    requires
        dev_size == dev.size(),
    ensures
        match r {
            Ok(b) => sparse_extent(dev.contents(), dev_size as int) == Ok::<bool, Error>(b),
            Err(e) => sparse_extent(dev.contents(), dev_size as int) == Err::<bool, Error>(e)
                || failed_read(dev, e),
        },
{
    if dev_size < HEADER_SIZE as u64 {
        return Ok(false);
    }
    let magic: u32 = match head_magic(dev) {
        Ok(magic) => magic,
        Err(e) => return Err(e),
    };
    if magic == MAGIC_VMFS_SPARSE {
        return Err(Error::Unsupported(VMFS_SPARSE_UNSUPPORTED));
    }
    Ok(magic == MAGIC)
}

/// The first of `ls` that is not blank, without the blanks at its ends.
pub open spec fn first_line(ls: Seq<Seq<char>>) -> Option<Seq<char>>
    decreases ls.len(),
{
    if ls.len() == 0 {
        None
    } else {
        let line = trimmed(ls[0], Trim::WhiteOrNul);
        if line.len() > 0 {
            Some(line)
        } else {
            first_line(ls.subrange(1, ls.len() as int))
        }
    }
}

/// Whether `line` assigns to `key`.
pub open spec fn has_key(line: Seq<char>, key: Seq<char>) -> bool {
    let i = first_index(line, '=');
    i < line.len() && trimmed(line.subrange(0, i), Trim::White) == key
}

/// Whether one of `ls` assigns to `key`.
pub open spec fn some_key(ls: Seq<Seq<char>>, key: Seq<char>) -> bool {
    exists|i: int| 0 <= i < ls.len() && has_key(#[trigger] ls[i], key)
}

/// Whether one of `ls` describes an extent.
pub open spec fn some_extent(ls: Seq<Seq<char>>) -> bool {
    exists|i: int|
        0 <= i < ls.len() && extent_of(trimmed(#[trigger] ls[i], Trim::WhiteOrNul)) is Some
}

/// Whether `text` has the shape of a VMDK descriptor file: the banner as
/// the first line that is not blank, or both a `version` and a `CID` key,
/// and an extent line.
pub open spec fn descriptor_shaped(text: Seq<char>) -> bool {
    let ls = lines(text);
    &&& first_line(ls) == Some("# Disk DescriptorFile"@) || (some_key(ls, "version"@) && some_key(
        ls,
        "CID"@,
    ))
    &&& some_extent(ls)
}

/// Whether `text` has the shape of a VMDK descriptor file, beyond merely
/// naming a `createType`.
///
/// A banner found anywhere would accept a config file that merely quotes
/// it; a hand-written descriptor without the banner still passes on its
/// keys. Failing this says "not a VMDK", the direction that lets a caller
/// keep probing.
pub fn is_structurally_a_descriptor_file(text: &str) -> (r: bool)
    ensures
        r == descriptor_shaped(text@),
{
    let chars: Vec<char> = chars_of(text);
    let mut rest: &[char] = chars.as_slice();
    let mut at_end: bool = false;
    let mut blank_so_far: bool = true;
    let mut banner: bool = false;
    let mut version: bool = false;
    let mut cid: bool = false;
    let mut extent: bool = false;
    let ghost all = lines(text@);
    let ghost mut seen: Seq<Seq<char>> = Seq::empty();
    assert(seen + all =~= all);
    assert(all.subrange(0, all.len() as int) =~= all);
    while !at_end
        invariant
            all == lines(text@),
            !at_end ==> all == seen + lines(rest@),
            at_end ==> all == seen,
            blank_so_far ==> first_line(all) == first_line(
                all.subrange(seen.len() as int, all.len() as int),
            ),
            blank_so_far ==> !banner,
            !blank_so_far ==> banner == (first_line(all) == Some("# Disk DescriptorFile"@)),
            version == some_key(seen, "version"@),
            cid == some_key(seen, "CID"@),
            extent == some_extent(seen),
        decreases (if at_end { 0nat } else { rest@.len() + 1 }),
    {
        let n: usize = rest.len();
        let i: usize = find_char(rest, '\n');
        let raw: &[char] = slice_subrange(rest, 0, i);
        let ghost before = seen;
        proof {
            seen = before.push(raw@);
            if i < n {
                assert(before + lines(rest@) =~= seen + lines(rest@.subrange(i + 1, n as int)));
            } else {
                assert(rest@.subrange(0, n as int) =~= rest@);
                assert(before + lines(rest@) =~= seen);
            }
            let left = all.subrange(before.len() as int, all.len() as int);
            assert(left[0] == raw@);
            assert(left.subrange(1, left.len() as int) =~= all.subrange(
                seen.len() as int,
                all.len() as int,
            ));
            assert forall|k: int| 0 <= k < before.len() implies before[k] == seen[k] by {}
            assert(seen[before.len() as int] == raw@);
        }
        if i < n {
            rest = slice_subrange(rest, i + 1, n);
        } else {
            at_end = true;
        }
        let line: &[char] = trim(raw, Trim::WhiteOrNul);
        if blank_so_far && line.len() > 0 {
            blank_so_far = false;
            banner = same_text(line, "# Disk DescriptorFile");
        }
        let eq: usize = find_char(raw, '=');
        if eq < raw.len() {
            let key: &[char] = trim(slice_subrange(raw, 0, eq), Trim::White);
            if same_text(key, "version") {
                version = true;
                assert(has_key(seen[before.len() as int], "version"@));
            }
            if same_text(key, "CID") {
                cid = true;
                assert(has_key(seen[before.len() as int], "CID"@));
            }
        }
        if parse_extent(line).is_some() {
            extent = true;
            assert(extent_of(trimmed(seen[before.len() as int], Trim::WhiteOrNul)) is Some);
        }
        proof {
            if some_key(before, "version"@) {
                let k = choose|k: int| 0 <= k < before.len() && has_key(#[trigger] before[k], "version"@);
                assert(has_key(seen[k], "version"@));
            }
            if some_key(before, "CID"@) {
                let k = choose|k: int| 0 <= k < before.len() && has_key(#[trigger] before[k], "CID"@);
                assert(has_key(seen[k], "CID"@));
            }
            if some_extent(before) {
                let k = choose|k: int|
                    0 <= k < before.len() && extent_of(
                        trimmed(#[trigger] before[k], Trim::WhiteOrNul),
                    ) is Some;
                assert(extent_of(trimmed(seen[k], Trim::WhiteOrNul)) is Some);
            }
            if some_key(seen, "version"@) && !some_key(before, "version"@) {
                let k = choose|k: int| 0 <= k < seen.len() && has_key(#[trigger] seen[k], "version"@);
                assert(k == before.len() || has_key(before[k], "version"@));
            }
            if some_key(seen, "CID"@) && !some_key(before, "CID"@) {
                let k = choose|k: int| 0 <= k < seen.len() && has_key(#[trigger] seen[k], "CID"@);
                assert(k == before.len() || has_key(before[k], "CID"@));
            }
            if some_extent(seen) && !some_extent(before) {
                let k = choose|k: int|
                    0 <= k < seen.len() && extent_of(
                        trimmed(#[trigger] seen[k], Trim::WhiteOrNul),
                    ) is Some;
                assert(k == before.len() || extent_of(trimmed(before[k], Trim::WhiteOrNul)) is Some);
            }
        }
    }
    assert(all.subrange(all.len() as int, all.len() as int) =~= Seq::<Seq<char>>::empty());
    (banner || (version && cid)) && extent
}

/// The refusal of a descriptor file whose layout would otherwise be the
/// one this crate reads.
pub const SIDECAR_UNSUPPORTED: &'static str =
    "monolithicSparse descriptor file — the sparse extent it names is a separate file, and this crate reads only an image with its descriptor embedded";

/// The verdict on a file of `n` bytes that is not a sparse extent.
pub open spec fn descriptor_file_verdict(c: Seq<u8>, n: int) -> Error {
    if n == 0 || n > MAX_DESCRIPTOR_FILE_BYTES {
        Error::NotVmdk
    } else if !valid_utf8(c.subrange(0, n)) {
        Error::NotVmdk
    } else if !descriptor_shaped(decode_utf8(c.subrange(0, n))) {
        Error::NotVmdk
    } else {
        match descriptor_of(decode_utf8(c.subrange(0, n))) {
            Err(Error::Unsupported(m)) => Error::Unsupported(m),
            Ok(_) => Error::Unsupported(SIDECAR_UNSUPPORTED),
            Err(_) => Error::NotVmdk,
        }
    }
}

/// The verdict on a file that is not a sparse extent.
///
/// Returns [`Error::Unsupported`] naming the create type when the file
/// parses as a descriptor, and [`Error::NotVmdk`] when it does not, which
/// keeps "not a VMDK" meaning what it says. A failed read determined
/// nothing about the bytes, so it is reported as the error it is.
fn describe_descriptor_file<D: BlockRead>(dev: &D, dev_size: u64) -> (e: Error)
    requires
        dev_size == dev.size(),
    ensures
        e == descriptor_file_verdict(dev.contents(), dev_size as int) || failed_read(
            dev,
            e,
        ),
{
    if dev_size == 0 || dev_size > MAX_DESCRIPTOR_FILE_BYTES {
        return Error::NotVmdk;
    }
    let mut bytes: Vec<u8> = vec![0u8; dev_size as usize];
    if let Err(e) = dev.read_at(0, bytes.as_mut_slice()) {
        return e;
    }
    let text: &str = match core::str::from_utf8(bytes.as_slice()) {
        Ok(text) => text,
        Err(_) => return Error::NotVmdk,
    };
    if !is_structurally_a_descriptor_file(text) {
        return Error::NotVmdk;
    }
    match Descriptor::parse(text) {
        Err(Error::Unsupported(msg)) => Error::Unsupported(msg),
        // A descriptor that says `monolithicSparse` and is a file of its
        // own describes an extent somewhere else, which is as far out of
        // reach as a flat one.
        Ok(_) => Error::Unsupported(SIDECAR_UNSUPPORTED),
        // No `createType` at all, or anything else the descriptor parser
        // refuses: this is not a VMDK descriptor.
        Err(_) => Error::NotVmdk,
    }
}

/// The header of an image of `n` bytes, with the directory's place from
/// the footer where the header leaves it to that, or why the image is
/// refused.
///
/// A stream-optimized image is not written: it is append-only by
/// construction, so a rewritten grain does not fit where the old one was.
/// A stream written in one pass does not know where its directory will go
/// when it writes the header, so it says "at the end" (all ones) and
/// repeats the header, with the real offset, one sector before the
/// end-of-stream marker.
pub open spec fn header_stage(c: Seq<u8>, n: int, writable: bool) -> Result<SparseHeader> {
    match header_of(c.subrange(0, 512)) {
        Err(e) => Err(e),
        Ok(h) => if writable && h.stream() {
            Err(
                Error::Unsupported(
                    "a stream-optimized VMDK is read-only here: its grains are compressed and append-only, so a grain cannot be rewritten in place",
                ),
            )
        } else if h.stream() && h.gd_offset == u64::MAX {
            if n < 1024 {
                Err(Error::Corrupt("a footer-directory image too short to hold a footer"))
            } else {
                match header_of(c.subrange(n - 1024, n - 512)) {
                    Err(e) => Err(e),
                    Ok(f) => if f.gd_offset == u64::MAX || !f.stream() {
                        Err(
                            Error::Corrupt(
                                "the header puts the grain directory in the footer, and the footer does not say where it is",
                            ),
                        )
                    } else {
                        Ok(
                            (SparseHeader {
                                gd_offset: f.gd_offset,
                                rgd_offset: f.rgd_offset,
                                ..h
                            }),
                        )
                    },
                }
            }
        } else {
            Ok(h)
        },
    }
}

/// Read and parse the header; see [`header_stage`].
fn read_header<D: BlockRead>(dev: &D, dev_size: u64, writable: bool) -> (r: Result<SparseHeader>)
    requires
        dev_size == dev.size(),
        dev_size >= 512,
    ensures
        match r {
            Ok(h) => header_stage(dev.contents(), dev_size as int, writable) == Ok::<
                SparseHeader,
                Error,
            >(h),
            Err(e) => header_stage(dev.contents(), dev_size as int, writable) == Err::<
                SparseHeader,
                Error,
            >(e) || failed_read(dev, e),
        },
{
    let mut bytes: Vec<u8> = vec![0u8; HEADER_SIZE];
    match dev.read_at(0, bytes.as_mut_slice()) {
        Ok(()) => {},
        Err(e) => return Err(e),
    }
    let mut header: SparseHeader = match SparseHeader::parse(bytes.as_slice()) {
        Ok(header) => header,
        Err(e) => return Err(e),
    };
    if writable && header.is_stream_optimized() {
        return Err(
            Error::Unsupported(
                "a stream-optimized VMDK is read-only here: its grains are compressed and append-only, so a grain cannot be rewritten in place",
            ),
        );
    }
    if header.is_stream_optimized() && header.gd_offset == u64::MAX {
        if dev_size < 2 * SECTOR_SIZE {
            return Err(Error::Corrupt("a footer-directory image too short to hold a footer"));
        }
        let mut footer: Vec<u8> = vec![0u8; HEADER_SIZE];
        match dev.read_at(dev_size - 2 * SECTOR_SIZE, footer.as_mut_slice()) {
            Ok(()) => {},
            Err(e) => return Err(e),
        }
        let footer: SparseHeader = match SparseHeader::parse(footer.as_slice()) {
            Ok(footer) => footer,
            Err(e) => return Err(e),
        };
        if footer.gd_offset == u64::MAX || !footer.is_stream_optimized() {
            return Err(
                Error::Corrupt(
                    "the header puts the grain directory in the footer, and the footer does not say where it is",
                ),
            );
        }
        header.gd_offset = footer.gd_offset;
        header.rgd_offset = footer.rgd_offset;
    }
    Ok(header)
}

/// Why a descriptor and a header do not describe the same disk, where they
/// do not.
///
/// Both say how big the disk is, by independent routes. A descriptor with
/// several extents is a split image whose remaining extents live in
/// sibling files; reading only the first would serve zeros or wrong bytes
/// for everything past it.
pub open spec fn disagreement(desc: DescriptorView, h: SparseHeader) -> Option<Error> {
    if desc.extents.len() == 0 {
        Some(
            Error::Corrupt(
                "descriptor declares no extent, so nothing says where the disk's data is",
            ),
        )
    } else if desc.extents.len() > 1 {
        Some(
            Error::Unsupported(
                "a descriptor with more than one extent — the rest of the disk is in                  sibling files this crate does not open, and reading only the first                  would serve zeros or wrong bytes for everything past it",
            ),
        )
    } else if !same_ignoring_case(desc.extents[0].kind, "SPARSE"@) {
        Some(
            Error::Unsupported(
                "the descriptor's extent is not SPARSE, so the data is not laid out the way              a sparse extent's grain directory describes",
            ),
        )
    } else if (desc.create_type == "streamOptimized"@) != h.stream() {
        Some(
            Error::Corrupt(
                "the descriptor's createType and the header's compression disagree about whether this is a stream-optimized image",
            ),
        )
    } else if desc.extents[0].sectors != h.capacity {
        Some(
            Error::Corrupt(
                "the descriptor's extent length and the header's capacity disagree about              how big this disk is",
            ),
        )
    } else {
        None
    }
}

/// The descriptor and the header describe the same disk, or the image is
/// refused; see [`disagreement`].
pub fn descriptor_agrees_with_header(desc: &Descriptor, header: &SparseHeader) -> (r: Result<()>)
    ensures
        match r {
            Ok(()) => disagreement(desc@, *header) is None,
            Err(e) => disagreement(desc@, *header) == Some(e),
        },
{
    let ghost view = desc@;
    assert(view.extents.len() == desc.extents@.len());
    if desc.extents.len() == 0 {
        return Err(
            Error::Corrupt(
                "descriptor declares no extent, so nothing says where the disk's data is",
            ),
        );
    }
    if desc.extents.len() > 1 {
        return Err(
            Error::Unsupported(
                "a descriptor with more than one extent — the rest of the disk is in                  sibling files this crate does not open, and reading only the first                  would serve zeros or wrong bytes for everything past it",
            ),
        );
    }
    let extent: &Extent = &desc.extents[0];
    assert(view.extents[0] == extent@);
    let kind: Vec<char> = chars_of(extent.kind.as_str());
    if !eq_ignore_ascii_case(kind.as_slice(), "SPARSE") {
        return Err(
            Error::Unsupported(
                "the descriptor's extent is not SPARSE, so the data is not laid out the way              a sparse extent's grain directory describes",
            ),
        );
    }
    // The layout is stated twice, and the two must agree. A descriptor
    // saying `streamOptimized` over an uncompressed header, or the
    // reverse, is read under one of two layouts with nothing to say which
    // is true.
    let create_type: Vec<char> = chars_of(desc.create_type.as_str());
    if same_text(create_type.as_slice(), "streamOptimized") != header.is_stream_optimized() {
        return Err(
            Error::Corrupt(
                "the descriptor's createType and the header's compression disagree about whether this is a stream-optimized image",
            ),
        );
    }
    if extent.sectors != header.capacity {
        return Err(
            Error::Corrupt(
                "the descriptor's extent length and the header's capacity disagree about              how big this disk is",
            ),
        );
    }
    Ok(())
}

/// The refusal of an image whose descriptor region is blank. A monolithic
/// image whose descriptor was erased is byte-identical to one extent of a
/// split disk, so the message names both.
pub const EMPTY_DESCRIPTOR: &'static str =
    "the embedded descriptor region is entirely empty: either one extent of a split disk, whose descriptor is in the sidecar .vmdk beside it, or an image whose descriptor has been erased";

/// What the embedded descriptor of an image of `n` bytes says, or why the
/// image is refused.
///
/// An empty descriptor region is a positive signal, not a parse failure: a
/// split disk's extents each carry a header with a descriptor region
/// reserved and left empty. The first write rewrites the identifier, so an
/// image on which that would have to guess where the field ends is refused
/// for writing now.
pub open spec fn descriptor_stage(
    c: Seq<u8>,
    n: int,
    writable: bool,
    h: SparseHeader,
) -> Result<DescriptorView> {
    let off = h.descriptor_offset * 512;
    let len = h.descriptor_size * 512;
    let region = c.subrange(off, off + len);
    let text = decode_utf8(region);
    if h.descriptor_offset == 0 || h.descriptor_size == 0 {
        Err(
            Error::Unsupported(
                "no embedded descriptor (probably monolithicFlat or split)",
            ),
        )
    } else if off > u64::MAX {
        Err(Error::Corrupt("descriptor_offset overflow"))
    } else if len > u64::MAX {
        Err(Error::Corrupt("descriptor_size overflow"))
    } else if off + len > u64::MAX {
        Err(Error::Corrupt("descriptor extent overflow"))
    } else if off + len > n {
        Err(Error::Corrupt("descriptor extends past EOF"))
    } else if len > usize::MAX {
        Err(Error::Unsupported(TOO_LARGE))
    } else if !valid_utf8(region) {
        Err(Error::Corrupt("descriptor not UTF-8"))
    } else if trimmed(text, Trim::WhiteOrNul).len() == 0 {
        Err(Error::Unsupported(EMPTY_DESCRIPTOR))
    } else {
        match descriptor_of(text) {
            Err(e) => Err(e),
            Ok(d) => match disagreement(d, h) {
                Some(e) => Err(e),
                None => match content_id_of(region) {
                    Err(m) => if writable {
                        Err(Error::Corrupt(m))
                    } else {
                        Ok(d)
                    },
                    Ok(_) => Ok(d),
                },
            },
        }
    }
}

/// Read and parse the embedded descriptor; see [`descriptor_stage`].
fn read_descriptor<D: BlockRead>(
    dev: &D,
    dev_size: u64,
    writable: bool,
    header: &SparseHeader,
) -> (r: Result<(Descriptor, u64, u64)>)
    requires
        dev_size == dev.size(),
    ensures
        match r {
            Ok((d, off, len)) => {
                &&& descriptor_stage(dev.contents(), dev_size as int, writable, *header) == Ok::<
                    DescriptorView,
                    Error,
                >(d@)
                &&& off == header.descriptor_offset * 512
                &&& len == header.descriptor_size * 512
                &&& off + len <= dev.contents().len()
            },
            Err(e) => descriptor_stage(dev.contents(), dev_size as int, writable, *header) == Err::<
                DescriptorView,
                Error,
            >(e) || failed_read(dev, e),
        },
{
    if header.descriptor_offset == 0 || header.descriptor_size == 0 {
        return Err(
            Error::Unsupported("no embedded descriptor (probably monolithicFlat or split)"),
        );
    }
    let off: u64 = match header.descriptor_offset.checked_mul(SECTOR_SIZE) {
        Some(off) => off,
        None => return Err(Error::Corrupt("descriptor_offset overflow")),
    };
    let len: u64 = match header.descriptor_size.checked_mul(SECTOR_SIZE) {
        Some(len) => len,
        None => return Err(Error::Corrupt("descriptor_size overflow")),
    };
    // Checked, like the two multiplications: the sum can overflow even
    // when neither product did, and would wrap to a small number that
    // passes the end-of-file test.
    let end: u64 = match off.checked_add(len) {
        Some(end) => end,
        None => return Err(Error::Corrupt("descriptor extent overflow")),
    };
    if end > dev_size {
        return Err(Error::Corrupt("descriptor extends past EOF"));
    }
    let mut bytes: Vec<u8> = match zeroed(len) {
        Ok(bytes) => bytes,
        Err(e) => return Err(e),
    };
    match dev.read_at(off, bytes.as_mut_slice()) {
        Ok(()) => {},
        Err(e) => return Err(e),
    }
    let text: &str = match core::str::from_utf8(bytes.as_slice()) {
        Ok(text) => text,
        Err(_) => return Err(Error::Corrupt("descriptor not UTF-8")),
    };
    let chars: Vec<char> = chars_of(text);
    if trim(chars.as_slice(), Trim::WhiteOrNul).len() == 0 {
        return Err(Error::Unsupported(EMPTY_DESCRIPTOR));
    }
    let descriptor: Descriptor = match Descriptor::parse(text) {
        Ok(descriptor) => descriptor,
        Err(e) => return Err(e),
    };
    match descriptor_agrees_with_header(&descriptor, header) {
        Ok(()) => {},
        Err(e) => return Err(e),
    }
    if writable {
        match locate_content_id(bytes.as_slice()) {
            Ok(_) => {},
            Err(m) => return Err(Error::Corrupt(m)),
        }
    }
    Ok((descriptor, off, len))
}

/// Why the grain directory of an image of `n` bytes is refused, where it
/// is.
pub open spec fn directory_refusal(n: int, h: SparseHeader) -> Option<Error> {
    let off = h.gd_offset * 512;
    let len = 4 * table_count(h);
    if h.gd_offset == 0 {
        Some(Error::Corrupt("gd_offset is zero"))
    } else if table_count(h) > u32::MAX {
        Some(Error::Corrupt("grain directory too large"))
    } else if off > u64::MAX {
        Some(Error::Corrupt("gd_offset overflow"))
    } else if off + len > u64::MAX {
        Some(Error::Corrupt("grain-directory extent overflow"))
    } else if off + len > n {
        Some(Error::Corrupt("grain directory extends past EOF"))
    } else if len > usize::MAX {
        Some(Error::Unsupported(TOO_LARGE))
    } else {
        None
    }
}

/// Why the redundant grain directory of an image of `n` bytes cannot be
/// read, where it cannot.
pub open spec fn redundant_refusal(n: int, h: SparseHeader) -> Option<Error> {
    let off = h.rgd_offset * 512;
    let len = 4 * table_count(h);
    if off > u64::MAX {
        Some(Error::Corrupt("redundant grain directory offset overflows"))
    } else if off + len > u64::MAX {
        Some(Error::Corrupt("redundant grain-directory extent overflow"))
    } else if off + len > n {
        Some(Error::Corrupt("redundant grain directory extends past EOF"))
    } else {
        None
    }
}

/// `a` divided by `b`, rounded up.
fn div_ceil(a: u64, b: u64) -> (q: u64)
    requires
        b > 0,
    ensures
        q == div_up(a as int, b as int),
{
    let q: u64 = a / b;
    let r: u64 = a % b;
    proof {
        let (x, y) = (a as int, b as int);
        lemma_div_up(x, y);
        vstd::arithmetic::div_mod::lemma_fundamental_div_mod(x, y);
        let u = div_up(x, y);
        let exact = if r == 0 {
            q as int
        } else {
            q + 1
        };
        assert(u == exact) by (nonlinear_arith)
            requires
                y > 0,
                x == y * q + r,
                0 <= r < y,
                x <= u * y < x + y,
                exact == (if r == 0 {
                    q as int
                } else {
                    q + 1
                }),
        ;
        assert(r != 0 ==> q < u64::MAX) by (nonlinear_arith)
            requires
                y > 0,
                x == y * q + r,
                x <= u64::MAX,
                0 <= r,
        ;
    }
    if r == 0 {
        q
    } else {
        q + 1
    }
}

/// Read one grain directory: `len` bytes of little-endian `u32` sector
/// numbers at byte offset `off`.
fn read_directory<D: BlockRead>(dev: &D, off: u64, len: usize) -> (r: Result<Vec<u32>>)
    ensures
        match r {
            Ok(v) => {
                &&& v@.len() == len / 4
                &&& off + len <= dev.contents().len()
                &&& forall|j: int|
                    0 <= j < v@.len() ==> #[trigger] v@[j] == entry_at(
                        dev.contents(),
                        off as int,
                        j,
                    )
            },
            Err(e) => device_error(e) && !(dev.reliable() && off + len <= dev.contents().len()),
        },
{
    let mut bytes: Vec<u8> = vec![0u8; len];
    match dev.read_at(off, bytes.as_mut_slice()) {
        Ok(()) => {},
        Err(e) => return Err(e),
    }
    let v: Vec<u32> = entries_of(bytes.as_slice());
    let ghost c = dev.contents();
    assert forall|j: int| 0 <= j < v@.len() implies #[trigger] v@[j] == entry_at(c, off as int, j) by {
        assert(bytes@[4 * j] == c[off + 4 * j]);
        assert(bytes@[4 * j + 1] == c[off + 4 * j + 1]);
        assert(bytes@[4 * j + 2] == c[off + 4 * j + 2]);
        assert(bytes@[4 * j + 3] == c[off + 4 * j + 3]);
    }
    Ok(v)
}

/// Whether `len` sectors at sector `start` lie inside a file of `n` bytes.
pub open spec fn fits(start: int, len: int, n: int) -> bool {
    start + len <= n / 512
}

/// The first byte a grain may occupy: `over_head`, where that lies inside
/// the file, and never the header's own sector.
pub open spec fn grain_floor(h: SparseHeader, n: int) -> int {
    if fits(h.over_head as int, 0, n) && h.over_head > 1 {
        h.over_head * 512
    } else {
        512
    }
}

/// Whether byte `b` is one of `len` sectors at sector `start` that lie
/// inside a file of `n` bytes.
pub open spec fn in_region(start: int, len: int, n: int, b: int) -> bool {
    fits(start, len, n) && start * 512 <= b < (start + len) * 512
}

/// The bytes of the regions whose place the header states. Each counts
/// only when it lies inside the file: a nonsense offset should not make an
/// otherwise readable image unreadable.
pub open spec fn fixed_bytes(h: SparseHeader, n: int, redundant: bool) -> Set<int> {
    let dir = div_up(4 * table_count(h), 512);
    Set::new(
        |b: int|
            0 <= b < 512 || in_region(
                h.descriptor_offset as int,
                h.descriptor_size as int,
                n,
                b,
            ) || in_region(h.gd_offset as int, dir, n, b) || (redundant && in_region(
                h.rgd_offset as int,
                dir,
                n,
                b,
            )),
    )
}

/// The sectors that the directories name, those of the primary first.
pub open spec fn named_tables(c: Seq<u8>, h: SparseHeader, redundant: bool) -> Seq<u32> {
    let n = table_count(h) as nat;
    let primary = Seq::new(n, |i: int| entry_at(c, h.gd_offset * 512, i));
    if redundant {
        primary + Seq::new(n, |i: int| entry_at(c, h.rgd_offset * 512, i))
    } else {
        primary
    }
}

/// Whether a named table is a region to protect. One that runs past the
/// file or overlaps the fixed metadata is refused when it is used.
pub open spec fn protects(h: SparseHeader, n: int, fixed: Set<int>, t: u32) -> bool {
    let end = t * 512 + 4 * h.num_gtes_per_gt;
    t != 0 && end <= n && !hits(fixed, t * 512, end)
}

/// The bytes of the tables that `named` names and that are to be
/// protected.
pub open spec fn table_bytes(h: SparseHeader, n: int, fixed: Set<int>, named: Seq<u32>) -> Set<int> {
    Set::new(|b: int| in_tables(h, n, fixed, named, b))
}

/// Whether byte `b` belongs to one of the protected tables of `named`.
pub open spec fn in_tables(
    h: SparseHeader,
    n: int,
    fixed: Set<int>,
    named: Seq<u32>,
    b: int,
) -> bool {
    exists|k: int|
        0 <= k < named.len() && protects(h, n, fixed, #[trigger] named[k]) && named[k] * 512 <= b
            < named[k] * 512 + 4 * h.num_gtes_per_gt
}

/// Whether two of the protected tables share a byte: a write through
/// either would rewrite the other's mapping.
pub open spec fn tables_clash(h: SparseHeader, n: int, fixed: Set<int>, named: Seq<u32>) -> bool {
    exists|j: int, k: int|
        0 <= j < k < named.len() && protects(h, n, fixed, #[trigger] named[j]) && protects(
            h,
            n,
            fixed,
            #[trigger] named[k],
        ) && !apart(
            (named[j] * 512, named[j] * 512 + 4 * h.num_gtes_per_gt),
            (named[k] * 512, named[k] * 512 + 4 * h.num_gtes_per_gt),
        )
}

/// Fold `sectors` sectors at `start` into the fixed metadata, where they
/// lie inside the file.
fn add_fixed(fixed: &mut Extents, start: u64, sectors: u64, dev_size: u64)
    requires
        old(fixed).wf(),
    ensures
        final(fixed).wf(),
        forall|b: int|
            #[trigger] final(fixed).contains(b) <==> old(fixed).contains(b) || in_region(
                start as int,
                sectors as int,
                dev_size as int,
                b,
            ),
{
    let dev_sectors: u64 = dev_size / SECTOR_SIZE;
    match start.checked_add(sectors) {
        Some(end) => if end <= dev_sectors {
            fixed.insert(start * SECTOR_SIZE, end * SECTOR_SIZE);
        },
        None => {},
    }
}

/// The grain tables that the directories name, as a set of bytes to
/// protect.
fn protected_tables(
    named: &Vec<u32>,
    header: &SparseHeader,
    dev_size: u64,
    fixed: &Extents,
    writable: bool,
) -> (r: Result<Extents>)
    requires
        fixed.wf(),
        header.num_gtes_per_gt > 0,
        header.num_gtes_per_gt <= crate::header::MAX_GTES_PER_GT,
    ensures
        ({
            let bytes = Set::new(|b: int| fixed.contains(b));
            match r {
                Ok(x) => {
                    &&& x.wf()
                    &&& forall|b: int|
                        #[trigger] x.contains(b) <==> in_tables(
                            *header,
                            dev_size as int,
                            bytes,
                            named@,
                            b,
                        )
                    &&& writable ==> !tables_clash(*header, dev_size as int, bytes, named@)
                },
                Err(e) => {
                    &&& writable
                    &&& tables_clash(*header, dev_size as int, bytes, named@)
                    &&& e == Error::Corrupt(
                        "grain tables overlap: two directory entries name the same storage",
                    )
                },
            }
        }),
{
    let ghost bytes = Set::new(|b: int| fixed.contains(b));
    let ghost h = *header;
    let ghost n = dev_size as int;
    let gt_bytes: u64 = (header.num_gtes_per_gt as u64) * 4;
    let mut tables: Extents = Extents::default();
    let mut i: usize = 0;
    while i < named.len()
        invariant
            0 <= i <= named@.len(),
            fixed.wf(),
            tables.wf(),
            h == *header,
            n == dev_size,
            gt_bytes == 4 * h.num_gtes_per_gt,
            0 < gt_bytes <= 0x10_0000,
            bytes == Set::new(|b: int| fixed.contains(b)),
            forall|b: int|
                #[trigger] tables.contains(b) <==> in_tables(
                    h,
                    n,
                    bytes,
                    named@.subrange(0, i as int),
                    b,
                ),
            writable ==> !tables_clash(h, n, bytes, named@.subrange(0, i as int)),
        decreases named@.len() - i,
    {
        let sector: u32 = named[i];
        let ghost before = named@.subrange(0, i as int);
        let ghost after = named@.subrange(0, i + 1);
        let ghost old_tables = tables;
        assert(after =~= before.push(sector));
        let mut added: bool = false;
        let start: u64 = (sector as u64) * SECTOR_SIZE;
        let end: u64 = start + gt_bytes;
        if sector != 0 {
            let in_fixed: bool = fixed.overlaps(start, end);
            assert(in_fixed == hits(bytes, start as int, end as int)) by {
                lemma_extent_hits(fixed, bytes, start as int, end as int);
            }
            if end <= dev_size && !in_fixed {
                assert(protects(h, n, bytes, sector));
                // Two entries, one table: `insert` merges, so a second
                // entry naming storage an earlier one already names would
                // be silently folded in. A read never writes a table, so
                // only a writable open is refused.
                let taken: bool = tables.overlaps(start, end);
                if writable && taken {
                    proof {
                        let b = choose|b: int| start <= b < end && #[trigger] tables.contains(b);
                        assert(in_tables(h, n, bytes, before, b));
                        let j = choose|j: int|
                            0 <= j < before.len() && protects(
                                h,
                                n,
                                bytes,
                                #[trigger] before[j],
                            ) && before[j] * 512 <= b < before[j] * 512 + 4 * h.num_gtes_per_gt;
                        assert(named@[j] == before[j]);
                        assert(named@[i as int] == sector);
                        assert(tables_clash(h, n, bytes, named@));
                    }
                    return Err(
                        Error::Corrupt(
                            "grain tables overlap: two directory entries name the same storage",
                        ),
                    );
                }
                proof {
                    if writable && tables_clash(h, n, bytes, after) {
                        let (j, k) = choose|j: int, k: int|
                            0 <= j < k < after.len() && protects(
                                h,
                                n,
                                bytes,
                                #[trigger] after[j],
                            ) && protects(h, n, bytes, #[trigger] after[k]) && !apart(
                                (after[j] * 512, after[j] * 512 + 4 * h.num_gtes_per_gt),
                                (after[k] * 512, after[k] * 512 + 4 * h.num_gtes_per_gt),
                            );
                        assert(after[j] == before[j]);
                        if k < i {
                            assert(after[k] == before[k]);
                            assert(tables_clash(h, n, bytes, before));
                        } else {
                            let b = if before[j] * 512 > start {
                                before[j] * 512
                            } else {
                                start as int
                            };
                            assert(in_tables(h, n, bytes, before, b));
                            assert(tables.contains(b));
                        }
                        assert(false);
                    }
                }
                tables.insert(start, end);
                added = true;
            }
        }
        proof {
            assert(added == protects(h, n, bytes, sector));
            if writable && !added && tables_clash(h, n, bytes, after) {
                let (j, k) = choose|j: int, k: int|
                    0 <= j < k < after.len() && protects(h, n, bytes, #[trigger] after[j])
                        && protects(h, n, bytes, #[trigger] after[k]) && !apart(
                        (after[j] * 512, after[j] * 512 + 4 * h.num_gtes_per_gt),
                        (after[k] * 512, after[k] * 512 + 4 * h.num_gtes_per_gt),
                    );
                assert(after[j] == before[j] && (k < i ==> after[k] == before[k]));
                assert(tables_clash(h, n, bytes, before));
            }
            assert forall|b: int| #[trigger] tables.contains(b) <==> in_tables(
                h,
                n,
                bytes,
                after,
                b,
            ) by {
                if in_tables(h, n, bytes, after, b) {
                    let k = choose|k: int|
                        0 <= k < after.len() && protects(h, n, bytes, #[trigger] after[k])
                            && after[k] * 512 <= b < after[k] * 512 + 4 * h.num_gtes_per_gt;
                    if k < i {
                        assert(before[k] == after[k]);
                        assert(in_tables(h, n, bytes, before, b));
                        assert(old_tables.contains(b));
                    }
                }
                if tables.contains(b) {
                    if old_tables.contains(b) {
                        assert(in_tables(h, n, bytes, before, b));
                        let k = choose|k: int|
                            0 <= k < before.len() && protects(h, n, bytes, #[trigger] before[k])
                                && before[k] * 512 <= b < before[k] * 512 + 4 * h.num_gtes_per_gt;
                        assert(after[k] == before[k]);
                    } else {
                        assert(after[i as int] == sector);
                    }
                }
            }
        }
        i += 1;
    }
    assert(named@.subrange(0, named@.len() as int) =~= named@);
    Ok(tables)
}

proof fn lemma_extent_hits(x: &Extents, bytes: Set<int>, lo: int, hi: int)
    requires
        x.wf(),
        lo < hi,
        bytes == Set::new(|b: int| x.contains(b)),
    ensures
        x.meets(lo, hi) == hits(bytes, lo, hi),
{
    x.law_meets_is_a_shared_byte(lo, hi);
    if x.meets(lo, hi) {
        let b = choose|b: int| lo <= b < hi && #[trigger] x.contains(b);
        assert(bytes.contains(b));
    }
    if hits(bytes, lo, hi) {
        let b = choose|b: int| lo <= b < hi && #[trigger] bytes.contains(b);
        assert(x.contains(b));
    }
}

/// Whether an image of `n` bytes is opened with a live redundant
/// directory, or why it is refused.
///
/// Nothing on the read path consults the redundant copies, so an image
/// whose redundant directory does not fit the file is still opened
/// read-only. Writing to it would mean updating a copy that cannot be
/// located, so a read-write open is refused. `served` says whether the
/// device served the read of a directory that fits.
pub open spec fn redundant_stage(n: int, writable: bool, h: SparseHeader, served: bool) -> Result<
    bool,
> {
    if !h.redundant() {
        Ok(false)
    } else {
        match redundant_refusal(n, h) {
            Some(e) => if writable {
                Err(e)
            } else {
                Ok(false)
            },
            None => Ok(served),
        }
    }
}

/// What opening gives once the header and the descriptor are accepted.
pub open spec fn directory_stage(
    c: Seq<u8>,
    n: int,
    writable: bool,
    h: SparseHeader,
    d: DescriptorView,
    served: bool,
    reliable: bool,
) -> Result<State> {
    match directory_refusal(n, h) {
        Some(e) => Err(e),
        None => match redundant_stage(n, writable, h, served) {
            Err(e) => Err(e),
            Ok(redundant) => {
                let fixed = fixed_bytes(h, n, redundant);
                let named = named_tables(c, h, redundant);
                if h.capacity * 512 > u64::MAX {
                    Err(Error::Corrupt("capacity*512 overflow"))
                } else if writable && tables_clash(h, n, fixed, named) {
                    Err(
                        Error::Corrupt(
                            "grain tables overlap: two directory entries name the same storage",
                        ),
                    )
                } else {
                    Ok(
                        State {
                            header: h,
                            descriptor: d,
                            contents: c,
                            cursor: div_up(n, 512),
                            redundant,
                            fixed,
                            tables: table_bytes(h, n, fixed, named),
                            floor: grain_floor(h, n),
                            writable,
                            merged: Set::empty(),
                            content_id_bumped: false,
                            unclean_marked: false,
                            reliable,
                            journal: seq![seq![c]],
                        },
                    )
                }
            },
        },
    }
}

/// What opening a device gives that holds `c` and reports `n` bytes: the
/// reader's state, or why the image is refused.
///
/// A flat or split image is not a sparse extent: the file a user is handed
/// is plain text naming the extents that hold the data. Such a file is
/// told by its text, and named.
pub open spec fn opened(c: Seq<u8>, n: int, writable: bool, served: bool, reliable: bool) -> Result<
    State,
> {
    match sparse_extent(c, n) {
        Err(e) => Err(e),
        Ok(is_sparse) => if !is_sparse {
            Err(descriptor_file_verdict(c, n))
        } else {
            match header_stage(c, n, writable) {
                Err(e) => Err(e),
                Ok(h) => match descriptor_stage(c, n, writable, h) {
                    Err(e) => Err(e),
                    Ok(d) => directory_stage(c, n, writable, h, d, served, reliable),
                },
            }
        },
    }
}

/// What is known of an attempt to open `dev`.
pub open spec fn opens_as<D: BlockRead>(
    dev: &D,
    writable: bool,
    r: Result<VmdkReader<D>>,
) -> bool {
    let c = dev.contents();
    let n = dev.size() as int;
    match r {
        Ok(reader) => {
            &&& reader.inv()
            &&& reader.in_step()
            &&& opened(c, n, writable, true, dev.reliable()) == Ok::<State, Error>(reader@) || (
            !writable && !dependable(dev) && opened(c, n, writable, false, dev.reliable()) == Ok::<
                State,
                Error,
            >(reader@))
        },
        Err(e) => opened(c, n, writable, true, dev.reliable()) == Err::<State, Error>(e)
            || failed_read(dev, e),
    }
}

/// The sectors that two directories name, one after the other.
fn both(gd: &Vec<u32>, rgd: &Option<Vec<u32>>) -> (v: Vec<u32>)
    ensures
        v@ == gd@ + (match rgd {
            Some(r) => r@,
            None => Seq::empty(),
        }),
{
    let mut v: Vec<u32> = Vec::new();
    append(&mut v, gd);
    match rgd {
        Some(r) => {
            append(&mut v, r);
        },
        None => {},
    }
    v
}

fn append(v: &mut Vec<u32>, more: &Vec<u32>)
    ensures
        final(v)@ == old(v)@ + more@,
{
    let mut i: usize = 0;
    let ghost before = v@;
    while i < more.len()
        invariant
            0 <= i <= more@.len(),
            v@ == before + more@.subrange(0, i as int),
        decreases more@.len() - i,
    {
        v.push(more[i]);
        assert(more@.subrange(0, i + 1) =~= more@.subrange(0, i as int).push(more@[i as int]));
        i += 1;
    }
    assert(more@.subrange(0, more@.len() as int) =~= more@);
}

impl<D: BlockRead> VmdkReader<D> {
    /// Open read-only on top of an arbitrary [`BlockRead`]: the read half
    /// only, since nothing on the read path needs the write half.
    pub fn open_on_device(dev: D) -> (r: Result<Self>)
        ensures
            opens_as(&dev, false, r),
            r matches Ok(reader) ==> reader.device() == dev,
    {
        Self::open_inner(dev, false)
    }

    fn open_inner(dev: D, writable: bool) -> (r: Result<Self>)
        ensures
            opens_as(&dev, writable, r),
            r matches Ok(reader) ==> reader.dev == dev,
            r matches Ok(reader) ==> reader.device() == dev,
    {
        let dev_size: u64 = dev.size_bytes();
        match looks_like_a_sparse_extent(&dev, dev_size) {
            Ok(is_sparse) => if !is_sparse {
                return Err(describe_descriptor_file(&dev, dev_size));
            },
            Err(e) => return Err(e),
        }
        let header: SparseHeader = match read_header(&dev, dev_size, writable) {
            Ok(header) => header,
            Err(e) => return Err(e),
        };
        let (descriptor, desc_at, desc_len): (Descriptor, u64, u64) = match read_descriptor(
            &dev,
            dev_size,
            writable,
            &header,
        ) {
            Ok(d) => d,
            Err(e) => return Err(e),
        };
        Self::open_directories(dev, dev_size, writable, header, descriptor, desc_at, desc_len)
    }

    /// Open the directories of an image whose header and descriptor are
    /// accepted.
    fn open_directories(
        dev: D,
        dev_size: u64,
        writable: bool,
        header: SparseHeader,
        descriptor: Descriptor,
        desc_at: u64,
        desc_len: u64,
    ) -> (r: Result<Self>)
        requires
            dev_size == dev.size(),
            header_stage(dev.contents(), dev_size as int, writable) == Ok::<SparseHeader, Error>(
                header,
            ),
            descriptor_stage(dev.contents(), dev_size as int, writable, header) == Ok::<
                DescriptorView,
                Error,
            >(descriptor@),
            desc_at == header.descriptor_offset * 512,
            desc_len == header.descriptor_size * 512,
            desc_at + desc_len <= dev.contents().len(),
        ensures
            ({
                let c = dev.contents();
                let n = dev_size as int;
                let reliable = dev.reliable();
                match r {
                    Ok(reader) => {
                        &&& reader.dev == dev
                        &&& reader.inv()
                        &&& reader.in_step()
                        &&& directory_stage(c, n, writable, header, descriptor@, true, reliable)
                            == Ok::<State, Error>(reader@) || (!writable && !dependable(&dev)
                            && directory_stage(
                            c,
                            n,
                            writable,
                            header,
                            descriptor@,
                            false,
                            reliable,
                        ) == Ok::<State, Error>(reader@))
                    },
                    Err(e) => directory_stage(
                        c,
                        n,
                        writable,
                        header,
                        descriptor@,
                        true,
                        reliable,
                    ) == Err::<State, Error>(e) || failed_read(&dev, e),
                }
            }),
    {
        proof {
            reveal(VmdkReader::in_step);
        }
        let ghost h = header;
        // Primary grain directory.
        if header.gd_offset == 0 {
            return Err(Error::Corrupt("gd_offset is zero"));
        }
        let grains_total: u64 = div_ceil(header.capacity, header.grain_size);
        let gt_count: u64 = div_ceil(grains_total, header.num_gtes_per_gt as u64);
        if gt_count > u32::MAX as u64 {
            return Err(Error::Corrupt("grain directory too large"));
        }
        let gd_at: u64 = match header.gd_offset.checked_mul(SECTOR_SIZE) {
            Some(off) => off,
            None => return Err(Error::Corrupt("gd_offset overflow")),
        };
        let gd_len: u64 = gt_count * 4;
        let gd_end: u64 = match gd_at.checked_add(gd_len) {
            Some(end) => end,
            None => return Err(Error::Corrupt("grain-directory extent overflow")),
        };
        if gd_end > dev_size {
            return Err(Error::Corrupt("grain directory extends past EOF"));
        }
        if gd_len > usize::MAX as u64 {
            return Err(Error::Unsupported(TOO_LARGE));
        }
        let gd: Vec<u32> = match read_directory(&dev, gd_at, gd_len as usize) {
            Ok(gd) => gd,
            Err(e) => return Err(e),
        };

        // The redundant grain directory, when the image has one.
        let mut rgd: Option<Vec<u32>> = None;
        let ghost mut served = true;
        if header.has_redundant_grain_directory() {
            match Self::read_redundant(&dev, dev_size, &header, gd_len as usize) {
                Ok(entries) => {
                    rgd = Some(entries);
                },
                Err(e) => {
                    if writable {
                        return Err(e);
                    }
                    proof {
                        served = redundant_refusal(dev_size as int, h) is Some;
                    }
                },
            }
        }
        let ghost redundant = rgd is Some;
        assert(redundant_stage(dev_size as int, writable, h, served) == Ok::<bool, Error>(
            redundant,
        ));
        assert(served || (!writable && !dependable(&dev)));

        let virtual_size: u64 = match header.capacity.checked_mul(SECTOR_SIZE) {
            Some(n) => n,
            None => return Err(Error::Corrupt("capacity*512 overflow")),
        };

        // Allocation cursor: round the device's current size up to the
        // next sector. Newly allocated grains and tables land at the tail.
        let alloc_cursor: u64 = div_ceil(dev_size, SECTOR_SIZE);

        // Where the grains begin. A grain-table entry is an unsigned sector
        // number with no reserved range, so a corrupt table can point a
        // grain at the header, the descriptor or a directory. A scalar
        // floor cannot describe the layout, so it is `over_head` alone, and
        // every other region is an extent a grain must not overlap.
        let dev_sectors: u64 = dev_size / SECTOR_SIZE;
        let first_grain_byte: u64 = if header.over_head <= dev_sectors && header.over_head > 1 {
            header.over_head * SECTOR_SIZE
        } else {
            SECTOR_SIZE
        };
        let gd_sectors: u64 = div_ceil(gd_len, SECTOR_SIZE);
        let mut fixed_metadata: Extents = Extents::default();
        fixed_metadata.insert(0, SECTOR_SIZE);
        add_fixed(&mut fixed_metadata, header.descriptor_offset, header.descriptor_size, dev_size);
        add_fixed(&mut fixed_metadata, header.gd_offset, gd_sectors, dev_size);
        if rgd.is_some() {
            add_fixed(&mut fixed_metadata, header.rgd_offset, gd_sectors, dev_size);
        }
        let ghost fixed = fixed_bytes(h, dev_size as int, redundant);
        assert(Set::new(|b: int| fixed_metadata.contains(b)) =~= fixed);

        let named: Vec<u32> = both(&gd, &rgd);
        assert(named@ =~= named_tables(dev.contents(), h, redundant));
        let grain_tables: Extents = match protected_tables(
            &named,
            &header,
            dev_size,
            &fixed_metadata,
            writable,
        ) {
            Ok(tables) => tables,
            Err(e) => return Err(e),
        };
        let ghost tables = table_bytes(h, dev_size as int, fixed, named@);
        assert(Set::new(|b: int| grain_tables.contains(b)) =~= tables);
        let ghost c = dev.contents();
        let ghost first: Seq<Seq<Seq<u8>>> = seq![seq![c]];
        let ghost d = descriptor@;
        let ghost reliable = dev.reliable();
        proof {
            lemma_div_up(dev_size as int, 512);
            super::state::lemma_tables_cover(h);
        }
        let reader: Self = VmdkReader {
            inflated: None,
            dev,
            header,
            descriptor,
            gd,
            rgd,
            gt_cache: GtCache { loaded: None, entries: Vec::new() },
            virtual_size,
            writable,
            alloc_cursor,
            redundant_merged: HashSet::new(),
            first_grain_byte,
            fixed_metadata,
            grain_tables,
            descriptor_extent: (desc_at, desc_len),
            content_id_bumped: false,
            unclean_marked: false,
            journal: Ghost(first),
        };
        proof {
            assert(reader@.merged =~= Set::<int>::empty());
            assert(directory_stage(c, dev_size as int, writable, h, d, served, reliable) == Ok::<
                State,
                Error,
            >(reader@));
        }
        Ok(reader)
    }

    /// Read the redundant grain directory of an image that declares one.
    fn read_redundant(dev: &D, dev_size: u64, header: &SparseHeader, len: usize) -> (r: Result<
        Vec<u32>,
    >)
        requires
            dev_size == dev.size(),
            len == 4 * table_count(*header),
        ensures
            match r {
                Ok(v) => {
                    &&& redundant_refusal(dev_size as int, *header) is None
                    &&& v@.len() == table_count(*header)
                    &&& header.rgd_offset * 512 + len <= dev.contents().len()
                    &&& forall|j: int|
                        0 <= j < v@.len() ==> #[trigger] v@[j] == entry_at(
                            dev.contents(),
                            header.rgd_offset * 512,
                            j,
                        )
                },
                Err(e) => match redundant_refusal(dev_size as int, *header) {
                    Some(f) => e == f,
                    None => failed_read(dev, e),
                },
            },
    {
        let off: u64 = match header.rgd_offset.checked_mul(SECTOR_SIZE) {
            Some(off) => off,
            None => return Err(Error::Corrupt("redundant grain directory offset overflows")),
        };
        let end: u64 = match off.checked_add(len as u64) {
            Some(end) => end,
            None => return Err(Error::Corrupt("redundant grain-directory extent overflow")),
        };
        if end > dev_size {
            return Err(Error::Corrupt("redundant grain directory extends past EOF"));
        }
        read_directory(dev, off, len)
    }
}

impl<D: BlockDevice> VmdkReader<D> {
    /// Open read-write on top of an arbitrary [`BlockDevice`]. The device
    /// must report `is_writable()`; otherwise the call returns
    /// [`Error::ReadOnly`].
    pub fn open_rw_on_device(dev: D) -> (r: Result<Self>)
        ensures
            if dev.writable() {
                opens_as(&dev, true, r)
            } else {
                r == Err::<Self, Error>(Error::ReadOnly)
            },
            r matches Ok(reader) ==> reader.limit() == dev.limit(),
            r matches Ok(reader) ==> reader.device() == dev,
    {
        if !dev.is_writable() {
            return Err(Error::ReadOnly);
        }
        Self::open_inner(dev, true)
    }
}

} // verus!
