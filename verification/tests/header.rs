use vmdk::error::Error;
use vmdk::header::{offsets, SparseHeader, HEADER_SIZE, MAGIC, MAX_GTES_PER_GT};


#[test]
fn rejects_bad_magic() {
    let bytes = [0u8; HEADER_SIZE];
    assert!(matches!(SparseHeader::parse(&bytes), Err(Error::NotVmdk)));
}

#[test]
fn parses_minimal_header() {
    let mut h = [0u8; HEADER_SIZE];
    h[0..4].copy_from_slice(&MAGIC.to_le_bytes());
    h[4..8].copy_from_slice(&1u32.to_le_bytes());
    h[12..20].copy_from_slice(&2048u64.to_le_bytes()); // capacity
    h[20..28].copy_from_slice(&128u64.to_le_bytes()); // grain_size
    h[28..36].copy_from_slice(&1u64.to_le_bytes()); // descriptor_offset
    h[36..44].copy_from_slice(&20u64.to_le_bytes()); // descriptor_size
    h[44..48].copy_from_slice(&512u32.to_le_bytes()); // num_gtes_per_gt
    h[56..64].copy_from_slice(&100u64.to_le_bytes()); // gd_offset

    let p = SparseHeader::parse(&h).unwrap();
    assert_eq!(p.version, 1);
    assert_eq!(p.capacity, 2048);
    assert_eq!(p.grain_size, 128);
    assert_eq!(p.num_gtes_per_gt, 512);
    assert_eq!(p.gd_offset, 100);
}

/// A header with every required field set to a valid value, ready to
/// be perturbed by a single test.
fn valid_header() -> [u8; HEADER_SIZE] {
    let mut h = [0u8; HEADER_SIZE];
    h[0..4].copy_from_slice(&MAGIC.to_le_bytes());
    h[4..8].copy_from_slice(&1u32.to_le_bytes());
    h[12..20].copy_from_slice(&2048u64.to_le_bytes());
    h[20..28].copy_from_slice(&128u64.to_le_bytes());
    h[28..36].copy_from_slice(&1u64.to_le_bytes());
    h[36..44].copy_from_slice(&20u64.to_le_bytes());
    h[44..48].copy_from_slice(&512u32.to_le_bytes());
    h[56..64].copy_from_slice(&100u64.to_le_bytes());
    h[64..72].copy_from_slice(&7u64.to_le_bytes()); // over_head
    h
}

#[test]
fn rejects_header_shorter_than_512_bytes() {
    let err = SparseHeader::parse(&[0u8; 100]).unwrap_err();
    assert!(matches!(err, Error::Corrupt(_)), "got {err:?}");
}

#[test]
fn rejects_zero_grain_size() {
    let mut h = valid_header();
    h[20..28].copy_from_slice(&0u64.to_le_bytes());
    let err = SparseHeader::parse(&h).unwrap_err();
    assert!(matches!(err, Error::Corrupt(_)), "got {err:?}");
}

/// The field is a `u32` with no ceiling in the format, and both the
/// read path and the write path size a buffer from it. The write
/// path is the one with no file to bound against, since the table it
/// is creating does not exist yet.
#[test]
fn rejects_a_grain_table_larger_than_any_real_image() {
    let mut h = valid_header();
    h[44..48].copy_from_slice(&(MAX_GTES_PER_GT + 1).to_le_bytes());
    match SparseHeader::parse(&h).unwrap_err() {
        Error::Corrupt(msg) => assert!(msg.contains("grain table"), "got {msg:?}"),
        other => panic!("expected Corrupt, got {other:?}"),
    }

    // The cap itself is accepted: it is a bound, not a preference.
    let mut h = valid_header();
    h[44..48].copy_from_slice(&MAX_GTES_PER_GT.to_le_bytes());
    assert_eq!(
        SparseHeader::parse(&h).unwrap().num_gtes_per_gt,
        MAX_GTES_PER_GT
    );
}

#[test]
fn rejects_zero_num_gtes_per_gt() {
    let mut h = valid_header();
    h[44..48].copy_from_slice(&0u32.to_le_bytes());
    let err = SparseHeader::parse(&h).unwrap_err();
    assert!(matches!(err, Error::Corrupt(_)), "got {err:?}");
}

#[test]
fn rejects_compressed_images() {
    // compress_algorithm @ 77..79; 1 = DEFLATE (streamOptimized).
    let mut h = valid_header();
    h[77..79].copy_from_slice(&1u16.to_le_bytes());
    match SparseHeader::parse(&h).unwrap_err() {
        Error::Unsupported(_) => {}
        other => panic!("expected Unsupported, got {other:?}"),
    }
}

/// The `flags` word is what tells a reader that entry `1` is a
/// sentinel and not a sector number, so the bit has to survive the
/// parse and be legible afterwards. It used to do the first and not
/// the second: `flags` was stored and no code ever read it.
#[test]
fn reports_whether_the_image_uses_the_zeroed_grain_marker() {
    let mut h = valid_header();
    assert!(!SparseHeader::parse(&h).unwrap().uses_zeroed_grain_marker());

    // 0x7 is what qemu writes for `zeroed_grain=on`: valid
    // newline-detection bit, redundant-GD bit, zeroed-grain bit.
    h[offsets::FLAGS..offsets::FLAGS + 4].copy_from_slice(&0x7u32.to_le_bytes());
    let p = SparseHeader::parse(&h).unwrap();
    assert_eq!(p.flags, 0x7);
    assert!(p.uses_zeroed_grain_marker());

    // Neighbouring bits must not be mistaken for it.
    h[offsets::FLAGS..offsets::FLAGS + 4].copy_from_slice(&0x3u32.to_le_bytes());
    assert!(!SparseHeader::parse(&h).unwrap().uses_zeroed_grain_marker());
}

#[test]
fn exposes_descriptor_and_directory_offsets() {
    let p = SparseHeader::parse(&valid_header()).unwrap();
    assert_eq!(p.descriptor_offset, 1);
    assert_eq!(p.descriptor_size, 20);
    assert_eq!(p.over_head, 7);
    assert_eq!(p.compress_algorithm, 0);
}
