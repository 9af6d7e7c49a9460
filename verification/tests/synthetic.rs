//! End-to-end tests on hand-crafted monolithic-sparse images.
//!
//! ```text
//!   sector 0       sparse extent header (512 bytes)
//!   sector 1       embedded descriptor text (1 sector)
//!   sector 2       primary grain directory (1 entry, padded to a sector)
//!   sectors 3..6   grain table 0 (512 entries of 4 bytes = 4 sectors)
//!   sectors 7..134 grain 0 data (128 sectors = 64 KiB)
//! ```

use vmdk::device::Bytes;
use vmdk::header::{HEADER_SIZE, MAGIC};
use vmdk::{Result, VmdkReader};

const SECTOR: u64 = 512;

/// Layout constants shared by every fixture. Values chosen to make the
/// math obvious — single GT, grain 0 lands at a clean sector.
const CAPACITY_SECTORS: u64 = 2048; // 1 MiB
const GRAIN_SIZE: u64 = 128;        // 64 KiB
const NUM_GTES_PER_GT: u32 = 512;
const DESC_OFF_SECTOR: u64 = 1;
const DESC_SIZE_SECTORS: u64 = 1;
const GD_OFF_SECTOR: u64 = 2;
const GT_OFF_SECTOR: u64 = 3; // sectors 3..6
const GRAIN0_OFF_SECTOR: u64 = 7; // first grain at sector 7

fn build_header() -> [u8; HEADER_SIZE] {
    let mut h = [0u8; HEADER_SIZE];
    h[0..4].copy_from_slice(&MAGIC.to_le_bytes());
    h[4..8].copy_from_slice(&1u32.to_le_bytes()); // version
    h[8..12].copy_from_slice(&0u32.to_le_bytes()); // flags
    h[12..20].copy_from_slice(&CAPACITY_SECTORS.to_le_bytes());
    h[20..28].copy_from_slice(&GRAIN_SIZE.to_le_bytes());
    h[28..36].copy_from_slice(&DESC_OFF_SECTOR.to_le_bytes());
    h[36..44].copy_from_slice(&DESC_SIZE_SECTORS.to_le_bytes());
    h[44..48].copy_from_slice(&NUM_GTES_PER_GT.to_le_bytes());
    h[48..56].copy_from_slice(&0u64.to_le_bytes()); // rgd_offset (none)
    h[56..64].copy_from_slice(&GD_OFF_SECTOR.to_le_bytes());
    h[64..72].copy_from_slice(&GRAIN0_OFF_SECTOR.to_le_bytes()); // overhead
    // Standard VMDK end-of-line markers (cosmetic; reader doesn't care).
    h[73] = b'\n';
    h[74] = b' ';
    h[75] = b'\r';
    h[76] = b'\n';
    // compress_algorithm @ 77..79 = 0 (none).
    h
}

fn build_descriptor_sector() -> [u8; SECTOR as usize] {
    let text = "# Disk DescriptorFile\n\
                version=1\n\
                CID=fffffffe\n\
                parentCID=ffffffff\n\
                createType=\"monolithicSparse\"\n\
                \n\
                RW 2048 SPARSE \"synthetic.vmdk\"\n\
                \n\
                ddb.adapterType = \"ide\"\n\
                ddb.geometry.cylinders = \"2\"\n\
                ddb.geometry.heads = \"16\"\n\
                ddb.geometry.sectors = \"63\"\n";
    let mut s = [0u8; SECTOR as usize];
    s[..text.len()].copy_from_slice(text.as_bytes());
    s
}

/// Build a 1 MiB sparse VMDK. If `allocate_grain0` is true, grain 0 is
/// linked from the grain table and filled with `grain_pattern`. Otherwise
/// no grains are allocated (every read should return zero).
fn build_vmdk(allocate_grain0: bool, grain_pattern: &[u8]) -> Vec<u8> {
    let header = build_header();
    let descriptor = build_descriptor_sector();

    // Grain directory: 1 entry pointing at GT 0.
    let mut gd_sector = [0u8; SECTOR as usize];
    let gt_sector_le = (GT_OFF_SECTOR as u32).to_le_bytes();
    gd_sector[0..4].copy_from_slice(&gt_sector_le);

    // Grain table: 512 entries × 4 bytes = 2048 bytes (4 sectors).
    let mut gt_bytes = vec![0u8; (NUM_GTES_PER_GT as usize) * 4];
    if allocate_grain0 {
        let g0_le = (GRAIN0_OFF_SECTOR as u32).to_le_bytes();
        gt_bytes[0..4].copy_from_slice(&g0_le);
    }

    // Grain data — 128 sectors = 65536 bytes.
    let grain_bytes = (GRAIN_SIZE * SECTOR) as usize;
    assert_eq!(grain_pattern.len(), grain_bytes);

    // Total file length: at minimum needs to cover end of grain 0.
    let end_of_grain0 = (GRAIN0_OFF_SECTOR + GRAIN_SIZE) * SECTOR;

    let mut f = vec![0u8; end_of_grain0 as usize];
    put(&mut f, 0, &header);
    put(&mut f, DESC_OFF_SECTOR * SECTOR, &descriptor);
    put(&mut f, GD_OFF_SECTOR * SECTOR, &gd_sector);
    put(&mut f, GT_OFF_SECTOR * SECTOR, &gt_bytes);
    if allocate_grain0 {
        put(&mut f, GRAIN0_OFF_SECTOR * SECTOR, grain_pattern);
    }
    f
}

fn put(f: &mut [u8], at: u64, bytes: &[u8]) {
    f[at as usize..at as usize + bytes.len()].copy_from_slice(bytes);
}

/// Open a copy of `image` read-only.
fn open(image: &[u8]) -> Result<VmdkReader<Bytes>> {
    VmdkReader::open_on_device(Bytes(image.to_vec()))
}

// ---------------------------------------------------------------------------
// Tests
// ---------------------------------------------------------------------------

#[test]
fn opens_and_reports_virtual_size() {
    let pattern = vec![0u8; (GRAIN_SIZE * SECTOR) as usize];
    let image = build_vmdk(true, &pattern);

    let r = open(&image).unwrap();
    assert_eq!(r.virtual_size(), CAPACITY_SECTORS * SECTOR);
    assert_eq!(r.grain_size_bytes(), GRAIN_SIZE * SECTOR);
}

#[test]
fn allocated_grain_round_trip() {
    let grain_bytes = (GRAIN_SIZE * SECTOR) as usize;
    let pattern: Vec<u8> = (0u8..=255u8).cycle().take(grain_bytes).collect();
    let image = build_vmdk(true, &pattern);

    let mut r = open(&image).unwrap();

    // Read the entire grain back.
    let mut buf = vec![0u8; grain_bytes];
    r.read_at(0, &mut buf).unwrap();
    assert_eq!(buf, pattern);

    // A short read crossing two sectors inside the grain.
    let mut buf2 = vec![0u8; 200];
    r.read_at(500, &mut buf2).unwrap();
    assert_eq!(&buf2[..], &pattern[500..700]);
}

#[test]
fn unallocated_grain_reads_zero() {
    let pattern = vec![0xFFu8; (GRAIN_SIZE * SECTOR) as usize];
    // Allocate grain 0 only — every other grain in the GT is null.
    let image = build_vmdk(true, &pattern);

    let mut r = open(&image).unwrap();

    // Grain 1 starts at virtual byte 64 KiB and is unallocated.
    let mut buf = vec![0xAAu8; 4096];
    r.read_at(GRAIN_SIZE * SECTOR, &mut buf).unwrap();
    assert!(buf.iter().all(|&b| b == 0), "unallocated grain must read as zero");
}

#[test]
fn whole_image_unallocated_reads_zero() {
    // No grains allocated at all — exercises the "gt_sector != 0 but
    // gt[gte] == 0" path AND happens to also exercise the per-grain
    // zero-fill loop.
    let pattern = vec![0u8; (GRAIN_SIZE * SECTOR) as usize];
    let image = build_vmdk(false, &pattern);

    let mut r = open(&image).unwrap();
    let mut buf = vec![0xCDu8; 8192];
    r.read_at(0, &mut buf).unwrap();
    assert!(buf.iter().all(|&b| b == 0));
}

#[test]
fn read_past_end_errors() {
    let pattern = vec![0u8; (GRAIN_SIZE * SECTOR) as usize];
    let image = build_vmdk(true, &pattern);

    let mut r = open(&image).unwrap();
    let mut buf = [0u8; 16];
    let err = r
        .read_at(CAPACITY_SECTORS * SECTOR - 8, &mut buf)
        .unwrap_err();
    assert!(matches!(err, vmdk::Error::OutOfBounds { .. }));
}

#[test]
fn rejects_non_monolithic_sparse() {
    // Same layout but the descriptor says monolithicFlat. Should fail
    // open with Unsupported.
    let header = build_header();

    let mut desc = [0u8; SECTOR as usize];
    let text = "createType=\"monolithicFlat\"\nRW 2048 FLAT \"x.vmdk\" 0\n";
    desc[..text.len()].copy_from_slice(text.as_bytes());

    let mut f = vec![0u8; ((GRAIN0_OFF_SECTOR + GRAIN_SIZE) * SECTOR) as usize];
    put(&mut f, 0, &header);
    put(&mut f, DESC_OFF_SECTOR * SECTOR, &desc);

    match open(&f) {
        Err(vmdk::Error::Unsupported(_)) => {}
        Err(other) => panic!("expected Unsupported, got {other:?}"),
        Ok(_) => panic!("expected Unsupported, got Ok"),
    }
}
