//! Writing: through to allocated grains, into sparse ones, into grain
//! tables that do not exist yet, and what each leaves in the image.

use std::cell::RefCell;
use std::rc::Rc;

use vmdk::device::{BlockDevice, BlockRead, Bytes};
use vmdk::header::{
    offsets, FLAG_REDUNDANT_GRAIN_TABLE, FLAG_ZEROED_GRAIN, GTE_ZEROED_GRAIN, HEADER_SIZE, MAGIC,
};
use vmdk::{Result, VmdkReader};

const SECTOR: u64 = 512;

const CAPACITY_SECTORS: u64 = 2048; // 1 MiB
const GRAIN_SIZE: u64 = 128; // 64 KiB
const NUM_GTES_PER_GT: u32 = 512;
const DESC_OFF_SECTOR: u64 = 1;
const DESC_SIZE_SECTORS: u64 = 1;
const GD_OFF_SECTOR: u64 = 2;
const GT_OFF_SECTOR: u64 = 3;
const GRAIN0_OFF_SECTOR: u64 = 7;

/// A growing disk in memory that its owner can look at while a reader
/// holds it.
#[derive(Clone)]
struct Disk {
    bytes: Rc<RefCell<Vec<u8>>>,
    writable: bool,
}

impl Disk {
    fn new(bytes: Vec<u8>) -> Self {
        Disk {
            bytes: Rc::new(RefCell::new(bytes)),
            writable: true,
        }
    }

    fn image(&self) -> Vec<u8> {
        self.bytes.borrow().clone()
    }

    fn patch(&self, at: u64, bytes: &[u8]) {
        put(&mut self.bytes.borrow_mut(), at, bytes);
    }
}

impl BlockRead for Disk {
    fn read_at(&self, offset: u64, buf: &mut [u8]) -> Result<()> {
        Bytes(self.image()).read_at(offset, buf)
    }

    fn size_bytes(&self) -> u64 {
        self.bytes.borrow().len() as u64
    }
}

impl BlockDevice for Disk {
    fn write_at(&mut self, offset: u64, buf: &[u8]) -> Result<()> {
        let mut bytes = self.bytes.borrow_mut();
        let end = offset as usize + buf.len();
        if bytes.len() < end {
            bytes.resize(end, 0);
        }
        bytes[offset as usize..end].copy_from_slice(buf);
        Ok(())
    }

    fn flush(&mut self) -> Result<()> {
        Ok(())
    }

    fn is_writable(&self) -> bool {
        self.writable
    }
}

fn build_header() -> [u8; HEADER_SIZE] {
    let mut h = [0u8; HEADER_SIZE];
    h[0..4].copy_from_slice(&MAGIC.to_le_bytes());
    h[4..8].copy_from_slice(&1u32.to_le_bytes());
    h[12..20].copy_from_slice(&CAPACITY_SECTORS.to_le_bytes());
    h[20..28].copy_from_slice(&GRAIN_SIZE.to_le_bytes());
    h[28..36].copy_from_slice(&DESC_OFF_SECTOR.to_le_bytes());
    h[36..44].copy_from_slice(&DESC_SIZE_SECTORS.to_le_bytes());
    h[44..48].copy_from_slice(&NUM_GTES_PER_GT.to_le_bytes());
    h[48..56].copy_from_slice(&0u64.to_le_bytes());
    h[56..64].copy_from_slice(&GD_OFF_SECTOR.to_le_bytes());
    h[64..72].copy_from_slice(&GRAIN0_OFF_SECTOR.to_le_bytes());
    h[73] = b'\n';
    h[74] = b' ';
    h[75] = b'\r';
    h[76] = b'\n';
    h
}

fn build_descriptor_sector() -> [u8; SECTOR as usize] {
    descriptor_sector_of(2048)
}

/// The descriptor of a disk of `sectors` sectors.
fn descriptor_sector_of(sectors: u64) -> [u8; SECTOR as usize] {
    let text = format!(
        "# Disk DescriptorFile\n\
         version=1\n\
         CID=fffffffe\n\
         parentCID=ffffffff\n\
         createType=\"monolithicSparse\"\n\
         \n\
         RW {sectors} SPARSE \"synthetic.vmdk\"\n"
    );
    let mut s = [0u8; SECTOR as usize];
    s[..text.len()].copy_from_slice(text.as_bytes());
    s
}

/// Build a 1 MiB sparse VMDK whose **only** allocated cluster is grain 0
/// (linked from a populated grain table). Every other grain inside that
/// GT is sparse; the GD has just the one entry pointing at GT 0 — there
/// are no other GT slots to consider in this fixture (gt_count == 1).
fn build_grain0_only(grain0_pattern: &[u8]) -> Vec<u8> {
    let header = build_header();
    let descriptor = build_descriptor_sector();

    let mut gd_sector = [0u8; SECTOR as usize];
    gd_sector[0..4].copy_from_slice(&(GT_OFF_SECTOR as u32).to_le_bytes());

    let mut gt_bytes = vec![0u8; (NUM_GTES_PER_GT as usize) * 4];
    gt_bytes[0..4].copy_from_slice(&(GRAIN0_OFF_SECTOR as u32).to_le_bytes());

    let grain_bytes_n = (GRAIN_SIZE * SECTOR) as usize;
    assert_eq!(grain0_pattern.len(), grain_bytes_n);

    let end_of_grain0 = (GRAIN0_OFF_SECTOR + GRAIN_SIZE) * SECTOR;

    let mut f = vec![0u8; end_of_grain0 as usize];
    put(&mut f, 0, &header);
    put(&mut f, DESC_OFF_SECTOR * SECTOR, &descriptor);
    put(&mut f, GD_OFF_SECTOR * SECTOR, &gd_sector);
    put(&mut f, GT_OFF_SECTOR * SECTOR, &gt_bytes);
    put(&mut f, GRAIN0_OFF_SECTOR * SECTOR, grain0_pattern);
    f
}

/// Build a fully-sparse VMDK whose GD has TWO slots, both pointing at
/// nothing (entries == 0). One GT covers 512*128 = 65_536 sectors =
/// 32 MiB, so 64 MiB = 131_072 sectors take exactly 2 GTs.
fn build_fully_sparse_two_gts() -> Vec<u8> {
    const CAP: u64 = 131_072; // 64 MiB
    let mut h = [0u8; HEADER_SIZE];
    h[0..4].copy_from_slice(&MAGIC.to_le_bytes());
    h[4..8].copy_from_slice(&1u32.to_le_bytes());
    h[12..20].copy_from_slice(&CAP.to_le_bytes());
    h[20..28].copy_from_slice(&GRAIN_SIZE.to_le_bytes());
    h[28..36].copy_from_slice(&DESC_OFF_SECTOR.to_le_bytes());
    h[36..44].copy_from_slice(&DESC_SIZE_SECTORS.to_le_bytes());
    h[44..48].copy_from_slice(&NUM_GTES_PER_GT.to_le_bytes());
    h[56..64].copy_from_slice(&GD_OFF_SECTOR.to_le_bytes());
    h[64..72].copy_from_slice(&GRAIN0_OFF_SECTOR.to_le_bytes());
    h[73] = b'\n';
    h[74] = b' ';
    h[75] = b'\r';
    h[76] = b'\n';

    let descriptor = descriptor_sector_of(CAP);

    // GD with 2 entries, both zero. Pad to one sector.
    let gd_sector = [0u8; SECTOR as usize];

    // No GT, no grain data — file just needs to extend past the header
    // region so the alloc cursor sits somewhere sane.
    let initial_end = GRAIN0_OFF_SECTOR * SECTOR;
    let mut f = vec![0u8; initial_end as usize];
    put(&mut f, 0, &h);
    put(&mut f, DESC_OFF_SECTOR * SECTOR, &descriptor);
    put(&mut f, GD_OFF_SECTOR * SECTOR, &gd_sector);
    f
}

/// Layout for a fixture that carries a **redundant** grain directory,
/// the way every sparse VMDK qemu and VMware produce does.
///
/// The redundant copy comes first in the file, mirroring the order those
/// tools use: redundant directory, redundant table, primary directory,
/// primary table, then the grains.
const RGD_OFF_SECTOR: u64 = 2;
const RGT_OFF_SECTOR: u64 = 3; // sectors 3..6
const RGD_GD_OFF_SECTOR: u64 = 7;
const RGD_GT_OFF_SECTOR: u64 = 8; // sectors 8..11
const RGD_GRAIN0_OFF_SECTOR: u64 = 12;

/// Build a 1 MiB sparse VMDK with both grain directories present, no
/// grains allocated, and `flags` declaring the redundant copy live.
fn build_with_redundant_directory() -> Vec<u8> {
    let mut h = build_header();
    h[8..12].copy_from_slice(&FLAG_REDUNDANT_GRAIN_TABLE.to_le_bytes());
    h[48..56].copy_from_slice(&RGD_OFF_SECTOR.to_le_bytes());
    h[56..64].copy_from_slice(&RGD_GD_OFF_SECTOR.to_le_bytes());
    h[64..72].copy_from_slice(&RGD_GRAIN0_OFF_SECTOR.to_le_bytes());

    let mut rgd_sector = [0u8; SECTOR as usize];
    rgd_sector[0..4].copy_from_slice(&(RGT_OFF_SECTOR as u32).to_le_bytes());
    let mut gd_sector = [0u8; SECTOR as usize];
    gd_sector[0..4].copy_from_slice(&(RGD_GT_OFF_SECTOR as u32).to_le_bytes());

    let gt_bytes = vec![0u8; (NUM_GTES_PER_GT as usize) * 4];

    let mut f = vec![0u8; (RGD_GRAIN0_OFF_SECTOR * SECTOR) as usize];
    put(&mut f, 0, &h);
    put(&mut f, DESC_OFF_SECTOR * SECTOR, &build_descriptor_sector());
    put(&mut f, RGD_OFF_SECTOR * SECTOR, &rgd_sector);
    put(&mut f, RGT_OFF_SECTOR * SECTOR, &gt_bytes);
    put(&mut f, RGD_GD_OFF_SECTOR * SECTOR, &gd_sector);
    put(&mut f, RGD_GT_OFF_SECTOR * SECTOR, &gt_bytes);
    f
}

fn put(f: &mut [u8], at: u64, bytes: &[u8]) {
    f[at as usize..at as usize + bytes.len()].copy_from_slice(bytes);
}

fn u32_at(image: &[u8], at: u64) -> u32 {
    let at = at as usize;
    u32::from_le_bytes([image[at], image[at + 1], image[at + 2], image[at + 3]])
}

/// Read a whole grain table as sector numbers.
fn read_grain_table(image: &[u8], gt_sector: u32) -> Vec<u32> {
    (0..NUM_GTES_PER_GT as u64)
        .map(|i| u32_at(image, (gt_sector as u64) * SECTOR + i * 4))
        .collect()
}

/// Report the first grain-table entry on which two copies disagree.
/// `assert_eq!` on 512-entry tables prints both in full, which buries
/// the one number that differs.
fn assert_tables_agree(primary: &[u32], redundant: &[u32]) {
    assert_eq!(primary.len(), redundant.len(), "grain table lengths differ");
    if let Some(i) = primary.iter().zip(redundant).position(|(a, b)| a != b) {
        panic!(
            "grain table entry {i} is {} in the primary copy and {} in the redundant one",
            primary[i], redundant[i]
        );
    }
}

fn read_directory_entry(image: &[u8], dir_sector: u64, idx: u64) -> u32 {
    u32_at(image, dir_sector * SECTOR + idx * 4)
}

fn read_grain_sector_value(image: &[u8], gt_sector: u32, gte_idx: u64) -> u32 {
    u32_at(image, (gt_sector as u64) * SECTOR + gte_idx * 4)
}

fn read_gd_entry(image: &[u8], idx: u64) -> u32 {
    u32_at(image, GD_OFF_SECTOR * SECTOR + idx * 4)
}

fn read_sector(image: &[u8], sector: u64) -> Vec<u8> {
    let at = (sector * SECTOR) as usize;
    image[at..at + SECTOR as usize].to_vec()
}

fn unclean_byte(image: &[u8]) -> u8 {
    image[offsets::UNCLEAN_SHUTDOWN]
}

/// Where the eight hex digits of the descriptor's `CID=` value sit.
fn content_id_at(region: &[u8]) -> usize {
    let text = String::from_utf8_lossy(region);
    text.find("\nCID=")
        .expect("the fixture descriptor has a CID")
        + 5
}

fn content_id(region: &[u8]) -> Vec<u8> {
    let at = content_id_at(region);
    region[at..at + 8].to_vec()
}

/// The descriptor with its content identifier blanked, so two of them
/// can be compared for everything a write must *not* change.
fn without_content_id(region: &[u8]) -> Vec<u8> {
    let mut out = region.to_vec();
    let at = content_id_at(region);
    out[at..at + 8].fill(b'-');
    out
}

/// Open a copy of `image` read-only.
fn open(image: &[u8]) -> Result<VmdkReader<Bytes>> {
    VmdkReader::open_on_device(Bytes(image.to_vec()))
}

#[test]
fn on_device_round_trip_reads_match_path_open() {
    let pattern: Vec<u8> = (0u8..=255u8)
        .cycle()
        .take((GRAIN_SIZE * SECTOR) as usize)
        .collect();
    let disk = Disk::new(build_grain0_only(&pattern));

    let mut r = VmdkReader::open_on_device(disk.clone()).unwrap();
    assert!(!r.is_writable());
    assert_eq!(r.virtual_size(), CAPACITY_SECTORS * SECTOR);

    let mut buf = vec![0u8; (GRAIN_SIZE * SECTOR) as usize];
    r.read_at(0, &mut buf).unwrap();
    assert_eq!(buf, pattern);

    // A read inside the grain sees the same bytes.
    let mut buf2 = vec![0u8; 32];
    r.read_at(100, &mut buf2).unwrap();
    assert_eq!(buf2, pattern[100..132]);

    // Read-only on-device: writes must error.
    let err = r.write_at(0, &[1u8; 8]);
    assert!(matches!(err, Err(vmdk::Error::ReadOnly)));
}

#[test]
fn write_into_allocated_grain_is_writethrough() {
    let pattern: Vec<u8> = (0u8..=255u8)
        .cycle()
        .take((GRAIN_SIZE * SECTOR) as usize)
        .collect();
    let disk = Disk::new(build_grain0_only(&pattern));

    let mut r = VmdkReader::open_rw_on_device(disk.clone()).unwrap();
    assert!(r.is_writable());

    let payload = [0xDEu8, 0xAD, 0xBE, 0xEF, 0xCA, 0xFE, 0xBA, 0xBE];
    r.write_at(2000, &payload).unwrap();
    r.flush().unwrap();

    // Read back through the same reader.
    let mut readback = [0u8; 8];
    r.read_at(2000, &mut readback).unwrap();
    assert_eq!(readback, payload);

    // And independently confirm the on-disk grain bytes mutated where
    // expected — grain 0 sits at sector 7, so virtual byte 2000 lands
    // at host byte 7*512 + 2000 = 5584.
    drop(r);
    assert_eq!(disk.image()[7 * 512 + 2000..7 * 512 + 2008], payload);

    // The GT entry for grain 0 must NOT have moved.
    assert_eq!(
        read_grain_sector_value(&disk.image(), GT_OFF_SECTOR as u32, 0),
        GRAIN0_OFF_SECTOR as u32,
        "write-through must not relocate an allocated grain"
    );
}

#[test]
fn write_into_sparse_grain_allocates_and_updates_gt() {
    let pattern = vec![0u8; (GRAIN_SIZE * SECTOR) as usize];
    let disk = Disk::new(build_grain0_only(&pattern));

    // Grain 1 starts at virtual byte 64 KiB and is sparse in this fixture.
    let virt = GRAIN_SIZE * SECTOR; // 65_536
    let payload: Vec<u8> = (0..200u32).map(|i| (i & 0xff) as u8).collect();

    // Pre-write: GT entry for grain 1 must be 0.
    assert_eq!(read_grain_sector_value(&disk.image(), GT_OFF_SECTOR as u32, 1), 0);

    let mut r = VmdkReader::open_rw_on_device(disk.clone()).unwrap();
    r.write_at(virt + 100, &payload).unwrap();
    r.flush().unwrap();

    // Read back the payload.
    let mut readback = vec![0u8; payload.len()];
    r.read_at(virt + 100, &mut readback).unwrap();
    assert_eq!(readback, payload);

    // Bytes inside the same grain that we didn't write must read as zero
    // (the spec's "absent grain reads zero" carries over to a freshly
    // allocated grain — we zero-init on partial writes).
    let mut zeros = vec![0xFFu8; 100];
    r.read_at(virt, &mut zeros).unwrap();
    assert!(zeros.iter().all(|&b| b == 0), "head of grain must be zero");

    drop(r);

    // GT entry for grain 1 must now point at a newly allocated grain
    // past the end of grain 0.
    let new_grain_sector = read_grain_sector_value(&disk.image(), GT_OFF_SECTOR as u32, 1);
    let end_of_grain0_sector = GRAIN0_OFF_SECTOR + GRAIN_SIZE;
    assert!(
        new_grain_sector as u64 >= end_of_grain0_sector,
        "new grain must land past existing data; got sector {new_grain_sector}"
    );
}

#[test]
fn multi_grain_write_spans_allocated_and_sparse() {
    let pattern: Vec<u8> = (0u8..=255u8)
        .cycle()
        .take((GRAIN_SIZE * SECTOR) as usize)
        .collect();
    let disk = Disk::new(build_grain0_only(&pattern));

    let mut r = VmdkReader::open_rw_on_device(disk.clone()).unwrap();

    // Span the last 1024 bytes of grain 0 (allocated) and the first 1024
    // bytes of grain 1 (sparse → allocate). Total 2 KiB.
    let grain_bytes = (GRAIN_SIZE * SECTOR) as usize;
    let start = grain_bytes as u64 - 1024;
    let payload: Vec<u8> = (0u32..2048).map(|i| ((i ^ 0x5A) & 0xff) as u8).collect();
    r.write_at(start, &payload).unwrap();
    r.flush().unwrap();

    // Read back via the reader.
    let mut readback = vec![0u8; payload.len()];
    r.read_at(start, &mut readback).unwrap();
    assert_eq!(readback, payload);

    // The remainder of grain 0 (the 1024 bytes BEFORE the write) must
    // still match the original pattern.
    let head_off: u64 = 0;
    let head_len = grain_bytes - 1024;
    let mut head = vec![0u8; head_len];
    r.read_at(head_off, &mut head).unwrap();
    assert_eq!(head, pattern[..head_len]);

    drop(r);

    // GT entry for grain 1 was sparse and is now populated. Grain 0's
    // entry is unchanged.
    assert_eq!(
        read_grain_sector_value(&disk.image(), GT_OFF_SECTOR as u32, 0),
        GRAIN0_OFF_SECTOR as u32
    );
    let g1 = read_grain_sector_value(&disk.image(), GT_OFF_SECTOR as u32, 1);
    assert!(g1 >= (GRAIN0_OFF_SECTOR + GRAIN_SIZE) as u32);
}

#[test]
fn write_into_grain_with_unallocated_gt_allocates_table_too() {
    let disk = Disk::new(build_fully_sparse_two_gts());

    // Pre-write: both GD entries are zero.
    assert_eq!(read_gd_entry(&disk.image(), 0), 0);
    assert_eq!(read_gd_entry(&disk.image(), 1), 0);

    // Pick a virtual offset inside GT slot 1: GT 0 covers
    // 512 * 64 KiB = 32 MiB of virtual address space. Anything past
    // that lands in GT 1.
    let virt: u64 = 32 * 1024 * 1024 + 4096; // 32 MiB + 4 KiB

    let mut r = VmdkReader::open_rw_on_device(disk.clone()).unwrap();

    let payload = [0xABu8; 256];
    r.write_at(virt, &payload).unwrap();
    r.flush().unwrap();

    // Read back through the reader.
    let mut readback = [0u8; 256];
    r.read_at(virt, &mut readback).unwrap();
    assert_eq!(readback, payload);

    // A read inside GT 0's range still returns zeros — we only allocated
    // GT 1.
    let mut zeros = [0xFFu8; 64];
    r.read_at(0, &mut zeros).unwrap();
    assert!(zeros.iter().all(|&b| b == 0));

    drop(r);

    // GD slot 1 must now point at a real GT sector. GD slot 0 stays zero.
    assert_eq!(read_gd_entry(&disk.image(), 0), 0);
    let new_gt = read_gd_entry(&disk.image(), 1);
    assert!(new_gt > 0, "GT for slot 1 must be allocated");

    // The allocated GT's first entry should be 0; the entry for the
    // grain we wrote must point at a real grain sector.
    // virt / 64 KiB is grain index 512, so gte_idx in GT 1 is 0.
    let new_grain_for_first_entry = read_grain_sector_value(&disk.image(), new_gt, 0);
    assert!(
        new_grain_for_first_entry > 0,
        "newly allocated GT entry [0] must point at the new grain"
    );
}

#[test]
fn write_into_a_zeroed_grain_allocates_rather_than_overwriting_the_descriptor() {
    let pattern: Vec<u8> = (0u8..=255u8)
        .cycle()
        .take((GRAIN_SIZE * SECTOR) as usize)
        .collect();
    let disk = Disk::new(build_grain0_only(&pattern));
    disk.patch(offsets::FLAGS as u64, &FLAG_ZEROED_GRAIN.to_le_bytes());
    disk.patch(GT_OFF_SECTOR * SECTOR + 4, &GTE_ZEROED_GRAIN.to_le_bytes());

    // What the descriptor sector holds before the write.
    let descriptor_before = read_sector(&disk.image(), DESC_OFF_SECTOR);
    assert!(
        descriptor_before.starts_with(b"# Disk DescriptorFile"),
        "fixture precondition: sector 1 is the descriptor"
    );

    let payload = [0x5Au8; 4096];
    let mut r = VmdkReader::open_rw_on_device(disk.clone()).unwrap();
    r.write_at(GRAIN_SIZE * SECTOR, &payload).unwrap();
    r.flush().unwrap();

    let mut readback = [0u8; 4096];
    r.read_at(GRAIN_SIZE * SECTOR, &mut readback).unwrap();
    assert_eq!(readback, payload, "the write must be readable back");

    // The rest of the grain still reads as zero: allocating over a
    // zeroed-grain marker has to preserve what the marker promised.
    let mut tail = [0xFFu8; 512];
    r.read_at(GRAIN_SIZE * SECTOR + 4096, &mut tail).unwrap();
    assert!(tail.iter().all(|&b| b == 0));
    drop(r);

    let descriptor_after = read_sector(&disk.image(), DESC_OFF_SECTOR);
    assert_eq!(
        without_content_id(&descriptor_before),
        without_content_id(&descriptor_after),
        "the write landed on the embedded descriptor at sector 1"
    );
    // The one part of the descriptor a write is *supposed* to change.
    assert_ne!(
        content_id(&descriptor_before),
        content_id(&descriptor_after),
        "a write must change the content identifier"
    );

    // The grain-table entry must now name a real grain, past the metadata.
    let entry = read_grain_sector_value(&disk.image(), GT_OFF_SECTOR as u32, 1);
    assert!(
        entry > GRAIN0_OFF_SECTOR as u32,
        "the marker must be replaced by a freshly allocated grain, got {entry}"
    );
}

#[test]
fn a_write_updates_both_copies_of_the_grain_table() {
    let disk = Disk::new(build_with_redundant_directory());

    let payload = [0x7Eu8; 4096];
    let mut r = VmdkReader::open_rw_on_device(disk.clone()).unwrap();
    // Grain 3 — sparse, in a grain table that already exists in both
    // directories.
    r.write_at(3 * GRAIN_SIZE * SECTOR, &payload).unwrap();
    r.flush().unwrap();
    drop(r);

    let primary = read_grain_table(&disk.image(), RGD_GT_OFF_SECTOR as u32);
    let redundant = read_grain_table(&disk.image(), RGT_OFF_SECTOR as u32);
    assert!(primary[3] != 0, "the primary table must name the new grain");
    assert_tables_agree(&primary, &redundant);

    // And the data is still readable, i.e. the mirror did not scribble
    // over the grain it was describing.
    let mut r = open(&disk.image()).unwrap();
    let mut got = [0u8; 4096];
    r.read_at(3 * GRAIN_SIZE * SECTOR, &mut got).unwrap();
    assert_eq!(got, payload);
}

#[test]
fn an_allocated_grain_table_appears_in_both_directories() {
    let disk = Disk::new(build_with_redundant_directory());
    // Empty both directory slots so the write has to allocate a table.
    let zeroed = [0u8; 4];
    disk.patch(RGD_OFF_SECTOR * SECTOR, &zeroed);
    disk.patch(RGD_GD_OFF_SECTOR * SECTOR, &zeroed);

    let payload = [0x5Cu8; 512];
    let mut r = VmdkReader::open_rw_on_device(disk.clone()).unwrap();
    r.write_at(0, &payload).unwrap();
    r.flush().unwrap();
    drop(r);

    let primary_gt = read_directory_entry(&disk.image(), RGD_GD_OFF_SECTOR, 0);
    let redundant_gt = read_directory_entry(&disk.image(), RGD_OFF_SECTOR, 0);
    assert!(primary_gt != 0, "the primary directory must name a table");
    assert!(
        redundant_gt != 0,
        "the redundant directory has no grain table for a slot the primary does"
    );
    assert_ne!(
        primary_gt, redundant_gt,
        "the two copies must be distinct tables, not the same one twice"
    );
    assert_tables_agree(
        &read_grain_table(&disk.image(), primary_gt),
        &read_grain_table(&disk.image(), redundant_gt),
    );
}

#[test]
fn an_unreachable_redundant_directory_reads_but_refuses_to_open_rw() {
    let disk = Disk::new(build_with_redundant_directory());
    disk.patch(48, &1_000_000u64.to_le_bytes());

    open(&disk.image()).expect("a read-only open does not need the redundant copy");
    let err = VmdkReader::open_rw_on_device(disk.clone())
        .err()
        .expect("expected a refusal, got Ok");
    assert!(
        err.message().contains("redundant grain directory"),
        "the refusal must name the redundant directory, got {err:?}"
    );
}

#[test]
fn open_readonly_rejects_writes() {
    let pattern = vec![0u8; (GRAIN_SIZE * SECTOR) as usize];
    let disk = Disk::new(build_grain0_only(&pattern));

    let mut r = open(&disk.image()).unwrap();
    let err = r.write_at(0, &[1u8; 4]);
    assert!(matches!(err, Err(vmdk::Error::ReadOnly)));
}

#[test]
fn open_rw_on_device_refuses_readonly_inner() {
    let pattern = vec![0u8; (GRAIN_SIZE * SECTOR) as usize];
    let disk = Disk::new(build_grain0_only(&pattern));

    let mut read_only = disk.clone();
    read_only.writable = false;
    let err = VmdkReader::open_rw_on_device(read_only);
    assert!(matches!(err, Err(vmdk::Error::ReadOnly)));
}

#[test]
fn the_unclean_shutdown_marker_stands_between_a_write_and_a_flush() {
    let pattern = vec![0u8; (GRAIN_SIZE * SECTOR) as usize];
    let disk = Disk::new(build_grain0_only(&pattern));
    assert_eq!(unclean_byte(&disk.image()), 0, "fixture precondition");

    let mut r = VmdkReader::open_rw_on_device(disk.clone()).unwrap();
    let mut probe = [0u8; 16];
    r.read_at(0, &mut probe).unwrap();
    assert_eq!(
        unclean_byte(&disk.image()),
        0,
        "opening read-write and only reading must not modify the image"
    );

    r.write_at(0, &[0x11u8; 512]).unwrap();
    assert_eq!(
        unclean_byte(&disk.image()),
        1,
        "a write with no flush behind it must leave the marker standing"
    );

    r.flush().unwrap();
    assert_eq!(
        unclean_byte(&disk.image()),
        0,
        "a clean flush must lower the marker"
    );

    // And it goes back up for the next write.
    r.write_at(1024, &[0x22u8; 512]).unwrap();
    assert_eq!(unclean_byte(&disk.image()), 1);
    r.flush().unwrap();
    assert_eq!(unclean_byte(&disk.image()), 0);
    drop(r);

    // The image is still readable, and the header still parses.
    let mut r = open(&disk.image()).unwrap();
    assert_eq!(r.header().unclean_shutdown, 0);
    let mut got = [0u8; 512];
    r.read_at(0, &mut got).unwrap();
    assert_eq!(got, [0x11u8; 512]);
}
