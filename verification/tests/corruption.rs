//! Corrupting one header field, or the descriptor, of a valid 1 MiB image,
//! and writing, reopening and reading one.
//!
//! ```text
//!   sector 0       sparse extent header
//!   sector 1       embedded descriptor
//!   sector 2       grain directory (1 entry)
//!   sectors 3..6   grain table 0 (512 entries)
//!   sectors 7..134 grain 0 data (64 KiB)
//! ```

use std::cell::RefCell;
use std::rc::Rc;

use vmdk::device::{BlockDevice, BlockRead, Bytes};
use vmdk::header::{HEADER_SIZE, MAGIC};
use vmdk::{Error, Result, VmdkReader};

const SECTOR: u64 = 512;
const CAPACITY_SECTORS: u64 = 2048; // 1 MiB
const GRAIN_SIZE: u64 = 128; // 64 KiB
const NUM_GTES_PER_GT: u32 = 512;
const DESC_OFF_SECTOR: u64 = 1;
const DESC_SIZE_SECTORS: u64 = 1;
const GD_OFF_SECTOR: u64 = 2;
const GT_OFF_SECTOR: u64 = 3;
const GRAIN0_OFF_SECTOR: u64 = 7;
const FILE_LEN: u64 = (GRAIN0_OFF_SECTOR + GRAIN_SIZE) * SECTOR;

// Header field offsets corrupted by individual tests, taken from the
// parser's own table rather than restated here.
const OFF_DESC_OFFSET: u64 = vmdk::header::offsets::DESCRIPTOR_OFFSET as u64;
const OFF_DESC_SIZE: u64 = vmdk::header::offsets::DESCRIPTOR_SIZE as u64;
const OFF_GD_OFFSET: u64 = vmdk::header::offsets::GD_OFFSET as u64;

/// A growing disk in memory that its owner can look at while a reader
/// holds it.
#[derive(Clone)]
struct Disk {
    bytes: Rc<RefCell<Vec<u8>>>,
    writable: bool,
}

impl Disk {
    fn new(bytes: Vec<u8>) -> Self {
        Disk {
            bytes: Rc::new(RefCell::new(bytes)),
            writable: true,
        }
    }

    fn image(&self) -> Vec<u8> {
        self.bytes.borrow().clone()
    }
}

impl BlockRead for Disk {
    fn read_at(&self, offset: u64, buf: &mut [u8]) -> Result<()> {
        Bytes(self.image()).read_at(offset, buf)
    }

    fn size_bytes(&self) -> u64 {
        self.bytes.borrow().len() as u64
    }
}

impl BlockDevice for Disk {
    fn write_at(&mut self, offset: u64, buf: &[u8]) -> Result<()> {
        let mut bytes = self.bytes.borrow_mut();
        let end = offset as usize + buf.len();
        if bytes.len() < end {
            bytes.resize(end, 0);
        }
        bytes[offset as usize..end].copy_from_slice(buf);
        Ok(())
    }

    fn flush(&mut self) -> Result<()> {
        Ok(())
    }

    fn is_writable(&self) -> bool {
        self.writable
    }
}

fn build_header() -> [u8; HEADER_SIZE] {
    let mut h = [0u8; HEADER_SIZE];
    h[0..4].copy_from_slice(&MAGIC.to_le_bytes());
    h[4..8].copy_from_slice(&1u32.to_le_bytes());
    h[12..20].copy_from_slice(&CAPACITY_SECTORS.to_le_bytes());
    h[20..28].copy_from_slice(&GRAIN_SIZE.to_le_bytes());
    h[28..36].copy_from_slice(&DESC_OFF_SECTOR.to_le_bytes());
    h[36..44].copy_from_slice(&DESC_SIZE_SECTORS.to_le_bytes());
    h[44..48].copy_from_slice(&NUM_GTES_PER_GT.to_le_bytes());
    h[56..64].copy_from_slice(&GD_OFF_SECTOR.to_le_bytes());
    h[64..72].copy_from_slice(&GRAIN0_OFF_SECTOR.to_le_bytes());
    h
}

fn descriptor_sector() -> [u8; SECTOR as usize] {
    let text = "createType=\"monolithicSparse\"\nRW 2048 SPARSE \"corrupt.vmdk\"\n";
    let mut s = [0u8; SECTOR as usize];
    s[..text.len()].copy_from_slice(text.as_bytes());
    s
}

/// A snapshot delta's descriptor: same `createType` as the baseline, but
/// it names a parent, so the grains it doesn't own live in that parent.
fn delta_descriptor_sector() -> [u8; SECTOR as usize] {
    let text = "createType=\"monolithicSparse\"\n\
                parentCID=fffffffd\n\
                parentFileNameHint=\"corrupt.vmdk\"\n\
                RW 2048 SPARSE \"corrupt-000001.vmdk\"\n";
    let mut s = [0u8; SECTOR as usize];
    s[..text.len()].copy_from_slice(text.as_bytes());
    s
}

/// Write a valid monolithicSparse VMDK with grain 0 allocated.
fn build_valid() -> Vec<u8> {
    let mut f = vec![0u8; FILE_LEN as usize];
    write_at(&mut f, 0, &build_header());
    write_at(&mut f, DESC_OFF_SECTOR * SECTOR, &descriptor_sector());

    let mut gd = [0u8; SECTOR as usize];
    gd[0..4].copy_from_slice(&(GT_OFF_SECTOR as u32).to_le_bytes());
    write_at(&mut f, GD_OFF_SECTOR * SECTOR, &gd);

    let mut gt = vec![0u8; NUM_GTES_PER_GT as usize * 4];
    gt[0..4].copy_from_slice(&(GRAIN0_OFF_SECTOR as u32).to_le_bytes());
    write_at(&mut f, GT_OFF_SECTOR * SECTOR, &gt);

    let grain: Vec<u8> = (0..(GRAIN_SIZE * SECTOR))
        .map(|i| (i & 0xFF) as u8)
        .collect();
    write_at(&mut f, GRAIN0_OFF_SECTOR * SECTOR, &grain);
    f
}

fn write_at(f: &mut Vec<u8>, off: u64, buf: &[u8]) {
    f[off as usize..off as usize + buf.len()].copy_from_slice(buf);
}

/// Open a copy of `image` read-only.
fn open(image: &[u8]) -> Result<VmdkReader<Bytes>> {
    VmdkReader::open_on_device(Bytes(image.to_vec()))
}

#[test]
fn valid_image_opens_and_reads_grain() {
    let image = build_valid();
    let mut r = open(&image).unwrap();
    assert_eq!(r.virtual_size(), CAPACITY_SECTORS * SECTOR);
    let mut buf = [0u8; 8];
    r.read_at(0, &mut buf).unwrap();
    assert_eq!(buf, [0, 1, 2, 3, 4, 5, 6, 7]);
}

#[test]
fn missing_descriptor_offset_is_unsupported() {
    let mut image = build_valid();
    write_at(&mut image, OFF_DESC_OFFSET, &0u64.to_le_bytes());
    match open(&image) {
        Err(Error::Unsupported(_)) => {}
        other => panic!("expected Unsupported, got {:?}", other.err()),
    }
}

#[test]
fn descriptor_extending_past_eof_is_corrupt() {
    let mut image = build_valid();
    write_at(&mut image, OFF_DESC_SIZE, &100_000u64.to_le_bytes());
    match open(&image) {
        Err(Error::Corrupt(_)) => {}
        other => panic!("expected Corrupt, got {:?}", other.err()),
    }
}

#[test]
fn zero_grain_directory_offset_is_corrupt() {
    let mut image = build_valid();
    write_at(&mut image, OFF_GD_OFFSET, &0u64.to_le_bytes());
    match open(&image) {
        Err(Error::Corrupt(_)) => {}
        other => panic!("expected Corrupt, got {:?}", other.err()),
    }
}

#[test]
fn grain_directory_past_eof_is_corrupt() {
    let mut image = build_valid();
    write_at(&mut image, OFF_GD_OFFSET, &100_000u64.to_le_bytes());
    match open(&image) {
        Err(Error::Corrupt(_)) => {}
        other => panic!("expected Corrupt, got {:?}", other.err()),
    }
}

#[test]
fn non_utf8_descriptor_is_corrupt() {
    let mut image = build_valid();
    // Overwrite the descriptor sector with invalid UTF-8 bytes.
    write_at(&mut image, DESC_OFF_SECTOR * SECTOR, &[0xFFu8; 64]);
    match open(&image) {
        Err(Error::Corrupt(_)) => {}
        other => panic!("expected Corrupt, got {:?}", other.err()),
    }
}

#[test]
fn write_into_sparse_grain_persists_across_reopen() {
    let image = build_valid();

    // Grain 0 is allocated; grain 1 (virtual offset 64 KiB) is sparse.
    // Writing into it must allocate a grain and survive a reopen.
    let virt = GRAIN_SIZE * SECTOR; // 64 KiB — start of grain 1
    let payload = [0x5Au8; 4096];
    let disk = Disk::new(image);
    {
        let mut r = VmdkReader::open_rw_on_device(disk.clone()).unwrap();
        r.write_at(virt + 1024, &payload).unwrap();
        r.flush().unwrap();
    }

    let mut r2 = open(&disk.image()).unwrap();
    let mut got = [0u8; 4096];
    r2.read_at(virt + 1024, &mut got).unwrap();
    assert_eq!(got, payload);
    // Rest of the freshly-allocated grain reads as zero.
    let mut head = [0u8; 1024];
    r2.read_at(virt, &mut head).unwrap();
    assert!(head.iter().all(|&b| b == 0));
}

#[test]
fn delta_disk_declaring_a_parent_is_refused_at_open() {
    // The image is structurally a perfectly good monolithicSparse VMDK —
    // only the descriptor's parent linkage says the data isn't all here.
    // Opening it would report the full virtual size and serve zeros for
    // every grain the delta doesn't own, which a caller cannot detect.
    let mut image = build_valid();
    write_at(&mut image, DESC_OFF_SECTOR * SECTOR, &delta_descriptor_sector());
    match open(&image) {
        Err(Error::Unsupported(msg)) => {
            assert!(
                msg.contains("parent"),
                "message must name the parent: {msg}"
            )
        }
        Ok(r) => panic!(
            "delta disk opened as a standalone {}-byte image — every grain it \
             does not own would silently read as zeros",
            r.virtual_size()
        ),
        Err(other) => panic!("expected Unsupported for a delta disk, got {other:?}"),
    }
}

const OFF_GRAIN_SIZE: u64 = vmdk::header::offsets::GRAIN_SIZE as u64;
const OFF_NUM_GTES_PER_GT: u64 = vmdk::header::offsets::NUM_GTES_PER_GT as u64;
const OFF_VERSION: u64 = vmdk::header::offsets::VERSION as u64;

#[test]
fn a_grain_size_that_multiplies_out_to_zero_is_refused_at_open() {
    let mut image = build_valid();
    write_at(&mut image, OFF_GRAIN_SIZE, &(1u64 << 55).to_le_bytes());

    let outcome = open(&image);
    assert!(
        outcome.is_err(),
        "a grain size of 2^55 sectors -- 2^64 bytes, which is zero -- was accepted"
    );
}

#[test]
fn a_grain_table_claiming_more_than_the_file_is_refused_by_name() {
    let mut image = build_valid();
    write_at(&mut image, OFF_NUM_GTES_PER_GT, &0x4000_0000u32.to_le_bytes());

    // The open may well succeed -- the grain directory is unchanged --
    // so the refusal has to come when the table is loaded.
    let why = match open(&image) {
        Err(e) => format!("{e:?}"),
        Ok(mut r) => {
            let mut buf = [0u8; 512];
            format!("{:?}", r.read_at(0, &mut buf).err())
        }
    };
    assert!(
        why.contains("grain table"),
        "a grain table of 4 GiB in a 68 KiB file was refused as {why}, which \
         means the buffer was allocated and read first"
    );
}

#[test]
fn a_one_sector_write_does_not_allocate_whatever_the_header_asks_for() {
    let mut image = build_valid();
    // Empty the grain-directory slot so the write has to *create* a
    // grain table rather than look one up.
    write_at(&mut image, GD_OFF_SECTOR * SECTOR, &0u32.to_le_bytes());
    write_at(&mut image, OFF_NUM_GTES_PER_GT, &0x0100_0000u32.to_le_bytes());

    let disk = Disk::new(image);
    let before = disk.size_bytes();
    let why = match VmdkReader::open_rw_on_device(disk.clone()) {
        Err(e) => format!("{e:?}"),
        Ok(mut r) => format!("{:?}", r.write_at(0, &[0xABu8; 512]).err()),
    };
    let after = disk.size_bytes();
    assert!(
        why.contains("grain table"),
        "a grain table of 64 MiB in a 68 KiB image was refused as {why}, which \
         means it was allocated and zero-filled first"
    );

    assert_eq!(
        before, after,
        "the image grew from {before} to {after} bytes for a 512-byte write"
    );
}

#[test]
fn a_sparse_extent_revision_we_cannot_read_is_refused_by_its_version() {
    let mut image = build_valid();
    write_at(&mut image, OFF_VERSION, &3u32.to_le_bytes());

    match open(&image) {
        Err(Error::Unsupported(msg)) => assert!(
            msg.contains("version 3"),
            "the refusal must name the revision, got {msg:?}"
        ),
        Err(other) => panic!("expected Unsupported, got {other:?}"),
        Ok(_) => panic!("read a stream-optimized extent with version-1 semantics"),
    }
}

#[test]
fn the_revisions_we_do_read_are_both_accepted() {
    for version in [1u32, 2] {
        let mut image = build_valid();
        write_at(&mut image, OFF_VERSION, &version.to_le_bytes());

        let mut r = open(&image)
            .unwrap_or_else(|e| panic!("version {version} must be readable, got {e:?}"));
        let mut buf = [0u8; 8];
        r.read_at(0, &mut buf).unwrap();
        assert_eq!(buf, [0, 1, 2, 3, 4, 5, 6, 7]);
    }
}

#[test]
fn an_esxi_vmfs_sparse_extent_is_refused_as_vmfs_sparse_not_as_not_a_vmdk() {
    let mut image = build_valid();
    write_at(&mut image, 0, b"COWD");

    let from_header = match open(&image) {
        Err(Error::Unsupported(msg)) => msg,
        Err(other) => panic!("expected Unsupported, got {other:?}"),
        Ok(_) => panic!("read a vmfsSparse extent as if it were monolithicSparse"),
    };

    let from_descriptor = match vmdk::descriptor::Descriptor::parse("createType=\"vmfsSparse\"\n") {
        Err(Error::Unsupported(msg)) => msg,
        other => panic!("expected Unsupported from the descriptor, got {other:?}"),
    };
    assert_eq!(
        from_header, from_descriptor,
        "the same layout must be refused with the same message whichever file names it"
    );
}

#[test]
fn an_empty_descriptor_region_is_a_split_extent_not_a_corrupt_image() {
    let mut image = build_valid();
    write_at(&mut image, DESC_OFF_SECTOR * SECTOR, &[0u8; SECTOR as usize]);

    match open(&image) {
        Err(Error::Unsupported(msg)) => assert!(
            msg.contains("extent"),
            "the refusal must say this is one extent of a split image, got {msg:?}"
        ),
        Err(other) => panic!("expected Unsupported, got {other:?}"),
        Ok(_) => panic!("opened an extent of a split image as if it were a whole disk"),
    }
}

#[test]
fn a_descriptor_region_with_unparseable_content_is_still_corrupt() {
    let mut image = build_valid();
    let mut junk = [0u8; SECTOR as usize];
    junk[..21].copy_from_slice(b"this is not an image\n");
    write_at(&mut image, DESC_OFF_SECTOR * SECTOR, &junk);

    match open(&image) {
        Err(Error::Corrupt(msg)) => assert!(msg.contains("createType"), "got {msg:?}"),
        Err(other) => panic!("expected Corrupt, got {other:?}"),
        Ok(_) => panic!("opened an image whose descriptor says nothing"),
    }
}

// ---------------------------------------------------------------------------
// The descriptor against the header
// ---------------------------------------------------------------------------

/// Replace the descriptor sector with `text`, NUL-padded.
fn patch_descriptor(image: &mut Vec<u8>, text: &str) {
    let mut s = [0u8; SECTOR as usize];
    s[..text.len()].copy_from_slice(text.as_bytes());
    write_at(image, DESC_OFF_SECTOR * SECTOR, &s);
}

#[test]
fn a_descriptor_naming_more_than_one_extent_is_refused() {
    let mut image = build_valid();
    patch_descriptor(
        &mut image,
        "createType=\"monolithicSparse\"\n\
         RW 2048 SPARSE \"corrupt-s001.vmdk\"\n\
         RW 2048 SPARSE \"corrupt-s002.vmdk\"\n",
    );
    match open(&image) {
        Err(Error::Unsupported(m)) => assert!(
            m.contains("more than one extent"),
            "refused, but not for the extent list: {m}"
        ),
        Ok(_) => panic!("a two-extent descriptor opened"),
        Err(e) => panic!("a two-extent descriptor gave {e:?}"),
    }
}

#[test]
fn a_descriptor_naming_no_extent_is_refused() {
    let mut image = build_valid();
    patch_descriptor(&mut image, "createType=\"monolithicSparse\"\n");
    match open(&image) {
        Err(Error::Corrupt(m)) => assert!(
            m.contains("no extent"),
            "refused, but not for the missing extent: {m}"
        ),
        Ok(_) => panic!("a descriptor with no extent opened"),
        Err(e) => panic!("a descriptor with no extent gave {e:?}"),
    }
}

#[test]
fn a_descriptor_whose_extent_is_not_sparse_is_refused() {
    let mut image = build_valid();
    patch_descriptor(
        &mut image,
        "createType=\"monolithicSparse\"\nRW 2048 FLAT \"corrupt.vmdk\" 0\n",
    );
    match open(&image) {
        Err(Error::Unsupported(m)) => assert!(
            m.contains("not SPARSE"),
            "refused, but not for the extent kind: {m}"
        ),
        Ok(_) => panic!("a FLAT extent opened"),
        Err(e) => panic!("a FLAT extent gave {e:?}"),
    }
}

#[test]
fn a_descriptor_and_header_that_disagree_about_the_size_are_refused() {
    // Descriptor side, too long: the extent claims twice the capacity.
    let mut image = build_valid();
    patch_descriptor(
        &mut image,
        "createType=\"monolithicSparse\"\nRW 4096 SPARSE \"corrupt.vmdk\"\n",
    );
    match open(&image) {
        Err(Error::Corrupt(m)) => assert!(
            m.contains("disagree about"),
            "refused, but not for the size: {m}"
        ),
        Ok(_) => panic!("an extent twice the capacity opened"),
        Err(e) => panic!("an extent twice the capacity gave {e:?}"),
    }

    // Descriptor side, too short: the extent claims half of it. An
    // extent shorter than the disk is the truncated-conversion shape,
    // and it is the case a one-sided comparison lets through.
    let mut image = build_valid();
    patch_descriptor(
        &mut image,
        "createType=\"monolithicSparse\"\nRW 1024 SPARSE \"corrupt.vmdk\"\n",
    );
    match open(&image) {
        Err(Error::Corrupt(m)) => assert!(
            m.contains("disagree about"),
            "refused, but not for the size: {m}"
        ),
        Ok(_) => panic!("an extent half the capacity opened"),
        Err(e) => panic!("an extent half the capacity gave {e:?}"),
    }

    // Header side: capacity halved, descriptor left alone.
    let mut image = build_valid();
    write_at(&mut image, 12, &(CAPACITY_SECTORS / 2).to_le_bytes());
    match open(&image) {
        Err(Error::Corrupt(m)) => assert!(
            m.contains("disagree about"),
            "refused, but not for the size: {m}"
        ),
        Ok(_) => panic!("a halved capacity opened"),
        Err(e) => panic!("a halved capacity gave {e:?}"),
    }
}

#[test]
fn the_descriptor_is_held_on_the_reader() {
    let image = build_valid();
    let r = open(&image).unwrap();
    let d = r.descriptor();
    assert_eq!(d.create_type, "monolithicSparse");
    assert_eq!(d.extents.len(), 1);
    assert_eq!(d.extents[0].sectors, CAPACITY_SECTORS);
    assert_eq!(d.extents[0].kind, "SPARSE");
    assert_eq!(d.extents[0].filename, "corrupt.vmdk");
}
