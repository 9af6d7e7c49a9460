//! What holds of a reader's calls taken together, on a small image: what a
//! read gives back of a write, what survives reopening and a crash, and
//! what a write leaves alone.

use std::cell::{Cell, RefCell};
use std::rc::Rc;

use vmdk::device::{BlockDevice, BlockRead, Bytes};
use vmdk::header::{FLAG_REDUNDANT_GRAIN_TABLE, FLAG_ZEROED_GRAIN, MAGIC};
use vmdk::{Error, Result, VmdkReader};

const SECTOR: usize = 512;
const CAPACITY: usize = 64; // sectors
const GRAIN: usize = 4; // sectors
const GTES: usize = 4; // so four grain tables
const DISK: usize = CAPACITY * SECTOR;
const GRAIN_BYTES: usize = GRAIN * SECTOR;
const RGD: usize = 3;
const GD: usize = 4;
const OVER_HEAD: usize = 5;

/// An empty image: header, descriptor in sectors 1 and 2, the two
/// directories, no table and no grain.
fn image(redundant: bool, cid: &str) -> Vec<u8> {
    let mut f = vec![0u8; OVER_HEAD * SECTOR];
    let mut flags = FLAG_ZEROED_GRAIN;
    if redundant {
        flags |= FLAG_REDUNDANT_GRAIN_TABLE;
    }
    put(&mut f, 0, &MAGIC.to_le_bytes());
    put(&mut f, 4, &1u32.to_le_bytes());
    put(&mut f, 8, &flags.to_le_bytes());
    put(&mut f, 12, &(CAPACITY as u64).to_le_bytes());
    put(&mut f, 20, &(GRAIN as u64).to_le_bytes());
    put(&mut f, 28, &1u64.to_le_bytes());
    put(&mut f, 36, &2u64.to_le_bytes());
    put(&mut f, 44, &(GTES as u32).to_le_bytes());
    put(&mut f, 48, &(if redundant { RGD as u64 } else { 0 }).to_le_bytes());
    put(&mut f, 56, &(GD as u64).to_le_bytes());
    put(&mut f, 64, &(OVER_HEAD as u64).to_le_bytes());
    let text = format!(
        "# Disk DescriptorFile\nCID={cid}\nparentCID=ffffffff\n\
         createType=\"monolithicSparse\"\nRW {CAPACITY} SPARSE \"small.vmdk\"\n"
    );
    put(&mut f, SECTOR, text.as_bytes());
    f
}

fn put(f: &mut [u8], at: usize, bytes: &[u8]) {
    f[at..at + bytes.len()].copy_from_slice(bytes);
}

fn u32_at(f: &[u8], at: usize) -> u32 {
    u32::from_le_bytes([f[at], f[at + 1], f[at + 2], f[at + 3]])
}

/// A disk that remembers the states it passed through since the last
/// flush.
#[derive(Clone)]
struct Disk {
    window: Rc<RefCell<Vec<Vec<u8>>>>,
    /// Every window there was, the current one excepted.
    past: Rc<RefCell<Vec<Vec<Vec<u8>>>>>,
    /// The furthest byte a write may end at.
    limit: usize,
    writable: bool,
    /// How many flushes succeed before the next one fails.
    flushes: Rc<Cell<usize>>,
    /// How many reads succeed before the next one fails.
    reads: Rc<Cell<usize>>,
}

impl Disk {
    fn new(bytes: Vec<u8>) -> Self {
        Disk {
            window: Rc::new(RefCell::new(vec![bytes])),
            past: Rc::new(RefCell::new(Vec::new())),
            limit: 1 << 30,
            writable: true,
            flushes: Rc::new(Cell::new(usize::MAX)),
            reads: Rc::new(Cell::new(usize::MAX)),
        }
    }

    fn bytes(&self) -> Vec<u8> {
        self.window.borrow().last().unwrap().clone()
    }
}

impl BlockRead for Disk {
    fn read_at(&self, offset: u64, buf: &mut [u8]) -> Result<()> {
        if self.reads.get() == 0 {
            return Err(Error::Io(std::io::Error::other("bad sector")));
        }
        self.reads.set(self.reads.get() - 1);
        Bytes(self.bytes()).read_at(offset, buf)
    }

    fn size_bytes(&self) -> u64 {
        self.bytes().len() as u64
    }
}

impl BlockDevice for Disk {
    fn write_at(&mut self, offset: u64, buf: &[u8]) -> Result<()> {
        let end = offset as usize + buf.len();
        if end > self.limit {
            return Err(Error::Io(std::io::Error::other("disk full")));
        }
        let mut bytes = self.bytes();
        if bytes.len() < end {
            bytes.resize(end, 0);
        }
        put(&mut bytes, offset as usize, buf);
        self.window.borrow_mut().push(bytes);
        Ok(())
    }

    fn flush(&mut self) -> Result<()> {
        if self.flushes.get() == 0 {
            return Err(Error::Io(std::io::Error::other("cache lost")));
        }
        self.flushes.set(self.flushes.get() - 1);
        let bytes = self.bytes();
        let window = self.window.replace(vec![bytes]);
        self.past.borrow_mut().push(window);
        Ok(())
    }

    fn is_writable(&self) -> bool {
        self.writable
    }
}

/// The whole virtual disk of an image.
fn disk_of(image: &[u8]) -> Vec<u8> {
    let mut r = VmdkReader::open_on_device(Bytes(image.to_vec())).unwrap();
    let mut buf = vec![0xEEu8; DISK];
    r.read_at(0, &mut buf).unwrap();
    buf
}

struct Random(u64);

impl Random {
    fn below(&mut self, n: usize) -> usize {
        self.0 = self
            .0
            .wrapping_mul(6364136223846793005)
            .wrapping_add(1442695040888963407);
        ((self.0 >> 33) as usize) % n
    }
}

#[test]
fn a_read_gives_back_what_was_written_and_the_rest_as_it_was() {
    for redundant in [false, true] {
        let disk = Disk::new(image(redundant, "fffffffe"));
        let mut r = VmdkReader::open_rw_on_device(disk.clone()).unwrap();
        let mut want = vec![0u8; DISK];
        let mut random = Random(7);
        for round in 0..60u32 {
            let at = random.below(DISK);
            let len = 1 + random.below((DISK - at).min(5000));
            let data: Vec<u8> = (0..len).map(|k| (k as u32 * 7 + round) as u8).collect();
            r.write_at(at as u64, &data).unwrap();
            put(&mut want, at, &data);
            let mut got = vec![0u8; DISK];
            r.read_at(0, &mut got).unwrap();
            assert_eq!(got, want);
        }
        r.flush().unwrap();
        assert_eq!(disk_of(&disk.bytes()), want);
    }
}

#[test]
fn what_was_flushed_is_there_in_the_next_session() {
    // A short identifier is widened by the first write, and again found
    // where it was.
    let disk = Disk::new(image(true, "1f"));
    let mut want = vec![0u8; DISK];
    for session in 1..4u8 {
        let mut r = VmdkReader::open_rw_on_device(disk.clone()).unwrap();
        assert_eq!(r.descriptor().extents[0].filename, "small.vmdk");
        let mut got = vec![0u8; DISK];
        r.read_at(0, &mut got).unwrap();
        assert_eq!(got, want);
        let at = session as usize * 3000;
        r.write_at(at as u64, &[session; 5000]).unwrap();
        put(&mut want, at, &[session; 5000]);
        r.flush().unwrap();
        assert_eq!(r.header().unclean_shutdown, 0);
    }
    assert_eq!(disk_of(&disk.bytes()), want);
}

fn cid(f: &[u8]) -> String {
    let text = String::from_utf8_lossy(&f[SECTOR..3 * SECTOR]).to_string();
    let at = text.find("\nCID=").unwrap() + 5;
    text[at..].lines().next().unwrap().to_string()
}

#[test]
fn the_identifier_changes_with_the_first_write_of_a_session_and_not_after() {
    let disk = Disk::new(image(false, "fffffffe"));
    let mut r = VmdkReader::open_rw_on_device(disk.clone()).unwrap();
    assert_eq!(cid(&disk.bytes()), "fffffffe");
    r.write_at(0, b"x").unwrap();
    let first = cid(&disk.bytes());
    assert_eq!(first.len(), 8);
    assert!(first != "fffffffe" && first != "ffffffff" && first != "00000000");
    r.write_at(1, b"y").unwrap();
    r.flush().unwrap();
    r.write_at(2, b"z").unwrap();
    assert_eq!(cid(&disk.bytes()), first);
}

#[test]
fn a_crash_at_any_point_of_a_write_leaves_no_wrong_data() {
    for redundant in [false, true] {
        let disk = Disk::new(image(redundant, "fffffffe"));
        let mut r = VmdkReader::open_rw_on_device(disk.clone()).unwrap();
        let mut random = Random(11);
        let mut before = vec![0u8; DISK];
        for round in 1..12u8 {
            r.flush().unwrap();
            disk.past.borrow_mut().clear();
            let at = random.below(DISK - 3000);
            let data = vec![round; 1 + random.below(3000)];
            r.write_at(at as u64, &data).unwrap();
            let mut after = before.clone();
            put(&mut after, at, &data);
            let mut windows = disk.past.borrow().clone();
            windows.push(disk.window.borrow().clone());
            for window in &windows {
                for _ in 0..6 {
                    let seen = 1 + random.below(window.len());
                    let crashed = crash(&window[..seen], &mut random);
                    let got = disk_of(&crashed);
                    for v in 0..DISK {
                        assert!(got[v] == before[v] || got[v] == after[v], "byte {v}");
                    }
                }
            }
            before = after;
        }
        // Nothing unflushed: a crash changes nothing.
        r.flush().unwrap();
        let window = disk.window.borrow().clone();
        assert_eq!(window.len(), 1);
        assert_eq!(disk_of(&crash(&window, &mut random)), before);
    }
}

/// What a crash may leave: each sector as it was in one of the states.
fn crash(states: &[Vec<u8>], random: &mut Random) -> Vec<u8> {
    let mut out = states.last().unwrap().clone();
    for at in (0..states[0].len()).step_by(SECTOR) {
        let end = (at + SECTOR).min(states[0].len());
        let from = &states[random.below(states.len())];
        out[at..end].copy_from_slice(&from[at..end]);
    }
    out
}

#[test]
fn both_copies_of_the_grain_map_say_the_same() {
    let disk = Disk::new(image(true, "fffffffe"));
    let mut r = VmdkReader::open_rw_on_device(disk.clone()).unwrap();
    let mut random = Random(5);
    for _ in 0..20 {
        let at = random.below(DISK - 600);
        r.write_at(at as u64, &[1u8; 600]).unwrap();
        let f = disk.bytes();
        for i in 0..GTES {
            let p = u32_at(&f, GD * SECTOR + 4 * i) as usize;
            let c = u32_at(&f, RGD * SECTOR + 4 * i) as usize;
            assert_eq!(p == 0, c == 0);
            for j in 0..GTES {
                if p != 0 {
                    assert_ne!(p, c);
                    assert_eq!(
                        u32_at(&f, p * SECTOR + 4 * j),
                        u32_at(&f, c * SECTOR + 4 * j)
                    );
                }
            }
        }
    }
}

#[test]
fn a_copy_that_lags_behind_is_filled_and_never_cleared() {
    // One table in each directory: the primary names a grain that the copy
    // lacks, the copy one that the primary lacks.
    let mut f = image(true, "fffffffe");
    f.resize(32 * SECTOR, 0);
    put(&mut f, GD * SECTOR, &5u32.to_le_bytes());
    put(&mut f, RGD * SECTOR, &6u32.to_le_bytes());
    put(&mut f, 5 * SECTOR, &8u32.to_le_bytes());
    put(&mut f, 6 * SECTOR + 4, &12u32.to_le_bytes());
    let disk = Disk::new(f);
    let mut r = VmdkReader::open_rw_on_device(disk.clone()).unwrap();
    r.write_at(3 * GRAIN_BYTES as u64, b"new").unwrap();
    let f = disk.bytes();
    let copy: Vec<u32> = (0..4).map(|j| u32_at(&f, 6 * SECTOR + 4 * j)).collect();
    let primary: Vec<u32> = (0..4).map(|j| u32_at(&f, 5 * SECTOR + 4 * j)).collect();
    assert_eq!(primary, vec![8, 0, 0, 32]);
    assert_eq!(copy, vec![8, 12, 0, 32]);
}

#[test]
fn a_missing_copy_is_seeded_from_the_primary() {
    let mut f = image(true, "fffffffe");
    f.resize(32 * SECTOR, 0);
    put(&mut f, GD * SECTOR, &5u32.to_le_bytes());
    put(&mut f, 5 * SECTOR, &8u32.to_le_bytes());
    let disk = Disk::new(f);
    let mut r = VmdkReader::open_rw_on_device(disk.clone()).unwrap();
    r.write_at(GRAIN_BYTES as u64, b"new").unwrap();
    let f = disk.bytes();
    let copy = u32_at(&f, RGD * SECTOR) as usize;
    assert_eq!(copy, 32);
    assert_eq!(u32_at(&f, copy * SECTOR), 8);
    assert_eq!(u32_at(&f, copy * SECTOR + 4), u32_at(&f, 5 * SECTOR + 4));
}

#[test]
fn a_pointer_into_the_metadata_is_neither_read_nor_written_through() {
    // The entry names the directory, the descriptor, or a grain table.
    for sector in [4u32, 2, 5] {
        let mut f = image(false, "fffffffe");
        f.resize(32 * SECTOR, 0);
        put(&mut f, 64, &1u64.to_le_bytes()); // nothing reserved
        put(&mut f, GD * SECTOR, &5u32.to_le_bytes());
        put(&mut f, 5 * SECTOR, &sector.to_le_bytes());
        let disk = Disk::new(f.clone());
        let mut r = VmdkReader::open_rw_on_device(disk.clone()).unwrap();
        let mut buf = [0u8; 16];
        let why = r.read_at(0, &mut buf).unwrap_err().message();
        assert!(why.contains("lands inside the image's metadata"), "{why}");
        let why = r.write_at(0, &buf).unwrap_err().message();
        assert!(why.contains("lands inside the image's metadata"), "{why}");
        // Only the header sector and the descriptor may have changed.
        assert_eq!(disk.bytes()[3 * SECTOR..], f[3 * SECTOR..]);
    }
}

#[test]
fn what_lies_outside_the_file_is_refused() {
    let mut f = image(false, "fffffffe");
    f.resize(32 * SECTOR, 0);
    put(&mut f, GD * SECTOR, &5u32.to_le_bytes());
    put(&mut f, 5 * SECTOR, &1000u32.to_le_bytes());
    put(&mut f, GD * SECTOR + 4, &1000u32.to_le_bytes());
    put(&mut f, GD * SECTOR + 8, &4u32.to_le_bytes());
    let mut r = VmdkReader::open_rw_on_device(Disk::new(f)).unwrap();
    let mut buf = [0u8; 16];
    let table = (GTES * GRAIN_BYTES) as u64;
    let says = |r: Result<()>| r.unwrap_err().message();
    assert!(says(r.read_at(0, &mut buf)).contains("grain extends past EOF"));
    assert!(says(r.write_at(0, &buf)).contains("grain extends past EOF"));
    assert!(says(r.read_at(table, &mut buf)).contains("grain table extends past EOF"));
    assert!(says(r.write_at(table, &buf)).contains("grain table extends past EOF"));
    assert!(says(r.read_at(2 * table, &mut buf)).contains("grain table overlaps"));
    assert!(says(r.write_at(2 * table, &buf)).contains("grain table overlaps"));
    r.write_at(3 * table, &buf).unwrap();
}

#[test]
fn a_damaged_image_takes_writes_up_to_the_damage() {
    // Two grains with a place, one whose pointer names the directory, one
    // that shares its bytes with the first.
    let mut f = image(false, "fffffffe");
    f.resize(32 * SECTOR, 0);
    put(&mut f, GD * SECTOR, &5u32.to_le_bytes());
    for (j, sector) in [8u32, 12, 4, 8].iter().enumerate() {
        put(&mut f, 5 * SECTOR + 4 * j, &sector.to_le_bytes());
    }
    let disk = Disk::new(f.clone());
    let mut r = VmdkReader::open_rw_on_device(disk.clone()).unwrap();

    let data: Vec<u8> = (0..3 * GRAIN_BYTES).map(|i| (i % 251) as u8).collect();
    let why = r.write_at(100, &data[..2 * GRAIN_BYTES]).unwrap_err().message();
    assert!(why.contains("lands inside the image's metadata"), "{why}");
    let mut want = f.clone();
    put(&mut want, 8 * SECTOR + 100, &data[..2 * GRAIN_BYTES - 100]);
    assert_eq!(disk.bytes()[3 * SECTOR..], want[3 * SECTOR..]);
    assert_ne!(disk.bytes()[SECTOR..2 * SECTOR], f[SECTOR..2 * SECTOR]);
    assert_eq!(disk.bytes()[72], 1);

    // Inside one grain a write reads back, shared or not.
    let last = (3 * GRAIN_BYTES) as u64;
    r.write_at(last + 7, &data[..300]).unwrap();
    let mut buf = vec![0u8; 300];
    r.read_at(last + 7, &mut buf).unwrap();
    assert_eq!(buf, data[..300]);
    r.read_at(7, &mut buf).unwrap();
    assert_eq!(buf, data[..300]);
}

#[test]
fn a_refused_copy_fails_the_write_before_a_grain_is_taken() {
    for (copy, reason) in [
        (1u32, "redundant grain table overlaps the image's metadata"),
        (1000, "redundant grain table extends past EOF"),
    ] {
        let mut f = image(true, "fffffffe");
        f.resize(32 * SECTOR, 0);
        put(&mut f, GD * SECTOR, &5u32.to_le_bytes());
        put(&mut f, RGD * SECTOR, &copy.to_le_bytes());
        put(&mut f, 5 * SECTOR, &8u32.to_le_bytes());
        let disk = Disk::new(f.clone());
        let mut r = VmdkReader::open_rw_on_device(disk.clone()).unwrap();
        // A grain that has a place needs no copy.
        r.write_at(0, &[9; 16]).unwrap();
        let why = r.write_at(GRAIN_BYTES as u64, &[7; 16]).unwrap_err().message();
        assert!(why.contains(reason), "{why}");
        put(&mut f, 8 * SECTOR, &[9; 16]);
        assert_eq!(disk.bytes()[3 * SECTOR..], f[3 * SECTOR..]);
        // Another table takes its own place and copy.
        let next = (GTES * GRAIN_BYTES) as u64;
        r.write_at(next, &[5; 16]).unwrap();
        let mut buf = [0u8; 16];
        r.read_at(next, &mut buf).unwrap();
        assert_eq!(buf, [5; 16]);
    }
}

#[test]
fn two_directory_entries_on_one_table_are_refused_for_writing() {
    let mut f = image(false, "fffffffe");
    f.resize(32 * SECTOR, 0);
    put(&mut f, GD * SECTOR, &5u32.to_le_bytes());
    put(&mut f, GD * SECTOR + 4, &5u32.to_le_bytes());
    assert!(VmdkReader::open_on_device(Bytes(f.clone())).is_ok());
    let why = VmdkReader::open_rw_on_device(Bytes(f))
        .err()
        .unwrap()
        .message();
    assert!(why.contains("grain tables overlap"), "{why}");
}

#[test]
fn requests_that_touch_nothing_change_nothing() {
    let f = image(false, "fffffffe");
    let disk = Disk::new(f.clone());
    let mut r = VmdkReader::open_rw_on_device(disk.clone()).unwrap();
    r.write_at(u64::MAX, &[]).unwrap();
    assert!(matches!(
        r.write_at(u64::MAX, &[1, 2]),
        Err(Error::Corrupt("offset+len overflow"))
    ));
    assert!(matches!(
        r.write_at(DISK as u64 - 1, &[1, 2]),
        Err(Error::OutOfBounds {
            offset,
            len: 2,
            size
        }) if offset == DISK as u64 - 1 && size == DISK as u64
    ));
    r.read_at(u64::MAX, &mut []).unwrap();
    assert!(matches!(
        r.read_at(u64::MAX, &mut [0, 0]),
        Err(Error::Corrupt("offset+len overflow"))
    ));
    r.flush().unwrap();
    assert_eq!(disk.bytes(), f);

    let mut read_only = VmdkReader::open_on_device(disk.clone()).unwrap();
    assert!(!read_only.is_writable());
    assert!(matches!(read_only.write_at(0, &[1]), Err(Error::ReadOnly)));
    read_only.flush().unwrap();
    assert_eq!(disk.bytes(), f);
}

#[test]
fn a_device_that_runs_full_fails_the_write_and_keeps_the_disk() {
    let mut disk = Disk::new(image(false, "fffffffe"));
    disk.limit = 12 * SECTOR;
    let mut r = VmdkReader::open_rw_on_device(disk.clone()).unwrap();
    // A table and one grain fit.
    r.write_at(0, &[1u8; 100]).unwrap();
    let why = r.write_at(GRAIN_BYTES as u64, &[2u8; 100]);
    assert_eq!(why.unwrap_err().message(), "io: disk full");
    let mut want = vec![0u8; DISK];
    put(&mut want, 0, &[1u8; 100]);
    assert_eq!(disk_of(&disk.bytes()), want);
}

#[test]
fn an_identifier_that_cannot_be_rewritten_refuses_writing_not_reading() {
    let f = image(false, "123456789");
    assert!(VmdkReader::open_on_device(Bytes(f.clone())).is_ok());
    let e = VmdkReader::open_rw_on_device(Bytes(f)).err().unwrap();
    assert!(e.message().contains("descriptor CID is not one to eight"));
}

#[test]
fn a_refused_read_leaves_the_buffer_alone() {
    let mut r = VmdkReader::open_on_device(Bytes(image(false, "fffffffe"))).unwrap();
    let mut buf = [0xA5u8; 10];
    assert!(matches!(
        r.read_at(DISK as u64 - 9, &mut buf),
        Err(Error::OutOfBounds { .. })
    ));
    assert_eq!(buf, [0xA5; 10]);
    assert!(r.read_at(u64::MAX - 3, &mut buf).is_err());
    assert_eq!(buf, [0xA5; 10]);
    r.read_at(DISK as u64 - 10, &mut buf).unwrap();
    assert_eq!(buf, [0; 10]);
}

#[test]
fn a_flush_that_fails_keeps_the_mark() {
    for left in [0, 1] {
        let disk = Disk::new(image(false, "fffffffe"));
        let mut r = VmdkReader::open_rw_on_device(disk.clone()).unwrap();
        r.write_at(0, b"data").unwrap();
        disk.flushes.set(left);
        let why = r.flush().unwrap_err();
        assert!(matches!(&why, Error::Io(_)));
        assert_eq!(why.message(), "io: cache lost");
        // What is durable still says that the image was not shut down.
        assert_eq!(disk.window.borrow()[0][72], 1);
        if left == 0 {
            assert_eq!(disk.bytes()[72], 1);
        }
        disk.flushes.set(usize::MAX);
        r.flush().unwrap();
        assert_eq!(disk.window.borrow()[0][72], 0);
        assert_eq!(&disk_of(&disk.bytes())[..4], b"data");
    }
}

#[test]
fn the_mark_and_the_identifier_are_durable_before_the_data() {
    for redundant in [false, true] {
        let disk = Disk::new(image(redundant, "fffffffe"));
        let mut r = VmdkReader::open_rw_on_device(disk.clone()).unwrap();
        let before = vec![0u8; DISK];
        r.write_at(1000, &[3u8; 9000]).unwrap();
        let mut windows = disk.past.borrow().clone();
        windows.push(disk.window.borrow().clone());
        let fresh = cid(&disk.bytes());
        assert_ne!(fresh, "fffffffe");
        let mut changed = 0;
        for window in &windows {
            for state in window {
                if disk_of(state) != before {
                    changed += 1;
                    for marked in [state, &window[0]] {
                        assert_eq!(marked[72], 1);
                        assert_eq!(cid(marked), fresh);
                    }
                }
            }
        }
        assert!(changed > 0);
    }
}

#[test]
fn reads_of_adjoining_ranges_join() {
    let disk = Disk::new(image(true, "fffffffe"));
    let mut r = VmdkReader::open_rw_on_device(disk).unwrap();
    let data: Vec<u8> = (0..9000).map(|i| (i % 253) as u8).collect();
    r.write_at(1500, &data).unwrap();
    let mut random = Random(3);
    for _ in 0..40 {
        let a = random.below(DISK);
        let b = a + random.below(DISK - a);
        let c = b + random.below(DISK - b);
        let mut whole = vec![0u8; c - a];
        r.read_at(a as u64, &mut whole).unwrap();
        let mut parts = vec![0u8; c - a];
        let (head, tail) = parts.split_at_mut(b - a);
        r.read_at(a as u64, head).unwrap();
        r.read_at(b as u64, tail).unwrap();
        assert_eq!(parts, whole);
    }
}

#[test]
fn an_image_that_reads_opens_for_writing_unless_a_write_would_spoil_it() {
    let plain = image(true, "fffffffe");
    let mut twice = plain.clone();
    twice.resize(32 * SECTOR, 0);
    put(&mut twice, GD * SECTOR, &5u32.to_le_bytes());
    put(&mut twice, RGD * SECTOR + 4, &5u32.to_le_bytes());
    let mut lost = plain.clone();
    put(&mut lost, 48, &1000u64.to_le_bytes());
    for (f, reason) in [
        (plain.clone(), None),
        (image(false, "0"), None),
        (twice, Some("grain tables overlap")),
        (lost, Some("redundant grain directory extends past EOF")),
        (image(false, "123456789"), Some("descriptor CID")),
    ] {
        assert!(VmdkReader::open_on_device(Bytes(f.clone())).is_ok());
        match (VmdkReader::open_rw_on_device(Disk::new(f)), reason) {
            (Ok(r), None) => assert!(r.is_writable()),
            (Err(e), Some(reason)) => assert!(e.message().contains(reason), "{}", e.message()),
            (Ok(_), Some(reason)) => panic!("opened, though {reason}"),
            (Err(e), None) => panic!("refused: {}", e.message()),
        }
    }
    let mut fixed = Disk::new(plain);
    fixed.writable = false;
    assert!(matches!(
        VmdkReader::open_rw_on_device(fixed),
        Err(Error::ReadOnly)
    ));
}

#[test]
fn a_device_whose_reads_fail_says_so_on_opening() {
    let mut served = 0;
    loop {
        let disk = Disk::new(image(true, "fffffffe"));
        disk.reads.set(served);
        match VmdkReader::open_rw_on_device(disk) {
            Ok(_) => break,
            Err(e) => assert_eq!(e.message(), "io: bad sector"),
        }
        served += 1;
    }
    assert!(served >= 4);
}

#[test]
fn a_write_over_many_grains_leaves_the_rest_alone_though_the_copy_is_damaged() {
    // The copy of the first table names places that mean nothing.
    let mut f = image(true, "fffffffe");
    f.resize(32 * SECTOR, 0);
    put(&mut f, GD * SECTOR, &5u32.to_le_bytes());
    put(&mut f, RGD * SECTOR, &6u32.to_le_bytes());
    for (j, (own, copy)) in [(8u32, 3000u32), (0, 1), (12, 0), (0, 0)].iter().enumerate() {
        put(&mut f, 5 * SECTOR + 4 * j, &own.to_le_bytes());
        put(&mut f, 6 * SECTOR + 4 * j, &copy.to_le_bytes());
    }
    for (i, byte) in f[8 * SECTOR..16 * SECTOR].iter_mut().enumerate() {
        *byte = (i % 199) as u8 + 1;
    }
    let mut want = disk_of(&f);
    let disk = Disk::new(f);
    let mut r = VmdkReader::open_rw_on_device(disk.clone()).unwrap();
    let data: Vec<u8> = (0..5 * GRAIN_BYTES).map(|i| (i % 241) as u8).collect();
    r.write_at(700, &data).unwrap();
    put(&mut want, 700, &data);
    let mut got = vec![0u8; DISK];
    r.read_at(0, &mut got).unwrap();
    assert_eq!(got, want);
    r.flush().unwrap();
    assert_eq!(disk_of(&disk.bytes()), want);
    // The copy keeps what it had, and gains what it lacked.
    let f = disk.bytes();
    assert_eq!(u32_at(&f, 6 * SECTOR), 3000);
    assert_eq!(u32_at(&f, 6 * SECTOR + 8), 12);
    assert_eq!(u32_at(&f, 6 * SECTOR + 12), u32_at(&f, 5 * SECTOR + 12));
}

#[test]
fn a_file_that_ends_inside_a_sector_takes_a_write() {
    let mut f = image(true, "fffffffe");
    f.resize(32 * SECTOR, 0);
    put(&mut f, GD * SECTOR, &5u32.to_le_bytes());
    put(&mut f, RGD * SECTOR, &6u32.to_le_bytes());
    put(&mut f, 5 * SECTOR, &8u32.to_le_bytes());
    put(&mut f, 6 * SECTOR, &8u32.to_le_bytes());
    f.truncate(32 * SECTOR - 100);
    let disk = Disk::new(f);
    let mut r = VmdkReader::open_rw_on_device(disk.clone()).unwrap();
    r.write_at(GRAIN_BYTES as u64 - 5, &[6u8; 10]).unwrap();
    r.flush().unwrap();
    assert_eq!(u32_at(&disk.bytes(), 5 * SECTOR + 4), 32);
    let mut want = vec![0u8; DISK];
    put(&mut want, GRAIN_BYTES - 5, &[6u8; 10]);
    assert_eq!(disk_of(&disk.bytes()), want);
}

#[test]
fn a_copy_is_merged_once_and_a_second_session_finds_nothing_to_fill() {
    let mut f = image(true, "fffffffe");
    f.resize(32 * SECTOR, 0);
    put(&mut f, GD * SECTOR, &5u32.to_le_bytes());
    put(&mut f, RGD * SECTOR, &6u32.to_le_bytes());
    put(&mut f, 5 * SECTOR, &8u32.to_le_bytes());
    put(&mut f, 6 * SECTOR + 4, &12u32.to_le_bytes());
    let disk = Disk::new(f);
    for (session, grain) in [(1, 3), (2, 2)] {
        let mut r = VmdkReader::open_rw_on_device(disk.clone()).unwrap();
        disk.past.borrow_mut().clear();
        r.write_at((grain * GRAIN_BYTES) as u64, b"new").unwrap();
        r.flush().unwrap();
        // Each state the copy went through, once.
        let mut copies: Vec<Vec<u8>> = Vec::new();
        for state in disk.past.borrow().iter().flatten() {
            let copy = state[6 * SECTOR..7 * SECTOR].to_vec();
            if copies.last() != Some(&copy) {
                copies.push(copy);
            }
        }
        // The merge, in the first session only, and the new entry.
        assert_eq!(copies.len(), if session == 1 { 3 } else { 2 });
    }
    let f = disk.bytes();
    let copy: Vec<u32> = (0..4).map(|j| u32_at(&f, 6 * SECTOR + 4 * j)).collect();
    let primary: Vec<u32> = (0..4).map(|j| u32_at(&f, 5 * SECTOR + 4 * j)).collect();
    assert_eq!(primary, vec![8, 0, 36, 32]);
    assert_eq!(copy, vec![8, 12, 36, 32]);
}

#[test]
fn a_session_keeps_its_header_and_descriptor() {
    let mut disk = Disk::new(image(true, "fffffffe"));
    disk.limit = 14 * SECTOR;
    let mut r = VmdkReader::open_rw_on_device(disk.clone()).unwrap();
    let capacity = r.header().capacity;
    let name = r.descriptor().extents[0].filename.clone();
    r.write_at(0, &[1; 8]).unwrap();
    assert!(r.write_at(GRAIN_BYTES as u64, &[1; 8]).is_err());
    disk.flushes.set(0);
    assert!(r.flush().is_err());
    assert_eq!(r.header().capacity, capacity);
    assert_eq!(r.descriptor().extents[0].filename, name);
    assert!(r.is_writable());
}

#[test]
fn the_marks_of_a_write_come_first_on_a_damaged_image_too() {
    // The third grain's pointer names the directory: the write stops there.
    let mut f = image(true, "fffffffe");
    f.resize(32 * SECTOR, 0);
    put(&mut f, GD * SECTOR, &5u32.to_le_bytes());
    put(&mut f, RGD * SECTOR, &6u32.to_le_bytes());
    for (j, sector) in [8u32, 0, 4, 0].iter().enumerate() {
        put(&mut f, 5 * SECTOR + 4 * j, &sector.to_le_bytes());
    }
    let disk = Disk::new(f.clone());
    let mut r = VmdkReader::open_rw_on_device(disk.clone()).unwrap();
    assert!(r.write_at(10, &[4u8; 3 * GRAIN_BYTES]).is_err());
    let mut windows = disk.past.borrow().clone();
    windows.push(disk.window.borrow().clone());
    let fresh = cid(&disk.bytes());
    let mut changed = 0;
    for window in &windows {
        for state in window {
            if state[3 * SECTOR..] != f[3 * SECTOR..] {
                changed += 1;
                for marked in [state, &window[0]] {
                    assert_eq!(marked[72], 1);
                    assert_eq!(cid(marked), fresh);
                }
            }
        }
    }
    assert!(changed > 3);
    assert_ne!(fresh, "fffffffe");
    r.flush().unwrap();
    assert_eq!(disk.bytes()[72], 0);
}

#[test]
fn the_mark_is_up_exactly_while_a_write_is_unflushed() {
    let disk = Disk::new(image(true, "fffffffe"));
    let mut r = VmdkReader::open_rw_on_device(disk.clone()).unwrap();
    assert_eq!(disk.bytes()[72], 0);
    let mut random = Random(23);
    let mut unflushed = false;
    let mut buf = [0u8; 40];
    for _ in 0..80 {
        let at = random.below(DISK - 40) as u64;
        match random.below(4) {
            0 => {
                r.write_at(at, &[7u8; 40]).unwrap();
                unflushed = true;
            }
            1 => {
                r.flush().unwrap();
                unflushed = false;
            }
            2 => r.write_at(at, &[]).unwrap(),
            _ => r.read_at(at, &mut buf).unwrap(),
        }
        assert_eq!(disk.bytes()[72], unflushed as u8);
    }
}

#[test]
fn an_open_reader_keeps_its_shape() {
    let disk = Disk::new(image(true, "fffffffe"));
    let mut r = VmdkReader::open_rw_on_device(disk.clone()).unwrap();
    for round in 0..4 {
        assert_eq!(r.virtual_size(), DISK as u64);
        assert_eq!(r.grain_size_bytes(), GRAIN_BYTES as u64);
        assert!(r.is_writable());
        let d = r.descriptor();
        assert_eq!(d.create_type, "monolithicSparse");
        assert_eq!(d.extents.len(), 1);
        assert_eq!(d.extents[0].sectors, CAPACITY as u64);
        assert!(d.extents[0].kind.eq_ignore_ascii_case("SPARSE"));
        match round {
            0 => r.write_at(100, &[1; 5000]).unwrap(),
            1 => r.flush().unwrap(),
            _ => assert!(r.write_at(DISK as u64, &[1]).is_err()),
        }
    }
}

#[test]
fn a_write_moves_only_the_entries_it_has_to() {
    let mut f = image(true, "fffffffe");
    f.resize(32 * SECTOR, 0);
    put(&mut f, GD * SECTOR, &5u32.to_le_bytes());
    put(&mut f, RGD * SECTOR, &6u32.to_le_bytes());
    // A grain with a place, one that reads as zeros, and none.
    for (j, entry) in [8u32, 1, 0, 12].iter().enumerate() {
        put(&mut f, 5 * SECTOR + 4 * j, &entry.to_le_bytes());
        put(&mut f, 6 * SECTOR + 4 * j, &entry.to_le_bytes());
    }
    let disk = Disk::new(f);
    let mut r = VmdkReader::open_rw_on_device(disk.clone()).unwrap();
    r.write_at(GRAIN_BYTES as u64 - 8, &[3u8; 16]).unwrap();
    let f = disk.bytes();
    for table in [5, 6] {
        let entries: Vec<u32> = (0..4).map(|j| u32_at(&f, table * SECTOR + 4 * j)).collect();
        assert_eq!(entries, vec![8, 32, 0, 12]);
    }
    // A table that was not there is placed, in both directories.
    let next = (GTES * GRAIN_BYTES) as u64;
    r.write_at(next, &[4u8; 16]).unwrap();
    let f = disk.bytes();
    let own = u32_at(&f, GD * SECTOR + 4);
    let copy = u32_at(&f, RGD * SECTOR + 4);
    assert_eq!((own, copy), (36, 37));
    assert_eq!(u32_at(&f, own as usize * SECTOR), 38);
    assert_eq!(u32_at(&f, copy as usize * SECTOR), 38);
    assert_eq!(u32_at(&f, 5 * SECTOR), 8);
}

/// An image whose last grain in the file, the second of the disk, is cut
/// short after one and a half sectors, and whose third and fourth grains
/// name places that are refused.
fn cut_short() -> Vec<u8> {
    let mut f = image(true, "fffffffe");
    f.resize(12 * SECTOR, 0);
    put(&mut f, GD * SECTOR, &5u32.to_le_bytes());
    put(&mut f, RGD * SECTOR, &6u32.to_le_bytes());
    for (j, entry) in [7u32, 11, 4, 9000].iter().enumerate() {
        put(&mut f, 5 * SECTOR + 4 * j, &entry.to_le_bytes());
        put(&mut f, 6 * SECTOR + 4 * j, &entry.to_le_bytes());
    }
    f.resize(12 * SECTOR + SECTOR / 2, 0);
    for (i, byte) in f[7 * SECTOR..].iter_mut().enumerate() {
        *byte = (i % 211) as u8 + 1;
    }
    f
}

#[test]
fn a_write_in_place_leaves_what_could_be_read() {
    let mut f = cut_short();
    // Entries of both directories that name places past the end.
    put(&mut f, GD * SECTOR + 4, &500u32.to_le_bytes());
    put(&mut f, RGD * SECTOR + 8, &600u32.to_le_bytes());
    let disk = Disk::new(f.clone());
    let mut r = VmdkReader::open_rw_on_device(disk.clone()).unwrap();
    let held = GRAIN_BYTES + SECTOR + SECTOR / 2;
    let mut want = vec![0u8; held];
    r.read_at(0, &mut want).unwrap();
    assert_eq!(want[..], f[7 * SECTOR..]);
    r.write_at(GRAIN_BYTES as u64 - 30, &[9u8; 60]).unwrap();
    put(&mut want, GRAIN_BYTES - 30, &[9u8; 60]);
    let mut got = vec![0u8; held];
    r.read_at(0, &mut got).unwrap();
    assert_eq!(got, want);
    // Nothing but those bytes, the header sector and the descriptor.
    put(&mut f, 11 * SECTOR - 30, &[9u8; 60]);
    assert_eq!(disk.bytes()[3 * SECTOR..], f[3 * SECTOR..]);
    let refused = (2 * GRAIN_BYTES) as u64;
    assert!(r.read_at(refused, &mut [0]).is_err());
    r.flush().unwrap();
    let mut again = VmdkReader::open_rw_on_device(disk).unwrap();
    again.read_at(0, &mut got).unwrap();
    assert_eq!(got, want);
}

#[test]
fn a_write_that_grows_the_file_leaves_what_could_be_read() {
    let disk = Disk::new(cut_short());
    let held = GRAIN_BYTES + SECTOR + SECTOR / 2;
    let next = (GTES * GRAIN_BYTES) as u64;
    let mut want = vec![0u8; held];
    VmdkReader::open_on_device(Bytes(disk.bytes()))
        .unwrap()
        .read_at(0, &mut want)
        .unwrap();
    for session in 1..3u8 {
        let mut r = VmdkReader::open_rw_on_device(disk.clone()).unwrap();
        let at = next + session as u64 * GRAIN_BYTES as u64 - 20;
        r.write_at(at, &[session; 40]).unwrap();
        r.write_at(100, &[session; 8]).unwrap();
        put(&mut want, 100, &[session; 8]);
        r.flush().unwrap();
        let mut again = VmdkReader::open_on_device(Bytes(disk.bytes())).unwrap();
        for reader in [&mut r as &mut dyn Reads, &mut again] {
            let mut got = vec![0u8; held];
            reader.read(0, &mut got);
            assert_eq!(got, want);
            let mut data = [0u8; 40];
            reader.read(at, &mut data);
            assert_eq!(data, [session; 40]);
        }
    }
}

/// Reading, whatever the device.
trait Reads {
    fn read(&mut self, at: u64, buf: &mut [u8]);
}

impl<D: BlockRead> Reads for VmdkReader<D> {
    fn read(&mut self, at: u64, buf: &mut [u8]) {
        self.read_at(at, buf).unwrap();
    }
}
