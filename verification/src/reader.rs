//! VMDK read + write path for the **monolithic sparse** variant.

use crate::descriptor::Descriptor;
use crate::device::{BlockDevice, BlockRead};
use crate::extents::Extents;
use crate::error::Error;
use crate::header::SparseHeader;
use crate::image::{copy_sector, entry_at, table_sector};
use std::collections::HashSet;
use vstd::prelude::*;

pub mod state;

pub mod allocate;
pub mod beside_text;
pub mod bytewise;
pub mod calls;
pub mod damage;
pub mod effect;
pub mod grain;
pub mod joins;
pub mod laws;
pub mod mark;
pub mod mirrors;
pub mod open;
pub mod order;
pub mod orderly;
mod read;
pub mod reopen;
pub mod sessions;
pub mod sound;
pub mod twins;
mod write;

use state::{table_count, State};

verus! {

/// A stream-optimized grain, inflated, with its host sector and its
/// virtual start.
struct InflatedGrain {
    sector: u32,
    virtual_start: u64,
    grain: Vec<u8>,
}

struct GtCache {
    /// Which grain table is in `entries`, or `None` if nothing is,
    /// identified by its directory index *and* the sector it was loaded
    /// from: a table can be allocated afresh for an index that already had
    /// one, and a stale slot must be a miss rather than a wrong answer.
    loaded: Option<(usize, u32)>,
    entries: Vec<u32>,
}

pub struct VmdkReader<D> {
    /// The stream-optimized grain inflated last. A caller reading in
    /// pieces smaller than a grain would otherwise inflate the same grain
    /// again for every piece.
    inflated: Option<InflatedGrain>,
    /// Backing device.
    dev: D,
    header: SparseHeader,
    /// The descriptor this image carries, as parsed at open. The parent
    /// linkage is not retained: an image that declares a parent is
    /// refused, so every descriptor held here has none.
    descriptor: Descriptor,
    /// Cached primary grain directory (one u32 per grain table).
    gd: Vec<u32>,
    /// Cached redundant grain directory, when the image declares one.
    /// `None` for an image without a redundant copy, and for a read-only
    /// open of an image whose redundant directory does not fit the file.
    rgd: Option<Vec<u32>>,
    /// Single-slot grain-table cache.
    gt_cache: GtCache,
    /// Virtual disk size in bytes (`capacity * 512`).
    virtual_size: u64,
    /// Whether the image was opened for writing.
    writable: bool,
    /// Allocation cursor in sectors: the next free sector at the tail of
    /// the backing device.
    alloc_cursor: u64,
    /// Grain tables whose redundant copy this session has already merged
    /// the primary into.
    redundant_merged: HashSet<usize>,
    /// First byte a grain may legally occupy: `over_head`, the format's
    /// own statement of how much metadata precedes the grains.
    first_grain_byte: u64,
    /// The metadata whose position the header states: the sparse header,
    /// the descriptor, the grain directory and, when one is live, the
    /// redundant directory.
    fixed_metadata: Extents,
    /// Every grain table a live directory names, primary and redundant,
    /// plus every table this session allocates.
    grain_tables: Extents,
    /// Byte offset and length of the embedded descriptor region.
    descriptor_extent: (u64, u64),
    /// Whether this session has already bumped the descriptor's `CID`.
    /// Once per session, not once per write: a value that changed a
    /// thousand times says no more than one that changed once.
    content_id_bumped: bool,
    /// Whether the image's `uncleanShutdown` byte is currently raised. It
    /// goes up before a write and comes down with a clean flush.
    unclean_marked: bool,
    /// The states the device passed through since the image was opened,
    /// one window for each flush.
    journal: Ghost<Seq<Seq<Seq<u8>>>>,
}

impl<D: BlockRead> View for VmdkReader<D> {
    type V = State;

    closed spec fn view(&self) -> State {
        State {
            header: self.header,
            descriptor: self.descriptor@,
            contents: self.dev.contents(),
            cursor: self.alloc_cursor as int,
            redundant: self.rgd is Some,
            fixed: Set::new(|b: int| self.fixed_metadata.contains(b)),
            tables: Set::new(|b: int| self.grain_tables.contains(b)),
            floor: self.first_grain_byte as int,
            writable: self.writable,
            merged: Set::new(|i: int| 0 <= i <= usize::MAX && self.redundant_merged@.contains(i as usize)),
            content_id_bumped: self.content_id_bumped,
            unclean_marked: self.unclean_marked,
            reliable: self.dev.reliable(),
            journal: self.journal@,
        }
    }
}

impl<D: BlockRead> VmdkReader<D> {
    /// The device that the image lives on.
    pub closed spec fn device(&self) -> D {
        self.dev
    }

    /// What a reader shows is what its device holds, and it relies on the
    /// device as far as that does what it can.
    pub proof fn law_a_reader_shows_its_device(&self)
        ensures
            self@.contents == self.device().contents(),
            self@.reliable == self.device().reliable(),
    {
    }

    /// What holds of every reader.
    pub closed spec fn inv(&self) -> bool {
        &&& self.header.grain_size > 0
        &&& self.header.grain_size * 512 <= u64::MAX
        &&& self.header.num_gtes_per_gt > 0
        &&& self.header.num_gtes_per_gt <= crate::header::MAX_GTES_PER_GT
        &&& self.header.capacity * 512 == self.virtual_size
        &&& self.gd@.len() == table_count(self.header)
        &&& self.rgd is Some ==> self.rgd->0@.len() == self.gd@.len()
        &&& self.header.gd_offset * 512 + 4 * self.gd@.len() <= self.alloc_cursor * 512
        &&& self.header.gd_offset * 512 + 4 * self.gd@.len() <= u64::MAX
        &&& self.rgd is Some ==> self.header.rgd_offset * 512 + 4 * self.gd@.len()
            <= self.alloc_cursor * 512
        &&& self.rgd is Some ==> self.header.rgd_offset * 512 + 4 * self.gd@.len() <= u64::MAX
        &&& self.fixed_metadata.wf()
        &&& self.grain_tables.wf()
        &&& 2 <= self.alloc_cursor
        &&& self.alloc_cursor <= 0x80_0000_0000_0000
        &&& self.dev.size() <= self.alloc_cursor * 512
        &&& 512 <= self.first_grain_byte <= self.alloc_cursor * 512
        &&& self.descriptor_extent.0 == self.header.descriptor_offset * 512
        &&& self.descriptor_extent.1 == self.header.descriptor_size * 512
        &&& self.descriptor_extent.0 >= 512
        &&& self.descriptor_extent.0 + self.descriptor_extent.1 <= self.alloc_cursor * 512
        &&& self.descriptor_extent.0 + self.descriptor_extent.1 <= u64::MAX
        &&& self.descriptor_extent.1 <= usize::MAX
        &&& self.header.stream() ==> !self.writable && self@.record_bound() <= u64::MAX
            && self.header.grain_size * 512 <= usize::MAX
        &&& self.gt_cache.loaded matches Some((i, t)) ==> {
            &&& self.gt_cache.entries@.len() == self.header.num_gtes_per_gt
            &&& self@.table_refusal(t) is None
            &&& i < self.gd@.len()
            &&& t == self.gd@[i as int]
            &&& t != 0
        }
        &&& self.inflated matches Some(g) ==> self.header.stream() && g.grain@.len()
            == self.header.grain_size * 512
    }

    /// Whether what the reader remembers of the device is what the device
    /// holds: the directories, the cached grain table, the inflated grain.
    #[verifier::opaque]
    pub closed spec fn in_step(&self) -> bool {
        let c = self.dev.contents();
        let g = self@.geometry();
        &&& g.gd_at + 4 * g.tables <= c.len()
        &&& forall|i: int| 0 <= i < self.gd@.len() ==> #[trigger] self.gd@[i] == table_sector(g, c, i)
        &&& self.rgd matches Some(rgd) ==> {
            &&& self.header.rgd_offset * 512 + 4 * g.tables <= c.len()
            &&& forall|i: int| 0 <= i < rgd@.len() ==> #[trigger] rgd@[i] == copy_sector(g, c, i)
        }
        &&& self.gt_cache.loaded matches Some((i, t)) ==> {
            &&& t * 512 + 4 * g.per_table <= c.len()
            &&& forall|j: int|
                0 <= j < self.gt_cache.entries@.len() ==> #[trigger] self.gt_cache.entries@[j]
                    == entry_at(c, t * 512, j)
        }
        &&& self.inflated matches Some(x) ==> self@.inflated(x.sector, x.virtual_start as int) == Ok::<
            Seq<u8>,
            Error,
        >(x.grain@)
    }

    /// A reader on a healthy image, in step with it.
    pub open spec fn sound(&self) -> bool {
        self.inv() && self.in_step() && self@.sound()
    }

    /// Whether two readers differ at most in their device and in the
    /// journal of its states.
    pub closed spec fn same_but_device(&self, other: &Self) -> bool {
        &&& self.inflated == other.inflated
        &&& self.header == other.header
        &&& self.descriptor == other.descriptor
        &&& self.gd == other.gd
        &&& self.rgd == other.rgd
        &&& self.gt_cache == other.gt_cache
        &&& self.virtual_size == other.virtual_size
        &&& self.writable == other.writable
        &&& self.alloc_cursor == other.alloc_cursor
        &&& self.redundant_merged == other.redundant_merged
        &&& self.first_grain_byte == other.first_grain_byte
        &&& self.fixed_metadata == other.fixed_metadata
        &&& self.grain_tables == other.grain_tables
        &&& self.descriptor_extent == other.descriptor_extent
        &&& self.content_id_bumped == other.content_id_bumped
        &&& self.unclean_marked == other.unclean_marked
    }

    /// Whether two readers differ at most in what they have cached.
    pub closed spec fn same_but_caches(&self, other: &Self) -> bool {
        &&& self.dev == other.dev
        &&& self.header == other.header
        &&& self.descriptor == other.descriptor
        &&& self.gd == other.gd
        &&& self.rgd == other.rgd
        &&& self.virtual_size == other.virtual_size
        &&& self.writable == other.writable
        &&& self.alloc_cursor == other.alloc_cursor
        &&& self.redundant_merged == other.redundant_merged
        &&& self.first_grain_byte == other.first_grain_byte
        &&& self.fixed_metadata == other.fixed_metadata
        &&& self.grain_tables == other.grain_tables
        &&& self.descriptor_extent == other.descriptor_extent
        &&& self.content_id_bumped == other.content_id_bumped
        &&& self.unclean_marked == other.unclean_marked
        &&& self.journal == other.journal
    }
}

impl<D: BlockDevice> VmdkReader<D> {
    /// The furthest byte a write to the device can end at.
    pub closed spec fn limit(&self) -> int {
        self.dev.limit()
    }

    /// Whether the device takes every write the image can make.
    pub open spec fn steady(&self) -> bool {
        self@.reliable && self@.extent() <= self.limit() && u32::MAX * 512 <= self.limit()
    }

    /// Whether everything but the device, the journal, the cursor and the
    /// protected tables is as it was.
    pub closed spec fn same_but_tail(&self, other: &Self) -> bool {
        &&& self.inflated == other.inflated
        &&& self.header == other.header
        &&& self.descriptor == other.descriptor
        &&& self.gd == other.gd
        &&& self.rgd == other.rgd
        &&& self.gt_cache == other.gt_cache
        &&& self.virtual_size == other.virtual_size
        &&& self.writable == other.writable
        &&& self.redundant_merged == other.redundant_merged
        &&& self.first_grain_byte == other.first_grain_byte
        &&& self.fixed_metadata == other.fixed_metadata
        &&& self.descriptor_extent == other.descriptor_extent
        &&& self.content_id_bumped == other.content_id_bumped
        &&& self.unclean_marked == other.unclean_marked
    }

    /// Whether the tail is where it was, or further on and still
    /// addressable.
    pub closed spec fn tail_from(&self, before: &Self) -> bool {
        ||| self.alloc_cursor == before.alloc_cursor
        ||| before.alloc_cursor <= self.alloc_cursor <= u32::MAX
    }

    /// Whether two readers are of one session on one image, and have made
    /// the same marks on it.
    pub closed spec fn same_image(&self, other: &Self) -> bool {
        &&& self.same_layout(other)
        &&& self.content_id_bumped == other.content_id_bumped
        &&& self.unclean_marked == other.unclean_marked
    }

    /// Whether two readers are of one session on one image.
    pub closed spec fn same_layout(&self, other: &Self) -> bool {
        &&& self.header == other.header
        &&& self.descriptor == other.descriptor
        &&& self.virtual_size == other.virtual_size
        &&& self.writable == other.writable
        &&& self.first_grain_byte == other.first_grain_byte
        &&& self.fixed_metadata == other.fixed_metadata
        &&& self.descriptor_extent == other.descriptor_extent
        &&& self.rgd is Some == other.rgd is Some
        &&& self.gd@.len() == other.gd@.len()
    }

    /// Whether `addr` is a part of a grain of the disk.
    closed spec fn addresses(&self, addr: &GrainAddress) -> bool {
        let g = self@.geometry();
        let gi = addr.gt_idx * g.per_table + addr.gte_idx;
        &&& addr.gt_idx < self.gd@.len()
        &&& addr.gte_idx < g.per_table
        &&& g.has_grain(gi)
        &&& 0 < addr.chunk_len
        &&& addr.in_grain + addr.chunk_len <= g.used(gi)
    }

    /// Whether the grain at `addr` has no place, in an image whose fixed
    /// regions, table and copy are protected.
    closed spec fn vacancy(&self, addr: &GrainAddress) -> bool {
        let g = self@.geometry();
        let i = addr.gt_idx as int;
        let gi = i * g.per_table + addr.gte_idx;
        &&& self.inv()
        &&& self.writable
        &&& self.in_step()
        &&& self.addresses(addr)
        &&& self@.grounded()
        &&& self@.table_guarded(i)
        &&& self@.copy_guarded(i)
        &&& self@.entry(gi) is Ok
        &&& g.meaning(self@.entry(gi)->Ok_0) !is At
    }

    /// What an allocation that ran out of addressable sectors leaves: a
    /// sound reader with the disk it had.
    pub open spec fn out_of_room(before: &Self, after: &Self, sectors: int, e: Error) -> bool {
        &&& e == Error::Unsupported(allocate::GREW)
        &&& before@.cursor + sectors > u32::MAX
        &&& after.sound()
        &&& before@.keeps_to(&after@)
    }
}

/// A byte offset resolved into the grain hierarchy.
#[derive(Debug, Clone, Copy, PartialEq, Eq)]
struct GrainAddress {
    /// Offset within the grain.
    in_grain: u64,
    /// Index of the grain table in the grain directory.
    gt_idx: usize,
    /// Index of the grain within that table.
    gte_idx: usize,
    /// How many bytes of the caller's range this grain can serve.
    chunk_len: usize,
}

} // verus!
