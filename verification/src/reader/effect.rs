//! What a write does to an image, step by step.

use super::allocate::{merged_tables, GREW};
use super::open::TOO_LARGE;
use super::state::{bytes_at, hits, zeros, State};
use crate::bytes::le32_bytes;
use crate::error::{Error, Result};
use crate::image::{apart, copy_sector, entry_at, table_sector, GrainState};
use vstd::prelude::*;

verus! {

/// Whether `r` fails with `refusal`, or succeeds where there is none.
pub open spec fn outcome(r: Result<()>, refusal: Option<Error>) -> bool {
    match refusal {
        Some(e) => r == Err::<(), Error>(e),
        None => r is Ok,
    }
}

impl State {
    /// Whether the regions whose place the header states are apart, in the
    /// image and protected.
    pub open spec fn grounded(&self) -> bool {
        let g = self.geometry();
        &&& self.charted()
        &&& 0 <= self.cursor
        &&& self.floor <= self.extent()
        &&& g.gd_at + 4 * g.tables <= self.extent()
        &&& g.gd_at + 4 * g.tables <= self.contents.len()
        &&& g.rgd_at is Some ==> g.rgd_at->0 + 4 * g.tables <= self.extent()
        &&& g.rgd_at is Some ==> g.rgd_at->0 + 4 * g.tables <= self.contents.len()
        &&& forall|b: int| #[trigger] g.fixed(b) ==> self.fixed.contains(b)
        &&& forall|b: int| #[trigger] self.fixed.contains(b) ==> b < self.extent()
        &&& forall|b: int| #[trigger] self.tables.contains(b) ==> b < self.extent()
    }

    /// Whether the table that entry `i` of the directory names is refused,
    /// or clear of the fixed regions and protected.
    pub open spec fn table_guarded(&self, i: int) -> bool {
        let g = self.geometry();
        let t = table_sector(g, self.contents, i);
        t != 0 && self.table_refusal(t) is None ==> {
            &&& t * 512 + g.table_span() <= self.extent()
            &&& t * 512 + g.table_span() <= self.contents.len()
            &&& !hits(self.fixed, t * 512, t * 512 + g.table_span())
            &&& forall|b: int|
                t * 512 <= b < t * 512 + 4 * g.per_table ==> #[trigger] self.tables.contains(b)
        }
    }

    /// Whether table `i` and its redundant copy, where neither is refused,
    /// are apart and in the device.
    pub open spec fn copy_guarded(&self, i: int) -> bool {
        let g = self.geometry();
        let t = table_sector(g, self.contents, i);
        let q = copy_sector(g, self.contents, i);
        t != 0 && self.table_refusal(t) is None && q != 0 && self.copy_refusal(q) is None ==> {
            &&& q * 512 + g.table_span() <= self.contents.len()
            &&& apart(
                (t * 512, t * 512 + g.table_span()),
                (q * 512, q * 512 + g.table_span()),
            )
        }
    }

    /// Whether grain `gi` has a place.
    pub open spec fn has_place(&self, gi: int) -> bool {
        self.entry(gi) matches Ok(entry) && self.geometry().meaning(entry) is At
    }

    /// Whether what a write to grain `gi` rests on is protected: the
    /// regions whose place the header states, the grain's table and, where
    /// the grain has yet to be given a place, the table's copy.
    pub open spec fn guarded_at(&self, gi: int) -> bool {
        let i = gi / self.geometry().per_table;
        &&& self.grounded()
        &&& self.table_guarded(i)
        &&& self.has_place(gi) || self.copy_guarded(i)
    }

    /// Whether an image's metadata is protected: the regions whose place
    /// the header states, and every grain table that is not refused.
    pub open spec fn guarded(&self) -> bool {
        let g = self.geometry();
        &&& self.grounded()
        &&& forall|i: int| 0 <= i < g.tables ==> #[trigger] self.table_guarded(i)
        &&& forall|i: int| 0 <= i < g.tables ==> #[trigger] self.copy_guarded(i)
    }

    /// Whether no entry of a directory names a place past the end.
    pub open spec fn rooted(&self) -> bool {
        forall|i: int| 0 <= i < self.geometry().tables ==> #[trigger] self.entry_rooted(i)
    }

    /// Whether neither entry `i` of the directories names a place past the
    /// end.
    pub open spec fn entry_rooted(&self, i: int) -> bool {
        let g = self.geometry();
        let t = table_sector(g, self.contents, i);
        let q = copy_sector(g, self.contents, i);
        &&& t == 0 || t * 512 + g.table_span() <= self.extent()
        &&& q == 0 || q * 512 + g.table_span() <= self.extent()
    }

    /// Whether `n` more sectors at the tail can be addressed.
    pub open spec fn room(&self, n: int) -> bool {
        self.cursor + n <= u32::MAX
    }

    /// This state with entry `i` of a directory naming sector `t`, durably.
    pub open spec fn published(&self, redundant: bool, i: int, t: int) -> State {
        self.wrote(self.directory_at(redundant) + 4 * i, le32_bytes(t as u32)).synced()
    }

    /// This state with an empty table `i` in each directory, or as far as
    /// that got. The redundant directory leads.
    #[verifier::opaque]
    pub open spec fn with_table(&self, i: int) -> (State, Option<Error>) {
        let n = self.table_sectors();
        let first = self.with_blank_table();
        if !self.room(n) {
            (*self, Some(Error::Unsupported(GREW)))
        } else if !self.redundant {
            (first.published(false, i, self.cursor), None)
        } else if !first.room(n) {
            (first, Some(Error::Unsupported(GREW)))
        } else {
            (
                first.with_blank_table().published(true, i, first.cursor).published(
                    false,
                    i,
                    self.cursor,
                ),
                None,
            )
        }
    }

    /// Why the redundant copy of a grain table at `sector` is refused,
    /// where it is.
    pub open spec fn copy_refusal(&self, sector: u32) -> Option<Error> {
        let off = sector * 512;
        let end = off + self.geometry().table_span();
        if end > self.extent() {
            Some(Error::Corrupt("redundant grain table extends past EOF"))
        } else if hits(self.fixed, off, end) {
            Some(Error::Corrupt("redundant grain table overlaps the image's metadata"))
        } else {
            None
        }
    }

    /// This state with every entry that the table at `q` lacks filled from
    /// the table at `p`, durably. Where none is to be filled, nothing is
    /// written.
    pub open spec fn merged_into(&self, p: u32, q: u32) -> State {
        let span = self.geometry().table_span();
        let r = bytes_at(self.contents, q * 512, span);
        let m = merged_tables(bytes_at(self.contents, p * 512, span), r);
        if m == r {
            *self
        } else {
            self.wrote(q * 512, m).synced()
        }
    }

    /// This state with every entry that the copy at `q` of table `i` lacks
    /// filled from the table at `p`.
    pub open spec fn with_merged_copy(&self, i: int, p: u32, q: u32) -> State {
        let n = self.merged_into(p, q);
        State { merged: n.merged.insert(i), ..n }
    }

    /// This state with a copy of table `i`, which is at `p`, at the tail.
    pub open spec fn with_seeded_copy(&self, i: int, p: u32) -> State {
        let span = self.geometry().table_span();
        let b = self.with_blank_table();
        let n = b.wrote(self.cursor * 512, bytes_at(b.contents, p * 512, span)).synced().published(
            true,
            i,
            self.cursor,
        );
        State { merged: n.merged.insert(i), ..n }
    }

    /// This state with a redundant copy of table `i` that holds all the
    /// table holds, in an image that has copies, or why there can be none.
    pub open spec fn with_copy(&self, i: int) -> (State, Option<Error>) {
        let g = self.geometry();
        let p = table_sector(g, self.contents, i);
        let q = copy_sector(g, self.contents, i);
        if !self.redundant {
            (*self, None)
        } else if q != 0 {
            match self.copy_refusal(q) {
                Some(e) => (*self, Some(e)),
                None => if self.merged.contains(i) {
                    (*self, None)
                } else {
                    (self.with_merged_copy(i, p, q), None)
                },
            }
        } else if !self.room(self.table_sectors()) {
            (*self, Some(Error::Unsupported(GREW)))
        } else {
            (self.with_seeded_copy(i, p), None)
        }
    }

    /// This state with a grain at the tail that holds `src` at `k` and
    /// zeros around it, durably, or as far as that got.
    pub open spec fn with_grain(&self, k: int, src: Seq<u8>) -> (State, Option<Error>) {
        let gb = self.geometry().grain_bytes;
        let lo = self.cursor * 512;
        let a = State { cursor: self.cursor + self.header.grain_size, ..*self };
        let part = k != 0 || src.len() < gb;
        if !self.room(self.header.grain_size as int) {
            (*self, Some(Error::Unsupported(GREW)))
        } else if part && gb > usize::MAX {
            (a, Some(Error::Unsupported(TOO_LARGE)))
        } else {
            let b = if part {
                a.wrote(lo, zeros(gb))
            } else {
                a
            };
            (b.wrote(lo + k, src).synced(), None)
        }
    }

    /// This state with entry `j` of table `i`, and of its copy before it,
    /// naming sector `new`.
    pub open spec fn with_entry(&self, i: int, j: int, new: u32) -> State {
        let g = self.geometry();
        let p = table_sector(g, self.contents, i);
        let q = copy_sector(g, self.contents, i);
        let a = if self.redundant {
            self.wrote(q * 512 + 4 * j, le32_bytes(new)).synced()
        } else {
            *self
        };
        a.wrote(p * 512 + 4 * j, le32_bytes(new))
    }

    /// What giving grain `j` of table `i` a place with `src` at `k` in it
    /// comes to: a copy of the table that is not behind, the grain, and
    /// only then its entry.
    #[verifier::opaque]
    pub open spec fn with_grain_in_table(&self, i: int, j: int, k: int, src: Seq<u8>) -> (
        State,
        Option<Error>,
    ) {
        let copied = self.with_copy(i);
        if copied.1 is Some {
            copied
        } else {
            let laid = copied.0.with_grain(k, src);
            if laid.1 is Some {
                laid
            } else {
                (laid.0.with_entry(i, j, copied.0.cursor as u32), None)
            }
        }
    }

    /// What writing `src` at `k` inside grain `j` of table `i` comes to
    /// where the grain has no place: a table where there is none, then the
    /// grain.
    pub open spec fn with_new_grain(&self, i: int, j: int, k: int, src: Seq<u8>) -> (
        State,
        Option<Error>,
    ) {
        if table_sector(self.geometry(), self.contents, i) == 0 {
            let tabled = self.with_table(i);
            if tabled.1 is Some {
                tabled
            } else {
                tabled.0.with_grain_in_table(i, j, k, src)
            }
        } else {
            self.with_grain_in_table(i, j, k, src)
        }
    }

    /// What writing `part` at `v`, inside one grain, comes to, and why it
    /// is refused where it is.
    #[verifier::opaque]
    pub open spec fn with_part(&self, v: int, part: Seq<u8>) -> (State, Option<Error>) {
        let g = self.geometry();
        let gi = v / g.grain_bytes;
        let k = v % g.grain_bytes;
        match self.entry(gi) {
            Err(e) => (*self, Some(e)),
            Ok(entry) => match g.meaning(entry) {
                GrainState::At(sector) => match self.host_offset(sector, k, part.len() as int) {
                    Err(e) => (*self, Some(e)),
                    Ok(off) => (self.wrote(off, part), None),
                },
                _ => self.with_new_grain(gi / g.per_table, gi % g.per_table, k, part),
            },
        }
    }

    /// What writing `data` at `v` comes to, grain by grain, up to the first
    /// one that is refused. `None` where it comes to a grain whose table is
    /// not protected.
    pub open spec fn with_data(&self, v: int, data: Seq<u8>) -> Option<(State, Option<Error>)>
        decreases data.len(),
    {
        let n = self.chunk_len(v, v + data.len());
        if data.len() == 0 || n <= 0 {
            Some((*self, None))
        } else if !self.guarded_at(v / self.geometry().grain_bytes) {
            None
        } else {
            let (s, refusal) = self.with_part(v, data.subrange(0, n));
            if refusal is Some {
                Some((s, refusal))
            } else {
                s.with_data(v + n, data.subrange(n, data.len() as int))
            }
        }
    }
}

impl State {
    /// Where the copy of table `i` is once it is prepared, in an image that
    /// has copies.
    pub open spec fn copy_at(&self, i: int) -> Option<u32> {
        let q = copy_sector(self.geometry(), self.contents, i);
        if !self.redundant {
            None
        } else if q != 0 {
            Some(q)
        } else {
            Some(self.cursor as u32)
        }
    }

    /// Whether table `i` is there, and its copy in an image that has
    /// copies, and neither is refused or behind.
    pub open spec fn prepared(&self, i: int) -> bool {
        let g = self.geometry();
        let t = table_sector(g, self.contents, i);
        let q = copy_sector(g, self.contents, i);
        &&& self.grounded()
        &&& 0 <= i < g.tables
        &&& t != 0
        &&& self.table_refusal(t) is None
        &&& self.table_guarded(i)
        &&& self.redundant ==> {
            &&& q != 0
            &&& self.copy_refusal(q) is None
            &&& self.copy_guarded(i)
            &&& self.merged.contains(i)
        }
    }

    /// Whether byte `b` belongs to a redundant copy of table `i` that is not
    /// refused.
    pub open spec fn in_copy(&self, i: int, b: int) -> bool {
        let g = self.geometry();
        let q = copy_sector(g, self.contents, i);
        q != 0 && self.copy_refusal(q) is None && q * 512 <= b < q * 512 + g.table_span()
    }

    /// Whether `n` has the bytes of this state below `end`.
    pub open spec fn agrees_below(&self, n: &State, end: int) -> bool {
        &&& self.contents.len() <= n.contents.len()
        &&& forall|b: int|
            0 <= b < end && b < self.contents.len() ==> #[trigger] n.contents[b]
                == self.contents[b]
    }

    /// Whether `n` has the header sector and the descriptor of this state.
    pub open spec fn keeps_text(&self, n: &State) -> bool {
        forall|b: int| #[trigger] self.is_text(b) ==> n.contents[b] == self.contents[b]
    }

    /// Whether the directories of `n` are those of this state.
    pub open spec fn keeps_directories(&self, n: &State) -> bool {
        let g = self.geometry();
        &&& forall|k: int|
            0 <= k < g.tables ==> #[trigger] table_sector(g, n.contents, k) == table_sector(
                g,
                self.contents,
                k,
            )
        &&& forall|k: int|
            0 <= k < g.tables ==> #[trigger] copy_sector(g, n.contents, k) == copy_sector(
                g,
                self.contents,
                k,
            )
    }
}

/// A range that no byte of a set is in is clear of a range whose every byte
/// is.
pub(super) proof fn lemma_clear(bytes: Set<int>, lo: int, hi: int, from: int, to: int)
    requires
        !hits(bytes, lo, hi),
        lo < hi,
        from < to,
        forall|b: int| from <= b < to ==> #[trigger] bytes.contains(b),
    ensures
        apart((lo, hi), (from, to)),
{
    if !apart((lo, hi), (from, to)) {
        let b = if lo < from {
            from
        } else {
            lo
        };
        assert(bytes.contains(b));
    }
}

/// A range clear of the fixed regions is apart from both directories, and
/// has no byte of the header sector or the descriptor.
pub(super) proof fn lemma_clear_of_fixed(s: State, lo: int, hi: int)
    requires
        s.grounded(),
        lo < hi,
        !hits(s.fixed, lo, hi),
    ensures
        ({
            let g = s.geometry();
            &&& g.tables > 0 ==> apart((lo, hi), (g.gd_at, g.gd_at + 4 * g.tables))
            &&& g.tables > 0 && g.rgd_at is Some ==> apart(
                (lo, hi),
                (g.rgd_at->0, g.rgd_at->0 + 4 * g.tables),
            )
            &&& forall|b: int| lo <= b < hi ==> !#[trigger] s.is_text(b)
        }),
{
    let g = s.geometry();
    assert(4 * g.tables <= g.dir_span());
    if g.tables > 0 {
        assert forall|b: int|
            g.gd_at <= b < g.gd_at + 4 * g.tables implies #[trigger] s.fixed.contains(b) by {
            assert(g.fixed(b));
        }
        lemma_clear(s.fixed, lo, hi, g.gd_at, g.gd_at + 4 * g.tables);
        if let Some(at) = g.rgd_at {
            assert forall|b: int| at <= b < at + 4 * g.tables implies #[trigger] s.fixed.contains(
                b,
            ) by {
                assert(g.fixed(b));
            }
            lemma_clear(s.fixed, lo, hi, at, at + 4 * g.tables);
        }
    }
    assert forall|b: int| lo <= b < hi implies !#[trigger] s.is_text(b) by {
        if s.is_text(b) {
            assert(s.fixed.contains(b));
        }
    }
}

/// A write clear of the fixed regions leaves an image grounded, with the
/// directories and the text it had.
pub(super) proof fn lemma_clear_write(s: State, off: int, data: Seq<u8>)
    requires
        s.grounded(),
        0 <= off,
        0 < data.len(),
        !hits(s.fixed, off, off + data.len()),
    ensures
        s.wrote(off, data).grounded(),
        s.wrote(off, data).geometry() == s.geometry(),
        s.keeps_directories(&s.wrote(off, data)),
        s.keeps_text(&s.wrote(off, data)),
{
    let n = s.wrote(off, data);
    let g = s.geometry();
    assert(n.geometry() == g);
    lemma_clear_of_fixed(s, off, off + data.len());
    assert forall|b: int| #[trigger] s.is_text(b) implies n.contents[b] == s.contents[b] by {}
    assert forall|b: int| #[trigger] n.is_text(b) implies n.fixed.contains(b) by {
        assert(s.is_text(b));
    }
    assert forall|k: int| 0 <= k < g.tables implies #[trigger] table_sector(g, n.contents, k)
        == table_sector(g, s.contents, k) by {
        crate::image::lemma_entry_kept(s.contents, off, data, g.gd_at, k);
    }
    assert forall|k: int| 0 <= k < g.tables implies #[trigger] copy_sector(g, n.contents, k)
        == copy_sector(g, s.contents, k) by {
        if let Some(at) = g.rgd_at {
            crate::image::lemma_entry_kept(s.contents, off, data, at, k);
        }
    }
}

/// What publishing an entry of a directory leaves.
pub(super) proof fn lemma_publish_frame(s: State, redundant: bool, i: int, t: int)
    requires
        s.grounded(),
        0 <= i < s.geometry().tables,
        redundant ==> s.redundant,
        0 <= t <= u32::MAX,
    ensures
        ({
            let n = s.published(redundant, i, t);
            let g = s.geometry();
            &&& n.grounded()
            &&& n.geometry() == g
            &&& n.contents.len() == s.contents.len()
            &&& s.keeps_text(&n)
            &&& forall|b: int|
                0 <= b < s.contents.len() && !s.fixed.contains(b) ==> #[trigger] n.contents[b]
                    == s.contents[b]
            &&& forall|k: int|
                0 <= k < g.tables ==> #[trigger] table_sector(g, n.contents, k) == (if k == i
                    && !redundant {
                    t as u32
                } else {
                    table_sector(g, s.contents, k)
                })
            &&& forall|k: int|
                0 <= k < g.tables ==> #[trigger] copy_sector(g, n.contents, k) == (if k == i
                    && redundant {
                    t as u32
                } else {
                    copy_sector(g, s.contents, k)
                })
        }),
{
    let n = s.published(redundant, i, t);
    let g = s.geometry();
    let at = s.directory_at(redundant) + 4 * i;
    let data = le32_bytes(t as u32);
    let c = s.contents;
    let d = n.contents;
    crate::bytes::law_le32_round_trip(t as u32);
    assert(n.geometry() == g);
    assert(4 * g.tables <= g.dir_span());
    assert(s.directory_at(redundant) == (if redundant {
        g.rgd_at->0
    } else {
        g.gd_at
    }));
    assert(at + 4 <= c.len());
    assert(d.len() == c.len());
    assert(d[at] == data[0] && d[at + 1] == data[1] && d[at + 2] == data[2] && d[at + 3] == data[3]);
    assert forall|b: int| #[trigger] s.is_text(b) implies d[b] == c[b] by {}
    assert forall|b: int| 0 <= b < c.len() && !s.fixed.contains(b) implies #[trigger] d[b]
        == c[b] by {
        if at <= b < at + 4 {
            assert(g.fixed(b));
        }
    }
    assert forall|b: int| #[trigger] n.is_text(b) implies n.fixed.contains(b) by {
        assert(s.is_text(b));
    }
    assert forall|k: int| 0 <= k < g.tables implies #[trigger] table_sector(g, d, k) == (if k == i
        && !redundant {
        t as u32
    } else {
        table_sector(g, c, k)
    }) by {
        if k != i || redundant {
            crate::image::lemma_entry_kept(c, at, data, g.gd_at, k);
        }
    }
    assert forall|k: int| 0 <= k < g.tables implies #[trigger] copy_sector(g, d, k) == (if k == i
        && redundant {
        t as u32
    } else {
        copy_sector(g, c, k)
    }) by {
        if let Some(from) = g.rgd_at {
            if k != i || !redundant {
                crate::image::lemma_entry_kept(c, at, data, from, k);
            }
        }
    }
}

/// What an empty table at the tail leaves.
pub(super) proof fn lemma_blank_frame(s: State)
    requires
        s.grounded(),
        s.room(s.table_sectors()),
    ensures
        ({
            let n = s.with_blank_table();
            let g = s.geometry();
            let lo = s.cursor * 512;
            let hi = lo + g.table_span();
            &&& n.grounded()
            &&& n.geometry() == g
            &&& n.cursor == s.cursor + s.table_sectors()
            &&& s.extent() == lo
            &&& n.extent() == hi
            &&& hi <= n.contents.len()
            &&& s.agrees_below(&n, lo)
            &&& s.keeps_text(&n)
            &&& s.keeps_directories(&n)
            &&& forall|b: int| lo <= b < hi ==> #[trigger] n.contents[b] == 0
            &&& forall|b: int| lo <= b < hi ==> #[trigger] n.tables.contains(b)
            &&& !hits(n.fixed, lo, hi)
            &&& 0 < g.table_span()
            &&& 4 * g.per_table <= g.table_span()
        }),
{
    let n = s.with_blank_table();
    let g = s.geometry();
    let span = g.table_span();
    let lo = s.cursor * 512;
    assert(span == s.table_sectors() * 512);
    let a = State {
        cursor: s.cursor + s.table_sectors(),
        tables: s.tables.union(Set::new(|b: int| lo <= b < lo + span)),
        ..s
    };
    assert(a.geometry() == g);
    assert(!hits(s.fixed, lo, lo + span)) by {
        if hits(s.fixed, lo, lo + span) {
            let b = choose|b: int| lo <= b < lo + span && #[trigger] s.fixed.contains(b);
            assert(b < s.extent());
        }
    }
    let w = s.wrote(lo, zeros(span));
    lemma_clear_write(s, lo, zeros(span));
    assert(n.contents == w.contents);
    assert forall|b: int| #[trigger] n.is_text(b) implies n.fixed.contains(b) by {
        assert(s.is_text(b));
    }
}

/// What allocating a table leaves: both directories name it, it is empty
/// and protected, and nothing below the tail has changed but its entries.
pub(super) proof fn lemma_with_table(s: State, i: int)
    requires
        s.grounded(),
        0 <= i < s.geometry().tables,
        table_sector(s.geometry(), s.contents, i) == 0,
        1 <= s.cursor,
    ensures
        ({
            let (n, refusal) = s.with_table(i);
            let g = s.geometry();
            let t = s.cursor as u32;
            &&& n.grounded()
            &&& n.geometry() == g
            &&& s.same_open(&n)
            &&& n.merged == s.merged
            &&& s.cursor <= n.cursor
            &&& s.extent() <= n.extent()
            &&& s.contents.len() <= n.contents.len()
            &&& s.keeps_text(&n)
            &&& forall|b: int|
                0 <= b < s.extent() && b < s.contents.len() && !s.fixed.contains(b)
                    ==> #[trigger] n.contents[b] == s.contents[b]
            &&& forall|b: int|
                #[trigger] n.tables.contains(b) ==> s.tables.contains(b) || b >= s.extent()
            &&& forall|b: int| #[trigger] s.tables.contains(b) ==> n.tables.contains(b)
            &&& refusal is Some ==> s.keeps_directories(&n)
            &&& refusal is None && s.redundant ==> forall|b: int|
                (t + s.table_sectors()) * 512 <= b < (t + s.table_sectors()) * 512 + g.table_span()
                    ==> #[trigger] n.tables.contains(b)
            &&& refusal is None ==> {
                &&& s.room(s.table_sectors())
                &&& s.redundant ==> s.cursor + 2 * s.table_sectors() <= u32::MAX
                &&& forall|k: int|
                    0 <= k < g.tables ==> #[trigger] table_sector(g, n.contents, k) == (if k == i {
                        t
                    } else {
                        table_sector(g, s.contents, k)
                    })
                &&& forall|k: int|
                    0 <= k < g.tables ==> #[trigger] copy_sector(g, n.contents, k) == (if k == i
                        && s.redundant {
                        (t + s.table_sectors()) as u32
                    } else {
                        copy_sector(g, s.contents, k)
                    })
                &&& n.table_refusal(t) is None
                &&& n.table_guarded(i)
                &&& n.copy_guarded(i)
                &&& forall|j: int|
                    0 <= j < g.per_table ==> #[trigger] entry_at(n.contents, t * 512, j) == 0
                &&& t * 512 + g.table_span() <= n.contents.len()
            }
        }),
{
    reveal(State::with_table);
    let g = s.geometry();
    let ts = s.table_sectors();
    let span = g.table_span();
    let t = s.cursor as u32;
    let lo = s.cursor * 512;
    if s.room(ts) {
        let first = s.with_blank_table();
        lemma_blank_frame(s);
        if !s.redundant {
            lemma_publish_frame(first, false, i, s.cursor);
            lemma_new_table(s, first, first.published(false, i, s.cursor), i);
        } else if first.room(ts) {
            let second = first.with_blank_table();
            lemma_blank_frame(first);
            let q = first.cursor;
            lemma_publish_frame(second, true, i, q);
            let led = second.published(true, i, q);
            lemma_publish_frame(led, false, i, s.cursor);
            let n = led.published(false, i, s.cursor);
            assert(second.keeps_text(&led) && led.keeps_text(&n) && first.keeps_text(&second));
            assert forall|b: int| #[trigger] s.is_text(b) implies n.contents[b] == s.contents[b] by {
                assert(first.is_text(b) && second.is_text(b) && led.is_text(b));
            }
            assert forall|b: int|
                lo <= b < lo + span implies #[trigger] second.contents[b] == 0 by {
                assert(first.contents[b] == 0);
            }
            lemma_new_table(s, second, n, i);
        }
    }
}

/// A published table at the tail is empty, protected and not refused.
proof fn lemma_new_table(s: State, m: State, n: State, i: int)
    requires
        s.grounded(),
        s.room(s.table_sectors()),
        n.grounded(),
        m.geometry() == s.geometry(),
        n.geometry() == s.geometry(),
        n.fixed == s.fixed,
        n.header == s.header,
        n.redundant == s.redundant,
        n.tables == m.tables,
        s.cursor >= 1,
        0 <= i < s.geometry().tables,
        n.extent() >= s.cursor * 512 + s.geometry().table_span(),
        s.extent() == s.cursor * 512,
        n.contents.len() == m.contents.len(),
        s.cursor * 512 + s.geometry().table_span() <= m.contents.len(),
        forall|b: int|
            s.cursor * 512 <= b < s.cursor * 512 + s.geometry().table_span()
                ==> #[trigger] m.contents[b] == 0,
        forall|b: int|
            s.cursor * 512 <= b < s.cursor * 512 + s.geometry().table_span()
                ==> #[trigger] m.tables.contains(b),
        forall|b: int|
            0 <= b < m.contents.len() && !s.fixed.contains(b) ==> #[trigger] n.contents[b]
                == m.contents[b],
        table_sector(s.geometry(), n.contents, i) == s.cursor,
        ({
            let q = copy_sector(s.geometry(), n.contents, i);
            let span = s.geometry().table_span();
            s.redundant ==> q * 512 >= s.cursor * 512 + span && q * 512 + span <= n.contents.len()
        }),
        4 * s.geometry().per_table <= s.geometry().table_span(),
    ensures
        n.table_refusal(s.cursor as u32) is None,
        n.table_guarded(i),
        n.copy_guarded(i),
        forall|j: int|
            0 <= j < s.geometry().per_table ==> #[trigger] entry_at(
                n.contents,
                (s.cursor as u32) * 512,
                j,
            ) == 0,
{
    let g = s.geometry();
    let lo = s.cursor * 512;
    let hi = lo + g.table_span();
    assert(!hits(n.fixed, lo, hi)) by {
        if hits(n.fixed, lo, hi) {
            let b = choose|b: int| lo <= b < hi && #[trigger] n.fixed.contains(b);
            assert(s.fixed.contains(b));
            assert(b < s.extent());
        }
    }
    if hits(n.fixed, lo, lo + 4 * g.per_table) {
        let b = choose|b: int| lo <= b < lo + 4 * g.per_table && #[trigger] n.fixed.contains(b);
        assert(hits(n.fixed, lo, hi));
    }
    assert forall|b: int| lo <= b < hi implies #[trigger] n.contents[b] == 0 by {
        if s.fixed.contains(b) {
            assert(b < s.extent());
        }
        assert(m.contents[b] == 0);
    }
    assert forall|j: int| 0 <= j < g.per_table implies #[trigger] entry_at(n.contents, lo, j)
        == 0 by {
        crate::bytes::lemma_le32_zero(n.contents, lo + 4 * j);
    }
}

/// What preparing the copy of a table leaves: the table and everything else
/// that a read follows as it was.
pub(super) proof fn lemma_with_copy(s: State, i: int)
    requires
        s.grounded(),
        0 <= i < s.geometry().tables,
        table_sector(s.geometry(), s.contents, i) != 0,
        s.table_refusal(table_sector(s.geometry(), s.contents, i)) is None,
        s.table_guarded(i),
        s.copy_guarded(i),
        1 <= s.cursor,
    ensures
        ({
            let (n, refusal) = s.with_copy(i);
            let g = s.geometry();
            let t = table_sector(g, s.contents, i);
            &&& n.grounded()
            &&& n.geometry() == g
            &&& s.same_open(&n)
            &&& s.cursor <= n.cursor
            &&& s.contents.len() <= n.contents.len()
            &&& s.keeps_text(&n)
            &&& refusal is Some ==> n == s
            &&& forall|k: int|
                0 <= k < g.tables ==> #[trigger] table_sector(g, n.contents, k) == table_sector(
                    g,
                    s.contents,
                    k,
                )
            &&& refusal is None ==> forall|k: int|
                0 <= k < g.tables ==> #[trigger] copy_sector(g, n.contents, k) == (if k == i
                    && s.redundant {
                    s.copy_at(i)->0
                } else {
                    copy_sector(g, s.contents, k)
                })
            &&& forall|b: int|
                t * 512 <= b < t * 512 + g.table_span() ==> #[trigger] n.contents[b]
                    == s.contents[b]
            &&& forall|b: int|
                0 <= b < s.extent() && b < s.contents.len() && !s.fixed.contains(b)
                    && !s.in_copy(i, b) ==> #[trigger] n.contents[b] == s.contents[b]
            &&& forall|b: int|
                #[trigger] n.tables.contains(b) ==> s.tables.contains(b) || b >= s.extent()
            &&& forall|b: int| #[trigger] s.tables.contains(b) ==> n.tables.contains(b)
            &&& refusal is None && s.redundant && copy_sector(g, s.contents, i) == 0
                ==> forall|b: int|
                s.cursor * 512 <= b < s.cursor * 512 + g.table_span()
                    ==> #[trigger] n.tables.contains(b)
            &&& refusal is None ==> n.prepared(i)
        }),
{
    let g = s.geometry();
    let p = table_sector(g, s.contents, i);
    let q = copy_sector(g, s.contents, i);
    let span = g.table_span();
    assert(0 < 4 * g.per_table <= span);
    if s.redundant && q != 0 && s.copy_refusal(q) is None && !s.merged.contains(i) {
        let r = bytes_at(s.contents, q * 512, span);
        let m = merged_tables(bytes_at(s.contents, p * 512, span), r);
        assert(m.len() == span);
        if m != r {
            lemma_clear_write(s, q * 512, m);
        }
        let n = s.with_merged_copy(i, p, q);
        assert(n.grounded()) by {
            lemma_merge_noted(s, n, m, q, m != r);
        }
        assert(n.copy_guarded(i) && n.table_guarded(i));
    } else if s.redundant && q == 0 && s.room(s.table_sectors()) {
        let b = s.with_blank_table();
        let lo = s.cursor * 512;
        lemma_blank_frame(s);
        let data = bytes_at(b.contents, p * 512, span);
        lemma_clear_write(b, lo, data);
        let w = b.wrote(lo, data).synced();
        assert(w.grounded()) by {
            lemma_synced_grounded(b.wrote(lo, data));
        }
        lemma_publish_frame(w, true, i, s.cursor);
        let v = w.published(true, i, s.cursor);
        let n = s.with_seeded_copy(i, p);
        lemma_noted_grounded(v, n);
        assert forall|x: int| p * 512 <= x < p * 512 + span implies #[trigger] n.contents[x]
            == s.contents[x] by {
            assert(!s.fixed.contains(x)) by {
                if s.fixed.contains(x) {
                    assert(hits(s.fixed, p * 512, p * 512 + span));
                }
            }
            assert(b.contents[x] == s.contents[x]);
        }
        assert forall|x: int| #[trigger] s.is_text(x) implies n.contents[x] == s.contents[x] by {
            assert(b.is_text(x) && w.is_text(x));
        }
        assert(n.table_refusal(p) is None);
        assert(n.table_guarded(i));
        assert(n.copy_refusal(s.cursor as u32) is None);
        assert(n.copy_guarded(i));
    }
}

/// Noting that a copy is merged leaves the image grounded.
proof fn lemma_noted_grounded(s: State, n: State)
    requires
        s.grounded(),
        n == (State { merged: n.merged, ..s }),
    ensures
        n.grounded(),
        n.geometry() == s.geometry(),
{
    assert(n.geometry() == s.geometry());
    assert forall|b: int| #[trigger] n.is_text(b) implies n.fixed.contains(b) by {
        assert(s.is_text(b));
    }
}

/// A flush leaves the image grounded.
pub(super) proof fn lemma_synced_grounded(s: State)
    requires
        s.grounded(),
    ensures
        s.synced().grounded(),
        s.synced().geometry() == s.geometry(),
{
    let n = s.synced();
    assert(n.geometry() == s.geometry());
    assert forall|b: int| #[trigger] n.is_text(b) implies n.fixed.contains(b) by {
        assert(s.is_text(b));
    }
}

proof fn lemma_merge_noted(s: State, n: State, m: Seq<u8>, q: u32, changed: bool)
    requires
        s.grounded(),
        changed ==> s.wrote(q * 512, m).grounded(),
        n == (State {
            merged: n.merged,
            ..if changed {
                s.wrote(q * 512, m).synced()
            } else {
                s
            }
        }),
    ensures
        n.grounded(),
{
    if changed {
        lemma_synced_grounded(s.wrote(q * 512, m));
        lemma_noted_grounded(s.wrote(q * 512, m).synced(), n);
    } else {
        lemma_noted_grounded(s, n);
    }
}

/// What laying a grain at the tail leaves: everything below the tail as it
/// was.
pub(super) proof fn lemma_with_grain(s: State, i: int, k: int, src: Seq<u8>)
    requires
        s.prepared(i),
        0 <= k,
        0 < src.len(),
        k + src.len() <= s.geometry().grain_bytes,
    ensures
        ({
            let (n, refusal) = s.with_grain(k, src);
            let g = s.geometry();
            let lo = s.cursor * 512;
            &&& n.geometry() == g
            &&& s.same_open(&n)
            &&& n.tables == s.tables
            &&& n.merged == s.merged
            &&& s.agrees_below(&n, s.extent())
            &&& s.keeps_text(&n)
            &&& s.keeps_directories(&n)
            &&& refusal is None ==> {
                &&& n.prepared(i)
                &&& s.extent() == lo
                &&& n.extent() == lo + g.grain_bytes
                &&& lo + g.grain_bytes <= n.contents.len()
                &&& !hits(n.fixed, lo, lo + g.grain_bytes)
                &&& !hits(n.tables, lo, lo + g.grain_bytes)
                &&& forall|x: int|
                    0 <= x < g.grain_bytes ==> #[trigger] n.contents[lo + x] == (if k <= x < k
                        + src.len() {
                        src[x - k]
                    } else {
                        0
                    })
            }
        }),
{
    let g = s.geometry();
    let gb = g.grain_bytes;
    let lo = s.cursor * 512;
    let a = State { cursor: s.cursor + s.header.grain_size, ..s };
    assert(a.geometry() == g);
    if s.room(s.header.grain_size as int) && !((k != 0 || src.len() < gb) && gb > usize::MAX) {
        assert(s.extent() == lo);
        assert(!hits(s.fixed, lo, lo + gb)) by {
            if hits(s.fixed, lo, lo + gb) {
                let b = choose|b: int| lo <= b < lo + gb && #[trigger] s.fixed.contains(b);
            }
        }
        assert(!hits(s.tables, lo, lo + gb)) by {
            if hits(s.tables, lo, lo + gb) {
                let b = choose|b: int| lo <= b < lo + gb && #[trigger] s.tables.contains(b);
            }
        }
        assert(!hits(s.fixed, lo + k, lo + k + src.len())) by {
            if hits(s.fixed, lo + k, lo + k + src.len()) {
                let b = choose|b: int|
                    lo + k <= b < lo + k + src.len() && #[trigger] s.fixed.contains(b);
                assert(hits(s.fixed, lo, lo + gb));
            }
        }
        let b = if k != 0 || src.len() < gb {
            s.wrote(lo, zeros(gb))
        } else {
            s
        };
        if k != 0 || src.len() < gb {
            lemma_clear_write(s, lo, zeros(gb));
        }
        lemma_clear_write(b, lo + k, src);
        let w = b.wrote(lo + k, src);
        let n = s.with_grain(k, src).0;
        assert(n.contents == w.contents);
        assert forall|x: int| #[trigger] s.is_text(x) implies n.contents[x] == s.contents[x] by {
            assert(b.is_text(x));
        }
        assert forall|x: int| #[trigger] n.is_text(x) implies n.fixed.contains(x) by {
            assert(s.is_text(x));
        }
        assert(n.grounded());
        assert(n.table_refusal(table_sector(g, s.contents, i)) is None);
    }
}

/// What setting the entry of a grain leaves: that entry and its copy apart,
/// everything as it was.
pub(super) proof fn lemma_with_entry(s: State, i: int, j: int, new: u32)
    requires
        s.prepared(i),
        0 <= j < s.geometry().per_table,
    ensures
        ({
            let n = s.with_entry(i, j, new);
            let g = s.geometry();
            let t = table_sector(g, s.contents, i);
            let q = copy_sector(g, s.contents, i);
            &&& n.grounded()
            &&& n.geometry() == g
            &&& n.contents.len() == s.contents.len()
            &&& s.keeps_text(&n)
            &&& s.keeps_directories(&n)
            &&& forall|l: int|
                0 <= l < g.per_table ==> #[trigger] entry_at(n.contents, t * 512, l) == (if l == j {
                    new
                } else {
                    entry_at(s.contents, t * 512, l)
                })
            &&& forall|b: int|
                0 <= b < s.contents.len() && !(t * 512 <= b < t * 512 + g.table_span()) && !(
                s.redundant && q * 512 <= b < q * 512 + g.table_span()) ==> #[trigger] n.contents[b]
                    == s.contents[b]
        }),
{
    let g = s.geometry();
    let p = table_sector(g, s.contents, i);
    let q = copy_sector(g, s.contents, i);
    let span = g.table_span();
    let data = le32_bytes(new);
    crate::bytes::law_le32_round_trip(new);
    assert(4 * g.per_table <= span);
    lemma_within_clear(s.fixed, p * 512, p * 512 + span, p * 512 + 4 * j, p * 512 + 4 * j + 4);
    let a = if s.redundant {
        s.wrote(q * 512 + 4 * j, data).synced()
    } else {
        s
    };
    if s.redundant {
        lemma_within_clear(s.fixed, q * 512, q * 512 + span, q * 512 + 4 * j, q * 512 + 4 * j + 4);
        lemma_clear_write(s, q * 512 + 4 * j, data);
        lemma_synced_grounded(s.wrote(q * 512 + 4 * j, data));
    }
    lemma_clear_write(a, p * 512 + 4 * j, data);
    let n = s.with_entry(i, j, new);
    assert forall|x: int| #[trigger] s.is_text(x) implies n.contents[x] == s.contents[x] by {
        assert(a.is_text(x));
    }
    assert forall|l: int| 0 <= l < g.per_table implies #[trigger] entry_at(n.contents, p * 512, l)
        == (if l == j {
        new
    } else {
        entry_at(s.contents, p * 512, l)
    }) by {
        if l == j {
            let at = p * 512 + 4 * j;
            assert(n.contents[at] == data[0] && n.contents[at + 1] == data[1] && n.contents[at + 2]
                == data[2] && n.contents[at + 3] == data[3]);
        } else {
            crate::image::lemma_entry_kept(a.contents, p * 512 + 4 * j, data, p * 512, l);
            if s.redundant {
                crate::image::lemma_entry_kept(s.contents, q * 512 + 4 * j, data, p * 512, l);
            }
        }
    }
}

pub(super) proof fn lemma_within_clear(bytes: Set<int>, lo: int, hi: int, from: int, to: int)
    requires
        !hits(bytes, lo, hi),
        lo <= from,
        to <= hi,
    ensures
        !hits(bytes, from, to),
{
    if hits(bytes, from, to) {
        let b = choose|b: int| from <= b < to && #[trigger] bytes.contains(b);
        assert(hits(bytes, lo, hi));
    }
}

/// A write clear of all that is protected leaves everything protected.
pub(super) proof fn lemma_guarded_write(s: State, off: int, data: Seq<u8>)
    requires
        s.guarded(),
        0 <= off,
        0 < data.len(),
        !hits(s.fixed, off, off + data.len()),
    ensures
        s.wrote(off, data).guarded(),
{
    let n = s.wrote(off, data);
    let g = s.geometry();
    lemma_clear_write(s, off, data);
    assert forall|i: int| 0 <= i < g.tables implies #[trigger] n.table_guarded(i) by {
        assert(s.table_guarded(i));
    }
    assert forall|i: int| 0 <= i < g.tables implies #[trigger] n.copy_guarded(i) by {
        assert(s.copy_guarded(i));
    }
}

pub(super) proof fn lemma_table_session(s: State, i: int)
    ensures
        s.same_session(&s.with_table(i).0),
        s.contents.len() <= s.with_table(i).0.contents.len(),
{
    reveal(State::with_table);
    let first = s.with_blank_table();
    assert(s.same_session(&first));
    let second = first.with_blank_table();
    assert(first.same_session(&second));
}

pub(super) proof fn lemma_copy_session(s: State, i: int)
    ensures
        s.same_session(&s.with_copy(i).0),
        s.contents.len() <= s.with_copy(i).0.contents.len(),
{
    assert(s.same_session(&s.with_blank_table()));
}

pub(super) proof fn lemma_grain_session(s: State, k: int, src: Seq<u8>)
    ensures
        s.same_session(&s.with_grain(k, src).0),
        s.contents.len() <= s.with_grain(k, src).0.contents.len(),
{
}

pub(super) proof fn lemma_entry_session(s: State, i: int, j: int, new: u32)
    ensures
        s.same_session(&s.with_entry(i, j, new)),
        s.contents.len() <= s.with_entry(i, j, new).contents.len(),
{
}

/// Writing a part goes on with the session.
pub proof fn lemma_part_session(s: State, v: int, part: Seq<u8>)
    ensures
        s.same_session(&s.with_part(v, part).0),
        s.contents.len() <= s.with_part(v, part).0.contents.len(),
{
    reveal(State::with_part);
    reveal(State::with_grain_in_table);
    let g = s.geometry();
    let gi = v / g.grain_bytes;
    let i = gi / g.per_table;
    let j = gi % g.per_table;
    let k = v % g.grain_bytes;
    lemma_table_session(s, i);
    let a = if table_sector(g, s.contents, i) == 0 {
        s.with_table(i).0
    } else {
        s
    };
    lemma_copy_session(a, i);
    let b = a.with_copy(i).0;
    lemma_grain_session(b, k, part);
    let c = b.with_grain(k, part).0;
    lemma_entry_session(c, i, j, b.cursor as u32);
    assert(a.same_session(&a.with_grain_in_table(i, j, k, part).0));
}

/// Whether table `i` is there and protected.
pub open spec fn usable(s: State, i: int) -> bool {
    let t = table_sector(s.geometry(), s.contents, i);
    &&& s.grounded()
    &&& 0 <= i < s.geometry().tables
    &&& 1 <= s.cursor
    &&& t != 0
    &&& s.table_refusal(t) is None
    &&& s.table_guarded(i)
    &&& s.copy_guarded(i)
}

} // verus!
