//! What a write records about itself: a fresh content identifier, and the
//! `uncleanShutdown` mark.

use super::allocate::decided;
use super::sound::{
    extends, lemma_between_trans, lemma_neutral, lemma_synced, lemma_text_reflexive, passes_between,
    same_text,
};
use super::twins::lemma_twins_text;
use super::state::{bytes_at, hits, State};
use super::VmdkReader;
use crate::content_id::{
    content_id_of, content_id_replacement, content_id_value, hex_value, law_located_field,
    locate_content_id, next_content_id, replacement, with_content_id, ContentIdField,
};
use crate::device::{device_error, written, BlockDevice};
use crate::error::{Error, Result};
use crate::header::offsets;
use crate::image::{
    apart, copy_sector, entry_at, healthy, same_map, slot_range, table_sector, Slot,
};
use vstd::prelude::*;

verus! {

/// Whether `next` may replace the identifier at `f`: it differs from it,
/// is not the "no parent" sentinel and not zero.
pub open spec fn fresh_id(region: Seq<u8>, f: ContentIdField, next: u32) -> bool {
    &&& next != hex_value(region.subrange(f.start as int, f.start + f.len))
    &&& next != 0xFFFF_FFFF
    &&& next != 0
}

/// What a region becomes when it is given a fresh identifier: unchanged
/// where it has none.
pub open spec fn refreshed(region: Seq<u8>, new: Seq<u8>) -> bool {
    match content_id_of(region) {
        Ok(Some(f)) => exists|next: u32| #[trigger]
            fresh_id(region, f, next) && new == with_content_id(region, f, next),
        _ => new == region,
    }
}

impl State {
    /// The descriptor's bytes.
    pub open spec fn descriptor_bytes(&self) -> Seq<u8> {
        let g = self.geometry();
        bytes_at(self.contents, g.desc_at, g.desc_len)
    }

    /// Whether the identifier has been changed already, or can be.
    pub open spec fn describable(&self) -> bool {
        self.content_id_bumped || content_id_of(self.descriptor_bytes()) is Ok
    }

    /// Whether `n` is of the same image and what was opened.
    pub open spec fn same_open(&self, n: &State) -> bool {
        &&& n.header == self.header
        &&& n.descriptor == self.descriptor
        &&& n.redundant == self.redundant
        &&& n.fixed == self.fixed
        &&& n.floor == self.floor
        &&& n.writable == self.writable
        &&& n.reliable == self.reliable
    }

    /// Whether `n` is of the same image, opened alike. A device that fails
    /// may fail for good, so this says nothing of the device.
    pub open spec fn same_image(&self, n: &State) -> bool {
        &&& n.header == self.header
        &&& n.descriptor == self.descriptor
        &&& n.redundant == self.redundant
        &&& n.fixed == self.fixed
        &&& n.floor == self.floor
        &&& n.writable == self.writable
    }

    /// Whether the header sector and the descriptor of `n` are what a
    /// write makes of this state's: a fresh identifier with the first
    /// write of a session, the `uncleanShutdown` mark, and nothing else.
    pub open spec fn text_marked(&self, n: &State) -> bool {
        &&& forall|b: int|
            0 <= b < 512 && b != 72 ==> #[trigger] n.contents[b] == self.contents[b]
        &&& n.contents[72] == (if self.unclean_marked {
            self.contents[72]
        } else {
            1u8
        })
        &&& if self.content_id_bumped {
            n.descriptor_bytes() == self.descriptor_bytes()
        } else {
            refreshed(self.descriptor_bytes(), n.descriptor_bytes())
        }
    }

    /// Whether `next` may become the image's identifier, where this session
    /// has yet to change it.
    pub open spec fn may_take(&self, next: u32) -> bool {
        !self.content_id_bumped ==> (content_id_of(self.descriptor_bytes()) matches Ok(Some(f))
            ==> fresh_id(self.descriptor_bytes(), f, next))
    }

    /// This state once the identifier is `next`, durably, where this session
    /// has yet to change it.
    pub open spec fn renamed(&self, next: u32) -> State {
        if self.content_id_bumped {
            *self
        } else {
            let region = self.descriptor_bytes();
            let n = match content_id_of(region) {
                Ok(Some(f)) => self.wrote(
                    self.geometry().desc_at + f.start,
                    replacement(region, f, next),
                ).synced(),
                _ => *self,
            };
            State { content_id_bumped: true, ..n }
        }
    }

    /// This state once it carries what a write records before it moves any
    /// data, the identifier `next` and the `uncleanShutdown` mark, each
    /// durable before what follows it.
    pub open spec fn marked_with(&self, next: u32) -> State {
        let n = self.renamed(next);
        if n.unclean_marked {
            n
        } else {
            State { unclean_marked: true, ..n.wrote(72, seq![1u8]).synced() }
        }
    }

    /// Whether byte `b` belongs to the header sector or the descriptor.
    pub open spec fn is_text(&self, b: int) -> bool {
        let g = self.geometry();
        0 <= b < 512 || g.desc_at <= b < g.desc_at + g.desc_len
    }

    /// Whether the regions whose place the header states are apart and in
    /// the device, and the header sector and the descriptor are protected.
    pub open spec fn charted(&self) -> bool {
        let g = self.geometry();
        &&& g.wf()
        &&& 512 <= self.contents.len()
        &&& g.desc_at + g.desc_len <= self.contents.len()
        &&& forall|b: int| #[trigger] self.is_text(b) ==> self.fixed.contains(b)
    }

    /// Whether `n` follows this state by writes to the header sector and
    /// the descriptor alone.
    pub open spec fn text_only(&self, n: &State) -> bool {
        &&& self.same_open(n)
        &&& n.cursor == self.cursor
        &&& n.tables == self.tables
        &&& n.merged == self.merged
        &&& n.contents.len() == self.contents.len()
        &&& forall|b: int|
            0 <= b < self.contents.len() && !self.is_text(b) ==> #[trigger] n.contents[b]
                == self.contents[b]
    }

    /// Whether a mark that stands was durable before anything that followed
    /// it: it is up, and the last flush left the header sector and the
    /// descriptor as they are.
    pub open spec fn marks_settled(&self) -> bool {
        self.unclean_marked ==> {
            &&& self.contents[72] == 1
            &&& same_text(self.geometry(), self.contents, self.journal.last()[0])
        }
    }

    /// Whether the `uncleanShutdown` byte says what this session did: it is
    /// up from the first write after a flush on, and down otherwise.
    pub open spec fn mark_agrees(&self) -> bool {
        72 < self.contents.len() && self.contents[72] == (if self.unclean_marked {
            1u8
        } else {
            0u8
        })
    }

    /// This state once a flush has made its writes durable and taken down
    /// the `uncleanShutdown` mark.
    pub open spec fn flushed(&self) -> State {
        if self.unclean_marked {
            State { unclean_marked: false, ..self.synced().wrote(72, seq![0u8]).synced() }
        } else {
            self.synced()
        }
    }

    /// Whether `n` follows this state by writes that touch no slot and no
    /// directory.
    pub open spec fn notes_to(&self, n: &State) -> bool {
        &&& self.same_open(n)
        &&& n.cursor == self.cursor
        &&& n.merged == self.merged
        &&& n.tables == self.tables
        &&& n.contents.len() == self.contents.len()
        &&& same_map(self.geometry(), self.contents, n.contents)
        &&& n.disk() == self.disk()
        &&& self.twinned() ==> n.twinned()
        &&& extends(self.journal, n.journal)
        &&& passes_between(self.geometry(), self.journal, n.journal, self.disk(), self.disk())
    }
}

/// A durable write inside the header sector or the descriptor keeps a
/// reader sound and its disk.
proof fn lemma_text_write(s: State, at: int, data: Seq<u8>)
    requires
        s.sound(),
        0 <= at,
        at + data.len() <= 512 || (s.geometry().desc_at <= at && at + data.len()
            <= s.geometry().desc_at + s.geometry().desc_len),
    ensures
        s.wrote(at, data).synced().sound(),
        s.wrote(at, data).synced().settled(),
        s.notes_to(&s.wrote(at, data).synced()),
{
    let g = s.geometry();
    let w = s.wrote(at, data);
    let n = w.synced();
    assert(g.wf() && 512 <= s.contents.len() && g.desc_at + g.desc_len <= s.contents.len()) by {
        reveal(State::sound);
        reveal(healthy);
    }
    assert forall|t: Slot| (#[trigger] slot_range(g, s.contents, t)) is Some implies apart(
        (at, at + data.len()),
        slot_range(g, s.contents, t)->0,
    ) by {
        super::allocate::lemma_slot_clear(s, t);
    }
    lemma_neutral(s, at, data);
    lemma_twins_text(s, at, data);
    lemma_synced(w);
    assert(w.geometry() == g && n.geometry() == g);
    lemma_between_trans(g, s.journal, w.journal, n.journal, s.disk(), s.disk());
}

/// Writing the replacement of an identifier gives the descriptor the text
/// with the new identifier.
pub(super) proof fn lemma_identifier_written(c: Seq<u8>, at: int, len: int, f: ContentIdField, next: u32)
    requires
        0 <= at,
        0 <= len <= usize::MAX,
        at + len <= c.len(),
        content_id_of(bytes_at(c, at, len)) == Ok::<Option<ContentIdField>, &'static str>(Some(f)),
    ensures
        ({
            let region = bytes_at(c, at, len);
            let d = written(c, at + f.start, replacement(region, f, next));
            &&& bytes_at(d, at, len) == with_content_id(region, f, next)
            &&& d.len() == c.len()
            &&& replacement(region, f, next).len() == f.content_end + 8 - f.len - f.start
            &&& f.content_end + 8 - f.len <= len
        }),
{
    let region = bytes_at(c, at, len);
    law_located_field(region);
    crate::content_id::law_hex_round_trip(next);
    let r = replacement(region, f, next);
    let d = written(c, at + f.start, r);
    assert(bytes_at(d, at, len) =~= with_content_id(region, f, next));
}

impl<D: BlockDevice> VmdkReader<D> {
    /// Rewrite the descriptor's `CID=` line with a fresh value.
    ///
    /// The new value is always eight hex digits. The field it replaces is
    /// usually eight too, and then only those bytes change. A shorter one
    /// is widened: everything after it moves right into the region's NUL
    /// padding, and the region keeps the length `descriptorSize` declares.
    ///
    /// A descriptor with no `CID` line is left alone.
    fn bump_content_id(&mut self) -> (r: Result<()>)
        requires
            old(self).inv(),
            old(self).writable,
        ensures
            final(self).inv(),
            final(self).same_but_device(old(self)),
            final(self).limit() == old(self).limit(),
            ({
                let s = old(self)@;
                let region = s.descriptor_bytes();
                let at = s.geometry().desc_at;
                match r {
                    Ok(()) => match content_id_of(region) {
                        Ok(Some(f)) => exists|next: u32| #[trigger]
                            fresh_id(region, f, next) && final(self)@ == s.wrote(
                                at + f.start,
                                replacement(region, f, next),
                            ).synced(),
                        Ok(None) => final(self)@ == s,
                        Err(_) => false,
                    },
                    Err(e) => {
                        &&& device_error(e) || (content_id_of(region) matches Err(m) && e
                            == Error::Corrupt(m))
                        &&& decided(
                            old(self).steady() && at + s.geometry().desc_len <= s.contents.len(),
                            r,
                        ) ==> {
                            &&& content_id_of(region) matches Err(m) && e == Error::Corrupt(m)
                            &&& final(self)@ == s
                        }
                    },
                }
            }),
            r is Ok ==> old(self)@.geometry().desc_at + old(self)@.geometry().desc_len <= old(
                self,
            )@.contents.len(),
    {
        let ghost s = self@;
        let off: u64 = self.descriptor_extent.0;
        let len: usize = self.descriptor_extent.1 as usize;
        let mut bytes: Vec<u8> = vec![0u8; len];
        match self.dev_read(off, bytes.as_mut_slice()) {
            Ok(()) => {},
            Err(e) => return Err(e),
        }
        assert(bytes@ =~= s.descriptor_bytes());
        let field: ContentIdField = match locate_content_id(bytes.as_slice()) {
            Ok(Some(field)) => field,
            Ok(None) => return Ok(()),
            Err(m) => return Err(Error::Corrupt(m)),
        };
        proof {
            law_located_field(bytes@);
        }
        let current: u32 = content_id_value(bytes.as_slice(), field);
        let next: u32 = next_content_id(current);
        let rewritten: Vec<u8> = content_id_replacement(bytes.as_slice(), field, next);
        proof {
            lemma_identifier_written(s.contents, off as int, len as int, field, next);
            assert(fresh_id(bytes@, field, next));
        }
        match self.dev_write(off + field.start as u64, rewritten.as_slice()) {
            Ok(()) => {},
            Err(e) => return Err(e),
        }
        self.dev_flush()
    }

    /// Record that the image is being modified: bump the descriptor's
    /// content identifier if this session has not yet, and raise
    /// `uncleanShutdown` if it is not already up.
    ///
    /// Raised on the first write rather than at open, so that opening an
    /// image read-write and only reading from it does not modify the file.
    pub(super) fn mark_modified(&mut self) -> (r: Result<()>)
        requires
            old(self).inv(),
            old(self).writable,
        ensures
            final(self).inv(),
            final(self).limit() == old(self).limit(),
            final(self).same_layout(old(self)),
            final(self).alloc_cursor == old(self).alloc_cursor,
            r is Ok ==> final(self)@.content_id_bumped && final(self)@.unclean_marked,
            r matches Err(e) ==> device_error(e) || (!old(self)@.describable() && (content_id_of(
                old(self)@.descriptor_bytes(),
            ) matches Err(m) && e == Error::Corrupt(m))),
            r is Ok ==> exists|next: u32| #[trigger]
                old(self)@.may_take(next) && final(self)@ == old(self)@.marked_with(next),
            old(self)@.charted() ==> match r {
                Ok(()) => {
                    &&& old(self)@.describable()
                    &&& old(self)@.text_only(&final(self)@)
                    &&& old(self)@.text_marked(&final(self)@)
                    &&& old(self).in_step() ==> final(self).in_step()
                },
                Err(e) => decided(old(self).steady(), r) ==> {
                    &&& !old(self)@.describable()
                    &&& content_id_of(old(self)@.descriptor_bytes()) matches Err(m) && e
                        == Error::Corrupt(m)
                    &&& final(self)@ == old(self)@
                    &&& old(self).in_step() ==> final(self).in_step()
                },
            },
            old(self).sound() && old(self)@.describable() ==> match r {
                Ok(()) => {
                    &&& final(self).sound()
                    &&& old(self)@.notes_to(&final(self)@)
                    &&& old(self)@.text_marked(&final(self)@)
                    &&& old(self)@.marks_settled() ==> final(self)@.marks_settled()
                },
                Err(e) => device_error(e) && !old(self).steady(),
            },
    {
        let ghost s0 = self@;
        let ghost r0 = *self;
        let ghost ready = r0.sound() && s0.describable();
        let ghost mut next: u32 = 0;
        proof {
            if ready {
                lemma_note_nothing(s0);
            }
        }
        if !self.content_id_bumped {
            match self.bump_content_id() {
                Ok(()) => {},
                Err(e) => {
                    assert(ready ==> s0.geometry().desc_at + s0.geometry().desc_len
                        <= s0.contents.len()) by {
                        reveal(State::sound);
                        reveal(healthy);
                    }
                    assert(r0.in_step() && self@ == s0 ==> self.in_step()) by {
                        reveal(VmdkReader::in_step);
                    }
                    return Err(e);
                },
            }
            let ghost s1 = self@;
            let ghost r1 = *self;
            self.content_id_bumped = true;
            proof {
                let region = s0.descriptor_bytes();
                if let Ok(Some(f)) = content_id_of(region) {
                    next = choose|next: u32| #[trigger]
                        fresh_id(region, f, next) && s1 == s0.wrote(
                            s0.geometry().desc_at + f.start,
                            replacement(region, f, next),
                        ).synced();
                }
                lemma_text_reflexive(s1.geometry(), s1.contents);
                if s0.charted() {
                    lemma_identifier_text(s0, s1, self@);
                }
                if ready {
                    lemma_identifier_step(s0, s1, self@);
                    Self::lemma_noted_step(&r0, self);
                }
            }
        }
        let ghost s2 = self@;
        let ghost r2 = *self;
        assert(s0.may_take(next) && s2 == s0.renamed(next));
        if !self.unclean_marked {
            let mark: [u8; 1] = [1u8];
            assert(mark@ =~= seq![1u8]);
            match self.dev_write(offsets::UNCLEAN_SHUTDOWN as u64, &mark) {
                Ok(()) => {},
                Err(e) => return Err(e),
            }
            match self.dev_flush() {
                Ok(()) => {},
                Err(e) => return Err(e),
            }
            let ghost s3 = self@;
            self.unclean_marked = true;
            proof {
                lemma_text_reflexive(s3.geometry(), s3.contents);
                if s0.charted() {
                    assert(self@.descriptor_bytes() =~= s2.descriptor_bytes());
                }
                if ready {
                    lemma_mark_step(s2, s3, self@, 1u8);
                    Self::lemma_noted_step(&r2, self);
                    lemma_notes_trans(s0, s2, self@);
                }
            }
        }
        assert(s0.may_take(next) && self@ == s0.marked_with(next));
        proof {
            if s0.charted() && r0.in_step() {
                Self::lemma_text_in_step(&r0, self);
            }
        }
        Ok(())
    }

    /// A write to the header sector and the descriptor alone leaves the
    /// reader in step.
    pub(super) proof fn lemma_text_in_step(before: &Self, after: &Self)
        requires
            before.inv(),
            before.writable,
            before.in_step(),
            before@.charted(),
            before@.text_only(&after@),
            after.header == before.header,
            after.gd == before.gd,
            after.rgd == before.rgd,
            after.gt_cache == before.gt_cache,
            after.inflated == before.inflated,
        ensures
            after.in_step(),
    {
        reveal(VmdkReader::in_step);
        let s = before@;
        let n = after@;
        let g = s.geometry();
        let c = s.contents;
        let d = n.contents;
        assert(n.geometry() == g);
        assert(4 * g.tables <= g.dir_span());
        assert forall|i: int| 0 <= i < after.gd@.len() implies #[trigger] after.gd@[i]
            == table_sector(g, d, i) by {
            assert(before.gd@[i] == table_sector(g, c, i));
            lemma_entry_clear(s, n, g.gd_at, i);
        }
        if let Some(rgd) = after.rgd {
            assert forall|i: int| 0 <= i < rgd@.len() implies #[trigger] rgd@[i] == copy_sector(
                g,
                d,
                i,
            ) by {
                assert(before.rgd->0@[i] == copy_sector(g, c, i));
                lemma_entry_clear(s, n, g.rgd_at->0, i);
            }
        }
        if let Some((i, t)) = after.gt_cache.loaded {
            assert forall|j: int|
                0 <= j < after.gt_cache.entries@.len() implies #[trigger] after.gt_cache.entries@[j]
                == entry_at(d, t * 512, j) by {
                assert(before.gt_cache.entries@[j] == entry_at(c, t * 512, j));
                lemma_protected_clear(s, t * 512, t * 512 + 4 * g.per_table);
                lemma_entry_clear(s, n, t * 512, j);
            }
        }
    }

    /// A note on the image leaves the reader in step.
    pub(super) proof fn lemma_noted_step(before: &Self, after: &Self)
        requires
            before.sound(),
            before@.notes_to(&after@),
            after.header == before.header,
            after.gd == before.gd,
            after.rgd == before.rgd,
            after.gt_cache == before.gt_cache,
            after.inflated == before.inflated,
        ensures
            after.in_step(),
    {
        reveal(VmdkReader::in_step);
        reveal(same_map);
        reveal(crate::image::same_reading);
        reveal(State::sound);
        let g = before@.geometry();
        let c = before@.contents;
        let d = after@.contents;
        assert(after@.geometry() == g);
        assert forall|i: int| 0 <= i < after.gd@.len() implies #[trigger] after.gd@[i]
            == crate::image::table_sector(g, d, i) by {
            assert(before.gd@[i] == crate::image::table_sector(g, c, i));
        }
        if let Some(rgd) = after.rgd {
            assert forall|i: int| 0 <= i < rgd@.len() implies #[trigger] rgd@[i]
                == crate::image::copy_sector(g, d, i) by {
                assert(before.rgd->0@[i] == crate::image::copy_sector(g, c, i));
            }
        }
        if let Some((i, t)) = after.gt_cache.loaded {
            assert(before.gd@[i as int] == crate::image::table_sector(g, c, i as int));
            assert(crate::image::table_sector(g, d, i as int) == t);
            assert forall|j: int|
                0 <= j < after.gt_cache.entries@.len() implies #[trigger] after.gt_cache.entries@[j]
                == crate::image::entry_at(d, t * 512, j) by {
                assert(before.gt_cache.entries@[j] == crate::image::entry_at(c, t * 512, j));
                assert(crate::image::grain_entry(g, c, i as int, j) == crate::image::grain_entry(
                    g,
                    d,
                    i as int,
                    j,
                ));
            }
        }
    }
}

/// A range that no protected byte is in has no byte of the header sector
/// or the descriptor.
proof fn lemma_protected_clear(s: State, lo: int, hi: int)
    requires
        s.charted(),
        !hits(s.fixed, lo, hi),
    ensures
        forall|b: int| lo <= b < hi ==> !#[trigger] s.is_text(b),
{
    assert forall|b: int| lo <= b < hi implies !#[trigger] s.is_text(b) by {
        if s.is_text(b) {
            assert(s.fixed.contains(b));
        }
    }
}

/// An entry clear of the header sector and the descriptor is kept by a
/// write to those alone.
pub(super) proof fn lemma_entry_clear(s: State, n: State, at: int, i: int)
    requires
        s.text_only(&n),
        0 <= at,
        0 <= i,
        at + 4 * i + 4 <= s.contents.len(),
        forall|b: int| at + 4 * i <= b < at + 4 * i + 4 ==> !#[trigger] s.is_text(b),
    ensures
        entry_at(n.contents, at, i) == entry_at(s.contents, at, i),
{
    let p = at + 4 * i;
    assert(!s.is_text(p) && !s.is_text(p + 1) && !s.is_text(p + 2) && !s.is_text(p + 3));
    assert(n.contents[p] == s.contents[p] && n.contents[p + 1] == s.contents[p + 1]
        && n.contents[p + 2] == s.contents[p + 2] && n.contents[p + 3] == s.contents[p + 3]);
}

/// A write to the header sector and the descriptor alone leaves every
/// entry of the map as it was.
pub(super) proof fn lemma_text_entry(s: State, n: State, gi: int)
    requires
        s.charted(),
        s.text_only(&n),
        s.geometry().gd_at + 4 * s.geometry().tables <= s.contents.len(),
        0 <= gi / s.geometry().per_table < s.geometry().tables,
        s.entry(gi) is Ok ==> s.table_held(gi),
    ensures
        n.entry(gi) == s.entry(gi),
        s.table_held(gi) ==> n.table_held(gi),
{
    let g = s.geometry();
    let i = gi / g.per_table;
    let t = table_sector(g, s.contents, i);
    assert(n.geometry() == g);
    assert(4 * g.tables <= g.dir_span());
    lemma_entry_clear(s, n, g.gd_at, i);
    if t != 0 && s.table_refusal(t) is None {
        vstd::arithmetic::div_mod::lemma_mod_bound(gi, g.per_table);
        lemma_protected_clear(s, t * 512, t * 512 + 4 * g.per_table);
        lemma_entry_clear(s, n, t * 512, gi % g.per_table);
    }
}

/// Changing the identifier writes to the descriptor alone.
proof fn lemma_identifier_text(s: State, m: State, n: State)
    requires
        s.charted(),
        s.geometry().desc_len <= usize::MAX,
        n == (State { content_id_bumped: true, ..m }),
        ({
            let region = s.descriptor_bytes();
            let at = s.geometry().desc_at;
            match content_id_of(region) {
                Ok(Some(f)) => exists|next: u32| #[trigger]
                    fresh_id(region, f, next) && m == s.wrote(
                        at + f.start,
                        replacement(region, f, next),
                    ).synced(),
                Ok(None) => m == s,
                Err(_) => false,
            }
        }),
    ensures
        s.text_only(&n),
        refreshed(s.descriptor_bytes(), n.descriptor_bytes()),
        forall|b: int| 0 <= b < 512 ==> #[trigger] n.contents[b] == s.contents[b],
{
    let g = s.geometry();
    let region = s.descriptor_bytes();
    match content_id_of(region) {
        Ok(Some(f)) => {
            let next = choose|next: u32| #[trigger]
                fresh_id(region, f, next) && m == s.wrote(
                    g.desc_at + f.start,
                    replacement(region, f, next),
                ).synced();
            lemma_identifier_written(s.contents, g.desc_at, g.desc_len, f, next);
            assert(n.descriptor_bytes() == with_content_id(region, f, next));
        },
        _ => {},
    }
}

/// Doing nothing is a note.
proof fn lemma_note_nothing(s: State)
    requires
        s.sound(),
    ensures
        s.notes_to(&s),
        s.content_id_bumped && s.unclean_marked ==> s.text_marked(&s),
{
    super::allocate::lemma_map_reflexive(s.geometry(), s.contents);
}

/// A flush is a note.
pub(super) proof fn lemma_synced_notes(s: State)
    requires
        s.sound(),
    ensures
        s.synced().sound(),
        s.notes_to(&s.synced()),
{
    lemma_synced(s);
    super::allocate::lemma_map_reflexive(s.geometry(), s.contents);
}

pub(super) proof fn lemma_notes_trans(a: State, b: State, c: State)
    requires
        a.notes_to(&b),
        b.notes_to(&c),
    ensures
        a.notes_to(&c),
{
    let g = a.geometry();
    assert(b.geometry() == g);
    super::allocate::lemma_map_trans(g, a.contents, b.contents, c.contents);
    lemma_between_trans(g, a.journal, b.journal, c.journal, a.disk(), a.disk());
}

/// The state of the flags does not bear on soundness.
pub(super) proof fn lemma_flags(s: State, n: State)
    requires
        s.sound(),
        n == (State {
            content_id_bumped: n.content_id_bumped,
            unclean_marked: n.unclean_marked,
            ..s
        }),
    ensures
        n.sound(),
{
    reveal(State::sound);
    assert(n.geometry() == s.geometry());
    assert(n.journal_ok());
}

/// Changing the identifier is a note, and gives the descriptor a fresh
/// one.
proof fn lemma_identifier_step(s: State, m: State, n: State)
    requires
        s.sound(),
        s.geometry().desc_len <= usize::MAX,
        n == (State { content_id_bumped: true, ..m }),
        ({
            let region = s.descriptor_bytes();
            let at = s.geometry().desc_at;
            match content_id_of(region) {
                Ok(Some(f)) => exists|next: u32| #[trigger]
                    fresh_id(region, f, next) && m == s.wrote(
                        at + f.start,
                        replacement(region, f, next),
                    ).synced(),
                Ok(None) => m == s,
                Err(_) => false,
            }
        }),
    ensures
        n.sound(),
        s.notes_to(&n),
        refreshed(s.descriptor_bytes(), n.descriptor_bytes()),
        forall|b: int| 0 <= b < 512 ==> #[trigger] n.contents[b] == s.contents[b],
{
    let g = s.geometry();
    let region = s.descriptor_bytes();
    assert(n.geometry() == g);
    assert(g.wf() && 512 <= s.contents.len() && g.desc_at + g.desc_len <= s.contents.len()) by {
        reveal(State::sound);
        reveal(healthy);
    }
    match content_id_of(region) {
        Ok(Some(f)) => {
            let next = choose|next: u32| #[trigger]
                fresh_id(region, f, next) && m == s.wrote(
                    g.desc_at + f.start,
                    replacement(region, f, next),
                ).synced();
            lemma_identifier_written(s.contents, g.desc_at, g.desc_len, f, next);
            lemma_text_write(s, g.desc_at + f.start, replacement(region, f, next));
            assert(n.descriptor_bytes() == with_content_id(region, f, next));
        },
        _ => {
            lemma_note_nothing(s);
        },
    }
    lemma_flags(m, n);
}

/// Setting the `uncleanShutdown` byte is a note that touches nothing else.
pub(super) proof fn lemma_mark_step(s: State, m: State, n: State, value: u8)
    requires
        s.sound(),
        m == s.wrote(72, seq![value]).synced(),
        n == (State { unclean_marked: n.unclean_marked, ..m }),
    ensures
        n.sound(),
        n.settled(),
        s.notes_to(&n),
        n.descriptor_bytes() == s.descriptor_bytes(),
        512 <= s.contents.len(),
        n.contents[72] == value,
        forall|b: int| 0 <= b < s.contents.len() && b != 72 ==> #[trigger] n.contents[b]
            == s.contents[b],
{
    let g = s.geometry();
    assert(n.geometry() == g);
    lemma_text_write(s, 72, seq![value]);
    assert(g.wf() && 512 <= s.contents.len() && g.desc_at + g.desc_len <= s.contents.len()) by {
        reveal(State::sound);
        reveal(healthy);
    }
    assert(n.descriptor_bytes() =~= s.descriptor_bytes());
    lemma_flags(m, n);
}

} // verus!
