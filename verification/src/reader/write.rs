//! Writing the virtual disk.

use super::allocate::{decided, write_fault};
use super::beside_text::{
    lemma_data_beside_text, lemma_guarded_beside_text, lemma_rooted_beside_text,
};
use super::effect::{lemma_clear, lemma_clear_write, lemma_part_session, outcome};
use super::mark::{lemma_mark_step, lemma_synced_notes};
use super::sound::{
    extends, is_state, lemma_between_trans, lemma_between_widen, lemma_self_pointwise, lemma_stays,
    lemma_step_frame, lemma_text_through_trans, lemma_text_trans, passes_between, pointwise,
    same_text, text_throughout,
};
use super::state::{hits, State};
use super::{GrainAddress, VmdkReader};
use crate::bytes::overlaid;
use crate::content_id::content_id_of;
use crate::crash::window_ok;
use crate::device::{device_error, BlockDevice};
use crate::error::{Error, Result};
use crate::header::offsets;
use crate::image::{copy_sector, disk, entry_at, table_sector, Geometry};
use vstd::prelude::*;

verus! {

impl State {
    /// How many grains the `len` bytes at `offset` lie in.
    pub open spec fn grains_in(&self, offset: int, len: int) -> int {
        let gb = self.geometry().grain_bytes;
        (offset + len - 1) / gb - offset / gb + 1
    }

    /// Whether `n` follows this state on the way to `target`: each byte of
    /// the disk is as it was or as in `target`, now and in every state in
    /// between.
    pub open spec fn heads_for(&self, n: &State, target: Seq<u8>) -> bool {
        &&& self.same_session(n)
        &&& same_text(self.geometry(), self.contents, n.contents)
        &&& self.contents.len() <= n.contents.len()
        &&& extends(self.journal, n.journal)
        &&& passes_between(self.geometry(), self.journal, n.journal, self.disk(), target)
        &&& text_throughout(self.geometry(), self.journal, n.journal, self.contents)
        &&& pointwise(n.disk(), self.disk(), target)
    }
}

/// A step to a disk on the way to `target` stays on the way.
proof fn lemma_heads(s: State, a: State, b: State, target: Seq<u8>)
    requires
        s.heads_for(&a, target),
        a.steps_to(&b),
        pointwise(b.disk(), s.disk(), target),
    ensures
        s.heads_for(&b, target),
{
    lemma_step_frame(a, b);
    let g = s.geometry();
    assert(a.geometry() == g);
    lemma_text_trans(g, s.contents, a.contents, b.contents);
    lemma_between_widen(g, a.journal, b.journal, a.disk(), b.disk(), s.disk(), target);
    lemma_between_trans(g, s.journal, a.journal, b.journal, s.disk(), target);
    lemma_text_through_trans(g, s.journal, a.journal, b.journal, s.contents, a.contents);
}

/// A part of the data laid over a disk is on the way to all of it, and the
/// next part continues it.
proof fn lemma_part_laid(d: Seq<u8>, at: int, data: Seq<u8>, k: int, n: int)
    requires
        0 <= at,
        0 <= k,
        0 <= n,
        k + n <= data.len(),
        at + data.len() <= d.len(),
    ensures
        pointwise(overlaid(d, at, data.subrange(0, k)), d, overlaid(d, at, data)),
        overlaid(overlaid(d, at, data.subrange(0, k)), at + k, data.subrange(k, k + n))
            == overlaid(d, at, data.subrange(0, k + n)),
        overlaid(d, at, data.subrange(0, 0)) == d,
        overlaid(d, at, data.subrange(0, data.len() as int)) == overlaid(d, at, data),
{
    assert(data.subrange(0, data.len() as int) =~= data);
    assert(overlaid(d, at, data.subrange(0, 0)) =~= d);
    assert(overlaid(overlaid(d, at, data.subrange(0, k)), at + k, data.subrange(k, k + n))
        =~= overlaid(d, at, data.subrange(0, k + n)));
}

/// The chunk at `v` of a range that ends at `end` lies in the grain it
/// starts in, and the next one starts the next grain.
proof fn lemma_chunk_grain(v: int, end: int, gb: int, chunk: int)
    requires
        0 <= v < end,
        0 < gb,
        chunk == (if gb - v % gb < end - v {
            gb - v % gb
        } else {
            end - v
        }),
    ensures
        v + chunk < end ==> (v + chunk) / gb == v / gb + 1,
        v + chunk == end ==> (end - 1) / gb == v / gb,
        v / gb <= (end - 1) / gb,
{
    let q = v / gb;
    let r = v % gb;
    vstd::arithmetic::div_mod::lemma_fundamental_div_mod(v, gb);
    vstd::arithmetic::div_mod::lemma_mod_bound(v, gb);
    assert(gb * q == q * gb) by (nonlinear_arith);
    if v + chunk < end {
        assert(v + chunk == (q + 1) * gb + 0) by (nonlinear_arith)
            requires
                v == q * gb + r,
                chunk == gb - r,
        ;
        vstd::arithmetic::div_mod::lemma_fundamental_div_mod_converse(v + chunk, gb, q + 1, 0);
    } else {
        vstd::arithmetic::div_mod::lemma_fundamental_div_mod_converse(
            end - 1,
            gb,
            q,
            r + chunk - 1,
        );
    }
    vstd::arithmetic::div_mod::lemma_div_is_ordered(v, end - 1, gb);
}

impl<D: BlockDevice> VmdkReader<D> {
    /// Write `src` to the part of a grain that `addr` names.
    fn write_grain(&mut self, addr: &GrainAddress, src: &[u8]) -> (r: Result<()>)
        requires
            old(self).inv(),
            old(self).writable,
            old(self).addresses(addr),
            src@.len() == addr.chunk_len,
        ensures
            final(self).inv(),
            final(self).limit() == old(self).limit(),
            final(self).same_image(old(self)),
            final(self).tail_from(old(self)),
            r matches Err(e) ==> write_fault(false, e),
            old(self).in_step() && decided(old(self).steady(), r) && old(self)@.guarded_at(
                addr.gt_idx * old(self)@.geometry().per_table + addr.gte_idx,
            ) ==> ({
                let g = old(self)@.geometry();
                let v = (addr.gt_idx * g.per_table + addr.gte_idx) * g.grain_bytes + addr.in_grain;
                let (n, refusal) = old(self)@.with_part(v, src@);
                &&& outcome(r, refusal)
                &&& final(self)@ == n
                &&& final(self).in_step()
                &&& old(self).steady() && refusal is None ==> final(self).steady()
            }),
            old(self).sound() ==> ({
                let g = old(self)@.geometry();
                let v = (addr.gt_idx * g.per_table + addr.gte_idx) * g.grain_bytes + addr.in_grain;
                match r {
                    Ok(()) => {
                        &&& final(self).sound()
                        &&& old(self)@.steps_to(&final(self)@)
                        &&& final(self)@.cursor <= old(self)@.cursor + old(self)@.need()
                        &&& old(self)@.twinned() ==> final(self)@.twinned()
                        &&& final(self)@.disk() == overlaid(old(self)@.disk(), v, src@)
                    },
                    Err(e) => write_fault(true, e) && (decided(old(self).steady(), r) ==> {
                        &&& old(self)@.wants(old(self)@.need(), e)
                        &&& final(self).sound()
                        &&& old(self)@.keeps_to(&final(self)@)
                    }),
                }
            }),
    {
        let ghost a = self@;
        let ghost ra = *self;
        let ghost g = a.geometry();
        let ghost gi = addr.gt_idx * g.per_table + addr.gte_idx;
        let ghost v = gi * g.grain_bytes + addr.in_grain;
        proof {
            reveal(State::with_part);
            crate::image::lemma_offset_of(g, gi, addr.in_grain as int);
            vstd::arithmetic::div_mod::lemma_fundamental_div_mod_converse(
                gi,
                g.per_table,
                addr.gt_idx as int,
                addr.gte_idx as int,
            );
            lemma_part_session(a, v, src@);
        }
        // A grain-table entry that names a sector never changes again: a
        // grain is never relocated once published.
        let backing: Option<u32> = match self.backing_sector(addr.gt_idx, addr.gte_idx) {
            Ok(backing) => backing,
            Err(e) => return Err(e),
        };
        let ghost rb = *self;
        match backing {
            Some(grain_sector) => {
                let r: Result<()> = self.write_through(grain_sector, addr, src);
                proof {
                    if ra.in_step() && a.guarded_at(gi) && decided(ra.steady(), r) {
                        match a.host_offset(grain_sector, addr.in_grain as int, src@.len() as int) {
                            Ok(off) => Self::lemma_in_place_step(&rb, self, off, src@),
                            Err(_) => Self::lemma_same_step(&rb, self),
                        }
                    }
                }
                r
            },
            None => self.allocate_and_write(addr, src),
        }
    }

    /// A write clear of all that is protected leaves the reader in step.
    proof fn lemma_in_place_step(before: &Self, after: &Self, off: int, data: Seq<u8>)
        requires
            before.inv(),
            before.writable,
            before.in_step(),
            before@.grounded(),
            before.gt_cache.loaded matches Some((i, _)) ==> before@.table_guarded(i as int),
            0 <= off,
            0 < data.len(),
            !hits(before@.fixed, off, off + data.len()),
            !hits(before@.tables, off, off + data.len()),
            after@ == before@.wrote(off, data),
            after.same_but_device(before),
        ensures
            after.in_step(),
    {
        reveal(VmdkReader::in_step);
        let s = before@;
        let n = after@;
        let g = s.geometry();
        lemma_clear_write(s, off, data);
        assert forall|i: int| 0 <= i < after.gd@.len() implies #[trigger] after.gd@[i]
            == table_sector(g, n.contents, i) by {
            assert(before.gd@[i] == table_sector(g, s.contents, i));
        }
        if let Some(rgd) = after.rgd {
            assert forall|i: int| 0 <= i < rgd@.len() implies #[trigger] rgd@[i] == copy_sector(
                g,
                n.contents,
                i,
            ) by {
                assert(before.rgd->0@[i] == copy_sector(g, s.contents, i));
            }
        }
        if let Some((i, t)) = after.gt_cache.loaded {
            assert(before.gd@[i as int] == table_sector(g, s.contents, i as int));
            assert(s.table_guarded(i as int));
            lemma_clear(s.tables, off, off + data.len(), t * 512, t * 512 + 4 * g.per_table);
            assert forall|j: int|
                0 <= j < after.gt_cache.entries@.len() implies #[trigger] after.gt_cache.entries@[j]
                == entry_at(n.contents, t * 512, j) by {
                assert(before.gt_cache.entries@[j] == entry_at(s.contents, t * 512, j));
                crate::image::lemma_entry_kept(s.contents, off, data, t * 512, j);
            }
        }
    }

    /// A reader whose device holds what it held is in step as it was.
    proof fn lemma_same_step(before: &Self, after: &Self)
        requires
            before.in_step(),
            after@ == before@,
            after.same_but_device(before),
        ensures
            after.in_step(),
    {
        reveal(VmdkReader::in_step);
    }

    /// Write `buf` to the grains from `offset` on, each as it comes.
    fn write_grains(&mut self, offset: u64, buf: &[u8]) -> (r: Result<()>)
        requires
            old(self).inv(),
            old(self).writable,
            0 < buf@.len(),
            offset + buf@.len() <= old(self).virtual_size,
        ensures
            final(self).inv(),
            final(self).limit() == old(self).limit(),
            final(self).same_image(old(self)),
            final(self).tail_from(old(self)),
            r matches Err(e) ==> write_fault(false, e),
            old(self).in_step() && decided(old(self).steady(), r) ==> match old(self)@.with_data(
                offset as int,
                buf@,
            ) {
                Some((n, refusal)) => {
                    &&& outcome(r, refusal)
                    &&& final(self)@ == n
                    &&& final(self).in_step()
                },
                None => true,
            },
            old(self).sound() ==> ({
                let target = overlaid(old(self)@.disk(), offset as int, buf@);
                match r {
                    Ok(()) => {
                        &&& final(self).sound()
                        &&& final(self)@.disk() == target
                        &&& old(self)@.heads_for(&final(self)@, target)
                        &&& old(self)@.twinned() ==> final(self)@.twinned()
                    },
                    Err(e) => write_fault(true, e) && (decided(old(self).steady(), r) ==> {
                        &&& old(self)@.wants(
                            old(self)@.need() * old(self)@.grains_in(
                                offset as int,
                                buf@.len() as int,
                            ),
                            e,
                        )
                        &&& final(self).sound()
                        &&& old(self)@.heads_for(&final(self)@, target)
                    }),
                }
            }),
    {
        let len: usize = buf.len();
        let end: u64 = offset + len as u64;
        let ghost r0 = *self;
        let ghost s0 = self@;
        let ghost g = s0.geometry();
        let ghost gb = g.grain_bytes;
        let ghost target = overlaid(s0.disk(), offset as int, buf@);
        let ghost first = offset as int / gb;
        let ghost total = s0.grains_in(offset as int, buf@.len() as int);
        let ghost mut grains: int = 0;
        let ghost mut guarded: bool = true;
        let mut cursor: u64 = offset;
        let mut written: usize = 0;
        assert(s0.disk().len() == g.virtual_size);
        proof {
            assert(buf@.subrange(0, len as int) =~= buf@);
            lemma_part_laid(s0.disk(), offset as int, buf@, 0, 0);
            lemma_stays(s0);
            lemma_step_frame(s0, s0);
        }
        while cursor < end
            invariant
                self.inv(),
                self.writable,
                self.limit() == r0.limit(),
                self.same_image(&r0),
                self.tail_from(&r0),
                r0 == *old(self),
                buf@.len() == len,
                s0 == r0@,
                g == s0.geometry(),
                gb == g.grain_bytes,
                gb > 0,
                end == offset + buf@.len(),
                end <= r0.virtual_size,
                g.virtual_size == r0.virtual_size,
                s0.disk().len() == g.virtual_size,
                self@.geometry() == g,
                offset <= cursor <= end,
                written == cursor - offset,
                target == overlaid(s0.disk(), offset as int, buf@),
                first == offset as int / gb,
                total == (end - 1) / gb - first + 1,
                0 <= grains,
                cursor < end ==> cursor as int / gb == first + grains,
                r0.in_step() ==> if !guarded {
                    s0.with_data(offset as int, buf@) is None
                } else {
                    &&& self.in_step()
                    &&& r0.steady() ==> self.steady()
                    &&& s0.with_data(offset as int, buf@) == self@.with_data(
                        cursor as int,
                        buf@.subrange(written as int, len as int),
                    )
                },
                r0.sound() ==> {
                    &&& self.sound()
                    &&& s0.heads_for(&self@, target)
                    &&& self@.disk() == overlaid(
                        s0.disk(),
                        offset as int,
                        buf@.subrange(0, written as int),
                    )
                    &&& self@.cursor <= s0.cursor + s0.need() * grains
                    &&& r0.steady() ==> self.steady()
                    &&& s0.twinned() ==> self@.twinned()
                },
            decreases end - cursor,
        {
            let addr: GrainAddress = self.grain_address(cursor, end);
            let src: &[u8] = vstd::slice::slice_subrange(buf, written, written + addr.chunk_len);
            let ghost a = self@;
            let ghost rest = buf@.subrange(written as int, len as int);
            proof {
                assert(src@ =~= rest.subrange(0, addr.chunk_len as int));
                assert(rest.subrange(addr.chunk_len as int, rest.len() as int) =~= buf@.subrange(
                    written + addr.chunk_len,
                    len as int,
                ));
                lemma_chunk_grain(cursor as int, end as int, gb, addr.chunk_len as int);
                lemma_part_laid(
                    s0.disk(),
                    offset as int,
                    buf@,
                    written as int,
                    addr.chunk_len as int,
                );
                lemma_part_laid(
                    s0.disk(),
                    offset as int,
                    buf@,
                    written + addr.chunk_len,
                    0,
                );
                lemma_more_need(s0.cursor, s0.need(), grains, total);
                assert(a.need() == s0.need());
            }
            assert(self.addresses(&addr)) by {
                let gi = cursor as int / gb;
                assert(g.has_grain(gi)) by (nonlinear_arith)
                    requires
                        gi * gb + addr.in_grain == cursor,
                        addr.in_grain >= 0,
                        cursor < end,
                        end <= g.virtual_size,
                        gi == cursor as int / gb,
                        gb == g.grain_bytes,
                        gb > 0,
                ;
            }
            match self.write_grain(&addr, src) {
                Ok(()) => {},
                Err(e) => {
                    proof {
                        if r0.sound() && (r0.steady() || !device_error(e)) {
                            lemma_heads(s0, a, self@, target);
                        }
                    }
                    return Err(e);
                },
            }
            proof {
                if r0.sound() {
                    lemma_heads(s0, a, self@, target);
                }
                grains = grains + 1;
                guarded = guarded && a.guarded_at(cursor as int / gb);
            }
            cursor = cursor + addr.chunk_len as u64;
            written = written + addr.chunk_len;
        }
        Ok(())
    }
}

/// One more grain takes its share of what all of them may take.
proof fn lemma_more_need(cursor: int, need: int, grains: int, total: int)
    requires
        0 <= need,
        0 <= grains < total,
    ensures
        need * (grains + 1) == need * grains + need,
        need * (grains + 1) <= need * total,
{
    assert(need * (grains + 1) == need * grains + need) by (nonlinear_arith);
    assert(need * (grains + 1) <= need * total) by (nonlinear_arith)
        requires
            0 <= need,
            grains + 1 <= total,
    ;
}

impl State {
    /// Whether `n` follows this state by a write on its way to `target`:
    /// the image is the same and carries the marks of a write, and each
    /// byte of the disk is as it was or as in `target`, now and in every
    /// state in between.
    pub open spec fn modified_to(&self, n: &State, target: Seq<u8>) -> bool {
        &&& self.same_open(n)
        &&& n.content_id_bumped
        &&& n.unclean_marked
        &&& self.text_marked(n)
        &&& self.cursor <= n.cursor
        &&& self.contents.len() <= n.contents.len()
        &&& extends(self.journal, n.journal)
        &&& passes_between(self.geometry(), self.journal, n.journal, self.disk(), target)
        &&& pointwise(n.disk(), self.disk(), target)
        &&& self.marks_settled() ==> n.marks_settled() && self.marks_lead(n)
    }

    /// Whether the marks of a write came before its data: every state since
    /// this one in which the disk differs has the header sector and the
    /// descriptor of `n`, and so had the device at the flush before it.
    pub open spec fn marks_lead(&self, n: &State) -> bool {
        let g = self.geometry();
        forall|e: int, k: int| #[trigger]
            is_state(n.journal, e, k) && !is_state(self.journal, e, k) && disk(g, n.journal[e][k])
                != self.disk() ==> same_text(g, n.contents, n.journal[e][k]) && same_text(
                g,
                n.contents,
                n.journal[e][0],
            )
    }
}

impl State {
    /// Whether a flush that failed left the journal at `j`: at the first
    /// flush of the device, at the write that takes down the mark, which
    /// only comes after it, or at the second flush.
    pub open spec fn flush_left_at(&self, j: Seq<Seq<Seq<u8>>>) -> bool {
        ||| j == self.journal
        ||| self.unclean_marked && j == self.synced().journal
        ||| self.unclean_marked && j == self.synced().wrote(72, seq![0u8]).journal
    }
}

/// Marking an image and heading for a disk is a write on its way to it.
proof fn lemma_modified(s: State, m: State, n: State, target: Seq<u8>)
    requires
        s.sound(),
        s.notes_to(&m),
        s.text_marked(&m),
        m.content_id_bumped,
        m.unclean_marked,
        m.heads_for(&n, target),
        n.sound(),
        s.marks_settled() ==> m.marks_settled(),
    ensures
        s.modified_to(&n, target),
{
    let g = s.geometry();
    assert(m.geometry() == g && n.geometry() == g);
    reveal(same_text);
    assert forall|b: int| 0 <= b < 512 && b != 72 implies #[trigger] n.contents[b]
        == s.contents[b] by {
        assert(m.contents[b] == s.contents[b]);
        assert(m.contents[b] == n.contents[b]);
    }
    assert(m.contents[72] == n.contents[72]);
    assert(n.descriptor_bytes() =~= m.descriptor_bytes());
    lemma_self_pointwise(s.disk(), target);
    lemma_between_widen(g, s.journal, m.journal, s.disk(), s.disk(), s.disk(), target);
    lemma_between_trans(g, s.journal, m.journal, n.journal, s.disk(), target);
    if s.marks_settled() {
        lemma_marks_lead(s, m, n);
    }
}

/// Marks that were durable before data moved lead it.
proof fn lemma_marks_lead(s: State, m: State, n: State)
    requires
        s.sound(),
        n.sound(),
        m.marks_settled(),
        m.unclean_marked,
        n.unclean_marked,
        m.geometry() == s.geometry(),
        n.geometry() == s.geometry(),
        same_text(s.geometry(), m.contents, n.contents),
        extends(m.journal, n.journal),
        passes_between(s.geometry(), s.journal, m.journal, s.disk(), s.disk()),
        text_throughout(s.geometry(), m.journal, n.journal, m.contents),
    ensures
        n.marks_settled(),
        s.marks_lead(&n),
{
    reveal(text_throughout);
    reveal(same_text);
    let g = s.geometry();
    assert(n.journal.len() >= 1 && n.journal.last().len() >= 1) by {
        reveal(State::sound);
        assert(window_ok(g, n.journal[n.journal.len() - 1]));
    }
    assert(m.contents[72] == n.contents[72]);
    // The state that opened a window has the text, if one after it is new.
    assert forall|e: int, k: int| #[trigger]
        is_state(n.journal, e, k) && (!is_state(m.journal, e, k) || e == n.journal.len()
            - 1) implies same_text(g, n.contents, n.journal[e][0]) by {
        if is_state(m.journal, e, 0) {
            assert(is_state(n.journal, e, 0));
            assert(n.journal[e][0] == m.journal[e][0]);
            if e < m.journal.len() - 1 {
                assert(n.journal[e] == m.journal[e]);
            }
            assert(e == m.journal.len() - 1);
        } else {
            assert(is_state(n.journal, e, 0));
            assert(same_text(g, m.contents, n.journal[e][0]));
        }
        lemma_text_through(g, m.contents, n.contents, n.journal[e][0]);
    }
    assert(is_state(n.journal, n.journal.len() - 1, 0));
    assert forall|e: int, k: int| #[trigger]
        is_state(n.journal, e, k) && !is_state(s.journal, e, k) && disk(g, n.journal[e][k])
            != s.disk() implies same_text(g, n.contents, n.journal[e][k]) && same_text(
        g,
        n.contents,
        n.journal[e][0],
    ) by {
        if is_state(m.journal, e, k) {
            assert(n.journal[e][k] == m.journal[e][k]);
            assert(pointwise(disk(g, m.journal[e][k]), s.disk(), s.disk()));
            assert(disk(g, m.journal[e][k]) =~= s.disk());
        } else {
            assert(same_text(g, m.contents, n.journal[e][k]));
            lemma_text_through(g, m.contents, n.contents, n.journal[e][k]);
        }
    }
}

/// Two contents with the text of a third have the same text.
proof fn lemma_text_through(g: Geometry, m: Seq<u8>, c: Seq<u8>, d: Seq<u8>)
    requires
        same_text(g, m, c),
        same_text(g, m, d),
    ensures
        same_text(g, c, d),
{
    reveal(same_text);
    assert forall|x: int|
        0 <= x < 512 || g.desc_at <= x < g.desc_at + g.desc_len implies #[trigger] c[x] == d[x] by {
        assert(m[x] == c[x] && m[x] == d[x]);
    }
}

impl<D: BlockDevice> VmdkReader<D> {
    /// Write `buf` to the virtual disk at byte `offset`.
    ///
    /// A grain that already exists is written in place. One that does not
    /// is allocated at the tail, and its table entry is published only
    /// once its bytes are durable, so that a crash leaves a grain that
    /// nothing names rather than an entry that names garbage.
    ///
    /// Before any data moves, the first write of a session gives the
    /// descriptor a fresh content identifier and the image is marked as
    /// not shut down cleanly. The other order would leave changed contents
    /// under the identifier that a snapshot child remembers.
    ///
    /// On a healthy image and a device that takes every write, a write
    /// fails only for want of addressable sectors, or of memory for a
    /// grain. A redundant copy of the grain map that agrees with the primary
    /// before the write agrees with it after.
    ///
    /// On any image, whatever its grain tables say, the write goes grain by
    /// grain as [`State::with_data`] says, as long as the tables it comes to
    /// are protected: it stops at the first grain whose table, copy or
    /// pointer is refused, fails with that refusal, and changes nothing
    /// else. What reaches the device, and in what order, is then what
    /// [`State::with_data`] says of the state that [`State::marked_with`]
    /// gives. An image whose descriptor leaves no room for a fresh
    /// identifier is refused before anything changes.
    ///
    /// Where the device fails, its error comes back. Every other outcome is
    /// what this says it is, on any device; whatever the image, a write that
    /// is not refused for its identifier has then made its marks.
    pub fn write_at(&mut self, offset: u64, buf: &[u8]) -> (r: Result<()>)
        requires
            old(self).inv(),
        ensures
            final(self).inv(),
            final(self).limit() == old(self).limit(),
            old(self)@.same_image(&final(self)@),
            !old(self)@.writable ==> r == Err::<(), Error>(Error::ReadOnly) && *final(self) == *old(
                self,
            ),
            old(self)@.writable && buf@.len() == 0 ==> r == Ok::<(), Error>(()) && *final(self)
                == *old(self),
            old(self)@.writable && 0 < buf@.len() && offset + buf@.len() > u64::MAX ==> r == Err::<
                (),
                Error,
            >(Error::Corrupt("offset+len overflow")) && *final(self) == *old(self),
            old(self)@.writable && 0 < buf@.len() && old(self)@.header.capacity * 512 < offset
                + buf@.len() <= u64::MAX ==> r == Err::<(), Error>(
                Error::OutOfBounds {
                    offset,
                    len: buf@.len() as u64,
                    size: (old(self)@.header.capacity * 512) as u64,
                },
            ) && *final(self) == *old(self),
            old(self)@.writable && 0 < buf@.len() && offset + buf@.len() <= old(
                self,
            )@.header.capacity * 512 && old(self).sound() && old(self)@.describable() ==> ({
                let target = overlaid(old(self)@.disk(), offset as int, buf@);
                match r {
                    Ok(()) => {
                        &&& final(self).sound()
                        &&& final(self)@.disk() == target
                        &&& old(self)@.modified_to(&final(self)@, target)
                        &&& old(self)@.mark_agrees() ==> final(self)@.mark_agrees()
                        &&& old(self)@.twinned() ==> final(self)@.twinned()
                    },
                    Err(e) => write_fault(true, e) && (decided(old(self).steady(), r) ==> {
                        &&& old(self)@.wants(
                            old(self)@.need() * old(self)@.grains_in(
                                offset as int,
                                buf@.len() as int,
                            ),
                            e,
                        )
                        &&& final(self).sound()
                        &&& old(self)@.modified_to(&final(self)@, target)
                    }),
                }
            }),
            old(self)@.writable && 0 < buf@.len() && offset + buf@.len() <= old(
                self,
            )@.header.capacity * 512 ==> (r matches Err(e) ==> write_fault(false, e)),
            old(self)@.writable && 0 < buf@.len() && offset + buf@.len() <= old(
                self,
            )@.header.capacity * 512 && (r is Ok || old(self)@.describable() && decided(
                false,
                r,
            )) ==> final(self)@.content_id_bumped && final(self)@.unclean_marked,
            old(self)@.writable && 0 < buf@.len() && offset + buf@.len() <= old(
                self,
            )@.header.capacity * 512 && old(self)@.charted() && decided(old(self).steady(), r) && !old(
                self,
            )@.describable() ==> {
                &&& content_id_of(old(self)@.descriptor_bytes()) matches Err(m) && r == Err::<
                    (),
                    Error,
                >(Error::Corrupt(m))
                &&& final(self)@ == old(self)@
                &&& old(self).in_step() ==> final(self).in_step()
            },
            old(self)@.writable && 0 < buf@.len() && offset + buf@.len() <= old(
                self,
            )@.header.capacity * 512 && old(self).in_step() && old(self)@.charted() && old(
                self,
            )@.describable() && decided(old(self).steady(), r) ==> match old(self)@.with_data(
                offset as int,
                buf@,
            ) {
                Some((n, refusal)) => {
                    &&& outcome(r, refusal)
                    &&& n.text_only(&final(self)@)
                    &&& exists|next: u32| #[trigger]
                        old(self)@.may_take(next) && old(self)@.marked_with(next).with_data(
                            offset as int,
                            buf@,
                        ) == Some((final(self)@, refusal))
                    &&& n.guarded() ==> final(self)@.guarded()
                    &&& n.guarded() && n.rooted() ==> final(self)@.rooted()
                    &&& old(self)@.text_marked(&final(self)@)
                    &&& old(self)@.contents.len() <= final(self)@.contents.len()
                    &&& final(self)@.content_id_bumped
                    &&& final(self)@.unclean_marked
                    &&& old(self)@.mark_agrees() ==> final(self)@.mark_agrees()
                    &&& final(self).in_step()
                },
                None => true,
            },
    {
        if !self.writable {
            return Err(Error::ReadOnly);
        }
        let len: usize = buf.len();
        if len == 0 {
            return Ok(());
        }
        let end: u64 = match offset.checked_add(len as u64) {
            Some(end) => end,
            None => return Err(Error::Corrupt("offset+len overflow")),
        };
        if end > self.virtual_size {
            return Err(
                Error::OutOfBounds { offset, len: len as u64, size: self.virtual_size },
            );
        }
        let ghost r0 = *self;
        let ghost s0 = self@;
        let ghost ready = r0.sound() && s0.describable();
        match self.mark_modified() {
            Ok(()) => {},
            Err(e) => return Err(e),
        }
        let ghost s1 = self@;
        assert(ready ==> s1.need() == s0.need() && s1.geometry() == s0.geometry());
        proof {
            if s0.charted() {
                lemma_data_beside_text(s0, s1, offset as int, buf@);
            }
        }
        let r: Result<()> = self.write_grains(offset, buf);
        proof {
            if r0.in_step() && s0.charted() && decided(r0.steady(), r) && s0.describable() && s0.with_data(
                offset as int,
                buf@,
            ) is Some {
                let n = self@;
                assert forall|b: int| 0 <= b < 512 implies #[trigger] n.contents[b]
                    == s1.contents[b] by {
                    assert(s1.is_text(b));
                }
                assert forall|b: int|
                    s0.geometry().desc_at <= b < s0.geometry().desc_at
                        + s0.geometry().desc_len implies #[trigger] n.contents[b]
                    == s1.contents[b] by {
                    assert(s1.is_text(b));
                }
                assert(n.descriptor_bytes() =~= s1.descriptor_bytes());
                let want = (s0.with_data(offset as int, buf@)->0).0;
                if want.guarded() {
                    lemma_guarded_beside_text(want, n);
                    lemma_rooted_beside_text(want, n);
                }
            }
            if ready && decided(r0.steady(), r) {
                lemma_modified(s0, s1, self@, overlaid(s0.disk(), offset as int, buf@));
            }
        }
        r
    }

    /// Make every write so far durable, and take down the mark that says
    /// the image was not shut down cleanly.
    ///
    /// Where the device fails, its error comes back and the mark is still
    /// to come down.
    ///
    /// The mark comes down only after the data it covers is durable. A
    /// crash between a write and the next flush leaves it standing, which
    /// is what it is for.
    pub fn flush(&mut self) -> (r: Result<()>)
        requires
            old(self).inv(),
        ensures
            final(self).inv(),
            final(self).limit() == old(self).limit(),
            old(self)@.same_image(&final(self)@),
            !old(self)@.writable ==> r == Ok::<(), Error>(()) && *final(self) == *old(self),
            old(self)@.writable ==> match r {
                Ok(()) => final(self)@ == old(self)@.flushed(),
                Err(e) => {
                    &&& device_error(e)
                    &&& !old(self).steady()
                    &&& final(self)@.unclean_marked == old(self)@.unclean_marked
                    &&& final(self)@.content_id_bumped == old(self)@.content_id_bumped
                    &&& old(self)@.flush_left_at(final(self)@.journal)
                },
            },
            old(self).sound() && r is Ok ==> final(self).sound(),
            old(self)@.charted() && old(self).in_step() && r is Ok ==> final(self).in_step(),
            old(self)@.mark_agrees() && r is Ok ==> final(self)@.mark_agrees(),
            old(self)@.guarded() && r is Ok ==> final(self)@.guarded(),
            old(self)@.guarded() && old(self)@.rooted() && r is Ok ==> final(self)@.rooted(),
    {
        if !self.writable {
            return Ok(());
        }
        let ghost r0 = *self;
        let ghost s0 = self@;
        match self.dev_flush() {
            Ok(()) => {},
            Err(e) => return Err(e),
        }
        let ghost r1 = *self;
        let ghost s1 = self@;
        proof {
            if r0.sound() {
                lemma_synced_notes(s0);
                Self::lemma_noted_step(&r0, self);
            }
        }
        if self.unclean_marked {
            let mark: [u8; 1] = [0u8];
            assert(mark@ =~= seq![0u8]);
            match self.dev_write(offsets::UNCLEAN_SHUTDOWN as u64, &mark) {
                Ok(()) => {},
                Err(e) => return Err(e),
            }
            match self.dev_flush() {
                Ok(()) => {},
                Err(e) => return Err(e),
            }
            let ghost s2 = self@;
            self.unclean_marked = false;
            proof {
                if r0.sound() {
                    lemma_mark_step(s1, s2, self@, 0u8);
                    Self::lemma_noted_step(&r1, self);
                }
            }
        }
        proof {
            if s0.charted() && r0.in_step() {
                Self::lemma_text_in_step(&r0, self);
            }
            if s0.guarded() {
                lemma_guarded_beside_text(s0, self@);
                lemma_rooted_beside_text(s0, self@);
            }
        }
        Ok(())
    }
}

} // verus!
