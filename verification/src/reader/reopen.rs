//! What a write leaves opens again, and reads as the write left it.

use super::laws::{
    law_flush_keeps_the_disk, law_opening_a_healthy_image_is_sound, law_reading_gives_the_disk,
};
use super::mark::fresh_id;
use super::open::{
    descriptor_stage, directory_refusal, fits, grain_floor, named_tables, opened, protects,
    redundant_refusal, sparse_extent, tables_clash,
};
use super::state::{lemma_div_up, table_count, State};
use crate::bytes::overlaid;
use crate::content_id::{
    content_id_of, law_located_field, law_rewritten_identifier_reads_back, with_content_id,
    ContentIdField,
};
use crate::descriptor::identifier::{keeps_meaning, law_descriptor_outlives_its_identifier};
use crate::descriptor::DescriptorView;
use crate::error::{Error, Result};
use crate::header::{header_of, SparseHeader};
use crate::image::{apart, healthy, placed, slot_range, Slot};
use vstd::prelude::*;

verus! {

impl State {
    /// Whether the image on the device is, header and descriptor, the one
    /// this state was opened from, but for the mark and the identifier.
    ///
    /// The floor under the grains is where the header puts it, inside the
    /// file: a file that grew past an `over_head` it used to end before
    /// would be opened with another floor.
    pub open spec fn recorded_in_place(&self) -> bool {
        let c = self.contents;
        let h = self.header;
        let n = c.len() as int;
        &&& n <= u64::MAX
        &&& sparse_extent(c, n) == Ok::<bool, Error>(true)
        &&& header_of(c.subrange(0, 512)) == Ok::<SparseHeader, Error>(
            SparseHeader { unclean_shutdown: c[72], ..h },
        )
        &&& !h.stream()
        &&& self.readable_descriptor() is Ok
        &&& directory_refusal(n, h) is None
        &&& self.redundant == h.redundant()
        &&& h.redundant() ==> redundant_refusal(n, h) is None
        &&& h.capacity * 512 <= u64::MAX
        &&& fits(h.over_head as int, 0, n)
        &&& self.floor == grain_floor(h, n)
    }

    /// What the descriptor on the device says when it is read again.
    pub open spec fn readable_descriptor(&self) -> Result<DescriptorView> {
        descriptor_stage(self.contents, self.contents.len() as int, true, self.header)
    }

    /// Whether changing the identifier keeps what the descriptor says; see
    /// [`keeps_meaning`].
    pub open spec fn plain_identifier(&self) -> bool {
        content_id_of(self.descriptor_bytes()) matches Ok(Some(f)) ==> keeps_meaning(
            self.descriptor_bytes(),
            f,
        )
    }
}

/// An image opened for writing is recorded in place.
pub proof fn law_opened_is_recorded_in_place(c: Seq<u8>, reliable: bool)
    requires
        c.len() <= u64::MAX,
        opened(c, c.len() as int, true, true, reliable) is Ok,
        fits(
            opened(c, c.len() as int, true, true, reliable)->Ok_0.header.over_head as int,
            0,
            c.len() as int,
        ),
    ensures
        ({
            let s = opened(c, c.len() as int, true, true, reliable)->Ok_0;
            &&& s.recorded_in_place()
            &&& s.readable_descriptor() == Ok::<DescriptorView, Error>(s.descriptor)
        }),
{
    let s = opened(c, c.len() as int, true, true, reliable)->Ok_0;
    assert(header_of(c.subrange(0, 512)) == Ok::<SparseHeader, Error>(s.header));
    assert(s.header.unclean_shutdown == c.subrange(0, 512)[72]);
}

/// Opening an image that is recorded in place, for reading or for writing,
/// gives a sound reader with the same disk.
pub proof fn law_reopening_gives_the_disk(s: State, writable: bool, reliable: bool)
    requires
        s.sound(),
        s.recorded_in_place(),
    ensures
        ({
            let n = s.contents.len() as int;
            &&& opened(s.contents, n, writable, true, reliable) matches Ok(t)
            &&& t.sound()
            &&& t.settled()
            &&& t.geometry() == s.geometry()
            &&& t.disk() == s.disk()
            &&& s.readable_descriptor() == Ok::<DescriptorView, Error>(t.descriptor)
            &&& writable ==> t.describable()
        }),
{
    let c = s.contents;
    let n = c.len() as int;
    let g = s.geometry();
    let h = SparseHeader { unclean_shutdown: c[72], ..s.header };
    assert(h.stream() == s.header.stream() && h.redundant() == s.header.redundant()
        && h.zeroed_marker() == s.header.zeroed_marker());
    assert(descriptor_stage(c, n, writable, h) == s.readable_descriptor());
    assert(!tables_clash(
        h,
        n,
        super::open::fixed_bytes(h, n, s.redundant),
        named_tables(c, h, s.redundant),
    )) by {
        lemma_no_clash(s, h, n);
    }
    let t = opened(c, n, writable, true, reliable)->Ok_0;
    assert(t.geometry() == g);
    lemma_div_up(n, 512);
    assert(healthy(g, c, t.extent())) by {
        reveal(State::sound);
        reveal(healthy);
        assert forall|x: Slot| (#[trigger] slot_range(g, c, x)) is Some implies placed(
            g,
            c,
            t.extent(),
            slot_range(g, c, x)->0,
        ) by {
            assert(placed(g, c, s.extent(), slot_range(g, c, x)->0));
        }
    }
    law_opening_a_healthy_image_is_sound(c, n, writable, true, reliable);
}

/// The tables of a healthy image share no byte.
proof fn lemma_no_clash(s: State, h: SparseHeader, n: int)
    requires
        s.sound(),
        h == (SparseHeader { unclean_shutdown: h.unclean_shutdown, ..s.header }),
    ensures
        !tables_clash(
            h,
            n,
            super::open::fixed_bytes(h, n, s.redundant),
            named_tables(s.contents, h, s.redundant),
        ),
{
    let c = s.contents;
    let g = s.geometry();
    let fixed = super::open::fixed_bytes(h, n, s.redundant);
    let named = named_tables(c, h, s.redundant);
    let count = table_count(h);
    assert(table_count(s.header) == count);
    reveal(State::sound);
    reveal(healthy);
    assert(4 * g.per_table <= g.table_span());
    assert forall|j: int, k: int|
        0 <= j < k < named.len() && protects(h, n, fixed, #[trigger] named[j]) && protects(
            h,
            n,
            fixed,
            #[trigger] named[k],
        ) implies apart(
        (named[j] * 512, named[j] * 512 + 4 * h.num_gtes_per_gt),
        (named[k] * 512, named[k] * 512 + 4 * h.num_gtes_per_gt),
    ) by {
        let x = slot_named(count, j);
        let y = slot_named(count, k);
        assert(x != y);
        assert(slot_range(g, c, x) == Some((named[j] * 512, named[j] * 512 + g.table_span())));
        assert(slot_range(g, c, y) == Some((named[k] * 512, named[k] * 512 + g.table_span())));
    }
}

/// The slot that the `k`th of the named tables is.
spec fn slot_named(count: int, k: int) -> Slot {
    if k < count {
        Slot::Table(k)
    } else {
        Slot::Copy(k - count)
    }
}

/// A header sector with another mark is the same header but for the mark.
proof fn lemma_header_marked(b: Seq<u8>, d: Seq<u8>)
    requires
        b.len() == 512,
        d.len() == 512,
        forall|k: int| 0 <= k < 512 && k != 72 ==> #[trigger] d[k] == b[k],
        header_of(b) is Ok,
    ensures
        header_of(d) == Ok::<SparseHeader, Error>(
            SparseHeader { unclean_shutdown: d[72], ..header_of(b)->Ok_0 },
        ),
{
}

/// A write keeps an image recorded in place, as long as its descriptor is
/// still accepted under the new identifier. It is, and says what it said,
/// where [`State::plain_identifier`] holds.
pub proof fn law_write_keeps_the_record(s: State, n: State, target: Seq<u8>)
    requires
        s.sound(),
        s.recorded_in_place(),
        s.content_id_bumped || s.plain_identifier() || n.readable_descriptor() is Ok,
        s.modified_to(&n, target),
        n.contents.len() <= u64::MAX,
    ensures
        n.recorded_in_place(),
        s.content_id_bumped || s.plain_identifier() ==> n.readable_descriptor()
            == s.readable_descriptor(),
{
    assert(s.text_held()) by {
        reveal(State::sound);
        reveal(healthy);
    }
    lemma_record_kept(s, n);
}

impl State {
    /// Whether the device holds the header sector and the descriptor, and
    /// they are apart.
    pub open spec fn text_held(&self) -> bool {
        let g = self.geometry();
        &&& 512 <= self.contents.len()
        &&& 512 <= g.desc_at
        &&& 0 <= g.desc_len
        &&& g.desc_at + g.desc_len <= self.contents.len()
    }
}

/// The marks of a write keep an image recorded in place.
pub(super) proof fn lemma_record_kept(s: State, n: State)
    requires
        s.text_held(),
        s.recorded_in_place(),
        s.content_id_bumped || s.plain_identifier() || n.readable_descriptor() is Ok,
        s.same_open(&n),
        s.text_marked(&n),
        s.contents.len() <= n.contents.len() <= u64::MAX,
    ensures
        n.recorded_in_place(),
        s.content_id_bumped || s.plain_identifier() ==> n.readable_descriptor()
            == s.readable_descriptor(),
{
    let c = s.contents;
    let d = n.contents;
    let h = s.header;
    let len = d.len() as int;
    let a = c.subrange(0, 512);
    let b = d.subrange(0, 512);
    assert forall|k: int| 0 <= k < 512 && k != 72 implies #[trigger] b[k] == a[k] by {
        assert(d[k] == c[k]);
    }
    lemma_header_marked(a, b);
    assert(a[72] == c[72] && b[72] == d[72]);
    assert(sparse_extent(d, len) == Ok::<bool, Error>(true)) by {
        assert(d[0] == c[0] && d[1] == c[1] && d[2] == c[2] && d[3] == c[3]);
    }
    if s.content_id_bumped || s.plain_identifier() {
        lemma_descriptor_kept(s, n);
    }
}

/// A write keeps what the descriptor says.
proof fn lemma_descriptor_kept(s: State, n: State)
    requires
        s.text_held(),
        s.recorded_in_place(),
        s.content_id_bumped || s.plain_identifier(),
        s.same_open(&n),
        s.text_marked(&n),
        s.contents.len() <= n.contents.len() <= u64::MAX,
    ensures
        n.readable_descriptor() == s.readable_descriptor(),
{
    let c = s.contents;
    let d = n.contents;
    let h = s.header;
    let off = h.descriptor_offset * 512;
    let len = h.descriptor_size * 512;
    assert(n.geometry() == s.geometry());
    let region = c.subrange(off, off + len);
    let new = d.subrange(off, off + len);
    assert(s.descriptor_bytes() =~= region);
    assert(n.descriptor_bytes() =~= new);
    if !s.content_id_bumped {
        if let Ok(Some(f)) = content_id_of(region) {
            let next = choose|next: u32| #[trigger]
                fresh_id(region, f, next) && new == with_content_id(region, f, next);
            law_descriptor_outlives_its_identifier(region, f, next);
            law_rewritten_identifier_reads_back(region, next);
        }
    }
}

/// A flush keeps an image recorded in place.
pub proof fn law_flush_keeps_the_record(s: State)
    requires
        s.sound(),
        s.recorded_in_place(),
    ensures
        s.flushed().recorded_in_place(),
        s.flushed().readable_descriptor() == s.readable_descriptor(),
{
    assert(s.text_held()) by {
        reveal(State::sound);
        reveal(healthy);
    }
    lemma_flushed_record(s);
}

/// Taking down the mark keeps an image recorded in place.
pub(super) proof fn lemma_flushed_record(s: State)
    requires
        s.text_held(),
        s.recorded_in_place(),
    ensures
        s.flushed().recorded_in_place(),
        s.flushed().readable_descriptor() == s.readable_descriptor(),
{
    let n = s.flushed();
    let c = s.contents;
    let d = n.contents;
    let h = s.header;
    let a = c.subrange(0, 512);
    let b = d.subrange(0, 512);
    assert forall|k: int| 0 <= k < 512 && k != 72 implies #[trigger] b[k] == a[k] by {
        assert(d[k] == c[k]);
    }
    lemma_header_marked(a, b);
    assert(a[72] == c[72] && b[72] == d[72]);
    assert(sparse_extent(d, d.len() as int) == Ok::<bool, Error>(true)) by {
        assert(d[0] == c[0] && d[1] == c[1] && d[2] == c[2] && d[3] == c[3]);
    }
    let off = h.descriptor_offset * 512;
    let len = h.descriptor_size * 512;
    assert(c.subrange(off, off + len) =~= d.subrange(off, off + len));
}

/// What was written and flushed is there when the image is opened again,
/// for reading or for writing, as long as the descriptor is still accepted
/// under its new identifier.
pub proof fn law_written_data_survives_reopening(
    s: State,
    n: State,
    offset: int,
    data: Seq<u8>,
    writable: bool,
    reliable: bool,
)
    requires
        s.sound(),
        s.recorded_in_place(),
        s.content_id_bumped || s.plain_identifier() || n.readable_descriptor() is Ok,
        0 <= offset,
        offset + data.len() <= s.geometry().virtual_size,
        s.modified_to(&n, overlaid(s.disk(), offset, data)),
        n.sound(),
        n.disk() == overlaid(s.disk(), offset, data),
        n.contents.len() <= u64::MAX,
    ensures
        ({
            let c = n.flushed().contents;
            &&& opened(c, c.len() as int, writable, true, reliable) matches Ok(t)
            &&& t.sound()
            &&& t.disk() == overlaid(s.disk(), offset, data)
            &&& t.read(offset, data.len() as int) == Ok::<Seq<u8>, Error>(data)
        }),
{
    let target = overlaid(s.disk(), offset, data);
    law_write_keeps_the_record(s, n, target);
    law_flush_keeps_the_record(n);
    law_flush_keeps_the_disk(n);
    let m = n.flushed();
    law_reopening_gives_the_disk(m, writable, reliable);
    let t = opened(m.contents, m.contents.len() as int, writable, true, reliable)->Ok_0;
    law_reading_gives_the_disk(t, offset, data.len() as int);
    assert(t.disk().subrange(offset, offset + data.len()) =~= data);
}

/// An identifier that a write put in place can be changed again in the next
/// session.
pub proof fn law_fresh_identifier_is_plain(region: Seq<u8>, f: ContentIdField, next: u32)
    requires
        region.len() <= usize::MAX,
        content_id_of(region) == Ok::<Option<ContentIdField>, &'static str>(Some(f)),
        keeps_meaning(region, f),
    ensures
        content_id_of(with_content_id(region, f, next)) matches Ok(Some(g)) && keeps_meaning(
            with_content_id(region, f, next),
            g,
        ),
{
    law_located_field(region);
    law_rewritten_identifier_reads_back(region, next);
    let new = with_content_id(region, f, next);
    if f.start > 4 {
        assert(new.subrange(0, f.start as int)[f.start - 5] == region.subrange(
            0,
            f.start as int,
        )[f.start - 5]);
    }
}

} // verus!
