//! In what order a write reaches the device: the marks that announce it are
//! durable before any of its data moves, on damaged images as on healthy
//! ones.

use super::allocate::merged_tables;
use super::effect::{lemma_with_copy, lemma_with_grain, lemma_with_table, usable};
use super::mark::lemma_identifier_written;
use super::sound::{
    extends, is_state, lemma_text_recorded, lemma_text_reflexive, lemma_text_settled,
    lemma_text_through_trans, lemma_text_trans, lemma_text_unrecorded, same_text, text_throughout,
};
use super::state::{bytes_at, hits, zeros, State};
use crate::bytes::le32_bytes;
use crate::content_id::{content_id_of, law_located_field, replacement};
use crate::error::Error;
use crate::image::{
    copy_sector, lemma_byte_in_grain, lemma_grain_index, table_sector, Geometry, GrainState,
};
use vstd::prelude::*;

verus! {

impl State {
    /// Whether the journal holds a state since the last flush.
    pub open spec fn journaled(&self) -> bool {
        1 <= self.journal.len() && 1 <= self.journal.last().len()
    }

    /// Whether contents `c` differ from this state's in the header sector
    /// and the descriptor at most.
    pub open spec fn only_text_differs(&self, c: Seq<u8>) -> bool {
        c.len() == self.contents.len() && forall|b: int|
            0 <= b < c.len() && !self.is_text(b) ==> #[trigger] c[b] == self.contents[b]
    }

    /// Whether `n` follows this state by writes to the header sector and
    /// the descriptor alone, throughout.
    pub open spec fn writes_text(&self, n: &State) -> bool {
        &&& self.text_only(n)
        &&& n.journaled()
        &&& extends(self.journal, n.journal)
        &&& forall|e: int, k: int| #[trigger]
            is_state(n.journal, e, k) && !is_state(self.journal, e, k) ==> self.only_text_differs(
                n.journal[e][k],
            )
    }

    /// Whether `n` follows this state by writes that leave the header sector
    /// and the descriptor alone throughout.
    pub open spec fn leaves_text(&self, n: &State) -> bool {
        let g = self.geometry();
        &&& n.header == self.header
        &&& n.redundant == self.redundant
        &&& n.fixed == self.fixed
        &&& n.floor == self.floor
        &&& self.cursor <= n.cursor
        &&& self.contents.len() <= n.contents.len()
        &&& n.journaled()
        &&& same_text(g, self.contents, n.contents)
        &&& extends(self.journal, n.journal)
        &&& text_throughout(g, self.journal, n.journal, self.contents)
    }

    /// Whether the header sector and the descriptor are in the device and
    /// fixed, and so nothing at the tail.
    pub open spec fn text_fixed(&self) -> bool {
        &&& self.charted()
        &&& 0 <= self.cursor
        &&& self.journaled()
        &&& forall|b: int| #[trigger] self.fixed.contains(b) ==> b < self.cursor * 512
    }
}

proof fn lemma_leaves_nothing(s: State)
    requires
        s.journaled(),
    ensures
        s.leaves_text(&s),
{
    lemma_text_reflexive(s.geometry(), s.contents);
    lemma_text_unrecorded(s.geometry(), s.journal, s.contents);
}

proof fn lemma_leaves_trans(a: State, b: State, c: State)
    requires
        a.leaves_text(&b),
        b.leaves_text(&c),
    ensures
        a.leaves_text(&c),
{
    let g = a.geometry();
    assert(b.geometry() == g);
    lemma_text_trans(g, a.contents, b.contents, c.contents);
    lemma_text_through_trans(g, a.journal, b.journal, c.journal, a.contents, b.contents);
    assert forall|e: int, k: int| #[trigger] is_state(a.journal, e, k) implies is_state(
        c.journal,
        e,
        k,
    ) && c.journal[e][k] == a.journal[e][k] by {
        assert(is_state(b.journal, e, k));
    }
}

/// What is fixed stays so.
proof fn lemma_text_stays_fixed(s: State, n: State)
    requires
        s.text_fixed(),
        s.leaves_text(&n),
    ensures
        n.text_fixed(),
{
    assert(n.geometry() == s.geometry());
    assert forall|b: int| #[trigger] n.is_text(b) implies n.fixed.contains(b) by {
        assert(s.is_text(b));
    }
}

/// A write beside the header sector and the descriptor.
proof fn lemma_write_leaves_text(s: State, at: int, data: Seq<u8>)
    requires
        s.text_fixed(),
        0 <= at,
        forall|b: int| at <= b < at + data.len() ==> !#[trigger] s.is_text(b),
    ensures
        s.leaves_text(&s.wrote(at, data)),
        s.leaves_text(&s.wrote(at, data).synced()),
{
    let g = s.geometry();
    let n = s.wrote(at, data);
    assert(same_text(g, s.contents, n.contents)) by {
        reveal(same_text);
        assert forall|b: int|
            0 <= b < 512 || g.desc_at <= b < g.desc_at
                + g.desc_len implies #[trigger] s.contents[b] == n.contents[b] by {
            assert(s.is_text(b));
        }
    }
    lemma_text_recorded(g, s.journal, s.contents, n.contents);
    assert(s.leaves_text(&n));
    lemma_sync_leaves_text(n);
    lemma_leaves_trans(s, n, n.synced());
}

proof fn lemma_sync_leaves_text(s: State)
    requires
        s.journaled(),
    ensures
        s.leaves_text(&s.synced()),
{
    lemma_text_reflexive(s.geometry(), s.contents);
    lemma_text_settled(s.geometry(), s.journal, s.contents);
}

/// A range clear of the fixed regions, or past them all, is beside the
/// header sector and the descriptor.
proof fn lemma_beside_text(s: State, lo: int, hi: int)
    requires
        s.text_fixed(),
        !hits(s.fixed, lo, hi) || s.cursor * 512 <= lo,
    ensures
        forall|b: int| lo <= b < hi ==> !#[trigger] s.is_text(b),
{
    assert forall|b: int| lo <= b < hi implies !#[trigger] s.is_text(b) by {
        if s.is_text(b) {
            assert(s.fixed.contains(b));
            assert(s.cursor * 512 > lo);
            assert(hits(s.fixed, lo, hi));
        }
    }
}

/// Naming a table in a directory.
proof fn lemma_publish_leaves_text(s: State, redundant: bool, i: int, t: int)
    requires
        s.text_fixed(),
        0 <= i < s.geometry().tables,
        redundant ==> s.redundant,
    ensures
        s.leaves_text(&s.published(redundant, i, t)),
{
    let g = s.geometry();
    let at = s.directory_at(redundant) + 4 * i;
    assert(4 * g.tables <= g.dir_span());
    lemma_write_leaves_text(s, at, le32_bytes(t as u32));
}

/// Laying an empty table at the tail.
proof fn lemma_blank_leaves_text(s: State)
    requires
        s.text_fixed(),
    ensures
        s.leaves_text(&s.with_blank_table()),
{
    let span = s.geometry().table_span();
    let lo = s.cursor * 512;
    let a = State {
        cursor: s.cursor + s.table_sectors(),
        tables: s.tables.union(Set::new(|b: int| lo <= b < lo + span)),
        ..s
    };
    assert(0 <= s.table_sectors());
    lemma_leaves_nothing(s);
    assert(s.leaves_text(&a));
    lemma_text_stays_fixed(s, a);
    lemma_beside_text(s, lo, lo + zeros(span).len());
    assert forall|b: int| lo <= b < lo + zeros(span).len() implies !#[trigger] a.is_text(
        b,
    ) by {
        assert(!s.is_text(b));
    }
    lemma_write_leaves_text(a, lo, zeros(span));
    lemma_leaves_trans(s, a, a.wrote(lo, zeros(span)).synced());
}

/// Placing a table in each directory.
proof fn lemma_table_leaves_text(s: State, i: int)
    requires
        s.text_fixed(),
        0 <= i < s.geometry().tables,
    ensures
        s.leaves_text(&s.with_table(i).0),
{
    reveal(State::with_table);
    let a = s.with_blank_table();
    lemma_leaves_nothing(s);
    lemma_blank_leaves_text(s);
    lemma_text_stays_fixed(s, a);
    if s.room(s.table_sectors()) {
        if !s.redundant {
            lemma_publish_leaves_text(a, false, i, s.cursor);
            lemma_leaves_trans(s, a, a.published(false, i, s.cursor));
        } else if a.room(s.table_sectors()) {
            let b = a.with_blank_table();
            lemma_blank_leaves_text(a);
            lemma_text_stays_fixed(a, b);
            let c = b.published(true, i, a.cursor);
            lemma_publish_leaves_text(b, true, i, a.cursor);
            lemma_text_stays_fixed(b, c);
            lemma_publish_leaves_text(c, false, i, s.cursor);
            lemma_leaves_trans(s, a, b);
            lemma_leaves_trans(s, b, c);
            lemma_leaves_trans(s, c, c.published(false, i, s.cursor));
        }
    }
}

/// Preparing the copy of a table.
proof fn lemma_copy_leaves_text(s: State, i: int)
    requires
        s.text_fixed(),
        0 <= i < s.geometry().tables,
    ensures
        s.leaves_text(&s.with_copy(i).0),
{
    let g = s.geometry();
    let span = g.table_span();
    let p = table_sector(g, s.contents, i);
    let q = copy_sector(g, s.contents, i);
    lemma_leaves_nothing(s);
    if s.redundant && q != 0 {
        if s.copy_refusal(q) is None && !s.merged.contains(i) {
            let r = bytes_at(s.contents, q * 512, span);
            let m = merged_tables(bytes_at(s.contents, p * 512, span), r);
            if m != r {
                lemma_beside_text(s, q * 512, q * 512 + span);
                lemma_write_leaves_text(s, q * 512, m);
            }
        }
    } else if s.redundant && s.room(s.table_sectors()) {
        let a = s.with_blank_table();
        lemma_blank_leaves_text(s);
        lemma_text_stays_fixed(s, a);
        let data = bytes_at(a.contents, p * 512, span);
        let lo = s.cursor * 512;
        lemma_beside_text(s, lo, lo + data.len());
        assert forall|b: int| lo <= b < lo + data.len() implies !#[trigger] a.is_text(b) by {
            assert(!s.is_text(b));
        }
        lemma_write_leaves_text(a, lo, data);
        let b = a.wrote(lo, data).synced();
        lemma_text_stays_fixed(a, b);
        lemma_publish_leaves_text(b, true, i, s.cursor);
        lemma_leaves_trans(s, a, b);
        lemma_leaves_trans(s, b, b.published(true, i, s.cursor));
    }
}

/// Laying a grain at the tail.
proof fn lemma_grain_leaves_text(s: State, k: int, src: Seq<u8>)
    requires
        s.text_fixed(),
        0 <= k,
    ensures
        s.leaves_text(&s.with_grain(k, src).0),
{
    let gb = s.geometry().grain_bytes;
    let lo = s.cursor * 512;
    let a = State { cursor: s.cursor + s.header.grain_size, ..s };
    lemma_leaves_nothing(s);
    assert(s.leaves_text(&a));
    lemma_text_stays_fixed(s, a);
    let z = zeros(gb);
    lemma_beside_text(s, lo, lo + z.len());
    lemma_beside_text(s, lo + k, lo + k + src.len());
    assert forall|b: int| lo <= b < lo + z.len() implies !#[trigger] a.is_text(b) by {
        assert(!s.is_text(b));
    }
    lemma_write_leaves_text(a, lo, z);
    let b = a.wrote(lo, z);
    lemma_text_stays_fixed(a, b);
    assert forall|x: int| lo + k <= x < lo + k + src.len() implies !#[trigger] a.is_text(x) by {
        assert(!s.is_text(x));
    }
    assert forall|x: int| lo + k <= x < lo + k + src.len() implies !#[trigger] b.is_text(x) by {
        assert(!s.is_text(x));
    }
    lemma_write_leaves_text(a, lo + k, src);
    lemma_write_leaves_text(b, lo + k, src);
    lemma_leaves_trans(s, a, b);
    lemma_leaves_trans(s, a, a.wrote(lo + k, src).synced());
    lemma_leaves_trans(s, b, b.wrote(lo + k, src).synced());
}

/// Setting the entry of a grain.
proof fn lemma_entry_leaves_text(s: State, i: int, j: int, new: u32)
    requires
        s.text_fixed(),
        s.prepared(i),
        0 <= j < s.geometry().per_table,
    ensures
        s.leaves_text(&s.with_entry(i, j, new)),
{
    let g = s.geometry();
    let p = table_sector(g, s.contents, i);
    let q = copy_sector(g, s.contents, i);
    let entry = le32_bytes(new);
    assert(4 * g.per_table <= g.table_span());
    lemma_leaves_nothing(s);
    lemma_beside_text(s, p * 512, p * 512 + 4 * g.per_table);
    lemma_write_leaves_text(s, p * 512 + 4 * j, entry);
    if s.redundant {
        lemma_beside_text(s, q * 512, q * 512 + g.table_span());
        lemma_write_leaves_text(s, q * 512 + 4 * j, entry);
        let a = s.wrote(q * 512 + 4 * j, entry).synced();
        lemma_text_stays_fixed(s, a);
        assert forall|x: int|
            p * 512 + 4 * j <= x < p * 512 + 4 * j + entry.len() implies !#[trigger] a.is_text(x) by {
            assert(!s.is_text(x));
        }
        lemma_write_leaves_text(a, p * 512 + 4 * j, entry);
        lemma_leaves_trans(s, a, a.wrote(p * 512 + 4 * j, entry));
    }
}

/// Placing a grain in a table that is there.
proof fn lemma_placing_leaves_text(s: State, i: int, j: int, k: int, src: Seq<u8>)
    requires
        s.text_fixed(),
        usable(s, i),
        0 <= j < s.geometry().per_table,
        0 <= k,
        0 < src.len(),
        k + src.len() <= s.geometry().grain_bytes,
    ensures
        s.leaves_text(&s.with_grain_in_table(i, j, k, src).0),
{
    reveal(State::with_grain_in_table);
    lemma_copy_leaves_text(s, i);
    let (b, refused) = s.with_copy(i);
    if refused is None {
        lemma_with_copy(s, i);
        lemma_text_stays_fixed(s, b);
        lemma_grain_leaves_text(b, k, src);
        let (c, refused) = b.with_grain(k, src);
        lemma_leaves_trans(s, b, c);
        if refused is None {
            lemma_with_grain(b, i, k, src);
            lemma_text_stays_fixed(b, c);
            let new = b.cursor as u32;
            lemma_entry_leaves_text(c, i, j, new);
            lemma_leaves_trans(s, c, c.with_entry(i, j, new));
        }
    }
}

/// Writing a part of a grain.
proof fn lemma_part_leaves_text(s: State, v: int, part: Seq<u8>)
    requires
        s.text_fixed(),
        s.guarded_at(v / s.geometry().grain_bytes),
        1 <= s.cursor,
        0 <= v,
        0 < part.len(),
        v % s.geometry().grain_bytes + part.len() <= s.geometry().grain_bytes,
        v + part.len() <= s.geometry().virtual_size,
    ensures
        s.leaves_text(&s.with_part(v, part).0),
{
    reveal(State::with_part);
    let g = s.geometry();
    let gi = v / g.grain_bytes;
    let i = gi / g.per_table;
    let j = gi % g.per_table;
    let k = v % g.grain_bytes;
    lemma_byte_in_grain(g, v);
    lemma_grain_index(g, gi);
    lemma_leaves_nothing(s);
    if let Ok(entry) = s.entry(gi) {
        if let GrainState::At(sector) = g.meaning(entry) {
            if let Ok(off) = s.host_offset(sector, k, part.len() as int) {
                lemma_beside_text(s, off, off + part.len());
                lemma_write_leaves_text(s, off, part);
            }
        } else if table_sector(g, s.contents, i) == 0 {
            lemma_table_leaves_text(s, i);
            let (a, refused) = s.with_table(i);
            if refused is None {
                lemma_with_table(s, i);
                lemma_text_stays_fixed(s, a);
                lemma_placing_leaves_text(a, i, j, k, part);
                lemma_leaves_trans(s, a, a.with_grain_in_table(i, j, k, part).0);
            }
        } else {
            lemma_placing_leaves_text(s, i, j, k, part);
        }
    }
}

/// Data goes to the device beside the header sector and the descriptor.
pub(super) proof fn lemma_data_leaves_text(s: State, v: int, data: Seq<u8>)
    requires
        s.text_fixed(),
        1 <= s.cursor,
        0 <= v,
        v + data.len() <= s.geometry().virtual_size,
    ensures
        s.with_data(v, data) matches Some((n, _)) ==> s.leaves_text(&n),
    decreases data.len(),
{
    let g = s.geometry();
    let n = s.chunk_len(v, v + data.len());
    lemma_leaves_nothing(s);
    if data.len() > 0 && n > 0 {
        let gi = v / g.grain_bytes;
        let part = data.subrange(0, n);
        lemma_byte_in_grain(g, v);
        if s.guarded_at(gi) {
            lemma_part_leaves_text(s, v, part);
            let (a, refusal) = s.with_part(v, part);
            lemma_text_stays_fixed(s, a);
            if refusal is None {
                let rest = data.subrange(n, data.len() as int);
                lemma_data_leaves_text(a, v + n, rest);
                if let Some((b, _)) = a.with_data(v + n, rest) {
                    lemma_leaves_trans(s, a, b);
                }
            }
        }
    }
}

/// A write to the header sector and the descriptor, made durable.
proof fn lemma_text_write(s: State, at: int, data: Seq<u8>)
    requires
        s.charted(),
        s.journaled(),
        0 <= at,
        0 < data.len(),
        forall|b: int| at <= b < at + data.len() ==> #[trigger] s.is_text(b),
        at + data.len() <= s.contents.len(),
    ensures
        s.writes_text(&s.wrote(at, data).synced()),
        s.wrote(at, data).synced().journal.last()[0] == s.wrote(at, data).contents,
{
    let a = s.wrote(at, data);
    let n = a.synced();
    assert forall|b: int| 0 <= b < a.contents.len() && !s.is_text(b) implies #[trigger] a.contents[b]
        == s.contents[b] by {}
    assert(s.only_text_differs(a.contents));
    assert forall|e: int, k: int| #[trigger]
        is_state(n.journal, e, k) && !is_state(s.journal, e, k) implies s.only_text_differs(
        n.journal[e][k],
    ) by {
        assert(n.journal[e][k] == a.contents);
    }
}

proof fn lemma_writes_trans(a: State, b: State, c: State)
    requires
        a.writes_text(&b),
        b.writes_text(&c),
    ensures
        a.writes_text(&c),
{
    assert(b.geometry() == a.geometry());
    assert forall|x: int| 0 <= x < a.contents.len() && !a.is_text(x) implies #[trigger] c.contents[x]
        == a.contents[x] by {
        assert(!b.is_text(x));
        assert(b.contents[x] == a.contents[x]);
    }
    assert forall|e: int, k: int| #[trigger] is_state(a.journal, e, k) implies is_state(
        c.journal,
        e,
        k,
    ) && c.journal[e][k] == a.journal[e][k] by {
        assert(is_state(b.journal, e, k));
    }
    assert forall|e: int, k: int| #[trigger]
        is_state(c.journal, e, k) && !is_state(a.journal, e, k) implies a.only_text_differs(
        c.journal[e][k],
    ) by {
        if is_state(b.journal, e, k) {
            assert(c.journal[e][k] == b.journal[e][k]);
        } else {
            let x = c.journal[e][k];
            assert(b.only_text_differs(x));
            assert forall|y: int| 0 <= y < x.len() && !a.is_text(y) implies #[trigger] x[y]
                == a.contents[y] by {
                assert(!b.is_text(y));
                assert(b.contents[y] == a.contents[y]);
            }
        }
    }
}

/// What a write records before it moves any data touches the header sector
/// and the descriptor alone, and is durable.
proof fn lemma_marking(s: State, next: u32)
    requires
        s.charted(),
        s.describable(),
        s.journaled(),
        s.marks_settled(),
        s.geometry().desc_len <= usize::MAX,
    ensures
        s.writes_text(&s.marked_with(next)),
        s.marked_with(next).marks_settled(),
        s.marked_with(next).unclean_marked,
{
    let g = s.geometry();
    let n = s.renamed(next);
    assert(s.writes_text(&s));
    if !s.content_id_bumped {
        let region = s.descriptor_bytes();
        if let Ok(Some(f)) = content_id_of(region) {
            lemma_identifier_written(s.contents, g.desc_at, g.desc_len, f, next);
            law_located_field(region);
            let new = replacement(region, f, next);
            let at = g.desc_at + f.start;
            assert forall|b: int| at <= b < at + new.len() implies #[trigger] s.is_text(b) by {}
            lemma_text_write(s, at, new);
            let a = s.wrote(at, new).synced();
            assert(a.contents[72] == s.contents[72]);
            lemma_text_reflexive(g, a.contents);
            assert(s.writes_text(&n));
        }
    }
    assert(s.writes_text(&n));
    assert(n.geometry() == g);
    assert(n.marks_settled());
    if !n.unclean_marked {
        assert forall|b: int| #[trigger] n.is_text(b) implies n.fixed.contains(b) by {
            assert(s.is_text(b));
        }
        lemma_text_write(n, 72, seq![1u8]);
        let a = n.wrote(72, seq![1u8]).synced();
        lemma_text_reflexive(g, a.contents);
        let m = State { unclean_marked: true, ..a };
        assert(n.writes_text(&m));
        lemma_writes_trans(s, n, m);
    }
}

/// A write's marks come before its data, whatever state the image is in: in
/// every state since the write began, either nothing but the header sector
/// and the descriptor has changed, or both are as the write leaves them,
/// mark and identifier, and were so at the flush before. A crash that finds
/// changed data thus finds the marks.
pub proof fn law_marks_come_before_data_on_any_image(
    s: State,
    next: u32,
    n: State,
    refusal: Option<Error>,
    v: int,
    data: Seq<u8>,
    e: int,
    k: int,
)
    requires
        s.text_fixed(),
        s.describable(),
        s.marks_settled(),
        s.geometry().desc_len <= usize::MAX,
        1 <= s.cursor,
        0 <= v,
        v + data.len() <= s.geometry().virtual_size,
        s.marked_with(next).with_data(v, data) == Some((n, refusal)),
        is_state(n.journal, e, k),
        !is_state(s.journal, e, k),
    ensures
        s.only_text_differs(n.journal[e][k]) || (same_text(
            s.geometry(),
            n.contents,
            n.journal[e][k],
        ) && same_text(s.geometry(), n.contents, n.journal[e][0])),
        n.contents[72] == 1,
        n.marks_settled(),
        n.text_fixed(),
{
    let g = s.geometry();
    let m = s.marked_with(next);
    lemma_marking(s, next);
    assert(m.geometry() == g);
    assert(m.text_fixed()) by {
        assert forall|b: int| #[trigger] m.is_text(b) implies m.fixed.contains(b) by {
            assert(s.is_text(b));
        }
    }
    lemma_data_leaves_text(m, v, data);
    lemma_text_stays_fixed(m, n);
    assert(m.is_text(72) && n.contents[72] == m.contents[72]) by {
        reveal(same_text);
        assert(m.contents[72] == n.contents[72]);
    }
    lemma_settled_after(m, n);
    if !is_state(m.journal, e, k) {
        lemma_led(m, n, e, k);
    } else {
        assert(n.journal[e][k] == m.journal[e][k]);
    }
}

/// A state that came after the marks has their text, and so had the device
/// at the flush before it.
proof fn lemma_led(m: State, n: State, e: int, k: int)
    requires
        m.leaves_text(&n),
        m.journaled(),
        m.unclean_marked,
        m.marks_settled(),
        is_state(n.journal, e, k),
        !is_state(m.journal, e, k),
    ensures
        same_text(m.geometry(), n.contents, n.journal[e][k]),
        same_text(m.geometry(), n.contents, n.journal[e][0]),
{
    let g = m.geometry();
    lemma_text_back(g, m.contents, n.contents);
    assert(same_text(g, m.contents, n.journal[e][k])) by {
        reveal(text_throughout);
    }
    lemma_text_trans(g, n.contents, m.contents, n.journal[e][k]);
    assert(same_text(g, m.contents, n.journal[e][0])) by {
        reveal(text_throughout);
        assert(is_state(n.journal, e, 0));
        if is_state(m.journal, e, 0) {
            assert(n.journal[e][0] == m.journal[e][0]);
            if e < m.journal.len() - 1 {
                assert(n.journal[e] == m.journal[e]);
            }
        }
    }
    lemma_text_trans(g, n.contents, m.contents, n.journal[e][0]);
}

/// Data leaves the marks settled.
proof fn lemma_settled_after(m: State, n: State)
    requires
        m.leaves_text(&n),
        m.journaled(),
        m.unclean_marked,
        m.marks_settled(),
        n.contents[72] == 1,
    ensures
        n.marks_settled(),
{
    let g = m.geometry();
    let e = n.journal.len() - 1;
    assert(n.geometry() == g);
    lemma_text_back(g, m.contents, n.contents);
    assert(is_state(n.journal, e, 0));
    if is_state(m.journal, e, 0) {
        assert(n.journal[e][0] == m.journal[e][0]);
        assert(e == m.journal.len() - 1) by {
            reveal(text_throughout);
        }
        lemma_text_trans(g, n.contents, m.contents, n.journal[e][0]);
    } else {
        lemma_led(m, n, e, 0);
    }
}

proof fn lemma_text_back(g: Geometry, a: Seq<u8>, b: Seq<u8>)
    requires
        same_text(g, a, b),
    ensures
        same_text(g, b, a),
{
    reveal(same_text);
    assert forall|x: int|
        0 <= x < 512 || g.desc_at <= x < g.desc_at + g.desc_len implies #[trigger] b[x] == a[x] by {
        assert(a[x] == b[x]);
    }
}

} // verus!
