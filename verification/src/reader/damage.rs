//! What holds of writing to an image whose metadata is protected, whatever
//! its grain tables say.

use super::allocate::{
    law_merge_only_fills, law_merging_again_changes_nothing, merged_tables,
};
use super::beside_text::{lemma_bytes_beside_text, lemma_grounded_beside_text};
use super::effect::{
    lemma_blank_frame, lemma_clear, lemma_clear_write, lemma_copy_session, lemma_entry_session,
    lemma_grain_session, lemma_guarded_write, lemma_part_session, lemma_table_session,
    lemma_with_copy, lemma_with_entry, lemma_with_grain, lemma_with_table, lemma_within_clear,
    usable,
};
use super::mark::lemma_text_entry;
use super::state::{bytes_at, State};
use crate::error::Error;
use crate::image::{apart, copy_sector, entry_at, table_sector, GrainState};
use vstd::prelude::*;

verus! {

/// A grain placed in a table that is there is where its entry says, and
/// holds what was written.
proof fn lemma_grain_in_table_reads(s: State, i: int, j: int, k: int, src: Seq<u8>)
    requires
        usable(s, i),
        2 <= s.cursor,
        0 <= j < s.geometry().per_table,
        0 <= k,
        0 < src.len(),
        k + src.len() <= s.geometry().grain_bytes,
        s.with_grain_in_table(i, j, k, src).1 is None,
    ensures
        ({
            let n = s.with_grain_in_table(i, j, k, src).0;
            let g = s.geometry();
            let t = table_sector(g, n.contents, i);
            let e = entry_at(n.contents, t * 512, j);
            &&& n.grounded()
            &&& n.geometry() == g
            &&& t != 0
            &&& n.table_refusal(t) is None
            &&& t * 512 + 4 * g.per_table <= n.contents.len()
            &&& g.meaning(e) == GrainState::At(e)
            &&& n.host_offset(e, k, src.len() as int) == Ok::<int, Error>(e * 512 + k)
            &&& e * 512 + k + src.len() <= n.contents.len()
            &&& bytes_at(n.contents, e * 512 + k, src.len() as int) == src
        }),
{
    reveal(State::with_grain_in_table);
    let g = s.geometry();
    let gb = g.grain_bytes;
    lemma_with_copy(s, i);
    let b = s.with_copy(i).0;
    lemma_copy_session(s, i);
    lemma_with_grain(b, i, k, src);
    let c = b.with_grain(k, src).0;
    let new = b.cursor as u32;
    lemma_with_entry(c, i, j, new);
    let n = c.with_entry(i, j, new);
    let lo = b.cursor * 512;
    let t = table_sector(g, s.contents, i);
    assert(4 * g.per_table <= g.table_span());
    assert(n.fixed == c.fixed && n.tables == c.tables && n.extent() == c.extent());
    lemma_within_clear(n.fixed, lo, lo + gb, lo + k, lo + k + src.len());
    lemma_within_clear(n.tables, lo, lo + gb, lo + k, lo + k + src.len());
    assert forall|x: int| 0 <= x < src.len() implies n.contents[lo + k + x] == src[x] by {
        assert(c.contents[lo + (k + x)] == src[x]);
        assert(b.table_guarded(i));
    }
    assert(bytes_at(n.contents, lo + k, src.len() as int) =~= src);
}

/// On any image whose metadata is protected where the grain needs it, what
/// is written inside one grain reads back, whatever else is wrong with the image, and whatever
/// becomes of the header sector and the descriptor.
pub proof fn law_one_grain_reads_back(s: State, n: State, m: State, v: int, part: Seq<u8>)
    requires
        s.geometry().wf(),
        !s.header.stream(),
        2 <= s.cursor,
        0 <= v,
        0 < part.len(),
        v % s.geometry().grain_bytes + part.len() <= s.geometry().grain_bytes,
        v + part.len() <= s.geometry().virtual_size <= u64::MAX,
        s.with_data(v, part) == Some((n, None::<Error>)),
        n.text_only(&m),
    ensures
        m.read(v, part.len() as int) == Ok::<Seq<u8>, Error>(part),
{
    reveal(State::with_part);
    let g = s.geometry();
    let gi = v / g.grain_bytes;
    let i = gi / g.per_table;
    let j = gi % g.per_table;
    let k = v % g.grain_bytes;
    let end = v + part.len();
    crate::image::lemma_byte_in_grain(g, v);
    crate::image::lemma_grain_index(g, gi);
    assert(part.subrange(0, part.len() as int) =~= part);
    assert(part.subrange(part.len() as int, part.len() as int) =~= Seq::<u8>::empty());
    assert(s.guarded_at(gi));
    lemma_part_session(s, v, part);
    assert(s.with_part(v, part) == (n, None::<Error>)) by {
        let w = s.with_part(v, part).0;
        assert(w.with_data(end, Seq::<u8>::empty()) == Some((w, None::<Error>)));
    }
    let entry = s.entry(gi)->Ok_0;
    if let GrainState::At(sector) = g.meaning(entry) {
        let off = s.host_offset(sector, k, part.len() as int)->Ok_0;
        lemma_clear_write(s, off, part);
        let t = table_sector(g, s.contents, i);
        lemma_clear(s.tables, off, end - v + off, t * 512, t * 512 + 4 * g.per_table);
        crate::image::lemma_entry_kept(s.contents, off, part, t * 512, j);
        assert(bytes_at(n.contents, off, part.len() as int) =~= part);
        lemma_reads_beside_text(n, m, v, part, sector);
    } else {
        let a = if table_sector(g, s.contents, i) == 0 {
            lemma_with_table(s, i);
            s.with_table(i).0
        } else {
            s
        };
        lemma_grain_in_table_reads(a, i, j, k, part);
        let t = table_sector(g, n.contents, i);
        lemma_reads_beside_text(n, m, v, part, entry_at(n.contents, t * 512, j));
    }
}

/// A part that is where its grain's entry says reads back, whatever becomes
/// of the header sector and the descriptor.
proof fn lemma_reads_beside_text(n: State, m: State, v: int, part: Seq<u8>, e: u32)
    requires
        n.grounded(),
        !n.header.stream(),
        n.text_only(&m),
        0 <= v,
        0 < part.len(),
        v % n.geometry().grain_bytes + part.len() <= n.geometry().grain_bytes,
        v + part.len() <= n.geometry().virtual_size <= u64::MAX,
        ({
            let g = n.geometry();
            let gi = v / g.grain_bytes;
            let t = table_sector(g, n.contents, gi / g.per_table);
            &&& n.entry(gi) == Ok::<u32, Error>(e)
            &&& t != 0
            &&& t * 512 + 4 * g.per_table <= n.contents.len()
            &&& g.meaning(e) == GrainState::At(e)
            &&& n.host_offset(e, v % g.grain_bytes, part.len() as int) is Ok
            &&& ({
                let off = n.host_offset(e, v % g.grain_bytes, part.len() as int)->Ok_0;
                off + part.len() <= n.contents.len() && bytes_at(
                    n.contents,
                    off,
                    part.len() as int,
                ) == part
            })
        }),
    ensures
        m.read(v, part.len() as int) == Ok::<Seq<u8>, Error>(part),
{
    let g = n.geometry();
    let gi = v / g.grain_bytes;
    let end = v + part.len();
    let off = n.host_offset(e, v % g.grain_bytes, part.len() as int)->Ok_0;
    crate::image::lemma_byte_in_grain(g, v);
    crate::image::lemma_grain_index(g, gi);
    lemma_grounded_beside_text(n, m);
    lemma_text_entry(n, m, gi);
    lemma_bytes_beside_text(n, m, off, part.len() as int);
    assert(m.chunk(v, end) == Ok::<Seq<u8>, Error>(part));
    assert(m.range(end, end) == Ok::<Seq<u8>, Error>(Seq::<u8>::empty()));
    assert(part + Seq::<u8>::empty() =~= part);
}

impl State {
    /// Whether `n` follows this state, and its directories differ at most
    /// in entry `i`, which is protected.
    pub open spec fn grows_to(&self, n: &State, i: int) -> bool {
        let g = self.geometry();
        &&& n.grounded()
        &&& n.geometry() == g
        &&& n.fixed == self.fixed
        &&& n.header == self.header
        &&& self.extent() <= n.extent()
        &&& self.contents.len() <= n.contents.len()
        &&& forall|b: int| #[trigger] self.tables.contains(b) ==> n.tables.contains(b)
        &&& forall|k: int|
            0 <= k < g.tables && k != i ==> #[trigger] table_sector(g, n.contents, k)
                == table_sector(g, self.contents, k)
        &&& forall|k: int|
            0 <= k < g.tables && k != i ==> #[trigger] copy_sector(g, n.contents, k)
                == copy_sector(g, self.contents, k)
        &&& n.table_guarded(i)
        &&& n.copy_guarded(i)
        &&& n.entry_rooted(i)
    }
}

/// Growing an image keeps its metadata protected, where no entry of a
/// directory names a place past the end.
proof fn lemma_grown(s: State, n: State, i: int)
    requires
        s.guarded(),
        s.rooted(),
        s.grows_to(&n, i),
    ensures
        n.guarded(),
        n.rooted(),
{
    let g = s.geometry();
    assert(4 * g.per_table <= g.table_span());
    assert forall|k: int| 0 <= k < g.tables implies #[trigger] n.entry_rooted(k) by {
        if k != i {
            assert(s.entry_rooted(k));
        }
    }
    assert forall|k: int| 0 <= k < g.tables implies #[trigger] n.table_guarded(k) by {
        if k != i {
            assert(s.entry_rooted(k));
            assert(s.table_guarded(k));
            let t = table_sector(g, s.contents, k);
            if t != 0 && n.table_refusal(t) is None {
                assert forall|b: int|
                    t * 512 <= b < t * 512 + 4 * g.per_table implies #[trigger] n.tables.contains(
                    b,
                ) by {
                    assert(s.tables.contains(b));
                }
            }
        }
    }
    assert forall|k: int| 0 <= k < g.tables implies #[trigger] n.copy_guarded(k) by {
        if k != i {
            assert(s.entry_rooted(k));
            assert(s.copy_guarded(k));
        }
    }
}

/// A grain in a table that is there keeps an image's metadata protected.
proof fn lemma_grain_in_table_grows(s: State, i: int, j: int, k: int, src: Seq<u8>)
    requires
        usable(s, i),
        s.entry_rooted(i),
        0 <= j < s.geometry().per_table,
        0 <= k,
        0 < src.len(),
        k + src.len() <= s.geometry().grain_bytes,
        s.with_grain_in_table(i, j, k, src).1 is None,
    ensures
        s.grows_to(&s.with_grain_in_table(i, j, k, src).0, i),
{
    reveal(State::with_grain_in_table);
    let g = s.geometry();
    lemma_with_copy(s, i);
    lemma_copy_session(s, i);
    let b = s.with_copy(i).0;
    lemma_with_grain(b, i, k, src);
    lemma_grain_session(b, k, src);
    let c = b.with_grain(k, src).0;
    let new = b.cursor as u32;
    lemma_with_entry(c, i, j, new);
    lemma_entry_session(c, i, j, new);
    let n = c.with_entry(i, j, new);
    assert(n.tables == b.tables && n.extent() == c.extent());
    assert forall|x: int| #[trigger] s.tables.contains(x) implies n.tables.contains(x) by {}
    assert(b.extent() >= s.extent());
    assert(b.entry_rooted(i)) by {
        if s.redundant && copy_sector(g, s.contents, i) == 0 {
            lemma_blank_frame(s);
        }
    }
}

/// Writing a part keeps an image's metadata protected, where no entry of a
/// directory names a place past the end.
pub(super) proof fn lemma_part_keeps_protection(s: State, v: int, part: Seq<u8>)
    requires
        s.guarded(),
        s.rooted(),
        1 <= s.cursor,
        0 <= v,
        0 < part.len(),
        v % s.geometry().grain_bytes + part.len() <= s.geometry().grain_bytes,
        v + part.len() <= s.geometry().virtual_size,
        s.with_part(v, part).1 is None,
    ensures
        s.with_part(v, part).0.guarded(),
        s.with_part(v, part).0.rooted(),
        1 <= s.with_part(v, part).0.cursor,
{
    reveal(State::with_part);
    let g = s.geometry();
    let gi = v / g.grain_bytes;
    let i = gi / g.per_table;
    let j = gi % g.per_table;
    let k = v % g.grain_bytes;
    crate::image::lemma_byte_in_grain(g, v);
    crate::image::lemma_grain_index(g, gi);
    lemma_part_session(s, v, part);
    assert(s.table_guarded(i) && s.copy_guarded(i) && s.entry_rooted(i));
    let n = s.with_part(v, part).0;
    let entry = s.entry(gi)->Ok_0;
    if let GrainState::At(sector) = g.meaning(entry) {
        let off = s.host_offset(sector, k, part.len() as int)->Ok_0;
        lemma_guarded_write(s, off, part);
        lemma_clear_write(s, off, part);
        assert forall|k: int| 0 <= k < g.tables implies #[trigger] n.entry_rooted(k) by {
            assert(s.entry_rooted(k));
        }
    } else if table_sector(g, s.contents, i) == 0 {
        lemma_with_table(s, i);
        let a = s.with_table(i).0;
        lemma_table_session(s, i);
        assert(a.entry_rooted(i)) by {
            reveal(State::with_table);
            lemma_blank_frame(s);
            if s.redundant {
                lemma_blank_frame(s.with_blank_table());
            }
        }
        assert forall|x: int| #[trigger] s.tables.contains(x) implies a.tables.contains(x) by {
            reveal(State::with_table);
        }
        assert(s.grows_to(&a, i));
        lemma_grown(s, a, i);
        lemma_grain_in_table_grows(a, i, j, k, part);
        lemma_grown(a, n, i);
    } else {
        lemma_grain_in_table_grows(s, i, j, k, part);
        lemma_grown(s, n, i);
    }
}

/// Writing keeps an image's metadata protected, where no entry of a
/// directory names a place past the end: what it comes to is then known to
/// the last grain.
pub proof fn law_writing_keeps_the_protection(s: State, v: int, data: Seq<u8>)
    requires
        s.guarded(),
        s.rooted(),
        1 <= s.cursor,
        0 <= v,
        v + data.len() <= s.geometry().virtual_size,
    ensures
        s.with_data(v, data) matches Some((n, refusal)) && (refusal is None ==> n.guarded()
            && n.rooted()),
    decreases data.len(),
{
    let g = s.geometry();
    let n = s.chunk_len(v, v + data.len());
    if data.len() > 0 && n > 0 {
        let part = data.subrange(0, n);
        vstd::arithmetic::div_mod::lemma_mod_bound(v, g.grain_bytes);
        let (a, refusal) = s.with_part(v, part);
        crate::image::lemma_byte_in_grain(g, v);
        crate::image::lemma_grain_index(g, v / g.grain_bytes);
        let i = v / g.grain_bytes / g.per_table;
        assert(s.table_guarded(i) && s.copy_guarded(i));
        if refusal is None {
            lemma_part_keeps_protection(s, v, part);
            lemma_part_session(s, v, part);
            assert(a.geometry() == g);
            law_writing_keeps_the_protection(a, v + n, data.subrange(n, data.len() as int));
        }
    }
}

/// Merging a table into its redundant copy fills every entry that the copy
/// lacks, leaves the table and every byte outside the copy as they were,
/// reaches the device with nothing where there is nothing to fill, and is
/// done after one merge: a second changes nothing.
pub proof fn law_merging_a_copy(s: State, p: u32, q: u32)
    requires
        s.geometry().per_table > 0,
        p * 512 + s.geometry().table_span() <= s.contents.len(),
        q * 512 + s.geometry().table_span() <= s.contents.len(),
        apart(
            (p * 512, p * 512 + s.geometry().table_span()),
            (q * 512, q * 512 + s.geometry().table_span()),
        ),
    ensures
        ({
            let g = s.geometry();
            let span = g.table_span();
            let n = s.merged_into(p, q);
            &&& n.contents.len() == s.contents.len()
            &&& forall|b: int|
                0 <= b < s.contents.len() && !(q * 512 <= b < q * 512 + span)
                    ==> #[trigger] n.contents[b] == s.contents[b]
            &&& bytes_at(n.contents, p * 512, span) == bytes_at(s.contents, p * 512, span)
            &&& forall|k: int|
                0 <= k < span / 4 ==> #[trigger] entry_at(n.contents, q * 512, k) == (if entry_at(
                    s.contents,
                    q * 512,
                    k,
                ) == 0 {
                    entry_at(s.contents, p * 512, k)
                } else {
                    entry_at(s.contents, q * 512, k)
                })
            &&& bytes_at(n.contents, q * 512, span) == bytes_at(s.contents, q * 512, span) ==> n
                == s
            &&& n.merged_into(p, q) == n
        }),
{
    let g = s.geometry();
    let span = g.table_span();
    let n = s.merged_into(p, q);
    let t = bytes_at(s.contents, p * 512, span);
    let r = bytes_at(s.contents, q * 512, span);
    let m = merged_tables(t, r);
    assert(4 * g.per_table <= span && span % 4 == 0);
    assert(bytes_at(n.contents, p * 512, span) =~= t);
    assert(bytes_at(n.contents, q * 512, span) =~= m);
    assert forall|k: int| 0 <= k < span / 4 implies #[trigger] entry_at(n.contents, q * 512, k) == (
    if entry_at(s.contents, q * 512, k) == 0 {
        entry_at(s.contents, p * 512, k)
    } else {
        entry_at(s.contents, q * 512, k)
    }) by {
        law_merge_only_fills(t, r, k);
        assert(entry_at(m, 0, k) == entry_at(n.contents, q * 512, k)) by {
            let x = bytes_at(n.contents, q * 512, span);
            assert(x[4 * k] == n.contents[q * 512 + 4 * k]);
        }
        assert(entry_at(r, 0, k) == entry_at(s.contents, q * 512, k));
        assert(entry_at(t, 0, k) == entry_at(s.contents, p * 512, k));
    }
    law_merging_again_changes_nothing(t, r);
    assert(n.geometry() == g);
}

} // verus!
