//! Writing does not depend on the header sector and the descriptor, and
//! leaves both alone.

use super::allocate::merged_tables;
use super::effect::{
    lemma_blank_frame, lemma_clear_of_fixed, lemma_clear_write, lemma_part_session,
    lemma_with_copy, lemma_with_entry, lemma_with_grain, lemma_with_table, usable,
};
use super::mark::{lemma_entry_clear, lemma_text_entry};
use super::state::{bytes_at, hits, zeros, State};
use crate::bytes::le32_bytes;
use crate::image::{copy_sector, table_sector, GrainState};
use vstd::prelude::*;

verus! {

/// A write is a write, whatever the header sector and the descriptor say.
proof fn lemma_wrote_beside_text(s: State, m: State, at: int, data: Seq<u8>)
    requires
        s.text_only(&m),
        0 <= at,
    ensures
        s.wrote(at, data).text_only(&m.wrote(at, data)),
        s.wrote(at, data).synced().text_only(&m.wrote(at, data).synced()),
{
    let a = s.wrote(at, data);
    let b = m.wrote(at, data);
    assert(m.geometry() == s.geometry());
    assert(a.geometry() == s.geometry());
    assert forall|x: int| 0 <= x < a.contents.len() && !a.is_text(x) implies #[trigger] b.contents[x]
        == a.contents[x] by {
        if x < s.contents.len() {
            assert(!s.is_text(x));
            assert(m.contents[x] == s.contents[x]);
        }
    }
}

/// What the header sector and the descriptor say does not bear on whether
/// an image is grounded, nor on its directories.
pub(super) proof fn lemma_grounded_beside_text(s: State, m: State)
    requires
        s.grounded(),
        s.text_only(&m),
    ensures
        m.grounded(),
        m.geometry() == s.geometry(),
        s.keeps_directories(&m),
{
    let g = s.geometry();
    assert(m.geometry() == g);
    assert(4 * g.tables <= g.dir_span());
    assert forall|b: int| #[trigger] m.is_text(b) implies m.fixed.contains(b) by {
        assert(s.is_text(b));
    }
    assert forall|k: int| 0 <= k < g.tables implies #[trigger] table_sector(g, m.contents, k)
        == table_sector(g, s.contents, k) by {
        lemma_entry_clear(s, m, g.gd_at, k);
    }
    assert forall|k: int| 0 <= k < g.tables implies #[trigger] copy_sector(g, m.contents, k)
        == copy_sector(g, s.contents, k) by {
        if let Some(at) = g.rgd_at {
            lemma_entry_clear(s, m, at, k);
        }
    }
}

/// Nor on whether its metadata is protected.
pub(super) proof fn lemma_guarded_beside_text(s: State, m: State)
    requires
        s.guarded(),
        s.text_only(&m),
    ensures
        m.guarded(),
{
    let g = s.geometry();
    lemma_grounded_beside_text(s, m);
    assert forall|i: int| 0 <= i < g.tables implies #[trigger] m.table_guarded(i) by {
        assert(s.table_guarded(i));
    }
    assert forall|i: int| 0 <= i < g.tables implies #[trigger] m.copy_guarded(i) by {
        assert(s.copy_guarded(i));
    }
}

/// Nor on where its directories point.
pub(super) proof fn lemma_rooted_beside_text(s: State, m: State)
    requires
        s.grounded(),
        s.text_only(&m),
    ensures
        s.rooted() ==> m.rooted(),
{
    lemma_grounded_beside_text(s, m);
    if s.rooted() {
        assert forall|i: int| 0 <= i < m.geometry().tables implies #[trigger] m.entry_rooted(i) by {
            assert(s.entry_rooted(i));
        }
    }
}

/// Laying an empty table at the tail does not depend on the text.
proof fn lemma_blank_beside_text(s: State, m: State)
    requires
        s.text_only(&m),
        0 <= s.cursor,
    ensures
        s.with_blank_table().text_only(&m.with_blank_table()),
        s.with_blank_table().cursor == s.cursor + s.table_sectors(),
{
    let g = s.geometry();
    assert(m.geometry() == g);
    let span = g.table_span();
    let lo = s.cursor * 512;
    let a = State {
        cursor: s.cursor + s.table_sectors(),
        tables: s.tables.union(Set::new(|b: int| lo <= b < lo + span)),
        ..s
    };
    let b = State {
        cursor: m.cursor + m.table_sectors(),
        tables: m.tables.union(Set::new(|b: int| lo <= b < lo + span)),
        ..m
    };
    assert(a.geometry() == g && b.geometry() == g);
    assert(a.text_only(&b)) by {
        assert forall|x: int| 0 <= x < a.contents.len() && !a.is_text(x) implies #[trigger] b.contents[x]
            == a.contents[x] by {
            assert(!s.is_text(x));
        }
    }
    lemma_wrote_beside_text(a, b, lo, zeros(span));
}

/// Allocating a table does not depend on the text.
proof fn lemma_table_beside_text(s: State, m: State, i: int)
    requires
        s.text_only(&m),
        0 <= s.cursor,
        0 <= i,
    ensures
        s.with_table(i).0.text_only(&m.with_table(i).0),
        s.with_table(i).1 == m.with_table(i).1,
{
    reveal(State::with_table);
    let n = s.table_sectors();
    assert(m.geometry() == s.geometry());
    lemma_blank_beside_text(s, m);
    let a = s.with_blank_table();
    let b = m.with_blank_table();
    if s.room(n) && !s.redundant {
        lemma_wrote_beside_text(
            a,
            b,
            a.directory_at(false) + 4 * i,
            le32_bytes(s.cursor as u32),
        );
    } else if s.room(n) && a.room(n) {
        assert(a.geometry() == s.geometry());
        lemma_blank_beside_text(a, b);
        let c = a.with_blank_table();
        let d = b.with_blank_table();
        lemma_wrote_beside_text(
            c,
            d,
            c.directory_at(true) + 4 * i,
            le32_bytes(a.cursor as u32),
        );
        let e = c.published(true, i, a.cursor);
        let f = d.published(true, i, b.cursor);
        lemma_wrote_beside_text(
            e,
            f,
            e.directory_at(false) + 4 * i,
            le32_bytes(s.cursor as u32),
        );
    }
}

/// The bytes of a range clear of the fixed regions do not depend on the
/// text.
pub(super) proof fn lemma_bytes_beside_text(s: State, m: State, at: int, n: int)
    requires
        s.grounded(),
        s.text_only(&m),
        0 <= at,
        0 < n,
        at + n <= s.contents.len(),
        !hits(s.fixed, at, at + n),
    ensures
        bytes_at(m.contents, at, n) == bytes_at(s.contents, at, n),
{
    lemma_clear_of_fixed(s, at, at + n);
    assert forall|x: int| at <= x < at + n implies m.contents[x] == s.contents[x] by {
        assert(!s.is_text(x));
    }
    assert(bytes_at(m.contents, at, n) =~= bytes_at(s.contents, at, n));
}

/// Preparing a copy does not depend on the text.
proof fn lemma_copy_beside_text(s: State, m: State, i: int)
    requires
        s.grounded(),
        s.text_only(&m),
        0 <= i < s.geometry().tables,
        table_sector(s.geometry(), s.contents, i) != 0,
        s.table_refusal(table_sector(s.geometry(), s.contents, i)) is None,
        s.table_guarded(i),
        s.copy_guarded(i),
    ensures
        s.with_copy(i).0.text_only(&m.with_copy(i).0),
        s.with_copy(i).1 == m.with_copy(i).1,
{
    let g = s.geometry();
    let p = table_sector(g, s.contents, i);
    let q = copy_sector(g, s.contents, i);
    let span = g.table_span();
    lemma_grounded_beside_text(s, m);
    assert(0 < span);
    lemma_bytes_beside_text(s, m, p * 512, span);
    if s.redundant && q != 0 && s.copy_refusal(q) is None && !s.merged.contains(i) {
        lemma_bytes_beside_text(s, m, q * 512, span);
        let r = bytes_at(s.contents, q * 512, span);
        let t = merged_tables(bytes_at(s.contents, p * 512, span), r);
        lemma_wrote_beside_text(s, m, q * 512, t);
        lemma_noted_beside_text(
            s.wrote(q * 512, t).synced(),
            m.wrote(q * 512, t).synced(),
            i,
        );
        lemma_noted_beside_text(s, m, i);
    } else if s.redundant && q == 0 && s.room(s.table_sectors()) {
        lemma_blank_beside_text(s, m);
        lemma_blank_frame(s);
        let a = s.with_blank_table();
        let b = m.with_blank_table();
        lemma_bytes_beside_text(a, b, p * 512, span);
        let data = bytes_at(a.contents, p * 512, span);
        lemma_wrote_beside_text(a, b, s.cursor * 512, data);
        let c = a.wrote(s.cursor * 512, data).synced();
        let d = b.wrote(s.cursor * 512, data).synced();
        lemma_wrote_beside_text(
            c,
            d,
            c.directory_at(true) + 4 * i,
            le32_bytes(s.cursor as u32),
        );
        lemma_noted_beside_text(
            c.published(true, i, s.cursor),
            d.published(true, i, s.cursor),
            i,
        );
    }
}

proof fn lemma_noted_beside_text(s: State, m: State, i: int)
    requires
        s.text_only(&m),
    ensures
        (State { merged: s.merged.insert(i), ..s }).text_only(
            &State { merged: m.merged.insert(i), ..m },
        ),
{
    let a = State { merged: s.merged.insert(i), ..s };
    assert(a.geometry() == s.geometry());
    assert forall|x: int| 0 <= x < a.contents.len() && !a.is_text(x) implies #[trigger] m.contents[x]
        == a.contents[x] by {
        assert(!s.is_text(x));
    }
}

/// Laying a grain does not depend on the text.
proof fn lemma_grain_beside_text(s: State, m: State, k: int, src: Seq<u8>)
    requires
        s.text_only(&m),
        0 <= s.cursor,
        0 <= k,
    ensures
        s.with_grain(k, src).0.text_only(&m.with_grain(k, src).0),
        s.with_grain(k, src).1 == m.with_grain(k, src).1,
{
    let g = s.geometry();
    assert(m.geometry() == g);
    let lo = s.cursor * 512;
    let a = State { cursor: s.cursor + s.header.grain_size, ..s };
    let b = State { cursor: m.cursor + m.header.grain_size, ..m };
    assert(a.geometry() == g && b.geometry() == g);
    assert(a.text_only(&b)) by {
        assert forall|x: int| 0 <= x < a.contents.len() && !a.is_text(x) implies #[trigger] b.contents[x]
            == a.contents[x] by {
            assert(!s.is_text(x));
        }
    }
    lemma_wrote_beside_text(a, b, lo, zeros(g.grain_bytes));
    lemma_wrote_beside_text(a, b, lo + k, src);
    lemma_wrote_beside_text(
        a.wrote(lo, zeros(g.grain_bytes)),
        b.wrote(lo, zeros(g.grain_bytes)),
        lo + k,
        src,
    );
}

/// Setting an entry does not depend on the text.
proof fn lemma_entry_beside_text(s: State, m: State, i: int, j: int, new: u32)
    requires
        s.grounded(),
        s.text_only(&m),
        0 <= i < s.geometry().tables,
        0 <= j,
    ensures
        s.with_entry(i, j, new).text_only(&m.with_entry(i, j, new)),
{
    let g = s.geometry();
    let p = table_sector(g, s.contents, i);
    let q = copy_sector(g, s.contents, i);
    let data = le32_bytes(new);
    lemma_grounded_beside_text(s, m);
    assert(table_sector(g, m.contents, i) == p && copy_sector(g, m.contents, i) == q);
    if s.redundant {
        lemma_wrote_beside_text(s, m, q * 512 + 4 * j, data);
        lemma_wrote_beside_text(
            s.wrote(q * 512 + 4 * j, data).synced(),
            m.wrote(q * 512 + 4 * j, data).synced(),
            p * 512 + 4 * j,
            data,
        );
    } else {
        lemma_wrote_beside_text(s, m, p * 512 + 4 * j, data);
    }
}

/// A grain in a table that is there leaves the text as it was.
proof fn lemma_grain_in_table_text(s: State, i: int, j: int, k: int, src: Seq<u8>)
    requires
        usable(s, i),
        0 <= j < s.geometry().per_table,
        0 <= k,
        0 < src.len(),
        k + src.len() <= s.geometry().grain_bytes,
    ensures
        s.keeps_text(&s.with_grain_in_table(i, j, k, src).0),
{
    reveal(State::with_grain_in_table);
    lemma_with_copy(s, i);
    let b = s.with_copy(i);
    if b.1 is None {
        lemma_with_grain(b.0, i, k, src);
        let c = b.0.with_grain(k, src);
        assert forall|x: int| #[trigger] s.is_text(x) implies c.0.contents[x] == s.contents[x] by {
            assert(b.0.is_text(x));
        }
        if c.1 is None {
            lemma_with_entry(c.0, i, j, b.0.cursor as u32);
            let n = c.0.with_entry(i, j, b.0.cursor as u32);
            assert forall|x: int| #[trigger] s.is_text(x) implies n.contents[x] == s.contents[x] by {
                assert(c.0.is_text(x));
            }
        }
    }
}

/// A grain in a table that is there does not depend on the text.
proof fn lemma_grain_in_table_beside_text(
    s: State,
    m: State,
    i: int,
    j: int,
    k: int,
    src: Seq<u8>,
)
    requires
        usable(s, i),
        s.text_only(&m),
        0 <= j < s.geometry().per_table,
        0 <= k,
        0 < src.len(),
        k + src.len() <= s.geometry().grain_bytes,
    ensures
        s.with_grain_in_table(i, j, k, src).0.text_only(&m.with_grain_in_table(i, j, k, src).0),
        s.with_grain_in_table(i, j, k, src).1 == m.with_grain_in_table(i, j, k, src).1,
{
    reveal(State::with_grain_in_table);
    lemma_copy_beside_text(s, m, i);
    lemma_with_copy(s, i);
    let c = s.with_copy(i);
    let d = m.with_copy(i);
    if c.1 is None {
        lemma_grain_beside_text(c.0, d.0, k, src);
        lemma_with_grain(c.0, i, k, src);
        let e = c.0.with_grain(k, src);
        let f = d.0.with_grain(k, src);
        if e.1 is None {
            lemma_entry_beside_text(e.0, f.0, i, j, c.0.cursor as u32);
        }
    }
}

/// A new grain does not depend on the text, and leaves it as it was.
proof fn lemma_new_grain_beside_text(s: State, m: State, i: int, j: int, k: int, src: Seq<u8>)
    requires
        s.grounded(),
        s.table_guarded(i),
        s.copy_guarded(i),
        s.text_only(&m),
        1 <= s.cursor,
        0 <= i < s.geometry().tables,
        table_sector(s.geometry(), s.contents, i) == 0 || s.table_refusal(
            table_sector(s.geometry(), s.contents, i),
        ) is None,
        0 <= j < s.geometry().per_table,
        0 <= k,
        0 < src.len(),
        k + src.len() <= s.geometry().grain_bytes,
    ensures
        s.with_new_grain(i, j, k, src).0.text_only(&m.with_new_grain(i, j, k, src).0),
        s.with_new_grain(i, j, k, src).1 == m.with_new_grain(i, j, k, src).1,
        m.keeps_text(&m.with_new_grain(i, j, k, src).0),
{
    let g = s.geometry();
    lemma_grounded_beside_text(s, m);
    assert(table_sector(g, m.contents, i) == table_sector(g, s.contents, i));
    assert(copy_sector(g, m.contents, i) == copy_sector(g, s.contents, i));
    assert(m.table_guarded(i) && m.copy_guarded(i));
    if table_sector(g, s.contents, i) == 0 {
        lemma_table_beside_text(s, m, i);
        lemma_with_table(s, i);
        lemma_with_table(m, i);
        let a = s.with_table(i);
        let b = m.with_table(i);
        if a.1 is None {
            lemma_grain_in_table_beside_text(a.0, b.0, i, j, k, src);
            lemma_grain_in_table_text(b.0, i, j, k, src);
            let n = b.0.with_grain_in_table(i, j, k, src).0;
            assert forall|x: int| #[trigger] m.is_text(x) implies n.contents[x] == m.contents[x] by {
                assert(b.0.is_text(x));
            }
        }
    } else {
        lemma_grain_in_table_beside_text(s, m, i, j, k, src);
        lemma_grain_in_table_text(m, i, j, k, src);
    }
}

/// Nor does what a write to a grain rests on.
proof fn lemma_guarded_at_beside_text(s: State, m: State, gi: int)
    requires
        s.text_only(&m),
        s.guarded_at(gi),
        0 <= gi / s.geometry().per_table < s.geometry().tables,
    ensures
        m.guarded_at(gi),
{
    lemma_grounded_beside_text(s, m);
    lemma_text_entry(s, m, gi);
}

/// Having the same but for the text goes both ways.
proof fn lemma_text_only_back(s: State, m: State)
    requires
        s.text_only(&m),
    ensures
        m.text_only(&s),
{
    assert(m.geometry() == s.geometry());
    assert forall|x: int| 0 <= x < m.contents.len() && !m.is_text(x) implies #[trigger] s.contents[x]
        == m.contents[x] by {
        assert(!s.is_text(x));
        assert(m.contents[x] == s.contents[x]);
    }
}

/// Writing a part does not depend on the text, and leaves it as it was.
proof fn lemma_part_beside_text(s: State, m: State, v: int, part: Seq<u8>)
    requires
        s.guarded_at(v / s.geometry().grain_bytes),
        s.text_only(&m),
        1 <= s.cursor,
        0 <= v,
        0 < part.len(),
        v % s.geometry().grain_bytes + part.len() <= s.geometry().grain_bytes,
        v + part.len() <= s.geometry().virtual_size,
    ensures
        s.with_part(v, part).0.text_only(&m.with_part(v, part).0),
        s.with_part(v, part).1 == m.with_part(v, part).1,
        m.keeps_text(&m.with_part(v, part).0),
{
    reveal(State::with_part);
    let g = s.geometry();
    let gi = v / g.grain_bytes;
    let i = gi / g.per_table;
    let j = gi % g.per_table;
    let k = v % g.grain_bytes;
    crate::image::lemma_byte_in_grain(g, v);
    crate::image::lemma_grain_index(g, gi);
    lemma_grounded_beside_text(s, m);
    lemma_text_entry(s, m, gi);
    if let Ok(entry) = s.entry(gi) {
        if let GrainState::At(sector) = g.meaning(entry) {
            if let Ok(off) = s.host_offset(sector, k, part.len() as int) {
                lemma_wrote_beside_text(s, m, off, part);
                lemma_clear_write(m, off, part);
            }
        } else {
            lemma_new_grain_beside_text(s, m, i, j, k, part);
        }
    }
}

/// Writing does not depend on the header sector and the descriptor, and
/// leaves both as they are.
pub(super) proof fn lemma_data_beside_text(s: State, m: State, v: int, data: Seq<u8>)
    requires
        s.text_only(&m),
        s.geometry().wf(),
        1 <= s.cursor,
        0 <= v,
        v + data.len() <= s.geometry().virtual_size,
    ensures
        match (s.with_data(v, data), m.with_data(v, data)) {
            (Some((n, r)), Some((k, q))) => {
                &&& r == q
                &&& n.text_only(&k)
                &&& m.keeps_text(&k)
                &&& m.same_session(&k)
                &&& m.contents.len() <= k.contents.len()
            },
            (None, None) => true,
            _ => false,
        },
    decreases data.len(),
{
    let g = s.geometry();
    let n = s.chunk_len(v, v + data.len());
    assert(m.geometry() == g);
    if data.len() > 0 && n > 0 {
        let part = data.subrange(0, n);
        let rest = data.subrange(n, data.len() as int);
        let gi = v / g.grain_bytes;
        crate::image::lemma_byte_in_grain(g, v);
        crate::image::lemma_grain_index(g, gi);
        vstd::arithmetic::div_mod::lemma_mod_bound(v, g.grain_bytes);
        lemma_text_only_back(s, m);
        if m.guarded_at(gi) {
            lemma_guarded_at_beside_text(m, s, gi);
        }
        if s.guarded_at(gi) {
            lemma_guarded_at_beside_text(s, m, gi);
            lemma_part_beside_text(s, m, v, part);
            lemma_part_session(s, v, part);
            lemma_part_session(m, v, part);
            let a = s.with_part(v, part).0;
            let b = m.with_part(v, part).0;
            if s.with_part(v, part).1 is None {
                lemma_data_beside_text(a, b, v + n, rest);
                if let Some((k, _)) = b.with_data(v + n, rest) {
                    assert forall|x: int| #[trigger] m.is_text(x) implies k.contents[x]
                        == m.contents[x] by {
                        assert(b.is_text(x));
                    }
                }
            }
        }
    }
}

} // verus!
