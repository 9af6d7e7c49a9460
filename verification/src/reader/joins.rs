//! Reads of adjoining ranges are parts of one read.

use super::state::{bytes_at, hits, zeros, State};
use crate::error::Error;
use crate::image::GrainState;
use vstd::prelude::*;

verus! {

/// Two reads of adjoining ranges join to the read of the whole, wherever
/// the ranges begin and end. An image with compressed grains does not open,
/// so nothing is said of one.
pub proof fn law_adjoining_reads_join(s: State, a: int, b: int, c: int, x: Seq<u8>, y: Seq<u8>)
    requires
        s.header.grain_size > 0,
        !s.header.stream(),
        0 <= a <= b <= c,
        c <= s.header.capacity * 512 <= u64::MAX,
        s.read(a, b - a) == Ok::<Seq<u8>, Error>(x),
        s.read(b, c - b) == Ok::<Seq<u8>, Error>(y),
    ensures
        s.read(a, c - a) == Ok::<Seq<u8>, Error>(x + y),
{
    assert(x + Seq::<u8>::empty() =~= x);
    assert(Seq::<u8>::empty() + y =~= y);
    if a < b && b < c {
        lemma_join(s, a, b, c, x, y);
    }
}

/// A grain's part does not depend on where the range ends, as long as the
/// part is as long.
proof fn lemma_chunk_end(s: State, v: int, b: int, c: int)
    requires
        s.chunk_len(v, b) == s.chunk_len(v, c),
    ensures
        s.chunk(v, b) == s.chunk(v, c),
{
}

/// Two parts of one grain join.
proof fn lemma_chunk_join(s: State, a: int, b: int, c: int)
    requires
        s.header.grain_size > 0,
        !s.header.stream(),
        0 <= a < b < c,
        s.chunk_len(a, b) == b - a,
        s.chunk_len(a, b) < s.chunk_len(a, c),
        s.chunk(a, b) is Ok,
        s.chunk(b, c) is Ok,
    ensures
        b + s.chunk_len(b, c) == a + s.chunk_len(a, c),
        s.chunk(a, c) == Ok::<Seq<u8>, Error>(s.chunk(a, b)->Ok_0 + s.chunk(b, c)->Ok_0),
{
    let g = s.geometry();
    let gb = g.grain_bytes;
    let q = a / gb;
    let k = a % gb;
    let n = s.chunk_len(a, b);
    vstd::arithmetic::div_mod::lemma_fundamental_div_mod(a, gb);
    vstd::arithmetic::div_mod::lemma_mod_bound(a, gb);
    assert(gb * q == q * gb) by (nonlinear_arith);
    vstd::arithmetic::div_mod::lemma_fundamental_div_mod_converse(b, gb, q, k + n);
    let m = s.chunk_len(b, c);
    let head = s.chunk(a, b)->Ok_0;
    let tail = s.chunk(b, c)->Ok_0;
    let entry = s.entry(q)->Ok_0;
    match g.meaning(entry) {
        GrainState::At(sector) => {
            let off = sector * 512 + k;
            if hits(s.fixed, off, off + n + m) {
                let x = choose|x: int| off <= x < off + n + m && #[trigger] s.fixed.contains(x);
                assert(hits(s.fixed, off, off + n) || hits(s.fixed, off + n, off + n + m));
            }
            if hits(s.tables, off, off + n + m) {
                let x = choose|x: int| off <= x < off + n + m && #[trigger] s.tables.contains(x);
                assert(hits(s.tables, off, off + n) || hits(s.tables, off + n, off + n + m));
            }
            assert(bytes_at(s.contents, off, n) + bytes_at(s.contents, off + n, m) =~= bytes_at(
                s.contents,
                off,
                n + m,
            ));
        },
        _ => {
            assert(zeros(n) + zeros(m) =~= zeros(n + m));
        },
    }
}

proof fn lemma_join(s: State, a: int, b: int, c: int, x: Seq<u8>, y: Seq<u8>)
    requires
        s.header.grain_size > 0,
        !s.header.stream(),
        0 <= a <= b < c,
        s.range(a, b) == Ok::<Seq<u8>, Error>(x),
        s.range(b, c) == Ok::<Seq<u8>, Error>(y),
    ensures
        s.range(a, c) == Ok::<Seq<u8>, Error>(x + y),
    decreases b - a,
{
    if a == b {
        assert(x + y =~= y);
    } else {
        let gb = s.geometry().grain_bytes;
        vstd::arithmetic::div_mod::lemma_mod_bound(a, gb);
        vstd::arithmetic::div_mod::lemma_mod_bound(b, gb);
        let n = s.chunk_len(a, b);
        let head = s.chunk(a, b)->Ok_0;
        let rest = s.range(a + n, b)->Ok_0;
        if n == s.chunk_len(a, c) {
            lemma_chunk_end(s, a, b, c);
            lemma_join(s, a + n, b, c, rest, y);
            assert((head + rest) + y =~= head + (rest + y));
        } else {
            lemma_chunk_join(s, a, b, c);
            let m = s.chunk_len(b, c);
            let next = s.chunk(b, c)->Ok_0;
            let tail = s.range(b + m, c)->Ok_0;
            assert(s.range(b, b) == Ok::<Seq<u8>, Error>(Seq::<u8>::empty()));
            assert(head + Seq::<u8>::empty() =~= head);
            assert((head + next) + tail =~= head + (next + tail));
        }
    }
}

} // verus!
