//! Which images open, and as what.

use super::describing::{
    gives, law_usual_descriptors_are_read, law_what_an_extent_line_says, typed, usual, Usual,
};
use super::{
    law_header_fields, law_integers_are_sums_of_bytes, law_what_the_flags_mean,
    law_which_headers_are_read, readable_header, u32_at, u64_at,
};
use crate::content_id::content_id_of;
use crate::descriptor::{descriptor_of, DescriptorView};
use crate::device::{BlockDevice, BlockRead};
use crate::error::{Error, Result};
use crate::header::{header_of, SparseHeader};
use crate::image::apart;
use crate::reader::open::{
    descriptor_stage, directory_stage, disagreement, fixed_bytes, header_stage, named_tables,
    opened, opens_as, protects, tables_clash,
};
use crate::reader::state::{div_up, hits, lemma_div_up, table_count};
use crate::reader::VmdkReader;
use crate::text::{
    ascii_lower, decimal_value, same_ignoring_case, trimmed, trimmed_end, trimmed_start, Trim,
};
use vstd::prelude::*;
use vstd::utf8::{decode_utf8, valid_utf8};

verus! {

/// Whether `t` tables of `per` grains of `grain` sectors are as many as a
/// disk of `capacity` sectors takes: enough, and one less would not be.
pub open spec fn takes_tables(capacity: int, grain: int, per: int, t: int) -> bool {
    &&& 0 <= t
    &&& capacity <= t * per * grain
    &&& t > 0 ==> (t - 1) * per * grain < capacity
}

/// The number of tables that a header's capacity takes is the one number
/// that is enough and not one too many.
pub proof fn law_how_many_tables(h: SparseHeader, t: int)
    requires
        h.grain_size > 0,
        h.num_gtes_per_gt > 0,
    ensures
        takes_tables(h.capacity as int, h.grain_size as int, h.num_gtes_per_gt as int, t)
            <==> table_count(h) == t,
{
    let cap = h.capacity as int;
    let gs = h.grain_size as int;
    let per = h.num_gtes_per_gt as int;
    let grains = div_up(cap, gs);
    let tables = div_up(grains, per);
    lemma_div_up(cap, gs);
    lemma_div_up(grains, per);
    assert(cap <= tables * per * gs) by (nonlinear_arith)
        requires
            cap <= grains * gs,
            grains <= tables * per,
            gs > 0,
    ;
    assert((tables - 1) * per * gs < cap) by (nonlinear_arith)
        requires
            grains * gs < cap + gs,
            tables * per < grains + per,
            gs > 0,
    ;
    if t < tables && 0 <= t {
        assert(t * per * gs <= (tables - 1) * per * gs) by (nonlinear_arith)
            requires
                t <= tables - 1,
                per > 0,
                gs > 0,
        ;
    }
    if t > tables {
        assert((t - 1) * per * gs >= tables * per * gs) by (nonlinear_arith)
            requires
                t - 1 >= tables,
                per > 0,
                gs > 0,
        ;
    }
}

/// Whether the file's first sector is a header that is read, and the
/// descriptor and the directory of `t` tables that it names lie inside the
/// `n` bytes of the file.
pub open spec fn laid_out(c: Seq<u8>, n: int, t: int) -> bool {
    &&& 512 <= n <= c.len()
    &&& n <= u64::MAX
    &&& readable_header(c)
    &&& u64_at(c, 28) > 0
    &&& u64_at(c, 36) > 0
    &&& (u64_at(c, 28) + u64_at(c, 36)) * 512 <= n
    &&& u64_at(c, 36) * 512 <= usize::MAX
    &&& takes_tables(u64_at(c, 12), u64_at(c, 20), u32_at(c, 44), t)
    &&& t <= 4294967295
    &&& 4 * t <= usize::MAX
    &&& u64_at(c, 56) > 0
    &&& u64_at(c, 56) * 512 + 4 * t <= n
    &&& u64_at(c, 12) * 512 <= u64::MAX
}

/// The bytes of the embedded descriptor.
pub open spec fn embedded(c: Seq<u8>) -> Seq<u8> {
    c.subrange(u64_at(c, 28) * 512, (u64_at(c, 28) + u64_at(c, 36)) * 512)
}

/// Whether `s` is the word `SPARSE`, each letter in either case.
pub open spec fn sparse_word(s: Seq<char>) -> bool {
    &&& s.len() == 6
    &&& s[0] == 'S' || s[0] == 's'
    &&& s[1] == 'P' || s[1] == 'p'
    &&& s[2] == 'A' || s[2] == 'a'
    &&& s[3] == 'R' || s[3] == 'r'
    &&& s[4] == 'S' || s[4] == 's'
    &&& s[5] == 'E' || s[5] == 'e'
}

/// The extents that are read are those of the kind `SPARSE`, in either case.
pub proof fn law_which_kind_is_sparse(s: Seq<char>)
    ensures
        same_ignoring_case(s, "SPARSE"@) <==> sparse_word(s),
{
    reveal_strlit("SPARSE");
    let w = "SPARSE"@;
    if same_ignoring_case(s, w) {
        assert(ascii_lower(s[0]) == ascii_lower(w[0]));
        assert(ascii_lower(s[1]) == ascii_lower(w[1]));
        assert(ascii_lower(s[2]) == ascii_lower(w[2]));
        assert(ascii_lower(s[3]) == ascii_lower(w[3]));
        assert(ascii_lower(s[4]) == ascii_lower(w[4]));
        assert(ascii_lower(s[5]) == ascii_lower(w[5]));
    }
}

/// Whether the embedded descriptor is a text that says `d`, and `d` is of
/// one sparse extent as long as the header says the disk is.
pub open spec fn described(c: Seq<u8>, d: DescriptorView) -> bool {
    &&& valid_utf8(embedded(c))
    &&& descriptor_of(decode_utf8(embedded(c))) == Ok::<DescriptorView, Error>(d)
    &&& d.extents.len() == 1
    &&& sparse_word(d.extents[0].kind)
    &&& d.extents[0].sectors == u64_at(c, 12)
}

/// Whether the header declares a redundant directory.
pub open spec fn declares_copy(c: Seq<u8>) -> bool {
    (u32_at(c, 8) / 2) % 2 == 1 && u64_at(c, 48) > 0
}

/// The sector that entry `i` of the directory names, or of the redundant
/// directory.
pub open spec fn named_sector(c: Seq<u8>, copy: bool, i: int) -> int {
    if copy {
        u32_at(c, u64_at(c, 48) * 512 + 4 * i)
    } else {
        u32_at(c, u64_at(c, 56) * 512 + 4 * i)
    }
}

/// Whether the tables at two sectors share no byte; a sector of zero is no
/// table.
pub open spec fn tables_apart(c: Seq<u8>, a: int, b: int) -> bool {
    ||| a == 0
    ||| b == 0
    ||| a * 512 + 4 * u32_at(c, 44) <= b * 512
    ||| b * 512 + 4 * u32_at(c, 44) <= a * 512
}

/// Whether an image can be written: it has no identifier or one that can be
/// replaced, a redundant directory that it declares lies inside the file,
/// and no two tables that the directories name share a byte.
pub open spec fn writable_image(c: Seq<u8>, n: int, t: int) -> bool {
    &&& content_id_of(embedded(c)) is Ok
    &&& declares_copy(c) ==> u64_at(c, 48) * 512 + 4 * t <= n
    &&& forall|i: int, j: int|
        0 <= i < j < t ==> tables_apart(
            c,
            #[trigger] named_sector(c, false, i),
            #[trigger] named_sector(c, false, j),
        )
    &&& declares_copy(c) ==> forall|i: int, j: int|
        0 <= i < j < t ==> tables_apart(
            c,
            #[trigger] named_sector(c, true, i),
            #[trigger] named_sector(c, true, j),
        )
    &&& declares_copy(c) ==> forall|i: int, j: int|
        0 <= i < t && 0 <= j < t ==> tables_apart(
            c,
            #[trigger] named_sector(c, false, i),
            #[trigger] named_sector(c, true, j),
        )
}

/// A text with a character that trimming does not remove is not trimmed to
/// nothing.
pub proof fn lemma_not_blank(s: Seq<char>, set: Trim, k: int)
    requires
        0 <= k < s.len(),
        !set.has(s[k]),
    ensures
        trimmed(s, set).len() > 0,
{
    lemma_start_keeps(s, set, k);
    let t = trimmed_start(s, set);
    let j = choose|j: int| 0 <= j < t.len() && !set.has(#[trigger] t[j]);
    lemma_end_keeps(t, set, j);
}

proof fn lemma_start_keeps(s: Seq<char>, set: Trim, k: int)
    requires
        0 <= k < s.len(),
        !set.has(s[k]),
    ensures
        exists|j: int|
            0 <= j < trimmed_start(s, set).len() && !set.has(#[trigger] trimmed_start(s, set)[j]),
    decreases s.len(),
{
    if set.has(s[0]) {
        let t = s.subrange(1, s.len() as int);
        assert(t[k - 1] == s[k]);
        lemma_start_keeps(t, set, k - 1);
        assert(trimmed_start(s, set) == trimmed_start(t, set));
        let j = choose|j: int|
            0 <= j < trimmed_start(t, set).len() && !set.has(#[trigger] trimmed_start(t, set)[j]);
        assert(!set.has(trimmed_start(s, set)[j]));
    } else {
        assert(!set.has(trimmed_start(s, set)[k]));
    }
}

proof fn lemma_end_keeps(s: Seq<char>, set: Trim, k: int)
    requires
        0 <= k < s.len(),
        !set.has(s[k]),
    ensures
        trimmed_end(s, set).len() > 0,
    decreases s.len(),
{
    if set.has(s[s.len() - 1]) {
        let t = s.subrange(0, s.len() - 1);
        assert(t[k] == s[k]);
        lemma_end_keeps(t, set, k);
    }
}

/// The numbers of the header that opening goes by are those of the file.
pub proof fn lemma_header_numbers(c: Seq<u8>)
    requires
        512 <= c.len(),
    ensures
        readable_header(c.subrange(0, 512)) == readable_header(c),
        forall|at: int| 0 <= at <= 504 ==> #[trigger] u64_at(c.subrange(0, 512), at) == u64_at(c, at),
        forall|at: int| 0 <= at <= 508 ==> #[trigger] u32_at(c.subrange(0, 512), at) == u32_at(c, at),
{
    let b = c.subrange(0, 512);
    assert(b[0] == c[0] && b[1] == c[1] && b[2] == c[2] && b[3] == c[3]);
    assert(b[4] == c[4] && b[5] == c[5] && b[6] == c[6] && b[7] == c[7]);
    assert(b[77] == c[77] && b[78] == c[78]);
    assert(u64_at(b, 20) == u64_at(c, 20));
    assert(u32_at(b, 44) == u32_at(c, 44));
}

/// What the header of a laid-out image says.
pub proof fn lemma_laid_out_header(c: Seq<u8>, n: int, t: int, writable: bool) -> (h: SparseHeader)
    requires
        laid_out(c, n, t),
    ensures
        header_stage(c, n, writable) == Ok::<SparseHeader, Error>(h),
        !h.stream(),
        h.version == u32_at(c, 4),
        h.flags == u32_at(c, 8),
        h.capacity == u64_at(c, 12),
        h.grain_size == u64_at(c, 20),
        h.descriptor_offset == u64_at(c, 28),
        h.descriptor_size == u64_at(c, 36),
        h.num_gtes_per_gt == u32_at(c, 44),
        h.rgd_offset == u64_at(c, 48),
        h.gd_offset == u64_at(c, 56),
        h.over_head == u64_at(c, 64),
        h.redundant() == declares_copy(c),
        table_count(h) == t,
{
    let b = c.subrange(0, 512);
    lemma_header_numbers(c);
    law_which_headers_are_read(b);
    let h = header_of(b)->Ok_0;
    law_header_fields(b, h);
    assert(u32_at(b, 4) == u32_at(c, 4) && u32_at(b, 8) == u32_at(c, 8) && u64_at(b, 12) == u64_at(
        c,
        12,
    ) && u64_at(b, 20) == u64_at(c, 20) && u64_at(b, 28) == u64_at(c, 28) && u64_at(b, 36)
        == u64_at(c, 36) && u32_at(b, 44) == u32_at(c, 44) && u64_at(b, 48) == u64_at(c, 48)
        && u64_at(b, 56) == u64_at(c, 56) && u64_at(b, 64) == u64_at(c, 64));
    law_what_the_flags_mean(h);
    law_how_many_tables(h, t);
    h
}

/// No two tables that are apart in numbers clash.
proof fn lemma_no_clash(c: Seq<u8>, n: int, t: int, h: SparseHeader, redundant: bool)
    requires
        writable_image(c, n, t),
        h.num_gtes_per_gt == u32_at(c, 44),
        h.rgd_offset == u64_at(c, 48),
        h.gd_offset == u64_at(c, 56),
        redundant ==> declares_copy(c),
        table_count(h) == t,
        0 <= t,
    ensures
        !tables_clash(h, n, fixed_bytes(h, n, redundant), named_tables(c, h, redundant)),
{
    let fixed = fixed_bytes(h, n, redundant);
    let named = named_tables(c, h, redundant);
    if tables_clash(h, n, fixed, named) {
        let (j, k) = choose|j: int, k: int|
            0 <= j < k < named.len() && protects(h, n, fixed, #[trigger] named[j]) && protects(
                h,
                n,
                fixed,
                #[trigger] named[k],
            ) && !apart(
                (named[j] * 512, named[j] * 512 + 4 * h.num_gtes_per_gt),
                (named[k] * 512, named[k] * 512 + 4 * h.num_gtes_per_gt),
            );
        let a = if j < t {
            named_sector(c, false, j)
        } else {
            named_sector(c, true, j - t)
        };
        let b = if k < t {
            named_sector(c, false, k)
        } else {
            named_sector(c, true, k - t)
        };
        law_integers_are_sums_of_bytes(c, u64_at(c, 56) * 512 + 4 * j, 0);
        law_integers_are_sums_of_bytes(c, u64_at(c, 48) * 512 + 4 * (j - t), 0);
        law_integers_are_sums_of_bytes(c, u64_at(c, 56) * 512 + 4 * k, 0);
        law_integers_are_sums_of_bytes(c, u64_at(c, 48) * 512 + 4 * (k - t), 0);
        assert(named[j] == a);
        assert(named[k] == b);
        assert(tables_apart(c, a, b));
        assert(false);
    }
}

/// What opening a laid-out image that is described gives.
proof fn lemma_opened(
    c: Seq<u8>,
    n: int,
    writable: bool,
    served: bool,
    reliable: bool,
    t: int,
    d: DescriptorView,
    k: int,
)
    requires
        laid_out(c, n, t),
        described(c, d),
        writable ==> writable_image(c, n, t),
        0 <= k < decode_utf8(embedded(c)).len(),
        decode_utf8(embedded(c))[k] == '=',
    ensures
        opened(c, n, writable, served, reliable) is Ok,
        ({
            let s = opened(c, n, writable, served, reliable)->Ok_0;
            &&& s.contents == c
            &&& s.descriptor == d
            &&& s.writable == writable
            &&& s.reliable == reliable
            &&& header_stage(c, n, writable) == Ok::<SparseHeader, Error>(s.header)
            &&& served ==> s.redundant == (declares_copy(c) && u64_at(c, 48) * 512 + 4 * t <= n)
            &&& s.cursor * 512 >= n
            &&& s.cursor * 512 < n + 512
            &&& !s.content_id_bumped
            &&& !s.unclean_marked
        }),
{
    let h = lemma_laid_out_header(c, n, t, writable);
    law_integers_are_sums_of_bytes(c, 0, 0);
    let region = embedded(c);
    let text = decode_utf8(region);
    lemma_not_blank(text, Trim::WhiteOrNul, k);
    reveal_strlit("monolithicSparse");
    reveal_strlit("streamOptimized");
    assert(d.create_type == "monolithicSparse"@);
    assert("monolithicSparse"@[0] == 'm' && "streamOptimized"@[0] == 's');
    law_which_kind_is_sparse(d.extents[0].kind);
    assert(disagreement(d, h) is None);
    assert(h.descriptor_offset * 512 + h.descriptor_size * 512 == (u64_at(c, 28) + u64_at(c, 36))
        * 512);
    assert(descriptor_stage(c, n, writable, h) == Ok::<DescriptorView, Error>(d));
    if writable {
        lemma_no_clash(
            c,
            n,
            t,
            h,
            declares_copy(c) && u64_at(c, 48) * 512 + 4 * t <= n && served,
        );
    }
    lemma_div_up(n, 512);
    assert(directory_stage(c, n, writable, h, d, served, reliable) is Ok);
}

/// Every image opens whose header, descriptor and directory are in place:
/// the header's sector is one that is read, the descriptor says one sparse
/// extent of as many sectors as the header, and the directory, of however
/// many tables the capacity takes, lies inside the file. What comes of it is
/// a reader on those bytes, of that size, with a live redundant directory
/// exactly where the header declares one that lies inside the file, and
/// room for new grains from the end of the file on.
pub proof fn law_images_in_place_open<D: BlockRead>(
    dev: &D,
    r: Result<VmdkReader<D>>,
    t: int,
    d: DescriptorView,
    k: int,
)
    requires
        opens_as(dev, false, r),
        dev.reliable(),
        laid_out(dev.contents(), dev.size() as int, t),
        described(dev.contents(), d),
        0 <= k < decode_utf8(embedded(dev.contents())).len(),
        decode_utf8(embedded(dev.contents()))[k] == '=',
    ensures
        r is Ok,
        ({
            let c = dev.contents();
            let s = r->Ok_0@;
            &&& s.contents == c
            &&& s.descriptor == d
            &&& !s.writable
            &&& s.header.version == u32_at(c, 4)
            &&& s.header.flags == u32_at(c, 8)
            &&& s.header.capacity == u64_at(c, 12)
            &&& s.header.grain_size == u64_at(c, 20)
            &&& s.header.gd_offset == u64_at(c, 56)
            &&& s.redundant == (declares_copy(c) && u64_at(c, 48) * 512 + 4 * t <= dev.size())
            &&& dev.size() <= s.cursor * 512 < dev.size() + 512
            &&& !s.content_id_bumped
            &&& !s.unclean_marked
        }),
{
    let c = dev.contents();
    let n = dev.size() as int;
    lemma_opened(c, n, false, true, dev.reliable(), t, d, k);
    let h = lemma_laid_out_header(c, n, t, false);
}

/// Every such image that can be written opens read-write, and as the same:
/// with a live redundant directory exactly where the header, of whichever
/// revision, has the two of its flags set and gives the directory a place.
pub proof fn law_writable_images_open_read_write<D: BlockDevice>(
    dev: &D,
    r: Result<VmdkReader<D>>,
    t: int,
    d: DescriptorView,
    k: int,
)
    requires
        opens_as(dev, true, r),
        dev.reliable(),
        laid_out(dev.contents(), dev.size() as int, t),
        described(dev.contents(), d),
        writable_image(dev.contents(), dev.size() as int, t),
        0 <= k < decode_utf8(embedded(dev.contents())).len(),
        decode_utf8(embedded(dev.contents()))[k] == '=',
    ensures
        r is Ok,
        ({
            let c = dev.contents();
            let s = r->Ok_0@;
            &&& s.contents == c
            &&& s.descriptor == d
            &&& s.writable
            &&& s.header.version == u32_at(c, 4)
            &&& s.header.flags == u32_at(c, 8)
            &&& s.header.capacity == u64_at(c, 12)
            &&& s.header.grain_size == u64_at(c, 20)
            &&& s.header.gd_offset == u64_at(c, 56)
            &&& s.redundant == ((u32_at(c, 8) / 2) % 2 == 1 && u64_at(c, 48) > 0)
            &&& dev.size() <= s.cursor * 512 < dev.size() + 512
            &&& !s.content_id_bumped
            &&& !s.unclean_marked
        }),
{
    let c = dev.contents();
    let n = dev.size() as int;
    lemma_opened(c, n, true, true, dev.reliable(), t, d, k);
    let h = lemma_laid_out_header(c, n, t, true);
}

/// What opens is in place: the header's sector is one that is read, and the
/// descriptor and the directory lie inside the file. Opened read-write, its
/// identifier can be replaced, and a redundant directory that the header
/// declares lies inside the file.
pub proof fn law_what_opens_is_in_place(
    c: Seq<u8>,
    n: int,
    writable: bool,
    served: bool,
    reliable: bool,
    t: int,
)
    requires
        n <= c.len(),
        n <= u64::MAX,
        opened(c, n, writable, served, reliable) is Ok,
        takes_tables(u64_at(c, 12), u64_at(c, 20), u32_at(c, 44), t),
    ensures
        laid_out(c, n, t),
        exists|d: DescriptorView| #[trigger] described(c, d),
        writable ==> content_id_of(embedded(c)) is Ok,
        writable && declares_copy(c) ==> u64_at(c, 48) * 512 + 4 * t <= n,
{
    let s = opened(c, n, writable, served, reliable)->Ok_0;
    let h = s.header;
    let b = c.subrange(0, 512);
    assert(header_of(b) == Ok::<SparseHeader, Error>(h));
    lemma_header_numbers(c);
    law_which_headers_are_read(b);
    law_header_fields(b, h);
    assert(u32_at(b, 4) == u32_at(c, 4) && u32_at(b, 8) == u32_at(c, 8) && u64_at(b, 12) == u64_at(
        c,
        12,
    ) && u64_at(b, 20) == u64_at(c, 20) && u64_at(b, 28) == u64_at(c, 28) && u64_at(b, 36)
        == u64_at(c, 36) && u32_at(b, 44) == u32_at(c, 44) && u64_at(b, 48) == u64_at(c, 48)
        && u64_at(b, 56) == u64_at(c, 56));
    law_what_the_flags_mean(h);
    law_how_many_tables(h, t);
    assert(descriptor_stage(c, n, writable, h) == Ok::<DescriptorView, Error>(s.descriptor));
    let lo = h.descriptor_offset * 512;
    assert(lo + h.descriptor_size * 512 == (u64_at(c, 28) + u64_at(c, 36)) * 512);
    law_which_kind_is_sparse(s.descriptor.extents[0].kind);
    assert(described(c, s.descriptor));
}

/// Whether byte `b` is of the header's sector, of the descriptor, or of a
/// sector of one of the directories of `t` entries.
pub open spec fn in_regions(c: Seq<u8>, t: int, b: int) -> bool {
    ||| b < 512
    ||| u64_at(c, 28) * 512 <= b < (u64_at(c, 28) + u64_at(c, 36)) * 512
    ||| u64_at(c, 56) * 512 <= b && b - b % 512 < u64_at(c, 56) * 512 + 4 * t
    ||| declares_copy(c) && u64_at(c, 48) * 512 <= b && b - b % 512 < u64_at(c, 48) * 512 + 4 * t
}

/// Whether the table at sector `a` lies inside the file and clear of the
/// regions whose place the header states.
pub open spec fn table_stands(c: Seq<u8>, n: int, t: int, a: int) -> bool {
    &&& a > 0
    &&& a * 512 + 4 * u32_at(c, 44) <= n
    &&& forall|b: int| a * 512 <= b < a * 512 + 4 * u32_at(c, 44) ==> !#[trigger] in_regions(c, t, b)
}

/// The fixed metadata of a laid-out image is made of those regions.
pub proof fn lemma_fixed_regions(c: Seq<u8>, n: int, t: int, h: SparseHeader, redundant: bool, b: int)
    requires
        h.descriptor_offset == u64_at(c, 28),
        h.descriptor_size == u64_at(c, 36),
        h.rgd_offset == u64_at(c, 48),
        h.gd_offset == u64_at(c, 56),
        redundant ==> declares_copy(c),
        table_count(h) == t,
        0 <= t,
        0 <= b,
        fixed_bytes(h, n, redundant).contains(b),
    ensures
        in_regions(c, t, b),
{
    let dir = div_up(4 * t, 512);
    lemma_div_up(4 * t, 512);
    let x = b / 512;
    assert(b - b % 512 == x * 512);
}

/// An image in which two entries of the directories name one table is read
/// but not written: a write through either would rewrite the other's map.
pub proof fn law_a_shared_table_is_not_written<D: BlockDevice>(
    dev: &D,
    r: Result<VmdkReader<D>>,
    t: int,
    i: int,
    j: int,
    copy: bool,
)
    requires
        opens_as(dev, true, r),
        dev.reliable(),
        dev.size() <= dev.contents().len(),
        dev.size() <= u64::MAX,
        takes_tables(
            u64_at(dev.contents(), 12),
            u64_at(dev.contents(), 20),
            u32_at(dev.contents(), 44),
            t,
        ),
        0 <= i < t,
        0 <= j < t,
        copy ==> declares_copy(dev.contents()),
        !copy ==> i != j,
        table_stands(
            dev.contents(),
            dev.size() as int,
            t,
            named_sector(dev.contents(), false, i),
        ),
        named_sector(dev.contents(), copy, j) == named_sector(dev.contents(), false, i),
    ensures
        r is Err,
{
    let c = dev.contents();
    let n = dev.size() as int;
    if r is Ok {
        law_what_opens_is_in_place(c, n, true, true, dev.reliable(), t);
        let s = opened(c, n, true, true, dev.reliable())->Ok_0;
        let h = lemma_laid_out_header(c, n, t, true);
        assert(s.header == h);
        let fixed = fixed_bytes(h, n, s.redundant);
        let named = named_tables(c, h, s.redundant);
        let lo = if i < j {
            i
        } else {
            j
        };
        let a = if copy {
            i
        } else {
            lo
        };
        let b = if copy {
            t + j
        } else {
            i + j - lo
        };
        law_integers_are_sums_of_bytes(c, u64_at(c, 56) * 512 + 4 * i, 0);
        law_integers_are_sums_of_bytes(c, u64_at(c, 56) * 512 + 4 * j, 0);
        law_integers_are_sums_of_bytes(c, u64_at(c, 48) * 512 + 4 * j, 0);
        assert(s.redundant == declares_copy(c));
        let x = named_sector(c, false, i);
        assert(named[a] == x && named[b] == x);
        assert(protects(h, n, fixed, named[a])) by {
            let end = x * 512 + 4 * h.num_gtes_per_gt;
            if hits(fixed, x * 512, end) {
                let z = choose|z: int| x * 512 <= z < end && #[trigger] fixed.contains(z);
                lemma_fixed_regions(c, n, t, h, s.redundant, z);
            }
        }
        assert(!apart(
            (named[a] * 512, named[a] * 512 + 4 * h.num_gtes_per_gt),
            (named[b] * 512, named[b] * 512 + 4 * h.num_gtes_per_gt),
        ));
        assert(tables_clash(h, n, fixed, named));
    }
}

/// A descriptor and a header agree exactly where the descriptor says one
/// sparse extent, of as many sectors as the header, and the two say alike
/// whether the grains are compressed.
pub proof fn law_when_descriptor_and_header_agree(d: DescriptorView, h: SparseHeader)
    ensures
        disagreement(d, h) is None <==> d.extents.len() == 1 && sparse_word(d.extents[0].kind)
            && d.extents[0].sectors == h.capacity && (d.create_type == "streamOptimized"@
            <==> h.compress_algorithm > 0),
        disagreement(d, h) matches Some(e) ==> e is Corrupt || e is Unsupported,
{
    if d.extents.len() == 1 {
        law_which_kind_is_sparse(d.extents[0].kind);
    }
    law_what_the_flags_mean(h);
}

/// Whether the embedded descriptor is a text with the lines of a usual one,
/// of a sparse extent as long as the header says the disk is.
pub open spec fn usually_described(c: Seq<u8>, u: Usual) -> bool {
    &&& valid_utf8(embedded(c))
    &&& usual(decode_utf8(embedded(c)), u)
    &&& sparse_word(u.extent.kind)
    &&& decimal_value(u.extent.sectors) == u64_at(c, 12)
}

proof fn lemma_usually_described(c: Seq<u8>, u: Usual) -> (r: (DescriptorView, int))
    requires
        usually_described(c, u),
    ensures
        described(c, r.0),
        0 <= r.1 < decode_utf8(embedded(c)).len(),
        decode_utf8(embedded(c))[r.1] == '=',
        r.0.create_type == "monolithicSparse"@,
        r.0.extents == seq![u.extent.says()],
{
    let text = decode_utf8(embedded(c));
    law_usual_descriptors_are_read(text, u);
    law_what_an_extent_line_says(u.extent);
    let d = DescriptorView {
        create_type: "monolithicSparse"@,
        extents: seq![u.extent.says()],
    };
    reveal_strlit("createType");
    let line = text.subrange(u.type_at.0, u.type_at.1);
    let key = "createType"@;
    assert(key.len() == 10);
    assert(typed(text, u.type_at.0, u.type_at.1, "monolithicSparse"@, u.type_frame));
    assert(gives(line, key, "monolithicSparse"@, u.type_frame));
    let k = u.type_frame.lead.len() as int + 10 + u.type_frame.before.len();
    assert(line.len() > k && line[k] == '=');
    assert(text[u.type_at.0 + k] == line[k]);
    (d, u.type_at.0 + k)
}

/// Every image opens read-only whose header, descriptor and directory are in
/// place and whose descriptor has the usual lines, wherever in it they
/// stand.
pub proof fn law_usual_images_open<D: BlockRead>(
    dev: &D,
    r: Result<VmdkReader<D>>,
    t: int,
    u: Usual,
)
    requires
        opens_as(dev, false, r),
        dev.reliable(),
        laid_out(dev.contents(), dev.size() as int, t),
        usually_described(dev.contents(), u),
    ensures
        r is Ok,
        r->Ok_0.inv(),
        r->Ok_0.in_step(),
        r->Ok_0@.contents == dev.contents(),
        r->Ok_0@.header.capacity == u64_at(dev.contents(), 12),
        r->Ok_0@.descriptor.create_type == "monolithicSparse"@,
        r->Ok_0@.descriptor.extents == seq![u.extent.says()],
{
    let (d, k) = lemma_usually_described(dev.contents(), u);
    law_images_in_place_open(dev, r, t, d, k);
}

/// And read-write, where it can be written.
pub proof fn law_usual_images_open_read_write<D: BlockDevice>(
    dev: &D,
    r: Result<VmdkReader<D>>,
    t: int,
    u: Usual,
)
    requires
        opens_as(dev, true, r),
        dev.reliable(),
        laid_out(dev.contents(), dev.size() as int, t),
        usually_described(dev.contents(), u),
        writable_image(dev.contents(), dev.size() as int, t),
    ensures
        r is Ok,
        r->Ok_0.inv(),
        r->Ok_0.in_step(),
        r->Ok_0@.writable,
        r->Ok_0@.contents == dev.contents(),
        r->Ok_0@.header.capacity == u64_at(dev.contents(), 12),
        r->Ok_0@.redundant == ((u32_at(dev.contents(), 8) / 2) % 2 == 1 && u64_at(
            dev.contents(),
            48,
        ) > 0),
{
    let (d, k) = lemma_usually_described(dev.contents(), u);
    law_writable_images_open_read_write(dev, r, t, d, k);
}

/// A device that serves its reads refuses no image: where opening fails
/// there, it fails for what the bytes say, with no error of the device's.
pub proof fn law_a_serving_device_refuses_nothing<D: BlockRead>(
    dev: &D,
    writable: bool,
    r: Result<VmdkReader<D>>,
)
    requires
        opens_as(dev, writable, r),
        dev.reliable(),
        dev.size() <= dev.contents().len(),
    ensures
        r matches Err(e) ==> e is NotVmdk || e is Corrupt || e is Unsupported,
        r is Ok <==> opened(
            dev.contents(),
            dev.size() as int,
            writable,
            true,
            dev.reliable(),
        ) is Ok,
{
    reveal_strlit("monolithicSparse");
}

} // verus!
