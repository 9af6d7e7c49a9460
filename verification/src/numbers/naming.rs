//! What a file is called that is not an image this crate reads.

use super::describing::{
    gives, has_ends, is_blank, is_key, is_pad, law_a_child_is_not_read,
    law_layouts_are_called_by_their_names, law_only_three_words_begin_an_extent,
    law_the_create_type_decides, law_what_an_extent_line_says, law_without_a_create_type,
    names_no_parent, padded_from, stands_at, typed, ExtentWords, Frame,
};
use super::opening::{
    embedded, law_when_descriptor_and_header_agree, law_which_kind_is_sparse, lemma_header_numbers,
    lemma_not_blank, sparse_word,
};
use super::{
    law_header_fields, law_integers_are_sums_of_bytes, law_what_a_refused_header_is_called,
    law_what_the_flags_mean, law_which_headers_are_read, readable_header, u32_at, u64_at,
};
use super::lines::{
    law_a_text_is_its_lines, law_trimming_blanks_leaves_nothing, law_trimming_takes_the_ends,
    lemma_line_is_a_stretch, lemma_trimmed_stretch, line_at, lines_before,
};
use crate::descriptor::{descriptor_of, extent_of, DescriptorView};
use crate::device::BlockRead;
use crate::error::{Error, Result};
use crate::header::{header_of, SparseHeader};
use crate::reader::open::{
    descriptor_shaped, first_line, has_key, header_stage, opened, opens_as, some_extent, some_key,
    sparse_extent,
};
use crate::reader::state::State;
use crate::reader::VmdkReader;
use crate::text::{first_index, is_white, lemma_first_index, lines, trimmed, Trim};
use vstd::prelude::*;
use vstd::utf8::{decode_utf8, valid_utf8};

verus! {

/// Whether the first line of `text` is the banner of a descriptor file.
pub open spec fn bannered(text: Seq<char>, b: int, pad: Seq<char>) -> bool {
    &&& line_at(text, 0, b)
    &&& is_pad(pad)
    &&& text.subrange(0, b) == "# Disk DescriptorFile"@ + pad
}

/// Whether the line of `text` from `a` to `b` is the extent line `x`.
pub open spec fn extent_line(text: Seq<char>, a: int, b: int, x: ExtentWords, f: Frame) -> bool {
    &&& line_at(text, a, b)
    &&& x.proper()
    &&& f.proper()
    &&& text.subrange(a, b) == f.lead + x.line() + f.pad
}

/// What a line says, once what pads it at either end is gone.
proof fn lemma_padding_trimmed(lead: Seq<char>, said: Seq<char>, pad: Seq<char>)
    requires
        is_blank(lead),
        has_ends(said),
        is_pad(pad),
    ensures
        trimmed(lead + said + pad, Trim::WhiteOrNul) == said,
{
    let line = lead + said + pad;
    let m = lead.len() as int;
    let n = said.len() as int;
    let w = choose|w: int| #[trigger] padded_from(pad, w);
    assert forall|k: int| 0 <= k < m implies Trim::WhiteOrNul.has(#[trigger] line[k]) by {
        assert(line[k] == lead[k]);
    }
    assert forall|k: int| m + n <= k < line.len() implies Trim::WhiteOrNul.has(
        #[trigger] line[k],
    ) by {
        let j = k - m - n;
        assert(line[k] == pad[j]);
        if j < w {
            assert(is_white(pad[j]));
        } else {
            assert(pad[j] == '\0');
        }
    }
    assert(line[m] == said[0] && line[m + n - 1] == said[n - 1]);
    law_trimming_takes_the_ends(line, Trim::WhiteOrNul, m, m + n);
    assert(line.subrange(m, m + n) =~= said);
}

proof fn lemma_banner(text: Seq<char>, b: int, pad: Seq<char>)
    requires
        bannered(text, b, pad),
    ensures
        first_line(lines(text)) == Some("# Disk DescriptorFile"@),
{
    reveal_strlit("# Disk DescriptorFile");
    let banner = "# Disk DescriptorFile"@;
    law_a_text_is_its_lines(text, 0, b);
    assert(banner[0] == '#' && banner[banner.len() - 1] == 'e');
    assert(text.subrange(0, b) =~= Seq::<char>::empty() + banner + pad);
    lemma_padding_trimmed(Seq::empty(), banner, pad);
    assert(lines(text)[0] == text.subrange(0, b));
}

proof fn lemma_extent_line(text: Seq<char>, a: int, b: int, x: ExtentWords, f: Frame)
    requires
        extent_line(text, a, b, x, f),
    ensures
        some_extent(lines(text)),
{
    reveal_strlit("RW");
    reveal_strlit("RDONLY");
    reveal_strlit("NOACCESS");
    law_a_text_is_its_lines(text, a, b);
    law_what_an_extent_line_says(x);
    let l = x.line();
    assert(l[0] == x.access[0]);
    assert(l[l.len() - 1] == x.name[x.name.len() - 1]);
    assert(!is_white(x.name[x.name.len() - 1]));
    lemma_padding_trimmed(f.lead, l, f.pad);
    let i = lines_before(text, a).len() as int;
    assert(lines(text)[i] == text.subrange(a, b));
    assert(extent_of(trimmed(lines(text)[i], Trim::WhiteOrNul)) is Some);
}

/// A text has the shape of a descriptor file that begins with its banner
/// and has an extent line.
pub proof fn law_which_texts_are_descriptor_files(
    text: Seq<char>,
    banner_end: int,
    banner_pad: Seq<char>,
    a: int,
    b: int,
    x: ExtentWords,
    f: Frame,
)
    requires
        bannered(text, banner_end, banner_pad),
        extent_line(text, a, b, x, f),
    ensures
        descriptor_shaped(text),
{
    lemma_banner(text, banner_end, banner_pad);
    lemma_extent_line(text, a, b, x, f);
}

/// Whether the line of `text` from `a` to `b` begins with `key` and `=`, with
/// white space before and after the key if any.
pub open spec fn keyed(text: Seq<char>, a: int, b: int, key: Seq<char>, f: Frame, rest: Seq<char>) -> bool {
    &&& line_at(text, a, b)
    &&& f.proper()
    &&& text.subrange(a, b) == f.lead + key + f.before + seq!['='] + rest
}

proof fn lemma_keyed(text: Seq<char>, a: int, b: int, key: Seq<char>, f: Frame, rest: Seq<char>)
    requires
        keyed(text, a, b, key, f, rest),
        is_key(key),
    ensures
        some_key(lines(text), key),
{
    law_a_text_is_its_lines(text, a, b);
    let line = text.subrange(a, b);
    let m = f.lead.len() as int;
    let n = key.len() as int;
    let e = m + n + f.before.len();
    let i = lines_before(text, a).len() as int;
    assert(lines(text)[i] == line);
    lemma_first_index(line, '=');
    let j = first_index(line, '=');
    assert(line[e] == '=');
    assert(j == e) by {
        if j < m {
            assert(line[j] == f.lead[j]);
            assert(is_white(f.lead[j]));
        } else if j < m + n {
            assert(line[j] == key[j - m]);
        } else if j < e {
            assert(line[j] == f.before[j - m - n]);
            assert(is_white(f.before[j - m - n]));
        }
    }
    let head = line.subrange(0, e);
    assert forall|k: int| 0 <= k < m implies Trim::White.has(#[trigger] head[k]) by {
        assert(head[k] == f.lead[k]);
    }
    assert forall|k: int| m + n <= k < head.len() implies Trim::White.has(#[trigger] head[k]) by {
        assert(head[k] == f.before[k - m - n]);
    }
    assert(head[m] == key[0] && head[m + n - 1] == key[n - 1]);
    law_trimming_takes_the_ends(head, Trim::White, m, m + n);
    assert(head.subrange(m, m + n) =~= key);
    assert(has_key(lines(text)[i], key));
}

/// So has one without the banner that has a version, an identifier and an
/// extent line.
pub proof fn law_a_banner_is_not_needed(
    text: Seq<char>,
    v: (int, int),
    v_frame: Frame,
    v_rest: Seq<char>,
    i: (int, int),
    i_frame: Frame,
    i_rest: Seq<char>,
    a: int,
    b: int,
    x: ExtentWords,
    f: Frame,
)
    requires
        keyed(text, v.0, v.1, "version"@, v_frame, v_rest),
        keyed(text, i.0, i.1, "CID"@, i_frame, i_rest),
        extent_line(text, a, b, x, f),
    ensures
        descriptor_shaped(text),
{
    reveal_strlit("version");
    reveal_strlit("CID");
    lemma_keyed(text, v.0, v.1, "version"@, v_frame, v_rest);
    lemma_keyed(text, i.0, i.1, "CID"@, i_frame, i_rest);
    lemma_extent_line(text, a, b, x, f);
}

/// Every file of at most 64 KiB is called unsupported, and never no VMDK,
/// whose text has the shape of a descriptor file and gives a create type:
/// by the name of the type where that is not `monolithicSparse`.
pub proof fn law_descriptor_files_are_named<D: BlockRead>(
    dev: &D,
    writable: bool,
    r: Result<VmdkReader<D>>,
    banner_end: int,
    banner_pad: Seq<char>,
    extent_at: (int, int),
    extent: ExtentWords,
    extent_frame: Frame,
    type_at: (int, int),
    x: Seq<char>,
    type_frame: Frame,
)
    requires
        opens_as(dev, writable, r),
        dev.reliable(),
        0 < dev.size() <= 65536,
        dev.size() <= dev.contents().len(),
        dev.contents()[0] == 0x23,
        valid_utf8(dev.contents().subrange(0, dev.size() as int)),
        ({
            let text = decode_utf8(dev.contents().subrange(0, dev.size() as int));
            &&& bannered(text, banner_end, banner_pad)
            &&& extent_line(text, extent_at.0, extent_at.1, extent, extent_frame)
            &&& typed(text, type_at.0, type_at.1, x, type_frame)
        }),
    ensures
        r matches Err(e) && e is Unsupported,
        x == "monolithicFlat"@ || x == "twoGbMaxExtentSparse"@ || x == "twoGbMaxExtentFlat"@ || x
            == "vmfs"@ || x == "vmfsSparse"@ || x == "streamOptimized"@ || x == "fullDevice"@ || x
            == "partitionedDevice"@ ==> (r matches Err(Error::Unsupported(m)) && m@ == x),
{
    let c = dev.contents();
    let n = dev.size() as int;
    let text = decode_utf8(c.subrange(0, n));
    law_which_texts_are_descriptor_files(
        text,
        banner_end,
        banner_pad,
        extent_at.0,
        extent_at.1,
        extent,
        extent_frame,
    );
    law_the_create_type_decides(text, type_at.0, type_at.1, x, type_frame);
    law_layouts_are_called_by_their_names(x);
    law_integers_are_sums_of_bytes(c, 0, 0);
    reveal_strlit("monolithicSparse");
    reveal_strlit("monolithicFlat");
    reveal_strlit("twoGbMaxExtentSparse");
    reveal_strlit("twoGbMaxExtentFlat");
    reveal_strlit("vmfs");
    reveal_strlit("vmfsSparse");
    reveal_strlit("streamOptimized");
    reveal_strlit("fullDevice");
    reveal_strlit("partitionedDevice");
    assert("monolithicSparse"@.len() == 16 && "monolithicSparse"@[0] == 'm');
    assert("partitionedDevice"@.len() == 17 && "monolithicFlat"@.len() == 14);
    assert(sparse_extent(c, n) == Ok::<bool, Error>(false));
    assert(opened(c, n, writable, true, dev.reliable()) matches Err(e) && e is Unsupported);
}

/// A file whose text gives no create type, or is no text, and one that is
/// empty or of more than 64 KiB, is no VMDK where it does not begin with the
/// bytes of an extent.
pub proof fn law_what_is_no_vmdk<D: BlockRead>(dev: &D, writable: bool, r: Result<VmdkReader<D>>)
    requires
        opens_as(dev, writable, r),
        dev.reliable(),
        dev.size() <= dev.contents().len(),
        dev.size() < 512 || dev.contents()[3] != 0x56 && dev.contents()[3] != 0x44,
        ({
            let n = dev.size() as int;
            let b = dev.contents().subrange(0, n);
            ||| n == 0
            ||| n > 65536
            ||| !valid_utf8(b)
            ||| forall|k: int| !stands_at(decode_utf8(b), "createType"@, k)
        }),
    ensures
        r matches Err(e) && e is NotVmdk,
{
    let c = dev.contents();
    let n = dev.size() as int;
    let text = decode_utf8(c.subrange(0, n));
    law_integers_are_sums_of_bytes(c, 0, 0);
    assert(sparse_extent(c, n) == Ok::<bool, Error>(false));
    if forall|k: int| !stands_at(text, "createType"@, k) {
        law_without_a_create_type(text);
    }
    assert(opened(c, n, writable, true, dev.reliable()) matches Err(e) && e is NotVmdk);
}

/// A file that begins with `COWD` is an extent of the layout `vmfsSparse`,
/// and called so.
pub proof fn law_vmfs_extents_are_named<D: BlockRead>(
    dev: &D,
    writable: bool,
    r: Result<VmdkReader<D>>,
)
    requires
        opens_as(dev, writable, r),
        dev.reliable(),
        512 <= dev.size() <= dev.contents().len(),
        dev.contents()[0] == 0x43,
        dev.contents()[1] == 0x4f,
        dev.contents()[2] == 0x57,
        dev.contents()[3] == 0x44,
    ensures
        r matches Err(Error::Unsupported(m)) && m@ == "vmfsSparse"@,
{
    law_integers_are_sums_of_bytes(dev.contents(), 0, 0);
}

/// A text is no descriptor file that holds none of the words that begin an
/// extent line.
pub proof fn law_no_extent_no_descriptor_file(text: Seq<char>)
    requires
        forall|k: int| !stands_at(text, "RW"@, k),
        forall|k: int| !stands_at(text, "RDONLY"@, k),
        forall|k: int| !stands_at(text, "NOACCESS"@, k),
    ensures
        !descriptor_shaped(text),
{
    let ls = lines(text);
    if some_extent(ls) {
        let i = choose|i: int|
            0 <= i < ls.len() && extent_of(trimmed(#[trigger] ls[i], Trim::WhiteOrNul)) is Some;
        let said = trimmed(ls[i], Trim::WhiteOrNul);
        let k = law_only_three_words_begin_an_extent(said);
        let r = lemma_line_is_a_stretch(text, i);
        let q = lemma_trimmed_stretch(ls[i], Trim::WhiteOrNul);
        let at = r.0 + q.0 + k;
        assert(said =~= text.subrange(r.0 + q.0, r.0 + q.0 + said.len()));
        lemma_stands_in(text, said, r.0 + q.0, "RW"@, k);
        lemma_stands_in(text, said, r.0 + q.0, "RDONLY"@, k);
        lemma_stands_in(text, said, r.0 + q.0, "NOACCESS"@, k);
        assert(!stands_at(text, "RW"@, at) && !stands_at(text, "RDONLY"@, at) && !stands_at(
            text,
            "NOACCESS"@,
            at,
        ));
    }
}

proof fn lemma_stands_in(text: Seq<char>, part: Seq<char>, from: int, word: Seq<char>, k: int)
    requires
        0 <= from,
        from + part.len() <= text.len(),
        part == text.subrange(from, from + part.len()),
    ensures
        stands_at(part, word, k) ==> stands_at(text, word, from + k),
{
    if stands_at(part, word, k) {
        assert(text.subrange(from + k, from + k + word.len()) =~= part.subrange(
            k,
            k + word.len(),
        ));
    }
}

proof fn lemma_key_stands(text: Seq<char>, key: Seq<char>) -> (k: int)
    requires
        some_key(lines(text), key),
    ensures
        stands_at(text, key, k),
{
    let ls = lines(text);
    let i = choose|i: int| 0 <= i < ls.len() && has_key(#[trigger] ls[i], key);
    let r = lemma_line_is_a_stretch(text, i);
    let j = first_index(ls[i], '=');
    lemma_first_index(ls[i], '=');
    let head = ls[i].subrange(0, j);
    let q = lemma_trimmed_stretch(head, Trim::White);
    assert(key =~= text.subrange(r.0 + q.0, r.0 + q.1));
    r.0 + q.0
}

/// Nor is one that begins with something else than the banner, however
/// often it quotes it, and has no version or no identifier.
pub proof fn law_a_quoted_banner_is_no_banner(text: Seq<char>)
    requires
        text.len() > 0,
        !is_white(text[0]),
        text[0] != '\0',
        text[0] != '#',
        (forall|k: int| !stands_at(text, "version"@, k)) || (forall|k: int|
            !stands_at(text, "CID"@, k)),
    ensures
        !descriptor_shaped(text),
{
    reveal_strlit("# Disk DescriptorFile");
    let ls = lines(text);
    lemma_first_index(text, '\n');
    let b = first_index(text, '\n');
    law_a_text_is_its_lines(text, 0, b);
    let line = text.subrange(0, b);
    assert(ls[0] == line);
    let q = lemma_trimmed_stretch(line, Trim::WhiteOrNul);
    assert(line[0] == text[0]);
    let said = trimmed(line, Trim::WhiteOrNul);
    if q.0 > 0 {
        assert(Trim::WhiteOrNul.has(line[0]));
    }
    if q.1 == 0 {
        assert(Trim::WhiteOrNul.has(line[0]));
    }
    assert(said[0] == text[0]);
    assert(first_line(ls) == Some(said));
    if some_key(ls, "version"@) {
        let k = lemma_key_stands(text, "version"@);
    }
    if some_key(ls, "CID"@) {
        let k = lemma_key_stands(text, "CID"@);
    }
}

/// Whether a file of `n` bytes begins with `KDMV`.
pub open spec fn begins_an_extent(c: Seq<u8>, n: int) -> bool {
    512 <= n <= c.len() && c[0] == 0x4b && c[1] == 0x44 && c[2] == 0x4d && c[3] == 0x56
}

/// What opening goes by once the header's sector is one that is read.
proof fn lemma_read_header(c: Seq<u8>, n: int, writable: bool) -> (h: SparseHeader)
    requires
        begins_an_extent(c, n),
        readable_header(c),
    ensures
        sparse_extent(c, n) == Ok::<bool, Error>(true),
        header_stage(c, n, writable) == Ok::<SparseHeader, Error>(h),
        !h.stream(),
        h.capacity == u64_at(c, 12),
        h.grain_size == u64_at(c, 20),
        h.descriptor_offset == u64_at(c, 28),
        h.descriptor_size == u64_at(c, 36),
        h.num_gtes_per_gt == u32_at(c, 44),
        h.gd_offset == u64_at(c, 56),
{
    let b = c.subrange(0, 512);
    law_integers_are_sums_of_bytes(c, 0, 0);
    lemma_header_numbers(c);
    law_which_headers_are_read(b);
    let h = header_of(b)->Ok_0;
    law_header_fields(b, h);
    assert(u64_at(b, 12) == u64_at(c, 12) && u64_at(b, 20) == u64_at(c, 20) && u64_at(b, 28)
        == u64_at(c, 28) && u64_at(b, 36) == u64_at(c, 36) && u32_at(b, 44) == u32_at(c, 44)
        && u64_at(b, 56) == u64_at(c, 56));
    law_what_the_flags_mean(h);
    h
}

/// An extent whose header is not read is called by what its header says:
/// unsupported for a revision other than 1 and 2 and for compressed grains,
/// corrupt for numbers that cannot be, and never no VMDK.
pub proof fn law_extents_are_named_by_their_header<D: BlockRead>(
    dev: &D,
    writable: bool,
    r: Result<VmdkReader<D>>,
)
    requires
        opens_as(dev, writable, r),
        dev.reliable(),
        begins_an_extent(dev.contents(), dev.size() as int),
        !readable_header(dev.contents()),
    ensures
        r is Err,
        r->Err_0 is Unsupported || r->Err_0 is Corrupt,
        u32_at(dev.contents(), 4) != 1 && u32_at(dev.contents(), 4) != 2 ==> r->Err_0 is Unsupported,
        (u32_at(dev.contents(), 4) == 1 || u32_at(dev.contents(), 4) == 2) && 0 < u64_at(
            dev.contents(),
            20,
        ) < 0x80_0000_0000_0000 && 0 < u32_at(dev.contents(), 44) <= 262144
            ==> r->Err_0 is Unsupported,
{
    let c = dev.contents();
    let b = c.subrange(0, 512);
    law_integers_are_sums_of_bytes(c, 0, 0);
    lemma_header_numbers(c);
    law_what_a_refused_header_is_called(b);
    assert(u32_at(b, 4) == u32_at(c, 4) && u64_at(b, 20) == u64_at(c, 20) && u32_at(b, 44) == u32_at(
        c,
        44,
    ));
    assert(b[0] == c[0] && b[1] == c[1] && b[2] == c[2] && b[3] == c[3]);
}

/// An extent without a descriptor of its own, or with one that is blank, is
/// part of a disk of another layout, and called unsupported.
pub proof fn law_extents_without_a_descriptor_are_unsupported<D: BlockRead>(
    dev: &D,
    writable: bool,
    r: Result<VmdkReader<D>>,
)
    requires
        opens_as(dev, writable, r),
        dev.reliable(),
        dev.size() <= u64::MAX,
        begins_an_extent(dev.contents(), dev.size() as int),
        readable_header(dev.contents()),
        ({
            let c = dev.contents();
            let text = decode_utf8(embedded(c));
            ||| u64_at(c, 28) == 0
            ||| u64_at(c, 36) == 0
            ||| {
                &&& (u64_at(c, 28) + u64_at(c, 36)) * 512 <= dev.size()
                &&& valid_utf8(embedded(c))
                &&& forall|k: int|
                    0 <= k < text.len() ==> is_white(#[trigger] text[k]) || text[k] == '\0'
            }
        }),
    ensures
        r matches Err(e) && e is Unsupported,
{
    let c = dev.contents();
    let n = dev.size() as int;
    let h = lemma_read_header(c, n, writable);
    let text = decode_utf8(embedded(c));
    if u64_at(c, 28) != 0 && u64_at(c, 36) != 0 {
        assert forall|k: int| 0 <= k < text.len() implies Trim::WhiteOrNul.has(#[trigger] text[k]) by {}
        law_trimming_blanks_leaves_nothing(text, Trim::WhiteOrNul);
        assert(h.descriptor_offset * 512 + h.descriptor_size * 512 == (u64_at(c, 28) + u64_at(c, 36))
            * 512);
    }
}

/// Whether the descriptor that an extent embeds lies inside the file and is
/// a text with a character that is neither white space nor NUL.
pub open spec fn embeds_a_text(c: Seq<u8>, n: int, k: int) -> bool {
    &&& begins_an_extent(c, n)
    &&& readable_header(c)
    &&& u64_at(c, 28) > 0
    &&& u64_at(c, 36) > 0
    &&& (u64_at(c, 28) + u64_at(c, 36)) * 512 <= n <= u64::MAX
    &&& u64_at(c, 36) * 512 <= usize::MAX
    &&& valid_utf8(embedded(c))
    &&& 0 <= k < decode_utf8(embedded(c)).len()
    &&& !is_white(decode_utf8(embedded(c))[k])
    &&& decode_utf8(embedded(c))[k] != '\0'
}

proof fn lemma_embedded_text(c: Seq<u8>, n: int, writable: bool, served: bool, reliable: bool, k: int)
    requires
        embeds_a_text(c, n, k),
    ensures
        ({
            let o = opened(c, n, writable, served, reliable);
            match descriptor_of(decode_utf8(embedded(c))) {
                Err(e) => o == Err::<State, Error>(e),
                Ok(d) => {
                    let fits = d.extents.len() == 1 && sparse_word(d.extents[0].kind);
                    &&& !fits ==> o is Err
                    &&& !fits && d.extents.len() > 0 ==> o->Err_0 is Unsupported
                    &&& fits && d.extents[0].sectors != u64_at(c, 12) ==> o is Err
                        && o->Err_0 is Corrupt
                },
            }
        }),
{
    let h = lemma_read_header(c, n, writable);
    let text = decode_utf8(embedded(c));
    lemma_not_blank(text, Trim::WhiteOrNul, k);
    assert(h.descriptor_offset * 512 + h.descriptor_size * 512 == (u64_at(c, 28) + u64_at(c, 36))
        * 512);
    if let Ok(d) = descriptor_of(text) {
        law_when_descriptor_and_header_agree(d, h);
        if d.extents.len() > 0 {
            law_which_kind_is_sparse(d.extents[0].kind);
        }
        reveal_strlit("monolithicSparse");
        reveal_strlit("streamOptimized");
        assert("monolithicSparse"@[0] == 'm' && "streamOptimized"@[0] == 's');
    }
}

/// An extent whose own descriptor gives another create type than
/// `monolithicSparse` is called by the name of that type.
pub proof fn law_embedded_layouts_are_named<D: BlockRead>(
    dev: &D,
    writable: bool,
    r: Result<VmdkReader<D>>,
    k: int,
    type_at: (int, int),
    x: Seq<char>,
    type_frame: Frame,
)
    requires
        opens_as(dev, writable, r),
        dev.reliable(),
        embeds_a_text(dev.contents(), dev.size() as int, k),
        typed(decode_utf8(embedded(dev.contents())), type_at.0, type_at.1, x, type_frame),
        x != "monolithicSparse"@,
    ensures
        r matches Err(Error::Unsupported(m)) && (m@ == x || m@ == "unknown createType"@),
        x == "monolithicFlat"@ || x == "twoGbMaxExtentSparse"@ || x == "twoGbMaxExtentFlat"@ || x
            == "vmfs"@ || x == "vmfsSparse"@ || x == "streamOptimized"@ || x == "fullDevice"@ || x
            == "partitionedDevice"@ ==> (r matches Err(Error::Unsupported(m)) && m@ == x),
{
    let c = dev.contents();
    let n = dev.size() as int;
    law_the_create_type_decides(
        decode_utf8(embedded(c)),
        type_at.0,
        type_at.1,
        x,
        type_frame,
    );
    law_layouts_are_called_by_their_names(x);
    lemma_embedded_text(c, n, writable, true, dev.reliable(), k);
}

/// A child, whose data lives partly in a parent, is unsupported.
pub proof fn law_children_are_unsupported<D: BlockRead>(
    dev: &D,
    writable: bool,
    r: Result<VmdkReader<D>>,
    k: int,
    type_at: (int, int),
    type_frame: Frame,
    a: int,
    b: int,
    value: Seq<char>,
    f: Frame,
)
    requires
        opens_as(dev, writable, r),
        dev.reliable(),
        embeds_a_text(dev.contents(), dev.size() as int, k),
        ({
            let text = decode_utf8(embedded(dev.contents()));
            &&& typed(text, type_at.0, type_at.1, "monolithicSparse"@, type_frame)
            &&& line_at(text, a, b)
            &&& {
                ||| {
                    &&& gives(text.subrange(a, b), "parentFileNameHint"@, value, f)
                    &&& forall|k: int| b <= k ==> !stands_at(text, "parentFileNameHint"@, k)
                }
                ||| {
                    &&& gives(text.subrange(a, b), "parentCID"@, value, f)
                    &&& forall|k: int| b <= k ==> !stands_at(text, "parentCID"@, k)
                    &&& !names_no_parent(value)
                }
            }
        }),
    ensures
        r matches Err(e) && e is Unsupported,
{
    let c = dev.contents();
    let n = dev.size() as int;
    let text = decode_utf8(embedded(c));
    law_the_create_type_decides(text, type_at.0, type_at.1, "monolithicSparse"@, type_frame);
    law_a_child_is_not_read(text, a, b, value, f);
    lemma_embedded_text(c, n, writable, true, dev.reliable(), k);
}

/// A disk of several extents, or of one that is not sparse, is unsupported:
/// the rest of it is elsewhere, or laid out otherwise. One whose descriptor
/// and header give it different sizes is corrupt.
pub proof fn law_extents_that_do_not_fit_are_refused<D: BlockRead>(
    dev: &D,
    writable: bool,
    r: Result<VmdkReader<D>>,
    k: int,
    d: DescriptorView,
)
    requires
        opens_as(dev, writable, r),
        dev.reliable(),
        embeds_a_text(dev.contents(), dev.size() as int, k),
        descriptor_of(decode_utf8(embedded(dev.contents()))) == Ok::<DescriptorView, Error>(d),
    ensures
        d.extents.len() > 1 ==> (r matches Err(e) && e is Unsupported),
        d.extents.len() == 1 && !sparse_word(d.extents[0].kind) ==> (r matches Err(e) && e is Unsupported),
        d.extents.len() == 1 && sparse_word(d.extents[0].kind) && d.extents[0].sectors != u64_at(
            dev.contents(),
            12,
        ) ==> (r matches Err(e) && e is Corrupt),
        d.extents.len() == 0 ==> r is Err,
{
    lemma_embedded_text(
        dev.contents(),
        dev.size() as int,
        writable,
        true,
        dev.reliable(),
        k,
    );
}

} // verus!
