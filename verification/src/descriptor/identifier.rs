//! What a descriptor says does not depend on its content identifier.

use super::{assigned, cleaned, descriptor_of, extent_of, extents_of, last_value, skipped};
use crate::content_id::{
    content_id_of, hex_digits, is_hex, law_located_field, with_content_id,
    ContentIdField,
};
use crate::text::{
    first_index, is_white, lemma_first_index, lines, next_word, trimmed, trimmed_end,
    trimmed_start, Trim,
};
use vstd::prelude::*;
use vstd::utf8::{decode_utf8, encode_utf8, is_ascii_chars, valid_utf8};

verus! {

/// Whether a line says nothing that a descriptor is read for.
pub open spec fn inert(line: Seq<char>) -> bool {
    let l = cleaned(line);
    skipped(l) || {
        &&& assigned(l, "createType"@) is None
        &&& assigned(l, "parentFileNameHint"@) is None
        &&& assigned(l, "parentCID"@) is None
        &&& extent_of(l) is None
    }
}

/// Whether two lines say the same.
spec fn same_meaning(a: Seq<char>, b: Seq<char>) -> bool {
    cleaned(a) == cleaned(b) || (inert(a) && inert(b))
}

/// Whether two texts have lines that say the same, one by one.
spec fn alike(a: Seq<Seq<char>>, b: Seq<Seq<char>>) -> bool {
    a.len() == b.len() && forall|k: int|
        0 <= k < a.len() ==> same_meaning(#[trigger] a[k], b[k])
}

proof fn lemma_alike(a: Seq<Seq<char>>, b: Seq<Seq<char>>)
    requires
        alike(a, b),
    ensures
        last_value(a, "createType"@) == last_value(b, "createType"@),
        last_value(a, "parentFileNameHint"@) == last_value(b, "parentFileNameHint"@),
        last_value(a, "parentCID"@) == last_value(b, "parentCID"@),
        extents_of(a) == extents_of(b),
    decreases a.len(),
{
    if a.len() > 0 {
        assert forall|k: int| 0 <= k < a.drop_last().len() implies same_meaning(
            #[trigger] a.drop_last()[k],
            b.drop_last()[k],
        ) by {
            assert(same_meaning(a[k], b[k]));
        }
        lemma_alike(a.drop_last(), b.drop_last());
        assert(same_meaning(a[a.len() - 1], b[a.len() - 1]));
    }
}

/// The characters that begin the identifier's line.
spec fn cid_key() -> Seq<char> {
    seq!['C', 'I', 'D', '=']
}

/// Trimming the end keeps what stands before a character that stays.
proof fn lemma_end_kept(head: Seq<char>, tail: Seq<char>, set: Trim)
    requires
        head.len() > 0,
        !set.has(head.last()),
    ensures
        trimmed_end(head + tail, set) == head + trimmed_end(tail, set),
    decreases tail.len(),
{
    let s = head + tail;
    if tail.len() > 0 {
        if set.has(tail[tail.len() - 1]) {
            let t = tail.subrange(0, tail.len() - 1);
            assert(s.subrange(0, s.len() - 1) =~= head + t);
            lemma_end_kept(head, t, set);
        }
    } else {
        assert(s =~= head);
        assert(head + trimmed_end(tail, set) =~= head);
    }
}

proof fn lemma_start_kept(s: Seq<char>, set: Trim)
    requires
        s.len() > 0,
        !set.has(s[0]),
    ensures
        trimmed_start(s, set) == s,
{
}

/// A line that begins with the identifier's key says nothing.
proof fn lemma_cid_line_inert(rest: Seq<char>)
    ensures
        inert(cid_key() + rest),
{
    reveal_strlit("createType");
    reveal_strlit("parentFileNameHint");
    reveal_strlit("parentCID");
    reveal_strlit("RW");
    reveal_strlit("RDONLY");
    reveal_strlit("NOACCESS");
    let key = cid_key();
    let raw = key + rest;
    lemma_start_kept(raw, Trim::White);
    lemma_end_kept(key, rest, Trim::White);
    let t1 = trimmed_end(rest, Trim::White);
    lemma_end_kept(key, t1, Trim::Nul);
    let t2 = trimmed_end(t1, Trim::Nul);
    lemma_start_kept(key + t2, Trim::White);
    lemma_end_kept(key, t2, Trim::White);
    let t3 = trimmed_end(t2, Trim::White);
    let line = key + t3;
    assert(cleaned(raw) == line);
    lemma_first_index(line, '=');
    let i = first_index(line, '=');
    assert(line[0] == 'C' && line[1] == 'I' && line[2] == 'D' && line[3] == '=');
    assert(i == 3) by {
        if i > 3 {
            assert(line[3] != '=');
        }
    }
    let name = line.subrange(0, 3);
    assert(name =~= seq!['C', 'I', 'D']);
    lemma_start_kept(name, Trim::White);
    assert(trimmed_end(name, Trim::White) == name);
    assert(trimmed(name, Trim::White).len() == 3);
    assert("createType"@.len() == 10 && "parentFileNameHint"@.len() == 18 && "parentCID"@.len()
        == 9);
    lemma_start_kept(line, Trim::White);
    assert(!is_white('C'));
    let word = (next_word(line)->0).0;
    crate::text::lemma_word_len(line);
    crate::text::lemma_word_len(line.subrange(1, line.len() as int));
    assert(word[0] == 'C');
    assert("RW"@[0] == 'R' && "RDONLY"@[0] == 'R' && "NOACCESS"@[0] == 'N');
}

/// Text before a line feed splits into lines of its own.
proof fn lemma_lines_before(p: Seq<char>, s: Seq<char>)
    requires
        p.len() > 0,
        p.last() == '\n',
    ensures
        lines(p + s) == lines(p.drop_last()) + lines(s),
    decreases p.len(),
{
    let t = p + s;
    let i = first_index(t, '\n');
    lemma_first_index(t, '\n');
    assert(t[p.len() - 1] == '\n');
    assert(i <= p.len() - 1);
    let q = p.drop_last();
    lemma_first_index(q, '\n');
    if i == p.len() - 1 {
        assert(t.subrange(0, i) =~= q);
        assert(t.subrange(i + 1, t.len() as int) =~= s);
        assert(first_index(q, '\n') == q.len()) by {
            if first_index(q, '\n') < q.len() {
                assert(t[first_index(q, '\n')] == '\n');
            }
        }
        assert(lines(t) =~= lines(q) + lines(s));
    } else {
        let rest = p.subrange(i + 1, p.len() as int);
        assert(t.subrange(i + 1, t.len() as int) =~= rest + s);
        assert(rest.last() == '\n');
        lemma_lines_before(rest, s);
        assert(first_index(q, '\n') == i) by {
            assert(q[i] == '\n');
            if first_index(q, '\n') < i {
                assert(t[first_index(q, '\n')] == '\n');
            }
        }
        assert(q.subrange(i + 1, q.len() as int) =~= rest.drop_last());
        assert(q.subrange(0, i) =~= t.subrange(0, i));
        assert(lines(t) =~= lines(q) + lines(s));
    }
}

/// Text with a line feed in it begins with the line before it.
proof fn lemma_lines_at(head: Seq<char>, s: Seq<char>)
    requires
        forall|k: int| 0 <= k < head.len() ==> head[k] != '\n',
    ensures
        lines(head + s.insert(0, '\n')) == seq![head] + lines(s),
{
    let t = head + s.insert(0, '\n');
    let i = first_index(t, '\n');
    lemma_first_index(t, '\n');
    assert(t[head.len() as int] == '\n');
    assert(i == head.len()) by {
        if i < head.len() {
            assert(t[i] == head[i]);
        }
    }
    assert(t.subrange(0, i) =~= head);
    assert(t.subrange(i + 1, t.len() as int) =~= s);
}

/// Text without a line feed is one line.
proof fn lemma_one_line(s: Seq<char>)
    requires
        forall|k: int| 0 <= k < s.len() ==> s[k] != '\n',
    ensures
        lines(s) == seq![s],
{
    lemma_first_index(s, '\n');
}

/// What follows the last line feed extends the last line.
proof fn lemma_lines_after(x: Seq<char>, z: Seq<char>)
    requires
        forall|k: int| 0 <= k < z.len() ==> z[k] != '\n',
    ensures
        lines(x).len() > 0,
        lines(x + z) == lines(x).drop_last().push(lines(x).last() + z),
        lines(x).last().len() <= x.len(),
        x.subrange(x.len() - lines(x).last().len(), x.len() as int) == lines(x).last(),
    decreases x.len(),
{
    let t = x + z;
    let i = first_index(x, '\n');
    lemma_first_index(x, '\n');
    lemma_first_index(t, '\n');
    if i >= x.len() {
        assert forall|k: int| 0 <= k < t.len() implies t[k] != '\n' by {
            if k >= x.len() {
                assert(t[k] == z[k - x.len()]);
            }
        }
        lemma_one_line(t);
        assert(lines(x) =~= seq![x]);
        assert(lines(x).drop_last().push(lines(x).last() + z) =~= seq![t]);
        assert(x.subrange(0, x.len() as int) =~= x);
    } else {
        let rest = x.subrange(i + 1, x.len() as int);
        lemma_lines_after(rest, z);
        assert(first_index(t, '\n') == i) by {
            assert(t[i] == '\n');
            if first_index(t, '\n') < i {
                assert(t[first_index(t, '\n')] == x[first_index(t, '\n')]);
            }
        }
        assert(t.subrange(i + 1, t.len() as int) =~= rest + z);
        assert(t.subrange(0, i) =~= x.subrange(0, i));
        let l = lines(rest);
        assert(lines(x) == seq![x.subrange(0, i)] + l);
        assert(lines(x).last() == l.last());
        assert(lines(x).drop_last().push(lines(x).last() + z) =~= seq![x.subrange(0, i)]
            + l.drop_last().push(l.last() + z));
        assert(x.subrange(x.len() - l.last().len(), x.len() as int) =~= rest.subrange(
            rest.len() - l.last().len(),
            rest.len() as int,
        ));
    }
}

/// Whether `z` is padding.
spec fn is_padding(z: Seq<char>) -> bool {
    forall|k: int| 0 <= k < z.len() ==> z[k] == '\0'
}

proof fn lemma_padding_trimmed(x: Seq<char>, z: Seq<char>)
    requires
        is_padding(z),
    ensures
        trimmed_end(x + z, Trim::Nul) == trimmed_end(x, Trim::Nul),
    decreases z.len(),
{
    let s = x + z;
    if z.len() > 0 {
        let t = z.subrange(0, z.len() - 1);
        assert(s.subrange(0, s.len() - 1) =~= x + t);
        assert(s[s.len() - 1] == z[z.len() - 1]);
        lemma_padding_trimmed(x, t);
    } else {
        assert(s =~= x);
    }
}

/// Padding does not matter to what is trimmed before it.
proof fn lemma_start_before_padding(l: Seq<char>, z: Seq<char>)
    requires
        z.len() > 0,
        is_padding(z),
    ensures
        trimmed_start(l + z, Trim::White) == trimmed_start(l, Trim::White) + z,
    decreases l.len(),
{
    let s = l + z;
    if l.len() == 0 {
        assert(s =~= z);
        assert(trimmed_start(l, Trim::White) + z =~= z);
    } else if Trim::White.has(l[0]) {
        assert(s.subrange(1, s.len() as int) =~= l.subrange(1, l.len() as int) + z);
        lemma_start_before_padding(l.subrange(1, l.len() as int), z);
    }
}

/// Trimming the start keeps the last character, where anything stays.
proof fn lemma_start_is_suffix(l: Seq<char>, set: Trim)
    ensures
        trimmed_start(l, set).len() <= l.len(),
        trimmed_start(l, set).len() > 0 ==> trimmed_start(l, set).last() == l.last(),
        trimmed_start(l, set).len() > 0 ==> !set.has(trimmed_start(l, set)[0]),
    decreases l.len(),
{
    if l.len() > 0 && set.has(l[0]) {
        lemma_start_is_suffix(l.subrange(1, l.len() as int), set);
    }
}

/// Trimming the end keeps the first character, where that stays.
proof fn lemma_end_is_prefix(l: Seq<char>, set: Trim)
    ensures
        trimmed_end(l, set).len() <= l.len(),
        trimmed_end(l, set).len() > 0 ==> trimmed_end(l, set)[0] == l[0],
        trimmed_end(l, set).len() > 0 ==> !set.has(trimmed_end(l, set).last()),
        l.len() > 0 && !set.has(l[0]) ==> trimmed_end(l, set).len() > 0,
    decreases l.len(),
{
    if l.len() > 0 && set.has(l[l.len() - 1]) {
        lemma_end_is_prefix(l.subrange(0, l.len() - 1), set);
    }
}

/// A padded line is its text without the white space around it.
proof fn lemma_cleaned_padded(l: Seq<char>, z: Seq<char>)
    requires
        z.len() > 0,
        is_padding(z),
        l.len() > 0 ==> l.last() != '\0',
    ensures
        cleaned(l + z) == trimmed(l, Trim::White),
{
    let s = trimmed_start(l, Trim::White);
    lemma_start_before_padding(l, z);
    lemma_start_is_suffix(l, Trim::White);
    assert((s + z).last() == '\0');
    assert(trimmed_end(s + z, Trim::White) == s + z);
    lemma_padding_trimmed(s, z);
    assert(trimmed_end(s, Trim::Nul) == s);
    if s.len() > 0 {
        lemma_start_kept(s, Trim::White);
    }
}

/// A line that holds no NUL before its trailing white space is its text
/// without the white space around it.
proof fn lemma_cleaned_bare(l: Seq<char>)
    requires
        trimmed_end(l, Trim::White).len() > 0 ==> trimmed_end(l, Trim::White).last() != '\0',
    ensures
        cleaned(l) == trimmed(l, Trim::White),
{
    let s = trimmed_start(l, Trim::White);
    let u = trimmed_end(s, Trim::White);
    lemma_start_is_suffix(l, Trim::White);
    lemma_end_is_prefix(s, Trim::White);
    if u.len() > 0 {
        lemma_same_end(l, Trim::White);
        assert(trimmed_end(u, Trim::Nul) == u);
        lemma_start_kept(u, Trim::White);
        assert(trimmed_end(u, Trim::White) == u);
    }
}

/// Trimming the start first does not change where the end is trimmed to.
proof fn lemma_same_end(l: Seq<char>, set: Trim)
    requires
        trimmed(l, set).len() > 0,
    ensures
        trimmed_end(l, set).len() > 0,
        trimmed_end(l, set).last() == trimmed(l, set).last(),
    decreases l.len(),
{
    if l.len() > 0 && set.has(l[l.len() - 1]) {
        let t = l.subrange(0, l.len() - 1);
        lemma_start_of_prefix(l, set);
        lemma_same_end(t, set);
    } else {
        lemma_start_is_suffix(l, set);
    }
}

/// Dropping a last character that is trimmed anyway.
proof fn lemma_start_of_prefix(l: Seq<char>, set: Trim)
    requires
        l.len() > 0,
        set.has(l.last()),
        trimmed(l, set).len() > 0,
    ensures
        trimmed(l.subrange(0, l.len() - 1), set) == trimmed(l, set),
    decreases l.len(),
{
    let t = l.subrange(0, l.len() - 1);
    if set.has(l[0]) {
        let a = l.subrange(1, l.len() as int);
        assert(a.len() > 0) by {
            if a.len() == 0 {
                assert(trimmed_start(a, set) == a);
                assert(trimmed_end(a, set) == a);
            }
        }
        assert(a.last() == l.last());
        lemma_start_of_prefix(a, set);
        assert(t.subrange(1, t.len() as int) =~= a.subrange(0, a.len() - 1));
    } else {
        assert(t.len() > 0);
        assert(trimmed_start(t, set) == t);
    }
}

/// Whether some padding is left in both or in neither of two texts, or
/// none needs to be: no NUL stands before the white space that ends `m`.
spec fn same_tail(m: Seq<char>, z: Seq<char>, z2: Seq<char>) -> bool {
    ||| (z.len() == 0) == (z2.len() == 0)
    ||| trimmed_end(m, Trim::White).len() == 0
    ||| trimmed_end(m, Trim::White).last() != '\0'
}

/// The last line of a text means the same with any padding behind it.
proof fn lemma_last_line(m: Seq<char>, l: Seq<char>, z: Seq<char>, z2: Seq<char>)
    requires
        is_padding(z),
        is_padding(z2),
        m.len() > 0 ==> m.last() != '\0',
        l.len() <= m.len(),
        m.subrange(m.len() - l.len(), m.len() as int) == l,
        same_tail(m, z, z2),
    ensures
        cleaned(l + z) == cleaned(l + z2),
{
    if l.len() > 0 {
        assert(l.last() == m.last());
    }
    if z.len() > 0 {
        lemma_cleaned_padded(l, z);
    }
    if z2.len() > 0 {
        lemma_cleaned_padded(l, z2);
    }
    if z.len() == 0 {
        assert(l + z =~= l);
    }
    if z2.len() == 0 {
        assert(l + z2 =~= l);
    }
    if (z.len() == 0) != (z2.len() == 0) {
        let u = trimmed_end(l, Trim::White);
        if u.len() > 0 {
            lemma_suffix_end(m, l);
        }
        lemma_cleaned_bare(l);
    }
}

/// A text ends where its last line ends.
proof fn lemma_suffix_end(m: Seq<char>, l: Seq<char>)
    requires
        l.len() <= m.len(),
        m.subrange(m.len() - l.len(), m.len() as int) == l,
        trimmed_end(l, Trim::White).len() > 0,
    ensures
        trimmed_end(m, Trim::White).len() > 0,
        trimmed_end(m, Trim::White).last() == trimmed_end(l, Trim::White).last(),
    decreases l.len(),
{
    if l.len() > 0 {
        assert(m[m.len() - 1] == l[l.len() - 1]);
        if Trim::White.has(l[l.len() - 1]) {
            let m1 = m.subrange(0, m.len() - 1);
            let l1 = l.subrange(0, l.len() - 1);
            assert(m1.subrange(m1.len() - l1.len(), m1.len() as int) =~= l1);
            lemma_suffix_end(m1, l1);
        }
    }
}

/// A descriptor text means the same whatever its identifier is and however
/// long its padding.
proof fn lemma_text_kept(
    p: Seq<char>,
    hx: Seq<char>,
    hx2: Seq<char>,
    m: Seq<char>,
    z: Seq<char>,
    z2: Seq<char>,
)
    requires
        p.len() > 0 ==> p.last() == '\n',
        forall|k: int| 0 <= k < hx.len() ==> hx[k] != '\n',
        forall|k: int| 0 <= k < hx2.len() ==> hx2[k] != '\n',
        is_padding(z),
        is_padding(z2),
        m.len() > 0 ==> m.last() != '\0',
        same_tail(m, z, z2),
    ensures
        descriptor_of(p + (cid_key() + hx + m + z)) == descriptor_of(p + (cid_key() + hx2 + m + z2)),
{
    let a = cid_key() + hx + m + z;
    let b = cid_key() + hx2 + m + z2;
    assert(alike(lines(a), lines(b))) by {
        lemma_rest_alike(hx, hx2, m, z, z2);
    }
    let la = lines(p + a);
    let lb = lines(p + b);
    assert(alike(la, lb)) by {
        if p.len() > 0 {
            lemma_lines_before(p, a);
            lemma_lines_before(p, b);
            let n = lines(p.drop_last()).len() as int;
            assert forall|k: int| 0 <= k < la.len() implies same_meaning(#[trigger] la[k], lb[k]) by {
                if k >= n {
                    assert(same_meaning(lines(a)[k - n], lines(b)[k - n]));
                }
            }
        } else {
            assert(p + a =~= a);
            assert(p + b =~= b);
        }
    }
    lemma_alike(la, lb);
}

/// The identifier's line and the lines after it, with another identifier
/// and other padding.
proof fn lemma_rest_alike(
    hx: Seq<char>,
    hx2: Seq<char>,
    m: Seq<char>,
    z: Seq<char>,
    z2: Seq<char>,
)
    requires
        forall|k: int| 0 <= k < hx.len() ==> hx[k] != '\n',
        forall|k: int| 0 <= k < hx2.len() ==> hx2[k] != '\n',
        is_padding(z),
        is_padding(z2),
        m.len() > 0 ==> m.last() != '\0',
        same_tail(m, z, z2),
    ensures
        alike(lines(cid_key() + hx + m + z), lines(cid_key() + hx2 + m + z2)),
{
    let y = cid_key() + hx;
    let y2 = cid_key() + hx2;
    let a = y + m + z;
    let b = y2 + m + z2;
    let i = first_index(m, '\n');
    lemma_first_index(m, '\n');
    if i >= m.len() {
        lemma_one_line(a);
        lemma_one_line(b);
        assert(a =~= cid_key() + (hx + m + z));
        assert(b =~= cid_key() + (hx2 + m + z2));
        lemma_cid_line_inert(hx + m + z);
        lemma_cid_line_inert(hx2 + m + z2);
    } else {
        let m1 = m.subrange(0, i);
        let m2 = m.subrange(i + 1, m.len() as int);
        assert(a =~= (y + m1) + (m2 + z).insert(0, '\n'));
        assert(b =~= (y2 + m1) + (m2 + z2).insert(0, '\n'));
        lemma_lines_at(y + m1, m2 + z);
        lemma_lines_at(y2 + m1, m2 + z2);
        lemma_lines_after(m2, z);
        lemma_lines_after(m2, z2);
        let l = lines(m2).last();
        assert(m.subrange(m.len() - l.len(), m.len() as int) =~= m2.subrange(
            m2.len() - l.len(),
            m2.len() as int,
        ));
        lemma_last_line(m, l, z, z2);
        assert(y + m1 =~= cid_key() + (hx + m1));
        assert(y2 + m1 =~= cid_key() + (hx2 + m1));
        lemma_cid_line_inert(hx + m1);
        lemma_cid_line_inert(hx2 + m1);
        let la = lines(a);
        let lb = lines(b);
        assert forall|k: int| 0 <= k < la.len() implies same_meaning(#[trigger] la[k], lb[k]) by {
            if k == 0 {
                assert(la[0] == y + m1 && lb[0] == y2 + m1);
            } else {
                let ra = lines(m2 + z);
                let rb = lines(m2 + z2);
                assert(la[k] == ra[k - 1] && lb[k] == rb[k - 1]);
                if k - 1 < ra.len() - 1 {
                    assert(ra[k - 1] == lines(m2)[k - 1] && rb[k - 1] == lines(m2)[k - 1]);
                } else {
                    assert(ra[k - 1] == l + z && rb[k - 1] == l + z2);
                }
            }
        }
    }
}

/// The characters of ASCII bytes.
spec fn ascii(b: Seq<u8>) -> Seq<char> {
    Seq::new(b.len(), |k: int| b[k] as char)
}

/// ASCII bytes are UTF-8, and decode one by one.
proof fn lemma_ascii(b: Seq<u8>)
    requires
        forall|k: int| 0 <= k < b.len() ==> #[trigger] b[k] < 0x80,
    ensures
        valid_utf8(b),
        decode_utf8(b) == ascii(b),
{
    let c = ascii(b);
    assert(is_ascii_chars(c)) by {
        assert forall|k| 0 <= k < c.len() implies '\0' <= #[trigger] c[k] <= '\u{7f}' by {
            assert(b[k] < 0x80);
        }
    }
    vstd::utf8::is_ascii_chars_encode_utf8(c);
    assert(encode_utf8(c) =~= b) by {
        assert forall|k: int| 0 <= k < b.len() implies encode_utf8(c)[k] == b[k] by {
            assert(c[k] as u8 == encode_utf8(c)[k]);
            assert(b[k] < 0x80);
        }
    }
    vstd::utf8::encode_utf8_valid_utf8(c);
    vstd::utf8::encode_utf8_decode_utf8(c);
}

/// Text decodes piece by piece.
proof fn lemma_joined(x: Seq<u8>, y: Seq<u8>)
    requires
        valid_utf8(x),
        valid_utf8(y),
    ensures
        valid_utf8(x + y),
        decode_utf8(x + y) == decode_utf8(x) + decode_utf8(y),
{
    let b = x + y;
    vstd::utf8::valid_utf8_concat(x, y);
    let i = x.len() as int;
    if y.len() > 0 {
        assert(b[i] == y[0]);
        assert(vstd::utf8::valid_first_scalar(y));
        vstd::utf8::is_char_boundary_iff_not_is_continuation_byte(b, i);
    } else {
        vstd::utf8::is_char_boundary_start_end_of_seq(b);
    }
    vstd::utf8::decode_utf8_split(b, i);
    assert(b.subrange(0, i) =~= x);
    assert(b.subrange(i, b.len() as int) =~= y);
}

/// Text splits before an ASCII byte, and at its end.
proof fn lemma_split(b: Seq<u8>, i: int)
    requires
        valid_utf8(b),
        0 <= i <= b.len(),
        i < b.len() ==> b[i] < 0x80,
    ensures
        valid_utf8(b.subrange(0, i)),
        valid_utf8(b.subrange(i, b.len() as int)),
        decode_utf8(b) == decode_utf8(b.subrange(0, i)) + decode_utf8(
            b.subrange(i, b.len() as int),
        ),
{
    if i < b.len() {
        vstd::utf8::is_char_boundary_iff_not_is_continuation_byte(b, i);
    } else {
        vstd::utf8::is_char_boundary_start_end_of_seq(b);
    }
    vstd::utf8::valid_utf8_split(b, i);
    vstd::utf8::decode_utf8_split(b, i);
}

/// A text that ends with a NUL has a zero for its last byte.
proof fn lemma_last_nul(c: Seq<char>)
    requires
        c.len() > 0,
        c.last() == '\0',
    ensures
        encode_utf8(c).len() > 0,
        encode_utf8(c).last() == 0,
    decreases c.len(),
{
    if c.len() == 1 {
        assert(c =~= seq!['\0']);
        assert(is_ascii_chars(c));
        vstd::utf8::is_ascii_chars_encode_utf8(c);
        assert(c[0] as u8 == encode_utf8(c)[0]);
    } else {
        lemma_last_nul(c.drop_first());
    }
}

/// What a text keeps some character of is not trimmed away.
proof fn lemma_something_stays(s: Seq<char>, set: Trim, k: int)
    requires
        0 <= k < s.len(),
        !set.has(s[k]),
    ensures
        trimmed(s, set).len() > 0,
    decreases s.len(),
{
    if set.has(s[0]) {
        let t = s.subrange(1, s.len() as int);
        assert(t[k - 1] == s[k]);
        lemma_something_stays(t, set, k - 1);
    } else {
        lemma_start_kept(s, set);
        lemma_end_is_prefix(s, set);
    }
}

/// Whether giving a region another identifier keeps what its text says: the
/// identifier's line follows a line feed, and either padding is left when
/// it is widened, or no NUL stands before the white space that ends the
/// text.
pub open spec fn keeps_meaning(region: Seq<u8>, f: ContentIdField) -> bool {
    let text = decode_utf8(region.subrange(f.start + f.len, f.content_end as int));
    let end = trimmed_end(text, Trim::White);
    &&& f.start == 4 || region[f.start - 5] == 0x0a
    &&& f.len == 8 || f.content_end + 8 - f.len < region.len() || end.len() == 0 || end.last()
        != '\0'
}

/// The text of a region that begins with an identifier's line.
proof fn lemma_identifier_line(
    key: Seq<u8>,
    digits: Seq<u8>,
    m: Seq<u8>,
    z: Seq<u8>,
)
    requires
        key =~= seq![0x43u8, 0x49u8, 0x44u8, 0x3du8],
        forall|k: int| 0 <= k < digits.len() ==> is_hex(#[trigger] digits[k]),
        valid_utf8(m),
        forall|k: int| 0 <= k < z.len() ==> #[trigger] z[k] == 0,
    ensures
        valid_utf8(key + digits + m + z),
        decode_utf8(key + digits + m + z) == cid_key() + ascii(digits) + decode_utf8(m) + ascii(z),
        is_padding(ascii(z)),
        forall|k: int| 0 <= k < digits.len() ==> #[trigger] ascii(digits)[k] != '\n',
{
    lemma_ascii(key);
    lemma_ascii(digits);
    lemma_ascii(z);
    lemma_joined(key, digits);
    lemma_joined(key + digits, m);
    lemma_joined(key + digits + m, z);
    assert(ascii(key) =~= cid_key());
    assert forall|k: int| 0 <= k < digits.len() implies #[trigger] ascii(digits)[k] != '\n' by {
        assert(is_hex(digits[k]));
    }
}

/// The text before an identifier's line and the text after it.
proof fn lemma_around(region: Seq<u8>, f: ContentIdField)
    requires
        region.len() <= usize::MAX,
        valid_utf8(region),
        content_id_of(region) == Ok::<Option<ContentIdField>, &'static str>(Some(f)),
        f.start == 4 || region[f.start - 5] == 0x0a,
    ensures
        ({
            let head = region.subrange(0, f.start - 4);
            let m = region.subrange(f.start + f.len, f.content_end as int);
            &&& valid_utf8(head)
            &&& valid_utf8(m)
            &&& decode_utf8(head).len() > 0 ==> decode_utf8(head).last() == '\n'
            &&& decode_utf8(m).len() > 0 ==> decode_utf8(m).last() != '\0'
        }),
{
    law_located_field(region);
    let n = region.len() as int;
    let at = f.start - 4;
    let after = f.start + f.len;
    let end = f.content_end as int;
    let head = region.subrange(0, at);
    let m = region.subrange(after, end);
    lemma_split(region, at);
    lemma_split(region, after);
    let tail = region.subrange(after, n);
    assert(end < n ==> tail[end - after] == 0);
    lemma_split(tail, end - after);
    assert(tail.subrange(0, end - after) =~= m);
    let p = decode_utf8(head);
    let dm = decode_utf8(m);
    if at == 0 {
        assert(head =~= Seq::<u8>::empty());
        lemma_ascii(head);
    } else {
        lemma_split(head, at - 1);
        let lf = head.subrange(at - 1, at);
        assert(lf =~= seq![0x0au8]);
        lemma_ascii(lf);
        assert(ascii(lf) =~= seq!['\n']);
        assert(p.last() == '\n');
    }
    if dm.len() > 0 && dm.last() == '\0' {
        lemma_last_nul(dm);
        vstd::utf8::decode_utf8_encode_utf8(m);
        assert(m.last() == region[end - 1]);
    }
}

/// The bytes that begin the identifier's line.
spec fn cid_bytes() -> Seq<u8> {
    seq![0x43u8, 0x49u8, 0x44u8, 0x3du8]
}

/// A descriptor in pieces, with one identifier and with another.
proof fn lemma_pieces_kept(
    head: Seq<u8>,
    digits: Seq<u8>,
    fresh: Seq<u8>,
    m: Seq<u8>,
    z: Seq<u8>,
    z2: Seq<u8>,
)
    requires
        valid_utf8(head),
        valid_utf8(m),
        decode_utf8(head).len() > 0 ==> decode_utf8(head).last() == '\n',
        decode_utf8(m).len() > 0 ==> decode_utf8(m).last() != '\0',
        forall|k: int| 0 <= k < digits.len() ==> is_hex(#[trigger] digits[k]),
        forall|k: int| 0 <= k < fresh.len() ==> is_hex(#[trigger] fresh[k]),
        forall|k: int| 0 <= k < z.len() ==> #[trigger] z[k] == 0,
        forall|k: int| 0 <= k < z2.len() ==> #[trigger] z2[k] == 0,
        same_tail(decode_utf8(m), ascii(z), ascii(z2)),
    ensures
        ({
            let old_text = head + (cid_bytes() + digits + m + z);
            let new_text = head + (cid_bytes() + fresh + m + z2);
            &&& valid_utf8(new_text)
            &&& descriptor_of(decode_utf8(new_text)) == descriptor_of(decode_utf8(old_text))
            &&& trimmed(decode_utf8(new_text), Trim::WhiteOrNul).len() > 0
        }),
{
    let key = cid_bytes();
    lemma_identifier_line(key, digits, m, z);
    lemma_identifier_line(key, fresh, m, z2);
    lemma_joined(head, key + digits + m + z);
    lemma_joined(head, key + fresh + m + z2);
    let p = decode_utf8(head);
    let dm = decode_utf8(m);
    lemma_text_kept(p, ascii(digits), ascii(fresh), dm, ascii(z), ascii(z2));
    let text = decode_utf8(head + (key + fresh + m + z2));
    let rest = cid_key() + ascii(fresh) + dm + ascii(z2);
    assert(text[p.len() as int] == rest[0]);
    assert(rest[0] == 'C');
    lemma_something_stays(text, Trim::WhiteOrNul, p.len() as int);
}

/// Giving a descriptor another identifier changes nothing that it is read
/// for.
pub proof fn law_descriptor_outlives_its_identifier(region: Seq<u8>, f: ContentIdField, next: u32)
    requires
        region.len() <= usize::MAX,
        valid_utf8(region),
        content_id_of(region) == Ok::<Option<ContentIdField>, &'static str>(Some(f)),
        keeps_meaning(region, f),
    ensures
        valid_utf8(with_content_id(region, f, next)),
        descriptor_of(decode_utf8(with_content_id(region, f, next))) == descriptor_of(
            decode_utf8(region),
        ),
        trimmed(decode_utf8(with_content_id(region, f, next)), Trim::WhiteOrNul).len() > 0,
{
    law_located_field(region);
    crate::content_id::lemma_hex_digits(next as int, 8);
    lemma_around(region, f);
    let n = region.len() as int;
    let at = f.start - 4;
    let after = f.start + f.len;
    let end = f.content_end as int;
    let head = region.subrange(0, at);
    let digits = region.subrange(f.start as int, after);
    let m = region.subrange(after, end);
    let z = region.subrange(end, n);
    let fresh = hex_digits(next as int, 8);
    let z2 = region.subrange(end + 8 - f.len, n);
    assert(region =~= head + (cid_bytes() + digits + m + z));
    assert(with_content_id(region, f, next) =~= head + (cid_bytes() + fresh + m + z2));
    assert forall|k: int| 0 <= k < digits.len() implies is_hex(#[trigger] digits[k]) by {
        assert(is_hex(region[f.start + k]));
    }
    lemma_pieces_kept(head, digits, fresh, m, z, z2);
}

} // verus!
