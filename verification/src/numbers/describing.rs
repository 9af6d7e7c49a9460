//! What a descriptor's text says, line by line.

use super::lines::{
    is_number, is_word, law_a_text_is_its_lines, law_digits_spell_a_number, law_the_first_word,
    law_trimming_takes_the_ends, lemma_end_stretch, lemma_line_is_a_stretch, lemma_start_stretch,
    lemma_trimmed_stretch, line_at, lines_after, lines_before,
};
use crate::descriptor::{
    assigned, cleaned, descriptor_of, extent_of, extents_of, last_value, parent_declared,
    refused_name, skipped, without_hex_prefix,
    DescriptorView, ExtentView,
};
use crate::error::Error;
use crate::text::{
    ascii_lower, decimal_value, first_index, is_white, lemma_first_index, lines, next_word,
    same_ignoring_case, trimmed, trimmed_end, trimmed_start, word_len, Trim,
};
use vstd::prelude::*;

verus! {

/// Whether `pad` is what may follow what a line says: white space, then
/// NULs.
pub open spec fn is_pad(pad: Seq<char>) -> bool {
    exists|w: int| #[trigger] padded_from(pad, w)
}

/// Whether `pad` is white space up to `w` and NULs from there on.
pub open spec fn padded_from(pad: Seq<char>, w: int) -> bool {
    &&& 0 <= w <= pad.len()
    &&& forall|k: int| 0 <= k < w ==> is_white(#[trigger] pad[k])
    &&& forall|k: int| w <= k < pad.len() ==> #[trigger] pad[k] == '\0'
}

/// Whether the first and the last character of `s` are neither white space
/// nor NUL.
pub open spec fn has_ends(s: Seq<char>) -> bool {
    &&& s.len() > 0
    &&& !is_white(s[0]) && s[0] != '\0'
    &&& !is_white(s[s.len() - 1]) && s[s.len() - 1] != '\0'
}

/// Whether `s` is made of white space, if of anything.
pub open spec fn is_blank(s: Seq<char>) -> bool {
    forall|k: int| 0 <= k < s.len() ==> is_white(#[trigger] s[k])
}

/// White space before what a line says, and what follows it, do not count.
pub proof fn law_padding_does_not_count(lead: Seq<char>, said: Seq<char>, pad: Seq<char>)
    requires
        is_blank(lead),
        has_ends(said),
        is_pad(pad),
    ensures
        cleaned(lead + said + pad) == said,
{
    let w = choose|w: int| #[trigger] padded_from(pad, w);
    let line = lead + said + pad;
    let m = lead.len() as int;
    let n = said.len() as int;
    assert(line[m] == said[0] && line[m + n - 1] == said[n - 1]);
    assert forall|k: int| 0 <= k < m implies Trim::White.has(#[trigger] line[k]) by {
        assert(line[k] == lead[k]);
    }
    if w < pad.len() {
        assert(pad[pad.len() - 1] == '\0');
        assert(line[line.len() - 1] == '\0');
        law_trimming_takes_the_ends(line, Trim::White, m, line.len() as int);
        let x = said + pad;
        assert(line.subrange(m, line.len() as int) =~= x);
        let e = lemma_end_stretch(x, Trim::Nul);
        assert(e == n + w) by {
            if e > n + w {
                assert(x[e - 1] == pad[e - 1 - n]);
            }
            if e < n + w {
                assert(Trim::Nul.has(x[n + w - 1]));
                if w > 0 {
                    assert(x[n + w - 1] == pad[w - 1]);
                    assert(is_white(pad[w - 1]));
                } else {
                    assert(x[n + w - 1] == said[n - 1]);
                }
            }
        }
        let inner = x.subrange(0, n + w);
        assert forall|k: int| n <= k < inner.len() implies Trim::White.has(#[trigger] inner[k]) by {
            assert(inner[k] == pad[k - n]);
        }
        assert(inner[0] == said[0] && inner[n - 1] == said[n - 1]);
        law_trimming_takes_the_ends(inner, Trim::White, 0, n);
        assert(inner.subrange(0, n) =~= said);
    } else {
        assert forall|k: int| m + n <= k < line.len() implies Trim::White.has(#[trigger] line[k]) by {
            assert(line[k] == pad[k - m - n]);
        }
        law_trimming_takes_the_ends(line, Trim::White, m, m + n);
        assert(line.subrange(m, m + n) =~= said);
        let e = lemma_end_stretch(said, Trim::Nul);
        assert(said.subrange(0, n) =~= said);
        law_trimming_takes_the_ends(said, Trim::White, 0, n);
    }
}

/// What a line says is a stretch of it that begins with its first character
/// that is not white space.
proof fn lemma_cleaned_stretch(line: Seq<char>) -> (r: (int, int))
    ensures
        0 <= r.0 <= r.1 <= line.len(),
        cleaned(line) == line.subrange(r.0, r.1),
        forall|k: int| 0 <= k < r.0 ==> is_white(#[trigger] line[k]),
        r.0 < r.1 ==> !is_white(line[r.0]),
{
    let p = lemma_trimmed_stretch(line, Trim::White);
    let x = trimmed(line, Trim::White);
    let m = lemma_end_stretch(x, Trim::Nul);
    let y = trimmed_end(x, Trim::Nul);
    let q = lemma_trimmed_stretch(y, Trim::White);
    let z = trimmed(y, Trim::White);
    assert(z =~= line.subrange(p.0 + q.0, p.0 + q.1));
    assert forall|k: int| 0 <= k < p.0 + q.0 implies is_white(#[trigger] line[k]) by {
        if k < p.0 {
            assert(Trim::White.has(line[k]));
        } else {
            assert(y[k - p.0] == line[k]);
            assert(Trim::White.has(y[k - p.0]));
        }
    }
    if q.0 < q.1 {
        assert(y[q.0] == line[p.0 + q.0]);
    }
    (p.0 + q.0, p.0 + q.1)
}

/// Whether `word` stands at `k` in `text`.
pub open spec fn stands_at(text: Seq<char>, word: Seq<char>, k: int) -> bool {
    0 <= k && k + word.len() <= text.len() && text.subrange(k, k + word.len()) == word
}

/// A line that assigns to a key holds it.
proof fn lemma_assignment_holds_its_key(line: Seq<char>, key: Seq<char>) -> (k: int)
    requires
        assigned(cleaned(line), key) is Some,
    ensures
        stands_at(line, key, k),
{
    let r = lemma_cleaned_stretch(line);
    let said = cleaned(line);
    let i = first_index(said, '=');
    lemma_first_index(said, '=');
    let head = said.subrange(0, i);
    let q = lemma_trimmed_stretch(head, Trim::White);
    assert(head.subrange(q.0, q.1) == key);
    assert(head.subrange(q.0, q.1) =~= line.subrange(r.0 + q.0, r.0 + q.1));
    r.0 + q.0
}

proof fn lemma_last_value_none(ls: Seq<Seq<char>>, key: Seq<char>)
    requires
        forall|i: int| 0 <= i < ls.len() ==> assigned(cleaned(#[trigger] ls[i]), key) is None,
    ensures
        last_value(ls, key) is None,
    decreases ls.len(),
{
    if ls.len() > 0 {
        let before = ls.drop_last();
        assert forall|i: int| 0 <= i < before.len() implies assigned(
            cleaned(#[trigger] before[i]),
            key,
        ) is None by {
            assert(before[i] == ls[i]);
        }
        lemma_last_value_none(before, key);
        assert(ls.last() == ls[ls.len() - 1]);
    }
}

proof fn lemma_last_value_after(a: Seq<Seq<char>>, b: Seq<Seq<char>>, key: Seq<char>)
    requires
        forall|i: int| 0 <= i < b.len() ==> assigned(cleaned(#[trigger] b[i]), key) is None,
    ensures
        last_value(a + b, key) == last_value(a, key),
    decreases b.len(),
{
    if b.len() == 0 {
        assert(a + b =~= a);
    } else {
        let c = b.drop_last();
        assert forall|i: int| 0 <= i < c.len() implies assigned(cleaned(#[trigger] c[i]), key) is None by {
            assert(c[i] == b[i]);
        }
        lemma_last_value_after(a, c, key);
        assert((a + b).drop_last() =~= a + c);
        assert((a + b).last() == b[b.len() - 1]);
    }
}

/// A key that a text does not hold is given no value by it.
pub proof fn law_an_absent_key_has_no_value(text: Seq<char>, key: Seq<char>)
    requires
        forall|k: int| !stands_at(text, key, k),
    ensures
        last_value(lines(text), key) is None,
{
    let ls = lines(text);
    assert forall|i: int| 0 <= i < ls.len() implies assigned(cleaned(#[trigger] ls[i]), key) is None by {
        if assigned(cleaned(ls[i]), key) is Some {
            let r = lemma_line_is_a_stretch(text, i);
            let k = lemma_assignment_holds_its_key(ls[i], key);
            assert(ls[i].subrange(k, k + key.len()) =~= text.subrange(
                r.0 + k,
                r.0 + k + key.len(),
            ));
            assert(stands_at(text, key, r.0 + k));
        }
    }
    lemma_last_value_none(ls, key);
}

/// Whether a key is one that a line can assign to: it has a character, and
/// no white space, NUL or `=`, and is no comment.
pub open spec fn is_key(key: Seq<char>) -> bool {
    &&& key.len() > 0
    &&& key[0] != '#'
    &&& forall|k: int|
        0 <= k < key.len() ==> !is_white(#[trigger] key[k]) && key[k] != '\0' && key[k] != '='
}

/// What stands around what a line says: white space before it and on either
/// side of its `=`, and what pads the line after it.
pub struct Frame {
    pub lead: Seq<char>,
    pub before: Seq<char>,
    pub after: Seq<char>,
    pub pad: Seq<char>,
}

impl Frame {
    /// Whether it is made of what may stand there.
    pub open spec fn proper(&self) -> bool {
        is_blank(self.lead) && is_blank(self.before) && is_blank(self.after) && is_pad(self.pad)
    }
}

/// Whether `line` gives `key` the value `value`, bare or in double quotes.
pub open spec fn gives(line: Seq<char>, key: Seq<char>, value: Seq<char>, f: Frame) -> bool {
    &&& f.proper()
    &&& has_ends(value)
    &&& value[0] != '"'
    &&& value[value.len() - 1] != '"'
    &&& line == f.lead + (key + f.before + seq!['='] + f.after + value) + f.pad || line == f.lead + (
    key + f.before + seq!['='] + f.after + seq!['"'] + value + seq!['"']) + f.pad
}

/// What a line that has a key before its first `=` assigns to it.
proof fn lemma_assigned(
    key: Seq<char>,
    before: Seq<char>,
    after: Seq<char>,
    shown: Seq<char>,
    value: Seq<char>,
)
    requires
        is_key(key),
        is_blank(before),
        is_blank(after),
        has_ends(shown),
        trimmed(shown, Trim::Quote) == value,
    ensures
        assigned(key + before + seq!['='] + after + shown, key) == Some(value),
{
    let said = key + before + seq!['='] + after + shown;
    let n = key.len() as int;
    let m = n + before.len();
    lemma_first_index(said, '=');
    let i = first_index(said, '=');
    assert(said[m] == '=');
    assert(i == m) by {
        if i < n {
            assert(said[i] == key[i]);
        } else if i < m {
            assert(said[i] == before[i - n]);
            assert(is_white(before[i - n]));
        }
    }
    let head = said.subrange(0, m);
    assert(head =~= key + before);
    assert forall|k: int| n <= k < head.len() implies Trim::White.has(#[trigger] head[k]) by {
        assert(head[k] == before[k - n]);
    }
    assert(head[0] == key[0] && head[n - 1] == key[n - 1]);
    law_trimming_takes_the_ends(head, Trim::White, 0, n);
    assert(head.subrange(0, n) =~= key);
    let tail = said.subrange(m + 1, said.len() as int);
    let a = after.len() as int;
    assert(tail =~= after + shown);
    assert forall|k: int| 0 <= k < a implies Trim::White.has(#[trigger] tail[k]) by {
        assert(tail[k] == after[k]);
    }
    assert(tail[a] == shown[0] && tail[tail.len() - 1] == shown[shown.len() - 1]);
    law_trimming_takes_the_ends(tail, Trim::White, a, tail.len() as int);
    assert(tail.subrange(a, tail.len() as int) =~= shown);
}

/// A line that gives a key a value assigns it.
proof fn lemma_gives(line: Seq<char>, key: Seq<char>, value: Seq<char>, f: Frame)
    requires
        is_key(key),
        gives(line, key, value, f),
    ensures
        assigned(cleaned(line), key) == Some(value),
        !skipped(cleaned(line)),
{
    let bare = key + f.before + seq!['='] + f.after + value;
    let quoted = key + f.before + seq!['='] + f.after + seq!['"'] + value + seq!['"'];
    let m = value.len() as int;
    if line == f.lead + bare + f.pad {
        assert(bare[0] == key[0] && bare[bare.len() - 1] == value[m - 1]);
        law_padding_does_not_count(f.lead, bare, f.pad);
        law_trimming_takes_the_ends(value, Trim::Quote, 0, m);
        assert(value.subrange(0, m) =~= value);
        lemma_assigned(key, f.before, f.after, value, value);
    } else {
        let shown = seq!['"'] + value + seq!['"'];
        assert(quoted =~= key + f.before + seq!['='] + f.after + shown);
        assert(quoted[0] == key[0] && quoted[quoted.len() - 1] == '"');
        law_padding_does_not_count(f.lead, quoted, f.pad);
        assert(shown[1] == value[0] && shown[m] == value[m - 1]);
        law_trimming_takes_the_ends(shown, Trim::Quote, 1, m + 1);
        assert(shown.subrange(1, m + 1) =~= value);
        lemma_assigned(key, f.before, f.after, shown, value);
    }
}

/// The value that a text gives a key is that of the last line that gives it
/// one.
pub proof fn law_the_last_line_counts(
    text: Seq<char>,
    a: int,
    b: int,
    key: Seq<char>,
    value: Seq<char>,
    f: Frame,
)
    requires
        line_at(text, a, b),
        is_key(key),
        gives(text.subrange(a, b), key, value, f),
        forall|k: int| b <= k ==> !stands_at(text, key, k),
    ensures
        last_value(lines(text), key) == Some(value),
{
    law_a_text_is_its_lines(text, a, b);
    let line = text.subrange(a, b);
    lemma_gives(line, key, value, f);
    let before = lines_before(text, a);
    let after = lines_after(text, b);
    let rest = text.subrange(b + 1, text.len() as int);
    assert forall|i: int| 0 <= i < after.len() implies assigned(
        cleaned(#[trigger] after[i]),
        key,
    ) is None by {
        if assigned(cleaned(after[i]), key) is Some {
            let r = lemma_line_is_a_stretch(rest, i);
            let k = lemma_assignment_holds_its_key(after[i], key);
            assert(after[i].subrange(k, k + key.len()) =~= text.subrange(
                b + 1 + r.0 + k,
                b + 1 + r.0 + k + key.len(),
            ));
            assert(stands_at(text, key, b + 1 + r.0 + k));
        }
    }
    lemma_last_value_after(before + seq![line], after, key);
    assert((before + seq![line]).last() == line);
}

/// Whether the last line of `text` that gives a create type, from `a` to
/// `b`, gives `x`.
pub open spec fn typed(text: Seq<char>, a: int, b: int, x: Seq<char>, f: Frame) -> bool {
    &&& line_at(text, a, b)
    &&& gives(text.subrange(a, b), "createType"@, x, f)
    &&& forall|k: int| b <= k ==> !stands_at(text, "createType"@, k)
}

proof fn lemma_create_type_key()
    ensures
        is_key("createType"@),
        is_key("parentFileNameHint"@),
        is_key("parentCID"@),
{
    reveal_strlit("createType");
    reveal_strlit("parentFileNameHint");
    reveal_strlit("parentCID");
}

/// A descriptor of another create type than `monolithicSparse` is
/// unsupported, whatever else it says, and one of that type is never
/// corrupt.
pub proof fn law_the_create_type_decides(
    text: Seq<char>,
    a: int,
    b: int,
    x: Seq<char>,
    f: Frame,
)
    requires
        typed(text, a, b, x, f),
    ensures
        x != "monolithicSparse"@ ==> descriptor_of(text) == Err::<DescriptorView, Error>(
            Error::Unsupported(refused_name(x)),
        ),
        x == "monolithicSparse"@ ==> (descriptor_of(text) matches Err(e) ==> e is Unsupported),
        descriptor_of(text) matches Ok(d) ==> d.create_type == x,
{
    lemma_create_type_key();
    law_the_last_line_counts(text, a, b, "createType"@, x, f);
}

/// A text that gives no create type is no descriptor.
pub proof fn law_without_a_create_type(text: Seq<char>)
    requires
        forall|k: int| !stands_at(text, "createType"@, k),
    ensures
        descriptor_of(text) matches Err(e) && e is Corrupt,
{
    law_an_absent_key_has_no_value(text, "createType"@);
}

/// The layouts that are not read are called by their names.
pub proof fn law_layouts_are_called_by_their_names(x: Seq<char>)
    ensures
        x == "monolithicFlat"@ || x == "twoGbMaxExtentSparse"@ || x == "twoGbMaxExtentFlat"@ || x
            == "vmfs"@ || x == "vmfsSparse"@ || x == "streamOptimized"@ || x == "fullDevice"@ || x
            == "partitionedDevice"@ ==> refused_name(x)@ == x,
        refused_name(x)@ == x || refused_name(x)@ == "unknown createType"@,
{
}

/// Whether `s` is eight characters, each `f` in either case: the identifier
/// that stands for "no parent".
pub open spec fn all_effs(s: Seq<char>) -> bool {
    s.len() == 8 && forall|k: int| 0 <= k < 8 ==> #[trigger] s[k] == 'f' || s[k] == 'F'
}

proof fn lemma_no_parent(s: Seq<char>)
    ensures
        same_ignoring_case(s, "ffffffff"@) <==> all_effs(s),
{
    reveal_strlit("ffffffff");
    let w = "ffffffff"@;
    assert(w.len() == 8);
    assert forall|k: int| 0 <= k < 8 implies w[k] == 'f' by {
        assert(w[0] == 'f' && w[1] == 'f' && w[2] == 'f' && w[3] == 'f' && w[4] == 'f' && w[5]
            == 'f' && w[6] == 'f' && w[7] == 'f');
    }
    if same_ignoring_case(s, w) {
        assert forall|k: int| 0 <= k < 8 implies #[trigger] s[k] == 'f' || s[k] == 'F' by {
            assert(ascii_lower(s[k]) == ascii_lower(w[k]));
        }
    }
    if all_effs(s) {
        assert forall|k: int| 0 <= k < s.len() implies ascii_lower(#[trigger] s[k]) == ascii_lower(
            w[k],
        ) by {
            assert(s[k] == 'f' || s[k] == 'F');
        }
    }
}

/// Whether `s` stands for "no parent": eight times `f`, in either case, and
/// a prefix `0x` before them if any.
pub open spec fn names_no_parent(s: Seq<char>) -> bool {
    ||| all_effs(s)
    ||| s.len() >= 2 && s[0] == '0' && (s[1] == 'x' || s[1] == 'X') && (s.len() == 2 || all_effs(
        s.subrange(2, s.len() as int),
    ))
}

proof fn lemma_parent_value(hint: Option<Seq<char>>, value: Seq<char>)
    requires
        has_ends(value),
        hint is None,
    ensures
        parent_declared(hint, Some(value)) <==> !names_no_parent(value),
{
    law_trimming_takes_the_ends(value, Trim::White, 0, value.len() as int);
    assert(value.subrange(0, value.len() as int) =~= value);
    let digits = without_hex_prefix(value);
    lemma_no_parent(digits);
    if all_effs(value) {
        assert(value[0] == 'f' || value[0] == 'F');
    }
}

/// A descriptor that names a parent, by a file or by an identifier other
/// than the one that stands for none, is not read: part of its data lives
/// elsewhere.
pub proof fn law_a_child_is_not_read(text: Seq<char>, a: int, b: int, value: Seq<char>, f: Frame)
    requires
        line_at(text, a, b),
    ensures
        gives(text.subrange(a, b), "parentFileNameHint"@, value, f) && (forall|k: int|
            b <= k ==> !stands_at(text, "parentFileNameHint"@, k)) ==> descriptor_of(text) is Err,
        gives(text.subrange(a, b), "parentCID"@, value, f) && (forall|k: int|
            b <= k ==> !stands_at(text, "parentCID"@, k)) && !names_no_parent(value)
            ==> descriptor_of(text) is Err,
{
    lemma_create_type_key();
    if gives(text.subrange(a, b), "parentFileNameHint"@, value, f) && (forall|k: int|
        b <= k ==> !stands_at(text, "parentFileNameHint"@, k)) {
        law_the_last_line_counts(text, a, b, "parentFileNameHint"@, value, f);
        law_trimming_takes_the_ends(value, Trim::White, 0, value.len() as int);
    }
    if gives(text.subrange(a, b), "parentCID"@, value, f) && (forall|k: int|
        b <= k ==> !stands_at(text, "parentCID"@, k)) && !names_no_parent(value) {
        law_the_last_line_counts(text, a, b, "parentCID"@, value, f);
        lemma_parent_value(None, value);
    }
}

/// The words of an extent line, and the blanks between them.
pub struct ExtentWords {
    pub access: Seq<char>,
    pub sectors: Seq<char>,
    pub kind: Seq<char>,
    pub name: Seq<char>,
    pub gap1: Seq<char>,
    pub gap2: Seq<char>,
    pub gap3: Seq<char>,
}

/// Whether `s` is made of white space, and there is some.
pub open spec fn is_gap(s: Seq<char>) -> bool {
    s.len() > 0 && forall|k: int| 0 <= k < s.len() ==> is_white(#[trigger] s[k])
}

impl ExtentWords {
    /// Whether the words are those of an extent line: an access, a number of
    /// sectors, a kind and a name.
    pub open spec fn proper(&self) -> bool {
        &&& self.access == "RW"@ || self.access == "RDONLY"@ || self.access == "NOACCESS"@
        &&& is_number(self.sectors)
        &&& self.sectors.len() <= 19
        &&& is_word(self.kind)
        &&& is_word(self.name)
        &&& self.name[self.name.len() - 1] != '\0'
        &&& is_gap(self.gap1)
        &&& is_gap(self.gap2)
        &&& is_gap(self.gap3)
    }

    /// The line that they make.
    pub open spec fn line(&self) -> Seq<char> {
        self.access + self.gap1 + self.sectors + self.gap2 + self.kind + self.gap3 + self.name
    }

    /// What the line says.
    pub open spec fn says(&self) -> ExtentView {
        ExtentView {
            access: self.access,
            sectors: decimal_value(self.sectors) as u64,
            kind: self.kind,
            filename: trimmed(self.name, Trim::Quote),
        }
    }
}

/// An extent line says its access, its sectors, its kind and its name.
pub proof fn law_what_an_extent_line_says(x: ExtentWords)
    requires
        x.proper(),
    ensures
        extent_of(x.line()) == Some(x.says()),
        decimal_value(x.sectors) <= u64::MAX,
{
    reveal_strlit("RW");
    reveal_strlit("RDONLY");
    reveal_strlit("NOACCESS");
    let none = Seq::<char>::empty();
    let r3 = x.gap3 + x.name;
    let r2 = x.gap2 + x.kind + r3;
    let r1 = x.gap1 + x.sectors + r2;
    assert(x.line() =~= none + x.access + r1);
    assert(r1[0] == x.gap1[0] && r2[0] == x.gap2[0] && r3[0] == x.gap3[0]);
    assert(is_word(x.sectors)) by {
        assert forall|k: int| 0 <= k < x.sectors.len() implies !is_white(#[trigger] x.sectors[k]) by {
            assert('0' <= x.sectors[k] <= '9');
        }
    }
    law_the_first_word(none, x.access, r1);
    law_the_first_word(x.gap1, x.sectors, r2);
    law_the_first_word(x.gap2, x.kind, r3);
    assert(r3 =~= x.gap3 + x.name + none);
    law_the_first_word(x.gap3, x.name, none);
    law_digits_spell_a_number(x.sectors, '0');
}

/// Whether the first character of `line` that is not white space, if there
/// is one, is neither `R` nor `N`: no extent line begins so.
pub open spec fn no_extent(line: Seq<char>) -> bool {
    forall|k: int|
        0 <= k < line.len() && !is_white(#[trigger] line[k]) && (forall|j: int|
            0 <= j < k ==> is_white(#[trigger] line[j])) ==> line[k] != 'R' && line[k] != 'N'
}

proof fn lemma_no_extent(line: Seq<char>)
    requires
        no_extent(line),
    ensures
        extent_of(cleaned(line)) is None,
{
    reveal_strlit("RW");
    reveal_strlit("RDONLY");
    reveal_strlit("NOACCESS");
    let r = lemma_cleaned_stretch(line);
    let said = cleaned(line);
    if r.0 < r.1 {
        assert(said[0] == line[r.0]);
        assert(line[r.0] != 'R' && line[r.0] != 'N');
        let a = lemma_start_stretch(said, Trim::White);
        assert(a == 0);
        assert(said.subrange(0, said.len() as int) =~= said);
        crate::text::lemma_word_len(said);
        let n = word_len(said);
        assert(n > 0);
        assert(said.subrange(0, n)[0] == said[0]);
    } else {
        let a = lemma_start_stretch(said, Trim::White);
    }
}

proof fn lemma_extents_none(ls: Seq<Seq<char>>)
    requires
        forall|i: int| 0 <= i < ls.len() ==> no_extent(#[trigger] ls[i]),
    ensures
        extents_of(ls).len() == 0,
    decreases ls.len(),
{
    if ls.len() > 0 {
        let before = ls.drop_last();
        assert forall|i: int| 0 <= i < before.len() implies no_extent(#[trigger] before[i]) by {
            assert(before[i] == ls[i]);
        }
        lemma_extents_none(before);
        assert(no_extent(ls[ls.len() - 1]));
        lemma_no_extent(ls[ls.len() - 1]);
    }
}

proof fn lemma_extents_after(a: Seq<Seq<char>>, b: Seq<Seq<char>>)
    requires
        forall|i: int| 0 <= i < b.len() ==> no_extent(#[trigger] b[i]),
    ensures
        extents_of(a + b) == extents_of(a),
    decreases b.len(),
{
    if b.len() == 0 {
        assert(a + b =~= a);
    } else {
        let c = b.drop_last();
        assert forall|i: int| 0 <= i < c.len() implies no_extent(#[trigger] c[i]) by {
            assert(c[i] == b[i]);
        }
        lemma_extents_after(a, c);
        assert((a + b).drop_last() =~= a + c);
        assert((a + b).last() == b[b.len() - 1]);
        assert(no_extent(b[b.len() - 1]));
        lemma_no_extent(b[b.len() - 1]);
    }
}

/// Whether the line of `text` from `a` to `b` is the extent line `x`, and
/// its only one.
pub open spec fn one_extent(text: Seq<char>, a: int, b: int, x: ExtentWords, f: Frame) -> bool {
    &&& line_at(text, a, b)
    &&& x.proper()
    &&& f.proper()
    &&& text.subrange(a, b) == f.lead + x.line() + f.pad
    &&& forall|p: int, q: int| #[trigger] line_at(text, p, q) && p != a ==> no_extent(
        text.subrange(p, q),
    )
}

proof fn lemma_extent_cleaned(lead: Seq<char>, x: ExtentWords, pad: Seq<char>)
    requires
        x.proper(),
        is_blank(lead),
        is_pad(pad),
    ensures
        cleaned(lead + x.line() + pad) == x.line(),
        !skipped(x.line()),
{
    reveal_strlit("RW");
    reveal_strlit("RDONLY");
    reveal_strlit("NOACCESS");
    let l = x.line();
    assert(l[0] == x.access[0]);
    assert(l[l.len() - 1] == x.name[x.name.len() - 1]);
    assert(!is_white(x.name[x.name.len() - 1]));
    law_padding_does_not_count(lead, l, pad);
}

/// A text with one extent line describes one extent: what the line says.
pub proof fn law_one_extent_line_one_extent(
    text: Seq<char>,
    a: int,
    b: int,
    x: ExtentWords,
    f: Frame,
)
    requires
        one_extent(text, a, b, x, f),
    ensures
        extents_of(lines(text)) == seq![x.says()],
{
    law_a_text_is_its_lines(text, a, b);
    law_what_an_extent_line_says(x);
    lemma_extent_cleaned(f.lead, x, f.pad);
    let before = lines_before(text, a);
    let after = lines_after(text, b);
    let line = text.subrange(a, b);
    let rest = text.subrange(b + 1, text.len() as int);
    assert forall|i: int| 0 <= i < after.len() implies no_extent(#[trigger] after[i]) by {
        let r = lemma_line_is_a_stretch(rest, i);
        let (p, q) = (b + 1 + r.0, b + 1 + r.1);
        assert(rest.subrange(r.0, r.1) =~= text.subrange(p, q));
        assert forall|k: int| p <= k < q implies #[trigger] text[k] != '\n' by {
            assert(rest[k - b - 1] == text[k]);
        }
        assert(r.0 > 0 ==> rest[r.0 - 1] == text[p - 1]);
        assert(r.1 < rest.len() ==> rest[r.1] == text[q]);
        assert(line_at(text, p, q));
    }
    let front = text.subrange(0, a - 1);
    assert forall|i: int| 0 <= i < before.len() implies no_extent(#[trigger] before[i]) by {
        let r = lemma_line_is_a_stretch(front, i);
        assert(front.subrange(r.0, r.1) =~= text.subrange(r.0, r.1));
        assert forall|k: int| r.0 <= k < r.1 implies #[trigger] text[k] != '\n' by {
            assert(front[k] == text[k]);
        }
        assert(r.0 > 0 ==> front[r.0 - 1] == text[r.0 - 1]);
        assert(r.1 < front.len() ==> front[r.1] == text[r.1]);
        assert(line_at(text, r.0, r.1));
    }
    lemma_extents_none(before);
    lemma_extents_after(before + seq![line], after);
    assert((before + seq![line]).last() == line);
    assert((before + seq![line]).drop_last() =~= before);
    assert(extents_of(before) =~= Seq::<ExtentView>::empty());
    assert(extents_of(before + seq![line]) =~= seq![x.says()]);
}

/// Whether a text names no parent: it holds no file name hint, and no parent
/// identifier or, on the line from `a` to `b`, the one that stands for none.
pub open spec fn parentless(text: Seq<char>, a: int, b: int, value: Seq<char>, f: Frame) -> bool {
    &&& forall|k: int| !stands_at(text, "parentFileNameHint"@, k)
    &&& (forall|k: int| !stands_at(text, "parentCID"@, k)) || {
        &&& line_at(text, a, b)
        &&& gives(text.subrange(a, b), "parentCID"@, value, f)
        &&& names_no_parent(value)
        &&& forall|k: int| b <= k ==> !stands_at(text, "parentCID"@, k)
    }
}

/// Where the lines of a descriptor that is read stand.
pub struct Usual {
    pub type_at: (int, int),
    pub type_frame: Frame,
    pub extent_at: (int, int),
    pub extent: ExtentWords,
    pub extent_frame: Frame,
    pub parent_at: (int, int),
    pub parent: Seq<char>,
    pub parent_frame: Frame,
}

/// Whether `text` has the lines that `u` places: a create type of
/// `monolithicSparse`, one extent, and no parent. What else it says is of no
/// account.
pub open spec fn usual(text: Seq<char>, u: Usual) -> bool {
    &&& typed(text, u.type_at.0, u.type_at.1, "monolithicSparse"@, u.type_frame)
    &&& one_extent(text, u.extent_at.0, u.extent_at.1, u.extent, u.extent_frame)
    &&& parentless(text, u.parent_at.0, u.parent_at.1, u.parent, u.parent_frame)
}

/// Every usual descriptor is read, and says its create type and its extent.
pub proof fn law_usual_descriptors_are_read(text: Seq<char>, u: Usual)
    requires
        usual(text, u),
    ensures
        descriptor_of(text) == Ok::<DescriptorView, Error>(
            (DescriptorView {
                create_type: "monolithicSparse"@,
                extents: seq![u.extent.says()],
            }),
        ),
{
    lemma_create_type_key();
    law_the_last_line_counts(
        text,
        u.type_at.0,
        u.type_at.1,
        "createType"@,
        "monolithicSparse"@,
        u.type_frame,
    );
    law_one_extent_line_one_extent(
        text,
        u.extent_at.0,
        u.extent_at.1,
        u.extent,
        u.extent_frame,
    );
    law_an_absent_key_has_no_value(text, "parentFileNameHint"@);
    if forall|k: int| !stands_at(text, "parentCID"@, k) {
        law_an_absent_key_has_no_value(text, "parentCID"@);
    } else {
        let v = u.parent;
        law_the_last_line_counts(
            text,
            u.parent_at.0,
            u.parent_at.1,
            "parentCID"@,
            v,
            u.parent_frame,
        );
        lemma_parent_value(None, v);
    }
}

/// Whether the first character of `line` that is not white space is `#`.
pub open spec fn is_comment(line: Seq<char>, k: int) -> bool {
    &&& 0 <= k < line.len()
    &&& line[k] == '#'
    &&& forall|j: int| 0 <= j < k ==> is_white(#[trigger] line[j])
}

/// A comment says nothing: a text gives every key the value, and describes
/// the extents, that it would without the comment.
pub proof fn law_comments_say_nothing(text: Seq<char>, a: int, b: int, k: int, key: Seq<char>)
    requires
        line_at(text, a, b),
        is_comment(text.subrange(a, b), k),
    ensures
        last_value(lines(text), key) == last_value(lines_before(text, a) + lines_after(text, b), key),
        extents_of(lines(text)) == extents_of(lines_before(text, a) + lines_after(text, b)),
{
    law_a_text_is_its_lines(text, a, b);
    let line = text.subrange(a, b);
    let before = lines_before(text, a);
    let after = lines_after(text, b);
    let r = lemma_cleaned_stretch(line);
    assert(!is_white('#'));
    assert(r.0 <= k) by {
        if r.0 > k {
            assert(is_white(line[k]));
        }
    }
    assert(skipped(cleaned(line))) by {
        if r.0 < r.1 && r.0 < k {
            assert(is_white(line[r.0]));
        }
        if r.0 < r.1 {
            assert(cleaned(line)[0] == line[r.0]);
        }
    }
    lemma_skipped_line(before, line, after, key);
    assert(before + seq![line] + after =~= lines(text));
}

proof fn lemma_skipped_line(
    before: Seq<Seq<char>>,
    line: Seq<char>,
    after: Seq<Seq<char>>,
    key: Seq<char>,
)
    requires
        skipped(cleaned(line)),
    ensures
        last_value(before + seq![line] + after, key) == last_value(before + after, key),
        extents_of(before + seq![line] + after) == extents_of(before + after),
    decreases after.len(),
{
    let all = before + seq![line] + after;
    let some = before + after;
    if after.len() == 0 {
        assert(all.drop_last() =~= before);
        assert(some =~= before);
        assert(all.last() == line);
    } else {
        let less = after.drop_last();
        lemma_skipped_line(before, line, less, key);
        assert(all.drop_last() =~= before + seq![line] + less);
        assert(some.drop_last() =~= before + less);
        assert(all.last() == after.last() && some.last() == after.last());
    }
}

proof fn lemma_extents_of_parts(a: Seq<Seq<char>>, b: Seq<Seq<char>>)
    ensures
        extents_of(a + b) == extents_of(a) + extents_of(b),
    decreases b.len(),
{
    if b.len() == 0 {
        assert(a + b =~= a);
        assert(extents_of(a) + extents_of(b) =~= extents_of(a));
    } else {
        let c = b.drop_last();
        lemma_extents_of_parts(a, c);
        assert((a + b).drop_last() =~= a + c);
        assert((a + b).last() == b.last());
        assert(extents_of(a + b) =~= extents_of(a) + extents_of(b));
    }
}

/// Every extent line counts, in the order of the lines: a text describes the
/// extents before one, the one, and those after it.
pub proof fn law_every_extent_line_counts(
    text: Seq<char>,
    a: int,
    b: int,
    x: ExtentWords,
    f: Frame,
)
    requires
        line_at(text, a, b),
        x.proper(),
        f.proper(),
        text.subrange(a, b) == f.lead + x.line() + f.pad,
    ensures
        extents_of(lines(text)) == extents_of(lines_before(text, a)) + seq![x.says()] + extents_of(
            lines_after(text, b),
        ),
{
    law_a_text_is_its_lines(text, a, b);
    law_what_an_extent_line_says(x);
    lemma_extent_cleaned(f.lead, x, f.pad);
    let before = lines_before(text, a);
    let after = lines_after(text, b);
    let one = seq![text.subrange(a, b)];
    lemma_extents_of_parts(before + one, after);
    lemma_extents_of_parts(before, one);
    assert(one.drop_last() =~= Seq::<Seq<char>>::empty());
    assert(one.last() == text.subrange(a, b));
    assert(extents_of(one.drop_last()) =~= Seq::<ExtentView>::empty());
    assert(cleaned(one.last()) == x.line());
    assert(extents_of(one) =~= seq![x.says()]);
}

/// An extent line begins with one of three words, and the text that holds it
/// holds the word.
pub proof fn law_only_three_words_begin_an_extent(line: Seq<char>) -> (k: int)
    requires
        extent_of(line) is Some,
    ensures
        stands_at(line, "RW"@, k) || stands_at(line, "RDONLY"@, k) || stands_at(
            line,
            "NOACCESS"@,
            k,
        ),
        extent_of(line)->0.access == "RW"@ || extent_of(line)->0.access == "RDONLY"@ || extent_of(
            line,
        )->0.access == "NOACCESS"@,
        extent_of(line)->0.kind.len() > 0,
{
    let a = lemma_start_stretch(line, Trim::White);
    let t = trimmed_start(line, Trim::White);
    crate::text::lemma_word_len(t);
    let n = word_len(t);
    let w = t.subrange(0, n);
    assert(w =~= line.subrange(a, a + n));
    let (access, rest) = next_word(line)->0;
    let (sectors, rest2) = next_word(rest)->0;
    let u = trimmed_start(rest2, Trim::White);
    let b = lemma_start_stretch(rest2, Trim::White);
    crate::text::lemma_word_len(u);
    if word_len(u) == 0 {
        assert(is_white(u[0]));
        assert(u[0] == rest2[b]);
    }
    a
}

} // verus!
