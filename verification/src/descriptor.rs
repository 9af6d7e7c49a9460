//! Embedded text descriptor for monolithic sparse VMDK.
//!
//! The descriptor is plain text, key=value lines plus the extent
//! description. Three things matter here:
//!
//! - `createType="..."` must be `monolithicSparse`. Anything else is
//!   reported as [`Error::Unsupported`] so callers can fall back.
//! - The extent line: `RW <sectors> SPARSE "<filename>"`.
//! - The parent linkage: `parentFileNameHint` / `parentCID`. A snapshot
//!   delta or linked clone is `monolithicSparse` like any other image, so
//!   the parent linkage is the only thing that says the data isn't all
//!   here. See [`declares_parent`].
//!
//! `ddb.*` lines (geometry, etc.) are ignored.

use crate::error::{Error, Result};
use crate::text::{
    chars_of, decimal_u64, eq_ignore_ascii_case, find_char, first_index, is_white,
    lemma_first_index, lemma_word_len, lines, next_word, parse_decimal, same_ignoring_case,
    same_text, string_of, take_word, trim, trim_end, trimmed, trimmed_end, trimmed_start, word_len,
    Trim,
};
use vstd::prelude::*;
use vstd::slice::slice_subrange;

pub mod identifier;

verus! {

#[derive(Debug, Clone)]
pub struct Descriptor {
    pub create_type: String,
    pub extents: Vec<Extent>,
}

#[derive(Debug, Clone)]
pub struct Extent {
    pub access: String,
    pub sectors: u64,
    pub kind: String,
    pub filename: String,
}

/// What an extent line says.
#[verifier::ext_equal]
pub struct ExtentView {
    pub access: Seq<char>,
    pub sectors: u64,
    pub kind: Seq<char>,
    pub filename: Seq<char>,
}

/// What a descriptor says.
#[verifier::ext_equal]
pub struct DescriptorView {
    pub create_type: Seq<char>,
    pub extents: Seq<ExtentView>,
}

impl View for Extent {
    type V = ExtentView;

    open spec fn view(&self) -> ExtentView {
        ExtentView {
            access: self.access@,
            sectors: self.sectors,
            kind: self.kind@,
            filename: self.filename@,
        }
    }
}

impl View for Descriptor {
    type V = DescriptorView;

    open spec fn view(&self) -> DescriptorView {
        DescriptorView {
            create_type: self.create_type@,
            extents: self.extents@.map_values(|e: Extent| e@),
        }
    }
}

/// A line without the white space at its ends and the NULs that pad the
/// sector after it.
pub open spec fn cleaned(line: Seq<char>) -> Seq<char> {
    trimmed(
        trimmed_end(trimmed(line, Trim::White), Trim::Nul),
        Trim::White,
    )
}

/// Whether a cleaned line is blank or a comment.
pub open spec fn skipped(line: Seq<char>) -> bool {
    line.len() == 0 || line[0] == '#'
}

/// The value that `line` assigns to `key`, without white space and quotes
/// around it.
pub open spec fn assigned(line: Seq<char>, key: Seq<char>) -> Option<Seq<char>> {
    let i = first_index(line, '=');
    if i < line.len() && trimmed(line.subrange(0, i), Trim::White) == key {
        Some(
            trimmed(
                trimmed(line.subrange(i + 1, line.len() as int), Trim::White),
                Trim::Quote,
            ),
        )
    } else {
        None
    }
}

/// The value that the last line assigning to `key` gives it.
pub open spec fn last_value(lines: Seq<Seq<char>>, key: Seq<char>) -> Option<Seq<char>>
    decreases lines.len(),
{
    if lines.len() == 0 {
        None
    } else {
        let line = cleaned(lines.last());
        let here = if skipped(line) {
            None
        } else {
            assigned(line, key)
        };
        match here {
            Some(value) => Some(value),
            None => last_value(lines.drop_last(), key),
        }
    }
}

/// The extent that a line of the form `RW 2048 SPARSE "image.vmdk"`
/// describes.
pub open spec fn extent_of(line: Seq<char>) -> Option<ExtentView> {
    match next_word(line) {
        Some((access, rest)) => if access == "RW"@ || access == "RDONLY"@ || access
            == "NOACCESS"@ {
            match next_word(rest) {
                Some((sectors, rest)) => match next_word(rest) {
                    Some((kind, rest)) => match next_word(rest) {
                        Some((filename, rest)) => match decimal_u64(sectors) {
                            Some(n) => Some(
                                ExtentView {
                                    access,
                                    sectors: n,
                                    kind,
                                    filename: trimmed(filename, Trim::Quote),
                                },
                            ),
                            None => None,
                        },
                        None => None,
                    },
                    None => None,
                },
                None => None,
            }
        } else {
            None
        },
        None => None,
    }
}

/// The extents that `lines` describe, in order.
pub open spec fn extents_of(lines: Seq<Seq<char>>) -> Seq<ExtentView>
    decreases lines.len(),
{
    if lines.len() == 0 {
        Seq::empty()
    } else {
        let line = cleaned(lines.last());
        let before = extents_of(lines.drop_last());
        match extent_of(line) {
            Some(extent) => if skipped(line) {
                before
            } else {
                before.push(extent)
            },
            None => before,
        }
    }
}

/// `s` without a leading `0x` or `0X`.
pub open spec fn without_hex_prefix(s: Seq<char>) -> Seq<char> {
    if s.len() >= 2 && s[0] == '0' && (s[1] == 'x' || s[1] == 'X') {
        s.subrange(2, s.len() as int)
    } else {
        s
    }
}

/// Whether a parent file name hint and a parent content identifier name a
/// parent.
pub open spec fn parent_declared(hint: Option<Seq<char>>, cid: Option<Seq<char>>) -> bool {
    ||| match hint {
        Some(h) => trimmed(h, Trim::White).len() > 0,
        None => false,
    }
    ||| match cid {
        Some(c) => {
            let digits = without_hex_prefix(trimmed(c, Trim::White));
            digits.len() > 0 && !same_ignoring_case(digits, NO_PARENT_CID@)
        },
        None => false,
    }
}

/// The stable name of a create type that is refused.
pub open spec fn refused_name(create_type: Seq<char>) -> &'static str {
    if create_type == "monolithicFlat"@ {
        "monolithicFlat"
    } else if create_type == "twoGbMaxExtentSparse"@ {
        "twoGbMaxExtentSparse"
    } else if create_type == "twoGbMaxExtentFlat"@ {
        "twoGbMaxExtentFlat"
    } else if create_type == "vmfs"@ {
        "vmfs"
    } else if create_type == "vmfsSparse"@ {
        "vmfsSparse"
    } else if create_type == "streamOptimized"@ {
        "streamOptimized"
    } else if create_type == "fullDevice"@ {
        "fullDevice"
    } else if create_type == "partitionedDevice"@ {
        "partitionedDevice"
    } else {
        "unknown createType"
    }
}

/// What parsing a descriptor text gives: what it says, or why it is
/// refused.
pub open spec fn descriptor_of(text: Seq<char>) -> Result<DescriptorView> {
    let lines = lines(text);
    match last_value(lines, "createType"@) {
        None => Err(Error::Corrupt("descriptor missing createType")),
        Some(create_type) => if create_type != "monolithicSparse"@ {
            Err(Error::Unsupported(refused_name(create_type)))
        } else if parent_declared(
            last_value(lines, "parentFileNameHint"@),
            last_value(lines, "parentCID"@),
        ) {
            Err(Error::Unsupported(DELTA_UNSUPPORTED))
        } else {
            Ok(DescriptorView { create_type, extents: extents_of(lines) })
        },
    }
}

/// The `parentCID` every standalone disk carries: the sentinel meaning
/// "no parent". Any other value names a parent this reader cannot reach.
pub const NO_PARENT_CID: &'static str = "ffffffff";

/// What [`Error::Unsupported`] says about a delta. The error type carries
/// `&'static str`, so the filename can't be interpolated: the message
/// instead names the fields to look at and the capability that is missing.
pub const DELTA_UNSUPPORTED: &'static str =
    "delta/child disk — the descriptor names a parent (parentFileNameHint/parentCID), so part of the data lives in the parent chain; reading it needs parent-chain following, which this crate does not implement";

spec fn text_of(o: Option<String>) -> Option<Seq<char>> {
    match o {
        Some(s) => Some(s@),
        None => None,
    }
}

/// Trimming leaves no character of the set at the front, and keeps the
/// first character that is not in it.
proof fn lemma_trimmed_front(s: Seq<char>, set: Trim)
    ensures
        trimmed_start(s, set).len() > 0 ==> !set.has(
            trimmed_start(s, set)[0],
        ),
    decreases s.len(),
{
    if s.len() > 0 && set.has(s[0]) {
        lemma_trimmed_front(s.subrange(1, s.len() as int), set);
    }
}

proof fn lemma_trimmed_end_prefix(s: Seq<char>, set: Trim)
    ensures
        trimmed_end(s, set).len() <= s.len(),
        forall|k: int|
            0 <= k < trimmed_end(s, set).len() ==> trimmed_end(
                s,
                set,
            )[k] == s[k],
        s.len() > 0 && !set.has(s[0]) ==> trimmed_end(s, set).len() > 0,
    decreases s.len(),
{
    if s.len() > 0 && set.has(s[s.len() - 1]) {
        let t = s.subrange(0, s.len() - 1);
        lemma_trimmed_end_prefix(t, set);
        assert forall|k: int| 0 <= k < trimmed_end(
            s,
            set,
        ).len() implies trimmed_end(s, set)[k] == s[k] by {
            assert(trimmed_end(t, set)[k] == t[k]);
        }
    }
}

/// A cleaned line that assigns to one of the keys is no extent line, and
/// assigns to no other key.
proof fn lemma_assignment_is_no_extent(raw: Seq<char>, key: Seq<char>)
    requires
        key.len() > 0,
        key[0] != 'R' && key[0] != 'N',
        assigned(cleaned(raw), key) is Some,
    ensures
        extent_of(cleaned(raw)) is None,
{
    reveal_strlit("RW");
    reveal_strlit("RDONLY");
    reveal_strlit("NOACCESS");
    let inner = trimmed_end(trimmed(raw, Trim::White), Trim::Nul);
    let line = cleaned(raw);
    let front = trimmed_start(inner, Trim::White);
    lemma_trimmed_front(inner, Trim::White);
    lemma_trimmed_end_prefix(front, Trim::White);
    let i = first_index(line, '=');
    lemma_first_index(line, '=');
    assert(line.len() > 0);
    assert(!is_white(line[0]));
    let k = line.subrange(0, i);
    assert(trimmed(k, Trim::White) == key);
    if i > 0 {
        assert(k[0] == line[0]);
        assert(trimmed_start(k, Trim::White) == k);
        lemma_trimmed_end_prefix(k, Trim::White);
        assert(key[0] == line[0]);
    }
    assert(i > 0);
    assert(trimmed_start(line, Trim::White) == line);
    lemma_word_len(line);
    let n = word_len(line);
    assert(n > 0);
    assert(line.subrange(0, n)[0] == line[0]);
}

impl Descriptor {
    /// Parse the descriptor text (NUL-padded okay). Reject anything the
    /// reader cannot serve truthfully, a `createType` other than
    /// `monolithicSparse` or a descriptor that declares a parent, so the
    /// caller gets [`Error::Unsupported`] and can fall back.
    pub fn parse(text: &str) -> (r: Result<Self>)
        ensures
            match r {
                Ok(d) => descriptor_of(text@) == Ok::<DescriptorView, Error>(d@),
                Err(e) => descriptor_of(text@) == Err::<DescriptorView, Error>(e),
            },
    {
        proof {
            reveal_strlit("createType");
            reveal_strlit("parentFileNameHint");
            reveal_strlit("parentCID");
        }
        let chars: Vec<char> = chars_of(text);
        let mut rest: &[char] = chars.as_slice();
        let mut create_type: Option<String> = None;
        let mut parent_file_name_hint: Option<String> = None;
        let mut parent_cid: Option<String> = None;
        let mut extents: Vec<Extent> = Vec::new();
        let mut at_end: bool = false;
        let ghost mut seen: Seq<Seq<char>> = Seq::empty();
        assert(seen + lines(text@) =~= lines(text@));
        assert(extents@.map_values(|e: Extent| e@) =~= extents_of(seen));
        while !at_end
            invariant
                "createType"@.len() == 10 && "createType"@[0] == 'c',
                "parentFileNameHint"@.len() == 18 && "parentFileNameHint"@[0] == 'p',
                "parentCID"@.len() == 9 && "parentCID"@[0] == 'p',
                !at_end ==> lines(text@) == seen + lines(rest@),
                at_end ==> lines(text@) == seen,
                text_of(create_type) == last_value(seen, "createType"@),
                text_of(parent_file_name_hint) == last_value(seen, "parentFileNameHint"@),
                text_of(parent_cid) == last_value(seen, "parentCID"@),
                extents@.map_values(|e: Extent| e@) == extents_of(seen),
            decreases (if at_end { 0nat } else { rest@.len() + 1 }),
        {
            let n: usize = rest.len();
            let i: usize = find_char(rest, '\n');
            let raw: &[char] = slice_subrange(rest, 0, i);
            let ghost before = seen;
            proof {
                seen = before.push(raw@);
                assert(seen.drop_last() =~= before);
                if i < n {
                    assert(before + lines(rest@) =~= seen + lines(
                        rest@.subrange(i + 1, n as int),
                    ));
                } else {
                    assert(rest@.subrange(0, n as int) =~= rest@);
                    assert(before + lines(rest@) =~= seen);
                }
            }
            if i < n {
                rest = slice_subrange(rest, i + 1, n);
            } else {
                at_end = true;
            }

            // Strip trailing NULs (descriptor is sector-padded).
            let line: &[char] = trim(trim_end(trim(raw, Trim::White), Trim::Nul), Trim::White);
            assert(line@ == cleaned(raw@));
            if line.len() == 0 || line[0] == '#' {
                // Blank or a comment.
            } else if let Some(value) = parse_kv(line, "createType") {
                proof {
                    lemma_assignment_is_no_extent(raw@, "createType"@);
                }
                create_type = Some(value);
            } else if let Some(value) = parse_kv(line, "parentFileNameHint") {
                proof {
                    lemma_assignment_is_no_extent(raw@, "parentFileNameHint"@);
                }
                parent_file_name_hint = Some(value);
            } else if let Some(value) = parse_kv(line, "parentCID") {
                proof {
                    lemma_assignment_is_no_extent(raw@, "parentCID"@);
                }
                parent_cid = Some(value);
            } else if let Some(extent) = parse_extent(line) {
                // Extent line: starts with RW / RDONLY / NOACCESS.
                let ghost old_extents = extents@;
                extents.push(extent);
                assert(extents@.map_values(|e: Extent| e@) =~= old_extents.map_values(
                    |e: Extent| e@,
                ).push(extent@));
            }
            // Everything else (ddb.*, encoding, version, own CID, ...) is ignored.
        }

        let create_type: String = match create_type {
            Some(t) => t,
            None => return Err(Error::Corrupt("descriptor missing createType")),
        };
        let chars: Vec<char> = chars_of(create_type.as_str());
        if !same_text(chars.as_slice(), "monolithicSparse") {
            return Err(Error::Unsupported(refusal_name(chars.as_slice())));
        }
        // A delta gets this far because it is monolithicSparse. Its data
        // is split between this file and the parent chain, and only this
        // file is in sight, so opening it would serve zeros for everything
        // the parent still owns.
        if declares_parent(&parent_file_name_hint, &parent_cid) {
            return Err(Error::Unsupported(DELTA_UNSUPPORTED));
        }
        Ok(Descriptor { create_type, extents })
    }
}

/// Map known variants to a stable message so callers can log.
fn refusal_name(create_type: &[char]) -> (r: &'static str)
    ensures
        r == refused_name(create_type@),
{
    if same_text(create_type, "monolithicFlat") {
        "monolithicFlat"
    } else if same_text(create_type, "twoGbMaxExtentSparse") {
        "twoGbMaxExtentSparse"
    } else if same_text(create_type, "twoGbMaxExtentFlat") {
        "twoGbMaxExtentFlat"
    } else if same_text(create_type, "vmfs") {
        "vmfs"
    } else if same_text(create_type, "vmfsSparse") {
        "vmfsSparse"
    } else if same_text(create_type, "streamOptimized") {
        "streamOptimized"
    } else if same_text(create_type, "fullDevice") {
        "fullDevice"
    } else if same_text(create_type, "partitionedDevice") {
        "partitionedDevice"
    } else {
        "unknown createType"
    }
}

/// Whether the descriptor says this image is a snapshot delta or linked
/// clone: it names a parent file, or carries a `parentCID` other than the
/// [`NO_PARENT_CID`] sentinel. Absent or empty values mean standalone, and
/// so does a `0x`-prefixed spelling of the sentinel: a false positive here
/// would refuse a perfectly ordinary disk.
fn declares_parent(hint: &Option<String>, cid: &Option<String>) -> (r: bool)
    ensures
        r == parent_declared(text_of(*hint), text_of(*cid)),
{
    let names_a_parent_file: bool = match hint {
        Some(h) => {
            let h: Vec<char> = chars_of(h.as_str());
            trim(h.as_slice(), Trim::White).len() > 0
        },
        None => false,
    };
    let carries_a_child_cid: bool = match cid {
        Some(c) => {
            let c: Vec<char> = chars_of(c.as_str());
            let c: &[char] = trim(c.as_slice(), Trim::White);
            let digits: &[char] = if c.len() >= 2 && c[0] == '0' && (c[1] == 'x' || c[1] == 'X') {
                slice_subrange(c, 2, c.len())
            } else {
                c
            };
            digits.len() > 0 && !eq_ignore_ascii_case(digits, NO_PARENT_CID)
        },
        None => false,
    };
    names_a_parent_file || carries_a_child_cid
}

/// Match `key="value"` (or `key=value`) and return the value if `key`
/// matches.
fn parse_kv(line: &[char], key: &str) -> (r: Option<String>)
    ensures
        text_of(r) == assigned(line@, key@),
{
    let i: usize = find_char(line, '=');
    if i >= line.len() {
        return None;
    }
    if !same_text(trim(slice_subrange(line, 0, i), Trim::White), key) {
        return None;
    }
    let value: &[char] = trim(slice_subrange(line, i + 1, line.len()), Trim::White);
    Some(string_of(trim(value, Trim::Quote)))
}

/// Parse `RW 2048 SPARSE "image.vmdk"` style line.
pub fn parse_extent(line: &[char]) -> (r: Option<Extent>)
    ensures
        match r {
            Some(e) => extent_of(line@) == Some(e@),
            None => extent_of(line@) is None,
        },
{
    let (access, rest): (&[char], &[char]) = match take_word(line) {
        Some(w) => w,
        None => return None,
    };
    if !same_text(access, "RW") && !same_text(access, "RDONLY") && !same_text(access, "NOACCESS") {
        return None;
    }
    let (sectors, rest): (&[char], &[char]) = match take_word(rest) {
        Some(w) => w,
        None => return None,
    };
    let (kind, rest): (&[char], &[char]) = match take_word(rest) {
        Some(w) => w,
        None => return None,
    };
    let (filename, _rest): (&[char], &[char]) = match take_word(rest) {
        Some(w) => w,
        None => return None,
    };
    let sectors: u64 = match parse_decimal(sectors) {
        Some(n) => n,
        None => return None,
    };
    Some(
        Extent {
            access: string_of(access),
            sectors,
            kind: string_of(kind),
            filename: string_of(trim(filename, Trim::Quote)),
        },
    )
}

} // verus!
