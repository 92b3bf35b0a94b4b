//! Content-search matches and the line handling around them.

use vstd::prelude::*;
use vstd::utf8::{encode_utf8, encode_scalar, has_width_1_encoding, has_width_2_encoding, has_width_3_encoding, has_width_4_encoding};
use crate::types::FileItem;
use crate::sort::{Rank, rank_order, lemma_rank_order, sort_ranks};
use vstd::string::{StringSliceAdditionalSpecFns, StrSliceExecFns};

verus! {

broadcast use vstd::seq_lib::group_to_multiset_ensures;

/// One matching line of a content search.
pub struct GrepMatch {
    /// Index of the match's file in the file list that accompanies the matches.
    pub file_index: usize,
    /// 1-based line number.
    pub line_number: u64,
    /// Byte column of the first highlighted range.
    pub col: usize,
    /// Byte offset of the line from the start of the file.
    pub byte_offset: u64,
    /// The matched line as displayed.
    pub line_content: String,
    /// Highlighted byte ranges `(start, end)` within `line_content`.
    pub match_byte_offsets: Vec<(u32, u32)>,
    /// Fuzzy score, for fuzzy searches.
    pub fuzzy_score: Option<u16>,
    /// Whether the line defines a symbol (a function, type, ...).
    pub is_definition: bool,
    /// Whether the line is an import statement.
    pub is_import: bool,
    /// Lines just before the match.
    pub context_before: Vec<String>,
    /// Lines just after the match.
    pub context_after: Vec<String>,
}

/// The characters of each string.
pub open spec fn views(v: Seq<String>) -> Seq<Seq<char>> {
    v.map_values(|s: String| s@)
}

impl GrepMatch {
    /// Field-by-field equality, strings and lists compared by content.
    pub open spec fn same(self, other: GrepMatch) -> bool {
        &&& self.file_index == other.file_index
        &&& self.line_number == other.line_number
        &&& self.col == other.col
        &&& self.byte_offset == other.byte_offset
        &&& self.line_content@ == other.line_content@
        &&& self.match_byte_offsets@ == other.match_byte_offsets@
        &&& self.fuzzy_score == other.fuzzy_score
        &&& self.is_definition == other.is_definition
        &&& self.is_import == other.is_import
        &&& views(self.context_before@) == views(other.context_before@)
        &&& views(self.context_after@) == views(other.context_after@)
    }

    /// A copy of this match.
    pub fn duplicate(&self) -> (r: GrepMatch)
        ensures
            r.same(*self),
    {
        GrepMatch {
            file_index: self.file_index,
            line_number: self.line_number,
            col: self.col,
            byte_offset: self.byte_offset,
            line_content: self.line_content.clone(),
            match_byte_offsets: copy_ranges(&self.match_byte_offsets),
            fuzzy_score: self.fuzzy_score,
            is_definition: self.is_definition,
            is_import: self.is_import,
            context_before: copy_strings(&self.context_before),
            context_after: copy_strings(&self.context_after),
        }
    }
}

/// A copy of a list of byte ranges.
pub fn copy_ranges(v: &Vec<(u32, u32)>) -> (r: Vec<(u32, u32)>)
    ensures
        r@ == v@,
{
    let mut out: Vec<(u32, u32)> = Vec::new();
    let mut i: usize = 0;
    while i < v.len()
        invariant
            i <= v@.len(),
            out@ == v@.take(i as int),
        decreases v@.len() - i,
    {
        out.push(v[i]);
        proof {
            assert(v@.take(i + 1) =~= v@.take(i as int).push(v@[i as int]));
        }
        i = i + 1;
    }
    proof {
        assert(v@.take(i as int) =~= v@);
    }
    out
}

/// A copy of a list of strings.
pub fn copy_strings(v: &Vec<String>) -> (r: Vec<String>)
    ensures
        views(r@) == views(v@),
{
    let mut out: Vec<String> = Vec::new();
    let mut i: usize = 0;
    while i < v.len()
        invariant
            i <= v@.len(),
            out@.len() == i,
            views(out@) == views(v@.take(i as int)),
        decreases v@.len() - i,
    {
        let s = v[i].clone();
        assert(s@ == v@[i as int]@);
        let ghost before = out@;
        out.push(s);
        proof {
            let pre = v@.take(i as int);
            let next = v@.take(i + 1);
            assert(next =~= pre.push(v@[i as int]));
            assert forall|j: int| 0 <= j < i + 1 implies #[trigger] views(out@)[j] == views(next)[j] by {
                if j < i {
                    assert(views(before)[j] == views(pre)[j]);
                    assert(out@[j] == before[j]);
                } else {
                    assert(out@[j] == s);
                }
            }
            assert(views(out@) =~= views(next));
        }
        i = i + 1;
    }
    proof {
        assert(v@.take(i as int) =~= v@);
    }
    out
}

/// `needle` occurs in `hay` at `i`.
pub open spec fn occurs_at(hay: Seq<u8>, needle: Seq<u8>, i: int) -> bool {
    0 <= i && i + needle.len() <= hay.len() && hay.subrange(i, i + needle.len()) == needle
}

/// `memchr::memchr2`: the first index of `hay` holding `a` or `b`.
#[verifier::external_body]
fn memchr2(a: u8, b: u8, hay: &[u8]) -> (r: Option<usize>)
    ensures
        match r {
            Some(i) => i < hay@.len() && (hay@[i as int] == a || hay@[i as int] == b)
                && forall|j: int| 0 <= j < i ==> hay@[j] != a && hay@[j] != b,
            None => forall|j: int| 0 <= j < hay@.len() ==> hay@[j] != a && hay@[j] != b,
        },
{
    memchr::memchr2(a, b, hay)
}

/// `memchr::memmem::find`: the first index at which `needle` occurs in
/// `hay` (0 for an empty needle).
#[verifier::external_body]
fn memmem_find(hay: &[u8], needle: &[u8]) -> (r: Option<usize>)
    ensures
        match r {
            Some(i) => occurs_at(hay@, needle@, i as int) && forall|j: int| 0 <= j < i ==> !occurs_at(hay@, needle@, j),
            None => forall|j: int| !occurs_at(hay@, needle@, j),
        },
{
    memchr::memmem::find(hay, needle)
}

/// ASCII lowercase of a byte.
pub open spec fn lower(b: u8) -> u8 {
    if 65 <= b <= 90 {
        (b + 32) as u8
    } else {
        b
    }
}

/// ASCII uppercase of a byte.
pub open spec fn upper(b: u8) -> u8 {
    if 97 <= b <= 122 {
        (b - 32) as u8
    } else {
        b
    }
}

fn to_lower(b: u8) -> (r: u8)
    ensures
        r == lower(b),
{
    if 65 <= b && b <= 90 { b + 32 } else { b }
}

fn to_upper(b: u8) -> (r: u8)
    ensures
        r == upper(b),
{
    if 97 <= b && b <= 122 { b - 32 } else { b }
}

/// A case-insensitive match of `needle` (already lowercase) at `p`: the
/// first byte is the needle's first byte in either case, and every byte
/// lowercases to the needle's.
pub open spec fn ci_match_at(hay: Seq<u8>, needle: Seq<u8>, p: int) -> bool {
    &&& 0 <= p
    &&& p + needle.len() <= hay.len()
    &&& (hay[p] == needle[0] || hay[p] == upper(needle[0]))
    &&& forall|k: int| 0 <= k < needle.len() ==> #[trigger] lower(hay[p + k]) == needle[k]
}

/// First position of an ASCII case-insensitive match of `needle_lower` in
/// `haystack`: 0 for an empty needle, `None` when there is none.
pub fn ascii_case_insensitive_find(haystack: &[u8], needle_lower: &[u8]) -> (r: Option<usize>)
    ensures
        needle_lower@.len() == 0 ==> r == Some(0usize),
        needle_lower@.len() > 0 ==> match r {
            Some(p) => ci_match_at(haystack@, needle_lower@, p as int)
                && forall|q: int| 0 <= q < p ==> !ci_match_at(haystack@, needle_lower@, q),
            None => forall|q: int| !ci_match_at(haystack@, needle_lower@, q),
        },
{
    let n = needle_lower.len();
    if n == 0 {
        return Some(0);
    }
    if haystack.len() < n {
        return None;
    }
    let first = needle_lower[0];
    let first_upper = to_upper(first);
    let mut start: usize = 0;
    while start < haystack.len()
        invariant
            start <= haystack@.len(),
            1 <= n == needle_lower@.len() <= haystack@.len(),
            first == needle_lower@[0],
            first_upper == upper(first),
            forall|q: int| 0 <= q < start ==> !ci_match_at(haystack@, needle_lower@, q),
        decreases haystack@.len() - start,
    {
        let (_, rest) = haystack.split_at(start);
        match memchr2(first, first_upper, rest) {
            None => {
                proof {
                    assert forall|q: int| start <= q < haystack@.len() implies !ci_match_at(haystack@, needle_lower@, q) by {
                        assert(rest@[q - start] == haystack@[q]);
                    }
                }
                return None;
            },
            Some(off) => {
                let pos = start + off;
                proof {
                    assert forall|q: int| start <= q < pos implies !ci_match_at(haystack@, needle_lower@, q) by {
                        assert(rest@[q - start] == haystack@[q]);
                    }
                    assert(haystack@[pos as int] == rest@[off as int]);
                }
                if n > haystack.len() - pos {
                    return None;
                }
                let hl = haystack.len();
                let mut k: usize = 0;
                let mut ok = true;
                while k < n
                    invariant
                        k <= n == needle_lower@.len(),
                        hl == haystack@.len(),
                        pos + n <= haystack@.len(),
                        ok == forall|t: int| 0 <= t < k ==> #[trigger] lower(haystack@[pos + t]) == needle_lower@[t],
                    decreases n - k,
                {
                    if to_lower(haystack[pos + k]) != needle_lower[k] {
                        ok = false;
                    }
                    k = k + 1;
                }
                if ok {
                    return Some(pos);
                }
                start = pos + 1;
            },
        }
    }
    None
}

/// A byte that starts a character (not a UTF-8 continuation byte).
pub open spec fn starts_char(b: u8) -> bool {
    !(128 <= b < 192)
}

/// Whether byte `b` starts a character.
pub fn is_utf8_char_boundary(b: u8) -> (r: bool)
    ensures
        r == starts_char(b),
{
    b < 128 || b >= 192
}

/// Longest display width of a matched line, in bytes.
pub const MAX_LINE_DISPLAY_LEN: usize = 512;

/// `b` without trailing newline and carriage-return bytes.
pub open spec fn trim_line_end(b: Seq<u8>) -> Seq<u8>
    decreases b.len(),
{
    if b.len() > 0 && (b.last() == 10u8 || b.last() == 13u8) {
        trim_line_end(b.drop_last())
    } else {
        b
    }
}

/// The largest `e <= end` at which `b[e]` starts a character (0 if none).
pub open spec fn floor_start(b: Seq<u8>, end: int) -> int
    decreases end,
{
    if end <= 0 {
        0
    } else if starts_char(b[end]) {
        end
    } else {
        floor_start(b, end - 1)
    }
}

/// The displayed part of a matched line: trailing line terminators
/// removed, and a line longer than [`MAX_LINE_DISPLAY_LEN`] cut at the last
/// character start at or before that width.
pub open spec fn display_line(b: Seq<u8>) -> Seq<u8> {
    let t = trim_line_end(b);
    if t.len() > MAX_LINE_DISPLAY_LEN {
        t.take(floor_start(t, MAX_LINE_DISPLAY_LEN as int))
    } else {
        t
    }
}

proof fn lemma_trim_line_end_prefix(b: Seq<u8>)
    ensures
        trim_line_end(b).len() <= b.len(),
        trim_line_end(b) == b.take(trim_line_end(b).len() as int),
    decreases b.len(),
{
    if b.len() > 0 && (b.last() == 10u8 || b.last() == 13u8) {
        lemma_trim_line_end_prefix(b.drop_last());
        assert(b.drop_last().take(trim_line_end(b).len() as int) =~= b.take(trim_line_end(b).len() as int));
    } else {
        assert(b.take(b.len() as int) =~= b);
    }
}

proof fn lemma_floor_start_range(b: Seq<u8>, end: int)
    ensures
        end >= 0 ==> 0 <= floor_start(b, end) <= end,
    decreases end,
{
    if end > 0 && !starts_char(b[end]) {
        lemma_floor_start_range(b, end - 1);
    }
}

/// The displayed part of a matched line (see [`display_line`]) and its length.
pub fn prepare_line(line_bytes: &[u8]) -> (r: (&[u8], u32))
    ensures
        r.0@ == display_line(line_bytes@),
        r.1 as int == r.0@.len(),
{
    let mut len = line_bytes.len();
    let ghost b = line_bytes@;
    proof {
        lemma_trim_line_end_prefix(b);
        assert(b.take(len as int) =~= b);
    }
    while len > 0 && (line_bytes[len - 1] == 10u8 || line_bytes[len - 1] == 13u8)
        invariant
            len <= b.len(),
            b == line_bytes@,
            trim_line_end(b) == trim_line_end(b.take(len as int)),
        decreases len,
    {
        proof {
            assert(b.take(len as int).drop_last() =~= b.take(len - 1));
        }
        len = len - 1;
    }
    let ghost t = b.take(len as int);
    proof {
        assert(trim_line_end(t) == t);
    }
    let (trimmed, _) = line_bytes.split_at(len);
    assert(trimmed@ =~= t);
    if len > MAX_LINE_DISPLAY_LEN {
        let mut end = MAX_LINE_DISPLAY_LEN;
        while end > 0 && !is_utf8_char_boundary(trimmed[end])
            invariant
                end <= MAX_LINE_DISPLAY_LEN < trimmed@.len(),
                trimmed@ == t,
                floor_start(t, end as int) == floor_start(t, MAX_LINE_DISPLAY_LEN as int),
            decreases end,
        {
            end = end - 1;
        }
        let (shown, _) = trimmed.split_at(end);
        proof {
            assert(shown@ =~= t.take(floor_start(t, MAX_LINE_DISPLAY_LEN as int)));
        }
        (shown, end as u32)
    } else {
        (trimmed, len as u32)
    }
}

/// Occurrence positions of `n` in `t` at or after `from`, in order.
pub open spec fn occ_from(t: Seq<u8>, n: Seq<u8>, from: int) -> Seq<int>
    decreases t.len() - from,
{
    if from >= t.len() || from < 0 {
        seq![]
    } else if occurs_at(t, n, from) {
        seq![from] + occ_from(t, n, from + 1)
    } else {
        occ_from(t, n, from + 1)
    }
}

proof fn lemma_occ_skip(t: Seq<u8>, n: Seq<u8>, from: int, to: int)
    requires
        0 <= from <= to,
        forall|j: int| from <= j < to ==> !occurs_at(t, n, j),
    ensures
        occ_from(t, n, from) == occ_from(t, n, to),
    decreases to - from,
{
    if from < to && from < t.len() {
        lemma_occ_skip(t, n, from + 1, to);
    } else if from < to {
        lemma_occ_none(t, n, to);
    }
}

proof fn lemma_occ_none(t: Seq<u8>, n: Seq<u8>, from: int)
    requires
        from >= t.len(),
    ensures
        occ_from(t, n, from) == Seq::<int>::empty(),
{
}

/// The text a plain-text search highlights in: the displayed line,
/// lowercased (to at most [`MAX_LINE_DISPLAY_LEN`] bytes) for a
/// case-insensitive search.
pub open spec fn highlight_text(display: Seq<u8>, case_insensitive: bool) -> Seq<u8> {
    if case_insensitive {
        display.take(if display.len() < MAX_LINE_DISPLAY_LEN { display.len() as int } else { MAX_LINE_DISPLAY_LEN as int }).map_values(|b: u8| lower(b))
    } else {
        display
    }
}

/// The highlight of a match starting at `p`: `pattern_len` bytes, cut at
/// the end of the line.
pub open spec fn highlight(p: int, pattern_len: int, display_len: int) -> (int, int) {
    (p, if p + pattern_len < display_len { p + pattern_len } else { display_len })
}

/// Byte ranges as integers.
pub open spec fn ranges_int(v: Seq<(u32, u32)>) -> Seq<(int, int)> {
    v.map_values(|x: (u32, u32)| (x.0 as int, x.1 as int))
}

/// Highlight ranges of every (possibly overlapping) occurrence of the
/// needle in a displayed line, and the column of the first one (0 when
/// none).
pub open spec fn plain_highlights_spec(display: Seq<u8>, needle: Seq<u8>, case_insensitive: bool, pattern_len: int) -> (Seq<(int, int)>, int) {
    let occ = occ_from(highlight_text(display, case_insensitive), needle, 0);
    (
        occ.map_values(|p: int| highlight(p, pattern_len, display.len() as int)),
        if occ.len() > 0 { occ[0] } else { 0 },
    )
}

/// Highlights of a plain-text match in a displayed line (see
/// [`plain_highlights_spec`]).
pub fn plain_highlights(display: &[u8], needle: &[u8], case_insensitive: bool, pattern_len: u32) -> (r: (Vec<(u32, u32)>, usize))
    requires
        needle@.len() > 0,
        display@.len() + pattern_len <= u32::MAX,
    ensures
        ranges_int(r.0@) == plain_highlights_spec(display@, needle@, case_insensitive, pattern_len as int).0,
        r.1 as int == plain_highlights_spec(display@, needle@, case_insensitive, pattern_len as int).1,
{
    let mut text: Vec<u8> = Vec::new();
    if case_insensitive {
        let len = if display.len() < MAX_LINE_DISPLAY_LEN { display.len() } else { MAX_LINE_DISPLAY_LEN };
        let mut i: usize = 0;
        while i < len
            invariant
                i <= len <= display@.len(),
                text@ == display@.take(i as int).map_values(|b: u8| lower(b)),
            decreases len - i,
        {
            text.push(to_lower(display[i]));
            proof {
                assert(text@ =~= display@.take(i + 1).map_values(|b: u8| lower(b)));
            }
            i = i + 1;
        }
    } else {
        let mut i: usize = 0;
        while i < display.len()
            invariant
                i <= display@.len(),
                text@ == display@.take(i as int),
            decreases display@.len() - i,
        {
            text.push(display[i]);
            proof {
                assert(text@ =~= display@.take(i + 1));
            }
            i = i + 1;
        }
        proof {
            assert(display@.take(i as int) =~= display@);
        }
    }
    let ghost t = text@;
    assert(t == highlight_text(display@, case_insensitive));
    let display_len = display.len() as u32;
    let mut out: Vec<(u32, u32)> = Vec::new();
    let mut col: usize = 0;
    let mut first = true;
    let mut start: usize = 0;
    let ghost all = occ_from(t, needle@, 0);
    let ghost pl = pattern_len as int;
    let ghost dl = display@.len() as int;
    proof {
        assert(ranges_int(out@) + occ_from(t, needle@, 0).map_values(|p: int| highlight(p, pl, dl)) =~= all.map_values(|p: int| highlight(p, pl, dl)));
    }
    while start <= text.len()
        invariant
            start <= t.len() + 1,
            text@ == t,
            t.len() <= display@.len(),
            needle@.len() > 0,
            display_len as int == dl,
            pl == pattern_len as int,
            dl == display@.len() as int,
            display@.len() + pattern_len <= u32::MAX,
            ranges_int(out@) + occ_from(t, needle@, start as int).map_values(|p: int| highlight(p, pl, dl)) == all.map_values(|p: int| highlight(p, pl, dl)),
            first == (ranges_int(out@).len() == 0),
            first ==> occ_from(t, needle@, start as int) == all,
            first ==> col == 0,
            !first ==> all.len() > 0 && col as int == all[0],
        ensures
            occ_from(t, needle@, start as int).len() == 0,
            ranges_int(out@) + occ_from(t, needle@, start as int).map_values(|p: int| highlight(p, pl, dl)) == all.map_values(|p: int| highlight(p, pl, dl)),
            first == (ranges_int(out@).len() == 0),
            first ==> occ_from(t, needle@, start as int) == all,
            first ==> col == 0,
            !first ==> all.len() > 0 && col as int == all[0],
        decreases t.len() + 1 - start,
    {
        if start == text.len() {
            proof {
                lemma_occ_none(t, needle@, start as int);
            }
            break;
        }
        let (_, rest) = text.as_slice().split_at(start);
        match memmem_find(rest, needle) {
            None => {
                proof {
                    assert forall|j: int| start <= j < t.len() implies !occurs_at(t, needle@, j) by {
                        if occurs_at(t, needle@, j) {
                            assert(rest@.subrange(j - start, j - start + needle@.len()) =~= t.subrange(j, j + needle@.len()));
                            assert(occurs_at(rest@, needle@, j - start));
                        }
                    }
                    lemma_occ_skip(t, needle@, start as int, t.len() as int);
                    lemma_occ_none(t, needle@, t.len() as int);
                }
                break;
            },
            Some(pos) => {
                let abs = start + pos;
                proof {
                    assert(rest@.subrange(pos as int, pos + needle@.len()) =~= t.subrange(abs as int, abs + needle@.len()));
                    assert(occurs_at(t, needle@, abs as int));
                    assert forall|j: int| start <= j < abs implies !occurs_at(t, needle@, j) by {
                        if occurs_at(t, needle@, j) {
                            assert(rest@.subrange(j - start, j - start + needle@.len()) =~= t.subrange(j, j + needle@.len()));
                            assert(occurs_at(rest@, needle@, j - start));
                        }
                    }
                    lemma_occ_skip(t, needle@, start as int, abs as int);
                    assert(occ_from(t, needle@, abs as int) == seq![abs as int] + occ_from(t, needle@, abs + 1));
                }
                assert(abs < t.len());
                assert(abs <= u32::MAX);
                let abs_start = abs as u32;
                assert(abs_start as int == abs as int);
                let abs_end = if abs_start + pattern_len < display_len { abs_start + pattern_len } else { display_len };
                if first {
                    col = abs;
                    first = false;
                }
                let ghost o0 = ranges_int(out@);
                assert(abs_start as int == abs as int);
                assert(display_len as int == dl);
                assert(pattern_len as int == pl);
                assert(abs_end as int == (if abs + pl < dl { abs + pl } else { dl }));
                assert((abs_start as int, abs_end as int) == highlight(abs as int, pl, dl));
                out.push((abs_start, abs_end));
                proof {
                    let rest_occ = occ_from(t, needle@, abs + 1);
                    assert((seq![abs as int] + rest_occ).map_values(|p: int| highlight(p, pl, dl))
                        =~= seq![highlight(abs as int, pl, dl)] + rest_occ.map_values(|p: int| highlight(p, pl, dl)));
                    assert(ranges_int(out@) =~= o0.push(highlight(abs as int, pl, dl)));
                    assert(ranges_int(out@) + rest_occ.map_values(|p: int| highlight(p, pl, dl))
                        =~= o0 + occ_from(t, needle@, start as int).map_values(|p: int| highlight(p, pl, dl)));
                }
                start = abs + 1;
            },
        }
    }
    proof {
        assert(occ_from(t, needle@, start as int) =~= Seq::<int>::empty());
        assert(ranges_int(out@) =~= all.map_values(|p: int| highlight(p, pl, dl)));
        if first {
            assert(all.len() == 0);
            assert(col == 0);
        }
        assert(col as int == (if all.len() > 0 { all[0] } else { 0 }));
    }
    (out, col)
}

proof fn lemma_encode_concat(a: Seq<char>, b: Seq<char>)
    ensures
        encode_utf8(a + b) == encode_utf8(a) + encode_utf8(b),
    decreases a.len(),
{
    if a.len() == 0 {
        assert(a + b =~= b);
        assert(encode_utf8(a) =~= Seq::<u8>::empty());
        assert(encode_utf8(a) + encode_utf8(b) =~= encode_utf8(b));
    } else {
        assert((a + b).drop_first() =~= a.drop_first() + b);
        assert((a + b)[0] == a[0]);
        lemma_encode_concat(a.drop_first(), b);
        assert(encode_utf8(a + b) =~= encode_scalar(a[0] as u32) + (encode_utf8(a.drop_first()) + encode_utf8(b)));
    }
}

/// UTF-8 width of a character.
pub open spec fn char_width(c: char) -> int {
    encode_scalar(c as u32).len() as int
}

fn utf8_width(c: char) -> (r: usize)
    ensures
        r as int == char_width(c),
        1 <= r <= 4,
{
    proof {
        vstd::utf8::char_is_scalar(c);
    }
    let v = c as u32;
    if v <= 0x7f {
        1
    } else if v <= 0x7ff {
        2
    } else if v <= 0xffff {
        3
    } else {
        4
    }
}

/// Byte offset of character `k` of `line`.
pub open spec fn char_start(line: Seq<char>, k: int) -> int {
    encode_utf8(line.take(k)).len() as int
}

proof fn lemma_char_start_step(line: Seq<char>, k: int)
    requires
        0 <= k < line.len(),
    ensures
        char_start(line, k + 1) == char_start(line, k) + char_width(line[k]),
{
    assert(line.take(k + 1) =~= line.take(k) + seq![line[k]]);
    lemma_encode_concat(line.take(k), seq![line[k]]);
    assert(seq![line[k]].drop_first() =~= Seq::<char>::empty());
    assert(encode_utf8(seq![line[k]]) =~= encode_scalar(line[k] as u32) + encode_utf8(Seq::<char>::empty()));
}

/// Byte ranges of the characters at `idx` (out-of-range indices ignored),
/// adjacent ranges merged, over the first `n` indices.
pub open spec fn merge_char_ranges(line: Seq<char>, idx: Seq<usize>, n: nat) -> Seq<(int, int)>
    decreases n,
{
    if n == 0 {
        seq![]
    } else {
        let prev = merge_char_ranges(line, idx, (n - 1) as nat);
        let ci = idx[n - 1] as int;
        if ci >= line.len() {
            prev
        } else {
            let st = char_start(line, ci);
            let en = char_start(line, ci + 1);
            if prev.len() > 0 && prev.last().1 == st {
                prev.update(prev.len() - 1, (prev.last().0, en))
            } else {
                prev.push((st, en))
            }
        }
    }
}

/// Highlight ranges for matched character positions (see [`merge_char_ranges`]).
pub fn char_indices_to_byte_offsets(line: &str, char_indices: &[usize]) -> (r: Vec<(u32, u32)>)
    requires
        encode_utf8(line@).len() <= u32::MAX,
    ensures
        ranges_int(r@) == merge_char_ranges(line@, char_indices@, char_indices@.len()),
{
    let mut out: Vec<(u32, u32)> = Vec::new();
    if char_indices.len() == 0 {
        return out;
    }
    let chars = crate::text::chars_of(line);
    let mut starts: Vec<usize> = Vec::new();
    let mut pos: usize = 0;
    starts.push(0);
    let ghost l = line@;
    proof {
        assert(l.take(0) =~= Seq::<char>::empty());
        assert(l.take(l.len() as int) =~= l);
    }
    let mut k: usize = 0;
    while k < chars.len()
        invariant
            k <= chars@.len(),
            chars@ == l,
            l == line@,
            encode_utf8(l).len() <= u32::MAX,
            starts@.len() == k + 1,
            forall|t: int| 0 <= t <= k ==> #[trigger] starts@[t] as int == char_start(l, t),
            pos as int == char_start(l, k as int),
        decreases chars@.len() - k,
    {
        proof {
            lemma_char_start_step(l, k as int);
            assert(l.take(l.len() as int) =~= l);
            lemma_char_start_le(l, k + 1);
        }
        let w = utf8_width(chars[k]);
        pos = pos + w;
        starts.push(pos);
        k = k + 1;
    }
    proof {
        assert forall|t: int| 0 <= t <= l.len() implies char_start(l, t) <= u32::MAX by {
            lemma_char_start_le(l, t);
        }
    }
    let mut i: usize = 0;
    while i < char_indices.len()
        invariant
            i <= char_indices@.len(),
            chars@.len() == l.len(),
            l == line@,
            starts@.len() == l.len() + 1,
            encode_utf8(l).len() <= u32::MAX,
            forall|t: int| 0 <= t <= l.len() ==> #[trigger] starts@[t] as int == char_start(l, t),
            forall|t: int| 0 <= t <= l.len() ==> char_start(l, t) <= u32::MAX,
            ranges_int(out@) == merge_char_ranges(l, char_indices@, i as nat),
        decreases char_indices@.len() - i,
    {
        let ci = char_indices[i];
        if ci < chars.len() {
            let st = starts[ci];
            let en = starts[ci + 1];
            proof {
                assert(st as int == char_start(l, ci as int));
                assert(en as int == char_start(l, ci + 1));
            }
            let n = out.len();
            let ghost o0 = ranges_int(out@);
            if n > 0 && out[n - 1].1 == st as u32 {
                let first = out[n - 1].0;
                out.set(n - 1, (first, en as u32));
                proof {
                    assert(ranges_int(out@) =~= o0.update(o0.len() - 1, (o0.last().0, en as int)));
                }
            } else {
                out.push((st as u32, en as u32));
                proof {
                    assert(ranges_int(out@) =~= o0.push((st as int, en as int)));
                }
            }
        }
        i = i + 1;
    }
    out
}

proof fn lemma_char_start_le(l: Seq<char>, k: int)
    requires
        0 <= k <= l.len(),
    ensures
        char_start(l, k) <= encode_utf8(l).len(),
{
    assert(l =~= l.take(k) + l.skip(k));
    lemma_encode_concat(l.take(k), l.skip(k));
}

/// Number of leading characters of `line`, counting on from `k`, whose
/// UTF-8 encoding fits in `limit` bytes.
pub open spec fn fit_from(line: Seq<char>, limit: int, k: int) -> int
    decreases line.len() - k,
{
    if 0 <= k < line.len() && char_start(line, k + 1) <= limit {
        fit_from(line, limit, k + 1)
    } else {
        k
    }
}

/// A line as displayed: its longest prefix of whole characters within
/// [`MAX_LINE_DISPLAY_LEN`] bytes.
pub open spec fn display_chars(line: Seq<char>) -> Seq<char> {
    line.take(fit_from(line, MAX_LINE_DISPLAY_LEN as int, 0))
}

/// `line` cut to whole characters within [`MAX_LINE_DISPLAY_LEN`] bytes.
pub fn display_prefix(line: &str) -> (r: &str)
    ensures
        r@ == display_chars(line@),
{
    let chars = crate::text::chars_of(line);
    let ghost l = line@;
    let mut k: usize = 0;
    let mut pos: usize = 0;
    proof {
        assert(l.take(0) =~= Seq::<char>::empty());
    }
    while k < chars.len() && pos + utf8_width(chars[k]) <= MAX_LINE_DISPLAY_LEN
        invariant
            k <= chars@.len(),
            chars@ == l,
            l == line@,
            pos <= MAX_LINE_DISPLAY_LEN,
            pos as int == char_start(l, k as int),
            fit_from(l, MAX_LINE_DISPLAY_LEN as int, 0) == fit_from(l, MAX_LINE_DISPLAY_LEN as int, k as int),
        decreases chars@.len() - k,
    {
        proof {
            lemma_char_start_step(l, k as int);
        }
        pos = pos + utf8_width(chars[k]);
        k = k + 1;
    }
    proof {
        if k < chars@.len() {
            lemma_char_start_step(l, k as int);
        }
    }
    line.substring_char(0, k)
}

/// `s` with every `\n` escape (a backslash, then `n`) turned into a
/// newline, scanning left to right.
pub open spec fn unescape_newlines(s: Seq<char>) -> Seq<char>
    decreases s.len(),
{
    if s.len() == 0 {
        seq![]
    } else if s.len() >= 2 && s[0] == '\\' && s[1] == 'n' {
        seq!['\n'] + unescape_newlines(s.skip(2))
    } else {
        seq![s[0]] + unescape_newlines(s.skip(1))
    }
}

/// Whether `s` holds a `\n` escape.
pub open spec fn has_newline_escape(s: Seq<char>) -> bool {
    exists|i: int| 0 <= i && i + 1 < s.len() && s[i] == '\\' && #[trigger] s[i + 1] == 'n'
}

/// Whether some character of `s` is uppercase.
pub open spec fn has_uppercase(s: Seq<char>) -> bool {
    exists|i: int| 0 <= i < s.len() && crate::fuzzy::is_uppercase_char(#[trigger] s[i])
}

/// How a plain-text or regex search looks for its text: case-insensitive
/// under smart case when the text has no uppercase character; across lines
/// when the text holds a `\n` escape, which then stands for a newline; and
/// the bytes searched for, ASCII-lowercased when case-insensitive.
pub open spec fn search_pattern_spec(text: Seq<char>, smart_case: bool) -> (Seq<u8>, bool, bool) {
    let ci = smart_case && !has_uppercase(text);
    let multiline = has_newline_escape(text);
    let bytes = encode_utf8(if multiline { unescape_newlines(text) } else { text });
    (if ci { bytes.map_values(|b: u8| lower(b)) } else { bytes }, ci, multiline)
}

proof fn lemma_unescape_plain(s: Seq<char>)
    requires
        !has_newline_escape(s),
    ensures
        unescape_newlines(s) == s,
    decreases s.len(),
{
    if s.len() > 0 {
        assert(!has_newline_escape(s.skip(1))) by {
            if has_newline_escape(s.skip(1)) {
                let i = choose|i: int| 0 <= i && i + 1 < s.skip(1).len() && s.skip(1)[i] == '\\' && #[trigger] s.skip(1)[i + 1] == 'n';
                assert(s[i + 2] == 'n');
            }
        }
        lemma_unescape_plain(s.skip(1));
        if s.len() >= 2 && s[0] == '\\' {
            assert(s[1int] != 'n');
        }
        assert(s =~= seq![s[0]] + s.skip(1));
    }
}

/// The bytes a search looks for, whether it ignores case, and whether it
/// spans lines (see [`search_pattern_spec`]).
pub fn search_pattern(text: &str, smart_case: bool) -> (r: (Vec<u8>, bool, bool))
    ensures
        (r.0@, r.1, r.2) == search_pattern_spec(text@, smart_case),
{
    let cs = crate::text::chars_of(text);
    let ghost t = text@;
    let mut upper = false;
    let mut multiline = false;
    let mut i: usize = 0;
    while i < cs.len()
        invariant
            i <= cs@.len(),
            cs@ == t,
            upper == exists|j: int| 0 <= j < i && crate::fuzzy::is_uppercase_char(#[trigger] t[j]),
            multiline == exists|j: int| 0 <= j < i && j + 1 < t.len() && t[j] == '\\' && #[trigger] t[j + 1] == 'n',
        decreases cs@.len() - i,
    {
        if crate::fuzzy::char_is_uppercase(cs[i]) {
            upper = true;
        }
        if i + 1 < cs.len() && cs[i] == '\\' && cs[i + 1] == 'n' {
            multiline = true;
        }
        i = i + 1;
    }
    let ci = smart_case && !upper;
    proof {
        if !multiline {
            assert(!has_newline_escape(t)) by {
                if has_newline_escape(t) {
                    let j = choose|j: int| 0 <= j && j + 1 < t.len() && t[j] == '\\' && #[trigger] t[j + 1] == 'n';
                    assert(j < i);
                }
            }
            lemma_unescape_plain(t);
        }
        assert(t.skip(0) =~= t);
    }
    let mut out = String::new();
    let mut k: usize = 0;
    while k < cs.len()
        invariant
            k <= cs@.len(),
            cs@ == t,
            t == text@,
            unescape_newlines(t) == out@ + unescape_newlines(t.skip(k as int)),
        decreases cs@.len() - k,
    {
        let ghost rest = t.skip(k as int);
        if k + 1 < cs.len() && cs[k] == '\\' && cs[k + 1] == 'n' {
            out.append("\n");
            proof {
                reveal_strlit("\n");
                assert(rest[0] == '\\' && rest[1] == 'n');
                assert(rest.skip(2) =~= t.skip(k + 2));
                assert(unescape_newlines(rest) == seq!['\n'] + unescape_newlines(rest.skip(2)));
            }
            k = k + 2;
        } else {
            let one = text.substring_char(k, k + 1);
            out.append(one);
            proof {
                assert(one@ =~= seq![t[k as int]]);
                assert(rest.skip(1) =~= t.skip(k + 1));
                assert(unescape_newlines(rest) == seq![rest[0]] + unescape_newlines(rest.skip(1)));
            }
            k = k + 1;
        }
    }
    proof {
        assert(t.skip(k as int) =~= Seq::<char>::empty());
        assert(out@ =~= unescape_newlines(t));
    }
    let bytes = out.as_str().as_bytes();
    let mut finder: Vec<u8> = Vec::new();
    let mut j: usize = 0;
    while j < bytes.len()
        invariant
            j <= bytes@.len(),
            finder@ == (if ci { bytes@.map_values(|b: u8| lower(b)) } else { bytes@ }).take(j as int),
        decreases bytes@.len() - j,
    {
        let b = bytes[j];
        let v = if ci && b >= 65 && b <= 90 { b + 32 } else { b };
        finder.push(v);
        proof {
            assert(finder@ =~= (if ci { bytes@.map_values(|b: u8| lower(b)) } else { bytes@ }).take(j + 1));
        }
        j = j + 1;
    }
    proof {
        assert((if ci { bytes@.map_values(|b: u8| lower(b)) } else { bytes@ }).take(bytes@.len() as int)
            =~= (if ci { bytes@.map_values(|b: u8| lower(b)) } else { bytes@ }));
        assert(upper == has_uppercase(t));
        assert(multiline == has_newline_escape(t));
    }
    (finder, ci, multiline)
}

/// A plain-text match on one line: the displayed line (see
/// [`display_line`]) decoded as `String::from_utf8_lossy` does, its
/// highlights and column (see [`plain_highlights_spec`]), no fuzzy score, no
/// classification or context, and file index 0.
pub fn plain_line_match(line: &[u8], line_number: u64, byte_offset: u64, needle: &[u8], case_insensitive: bool, pattern_len: u32) -> (r: GrepMatch)
    requires
        needle@.len() > 0,
        pattern_len <= u32::MAX - MAX_LINE_DISPLAY_LEN,
    ensures
        ({
            let d = display_line(line@);
            let (ranges, col) = plain_highlights_spec(d, needle@, case_insensitive, pattern_len as int);
            &&& r.line_content@ == crate::text::lossy_utf8(d)
            &&& ranges_int(r.match_byte_offsets@) == ranges
            &&& r.col as int == col
        }),
        r.line_number == line_number,
        r.byte_offset == byte_offset,
        r.file_index == 0,
        r.fuzzy_score is None,
        !r.is_definition && !r.is_import,
        r.context_before@.len() == 0 && r.context_after@.len() == 0,
{
    let (display, _) = prepare_line(line);
    proof {
        let t = trim_line_end(line@);
        lemma_trim_line_end_prefix(line@);
        if t.len() > MAX_LINE_DISPLAY_LEN {
            lemma_floor_start_range(t, MAX_LINE_DISPLAY_LEN as int);
        }
        assert(display@.len() <= MAX_LINE_DISPLAY_LEN);
    }
    let (ranges, col) = plain_highlights(display, needle, case_insensitive, pattern_len);
    GrepMatch {
        file_index: 0,
        line_number,
        col,
        byte_offset,
        line_content: crate::text::utf8_lossy(display),
        match_byte_offsets: ranges,
        fuzzy_score: None,
        is_definition: false,
        is_import: false,
        context_before: Vec::new(),
        context_after: Vec::new(),
    }
}

/// Number of breaks in a run of positions: places where a position does
/// not follow the previous one directly.
pub open spec fn gap_count(ix: Seq<u32>) -> int
    decreases ix.len(),
{
    if ix.len() <= 1 {
        0
    } else {
        gap_count(ix.drop_last()) + (if ix.last() as int != ix[ix.len() - 2] + 1 { 1int } else { 0int })
    }
}

/// Whether fuzzy-matched character positions (ascending) are a good
/// enough match for a needle of `needle_len` characters: at least all but
/// one character matched, spread over at most twice the needle length,
/// dense enough (half the span for a full match, 70% with typos), with at
/// most a quarter of the needle length in breaks (at least one allowed).
pub open spec fn fuzzy_accepts(ix: Seq<u32>, needle_len: int) -> bool {
    let min_matched = if needle_len - 1 > 1 { needle_len - 1 } else { 1 };
    let max_span = needle_len * 2;
    let max_gaps = if needle_len / 4 > 1 { needle_len / 4 } else { 1 };
    if ix.len() < min_matched {
        false
    } else if ix.len() == 0 {
        true
    } else {
        let span = ix.last() - ix[0] + 1;
        let density = (ix.len() * 100) as int / span;
        let min_density = if ix.len() >= needle_len { 50int } else { 70int };
        span <= max_span && density >= min_density && gap_count(ix) <= max_gaps
    }
}

/// Whether a fuzzy match passes the quality checks (see [`fuzzy_accepts`]).
pub fn fuzzy_match_accepted(indices: &[u32], needle_len: usize) -> (r: bool)
    requires
        forall|i: int, j: int| 0 <= i < j < indices@.len() ==> indices@[i] < indices@[j],
        needle_len <= usize::MAX / 2,
    ensures
        r == fuzzy_accepts(indices@, needle_len as int),
{
    let n = indices.len();
    let min_matched = if needle_len > 2 { needle_len - 1 } else { 1 };
    if n < min_matched {
        return false;
    }
    if n == 0 {
        return true;
    }
    let first = indices[0] as u64;
    let last = indices[n - 1] as u64;
    if n > 1 {
        assert(indices@[0] < indices@[n - 1]);
    }
    let span = last - first + 1;
    if span > (needle_len as u64) * 2 {
        return false;
    }
    assert(n <= span) by {
        lemma_strictly_increasing_span(indices@);
    }
    let density = (n as u64) * 100 / span;
    let min_density: u64 = if n >= needle_len { 50 } else { 70 };
    if density < min_density {
        return false;
    }
    let max_gaps = if needle_len / 4 > 1 { needle_len / 4 } else { 1 };
    let mut gaps: usize = 0;
    let mut i: usize = 1;
    proof {
        assert(indices@.take(1).len() <= 1);
    }
    while i < n
        invariant
            1 <= i <= n == indices@.len(),
            gaps as int == gap_count(indices@.take(i as int)),
            gaps < i,
        decreases n - i,
    {
        proof {
            assert(indices@.take(i + 1).drop_last() =~= indices@.take(i as int));
        }
        if indices[i] as u64 != indices[i - 1] as u64 + 1 {
            gaps = gaps + 1;
        }
        i = i + 1;
    }
    proof {
        assert(indices@.take(n as int) =~= indices@);
    }
    gaps <= max_gaps
}

proof fn lemma_strictly_increasing_span(ix: Seq<u32>)
    requires
        ix.len() > 0,
        forall|i: int, j: int| 0 <= i < j < ix.len() ==> ix[i] < ix[j],
    ensures
        ix.len() <= ix.last() - ix[0] + 1,
    decreases ix.len(),
{
    if ix.len() > 1 {
        let d = ix.drop_last();
        assert forall|i: int, j: int| 0 <= i < j < d.len() implies d[i] < d[j] by {
            assert(d[i] == ix[i] && d[j] == ix[j]);
        }
        lemma_strictly_increasing_span(d);
        assert(ix[ix.len() - 2] < ix.last());
    }
}

/// The matches found in one searched file, at `position` in the list of
/// files searched.
pub struct FileMatches {
    pub position: usize,
    pub matches: Vec<GrepMatch>,
}

/// One page of grep results: the matches (their `file_index` pointing into
/// `files`), the positions of the files they came from, how many files
/// were used up, and the offset to resume from (0 when done).
pub struct GrepPage {
    pub matches: Vec<GrepMatch>,
    pub files: Vec<usize>,
    pub files_consumed: usize,
    pub next_file_offset: usize,
}

/// `m` pointing at file `k`.
pub open spec fn reindexed(m: GrepMatch, k: usize) -> GrepMatch {
    GrepMatch { file_index: k, ..m }
}

/// Page assembly over the first `n` files with matches: their matches
/// appended in order, each file's position recorded, stopping after the
/// file that brings the count to `page_limit`.
pub open spec fn page_fold(per: Seq<FileMatches>, page_limit: int, n: nat) -> (Seq<GrepMatch>, Seq<usize>, int, bool)
    decreases n,
{
    if n == 0 {
        (seq![], seq![], 0, false)
    } else {
        let (ms, fs, consumed, stopped) = page_fold(per, page_limit, (n - 1) as nat);
        if stopped {
            (ms, fs, consumed, stopped)
        } else {
            let f = per[n - 1];
            let k = fs.len() as usize;
            let ms2 = ms + f.matches@.map_values(|m: GrepMatch| reindexed(m, k));
            (ms2, fs.push(f.position), f.position + 1, ms2.len() >= page_limit)
        }
    }
}

/// The page assembled from per-file results (in file order) of a search
/// over `searched` files starting at `file_offset`. With no match at all
/// every file counts as used; there is a next page when the time budget ran
/// out, or when the page is full and files remain.
pub open spec fn page_spec(per: Seq<FileMatches>, searched: int, page_limit: int, file_offset: int, budget_exceeded: bool) -> (Seq<GrepMatch>, Seq<usize>, int, int) {
    let (ms, fs, consumed0, _) = page_fold(per, page_limit, per.len());
    let consumed = if fs.len() == 0 { searched } else { consumed0 };
    let has_more = budget_exceeded || (ms.len() >= page_limit && consumed < searched);
    (ms, fs, consumed, if has_more { file_offset + consumed } else { 0 })
}

/// Assemble a page of grep results (see [`page_spec`]).
pub fn collect_page(per_file: &[FileMatches], searched: usize, page_limit: usize, file_offset: usize, budget_exceeded: bool) -> (r: GrepPage)
    requires
        forall|i: int| 0 <= i < per_file@.len() ==> (#[trigger] per_file@[i]).position < searched,
        file_offset + searched <= usize::MAX,
    ensures
        ({
            let (ms, fs, consumed, next) = page_spec(per_file@, searched as int, page_limit as int, file_offset as int, budget_exceeded);
            &&& r.matches@.len() == ms.len()
            &&& forall|i: int| 0 <= i < ms.len() ==> (#[trigger] r.matches@[i]).same(ms[i])
            &&& r.files@ == fs
            &&& r.files_consumed as int == consumed
            &&& r.next_file_offset as int == next
        }),
{
    let mut matches: Vec<GrepMatch> = Vec::new();
    let mut files: Vec<usize> = Vec::new();
    let mut consumed: usize = 0;
    let mut stopped = false;
    let mut i: usize = 0;
    while i < per_file.len() && !stopped
        invariant
            i <= per_file@.len(),
            forall|t: int| 0 <= t < per_file@.len() ==> (#[trigger] per_file@[t]).position < searched,
            ({
                let (ms, fs, c, st) = page_fold(per_file@, page_limit as int, i as nat);
                &&& matches@.len() == ms.len()
                &&& forall|t: int| 0 <= t < ms.len() ==> (#[trigger] matches@[t]).same(ms[t])
                &&& files@ == fs
                &&& consumed as int == c
                &&& stopped == st
            }),
            consumed <= searched,
        decreases per_file@.len() - i,
    {
        let f = &per_file[i];
        let ghost pf = page_fold(per_file@, page_limit as int, i as nat);
        consumed = f.position + 1;
        let k = files.len();
        files.push(f.position);
        let mut j: usize = 0;
        let ghost base = matches@.len();
        while j < f.matches.len()
            invariant
                j <= f.matches@.len(),
                matches@.len() == base + j,
                base == pf.0.len(),
                k == pf.1.len(),
                forall|t: int| 0 <= t < base ==> (#[trigger] matches@[t]).same(pf.0[t]),
                forall|t: int| 0 <= t < j ==> (#[trigger] matches@[base + t]).same(reindexed(f.matches@[t], k)),
            decreases f.matches@.len() - j,
        {
            let mut m = f.matches[j].duplicate();
            m.file_index = k;
            matches.push(m);
            j = j + 1;
        }
        proof {
            let ms2 = pf.0 + f.matches@.map_values(|m: GrepMatch| reindexed(m, k));
            assert(matches@.len() == ms2.len());
            assert forall|t: int| 0 <= t < ms2.len() implies (#[trigger] matches@[t]).same(ms2[t]) by {
                if t >= base {
                    let u = t - base;
                    assert(ms2[t] == reindexed(f.matches@[u], k));
                    assert(matches@[base + u].same(reindexed(f.matches@[u], k)));
                } else {
                    assert(ms2[t] == pf.0[t]);
                }
            }
        }
        if matches.len() >= page_limit {
            stopped = true;
        }
        i = i + 1;
    }
    proof {
        if stopped && i < per_file@.len() {
            lemma_page_fold_stopped(per_file@, page_limit as int, i as nat, per_file@.len());
        }
    }
    if files.len() == 0 {
        consumed = searched;
    }
    let has_more = budget_exceeded || (matches.len() >= page_limit && consumed < searched);
    let next_file_offset = if has_more { file_offset + consumed } else { 0 };
    GrepPage { matches, files, files_consumed: consumed, next_file_offset }
}

proof fn lemma_page_fold_stopped(per: Seq<FileMatches>, page_limit: int, i: nat, j: nat)
    requires
        i <= j,
        page_fold(per, page_limit, i).3,
    ensures
        page_fold(per, page_limit, j) == page_fold(per, page_limit, i),
    decreases j - i,
{
    if i < j {
        lemma_page_fold_stopped(per, page_limit, i, (j - 1) as nat);
    }
}

/// A file worth searching: text, not empty, not over the size limit.
pub open spec fn searchable(f: FileItem, max_file_size: u64) -> bool {
    !f.is_binary && f.size > 0 && f.size <= max_file_size
}

/// Indices of the searchable files among the first `n`.
pub open spec fn searchable_idx(files: Seq<FileItem>, max_file_size: u64, n: nat) -> Seq<int>
    decreases n,
{
    if n == 0 {
        seq![]
    } else {
        let p = searchable_idx(files, max_file_size, (n - 1) as nat);
        if searchable(files[n - 1], max_file_size) {
            p.push(n - 1)
        } else {
            p
        }
    }
}

proof fn lemma_searchable_idx_bounds(files: Seq<FileItem>, max_file_size: u64, n: nat)
    ensures
        forall|k: int| 0 <= k < searchable_idx(files, max_file_size, n).len() ==> 0 <= #[trigger] searchable_idx(files, max_file_size, n)[k] < n,
        searchable_idx(files, max_file_size, n).len() <= n,
    decreases n,
{
    if n > 0 {
        lemma_searchable_idx_bounds(files, max_file_size, (n - 1) as nat);
    }
}

/// Rank keys of the searchable files: frecency, modification time, position.
pub open spec fn frecency_ranks(files: Seq<FileItem>, idx: Seq<int>) -> Seq<Rank> {
    Seq::new(idx.len(), |k: int| (files[idx[k]].total_frecency_score as i64, files[idx[k]].modified, k as usize))
}

/// The files to search, from `file_offset` on, in order of frecency
/// (most frecent, then most recently modified, first), and how many files
/// are searchable in all.
pub open spec fn files_to_search(files: Seq<FileItem>, max_file_size: u64, file_offset: int) -> (Seq<int>, int) {
    let idx = searchable_idx(files, max_file_size, files.len());
    let ord = rank_order(frecency_ranks(files, idx));
    if file_offset < idx.len() {
        (Seq::new((idx.len() - file_offset) as nat, |k: int| idx[ord[file_offset + k].2 as int]), idx.len() as int)
    } else {
        (seq![], idx.len() as int)
    }
}

/// Searchable files from `file_offset` on, most frecent first (see
/// [`files_to_search`]), and how many files are searchable.
pub fn prepare_files_to_search<'a>(files: &'a [FileItem], max_file_size: u64, file_offset: usize) -> (r: (Vec<&'a FileItem>, usize))
    ensures
        ({
            let (sel, total) = files_to_search(files@, max_file_size, file_offset as int);
            &&& r.0@.len() == sel.len()
            &&& forall|k: int| 0 <= k < sel.len() ==> *(#[trigger] r.0@[k]) == files@[sel[k]]
            &&& r.1 as int == total
        }),
{
    let mut idx: Vec<usize> = Vec::new();
    let mut i: usize = 0;
    while i < files.len()
        invariant
            i <= files@.len(),
            idx@.len() == searchable_idx(files@, max_file_size, i as nat).len(),
            forall|k: int| 0 <= k < idx@.len() ==> #[trigger] idx@[k] as int == searchable_idx(files@, max_file_size, i as nat)[k],
        decreases files@.len() - i,
    {
        let f = &files[i];
        if !f.is_binary && f.size > 0 && f.size <= max_file_size {
            idx.push(i);
        }
        i = i + 1;
    }
    let ghost sidx = searchable_idx(files@, max_file_size, files@.len());
    proof {
        lemma_searchable_idx_bounds(files@, max_file_size, files@.len());
    }
    let total = idx.len();
    let mut ranks: Vec<Rank> = Vec::new();
    let mut k: usize = 0;
    while k < total
        invariant
            k <= total == idx@.len() == sidx.len(),
            forall|t: int| 0 <= t < idx@.len() ==> #[trigger] idx@[t] as int == sidx[t],
            forall|t: int| 0 <= t < sidx.len() ==> 0 <= #[trigger] sidx[t] < files@.len(),
            ranks@ == frecency_ranks(files@, sidx).take(k as int),
        decreases total - k,
    {
        let f = &files[idx[k]];
        ranks.push((f.total_frecency_score as i64, f.modified, k));
        proof {
            assert(ranks@ =~= frecency_ranks(files@, sidx).take(k + 1));
        }
        k = k + 1;
    }
    proof {
        assert(ranks@ =~= frecency_ranks(files@, sidx));
    }
    let sorted = sort_ranks(ranks.as_slice());
    let ghost ord = rank_order(frecency_ranks(files@, sidx));
    proof {
        lemma_rank_order(frecency_ranks(files@, sidx), sorted@);
        assert(sorted@.to_multiset().len() == sorted@.len());
        assert(ranks@.to_multiset().len() == ranks@.len());
        assert forall|t: int| 0 <= t < sorted@.len() implies (#[trigger] sorted@[t]).2 < total by {
            let x = sorted@[t];
            assert(sorted@.contains(x));
            assert(sorted@.to_multiset().count(x) > 0);
            assert(ranks@.to_multiset().count(x) > 0);
            assert(ranks@.contains(x));
            let j = choose|j: int| 0 <= j < ranks@.len() && ranks@[j] == x;
            assert(ranks@[j].2 == j);
        }
    }
    let mut out: Vec<&'a FileItem> = Vec::new();
    if file_offset < total {
        let mut t = file_offset;
        while t < total
            invariant
                file_offset <= t <= total == sorted@.len() == sidx.len() == idx@.len(),
                ord == sorted@,
                forall|u: int| 0 <= u < sorted@.len() ==> (#[trigger] sorted@[u]).2 < total,
                forall|u: int| 0 <= u < idx@.len() ==> #[trigger] idx@[u] as int == sidx[u],
                forall|u: int| 0 <= u < sidx.len() ==> 0 <= #[trigger] sidx[u] < files@.len(),
                out@.len() == t - file_offset,
                forall|u: int| 0 <= u < t - file_offset ==> *(#[trigger] out@[u]) == files@[sidx[ord[file_offset + u].2 as int]],
            decreases total - t,
        {
            let p = sorted[t].2;
            out.push(&files[idx[p]]);
            t = t + 1;
        }
    }
    (out, total)
}

/// A line without its newline.
pub open spec fn line_body(bytes: Seq<u8>, r: (int, int)) -> Seq<u8> {
    let l = bytes.subrange(r.0, r.1);
    if l.len() > 0 && l.last() == 10u8 { l.drop_last() } else { l }
}

/// Whether a line holds the needle: byte for byte, or, when `ci`, ASCII
/// case-insensitively (the needle lowercase).
pub open spec fn line_holds(line: Seq<u8>, needle: Seq<u8>, ci: bool) -> bool {
    if ci {
        exists|q: int| ci_match_at(line, needle, q)
    } else {
        exists|q: int| occurs_at(line, needle, q)
    }
}

/// The lines among `rs` that hold the needle, with their 1-based line
/// numbers and byte offsets, in order; no more than `max` when `max` is
/// not 0.
pub open spec fn plain_hits(bytes: Seq<u8>, rs: Seq<(int, int)>, needle: Seq<u8>, ci: bool, max: nat) -> Seq<(Seq<u8>, u64, u64)>
    decreases rs.len(),
{
    if rs.len() == 0 {
        seq![]
    } else {
        let prev = plain_hits(bytes, rs.drop_last(), needle, ci, max);
        let body = line_body(bytes, rs.last());
        if max > 0 && prev.len() >= max {
            prev
        } else if line_holds(body, needle, ci) {
            prev.push((body, rs.len() as u64, rs.last().0 as u64))
        } else {
            prev
        }
    }
}

/// `m` is the plain-text match of `line` (see [`plain_line_match`]).
pub open spec fn plain_match_of(m: GrepMatch, line: Seq<u8>, line_number: u64, byte_offset: u64, needle: Seq<u8>, ci: bool) -> bool {
    let d = display_line(line);
    let (ranges, col) = plain_highlights_spec(d, needle, ci, needle.len() as int);
    &&& m.line_content@ == crate::text::lossy_utf8(d)
    &&& ranges_int(m.match_byte_offsets@) == ranges
    &&& m.col as int == col
    &&& m.line_number == line_number
    &&& m.byte_offset == byte_offset
    &&& m.file_index == 0
    &&& m.fuzzy_score is None
    &&& !m.is_definition && !m.is_import
    &&& m.context_before@.len() == 0 && m.context_after@.len() == 0
}

proof fn lemma_hits_stable(bytes: Seq<u8>, done: Seq<(int, int)>, rest: Seq<(int, int)>, needle: Seq<u8>, ci: bool, max: nat)
    requires
        max > 0,
        plain_hits(bytes, done, needle, ci, max).len() >= max,
    ensures
        plain_hits(bytes, done + rest, needle, ci, max) == plain_hits(bytes, done, needle, ci, max),
    decreases rest.len(),
{
    if rest.len() == 0 {
        assert(done + rest =~= done);
    } else {
        lemma_hits_stable(bytes, done, rest.drop_last(), needle, ci, max);
        assert((done + rest).drop_last() =~= done + rest.drop_last());
    }
}

/// The plain-text matches of a file's content (see [`plain_hits`] and
/// [`plain_match_of`]): each line holding the needle, as
/// [`plain_line_match`] reports it, up to `max` lines when `max` is not 0.
pub fn plain_file_matches(bytes: &[u8], needle: &[u8], case_insensitive: bool, max: usize) -> (r: Vec<GrepMatch>)
    requires
        needle@.len() > 0,
        needle@.len() <= u32::MAX - MAX_LINE_DISPLAY_LEN,
        bytes@.len() < u64::MAX,
    ensures
        ({
            let hs = plain_hits(bytes@, crate::fuzzy::line_ranges(bytes@, 0), needle@, case_insensitive, max as nat);
            &&& r@.len() == hs.len()
            &&& forall|i: int| 0 <= i < hs.len() ==> plain_match_of(#[trigger] r@[i], hs[i].0, hs[i].1, hs[i].2, needle@, case_insensitive)
        }),
{
    let ghost b = bytes@;
    let mut out: Vec<GrepMatch> = Vec::new();
    let mut pos: usize = 0;
    let mut line_number: u64 = 1;
    let ghost mut done: Seq<(int, int)> = seq![];
    while pos < bytes.len() && (max == 0 || out.len() < max)
        invariant
            b == bytes@,
            b.len() < u64::MAX,
            needle@.len() > 0,
            needle@.len() <= u32::MAX - MAX_LINE_DISPLAY_LEN,
            pos <= b.len(),
            done.len() + 1 == line_number,
            line_number <= pos + 1,
            crate::fuzzy::line_ranges(b, 0) == done + crate::fuzzy::line_ranges(b, pos as int),
            ({
                let hs = plain_hits(b, done, needle@, case_insensitive, max as nat);
                &&& out@.len() == hs.len()
                &&& forall|i: int| 0 <= i < hs.len() ==> plain_match_of(#[trigger] out@[i], hs[i].0, hs[i].1, hs[i].2, needle@, case_insensitive)
            }),
        decreases b.len() - pos,
    {
        let nl = crate::fuzzy::find_newline(bytes, pos);
        let end = if nl < bytes.len() { nl + 1 } else { bytes.len() };
        let e = if end > pos && bytes[end - 1] == 10u8 { end - 1 } else { end };
        let body = vstd::slice::slice_subrange(bytes, pos, e);
        let ghost prev = plain_hits(b, done, needle@, case_insensitive, max as nat);
        proof {
            assert(body@ =~= line_body(b, (pos as int, end as int)));
            assert(crate::fuzzy::line_ranges(b, pos as int) == seq![(pos as int, end as int)] + crate::fuzzy::line_ranges(b, end as int));
            assert(done + crate::fuzzy::line_ranges(b, pos as int) =~= done.push((pos as int, end as int)) + crate::fuzzy::line_ranges(b, end as int));
            assert(done.push((pos as int, end as int)).drop_last() =~= done);
            done = done.push((pos as int, end as int));
        }
        let found = if case_insensitive {
            ascii_case_insensitive_find(body, needle).is_some()
        } else {
            memmem_find(body, needle).is_some()
        };
        proof {
            if case_insensitive {
                if !found {
                    assert(!line_holds(body@, needle@, true));
                }
            } else {
                if !found {
                    assert(!line_holds(body@, needle@, false));
                }
            }
        }
        if found {
            let m = plain_line_match(body, line_number, pos as u64, needle, case_insensitive, needle.len() as u32);
            let ghost before = out@;
            out.push(m);
            proof {
                let hs = plain_hits(b, done, needle@, case_insensitive, max as nat);
                assert(hs == prev.push((body@, line_number, pos as u64)));
                assert forall|i: int| 0 <= i < hs.len() implies plain_match_of(#[trigger] out@[i], hs[i].0, hs[i].1, hs[i].2, needle@, case_insensitive) by {
                    if i < prev.len() {
                        assert(out@[i] == before[i]);
                    }
                }
            }
        }
        pos = end;
        line_number = line_number + 1;
    }
    proof {
        if pos < b.len() {
            lemma_hits_stable(b, done, crate::fuzzy::line_ranges(b, pos as int), needle@, case_insensitive, max as nat);
        } else {
            assert(crate::fuzzy::line_ranges(b, pos as int) =~= Seq::<(int, int)>::empty());
            assert(done + Seq::<(int, int)>::empty() =~= done);
        }
    }
    out
}

proof fn lemma_page_fold_consumed(per: Seq<FileMatches>, page_limit: int, n: nat, searched: int)
    requires
        n <= per.len(),
        forall|i: int| 0 <= i < per.len() ==> (#[trigger] per[i]).position < searched,
    ensures
        page_fold(per, page_limit, n).1.len() > 0 ==> 1 <= page_fold(per, page_limit, n).2 <= searched,
    decreases n,
{
    if n > 0 {
        lemma_page_fold_consumed(per, page_limit, (n - 1) as nat, searched);
        assert(per[n - 1].position < searched);
    }
}

/// Paging moves forward through the files: a page of a search over
/// `searched >= 1` files consumes between one and all of them, and when it
/// says more remain (the next offset is not 0, as it always is once the
/// time budget ran out), the next page starts right after the consumed
/// files, past the current offset.
pub proof fn lemma_next_page_moves_forward(per: Seq<FileMatches>, searched: int, page_limit: int, file_offset: int, budget_exceeded: bool)
    requires
        searched >= 1,
        file_offset >= 0,
        forall|i: int| 0 <= i < per.len() ==> (#[trigger] per[i]).position < searched,
    ensures
        ({
            let (ms, fs, consumed, next) = page_spec(per, searched, page_limit, file_offset, budget_exceeded);
            &&& 1 <= consumed <= searched
            &&& (next == 0 || next == file_offset + consumed)
            &&& (next != 0 ==> next > file_offset)
            &&& (budget_exceeded ==> next == file_offset + consumed)
        }),
{
    lemma_page_fold_consumed(per, page_limit, per.len(), searched);
}

} // verus!
