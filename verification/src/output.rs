//! Token-efficient text rendering of search results for tool clients:
//! frecency and git annotations, size tags, and lines truncated around the match.

use vstd::prelude::*;
use vstd::utf8::{decode_utf8, is_char_boundary, valid_utf8, encode_utf8};
use vstd::string::StringSliceAdditionalSpecFns;
use crate::git::{format_git_status, git_status_name};
use crate::text::{str_eq, u64_to_string, decimal, is_ws, is_whitespace};
use crate::grep::{GrepMatch, views, copy_ranges, copy_strings};
use crate::types::FileItem;
use crate::cursor::{CursorStore, CursorState, next_id, evict};

verus! {

/// One-word frecency label: `hot`, `warm`, `frequent`, or nothing.
pub open spec fn frecency_word_spec(score: i64) -> Seq<char> {
    if score >= 100 {
        "hot"@
    } else if score >= 50 {
        "warm"@
    } else if score >= 10 {
        "frequent"@
    } else {
        ""@
    }
}

pub fn frecency_word(score: i64) -> (r: &'static str)
    ensures
        r@ == frecency_word_spec(score),
{
    if score >= 100 {
        "hot"
    } else if score >= 50 {
        "warm"
    } else if score >= 10 {
        "frequent"
    } else {
        ""
    }
}

/// One-word git label of a status name; clean and unknown statuses have none.
pub open spec fn git_word_spec(status: Seq<char>) -> Seq<char> {
    if status == "modified"@ {
        "modified"@
    } else if status == "untracked"@ {
        "untracked"@
    } else if status == "added"@ || status == "staged_new"@ {
        "staged"@
    } else if status == "deleted"@ {
        "deleted"@
    } else if status == "renamed"@ {
        "renamed"@
    } else if status == "conflicted"@ {
        "conflicted"@
    } else {
        ""@
    }
}

pub fn git_word(status: &str) -> (r: &'static str)
    ensures
        r@ == git_word_spec(status@),
{
    if str_eq(status, "modified") {
        "modified"
    } else if str_eq(status, "untracked") {
        "untracked"
    } else if str_eq(status, "added") || str_eq(status, "staged_new") {
        "staged"
    } else if str_eq(status, "deleted") {
        "deleted"
    } else if str_eq(status, "renamed") {
        "renamed"
    } else if str_eq(status, "conflicted") {
        "conflicted"
    } else {
        ""
    }
}

/// ` - <frecency word> git:<git word>` with the empty parts left out; empty
/// when both words are empty.
pub open spec fn file_suffix_spec(git_status: Option<u32>, frecency_score: i64) -> Seq<char> {
    let f = frecency_word_spec(frecency_score);
    let g = git_word_spec(git_status_name(git_status));
    if f.len() == 0 && g.len() == 0 {
        seq![]
    } else if g.len() == 0 {
        " - "@ + f
    } else if f.len() == 0 {
        " - "@ + "git:"@ + g
    } else {
        " - "@ + f + " "@ + "git:"@ + g
    }
}

/// Annotation appended to a file path: frecency and git status words.
pub fn file_suffix(git_status: Option<u32>, frecency_score: i64) -> (r: String)
    ensures
        r@ == file_suffix_spec(git_status, frecency_score),
{
    let git_str = format_git_status(git_status);
    let f = frecency_word(frecency_score);
    let g = git_word(git_str);
    let fl = f.unicode_len();
    let gl = g.unicode_len();
    if fl == 0 && gl == 0 {
        return String::new();
    }
    let mut out = String::from_str(" - ");
    if fl != 0 {
        out.append(f);
    }
    if gl != 0 {
        if fl != 0 {
            out.append(" ");
        }
        out.append("git:");
        out.append(g);
    }
    out
}

/// How grep results are rendered.
#[derive(Clone, Copy, PartialEq, Eq, Structural)]
pub enum OutputMode {
    Content,
    FilesWithMatches,
    Count,
    Usage,
}

impl OutputMode {
    pub open spec fn from_name(s: Option<Seq<char>>) -> OutputMode {
        match s {
            Some(n) => if n == "files_with_matches"@ {
                OutputMode::FilesWithMatches
            } else if n == "count"@ {
                OutputMode::Count
            } else if n == "usage"@ {
                OutputMode::Usage
            } else {
                OutputMode::Content
            },
            None => OutputMode::Content,
        }
    }

    /// Mode named by `s`; anything unrecognised renders content.
    pub fn new(s: Option<&str>) -> (r: Self)
        ensures
            r == OutputMode::from_name(match s {
                Some(x) => Some(x@),
                None => None,
            }),
    {
        match s {
            Some(x) => {
                if str_eq(x, "files_with_matches") {
                    OutputMode::FilesWithMatches
                } else if str_eq(x, "count") {
                    OutputMode::Count
                } else if str_eq(x, "usage") {
                    OutputMode::Usage
                } else {
                    OutputMode::Content
                }
            },
            None => OutputMode::Content,
        }
    }
}

/// Files at least this large get a size tag.
pub const LARGE_FILE_BYTES: u64 = 20000;

/// ` (<kB>KB - use offset to read relevant section)` for large files, with
/// the size rounded to the nearest kilobyte; empty for small files.
pub open spec fn size_tag_spec(bytes: u64) -> Seq<char> {
    if bytes < LARGE_FILE_BYTES {
        seq![]
    } else {
        " ("@ + decimal(((bytes + 512) / 1024) as nat) + "KB - use offset to read relevant section)"@
    }
}

pub fn size_tag(bytes: u64) -> (r: String)
    requires
        bytes <= u64::MAX - 512,
    ensures
        r@ == size_tag_spec(bytes),
{
    if bytes < LARGE_FILE_BYTES {
        return String::new();
    }
    let kb = (bytes + 512) / 1024;
    let mut out = String::from_str(" (");
    let n = u64_to_string(kb);
    out.append(n.as_str());
    out.append("KB - use offset to read relevant section)");
    out
}

/// Largest character boundary at or below `index` (the length when `index`
/// is past the end).
pub open spec fn floor_boundary(b: Seq<u8>, index: int) -> int
    decreases index,
{
    if index >= b.len() {
        b.len() as int
    } else if index <= 0 {
        0
    } else if is_char_boundary(b, index) {
        index
    } else {
        floor_boundary(b, index - 1)
    }
}

/// Smallest character boundary at or above `index` (the length when none).
pub open spec fn ceil_boundary(b: Seq<u8>, index: int) -> int
    decreases b.len() - index,
{
    if index >= b.len() {
        b.len() as int
    } else if is_char_boundary(b, index) {
        index
    } else {
        ceil_boundary(b, index + 1)
    }
}

proof fn lemma_floor_boundary(b: Seq<u8>, index: int)
    requires
        valid_utf8(b),
        0 <= index,
    ensures
        0 <= floor_boundary(b, index) <= b.len(),
        is_char_boundary(b, floor_boundary(b, index)),
        index < b.len() ==> floor_boundary(b, index) <= index,
    decreases index,
{
    vstd::utf8::is_char_boundary_start_end_of_seq(b);
    if index < b.len() && index > 0 && !is_char_boundary(b, index) {
        lemma_floor_boundary(b, index - 1);
    }
}

proof fn lemma_ceil_boundary(b: Seq<u8>, index: int)
    requires
        valid_utf8(b),
        0 <= index,
    ensures
        0 <= ceil_boundary(b, index) <= b.len(),
        is_char_boundary(b, ceil_boundary(b, index)),
        index <= b.len() ==> index <= ceil_boundary(b, index),
    decreases b.len() - index,
{
    vstd::utf8::is_char_boundary_start_end_of_seq(b);
    if index < b.len() && !is_char_boundary(b, index) {
        lemma_ceil_boundary(b, index + 1);
    }
}

/// Floor `index` to a character boundary of `s`.
pub fn floor_char_boundary(s: &str, index: usize) -> (r: usize)
    ensures
        r == floor_boundary(s.spec_bytes(), index as int),
{
    let n = s.as_bytes().len();
    if index >= n {
        return n;
    }
    let mut i = index;
    while i > 0 && !s.is_char_boundary(i)
        invariant
            i <= index < n,
            n == s.spec_bytes().len(),
            floor_boundary(s.spec_bytes(), i as int) == floor_boundary(s.spec_bytes(), index as int),
        decreases i,
    {
        i = i - 1;
    }
    i
}

/// Ceil `index` to a character boundary of `s`.
pub fn ceil_char_boundary(s: &str, index: usize) -> (r: usize)
    ensures
        r == ceil_boundary(s.spec_bytes(), index as int),
{
    let n = s.as_bytes().len();
    if index >= n {
        return n;
    }
    let mut i = index;
    while i < n && !s.is_char_boundary(i)
        invariant
            index <= i <= n,
            n == s.spec_bytes().len(),
            ceil_boundary(s.spec_bytes(), i as int) == ceil_boundary(s.spec_bytes(), index as int),
        decreases n - i,
    {
        i = i + 1;
    }
    i
}


/// `a - b` clamped at zero.
pub open spec fn sat_sub(a: int, b: int) -> int {
    if a > b {
        a - b
    } else {
        0
    }
}

/// Byte window `(start, end)` of `line` kept around the first match range
/// `(ms, me)`: a third of the spare budget before the match, the rest after,
/// widened to character boundaries.
pub open spec fn window(b: Seq<u8>, ms: int, me: int, max_len: int) -> (int, int) {
    let match_len = sat_sub(me, ms);
    let budget = sat_sub(max_len, match_len);
    let before = budget / 3;
    let after = budget - before;
    let ws = sat_sub(ms, before);
    let we = if me + after < b.len() {
        me + after
    } else {
        b.len() as int
    };
    (floor_boundary(b, ws), ceil_boundary(b, we))
}

/// Whether truncation is defined: the window of a long line must not be inverted.
pub open spec fn trunc_defined(line: Seq<char>, ranges: Option<Seq<(u32, u32)>>, max_len: int) -> bool {
    let b = encode_utf8(line);
    b.len() <= max_len || match ranges {
        Some(r) => r.len() == 0 || window(b, r[0].0 as int, r[0].1 as int, max_len).0 <= window(
            b,
            r[0].0 as int,
            r[0].1 as int,
            max_len,
        ).1,
        None => true,
    }
}

/// `line` cut to about `max_len` bytes: lines that fit are kept; otherwise
/// the window around the first match range is kept with `…` marking each
/// cut side, or, without match ranges, the head of the line up to the first
/// character boundary at or after `max_len`, followed by `…`.
pub open spec fn trunc_spec(line: Seq<char>, ranges: Option<Seq<(u32, u32)>>, max_len: int) -> Seq<char> {
    let b = encode_utf8(line);
    if b.len() <= max_len {
        line
    } else if ranges is Some && ranges->0.len() > 0 {
        let r = ranges->0;
        let (ws, we) = window(b, r[0].0 as int, r[0].1 as int, max_len);
        (if ws > 0 {
            "…"@
        } else {
            ""@
        }) + decode_utf8(b.subrange(ws, we)) + (if we < b.len() {
            "…"@
        } else {
            ""@
        })
    } else {
        decode_utf8(b.subrange(0, ceil_boundary(b, max_len))) + "…"@
    }
}

/// The part of `line` between two character boundaries.
fn substring_bytes<'a>(line: &'a str, ws: usize, we: usize) -> (r: &'a str)
    requires
        ws <= we <= line.spec_bytes().len(),
        is_char_boundary(line.spec_bytes(), ws as int),
        is_char_boundary(line.spec_bytes(), we as int),
    ensures
        r@ == decode_utf8(line.spec_bytes().subrange(ws as int, we as int)),
{
    let ghost b = line.spec_bytes();
    proof {
        vstd::utf8::encode_utf8_valid_utf8(line@);
        vstd::utf8::valid_utf8_split(b, we as int);
    }
    let (head, _) = line.split_at(we);
    proof {
        let hb = head.spec_bytes();
        assert(hb == b.subrange(0, we as int));
        if ws < we {
            vstd::utf8::is_char_boundary_iff_not_is_continuation_byte(b, ws as int);
            vstd::utf8::is_char_boundary_iff_not_is_continuation_byte(hb, ws as int);
            assert(hb[ws as int] == b[ws as int]);
        } else {
            vstd::utf8::is_char_boundary_start_end_of_seq(hb);
        }
    }
    let (_, mid) = head.split_at(ws);
    proof {
        assert(mid.spec_bytes() =~= b.subrange(ws as int, we as int));
        vstd::utf8::encode_utf8_decode_utf8(mid@);
    }
    mid
}

/// Truncate a long line around its first match (see [`trunc_spec`]).
pub fn trunc_centered(line: &str, match_ranges: Option<&[(u32, u32)]>, max_len: usize) -> (r: String)
    requires
        trunc_defined(line@, match match_ranges {
            Some(m) => Some(m@),
            None => None,
        }, max_len as int),
    ensures
        r@ == trunc_spec(line@, match match_ranges {
            Some(m) => Some(m@),
            None => None,
        }, max_len as int),
{
    let n = line.as_bytes().len();
    let ghost b = line.spec_bytes();
    proof {
        vstd::utf8::encode_utf8_valid_utf8(line@);
    }
    if n <= max_len {
        return String::from_str(line);
    }
    if let Some(ranges) = match_ranges {
        if ranges.len() > 0 {
            let (ms32, me32) = ranges[0];
            let match_start = ms32 as usize;
            let match_end = me32 as usize;
            let match_len = if match_end > match_start { match_end - match_start } else { 0 };
            let budget = if max_len > match_len { max_len - match_len } else { 0 };
            let before = budget / 3;
            let after = budget - before;
            let win_start = if match_start > before { match_start - before } else { 0 };
            let win_end = if match_end < n && after < n - match_end { match_end + after } else { n };
            let ws = floor_char_boundary(line, win_start);
            let we = ceil_char_boundary(line, win_end);
            proof {
                lemma_floor_boundary(b, win_start as int);
                lemma_ceil_boundary(b, win_end as int);
            }
            let mid = substring_bytes(line, ws, we);
            let mut result = if ws > 0 { String::from_str("…") } else { String::new() };
            result.append(mid);
            if we < n {
                result.append("…");
            }
            proof {
                if ws == 0 {
                    reveal_strlit("");
                }
                if we >= n {
                    reveal_strlit("");
                    assert(result@ =~= result@ + ""@);
                }
            }
            return result;
        }
    }
    let end = ceil_char_boundary(line, max_len);
    proof {
        lemma_ceil_boundary(b, max_len as int);
        vstd::utf8::is_char_boundary_start_end_of_seq(b);
    }
    let head = substring_bytes(line, 0, end);
    let mut result = String::from_str(head);
    result.append("…");
    result
}


/// Lines joined with `\n` between them.
pub open spec fn join_lines(lines: Seq<Seq<char>>) -> Seq<char>
    decreases lines.len(),
{
    if lines.len() == 0 {
        seq![]
    } else if lines.len() == 1 {
        lines[0]
    } else {
        join_lines(lines.drop_last()) + "\n"@ + lines.last()
    }
}

/// The strings of `lines` joined with `\n` between them.
pub fn join_strings(lines: &Vec<String>) -> (r: String)
    ensures
        r@ == join_lines(views(lines@)),
{
    let mut out = String::new();
    let mut i: usize = 0;
    while i < lines.len()
        invariant
            i <= lines@.len(),
            out@ == join_lines(views(lines@.take(i as int))),
        decreases lines@.len() - i,
    {
        let ghost pre = views(lines@.take(i as int));
        let ghost next = views(lines@.take(i + 1));
        proof {
            assert(next.drop_last() =~= pre);
            assert(next.last() == lines@[i as int]@);
        }
        if i > 0 {
            out.append("\n");
        }
        out.append(lines[i].as_str());
        proof {
            if i == 0 {
                assert(out@ =~= next[0]);
            }
        }
        i = i + 1;
    }
    proof {
        assert(lines@.take(i as int) =~= lines@);
    }
    out
}

/// Whether `s` holds whitespace only (what `trim().is_empty()` tests).
pub open spec fn is_blank(s: Seq<char>) -> bool {
    forall|i: int| 0 <= i < s.len() ==> is_ws(#[trigger] s[i])
}

fn blank(s: &str) -> (r: bool)
    ensures
        r == is_blank(s@),
{
    let mut it = s.chars();
    let ghost all = s@;
    let mut ok = true;
    for c in it: s.chars()
        invariant
            it.seq() == all,
            ok == (forall|j: int| 0 <= j < it.index() ==> is_ws(#[trigger] all[j])),
    {
        if !is_whitespace(c) {
            ok = false;
        }
    }
    ok
}

/// Whether `s` is among `v`.
pub fn contains_str(v: &Vec<String>, s: &str) -> (r: bool)
    ensures
        r == views(v@).contains(s@),
{
    let mut i: usize = 0;
    while i < v.len()
        invariant
            i <= v@.len(),
            forall|j: int| 0 <= j < i ==> v@[j]@ != s@,
        decreases v@.len() - i,
    {
        if str_eq(v[i].as_str(), s) {
            proof {
                assert(views(v@)[i as int] == s@);
            }
            return true;
        }
        i = i + 1;
    }
    proof {
        if views(v@).contains(s@) {
            let j = choose|j: int| 0 <= j < views(v@).len() && views(v@)[j] == s@;
            assert(v@[j]@ == s@);
        }
    }
    false
}

/// `  <n>| <text>`: a line of body context shown under a definition.
pub open spec fn body_line(n: int, text: Seq<char>, max_len: int) -> Seq<char> {
    "  "@ + decimal(n as nat) + "| "@ + trunc_spec(text, None, max_len)
}

/// Body context below a match: up to `limit` lines of `ctx`, numbered from
/// `start`, stopping before the first blank line.
pub open spec fn expansion(ctx: Seq<Seq<char>>, limit: nat, start: int, max_len: int) -> Seq<Seq<char>>
    decreases limit,
{
    if limit == 0 || ctx.len() == 0 || is_blank(ctx[0]) {
        seq![]
    } else {
        seq![body_line(start, ctx[0], max_len)] + expansion(ctx.drop_first(), (limit - 1) as nat, start + 1, max_len)
    }
}

/// Lines of `<prefix><n><sep><text>`, one per context line, numbered from `start`.
pub open spec fn numbered(prefix: Seq<char>, sep: Seq<char>, ctx: Seq<Seq<char>>, start: int, max_len: int) -> Seq<Seq<char>>
{
    Seq::new(ctx.len(), |i: int| prefix + decimal((start + i) as nat) + sep + trunc_spec(ctx[i], None, max_len))
}

/// One numbered line: `<prefix><n><sep><text truncated>`.
fn numbered_line(prefix: &str, n: u64, sep: &str, text: &str, max_len: usize) -> (r: String)
    requires
    ensures
        r@ == prefix@ + decimal(n as nat) + sep@ + trunc_spec(text@, None, max_len as int),
{
    let mut out = String::from_str(prefix);
    let num = u64_to_string(n);
    out.append(num.as_str());
    out.append(sep);
    let t = trunc_centered(text, None, max_len);
    out.append(t.as_str());
    out
}

/// The body context lines of [`expansion`].
fn expansion_lines(ctx: &Vec<String>, limit: usize, start: u64, max_len: usize) -> (r: Vec<String>)
    requires
        start as int + ctx@.len() <= u64::MAX,
    ensures
        views(r@) == expansion(views(ctx@), limit as nat, start as int, max_len as int),
{
    let mut out: Vec<String> = Vec::new();
    let mut i: usize = 0;
    let ghost all = views(ctx@);
    proof {
        assert(all.skip(0) =~= all);
        assert(views(out@) =~= Seq::<Seq<char>>::empty());
        assert(views(out@) + expansion(all, limit as nat, start as int, max_len as int)
            =~= expansion(all, limit as nat, start as int, max_len as int));
    }
    while i < ctx.len() && i < limit
        invariant
            i <= ctx@.len(),
            i <= limit,
            all == views(ctx@),
            start as int + ctx@.len() <= u64::MAX,
                views(out@) + expansion(all.skip(i as int), (limit - i) as nat, start + i, max_len as int)
                == expansion(all, limit as nat, start as int, max_len as int),
        decreases ctx@.len() - i,
    {
        let ghost rest = all.skip(i as int);
        assert(rest[0] == ctx@[i as int]@);
        if blank(ctx[i].as_str()) {
            assert(expansion(rest, (limit - i) as nat, start + i, max_len as int) =~= Seq::<Seq<char>>::empty());
            assert(views(out@) =~= views(out@) + Seq::<Seq<char>>::empty());
            return out;
        }
        let line = numbered_line("  ", start + i as u64, "| ", ctx[i].as_str(), max_len);
        let ghost before = views(out@);
        out.push(line);
        proof {
            assert(rest.drop_first() =~= all.skip(i + 1));
            assert(views(out@) =~= before.push(body_line(start + i, rest[0], max_len as int)));
            assert(views(out@) + expansion(all.skip(i + 1), (limit - (i + 1)) as nat, start + i + 1, max_len as int)
                =~= before + (seq![body_line(start + i, rest[0], max_len as int)] + expansion(rest.drop_first(), ((limit - i) - 1) as nat, start + i + 1, max_len as int)));
        }
        i = i + 1;
    }
    proof {
        let rest = all.skip(i as int);
        assert(expansion(rest, (limit - i) as nat, start + i, max_len as int) =~= Seq::<Seq<char>>::empty());
        assert(views(out@) =~= views(out@) + Seq::<Seq<char>>::empty());
    }
    out
}

/// The numbered lines of [`numbered`].
fn numbered_lines(prefix: &str, sep: &str, ctx: &Vec<String>, start: u64, max_len: usize) -> (r: Vec<String>)
    requires
        start as int + ctx@.len() <= u64::MAX,
    ensures
        views(r@) == numbered(prefix@, sep@, views(ctx@), start as int, max_len as int),
{
    let mut out: Vec<String> = Vec::new();
    let mut i: usize = 0;
    while i < ctx.len()
        invariant
            i <= ctx@.len(),
            start as int + ctx@.len() <= u64::MAX,
                out@.len() == i,
            forall|j: int| 0 <= j < i ==> #[trigger] out@[j]@ == numbered(prefix@, sep@, views(ctx@), start as int, max_len as int)[j],
        decreases ctx@.len() - i,
    {
        let line = numbered_line(prefix, start + i as u64, sep, ctx[i].as_str(), max_len);
        out.push(line);
        i = i + 1;
    }
    proof {
        assert(views(out@) =~= numbered(prefix@, sep@, views(ctx@), start as int, max_len as int));
    }
    out
}


/// Path of the file a match belongs to.
pub open spec fn path_of(files: Seq<FileItem>, m: GrepMatch) -> Seq<char> {
    files[m.file_index as int].relative_path@
}

/// Every match points into `files`.
pub open spec fn indexed(items: Seq<GrepMatch>, files: Seq<FileItem>) -> bool {
    forall|i: int| 0 <= i < items.len() ==> (#[trigger] items[i]).file_index < files.len()
}

/// The store after recording the resume offset `off`.
pub open spec fn stored_offset(before: CursorStore, after: CursorStore, off: usize) -> bool {
    &&& after.wf()
    &&& after.counter() == next_id(before.counter())
    &&& after.ids() == evict(before.ids().push(after.counter()))
    &&& after.states() == evict(before.states().push(CursorState::FileOffset(off)))
}

/// The closing cursor line, present when there is a next page.
pub open spec fn cursor_part(next_file_offset: usize, id: u64) -> Seq<Seq<char>> {
    if next_file_offset > 0 {
        seq!["\ncursor: "@ + decimal(id as nat)]
    } else {
        seq![]
    }
}

/// What the cursor store becomes when a page ends at `next_file_offset`:
/// a new cursor for a next page, no change otherwise.
pub open spec fn cursor_effect(before: CursorStore, after: CursorStore, next_file_offset: usize) -> bool {
    if next_file_offset > 0 {
        stored_offset(before, after, next_file_offset)
    } else {
        after == before
    }
}

/// Append the cursor line for a next page, storing its cursor.
fn push_cursor(lines: &mut Vec<String>, cursor_store: &mut CursorStore, next_file_offset: usize)
    requires
        old(cursor_store).wf(),
    ensures
        final(cursor_store).wf(),
        cursor_effect(*old(cursor_store), *final(cursor_store), next_file_offset),
        views(final(lines)@) == views(old(lines)@) + cursor_part(next_file_offset, final(cursor_store).counter()),
{
    if next_file_offset > 0 {
        let id = cursor_store.store(next_file_offset);
        let mut line = String::from_str("\ncursor: ");
        line.append(id.as_str());
        let ghost before = views(lines@);
        lines.push(line);
        proof {
            assert(views(lines@) =~= before + cursor_part(next_file_offset, cursor_store.counter()));
        }
    } else {
        proof {
            assert(views(lines@) =~= views(lines@) + cursor_part(next_file_offset, cursor_store.counter()));
        }
    }
}

/// First-match summary of one file.
pub struct FileMeta {
    pub file_index: usize,
    pub line_number: u64,
    pub line_content: String,
    pub is_definition: bool,
    pub match_ranges: Vec<(u32, u32)>,
    pub context_after: Vec<String>,
}

impl FileMeta {
    /// This summary describes match `m`.
    pub open spec fn of(self, m: GrepMatch) -> bool {
        &&& self.file_index == m.file_index
        &&& self.line_number == m.line_number
        &&& self.line_content@ == m.line_content@
        &&& self.is_definition == m.is_definition
        &&& self.match_ranges@ == m.match_byte_offsets@
        &&& views(self.context_after@) == views(m.context_after@)
    }
}

/// Among the first `n` matches, the index of each one whose file has not
/// occurred before, in order.
pub open spec fn preview_idx(items: Seq<GrepMatch>, files: Seq<FileItem>, n: nat) -> Seq<int>
    decreases n,
{
    if n == 0 {
        seq![]
    } else {
        let prev = preview_idx(items, files, (n - 1) as nat);
        if exists|k: int| 0 <= k < prev.len() && path_of(files, items[#[trigger] prev[k]]) == path_of(files, items[n - 1]) {
            prev
        } else {
            prev.push(n - 1)
        }
    }
}

proof fn lemma_preview_idx_bounds(items: Seq<GrepMatch>, files: Seq<FileItem>, n: nat)
    ensures
        forall|k: int| 0 <= k < preview_idx(items, files, n).len() ==> 0 <= #[trigger] preview_idx(items, files, n)[k] < n,
        preview_idx(items, files, n).len() <= n,
    decreases n,
{
    if n > 0 {
        lemma_preview_idx_bounds(items, files, (n - 1) as nat);
    }
}

/// The first match of each file, in order of first appearance.
pub fn collect_file_preview(items: &[GrepMatch], files: &[FileItem]) -> (r: Vec<FileMeta>)
    requires
        indexed(items@, files@),
    ensures
        r@.len() == preview_idx(items@, files@, items@.len()).len(),
        forall|k: int| 0 <= k < r@.len() ==> (#[trigger] r@[k]).of(items@[preview_idx(items@, files@, items@.len())[k]]),
{
    let mut out: Vec<FileMeta> = Vec::new();
    let mut i: usize = 0;
    while i < items.len()
        invariant
            i <= items@.len(),
            indexed(items@, files@),
            out@.len() == preview_idx(items@, files@, i as nat).len(),
            forall|k: int| 0 <= k < out@.len() ==> (#[trigger] out@[k]).of(items@[preview_idx(items@, files@, i as nat)[k]]),
        decreases items@.len() - i,
    {
        let ghost prev = preview_idx(items@, files@, i as nat);
        proof {
            lemma_preview_idx_bounds(items@, files@, i as nat);
        }
        let m = &items[i];
        assert(m.file_index < files@.len());
        let path = files[m.file_index].relative_path.as_str();
        let mut k: usize = 0;
        let mut seen = false;
        while k < out.len()
            invariant
                k <= out@.len(),
                out@.len() == prev.len(),
                i < items@.len(),
                indexed(items@, files@),
                forall|j: int| 0 <= j < prev.len() ==> 0 <= #[trigger] prev[j] < i,
                forall|j: int| 0 <= j < out@.len() ==> (#[trigger] out@[j]).of(items@[prev[j]]),
                path@ == path_of(files@, items@[i as int]),
                !seen ==> forall|j: int| 0 <= j < k ==> path_of(files@, items@[#[trigger] prev[j]]) != path@,
                seen ==> exists|j: int| 0 <= j < prev.len() && path_of(files@, items@[#[trigger] prev[j]]) == path@,
            decreases out@.len() - k,
        {
            assert(out@[k as int].of(items@[prev[k as int]]));
            assert(items@[prev[k as int]].file_index < files@.len());
            if str_eq(files[out[k].file_index].relative_path.as_str(), path) {
                seen = true;
                assert(path_of(files@, items@[prev[k as int]]) == path@);
            }
            k = k + 1;
        }
        if !seen {
            let meta = FileMeta {
                file_index: m.file_index,
                line_number: m.line_number,
                line_content: m.line_content.clone(),
                is_definition: m.is_definition,
                match_ranges: copy_ranges(&m.match_byte_offsets),
                context_after: copy_strings(&m.context_after),
            };
            out.push(meta);
            proof {
                assert(preview_idx(items@, files@, (i + 1) as nat) == prev.push(i as int));
            }
        } else {
            proof {
                assert(preview_idx(items@, files@, (i + 1) as nat) == prev);
            }
        }
        i = i + 1;
    }
    out
}

/// Index of the first entry for path `p`, or -1.
pub open spec fn entry_index(e: Seq<(Seq<char>, nat)>, p: Seq<char>) -> int
    decreases e.len(),
{
    if e.len() == 0 {
        -1
    } else if e[0].0 == p {
        0
    } else {
        let r = entry_index(e.drop_first(), p);
        if r < 0 {
            -1
        } else {
            r + 1
        }
    }
}

/// Per file, in order of first match, the number of matches among the
/// first `n`.
pub open spec fn count_entries(items: Seq<GrepMatch>, files: Seq<FileItem>, n: nat) -> Seq<(Seq<char>, nat)>
    decreases n,
{
    if n == 0 {
        seq![]
    } else {
        let prev = count_entries(items, files, (n - 1) as nat);
        let p = path_of(files, items[n - 1]);
        let k = entry_index(prev, p);
        if k >= 0 {
            prev.update(k, (p, prev[k].1 + 1))
        } else {
            prev.push((p, 1nat))
        }
    }
}

/// `<path>: <count>` per file.
pub open spec fn count_lines(e: Seq<(Seq<char>, nat)>) -> Seq<Seq<char>> {
    e.map_values(|x: (Seq<char>, nat)| x.0 + ": "@ + decimal(x.1))
}

proof fn lemma_entry_index_first(e: Seq<(Seq<char>, nat)>, p: Seq<char>, i: int)
    requires
        0 <= i < e.len(),
        e[i].0 == p,
        forall|j: int| 0 <= j < i ==> e[j].0 != p,
    ensures
        entry_index(e, p) == i,
    decreases i,
{
    if i > 0 {
        let t = e.drop_first();
        assert forall|j: int| 0 <= j < i - 1 implies t[j].0 != p by {
            assert(t[j] == e[j + 1]);
        }
        lemma_entry_index_first(t, p, i - 1);
    }
}

proof fn lemma_entry_index_absent(e: Seq<(Seq<char>, nat)>, p: Seq<char>)
    requires
        forall|j: int| 0 <= j < e.len() ==> e[j].0 != p,
    ensures
        entry_index(e, p) < 0,
    decreases e.len(),
{
    if e.len() > 0 {
        let t = e.drop_first();
        assert forall|j: int| 0 <= j < t.len() implies t[j].0 != p by {
            assert(t[j] == e[j + 1]);
        }
        lemma_entry_index_absent(t, p);
    }
}

proof fn lemma_count_entries_bound(items: Seq<GrepMatch>, files: Seq<FileItem>, n: nat)
    ensures
        forall|k: int| 0 <= k < count_entries(items, files, n).len() ==> #[trigger] count_entries(items, files, n)[k].1 <= n,
    decreases n,
{
    if n > 0 {
        lemma_count_entries_bound(items, files, (n - 1) as nat);
        let prev = count_entries(items, files, (n - 1) as nat);
        let p = path_of(files, items[n - 1]);
        let k = entry_index(prev, p);
        if k >= 0 {
            lemma_entry_index_range(prev, p);
        }
    }
}

proof fn lemma_entry_index_range(e: Seq<(Seq<char>, nat)>, p: Seq<char>)
    ensures
        entry_index(e, p) < e.len(),
        entry_index(e, p) >= 0 ==> e[entry_index(e, p)].0 == p,
    decreases e.len(),
{
    if e.len() > 0 {
        lemma_entry_index_range(e.drop_first(), p);
    }
}

/// The count view of the exec entries.
pub open spec fn entries_view(v: Seq<(String, usize)>) -> Seq<(Seq<char>, nat)> {
    v.map_values(|x: (String, usize)| (x.0@, x.1 as nat))
}

/// Position of the entry for `path`.
fn find_entry(counts: &Vec<(String, usize)>, path: &str) -> (r: Option<usize>)
    ensures
        match r {
            Some(k) => k < counts@.len() && k as int == entry_index(entries_view(counts@), path@),
            None => entry_index(entries_view(counts@), path@) < 0,
        },
{
    let ghost e = entries_view(counts@);
    let mut k: usize = 0;
    while k < counts.len()
        invariant
            k <= counts@.len(),
            e == entries_view(counts@),
            forall|j: int| 0 <= j < k ==> e[j].0 != path@,
        decreases counts@.len() - k,
    {
        assert(e[k as int] == (counts@[k as int].0@, counts@[k as int].1 as nat));
        if str_eq(counts[k].0.as_str(), path) {
            proof {
                lemma_entry_index_first(e, path@, k as int);
            }
            return Some(k);
        }
        k = k + 1;
    }
    proof {
        lemma_entry_index_absent(e, path@);
    }
    None
}

/// `<path>: <count>` per file, in order of first match, then the cursor line.
pub fn format_count(
    items: &[GrepMatch],
    files: &[FileItem],
    next_file_offset: usize,
    cursor_store: &mut CursorStore,
) -> (r: String)
    requires
        indexed(items@, files@),
        old(cursor_store).wf(),
    ensures
        final(cursor_store).wf(),
        cursor_effect(*old(cursor_store), *final(cursor_store), next_file_offset),
        r@ == join_lines(
            count_lines(count_entries(items@, files@, items@.len()))
                + cursor_part(next_file_offset, final(cursor_store).counter()),
        ),
{
    let mut counts: Vec<(String, usize)> = Vec::new();
    let mut i: usize = 0;
    while i < items.len()
        invariant
            i <= items@.len(),
            indexed(items@, files@),
            entries_view(counts@) == count_entries(items@, files@, i as nat),
        decreases items@.len() - i,
    {
        let ghost prev = count_entries(items@, files@, i as nat);
        proof {
            lemma_count_entries_bound(items@, files@, i as nat);
        }
        let m = &items[i];
        assert(m.file_index < files@.len());
        let path = files[m.file_index].relative_path.as_str();
        let found = find_entry(&counts, path);
        let ghost p = path@;
        if let Some(k) = found {
            proof {
                lemma_entry_index_range(prev, p);
                assert(prev[k as int].1 <= i);
            }
            let c = counts[k].1;
            let name = counts[k].0.clone();
            counts.set(k, (name, c + 1));
            proof {
                assert(entries_view(counts@) =~= prev.update(k as int, (p, prev[k as int].1 + 1)));
            }
        } else {
            counts.push((files[m.file_index].relative_path.clone(), 1));
            proof {
                assert(entries_view(counts@) =~= prev.push((p, 1nat)));
            }
        }
        i = i + 1;
    }
    let mut lines: Vec<String> = Vec::new();
    let mut j: usize = 0;
    while j < counts.len()
        invariant
            j <= counts@.len(),
            lines@.len() == j,
            forall|t: int| 0 <= t < j ==> #[trigger] lines@[t]@ == count_lines(entries_view(counts@))[t],
        decreases counts@.len() - j,
    {
        let mut line = counts[j].0.clone();
        line.append(": ");
        let n = u64_to_string(counts[j].1 as u64);
        line.append(n.as_str());
        lines.push(line);
        j = j + 1;
    }
    proof {
        assert(views(lines@) =~= count_lines(entries_view(counts@)));
    }
    push_cursor(&mut lines, cursor_store, next_file_offset);
    join_strings(&lines)
}


/// Width kept of a previewed line.
pub const MAX_PREVIEW: usize = 120;
/// Width kept of a line in full content output.
pub const MAX_LINE_LEN: usize = 180;
/// Body lines shown under the first expanded definition.
pub const MAX_DEF_EXPAND_FIRST: usize = 8;
/// Body lines shown under later expanded definitions.
pub const MAX_DEF_EXPAND: usize = 5;
/// Body lines shown under the first match of a small result set.
pub const MAX_FIRST_MATCH_EXPAND: usize = 8;

/// The highlight ranges of a match, `None` when it has none.
pub open spec fn ranges_opt(m: GrepMatch) -> Option<Seq<(u32, u32)>> {
    if m.match_byte_offsets@.len() == 0 {
        None
    } else {
        Some(m.match_byte_offsets@)
    }
}

/// A match can be rendered with lines cut at `max_len`: its line and body
/// numbers fit in `u64`, and its line can be cut around its first range.
pub open spec fn renderable(m: GrepMatch, max_len: int) -> bool {
    &&& m.line_number as int + 1 + m.context_after@.len() <= u64::MAX
    &&& trunc_defined(m.line_content@, ranges_opt(m), max_len)
}

/// First path, scanning the previewed files in order, that is non-empty
/// and (when `defs_only`) belongs to a definition; empty when there is none.
pub open spec fn first_path(items: Seq<GrepMatch>, files: Seq<FileItem>, pv: Seq<int>, defs_only: bool) -> Seq<char>
    decreases pv.len(),
{
    if pv.len() == 0 {
        seq![]
    } else {
        let prev = first_path(items, files, pv.drop_last(), defs_only);
        let m = items[pv.last()];
        if prev.len() > 0 {
            prev
        } else if !defs_only || m.is_definition {
            path_of(files, m)
        } else {
            seq![]
        }
    }
}

/// The file to read next, in files-with-matches mode.
pub open spec fn fwm_suggestion(items: Seq<GrepMatch>, files: Seq<FileItem>, pv: Seq<int>) -> Seq<Seq<char>> {
    let def = first_path(items, files, pv, true);
    let first = first_path(items, files, pv, false);
    let s = if def.len() > 0 { def } else { first };
    let n = pv.len();
    if s.len() == 0 {
        seq![]
    } else if n == 1 {
        seq!["→ Read "@ + s + " (only match — no need to search further)"@]
    } else if def.len() > 0 && n <= 5 {
        seq!["→ Read "@ + s + " (definition found)"@]
    } else if def.len() > 0 {
        seq!["→ Read "@ + s + " (definition)"@]
    } else if n <= 3 {
        seq!["→ Read "@ + s + " (best match)"@]
    } else {
        seq!["→ Read "@ + s]
    }
}

/// Body lines shown under a previewed file, and the number of expanded
/// definitions after it.
pub open spec fn fwm_limit(is_def: bool, small: bool, first: bool, dec: nat) -> (nat, nat) {
    if is_def {
        (if dec == 0 { MAX_DEF_EXPAND_FIRST as nat } else { MAX_DEF_EXPAND as nat }, dec + 1)
    } else if small && first {
        (MAX_FIRST_MATCH_EXPAND as nat, dec)
    } else if small {
        (MAX_DEF_EXPAND as nat, dec)
    } else {
        (0, dec)
    }
}

/// Lines of the `k`-th previewed file: its path with a `[def]` mark and a
/// size tag, then, for a definition, the first file or a small result set,
/// its first matching line and body context.
pub open spec fn fwm_file(items: Seq<GrepMatch>, files: Seq<FileItem>, pv: Seq<int>, k: int, dec: nat, auto_expand: bool) -> (Seq<Seq<char>>, nat) {
    let m = items[pv[k]];
    let file = files[m.file_index as int];
    let small = pv.len() <= 5;
    let header = file.relative_path@ + (if m.is_definition { " [def]"@ } else { seq![] }) + size_tag_spec(file.size);
    if m.line_content@.len() > 0 && (m.is_definition || k == 0 || small) {
        let pl = "  "@ + decimal(m.line_number as nat) + ": "@ + trunc_spec(m.line_content@, ranges_opt(m), MAX_PREVIEW as int);
        if auto_expand && m.context_after@.len() > 0 {
            let (limit, d2) = fwm_limit(m.is_definition, small, k == 0, dec);
            (seq![header, pl] + expansion(views(m.context_after@), limit, m.line_number + 1, MAX_PREVIEW as int), d2)
        } else {
            (seq![header, pl], dec)
        }
    } else {
        (seq![header], dec)
    }
}

/// Lines of the first `n` previewed files, and the number of definitions expanded.
pub open spec fn fwm_fold(items: Seq<GrepMatch>, files: Seq<FileItem>, pv: Seq<int>, n: nat, auto_expand: bool) -> (Seq<Seq<char>>, nat)
    decreases n,
{
    if n == 0 {
        (seq![], 0)
    } else {
        let (l, d) = fwm_fold(items, files, pv, (n - 1) as nat, auto_expand);
        let (l2, d2) = fwm_file(items, files, pv, n - 1, d, auto_expand);
        (l + l2, d2)
    }
}

/// Every match renders with lines cut at `max_len`, and every file size
/// can be tagged.
pub open spec fn renderable_all(items: Seq<GrepMatch>, files: Seq<FileItem>, max_len: int) -> bool {
    &&& indexed(items, files)
    &&& forall|i: int| 0 <= i < items.len() ==> renderable(#[trigger] items[i], max_len)
    &&& forall|j: int| 0 <= j < files.len() ==> (#[trigger] files[j]).size <= u64::MAX - 512
}

/// The first non-empty path among the previews (definitions only when asked).
fn first_preview_path(metas: &Vec<FileMeta>, files: &[FileItem], defs_only: bool, Ghost(items): Ghost<Seq<GrepMatch>>, Ghost(pv): Ghost<Seq<int>>) -> (r: String)
    requires
        metas@.len() == pv.len(),
        forall|k: int| 0 <= k < pv.len() ==> 0 <= #[trigger] pv[k] < items.len(),
        forall|k: int| 0 <= k < metas@.len() ==> (#[trigger] metas@[k]).of(items[pv[k]]),
        indexed(items, files@),
    ensures
        r@ == first_path(items, files@, pv, defs_only),
{
    let mut out = String::new();
    let mut k: usize = 0;
    while k < metas.len()
        invariant
            k <= metas@.len(),
            metas@.len() == pv.len(),
            forall|j: int| 0 <= j < pv.len() ==> 0 <= #[trigger] pv[j] < items.len(),
            forall|j: int| 0 <= j < metas@.len() ==> (#[trigger] metas@[j]).of(items[pv[j]]),
            indexed(items, files@),
            out@ == first_path(items, files@, pv.take(k as int), defs_only),
        decreases metas@.len() - k,
    {
        let ghost m = items[pv[k as int]];
        proof {
            assert(pv.take(k + 1).drop_last() =~= pv.take(k as int));
            assert(metas@[k as int].of(m));
            assert(m.file_index < files@.len());
        }
        if out.as_str().is_empty() && (!defs_only || metas[k].is_definition) {
            out = files[metas[k].file_index].relative_path.clone();
        }
        k = k + 1;
    }
    proof {
        assert(pv.take(k as int) =~= pv);
    }
    out
}

fn suggestion_line(s: &String, tail: &str) -> (r: String)
    ensures
        r@ == "→ Read "@ + s@ + tail@,
{
    let mut line = String::from_str("→ Read ");
    line.append(s.as_str());
    line.append(tail);
    line
}

/// Files with matches, each with its first matching line where useful.
pub fn format_files_with_matches(
    items: &[GrepMatch],
    files: &[FileItem],
    next_file_offset: usize,
    auto_expand_defs: bool,
    cursor_store: &mut CursorStore,
) -> (r: String)
    requires
        renderable_all(items@, files@, MAX_PREVIEW as int),
        old(cursor_store).wf(),
    ensures
        final(cursor_store).wf(),
        cursor_effect(*old(cursor_store), *final(cursor_store), next_file_offset),
        r@ == ({
            let pv = preview_idx(items@, files@, items@.len());
            join_lines(
                fwm_suggestion(items@, files@, pv)
                    + fwm_fold(items@, files@, pv, pv.len(), auto_expand_defs).0
                    + cursor_part(next_file_offset, final(cursor_store).counter()),
            )
        }),
{
    let metas = collect_file_preview(items, files);
    let ghost pv = preview_idx(items@, files@, items@.len());
    proof {
        lemma_preview_idx_bounds(items@, files@, items@.len());
    }
    let first_def = first_preview_path(&metas, files, true, Ghost(items@), Ghost(pv));
    let first = first_preview_path(&metas, files, false, Ghost(items@), Ghost(pv));
    let has_def = !first_def.as_str().is_empty();
    let suggest = if has_def { first_def } else { first };
    let file_count = metas.len();
    let mut lines: Vec<String> = Vec::new();
    if !suggest.as_str().is_empty() {
        let line = if file_count == 1 {
            suggestion_line(&suggest, " (only match — no need to search further)")
        } else if has_def && file_count <= 5 {
            suggestion_line(&suggest, " (definition found)")
        } else if has_def {
            suggestion_line(&suggest, " (definition)")
        } else if file_count <= 3 {
            suggestion_line(&suggest, " (best match)")
        } else {
            let mut l = String::from_str("→ Read ");
            l.append(suggest.as_str());
            l
        };
        lines.push(line);
    }
    assert(views(lines@) =~= fwm_suggestion(items@, files@, pv));
    let ghost head = views(lines@);
    let is_small_set = file_count <= 5;
    let mut dec: usize = 0;
    let mut k: usize = 0;
    while k < metas.len()
        invariant
            k <= metas@.len(),
            metas@.len() == pv.len(),
            file_count == pv.len(),
            is_small_set == (pv.len() <= 5),
            forall|j: int| 0 <= j < pv.len() ==> 0 <= #[trigger] pv[j] < items@.len(),
            forall|j: int| 0 <= j < metas@.len() ==> (#[trigger] metas@[j]).of(items@[pv[j]]),
            renderable_all(items@, files@, MAX_PREVIEW as int),
            views(lines@) == head + fwm_fold(items@, files@, pv, k as nat, auto_expand_defs).0,
            dec as nat == fwm_fold(items@, files@, pv, k as nat, auto_expand_defs).1,
            dec <= k,
        decreases metas@.len() - k,
    {
        let fm = &metas[k];
        let ghost m = items@[pv[k as int]];
        proof {
            assert(fm.of(m));
            assert(renderable(m, MAX_PREVIEW as int));
            assert(m.file_index < files@.len());
        }
        let file = &files[fm.file_index];
        let ghost before = views(lines@);
        let is_def = fm.is_definition;
        let mut header = file.relative_path.clone();
        if is_def {
            header.append(" [def]");
        }
        let tag = size_tag(file.size);
        header.append(tag.as_str());
        lines.push(header);
        let ghost d0 = dec as nat;
        if !fm.line_content.as_str().is_empty() && (is_def || k == 0 || is_small_set) {
            let ranges: Option<&[(u32, u32)]> = if fm.match_ranges.len() == 0 {
                None
            } else {
                Some(fm.match_ranges.as_slice())
            };
            let mut pl = String::from_str("  ");
            let num = u64_to_string(fm.line_number);
            pl.append(num.as_str());
            pl.append(": ");
            let t = trunc_centered(fm.line_content.as_str(), ranges, MAX_PREVIEW);
            pl.append(t.as_str());
            lines.push(pl);
            if auto_expand_defs && fm.context_after.len() > 0 {
                let limit: usize = if is_def {
                    let l = if dec == 0 { MAX_DEF_EXPAND_FIRST } else { MAX_DEF_EXPAND };
                    dec = dec + 1;
                    l
                } else if is_small_set && k == 0 {
                    MAX_FIRST_MATCH_EXPAND
                } else if is_small_set {
                    MAX_DEF_EXPAND
                } else {
                    0
                };
                if limit > 0 {
                    proof {
                        assert(views(fm.context_after@).len() == fm.context_after@.len());
                        assert(views(m.context_after@).len() == m.context_after@.len());
                    }
                    let body = expansion_lines(&fm.context_after, limit, fm.line_number + 1, MAX_PREVIEW);
                    let ghost mid = views(lines@);
                    append_strings(&mut lines, body);
                } else {
                    proof {
                        assert(expansion(views(m.context_after@), 0, m.line_number + 1, MAX_PREVIEW as int) =~= Seq::<Seq<char>>::empty());
                    }
                }
            }
        }
        proof {
            let (l2, d2) = fwm_file(items@, files@, pv, k as int, d0, auto_expand_defs);
            assert(views(lines@) =~= before + l2);
            assert(dec as nat == d2);
            assert(head + fwm_fold(items@, files@, pv, (k + 1) as nat, auto_expand_defs).0
                =~= (head + fwm_fold(items@, files@, pv, k as nat, auto_expand_defs).0) + l2);
        }
        k = k + 1;
    }
    push_cursor(&mut lines, cursor_store, next_file_offset);
    join_strings(&lines)
}

/// Append `more` to `lines`.
fn append_strings(lines: &mut Vec<String>, more: Vec<String>)
    ensures
        views(final(lines)@) == views(old(lines)@) + views(more@),
{
    let mut more = more;
    let ghost m = more@;
    lines.append(&mut more);
    proof {
        assert(views(lines@) =~= views(old(lines)@) + views(m));
    }
}


/// The file to read next, in content mode.
pub open spec fn content_suggestion(items: Seq<GrepMatch>, files: Seq<FileItem>, pv: Seq<int>) -> Seq<Seq<char>> {
    let def = first_path(items, files, pv, true);
    let first = first_path(items, files, pv, false);
    let s = if def.len() > 0 { def } else { first };
    let n = pv.len();
    if s.len() == 0 {
        seq![]
    } else if n == 1 {
        seq!["→ Read "@ + s + " (only match)"@]
    } else if def.len() > 0 {
        seq!["→ Read "@ + s + " [def]"@]
    } else if n <= 3 {
        seq!["→ Read "@ + s + " (best match)"@]
    } else {
        seq![]
    }
}

/// Number of distinct files among the first `n` matches.
pub open spec fn distinct_files(items: Seq<GrepMatch>, n: nat) -> nat
    decreases n,
{
    if n == 0 {
        0
    } else {
        let prev = distinct_files(items, (n - 1) as nat);
        if exists|j: int| 0 <= j < n - 1 && (#[trigger] items[j]).file_index == items[n - 1].file_index {
            prev
        } else {
            prev + 1
        }
    }
}

/// Rank of a match in the expanded order: definitions, then other lines,
/// then imports.
pub open spec fn kind(m: GrepMatch) -> int {
    if m.is_definition {
        0
    } else if m.is_import {
        2
    } else {
        1
    }
}

/// Indices of the first `n` matches of rank `k`, in order.
pub open spec fn of_kind(items: Seq<GrepMatch>, k: int, n: nat) -> Seq<int>
    decreases n,
{
    if n == 0 {
        seq![]
    } else {
        let p = of_kind(items, k, (n - 1) as nat);
        if kind(items[n - 1]) == k {
            p.push(n - 1)
        } else {
            p
        }
    }
}

/// Order in which matches are rendered: by rank when definitions are
/// expanded (keeping the original order within a rank), as given otherwise.
pub open spec fn render_order(items: Seq<GrepMatch>, auto_expand: bool) -> Seq<int> {
    if auto_expand {
        of_kind(items, 0, items.len()) + of_kind(items, 1, items.len()) + of_kind(items, 2, items.len())
    } else {
        Seq::new(items.len(), |i: int| i)
    }
}

/// Lines of context before a match, numbered up to the match line.
pub open spec fn before_lines(m: GrepMatch) -> Seq<Seq<char>> {
    numbered(" "@, "-"@, views(m.context_before@), sat_sub(m.line_number as int, m.context_before@.len() as int), MAX_LINE_LEN as int)
}

/// ` <n>: <line>`, the line cut around its first match.
pub open spec fn match_line(m: GrepMatch) -> Seq<char> {
    " "@ + decimal(m.line_number as nat) + ": "@ + trunc_spec(m.line_content@, Some(m.match_byte_offsets@), MAX_LINE_LEN as int)
}

/// Lines of context after a match, then a `--` separator.
pub open spec fn after_lines(m: GrepMatch) -> Seq<Seq<char>> {
    numbered(" "@, "-"@, views(m.context_after@), m.line_number + 1, MAX_LINE_LEN as int).push("--"@)
}

/// The lines of one rendered match: the file path when the file changes,
/// requested context, the match line, and up to `limit` body lines.
pub open spec fn chunk_lines(m: GrepMatch, path: Seq<char>, header: bool, show_context: bool, limit: nat) -> Seq<Seq<char>> {
    (if header { seq![path] } else { seq![] })
        + (if show_context && m.context_before@.len() > 0 { before_lines(m) } else { seq![] })
        + seq![match_line(m)]
        + (if show_context && m.context_after@.len() > 0 { after_lines(m) } else { seq![] })
        + expansion(views(m.context_after@), limit, m.line_number + 1, MAX_LINE_LEN as int)
}

/// Progress of content rendering: chunks emitted, the file of the last
/// rendered match, files whose definition was expanded, characters used,
/// chunks shown, and whether the budget stopped rendering.
pub struct ContentState {
    pub chunks: Seq<Seq<char>>,
    pub current: Seq<char>,
    pub expanded: Seq<Seq<char>>,
    pub chars: int,
    pub shown: int,
    pub done: bool,
}

/// Render one more match. Import lines are skipped once a definition was
/// expanded; a definition's body is expanded once per file (8 lines for the
/// first file, 5 after); rendering stops before the chunk that would pass
/// `max_chars` bytes, unless nothing was shown yet.
pub open spec fn content_step(st: ContentState, m: GrepMatch, path: Seq<char>, show_context: bool, auto_expand: bool, max_chars: int) -> ContentState {
    if st.done {
        st
    } else if auto_expand && m.is_import && st.expanded.len() > 0 {
        ContentState { current: path, ..st }
    } else {
        let expand = auto_expand && !show_context && m.is_definition && m.context_after@.len() > 0 && !st.expanded.contains(path);
        let limit: nat = if expand {
            if st.expanded.len() == 0 { MAX_DEF_EXPAND_FIRST as nat } else { MAX_DEF_EXPAND as nat }
        } else {
            0
        };
        let expanded = if expand { st.expanded.push(path) } else { st.expanded };
        let chunk = join_lines(chunk_lines(m, path, path != st.current, show_context, limit));
        let len = encode_utf8(chunk).len();
        if st.chars + len > max_chars && st.shown > 0 {
            ContentState { current: path, expanded, done: true, ..st }
        } else {
            ContentState {
                chunks: st.chunks.push(chunk),
                current: path,
                expanded,
                chars: st.chars + len,
                shown: st.shown + 1,
                done: false,
            }
        }
    }
}

/// Rendering state after the first `n` matches of `order`.
pub open spec fn content_fold(
    items: Seq<GrepMatch>,
    files: Seq<FileItem>,
    order: Seq<int>,
    n: nat,
    show_context: bool,
    auto_expand: bool,
    max_chars: int,
) -> ContentState
    decreases n,
{
    if n == 0 {
        ContentState { chunks: seq![], current: seq![], expanded: seq![], chars: 0, shown: 0, done: false }
    } else {
        let st = content_fold(items, files, order, (n - 1) as nat, show_context, auto_expand, max_chars);
        let m = items[order[n - 1]];
        content_step(st, m, path_of(files, m), show_context, auto_expand, max_chars)
    }
}

proof fn lemma_content_fold_done(
    items: Seq<GrepMatch>,
    files: Seq<FileItem>,
    order: Seq<int>,
    i: nat,
    j: nat,
    show_context: bool,
    auto_expand: bool,
    max_chars: int,
)
    requires
        i <= j,
        content_fold(items, files, order, i, show_context, auto_expand, max_chars).done,
    ensures
        content_fold(items, files, order, j, show_context, auto_expand, max_chars)
            == content_fold(items, files, order, i, show_context, auto_expand, max_chars),
    decreases j - i,
{
    if i < j {
        lemma_content_fold_done(items, files, order, i, (j - 1) as nat, show_context, auto_expand, max_chars);
    }
}

/// Byte budget of content output: generous for usage output and for
/// results in few files, tighter as the number of files grows.
pub open spec fn content_budget(mode: OutputMode, unique_files: nat) -> int {
    if mode == OutputMode::Usage {
        5000
    } else if unique_files <= 3 {
        5000
    } else if unique_files <= 8 {
        3500
    } else {
        2500
    }
}

/// Inputs of [`format_grep_results`].
pub struct FormatGrepParams<'a> {
    pub matches: &'a [GrepMatch],
    pub files: &'a [FileItem],
    pub total_matched: usize,
    pub next_file_offset: usize,
    pub regex_fallback_error: Option<&'a str>,
    pub output_mode: OutputMode,
    pub max_results: usize,
    pub show_context: bool,
    pub auto_expand_defs: bool,
}

/// The matches that are rendered: at most `max_results`.
pub open spec fn shown_items(matches: Seq<GrepMatch>, max_results: usize) -> Seq<GrepMatch> {
    if matches.len() > max_results {
        matches.take(max_results as int)
    } else {
        matches
    }
}

/// The lines of content output before the rendered matches: a regex
/// fallback notice, a read suggestion, and how many matches are shown.
pub open spec fn content_head(items: Seq<GrepMatch>, files: Seq<FileItem>, total_matched: usize, err: Option<Seq<char>>) -> Seq<Seq<char>> {
    let pv = preview_idx(items, files, items.len());
    (match err {
        Some(e) => seq!["! regex failed: "@ + e + ", using literal match"@],
        None => seq![],
    }) + content_suggestion(items, files, pv) + (if total_matched > items.len() {
        seq![decimal(items.len()) + "/"@ + decimal(total_matched as nat) + " matches shown"@]
    } else {
        seq![]
    })
}

/// The full content output before the cursor line.
pub open spec fn content_lines(
    items: Seq<GrepMatch>,
    files: Seq<FileItem>,
    total_matched: usize,
    err: Option<Seq<char>>,
    mode: OutputMode,
    show_context: bool,
    auto_expand: bool,
) -> Seq<Seq<char>> {
    let order = render_order(items, auto_expand);
    let budget = content_budget(mode, distinct_files(items, items.len()));
    content_head(items, files, total_matched, err)
        + content_fold(items, files, order, order.len(), show_context, auto_expand, budget).chunks
}

/// Every match can be rendered in content mode.
pub open spec fn content_renderable(items: Seq<GrepMatch>, files: Seq<FileItem>) -> bool {
    &&& indexed(items, files)
    &&& forall|i: int| 0 <= i < items.len() ==> {
        &&& (#[trigger] items[i]).line_number as int + 1 + items[i].context_after@.len() <= u64::MAX
        &&& trunc_defined(items[i].line_content@, Some(items[i].match_byte_offsets@), MAX_LINE_LEN as int)
    }
}

/// Output text for grep results in the requested mode (see
/// [`format_files_with_matches`], [`format_count`] and [`content_lines`]),
/// ending with a cursor line when there is a next page.
pub fn format_grep_results(params: &FormatGrepParams, cursor_store: &mut CursorStore) -> (r: String)
    requires
        old(cursor_store).wf(),
        ({
            let items = shown_items(params.matches@, params.max_results);
            if params.output_mode == OutputMode::FilesWithMatches {
                renderable_all(items, params.files@, MAX_PREVIEW as int)
            } else if params.output_mode == OutputMode::Count {
                indexed(items, params.files@)
            } else {
                content_renderable(items, params.files@)
            }
        }),
    ensures
        final(cursor_store).wf(),
        cursor_effect(*old(cursor_store), *final(cursor_store), params.next_file_offset),
        r@ == ({
            let items = shown_items(params.matches@, params.max_results);
            let files = params.files@;
            let tail = cursor_part(params.next_file_offset, final(cursor_store).counter());
            if params.output_mode == OutputMode::FilesWithMatches {
                let pv = preview_idx(items, files, items.len());
                join_lines(fwm_suggestion(items, files, pv) + fwm_fold(items, files, pv, pv.len(), params.auto_expand_defs).0 + tail)
            } else if params.output_mode == OutputMode::Count {
                join_lines(count_lines(count_entries(items, files, items.len())) + tail)
            } else {
                join_lines(
                    content_lines(
                        items,
                        files,
                        params.total_matched,
                        match params.regex_fallback_error {
                            Some(e) => Some(e@),
                            None => None,
                        },
                        params.output_mode,
                        params.show_context,
                        params.auto_expand_defs,
                    ) + tail,
                )
            }
        }),
{
    let matches = params.matches;
    let items: &[GrepMatch] = if matches.len() > params.max_results {
        slice_prefix(matches, params.max_results)
    } else {
        matches
    };
    assert(items@ == shown_items(matches@, params.max_results));
    let files = params.files;
    match params.output_mode {
        OutputMode::FilesWithMatches => {
            return format_files_with_matches(items, files, params.next_file_offset, params.auto_expand_defs, cursor_store);
        },
        OutputMode::Count => {
            return format_count(items, files, params.next_file_offset, cursor_store);
        },
        _ => {},
    }
    let mut lines = content_head_lines(items, files, params.total_matched, params.regex_fallback_error);
    let unique = count_distinct_files(items);
    let max_chars: usize = if params.output_mode == OutputMode::Usage {
        5000
    } else if unique <= 3 {
        5000
    } else if unique <= 8 {
        3500
    } else {
        2500
    };
    let order = render_order_exec(items, params.auto_expand_defs);
    let chunks = render_chunks(items, files, &order, params.show_context, params.auto_expand_defs, max_chars);
    append_strings(&mut lines, chunks);
    push_cursor(&mut lines, cursor_store, params.next_file_offset);
    join_strings(&lines)
}

/// The first `n` elements of `s`.
fn slice_prefix<'a>(s: &'a [GrepMatch], n: usize) -> (r: &'a [GrepMatch])
    requires
        n <= s@.len(),
    ensures
        r@ == s@.take(n as int),
{
    let (head, _) = s.split_at(n);
    head
}

/// Lines before the rendered matches (see [`content_head`]).
fn content_head_lines(items: &[GrepMatch], files: &[FileItem], total_matched: usize, err: Option<&str>) -> (r: Vec<String>)
    requires
        indexed(items@, files@),
    ensures
        views(r@) == content_head(items@, files@, total_matched, match err {
            Some(e) => Some(e@),
            None => None,
        }),
{
    let mut lines: Vec<String> = Vec::new();
    if let Some(e) = err {
        let mut l = String::from_str("! regex failed: ");
        l.append(e);
        l.append(", using literal match");
        lines.push(l);
    }
    let ghost l0 = views(lines@);
    let metas = collect_file_preview(items, files);
    let ghost pv = preview_idx(items@, files@, items@.len());
    proof {
        lemma_preview_idx_bounds(items@, files@, items@.len());
    }
    let first_def = first_preview_path(&metas, files, true, Ghost(items@), Ghost(pv));
    let first = first_preview_path(&metas, files, false, Ghost(items@), Ghost(pv));
    let has_def = !first_def.as_str().is_empty();
    let suggest = if has_def { first_def } else { first };
    let file_count = metas.len();
    if !suggest.as_str().is_empty() {
        if file_count == 1 {
            lines.push(suggestion_line(&suggest, " (only match)"));
        } else if has_def {
            lines.push(suggestion_line(&suggest, " [def]"));
        } else if file_count <= 3 {
            lines.push(suggestion_line(&suggest, " (best match)"));
        }
    }
    let ghost l1 = views(lines@);
    assert(l1 =~= l0 + content_suggestion(items@, files@, pv));
    if total_matched > items.len() {
        let mut l = u64_to_string(items.len() as u64);
        l.append("/");
        let t = u64_to_string(total_matched as u64);
        l.append(t.as_str());
        l.append(" matches shown");
        lines.push(l);
    }
    proof {
        let e = match err {
            Some(e) => Some(e@),
            None => None,
        };
        assert(views(lines@) =~= content_head(items@, files@, total_matched, e));
    }
    lines
}

/// Number of distinct files among `items`.
fn count_distinct_files(items: &[GrepMatch]) -> (r: usize)
    ensures
        r as nat == distinct_files(items@, items@.len()),
{
    let mut count: usize = 0;
    let mut i: usize = 0;
    while i < items.len()
        invariant
            i <= items@.len(),
            count as nat == distinct_files(items@, i as nat),
            count <= i,
        decreases items@.len() - i,
    {
        let mut j: usize = 0;
        let mut seen = false;
        while j < i
            invariant
                j <= i < items@.len(),
                seen == exists|t: int| 0 <= t < j && (#[trigger] items@[t]).file_index == items@[i as int].file_index,
            decreases i - j,
        {
            if items[j].file_index == items[i].file_index {
                seen = true;
            }
            j = j + 1;
        }
        if !seen {
            count = count + 1;
        }
        i = i + 1;
    }
    count
}

/// Indices of the matches of rank `k`, in order.
fn push_of_kind(order: &mut Vec<usize>, items: &[GrepMatch], k: u8)
    requires
        k <= 2,
    ensures
        final(order)@.map_values(|x: usize| x as int) == old(order)@.map_values(|x: usize| x as int) + of_kind(items@, k as int, items@.len()),
        final(order)@.len() >= old(order)@.len(),
        forall|t: int| 0 <= t < old(order)@.len() ==> #[trigger] final(order)@[t] == old(order)@[t],
        forall|t: int| old(order)@.len() <= t < final(order)@.len() ==> #[trigger] final(order)@[t] < items@.len(),
{
    let ghost start = order@.map_values(|x: usize| x as int);
    let ghost olen = order@.len();
    let mut i: usize = 0;
    while i < items.len()
        invariant
            i <= items@.len(),
            k <= 2,
            order@.len() >= olen,
            forall|t: int| 0 <= t < olen ==> #[trigger] order@[t] == old(order)@[t],
            order@.map_values(|x: usize| x as int) == start + of_kind(items@, k as int, i as nat),
            forall|t: int| olen <= t < order@.len() ==> #[trigger] order@[t] < i,
            start == old(order)@.map_values(|x: usize| x as int),
            olen == old(order)@.len(),
        decreases items@.len() - i,
    {
        let m = &items[i];
        let mk: u8 = if m.is_definition { 0 } else if m.is_import { 2 } else { 1 };
        assert(mk as int == kind(items@[i as int]));
        if mk == k {
            let ghost prev = order@;
            order.push(i);
            proof {
                assert(order@ == prev.push(i));
                assert(prev.push(i).map_values(|x: usize| x as int) =~= prev.map_values(|x: usize| x as int).push(i as int));
                assert(of_kind(items@, k as int, (i + 1) as nat) == of_kind(items@, k as int, i as nat).push(i as int));
                assert(order@.map_values(|x: usize| x as int) =~= start + of_kind(items@, k as int, (i + 1) as nat));
            }
        }
        i = i + 1;
    }
}

/// The rendering order (see [`render_order`]).
fn render_order_exec(items: &[GrepMatch], auto_expand: bool) -> (r: Vec<usize>)
    ensures
        r@.map_values(|x: usize| x as int) == render_order(items@, auto_expand),
        forall|t: int| 0 <= t < r@.len() ==> #[trigger] r@[t] < items@.len(),
{
    let mut order: Vec<usize> = Vec::new();
    if auto_expand {
        push_of_kind(&mut order, items, 0);
        push_of_kind(&mut order, items, 1);
        push_of_kind(&mut order, items, 2);
        proof {
            assert(order@.map_values(|x: usize| x as int) =~= render_order(items@, auto_expand));
        }
    } else {
        let mut i: usize = 0;
        while i < items.len()
            invariant
                i <= items@.len(),
                order@.len() == i,
                forall|t: int| 0 <= t < i ==> #[trigger] order@[t] == t,
            decreases items@.len() - i,
        {
            order.push(i);
            i = i + 1;
        }
        proof {
            assert(order@.map_values(|x: usize| x as int) =~= render_order(items@, auto_expand));
        }
    }
    order
}

/// The lines of one rendered match (see [`chunk_lines`]).
fn chunk_exec(m: &GrepMatch, path: &str, header: bool, show_context: bool, limit: usize) -> (r: Vec<String>)
    requires
        m.line_number as int + 1 + m.context_after@.len() <= u64::MAX,
        trunc_defined(m.line_content@, Some(m.match_byte_offsets@), MAX_LINE_LEN as int),
    ensures
        views(r@) == chunk_lines(*m, path@, header, show_context, limit as nat),
{
    let mut ml: Vec<String> = Vec::new();
    if header {
        ml.push(String::from_str(path));
    }
    let ghost p0 = views(ml@);
    assert(p0 =~= (if header { seq![path@] } else { Seq::<Seq<char>>::empty() }));
    if show_context && m.context_before.len() > 0 {
        let n = m.context_before.len() as u64;
        let start = if m.line_number > n { m.line_number - n } else { 0 };
        proof {
            assert(views(m.context_before@).len() == m.context_before@.len());
        }
        let before = numbered_lines(" ", "-", &m.context_before, start, MAX_LINE_LEN);
        append_strings(&mut ml, before);
    }
    let ghost p1 = views(ml@);
    assert(p1 =~= p0 + (if show_context && m.context_before@.len() > 0 { before_lines(*m) } else { Seq::<Seq<char>>::empty() }));
    let mut line = String::from_str(" ");
    let num = u64_to_string(m.line_number);
    line.append(num.as_str());
    line.append(": ");
    let t = trunc_centered(m.line_content.as_str(), Some(m.match_byte_offsets.as_slice()), MAX_LINE_LEN);
    line.append(t.as_str());
    assert(line@ == match_line(*m));
    let ghost pl = views(ml@);
    ml.push(line);
    let ghost p2 = views(ml@);
    assert(p2 =~= p1 + seq![match_line(*m)]);
    if show_context && m.context_after.len() > 0 {
        let after = numbered_lines(" ", "-", &m.context_after, m.line_number + 1, MAX_LINE_LEN);
        append_strings(&mut ml, after);
        let ghost q = views(ml@);
        let sep = String::from_str("--");
        ml.push(sep);
        proof {
            assert(views(ml@) =~= q.push("--"@));
            assert(q =~= p2 + numbered(" "@, "-"@, views(m.context_after@), m.line_number + 1, MAX_LINE_LEN as int));
            assert(views(ml@) =~= p2 + after_lines(*m));
        }
    }
    let ghost p3 = views(ml@);
    assert(p3 =~= p2 + (if show_context && m.context_after@.len() > 0 { after_lines(*m) } else { Seq::<Seq<char>>::empty() }));
    let body = expansion_lines(&m.context_after, limit, m.line_number + 1, MAX_LINE_LEN);
    append_strings(&mut ml, body);
    proof {
        assert(views(ml@) =~= chunk_lines(*m, path@, header, show_context, limit as nat));
    }
    ml
}

/// The rendered chunks of content output (see [`content_fold`]).
fn render_chunks(
    items: &[GrepMatch],
    files: &[FileItem],
    order: &Vec<usize>,
    show_context: bool,
    auto_expand: bool,
    max_chars: usize,
) -> (r: Vec<String>)
    requires
        content_renderable(items@, files@),
        forall|t: int| 0 <= t < order@.len() ==> #[trigger] order@[t] < items@.len(),
        max_chars < usize::MAX,
    ensures
        views(r@) == content_fold(items@, files@, order@.map_values(|x: usize| x as int), order@.len(), show_context, auto_expand, max_chars as int).chunks,
{
    let ghost ord = order@.map_values(|x: usize| x as int);
    let mut chunks: Vec<String> = Vec::new();
    let mut current = String::new();
    let mut expanded: Vec<String> = Vec::new();
    let mut char_count: usize = 0;
    let mut shown_count: usize = 0;
    let mut done = false;
    let mut i: usize = 0;
    while i < order.len() && !done
        invariant
            i <= order@.len(),
            ord == order@.map_values(|x: usize| x as int),
            content_renderable(items@, files@),
            forall|t: int| 0 <= t < order@.len() ==> #[trigger] order@[t] < items@.len(),
            max_chars < usize::MAX,
            ({
                let st = content_fold(items@, files@, ord, i as nat, show_context, auto_expand, max_chars as int);
                &&& views(chunks@) == st.chunks
                &&& current@ == st.current
                &&& views(expanded@) == st.expanded
                &&& char_count as int == st.chars
                &&& shown_count as int == st.shown
                &&& done == st.done
            }),
            shown_count <= i,
            shown_count == 0 ==> char_count == 0,
        decreases order@.len() - i,
    {
        let idx = order[i];
        let m = &items[idx];
        proof {
            assert(ord[i as int] == idx as int);
            assert(m.file_index < files@.len());
        }
        let path = files[m.file_index].relative_path.as_str();
        let ghost st = content_fold(items@, files@, ord, i as nat, show_context, auto_expand, max_chars as int);
        let ghost st2 = content_step(st, *m, path@, show_context, auto_expand, max_chars as int);
        proof {
            assert(items@[ord[i as int]] == *m);
            assert(path_of(files@, *m) == path@);
            assert(content_fold(items@, files@, ord, (i + 1) as nat, show_context, auto_expand, max_chars as int) == st2);
            assert(views(expanded@).len() == expanded@.len());
        }
        if auto_expand && m.is_import && expanded.len() > 0 {
            current = String::from_str(path);
            assert(current@ == st2.current);
        } else {
            let header = !str_eq(path, current.as_str());
            let expand = auto_expand && !show_context && m.is_definition && m.context_after.len() > 0
                && !contains_str(&expanded, path);
            let limit: usize = if expand {
                if expanded.len() == 0 { MAX_DEF_EXPAND_FIRST } else { MAX_DEF_EXPAND }
            } else {
                0
            };
            if expand {
                let ghost ex0 = views(expanded@);
                expanded.push(String::from_str(path));
                proof {
                    assert(views(expanded@) =~= ex0.push(path@));
                }
            }
            proof {
                assert(header == (path@ != st.current));
                assert(expand == (auto_expand && !show_context && m.is_definition && m.context_after@.len() > 0 && !st.expanded.contains(path@)));
            }
            let ml = chunk_exec(m, path, header, show_context, limit);
            let chunk = join_strings(&ml);
            let clen = chunk.as_str().as_bytes().len();
            assert(clen as int == encode_utf8(join_lines(chunk_lines(*m, path@, path@ != st.current, show_context, limit as nat))).len());
            let total = char_count.saturating_add(clen);
            if total > max_chars && shown_count > 0 {
                done = true;
                assert(st2.done);
            } else {
                let ghost c0 = views(chunks@);
                chunks.push(chunk);
                proof {
                    assert(views(chunks@) =~= c0.push(chunk@));
                }
                char_count = total;
                shown_count = shown_count + 1;
            }
            current = String::from_str(path);
        }
        i = i + 1;
    }
    proof {
        if done {
            lemma_content_fold_done(items@, files@, ord, i as nat, order@.len() as nat, show_context, auto_expand, max_chars as int);
        }
    }
    chunks
}

proof fn lemma_first_def_path(items: Seq<GrepMatch>, files: Seq<FileItem>, pv: Seq<int>, t: int, n: int)
    requires
        0 <= t < pv.len(),
        0 <= n <= pv.len(),
        items[pv[t]].is_definition,
        path_of(files, items[pv[t]]).len() > 0,
        forall|u: int| 0 <= u < t ==> !((#[trigger] items[pv[u]]).is_definition && path_of(files, items[pv[u]]).len() > 0),
    ensures
        first_path(items, files, pv.take(n), true) == (if n <= t { Seq::<char>::empty() } else { path_of(files, items[pv[t]]) }),
    decreases n,
{
    let q = pv.take(n);
    if n > 0 {
        lemma_first_def_path(items, files, pv, t, n - 1);
        assert(q.drop_last() =~= pv.take(n - 1));
        assert(q.last() == pv[n - 1]);
        if n - 1 < t {
            let m = items[pv[n - 1]];
            assert(!(m.is_definition && path_of(files, m).len() > 0));
            if m.is_definition {
                assert(path_of(files, m) =~= Seq::<char>::empty());
            }
        }
    } else {
        assert(q =~= Seq::<int>::empty());
    }
}

/// In content mode, when more than one file is previewed and some previewed
/// file's match is a definition, the Read suggestion names the first
/// previewed file whose match is a definition, marked `[def]`.
pub proof fn lemma_content_suggests_first_definition(items: Seq<GrepMatch>, files: Seq<FileItem>, pv: Seq<int>, t: int)
    requires
        pv.len() > 1,
        0 <= t < pv.len(),
        items[pv[t]].is_definition,
        path_of(files, items[pv[t]]).len() > 0,
        forall|u: int| 0 <= u < t ==> !((#[trigger] items[pv[u]]).is_definition && path_of(files, items[pv[u]]).len() > 0),
    ensures
        content_suggestion(items, files, pv) == seq!["→ Read "@ + path_of(files, items[pv[t]]) + " [def]"@],
{
    lemma_first_def_path(items, files, pv, t, pv.len() as int);
    assert(pv.take(pv.len() as int) =~= pv);
}

proof fn lemma_no_def_path(items: Seq<GrepMatch>, files: Seq<FileItem>, pv: Seq<int>, n: int)
    requires
        0 <= n <= pv.len(),
        forall|u: int| 0 <= u < pv.len() ==> !((#[trigger] items[pv[u]]).is_definition && path_of(files, items[pv[u]]).len() > 0),
    ensures
        first_path(items, files, pv.take(n), true).len() == 0,
    decreases n,
{
    let q = pv.take(n);
    if n > 0 {
        lemma_no_def_path(items, files, pv, n - 1);
        assert(q.drop_last() =~= pv.take(n - 1));
        assert(q.last() == pv[n - 1]);
        let m = items[pv[n - 1]];
        assert(!(m.is_definition && path_of(files, m).len() > 0));
    } else {
        assert(q =~= Seq::<int>::empty());
    }
}

/// In content mode a suggestion marked `[def]` only ever names a file
/// whose previewed match is a definition: when no previewed match is a
/// definition, no suggestion line ends in ` [def]`.
pub proof fn lemma_content_def_mark_needs_definition(items: Seq<GrepMatch>, files: Seq<FileItem>, pv: Seq<int>, p: Seq<char>)
    requires
        forall|u: int| 0 <= u < pv.len() ==> !((#[trigger] items[pv[u]]).is_definition && path_of(files, items[pv[u]]).len() > 0),
    ensures
        content_suggestion(items, files, pv) != seq!["→ Read "@ + p + " [def]"@],
{
    lemma_no_def_path(items, files, pv, pv.len() as int);
    assert(pv.take(pv.len() as int) =~= pv);
    reveal_strlit(" [def]");
    reveal_strlit(" (only match)");
    reveal_strlit(" (best match)");
    let first = first_path(items, files, pv, false);
    let d = "→ Read "@ + p + " [def]"@;
    assert(d.last() == ']');
    let cs = content_suggestion(items, files, pv);
    if cs == seq![d] {
        assert(cs.len() == 1);
        assert(cs[0] == d);
        if pv.len() == 1 {
            let x = "→ Read "@ + first + " (only match)"@;
            assert(cs == seq![x]);
            assert(x.last() == ')');
            assert(cs[0] == x);
        } else {
            let x = "→ Read "@ + first + " (best match)"@;
            assert(cs == seq![x]);
            assert(x.last() == ')');
            assert(cs[0] == x);
        }
    }
}

} // verus!
