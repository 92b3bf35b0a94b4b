//! What a content search falls back to when it finds nothing: a broader
//! query, a fuzzy query, and the texts shown for the fallback results.

use vstd::prelude::*;
use vstd::string::StrSliceExecFns;
use vstd::utf8::encode_utf8;
use crate::text::{chars_of, decimal, is_whitespace, is_ws, u64_to_string};
use crate::grep::{views, GrepMatch};
use crate::types::FileItem;
use crate::output::{join_lines, join_strings};

verus! {

/// The words of `s[i..]` (maximal runs of non-whitespace characters),
/// after the words `acc` already found; `start` is where the current word
/// began, or -1 between words.
pub open spec fn words_from(s: Seq<char>, i: int, start: int, acc: Seq<Seq<char>>) -> Seq<Seq<char>>
    decreases s.len() - i,
{
    if i >= s.len() {
        if start >= 0 { acc.push(s.subrange(start, s.len() as int)) } else { acc }
    } else if is_ws(s[i]) {
        words_from(s, i + 1, -1, if start >= 0 { acc.push(s.subrange(start, i)) } else { acc })
    } else {
        words_from(s, i + 1, if start >= 0 { start } else { i }, acc)
    }
}

/// The whitespace-separated words of `s`.
pub open spec fn words(s: Seq<char>) -> Seq<Seq<char>> {
    words_from(s, 0, -1, seq![])
}

/// Words joined by single spaces.
pub open spec fn join_words(ws: Seq<Seq<char>>) -> Seq<char>
    decreases ws.len(),
{
    if ws.len() == 0 {
        seq![]
    } else if ws.len() == 1 {
        ws[0]
    } else {
        join_words(ws.drop_last()) + " "@ + ws.last()
    }
}

/// The broader query tried when a query of two or more words finds
/// nothing: the query without its first word, unless that word is a
/// constraint (it starts with `!` or `*`, or ends with `/`).
pub open spec fn broaden_spec(query: Seq<char>) -> Option<Seq<char>> {
    let ws = words(query);
    if ws.len() >= 2 && !(ws[0].len() > 0 && (ws[0][0] == '!' || ws[0][0] == '*' || ws[0].last() == '/')) {
        Some(join_words(ws.drop_first()))
    } else {
        None
    }
}

fn split_words<'s>(s: &'s str) -> (r: Vec<&'s str>)
    ensures
        views_str(r@) == words(s@),
{
    let cs = chars_of(s);
    let ghost l = s@;
    let mut acc: Vec<&'s str> = Vec::new();
    let mut start: usize = 0;
    let mut in_word = false;
    let mut i: usize = 0;
    proof {
        assert(views_str(acc@) =~= Seq::<Seq<char>>::empty());
    }
    while i < cs.len()
        invariant
            i <= cs@.len(),
            cs@ == l,
            l == s@,
            in_word ==> start < i,
            words(l) == words_from(l, i as int, if in_word { start as int } else { -1 }, views_str(acc@)),
        decreases cs@.len() - i,
    {
        if is_whitespace(cs[i]) {
            if in_word {
                let w = s.substring_char(start, i);
                let ghost a0 = views_str(acc@);
                acc.push(w);
                proof {
                    assert(views_str(acc@) =~= a0.push(l.subrange(start as int, i as int)));
                }
            }
            in_word = false;
        } else if !in_word {
            in_word = true;
            start = i;
        }
        i = i + 1;
    }
    if in_word {
        let w = s.substring_char(start, cs.len());
        let ghost a0 = views_str(acc@);
        acc.push(w);
        proof {
            assert(views_str(acc@) =~= a0.push(l.subrange(start as int, l.len() as int)));
        }
    }
    acc
}

/// The strings of a list of string slices.
pub open spec fn views_str(v: Seq<&str>) -> Seq<Seq<char>> {
    v.map_values(|x: &str| x@)
}

/// The broader query for `query`, if there is one (see [`broaden_spec`]).
pub fn broaden_query(query: &str) -> (r: Option<String>)
    ensures
        match r {
            Some(q) => broaden_spec(query@) == Some(q@),
            None => broaden_spec(query@) is None,
        },
{
    let ws = split_words(query);
    let ghost wv = views_str(ws@);
    if ws.len() < 2 {
        return None;
    }
    let first = chars_of(ws[0]);
    proof {
        assert(wv[0] == ws@[0]@);
    }
    if first.len() > 0 && (first[0] == '!' || first[0] == '*' || first[first.len() - 1] == '/') {
        return None;
    }
    let mut out = String::from_str(ws[1]);
    let ghost rest = wv.drop_first();
    proof {
        assert(rest[0] == ws@[1]@);
        assert(rest.take(1).drop_last() =~= Seq::<Seq<char>>::empty());
    }
    let mut k: usize = 2;
    while k < ws.len()
        invariant
            2 <= k <= ws@.len(),
            wv == views_str(ws@),
            rest == wv.drop_first(),
            out@ == join_words(rest.take(k - 1)),
        decreases ws@.len() - k,
    {
        out.append(" ");
        out.append(ws[k]);
        proof {
            assert(rest.take(k as int).drop_last() =~= rest.take(k - 1));
            assert(rest.take(k as int).last() == ws@[k as int]@);
        }
        k = k + 1;
    }
    proof {
        assert(rest.take(ws@.len() - 1) =~= rest);
    }
    Some(out)
}

/// The lowercase form of a character (one or more characters).
pub uninterp spec fn lowercase_of(c: char) -> Seq<char>;

/// `char::to_lowercase`, collected. Claimed: the result is [`lowercase_of`].
#[verifier::external_body]
fn char_lowercase(c: char) -> (r: String)
    ensures
        r@ == lowercase_of(c),
{
    c.to_lowercase().collect()
}

/// The fuzzy form of a query over its first `n` characters: `:`, `-`
/// and `_` dropped, everything else lowercased.
pub open spec fn cleanup_spec(s: Seq<char>, n: nat) -> Seq<char>
    decreases n,
{
    if n == 0 {
        seq![]
    } else {
        let prev = cleanup_spec(s, (n - 1) as nat);
        let c = s[n - 1];
        if c == ':' || c == '-' || c == '_' { prev } else { prev + lowercase_of(c) }
    }
}

/// The query used for the fuzzy fallback (see [`cleanup_spec`]).
pub fn cleanup_fuzzy_query(s: &str) -> (r: String)
    ensures
        r@ == cleanup_spec(s@, s@.len()),
{
    let cs = chars_of(s);
    let mut out = String::new();
    let mut i: usize = 0;
    while i < cs.len()
        invariant
            i <= cs@.len(),
            cs@ == s@,
            out@ == cleanup_spec(s@, i as nat),
        decreases cs@.len() - i,
    {
        let c = cs[i];
        if !(c == ':' || c == '-' || c == '_') {
            let low = char_lowercase(c);
            out.append(low.as_str());
        }
        i = i + 1;
    }
    out
}

/// Lines for the first `n` approximate matches: the file path whenever it
/// differs from the previous match's (the first is compared with the
/// empty path), then ` <line>: <text>`; and the last path shown.
pub open spec fn approx_lines(items: Seq<GrepMatch>, files: Seq<FileItem>, n: nat) -> (Seq<Seq<char>>, Seq<char>)
    decreases n,
{
    if n == 0 {
        (seq![], seq![])
    } else {
        let (prev, cur) = approx_lines(items, files, (n - 1) as nat);
        let m = items[n - 1];
        let p = files[m.file_index as int].relative_path@;
        let with_path = if p != cur { prev.push(p) } else { prev };
        (with_path.push(" "@ + decimal(m.line_number as nat) + ": "@ + m.line_content@), p)
    }
}

/// The text shown for fuzzy-fallback results: how many there are, then
/// the first three (see [`approx_lines`]).
pub open spec fn approx_text(items: Seq<GrepMatch>, files: Seq<FileItem>) -> Seq<char> {
    let n: nat = if items.len() < 3 { items.len() } else { 3 };
    join_lines(seq!["0 exact matches. "@ + decimal(items.len()) + " approximate:"@] + approx_lines(items, files, n).0)
}

/// Text for the approximate matches of the fuzzy fallback (see [`approx_text`]).
pub fn format_approximate(items: &[GrepMatch], files: &[FileItem]) -> (r: String)
    requires
        forall|i: int| 0 <= i < items@.len() ==> (#[trigger] items@[i]).file_index < files@.len(),
    ensures
        r@ == approx_text(items@, files@),
{
    let mut lines: Vec<String> = Vec::new();
    let mut header = String::from_str("0 exact matches. ");
    let count = u64_to_string(items.len() as u64);
    header.append(count.as_str());
    header.append(" approximate:");
    lines.push(header);
    let n: usize = if items.len() < 3 { items.len() } else { 3 };
    let mut current = String::new();
    let mut i: usize = 0;
    proof {
        assert(views(lines@) =~= seq![header@] + approx_lines(items@, files@, 0).0);
    }
    while i < n
        invariant
            i <= n <= items@.len(),
            n <= 3,
            forall|j: int| 0 <= j < items@.len() ==> (#[trigger] items@[j]).file_index < files@.len(),
            views(lines@) == seq![header@] + approx_lines(items@, files@, i as nat).0,
            current@ == approx_lines(items@, files@, i as nat).1,
        decreases n - i,
    {
        let m = &items[i];
        let path = files[m.file_index].relative_path.as_str();
        proof {
            assert(items@[i as int].file_index < files@.len());
        }
        let ghost l0 = views(lines@);
        let ghost cur0 = current@;
        let differs = !crate::text::str_eq(path, current.as_str());
        if differs {
            let ps = String::from_str(path);
            lines.push(ps);
            proof {
                assert(views(lines@) =~= l0.push(path@));
            }
        }
        let ghost l1 = views(lines@);
        let mut line = String::from_str(" ");
        let ln = u64_to_string(m.line_number);
        line.append(ln.as_str());
        line.append(": ");
        line.append(m.line_content.as_str());
        lines.push(line);
        current = String::from_str(path);
        proof {
            assert(views(lines@) =~= l1.push(line@));
        }
        proof {
            let (prev, cur) = approx_lines(items@, files@, i as nat);
            let p = files@[m.file_index as int].relative_path@;
            assert(path@ == p);
            assert(cur0 == cur);
            assert(l0 == seq![header@] + prev);
            assert(line@ == " "@ + decimal(m.line_number as nat) + ": "@ + m.line_content@);
            if differs {
                assert(views(lines@) =~= seq![header@] + prev.push(p).push(line@));
            } else {
                assert(views(lines@) =~= seq![header@] + prev.push(line@));
            }
        }
        i = i + 1;
    }
    join_strings(&lines)
}

/// Whether a file matching the query well enough to suggest it: its base
/// score is more than ten per query byte.
pub fn suggests_path(base_score: i32, query: &str) -> (r: bool)
    requires
        encode_utf8(query@).len() * 10 <= i32::MAX,
    ensures
        r == (base_score > encode_utf8(query@).len() * 10),
{
    let query_len = query.as_bytes().len() as i32;
    base_score > query_len * 10
}

/// `0 matches for '<query>'. Auto-broadened to '<broader>':` and the results.
pub fn broadened_message(query: &str, broader: &str, text: &str) -> (r: String)
    ensures
        r@ == "0 matches for '"@ + query@ + "'. Auto-broadened to '"@ + broader@ + "':\n"@ + text@,
{
    let mut out = String::from_str("0 matches for '");
    out.append(query);
    out.append("'. Auto-broadened to '");
    out.append(broader);
    out.append("':\n");
    out.append(text);
    out
}

/// The suggestion of a file whose path matches the query.
pub fn path_message(path: &str) -> (r: String)
    ensures
        r@ == "0 content matches. But there is a relevant file path: "@ + path@,
{
    let mut out = String::from_str("0 content matches. But there is a relevant file path: ");
    out.append(path);
    out
}

/// The query one pattern of a multi-pattern search is retried with on its
/// own: the pattern after the constraints, when there are any.
pub fn fallback_query(constraints: &str, pattern: &str) -> (r: String)
    ensures
        r@ == (if constraints@.len() == 0 { pattern@ } else { constraints@ + " "@ + pattern@ }),
{
    if constraints.unicode_len() == 0 {
        return String::from_str(pattern);
    }
    let mut out = String::from_str(constraints);
    out.append(" ");
    out.append(pattern);
    out
}

/// `0 multi-pattern matches. Plain grep fallback for "<pattern>":` and the
/// results of the retried pattern.
pub fn multi_fallback_message(pattern: &str, text: &str) -> (r: String)
    ensures
        r@ == "0 multi-pattern matches. Plain grep fallback for \""@ + pattern@ + "\":\n"@ + text@,
{
    let mut out = String::from_str("0 multi-pattern matches. Plain grep fallback for \"");
    out.append(pattern);
    out.append("\":\n");
    out.append(text);
    out
}

/// The attempts a content search makes, in order: the query as given, the
/// broadened query, the cleaned-up query matched fuzzily, and a search for
/// a file whose path matches the query.
#[derive(Clone, Copy, PartialEq, Eq, Structural)]
pub enum GrepStage {
    Exact,
    Broadened,
    Fuzzy,
    PathSearch,
}

/// What a content search does after an attempt.
#[derive(Clone, Copy, PartialEq, Eq, Structural)]
pub enum GrepStep {
    /// Show the matches of the exact attempt.
    ShowMatches,
    /// Show the matches of the broadened attempt under the broadening header.
    ShowBroadened,
    /// Show the matches of the fuzzy attempt as approximate ones.
    ShowApproximate,
    /// Suggest the file path that was found.
    SuggestPath,
    /// Search again with the broadened query.
    RunBroadened,
    /// Search again, fuzzily, with the cleaned-up query.
    RunFuzzy,
    /// Look for a file whose path matches the query.
    RunPathSearch,
    /// Answer that nothing matched.
    NoMatches,
}

/// The fuzzy retry of `query`.
pub open spec fn fuzzy_retry(query: Seq<char>) -> (GrepStep, Seq<char>) {
    (GrepStep::RunFuzzy, cleanup_spec(query, query.len()))
}

/// The next step of a content search for `query` after the attempt `stage`
/// found `matches` matches (the exact attempt starting at `file_offset`;
/// the path search finding a best file with `top_base_score`), with the
/// query of the next attempt (empty when there is none). Fallbacks run only
/// for a first page that found nothing; a broadened attempt is shown only
/// with one to ten matches; a path is suggested only for a query with a `/`
/// whose best file scores more than ten points per query byte.
pub open spec fn grep_step_spec(
    query: Seq<char>,
    stage: GrepStage,
    matches: nat,
    file_offset: nat,
    top_base_score: Option<i32>,
) -> (GrepStep, Seq<char>) {
    match stage {
        GrepStage::Exact => if matches > 0 {
            (GrepStep::ShowMatches, seq![])
        } else if file_offset > 0 {
            (GrepStep::NoMatches, seq![])
        } else {
            match broaden_spec(query) {
                Some(b) => (GrepStep::RunBroadened, b),
                None => fuzzy_retry(query),
            }
        },
        GrepStage::Broadened => if 1 <= matches <= 10 {
            (GrepStep::ShowBroadened, seq![])
        } else {
            fuzzy_retry(query)
        },
        GrepStage::Fuzzy => if matches > 0 {
            (GrepStep::ShowApproximate, seq![])
        } else if query.contains('/') {
            (GrepStep::RunPathSearch, query)
        } else {
            (GrepStep::NoMatches, seq![])
        },
        GrepStage::PathSearch => match top_base_score {
            Some(s) => if s > encode_utf8(query).len() * 10 {
                (GrepStep::SuggestPath, seq![])
            } else {
                (GrepStep::NoMatches, seq![])
            },
            None => (GrepStep::NoMatches, seq![]),
        },
    }
}

/// Whether `s` holds `c`.
fn has_char(s: &str, c: char) -> (r: bool)
    ensures
        r == s@.contains(c),
{
    let cs = chars_of(s);
    let mut i: usize = 0;
    while i < cs.len()
        invariant
            i <= cs@.len(),
            cs@ == s@,
            forall|j: int| 0 <= j < i ==> cs@[j] != c,
        decreases cs@.len() - i,
    {
        if cs[i] == c {
            return true;
        }
        i = i + 1;
    }
    false
}

/// The next step of a content search (see [`grep_step_spec`]).
pub fn next_grep_step(
    query: &str,
    stage: GrepStage,
    matches: usize,
    file_offset: usize,
    top_base_score: Option<i32>,
) -> (r: (GrepStep, String))
    requires
        stage == GrepStage::PathSearch ==> encode_utf8(query@).len() * 10 <= i32::MAX,
    ensures
        (r.0, r.1@) == grep_step_spec(query@, stage, matches as nat, file_offset as nat, top_base_score),
{
    match stage {
        GrepStage::Exact => {
            if matches > 0 {
                (GrepStep::ShowMatches, String::new())
            } else if file_offset > 0 {
                (GrepStep::NoMatches, String::new())
            } else {
                match broaden_query(query) {
                    Some(b) => (GrepStep::RunBroadened, b),
                    None => (GrepStep::RunFuzzy, cleanup_fuzzy_query(query)),
                }
            }
        },
        GrepStage::Broadened => {
            if 1 <= matches && matches <= 10 {
                (GrepStep::ShowBroadened, String::new())
            } else {
                (GrepStep::RunFuzzy, cleanup_fuzzy_query(query))
            }
        },
        GrepStage::Fuzzy => {
            if matches > 0 {
                (GrepStep::ShowApproximate, String::new())
            } else if has_char(query, '/') {
                (GrepStep::RunPathSearch, String::from_str(query))
            } else {
                (GrepStep::NoMatches, String::new())
            }
        },
        GrepStage::PathSearch => {
            match top_base_score {
                Some(s) => {
                    if suggests_path(s, query) {
                        (GrepStep::SuggestPath, String::new())
                    } else {
                        (GrepStep::NoMatches, String::new())
                    }
                },
                None => (GrepStep::NoMatches, String::new()),
            }
        },
    }
}

/// What a multi-pattern search does after an attempt.
#[derive(Clone, Copy, PartialEq, Eq, Structural)]
pub enum MultiGrepStep {
    /// Show the matches of the multi-pattern attempt.
    ShowMatches,
    /// Show the matches of the pattern just retried alone, under the
    /// fallback header.
    ShowFallback,
    /// Retry the pattern at this index alone, as a plain search.
    RetryPattern(usize),
    /// Answer that nothing matched.
    NoMatches,
}

/// The next step of a search for `n_patterns` patterns after an attempt
/// found `matches` matches: the attempt with all patterns (`retried` is
/// `None`, starting at `file_offset`) or the retry of the pattern at index
/// `retried` alone. Patterns are retried one by one, in order, only for a
/// first page that found nothing, until one finds a match.
pub open spec fn multi_grep_step_spec(n_patterns: nat, retried: Option<nat>, matches: nat, file_offset: nat) -> MultiGrepStep {
    match retried {
        None => if matches > 0 {
            MultiGrepStep::ShowMatches
        } else if file_offset == 0 && n_patterns > 0 {
            MultiGrepStep::RetryPattern(0)
        } else {
            MultiGrepStep::NoMatches
        },
        Some(i) => if matches > 0 {
            MultiGrepStep::ShowFallback
        } else if i + 1 < n_patterns {
            MultiGrepStep::RetryPattern((i + 1) as usize)
        } else {
            MultiGrepStep::NoMatches
        },
    }
}

/// The next step of a multi-pattern search (see [`multi_grep_step_spec`]).
pub fn next_multi_grep_step(n_patterns: usize, retried: Option<usize>, matches: usize, file_offset: usize) -> (r: MultiGrepStep)
    ensures
        r == multi_grep_step_spec(
            n_patterns as nat,
            match retried {
                Some(i) => Some(i as nat),
                None => None,
            },
            matches as nat,
            file_offset as nat,
        ),
{
    match retried {
        None => {
            if matches > 0 {
                MultiGrepStep::ShowMatches
            } else if file_offset == 0 && n_patterns > 0 {
                MultiGrepStep::RetryPattern(0)
            } else {
                MultiGrepStep::NoMatches
            }
        },
        Some(i) => {
            if matches > 0 {
                MultiGrepStep::ShowFallback
            } else if i < n_patterns && i + 1 < n_patterns {
                MultiGrepStep::RetryPattern(i + 1)
            } else {
                MultiGrepStep::NoMatches
            }
        },
    }
}

} // verus!
