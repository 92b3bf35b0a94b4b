//! Content-search options: the engine's option set, its wire form, and
//! the defaults the search tools pick for each output mode.

use vstd::prelude::*;
use crate::output::OutputMode;
use crate::wire::{GrepOptions, WireGrepFileMatches, WireGrepMatch, WireGrepMode};
use crate::grep::{copy_ranges, copy_strings, views, GrepMatch};
use crate::types::FileItem;

verus! {

/// How a content-search pattern is interpreted.
#[derive(Clone, Copy, PartialEq, Eq, Structural)]
pub enum GrepMode {
    /// The pattern is a literal string.
    PlainText,
    /// The pattern is a regular expression.
    Regex,
    /// The pattern is fuzzy-matched against each line.
    Fuzzy,
}

/// Options of one content search.
#[derive(Clone, Copy)]
pub struct GrepSearchOptions {
    /// Files larger than this many bytes are skipped.
    pub max_file_size: u64,
    /// Most matches kept per file (0: no limit).
    pub max_matches_per_file: usize,
    /// Case-insensitive unless the pattern has an uppercase letter.
    pub smart_case: bool,
    /// Index of the first file to search, for paging through files.
    pub file_offset: usize,
    /// Matches collected before the search stops.
    pub page_limit: usize,
    pub mode: GrepMode,
    /// Time after which partial results are returned (0: no limit).
    pub time_budget_ms: u64,
    /// Context lines kept before each match.
    pub before_context: usize,
    /// Context lines kept after each match.
    pub after_context: usize,
    /// Whether matching lines are classified as definitions.
    pub classify_definitions: bool,
    /// Whether leading whitespace is trimmed from matched lines.
    pub trim_whitespace: bool,
}

/// The engine's mode for a wire mode.
pub open spec fn mode_of(mode: WireGrepMode) -> GrepMode {
    match mode {
        WireGrepMode::PlainText => GrepMode::PlainText,
        WireGrepMode::Regex => GrepMode::Regex,
        WireGrepMode::Fuzzy => GrepMode::Fuzzy,
    }
}

/// The engine's mode for a wire mode.
pub fn wire_mode_to_grep_mode(mode: WireGrepMode) -> (r: GrepMode)
    ensures
        r == mode_of(mode),
{
    match mode {
        WireGrepMode::PlainText => GrepMode::PlainText,
        WireGrepMode::Regex => GrepMode::Regex,
        WireGrepMode::Fuzzy => GrepMode::Fuzzy,
    }
}

/// The engine's options for options received over the wire: every field
/// carried over, the mode mapped.
pub fn to_core_grep_options(options: &GrepOptions) -> (r: GrepSearchOptions)
    ensures
        r.max_file_size == options.max_file_size,
        r.max_matches_per_file == options.max_matches_per_file,
        r.smart_case == options.smart_case,
        r.file_offset == options.file_offset,
        r.page_limit == options.page_limit,
        r.mode == mode_of(options.mode),
        r.time_budget_ms == options.time_budget_ms,
        r.before_context == options.before_context,
        r.after_context == options.after_context,
        r.classify_definitions == options.classify_definitions,
        r.trim_whitespace == options.trim_whitespace,
{
    GrepSearchOptions {
        max_file_size: options.max_file_size,
        max_matches_per_file: options.max_matches_per_file,
        smart_case: options.smart_case,
        file_offset: options.file_offset,
        page_limit: options.page_limit,
        mode: wire_mode_to_grep_mode(options.mode),
        time_budget_ms: options.time_budget_ms,
        before_context: options.before_context,
        after_context: options.after_context,
        classify_definitions: options.classify_definitions,
        trim_whitespace: options.trim_whitespace,
    }
}

/// Options the search tools use for an output mode, and whether
/// definitions are expanded automatically. Files-with-matches keeps one
/// match per file, usage eight and the others ten; usage shows one context
/// line unless told otherwise, the others none. Without context lines
/// (outside usage) definitions are expanded, with eight lines after each
/// match. Files up to 10 MiB are searched, 50 matches per page, with smart
/// case, classification and whitespace trimming, and no time budget.
pub fn make_grep_options(output_mode: OutputMode, mode: GrepMode, file_offset: usize, context: Option<usize>) -> (r: (GrepSearchOptions, bool))
    ensures
        ({
            let is_usage = output_mode == OutputMode::Usage;
            let ctx: usize = match context {
                Some(c) => c,
                None => if is_usage { 1usize } else { 0usize },
            };
            let auto_expand = !is_usage && ctx == 0;
            &&& r.1 == auto_expand
            &&& r.0.max_file_size == 10 * 1024 * 1024
            &&& r.0.max_matches_per_file == (if output_mode == OutputMode::FilesWithMatches {
                1usize
            } else if is_usage {
                8usize
            } else {
                10usize
            })
            &&& r.0.smart_case
            &&& r.0.file_offset == file_offset
            &&& r.0.page_limit == 50
            &&& r.0.mode == mode
            &&& r.0.time_budget_ms == 0
            &&& r.0.before_context == ctx
            &&& r.0.after_context == (if auto_expand { 8usize } else { ctx })
            &&& r.0.classify_definitions
            &&& r.0.trim_whitespace
        }),
{
    let is_usage = output_mode == OutputMode::Usage;
    let matches_per_file: usize = match output_mode {
        OutputMode::FilesWithMatches => 1,
        _ => if is_usage { 8 } else { 10 },
    };
    let ctx_lines: usize = match context {
        Some(c) => c,
        None => if is_usage { 1 } else { 0 },
    };
    let auto_expand = !is_usage && ctx_lines == 0;
    let after_ctx = if auto_expand { 8 } else { ctx_lines };
    (
        GrepSearchOptions {
            max_file_size: 10 * 1024 * 1024,
            max_matches_per_file: matches_per_file,
            smart_case: true,
            file_offset,
            page_limit: 50,
            mode,
            time_budget_ms: 0,
            before_context: ctx_lines,
            after_context: after_ctx,
            classify_definitions: true,
            trim_whitespace: true,
        },
        auto_expand,
    )
}

/// The matches of file `i`, in order, over the first `n` matches.
pub open spec fn matches_of(matches: Seq<GrepMatch>, i: int, n: nat) -> Seq<GrepMatch>
    decreases n,
{
    if n == 0 {
        seq![]
    } else {
        let prev = matches_of(matches, i, (n - 1) as nat);
        if matches[n - 1].file_index as int == i { prev.push(matches[n - 1]) } else { prev }
    }
}

/// The files among the first `n` that have matches, in file order.
pub open spec fn files_with_matches(matches: Seq<GrepMatch>, n: nat) -> Seq<int>
    decreases n,
{
    if n == 0 {
        seq![]
    } else {
        let prev = files_with_matches(matches, (n - 1) as nat);
        if matches_of(matches, n - 1, matches.len()).len() > 0 { prev.push(n - 1) } else { prev }
    }
}

/// `w` is the wire form of match `m`.
pub open spec fn wire_match_of(m: GrepMatch, w: WireGrepMatch) -> bool {
    &&& w.line_number == m.line_number
    &&& w.col == m.col
    &&& w.line_text@ == m.line_content@
    &&& w.match_byte_offsets@ == m.match_byte_offsets@
    &&& w.is_definition == m.is_definition
    &&& views(w.context_before@) == views(m.context_before@)
    &&& views(w.context_after@) == views(m.context_after@)
}

/// `g` is the wire group of file `f` with the matches `ms`.
pub open spec fn group_of(g: WireGrepFileMatches, f: FileItem, ms: Seq<GrepMatch>) -> bool {
    &&& g.path@ == f.relative_path@
    &&& g.size == f.size
    &&& g.git_status == f.git_status
    &&& g.frecency_score == f.total_frecency_score
    &&& g.matches@.len() == ms.len()
    &&& forall|j: int| 0 <= j < ms.len() ==> wire_match_of(ms[j], #[trigger] g.matches@[j])
}

/// `out` holds the groups of the files with matches among the first `n`.
pub open spec fn groups_upto(out: Seq<WireGrepFileMatches>, matches: Seq<GrepMatch>, files: Seq<FileItem>, n: nat) -> bool {
    &&& out.len() == files_with_matches(matches, n).len()
    &&& forall|k: int| 0 <= k < out.len() ==> 0 <= #[trigger] files_with_matches(matches, n)[k] < n
    &&& forall|k: int| 0 <= k < out.len() ==> group_of(#[trigger] out[k], files[files_with_matches(matches, n)[k]],
        matches_of(matches, files_with_matches(matches, n)[k], matches.len()))
}

proof fn lemma_groups_step(out: Seq<WireGrepFileMatches>, matches: Seq<GrepMatch>, files: Seq<FileItem>, i: nat, g: Option<WireGrepFileMatches>)
    requires
        groups_upto(out, matches, files, i),
        i < files.len(),
        match g {
            Some(x) => matches_of(matches, i as int, matches.len()).len() > 0
                && group_of(x, files[i as int], matches_of(matches, i as int, matches.len())),
            None => matches_of(matches, i as int, matches.len()).len() == 0,
        },
    ensures
        groups_upto(match g { Some(x) => out.push(x), None => out }, matches, files, i + 1),
{
    let fw = files_with_matches(matches, i);
    let fw1 = files_with_matches(matches, i + 1);
    match g {
        Some(x) => {
            assert(fw1 == fw.push(i as int));
            let o1 = out.push(x);
            assert forall|k: int| 0 <= k < o1.len() implies 0 <= #[trigger] fw1[k] < i + 1 by {
                if k < out.len() {
                    assert(fw1[k] == fw[k]);
                }
            }
            assert forall|k: int| 0 <= k < o1.len() implies group_of(#[trigger] o1[k], files[fw1[k]], matches_of(matches, fw1[k], matches.len())) by {
                if k < out.len() {
                    assert(o1[k] == out[k]);
                    assert(fw1[k] == fw[k]);
                }
            }
        },
        None => {
            assert(fw1 == fw);
        },
    }
}

/// Group grep matches by file for the wire: one group per file with
/// matches, in the order of `files`, each holding its matches in order.
pub fn project_grep_result(matches: &[GrepMatch], files: &[FileItem]) -> (r: Vec<WireGrepFileMatches>)
    ensures
        groups_upto(r@, matches@, files@, files@.len()),
{
    let mut out: Vec<WireGrepFileMatches> = Vec::new();
    let mut i: usize = 0;
    proof {
        assert(groups_upto(out@, matches@, files@, 0));
    }
    while i < files.len()
        invariant
            i <= files@.len(),
            groups_upto(out@, matches@, files@, i as nat),
        decreases files@.len() - i,
    {
        let mut group: Vec<WireGrepMatch> = Vec::new();
        let mut j: usize = 0;
        while j < matches.len()
            invariant
                j <= matches@.len(),
                group@.len() == matches_of(matches@, i as int, j as nat).len(),
                forall|t: int| 0 <= t < group@.len() ==> wire_match_of(matches_of(matches@, i as int, j as nat)[t], #[trigger] group@[t]),
            decreases matches@.len() - j,
        {
            let m = &matches[j];
            if m.file_index == i {
                let w = WireGrepMatch {
                    line_number: m.line_number,
                    col: m.col,
                    line_text: m.line_content.clone(),
                    match_byte_offsets: copy_ranges(&m.match_byte_offsets),
                    is_definition: m.is_definition,
                    context_before: copy_strings(&m.context_before),
                    context_after: copy_strings(&m.context_after),
                };
                let ghost g0 = group@;
                group.push(w);
                proof {
                    assert forall|t: int| 0 <= t < group@.len() implies wire_match_of(matches_of(matches@, i as int, (j + 1) as nat)[t], #[trigger] group@[t]) by {
                        if t < g0.len() {
                            assert(group@[t] == g0[t]);
                        }
                    }
                }
            }
            j = j + 1;
        }
        if group.len() > 0 {
            let f = &files[i];
            let g = WireGrepFileMatches {
                path: f.relative_path.clone(),
                size: f.size,
                git_status: f.git_status,
                frecency_score: f.total_frecency_score,
                matches: group,
            };
            proof {
                lemma_groups_step(out@, matches@, files@, i as nat, Some(g));
            }
            out.push(g);
        } else {
            proof {
                lemma_groups_step(out@, matches@, files@, i as nat, None);
            }
        }
        i = i + 1;
    }
    out
}

/// What `serde_json` reads from a text holding a JSON array of strings:
/// the strings, or `None` when the text is not one.
pub uninterp spec fn json_string_array(text: Seq<char>) -> Option<Seq<Seq<char>>>;

/// `serde_json::from_str::<Vec<String>>`, the error dropped. Claimed: the
/// result is [`json_string_array`] of the text.
#[verifier::external_body]
fn parse_json_string_array(text: &str) -> (r: Option<Vec<String>>)
    ensures
        match r {
            Some(v) => json_string_array(text@) == Some(views(v@)),
            None => json_string_array(text@) is None,
        },
{
    serde_json::from_str::<Vec<String>>(text).ok()
}

/// The patterns a multi-pattern search takes from one string: a JSON array
/// of strings when the text starts with `[` and reads as one, else the
/// text itself as the only pattern.
pub open spec fn patterns_from_text_spec(text: Seq<char>) -> Seq<Seq<char>> {
    if text.len() > 0 && text[0] == '[' && json_string_array(text) is Some {
        json_string_array(text)->0
    } else {
        seq![text]
    }
}

/// Patterns from one string (see [`patterns_from_text_spec`]).
pub fn patterns_from_text(text: &str) -> (r: Vec<String>)
    ensures
        views(r@) == patterns_from_text_spec(text@),
{
    let cs = crate::text::chars_of(text);
    if cs.len() > 0 && cs[0] == '[' {
        if let Some(parsed) = parse_json_string_array(text) {
            return parsed;
        }
    }
    let mut out: Vec<String> = Vec::new();
    out.push(String::from_str(text));
    proof {
        assert(views(out@) =~= seq![text@]);
    }
    out
}

} // verus!
