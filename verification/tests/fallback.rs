use fff_plus::options::{patterns_from_text, project_grep_result};
use fff_plus::fallback::{
    next_grep_step, next_multi_grep_step, GrepStage, GrepStep, MultiGrepStep, fallback_query, multi_fallback_message, broaden_query, broadened_message, cleanup_fuzzy_query, format_approximate, path_message, suggests_path,
};
use fff_plus::grep::GrepMatch;
use fff_plus::options::{make_grep_options, to_core_grep_options, wire_mode_to_grep_mode, GrepMode};
use fff_plus::output::OutputMode;
use fff_plus::types::FileItem;
use fff_plus::wire::{GrepOptions, WireGrepMode};

#[test]
fn broadening_drops_the_first_plain_word() {
    assert_eq!(broaden_query("foo  bar\tbaz").as_deref(), Some("bar baz"));
    assert_eq!(broaden_query("single"), None);
    assert_eq!(broaden_query("  "), None);
    assert_eq!(broaden_query("!test foo"), None);
    assert_eq!(broaden_query("*.rs foo"), None);
    assert_eq!(broaden_query("src/ foo"), None);
}

#[test]
fn fuzzy_query_drops_separators_and_lowercases() {
    assert_eq!(cleanup_fuzzy_query("Get_User-Name:Id"), "getusernameid");
    assert_eq!(cleanup_fuzzy_query("ÄBC"), "äbc");
    assert_eq!(cleanup_fuzzy_query(""), "");
}

fn m(file_index: usize, line_number: u64, text: &str) -> GrepMatch {
    GrepMatch {
        file_index,
        line_number,
        col: 0,
        byte_offset: 0,
        line_content: text.to_string(),
        match_byte_offsets: vec![],
        fuzzy_score: Some(1),
        is_definition: false,
        is_import: false,
        context_before: vec![],
        context_after: vec![],
    }
}

fn f(path: &str) -> FileItem {
    FileItem::new_raw(path.to_string(), path.to_string(), path.to_string(), 0, 0, None, false)
}

#[test]
fn approximate_listing_shows_three_matches_grouped_by_file() {
    let files = vec![f("a.rs"), f("b.rs")];
    let items = vec![m(0, 1, "x"), m(0, 5, "y"), m(1, 2, "z"), m(0, 9, "w")];
    assert_eq!(
        format_approximate(&items, &files),
        "0 exact matches. 4 approximate:\na.rs\n 1: x\n 5: y\nb.rs\n 2: z"
    );
}

#[test]
fn fallback_messages() {
    assert!(suggests_path(51, "abcde"));
    assert!(!suggests_path(50, "abcde"));
    assert_eq!(broadened_message("a b", "b", "res"), "0 matches for 'a b'. Auto-broadened to 'b':\nres");
    assert_eq!(path_message("src/x.rs"), "0 content matches. But there is a relevant file path: src/x.rs");
}

#[test]
fn grep_options_per_output_mode() {
    let (o, auto) = make_grep_options(OutputMode::Content, GrepMode::PlainText, 3, None);
    assert!(auto);
    assert_eq!((o.max_matches_per_file, o.before_context, o.after_context), (10, 0, 8));
    assert_eq!(o.file_offset, 3);
    assert_eq!(o.max_file_size, 10 * 1024 * 1024);
    assert_eq!(o.page_limit, 50);
    let (o, auto) = make_grep_options(OutputMode::Usage, GrepMode::Regex, 0, None);
    assert!(!auto);
    assert_eq!((o.max_matches_per_file, o.before_context, o.after_context), (8, 1, 1));
    let (o, auto) = make_grep_options(OutputMode::FilesWithMatches, GrepMode::Fuzzy, 0, Some(2));
    assert!(!auto);
    assert_eq!((o.max_matches_per_file, o.before_context, o.after_context), (1, 2, 2));
    assert!(o.mode == GrepMode::Fuzzy);
}

#[test]
fn wire_options_carry_over() {
    let mut w = GrepOptions::default();
    w.mode = WireGrepMode::Regex;
    w.before_context = 4;
    let o = to_core_grep_options(&w);
    assert!(o.mode == GrepMode::Regex);
    assert_eq!(o.before_context, 4);
    assert_eq!(o.max_file_size, w.max_file_size);
    assert!(wire_mode_to_grep_mode(WireGrepMode::Fuzzy) == GrepMode::Fuzzy);
}

#[test]
fn grep_results_group_by_file_in_file_order() {
    let files = vec![f("a.rs"), f("b.rs"), f("c.rs")];
    let items = vec![m(1, 4, "x"), m(0, 1, "y"), m(1, 9, "z")];
    let groups = project_grep_result(&items, &files);
    assert_eq!(groups.len(), 2);
    assert_eq!(groups[0].path, "a.rs");
    assert_eq!(groups[0].matches.len(), 1);
    assert_eq!(groups[1].path, "b.rs");
    assert_eq!(groups[1].matches.iter().map(|w| w.line_number).collect::<Vec<_>>(), vec![4, 9]);
    assert_eq!(groups[1].matches[1].line_text, "z");
}

#[test]
fn non_code_override_globs() {
    let globs = fff_plus::ignore::non_git_repo_overrides();
    assert_eq!(globs.len(), 8);
    assert_eq!(globs[0], "!**/node_modules/");
    assert_eq!(globs[7], "!**/target/criterion/");
}

#[test]
fn patterns_text_reads_a_json_array_or_stands_alone() {
    assert_eq!(patterns_from_text("[\"a\",\"b\"]"), vec!["a".to_string(), "b".to_string()]);
    assert_eq!(patterns_from_text("[bad"), vec!["[bad".to_string()]);
    assert_eq!(patterns_from_text("x"), vec!["x".to_string()]);
    assert_eq!(patterns_from_text("[]"), Vec::<String>::new());
    assert_eq!(patterns_from_text(""), vec!["".to_string()]);
}

#[test]
fn single_pattern_retry_keeps_constraints_first() {
    assert_eq!(fallback_query("", "foo"), "foo");
    assert_eq!(fallback_query("*.rs !test/", "foo"), "*.rs !test/ foo");
    assert_eq!(
        multi_fallback_message("foo", "a.rs\n 1: foo"),
        "0 multi-pattern matches. Plain grep fallback for \"foo\":\na.rs\n 1: foo"
    );
}

#[test]
fn content_search_fallback_chain() {
    let step = |q: &str, st: GrepStage, n: usize, off: usize, top: Option<i32>| next_grep_step(q, st, n, off, top);
    assert!(step("foo bar", GrepStage::Exact, 3, 0, None).0 == GrepStep::ShowMatches);
    assert!(step("foo bar", GrepStage::Exact, 0, 20, None).0 == GrepStep::NoMatches);
    let (s, q) = step("foo  bar baz", GrepStage::Exact, 0, 0, None);
    assert!(s == GrepStep::RunBroadened);
    assert_eq!(q, "bar baz");
    let (s, q) = step("Get_User", GrepStage::Exact, 0, 0, None);
    assert!(s == GrepStep::RunFuzzy);
    assert_eq!(q, "getuser");
    assert!(step("foo bar", GrepStage::Broadened, 4, 0, None).0 == GrepStep::ShowBroadened);
    let (s, q) = step("foo bar", GrepStage::Broadened, 11, 0, None);
    assert!(s == GrepStep::RunFuzzy);
    assert_eq!(q, "foo bar");
    assert!(step("foo", GrepStage::Fuzzy, 2, 0, None).0 == GrepStep::ShowApproximate);
    let (s, q) = step("src/foo", GrepStage::Fuzzy, 0, 0, None);
    assert!(s == GrepStep::RunPathSearch);
    assert_eq!(q, "src/foo");
    assert!(step("foo", GrepStage::Fuzzy, 0, 0, None).0 == GrepStep::NoMatches);
    assert!(step("src/foo", GrepStage::PathSearch, 0, 0, Some(71)).0 == GrepStep::SuggestPath);
    assert!(step("src/foo", GrepStage::PathSearch, 0, 0, Some(70)).0 == GrepStep::NoMatches);
    assert!(step("src/foo", GrepStage::PathSearch, 0, 0, None).0 == GrepStep::NoMatches);
}

#[test]
fn multi_pattern_search_retries_patterns_in_order() {
    assert!(next_multi_grep_step(2, None, 5, 0) == MultiGrepStep::ShowMatches);
    assert!(next_multi_grep_step(2, None, 0, 0) == MultiGrepStep::RetryPattern(0));
    assert!(next_multi_grep_step(2, None, 0, 3) == MultiGrepStep::NoMatches);
    assert!(next_multi_grep_step(0, None, 0, 0) == MultiGrepStep::NoMatches);
    assert!(next_multi_grep_step(2, Some(0), 0, 0) == MultiGrepStep::RetryPattern(1));
    assert!(next_multi_grep_step(2, Some(1), 0, 0) == MultiGrepStep::NoMatches);
    assert!(next_multi_grep_step(2, Some(1), 1, 0) == MultiGrepStep::ShowFallback);
}
