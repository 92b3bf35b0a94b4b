use fff_plus::ffi_json::Location;
use fff_plus::fuzzy::{
    fuzzy_file_matches, fuzzy_search, match_and_score_files, FuzzySearchOptions, match_fuzzy_parts, FuzzyQuery, MatchConfig, DEFAULT_EXACT_MATCH_BONUS,
    DEFAULT_MATCHING_CASE_BONUS, DEFAULT_PREFIX_BONUS,
};
use fff_plus::score::ScoringContext;
use fff_plus::types::{FileItem, PaginationArgs};

fn default_config(max_typos: u16) -> MatchConfig {
    MatchConfig {
        max_typos,
        capitalization_bonus: 4,
        matching_case_bonus: DEFAULT_MATCHING_CASE_BONUS,
        exact_match_bonus: DEFAULT_EXACT_MATCH_BONUS,
        prefix_bonus: DEFAULT_PREFIX_BONUS,
    }
}

const LONG_PATH: &str = "core_workflow_service/kafka_event_consumer/src/ai_part_extraction_request/ai_part_extraction_request_handler.rs";

#[test]
fn test_single_path_matching() {
    let path = LONG_PATH;
    let options = default_config(2);

    let matches = match_fuzzy_parts(&["aipart"], &[path], options);
    assert!(!matches.is_empty(), "'aipart' should match the path");

    let matches = match_fuzzy_parts(&["core"], &[path], options);
    assert!(!matches.is_empty(), "'core' should match the path");

    let matches = match_fuzzy_parts(&["co"], &[path], options);
    assert!(!matches.is_empty(), "'co' should match the path");
}

#[test]
fn test_lowercase_path_matching() {
    let path = LONG_PATH.to_lowercase();
    let options = default_config(2);

    let matches = match_fuzzy_parts(&["co"], &[path.as_str()], options);
    assert!(!matches.is_empty(), "'co' should match the lowercase path");

    let matches = match_fuzzy_parts(&["core"], &[path.as_str()], options);
    assert!(!matches.is_empty(), "'core' should match the lowercase path");
}

#[test]
fn test_fuzzy_typo_scoring() {
    let passes = |n: &str, h: &str| -> bool {
        let content = format!("{h}\n");
        !fuzzy_file_matches(content.as_bytes(), n, false, 0).is_empty()
    };
    assert!(passes("schema", "schema"));
    assert!(passes("schema", "  schema: String,"));
    assert!(passes("schema", "pub fn validate_schema() {}"));
    assert!(passes("shcema", "schema"));
    assert!(!passes("schema", "it has ema in it"));
    assert!(!passes("schema", "hello world foo bar"));
}

#[test]
fn short_parts_are_ignored_and_later_parts_narrow() {
    let paths = ["src/lib.rs", "src/main.rs", "tests/lib_test.rs"];
    let cfg = default_config(0);
    assert!(match_fuzzy_parts(&["x"], &paths, cfg).is_empty());
    assert!(match_fuzzy_parts(&[], &paths, cfg).is_empty());
    let only_lib = match_fuzzy_parts(&["lib"], &paths, cfg);
    let idx: Vec<u32> = only_lib.iter().map(|m| m.index).collect();
    assert!(idx.contains(&0) && idx.contains(&2) && !idx.contains(&1));
    let narrowed = match_fuzzy_parts(&["lib", "tests"], &paths, cfg);
    assert_eq!(narrowed.iter().map(|m| m.index).collect::<Vec<_>>(), vec![2]);
    let single = match_fuzzy_parts(&["lib"], &paths[2..], cfg);
    assert!(narrowed[0].score > single[0].score);
}

#[test]
fn fuzzy_hits_carry_line_numbers_offsets_and_highlights() {
    let content = b"first line\r\n\nlet schema = 1;\n";
    let hits = fuzzy_file_matches(content, "schema", false, 0);
    assert_eq!(hits.len(), 1);
    let h = &hits[0];
    assert_eq!(h.line_number, 3);
    assert_eq!(h.byte_offset, 13);
    assert_eq!(h.line_content, "let schema = 1;");
    assert_eq!(h.match_byte_offsets, vec![(4, 10)]);
    assert_eq!(h.col, 4);
    assert!(h.fuzzy_score.is_some());
    assert_eq!(h.file_index, 0);
}

#[test]
fn fuzzy_hits_stop_at_the_per_file_limit() {
    let content = b"schema\nschema\nschema\n";
    assert_eq!(fuzzy_file_matches(content, "schema", false, 0).len(), 3);
    assert_eq!(fuzzy_file_matches(content, "schema", false, 2).len(), 2);
    assert!(fuzzy_file_matches(b"", "schema", false, 0).is_empty());
    assert!(fuzzy_file_matches(b"\xff\xfe schema\n", "schema", false, 0).is_empty());
}

fn file(path: &str, modified: u64) -> FileItem {
    let name = path.rsplit('/').next().unwrap().to_string();
    FileItem::new_raw(format!("/repo/{path}"), path.to_string(), name, 0, modified, None, false)
}

fn context(raw_query: &str) -> ScoringContext<'_> {
    ScoringContext {
        raw_query,
        current_file: None,
        max_typos: 2,
        max_threads: 1,
        last_same_query_match: None,
        combo_boost_score_multiplier: 100,
        min_combo_count: 3,
        pagination: PaginationArgs { offset: 0, limit: 0 },
    }
}

#[test]
fn short_query_falls_back_to_frecency() {
    let mut a = file("src/a.rs", 1);
    a.access_frecency_score = 3;
    let b = file("src/b.rs", 2);
    let files = vec![&b, &a];
    let (items, scores, total) = match_and_score_files(&files, &None, &[0, 0], &context(" x "));
    assert_eq!(total, 2);
    assert_eq!(items[0].relative_path, "src/a.rs");
    assert_eq!(scores[0].match_type, "frecency");
    let (_, scores, _) = match_and_score_files(&files, &Some(FuzzyQuery::Empty), &[0, 0], &context("abc"));
    assert_eq!(scores[0].match_type, "frecency");
    let (items, _, total) = match_and_score_files(&[], &None, &[], &context("abc"));
    assert!(items.is_empty());
    assert_eq!(total, 0);
}

#[test]
fn file_name_matches_rank_first() {
    let a = file("src/components/button.rs", 1);
    let b = file("docs/readme.md", 2);
    let c = file("button/src/lib.rs", 3);
    let files = vec![&a, &b, &c];
    let (items, scores, total) = match_and_score_files(&files, &None, &[0, 0, 0], &context("button.rs"));
    assert!(total >= 1);
    assert_eq!(items[0].relative_path, "src/components/button.rs");
    assert!(scores[0].match_type == "exact_filename" || scores[0].match_type == "fuzzy_filename");
    let mut strict = context("");
    strict.max_typos = 0;
    let (items, _, _) = match_and_score_files(&files, &Some(FuzzyQuery::Parts(vec!["button", "lib"])), &[0, 0, 0], &strict);
    assert_eq!(items.len(), 1);
    assert_eq!(items[0].relative_path, "button/src/lib.rs");
}

fn search_options() -> FuzzySearchOptions<'static> {
    FuzzySearchOptions {
        max_threads: 0,
        current_file: None,
        last_same_query_match: None,
        combo_boost_score_multiplier: 100,
        min_combo_count: 3,
        pagination: PaginationArgs { offset: 0, limit: 0 },
    }
}

#[test]
fn fuzzy_search_reports_totals_and_location() {
    let a = file("src/components/button.rs", 1);
    let b = file("docs/readme.md", 2);
    let files = vec![&a, &b];
    let r = fuzzy_search(&files, "button", None, Some(Location::Line(12)), &[0, 0], search_options());
    assert_eq!(r.total_files, 2);
    assert_eq!(r.total_matched, 1);
    assert_eq!(r.items[0].relative_path, "src/components/button.rs");
    assert!(matches!(r.location, Some(Location::Line(12))));
    let r = fuzzy_search(&files, "x", None, None, &[0, 0], search_options());
    assert_eq!(r.total_matched, 2);
    assert_eq!(r.scores[0].match_type, "frecency");
    assert!(r.location.is_none());
}

#[test]
fn typo_budget_grows_with_the_query() {
    let a = file("src/abcdefgh.rs", 1);
    let files = vec![&a];
    // Two typos are allowed for an eight-byte query, so a query with two
    // wrong letters still finds the file.
    let r = fuzzy_search(&files, "abxdefxh", None, None, &[0], search_options());
    assert_eq!(r.total_matched, 1);
}

#[test]
fn pages_start_at_the_offset() {
    let mut a = file("src/a.rs", 1);
    a.access_frecency_score = 5;
    let b = file("src/b.rs", 2);
    let files = vec![&a, &b];
    let mut ctx = context("x");
    ctx.pagination = PaginationArgs { offset: 1, limit: 5 };
    let (items, scores, total) = match_and_score_files(&files, &None, &[0, 0], &ctx);
    assert_eq!(total, 2);
    assert_eq!(items.len(), 1);
    assert_eq!(scores.len(), 1);
    assert_eq!(items[0].relative_path, "src/b.rs");
    ctx.pagination = PaginationArgs { offset: 0, limit: 1 };
    let (items, _, _) = match_and_score_files(&files, &None, &[0, 0], &ctx);
    assert_eq!(items.len(), 1);
    assert_eq!(items[0].relative_path, "src/a.rs");
    ctx.pagination = PaginationArgs { offset: 2, limit: 1 };
    let (items, _, total) = match_and_score_files(&files, &None, &[0, 0], &ctx);
    assert!(items.is_empty());
    assert_eq!(total, 2);
}
