use fff_plus::grep::{plain_file_matches, plain_line_match};
use fff_plus::grep::search_pattern;
use fff_plus::bigram::{extract_bigrams, BigramFilter, BigramIndexBuilder};
use fff_plus::cursor::CursorStore;
use fff_plus::grep::{
    ascii_case_insensitive_find, char_indices_to_byte_offsets, collect_page, display_prefix, fuzzy_match_accepted,
    plain_highlights, prepare_files_to_search, prepare_line, FileMatches, GrepMatch, MAX_LINE_DISPLAY_LEN,
};
use fff_plus::output::{format_count, format_grep_results, trunc_centered, FormatGrepParams, OutputMode};
use fff_plus::sort::sort_ranks;
use fff_plus::types::FileItem;
use fff_plus::watcher::{is_dotgit_change_affecting_status, is_git_file, plan_events, EventKind, EventPlan, FsEvent, PathEvent};

fn m(file_index: usize, line_number: u64, text: &str, ranges: Vec<(u32, u32)>) -> GrepMatch {
    GrepMatch {
        file_index,
        line_number,
        col: 0,
        byte_offset: 0,
        line_content: text.to_string(),
        match_byte_offsets: ranges,
        fuzzy_score: None,
        is_definition: false,
        is_import: false,
        context_before: vec![],
        context_after: vec![],
    }
}

fn f(path: &str) -> FileItem {
    let name = path.rsplit('/').next().unwrap().to_string();
    FileItem::new_raw(format!("/r/{path}"), path.to_string(), name, 10, 0, None, false)
}

#[test]
fn ascii_find_ignores_case() {
    assert_eq!(ascii_case_insensitive_find(b"Hello World", b"world"), Some(6));
    assert_eq!(ascii_case_insensitive_find(b"Hello", b"xyz"), None);
    assert_eq!(ascii_case_insensitive_find(b"abc", b""), Some(0));
    assert_eq!(ascii_case_insensitive_find(b"ab", b"abc"), None);
}

#[test]
fn lines_are_trimmed_and_cut_for_display() {
    let (shown, len) = prepare_line(b"let x = 1;\r\n");
    assert_eq!(shown, b"let x = 1;");
    assert_eq!(len, 10);
    let long = "é".repeat(400);
    let (shown, len) = prepare_line(long.as_bytes());
    assert_eq!(len as usize, MAX_LINE_DISPLAY_LEN);
    assert_eq!(shown.len(), MAX_LINE_DISPLAY_LEN);
    let cut = display_prefix(&long);
    assert_eq!(cut.len(), MAX_LINE_DISPLAY_LEN);
    let odd = format!("a{long}");
    assert_eq!(display_prefix(&odd).len(), MAX_LINE_DISPLAY_LEN - 1);
}

#[test]
fn highlights_of_plain_matches() {
    let (ranges, col) = plain_highlights(b"foo bar foo", b"foo", false, 3);
    assert_eq!(ranges, vec![(0, 3), (8, 11)]);
    assert_eq!(col, 0);
    let (ranges, col) = plain_highlights(b"xx FOO", b"foo", true, 3);
    assert_eq!(ranges, vec![(3, 6)]);
    assert_eq!(col, 3);
}

#[test]
fn char_positions_become_merged_byte_ranges() {
    assert_eq!(char_indices_to_byte_offsets("aébc", &[1, 2, 3]), vec![(1, 5)]);
    assert_eq!(char_indices_to_byte_offsets("abc", &[0, 2, 9]), vec![(0, 1), (2, 3)]);
    assert!(char_indices_to_byte_offsets("abc", &[]).is_empty());
}

#[test]
fn fuzzy_quality_checks() {
    assert!(fuzzy_match_accepted(&[0, 1, 2, 3, 4, 5], 6));
    assert!(fuzzy_match_accepted(&[0, 1, 2, 3, 4], 6));
    assert!(!fuzzy_match_accepted(&[0, 1, 2], 6));
    assert!(!fuzzy_match_accepted(&[0, 5, 10, 15, 20, 25], 6));
}

#[test]
fn pages_collect_matches_until_the_limit() {
    let per_file = vec![
        FileMatches { position: 0, matches: vec![m(0, 1, "a", vec![]), m(0, 2, "b", vec![])] },
        FileMatches { position: 2, matches: vec![m(0, 5, "c", vec![])] },
    ];
    let page = collect_page(&per_file, 3, 10, 0, false);
    assert_eq!(page.matches.len(), 3);
    assert_eq!(page.files, vec![0, 2]);
    assert_eq!(page.matches[2].file_index, 1);
    assert_eq!(page.next_file_offset, 0);
}

#[test]
fn files_to_search_skip_binary_and_large_files() {
    let mut big = f("big.bin");
    big.size = 1 << 30;
    let mut bin = f("x.png");
    bin.is_binary = true;
    let files = vec![f("a.rs"), big, bin, f("b.rs")];
    let (picked, total) = prepare_files_to_search(&files, 1 << 20, 0);
    assert_eq!(total, 2);
    let names: Vec<&str> = picked.iter().map(|f| f.relative_path.as_str()).collect();
    assert!(names.contains(&"a.rs") && names.contains(&"b.rs"));
}

#[test]
fn bigram_filter_never_drops_a_containing_file() {
    let contents: [&[u8]; 3] = [b"fn main() {}", b"struct Foo;", b"let main_loop = 1;"];
    let mut b = BigramIndexBuilder::new(contents.len());
    for (i, c) in contents.iter().enumerate() {
        b.add_file_content(i, c);
    }
    let filter = b.compress(Some(0));
    if let Some(cands) = filter.query(b"main") {
        assert!(BigramFilter::is_candidate(&cands, 0));
        assert!(BigramFilter::is_candidate(&cands, 2));
        assert!(BigramFilter::count_candidates(&cands) >= 2);
    }
    assert_eq!(extract_bigrams(b"abab"), {
        let k = |a: u8, b: u8| ((a as u16) << 8) | b as u16;
        vec![k(b'a', b'b'), k(b'b', b'a')]
    });
}

#[test]
fn ranks_sort_by_score_then_recency() {
    let sorted = sort_ranks(&[(1, 5, 0), (3, 1, 1), (1, 9, 2), (3, 1, 3)]);
    assert_eq!(sorted, vec![(3, 1, 1), (3, 1, 3), (1, 9, 2), (1, 5, 0)]);
}

#[test]
fn count_output_lists_files_then_cursor() {
    let files = vec![f("a.rs"), f("b.rs")];
    let items = vec![m(0, 1, "x", vec![]), m(1, 2, "y", vec![]), m(0, 3, "z", vec![])];
    let mut store = CursorStore::new();
    assert_eq!(format_count(&items, &files, 0, &mut store), "a.rs: 2\nb.rs: 1");
    assert_eq!(format_count(&items, &files, 5, &mut store), "a.rs: 2\nb.rs: 1\n\ncursor: 1");
    assert_eq!(store.get("1"), Some(5));
}

#[test]
fn content_output_for_a_single_match() {
    let files = vec![f("a.rs")];
    let items = vec![m(0, 3, "let x = 1;", vec![(4, 5)])];
    let mut store = CursorStore::new();
    let params = FormatGrepParams {
        matches: &items,
        files: &files,
        total_matched: 1,
        next_file_offset: 0,
        regex_fallback_error: None,
        output_mode: OutputMode::Content,
        max_results: 10,
        show_context: false,
        auto_expand_defs: false,
    };
    assert_eq!(format_grep_results(&params, &mut store), "→ Read a.rs (only match)\na.rs\n 3: let x = 1;");
}

#[test]
fn short_lines_are_not_truncated() {
    assert_eq!(trunc_centered("short", None, 180), "short");
}

#[test]
fn watcher_plans() {
    let ev = |kind: EventKind, path: &[u8], exists: bool| FsEvent {
        kind,
        need_rescan: false,
        paths: vec![PathEvent { path: path.to_vec(), exists, indexable: exists }],
    };
    match plan_events(&[ev(EventKind::Create, b"/r/src/b.rs", true), ev(EventKind::Create, b"/r/src/a.rs", true)], None) {
        EventPlan::Apply { remove, add_or_modify, refresh_git } => {
            assert!(remove.is_empty());
            assert_eq!(add_or_modify, vec![b"/r/src/a.rs".to_vec(), b"/r/src/b.rs".to_vec()]);
            assert!(!refresh_git);
        }
        EventPlan::FullRescan => panic!("no rescan expected"),
    }
    match plan_events(&[ev(EventKind::Remove, b"/r/src/a.rs", false)], None) {
        EventPlan::Apply { remove, .. } => assert_eq!(remove, vec![b"/r/src/a.rs".to_vec()]),
        EventPlan::FullRescan => panic!("no rescan expected"),
    }
    assert!(matches!(plan_events(&[ev(EventKind::Modify, b"/r/.gitignore", true)], None), EventPlan::FullRescan));
    let mut rescan = ev(EventKind::Modify, b"/r/a.rs", true);
    rescan.need_rescan = true;
    assert!(matches!(plan_events(&[rescan], None), EventPlan::FullRescan));
    assert!(is_git_file(b"/r/.git/index"));
    assert!(!is_git_file(b"/r/src/a.rs"));
    assert!(is_dotgit_change_affecting_status(b"/r/.git/index", Some(b"/r/.git")));
}

#[test]
fn search_patterns_follow_smart_case_and_newline_escapes() {
    assert_eq!(search_pattern("Foo", true), (b"Foo".to_vec(), false, false));
    assert_eq!(search_pattern("FoO bar", false), (b"FoO bar".to_vec(), false, false));
    assert_eq!(search_pattern("foo", true), (b"foo".to_vec(), true, false));
    assert_eq!(search_pattern("a\\nb", false), (b"a\nb".to_vec(), false, true));
    assert_eq!(search_pattern("x\\n\\ny", true), (b"x\n\ny".to_vec(), true, true));
}

#[test]
fn plain_line_matches_carry_highlights() {
    let m = plain_line_match(b"  let foo = foo();\n", 7, 120, b"foo", false, 3);
    assert_eq!(m.line_number, 7);
    assert_eq!(m.byte_offset, 120);
    assert_eq!(m.line_content, "  let foo = foo();");
    assert_eq!(m.match_byte_offsets, vec![(6, 9), (12, 15)]);
    assert_eq!(m.col, 6);
    let m = plain_line_match(b"\xffFOO", 1, 0, b"foo", true, 3);
    assert_eq!(m.line_content, "\u{fffd}FOO");
    assert_eq!(m.match_byte_offsets, vec![(1, 4)]);
}

#[test]
fn plain_file_matches_walk_lines_in_order() {
    let content = b"alpha\r\nbeta foo\nFOO gamma\nfoo\n";
    let ms = plain_file_matches(content, b"foo", false, 0);
    assert_eq!(ms.len(), 2);
    assert_eq!((ms[0].line_number, ms[0].byte_offset), (2, 7));
    assert_eq!(ms[0].line_content, "beta foo");
    assert_eq!(ms[0].col, 5);
    assert_eq!((ms[1].line_number, ms[1].byte_offset), (4, 26));
    let ms = plain_file_matches(content, b"foo", true, 0);
    assert_eq!(ms.iter().map(|m| m.line_number).collect::<Vec<_>>(), vec![2, 3, 4]);
    assert_eq!(ms[1].match_byte_offsets, vec![(0, 3)]);
    let ms = plain_file_matches(content, b"foo", true, 2);
    assert_eq!(ms.iter().map(|m| m.line_number).collect::<Vec<_>>(), vec![2, 3]);
    assert!(plain_file_matches(b"", b"foo", false, 0).is_empty());
    assert_eq!(plain_file_matches(b"no newline foo", b"foo", false, 0)[0].line_content, "no newline foo");
}
