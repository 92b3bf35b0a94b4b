use fff_plus::bigram::{BigramFilter, BigramIndexBuilder};
use fff_plus::config::FffConfig;
use fff_plus::engine::choose_log_path;
use fff_plus::ffi_json::{Location, LocationJson, PositionJson, SearchResult, SearchResultJson};
use fff_plus::git::STATUS_WT_MODIFIED;
use fff_plus::types::{ContentCacheBudget, ContentSource, FileItem, Score, MAX_MMAP_FILE_SIZE};

#[test]
fn unlimited_and_zero_budgets() {
    let u = ContentCacheBudget::unlimited();
    assert_eq!(u.max_files, usize::MAX);
    assert_eq!(u.max_bytes, u64::MAX);
    assert_eq!(u.max_file_size, MAX_MMAP_FILE_SIZE);
    assert_eq!((u.cached_count, u.cached_bytes), (0, 0));
    let z = ContentCacheBudget::zero();
    assert_eq!((z.max_files, z.max_bytes, z.max_file_size), (0, 0, 0));
    assert!(matches!(z.content_source(10, false, false), ContentSource::Skip));
}

#[test]
fn content_source_follows_the_budget() {
    let mut b = ContentCacheBudget::unlimited();
    b.max_files = 1;
    b.max_bytes = 100;
    assert!(matches!(b.content_source(10, false, true), ContentSource::Cached));
    assert!(matches!(b.content_source(10, false, false), ContentSource::LoadAndCache));
    assert!(matches!(b.content_source(0, false, false), ContentSource::Skip));
    assert!(matches!(b.content_source(200, true, false), ContentSource::Skip));
    assert!(matches!(b.content_source(200, false, false), ContentSource::LoadTemporary));
    b.record_cached(10);
    assert_eq!((b.cached_count, b.cached_bytes), (1, 10));
    assert!(matches!(b.content_source(10, false, false), ContentSource::LoadTemporary));
    b.release(10);
    assert_eq!((b.cached_count, b.cached_bytes), (0, 0));
    b.record_cached(30);
    b.reset();
    assert_eq!((b.cached_count, b.cached_bytes, b.max_files, b.max_bytes), (0, 0, 1, 100));
    b.release(5);
    assert_eq!((b.cached_count, b.cached_bytes), (usize::MAX, u64::MAX - 4));
}

#[test]
fn log_path_prefers_the_flag_then_the_config() {
    let mut config = FffConfig::default();
    assert_eq!(choose_log_path(None, &config, "/tmp/default.log"), "/tmp/default.log");
    config.log.file = Some("/var/fff.log".to_string());
    assert_eq!(choose_log_path(None, &config, "/tmp/default.log"), "/var/fff.log");
    assert_eq!(choose_log_path(Some("/x.log"), &config, "/tmp/default.log"), "/x.log");
}

fn score(total: i32) -> Score {
    Score {
        total,
        base_score: total,
        filename_bonus: 0,
        special_filename_bonus: 0,
        frecency_boost: 0,
        git_status_boost: 0,
        distance_penalty: 0,
        current_file_penalty: 0,
        combo_match_boost: 0,
        exact_match: false,
        match_type: "fuzzy",
    }
}

#[test]
fn search_result_record_copies_every_item() {
    let a = FileItem::new_raw("/r/a.rs".into(), "a.rs".into(), "a.rs".into(), 3, 7, Some(STATUS_WT_MODIFIED), false);
    let b = FileItem::new_raw("/r/b.rs".into(), "b.rs".into(), "b.rs".into(), 4, 8, None, false);
    let result = SearchResult {
        items: vec![&a, &b],
        scores: vec![score(5), score(2)],
        total_matched: 2,
        total_files: 9,
        location: Some(Location::Range { start: (1, 2), end: (3, 4) }),
    };
    let json = SearchResultJson::from_search_result(&result);
    assert_eq!(json.items.len(), 2);
    assert_eq!(json.items[0].relative_path, "a.rs");
    assert_eq!(json.items[0].git_status, "modified");
    assert_eq!(json.items[1].git_status, "clean");
    assert_eq!(json.scores[0].total, 5);
    assert_eq!(json.scores[1].match_type, "fuzzy");
    assert_eq!((json.total_matched, json.total_files), (2, 9));
    assert!(json.location == Some(LocationJson::Range {
        start: PositionJson { line: 1, col: 2 },
        end: PositionJson { line: 3, col: 4 },
    }));
}

#[test]
fn skip_index_keeps_files_that_hold_the_pattern() {
    let contents: [&[u8]; 3] = [b"a_b_c_d", b"xyz", b"abcd"];
    let mut main = BigramIndexBuilder::new(contents.len());
    let mut skip = BigramIndexBuilder::new(contents.len());
    for (i, c) in contents.iter().enumerate() {
        main.add_file_content(i, c);
        skip.add_file_content_skip(i, c);
    }
    let mut filter = main.compress(Some(0));
    filter.set_skip_index(skip.compress(Some(0)));
    if let Some(cands) = filter.query(b"abcd") {
        assert!(BigramFilter::is_candidate(&cands, 2));
    }
}

#[test]
fn compressed_filter_counts_its_columns_and_heap() {
    assert_eq!(BigramIndexBuilder::new(0).compress(None).heap_bytes(), 262144);
    let contents: [&[u8]; 3] = [b"Hello world", b"hello there", b"xyz"];
    let mut b = BigramIndexBuilder::new(contents.len());
    for (i, c) in contents.iter().enumerate() {
        b.add_file_content(i, c);
    }
    assert!(b.is_ready());
    let f = b.compress(Some(0));
    let kept = (0..=u16::MAX).filter(|k| f.has_key(*k)).count();
    assert_eq!(f.columns_used(), kept);
    assert_eq!(f.heap_bytes(), 4 * 65536 + 8 * kept);
    if let Some(c) = f.query(b"HELLO") {
        assert!(BigramFilter::is_candidate(&c, 0));
        assert!(BigramFilter::is_candidate(&c, 1));
        let n = BigramFilter::count_candidates(&c);
        assert_eq!(n, (0..64).filter(|i| BigramFilter::is_candidate(&c, *i)).count());
    }
}
