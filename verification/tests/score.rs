use fff_plus::score::{
    calculate_current_file_penalty, is_special_entry_point_file, sat_add, sat_mul, score_filtered_by_frecency,
    sort_and_paginate, ScoringContext,
};
use fff_plus::types::{FileItem, PaginationArgs, Score};

fn create_test_file(path: &str, score: i32, modified: u64) -> (FileItem, Score) {
    let file_name = path.split('/').last().unwrap_or(path).to_string();
    let file = FileItem {
        path: path.to_string(),
        relative_path: path.to_string(),
        file_name,
        size: 0,
        modified,
        access_frecency_score: 0,
        modification_frecency_score: 0,
        total_frecency_score: 0,
        git_status: None,
        is_binary: false,
        is_deleted: false,
    };
    let score_obj = Score {
        total: score,
        base_score: score,
        filename_bonus: 0,
        special_filename_bonus: 0,
        frecency_boost: 0,
        git_status_boost: 0,
        distance_penalty: 0,
        current_file_penalty: 0,
        combo_match_boost: 0,
        exact_match: false,
        match_type: "test",
    };
    (file, score_obj)
}

fn context(offset: usize, limit: usize) -> ScoringContext<'static> {
    ScoringContext {
        raw_query: "test",
        current_file: None,
        max_typos: 2,
        max_threads: 1,
        last_same_query_match: None,
        combo_boost_score_multiplier: 100,
        min_combo_count: 3,
        pagination: PaginationArgs { offset, limit },
    }
}

#[test]
fn test_partial_sort_descending() {
    let test_data = vec![
        create_test_file("file1.rs", 100, 1000),
        create_test_file("file2.rs", 200, 2000),
        create_test_file("file3.rs", 50, 3000),
        create_test_file("file4.rs", 300, 4000),
        create_test_file("file5.rs", 150, 5000),
        create_test_file("file6.rs", 250, 6000),
        create_test_file("file7.rs", 80, 7000),
        create_test_file("file8.rs", 180, 8000),
        create_test_file("file9.rs", 120, 9000),
        create_test_file("file10.rs", 90, 10000),
    ];
    let results: Vec<(&FileItem, Score)> = test_data.iter().map(|(file, score)| (file, score.clone())).collect();
    let context = context(0, 0);

    let (items, scores, total) = sort_and_paginate(results.clone(), &context);

    assert_eq!(total, 10);
    assert_eq!(scores.len(), 10);
    assert_eq!(scores[0].total, 300, "First should be highest score");
    assert_eq!(scores[1].total, 250, "Second should be second highest");
    assert_eq!(scores[2].total, 200, "Third should be third highest");

    assert_eq!(items[0].relative_path, "file4.rs");
    assert_eq!(items[1].relative_path, "file6.rs");
    assert_eq!(items[2].relative_path, "file2.rs");
}

#[test]
fn test_partial_sort_with_same_scores() {
    let test_data = vec![
        create_test_file("file1.rs", 100, 5000),
        create_test_file("file2.rs", 100, 8000),
        create_test_file("file3.rs", 100, 3000),
        create_test_file("file4.rs", 200, 1000),
        create_test_file("file5.rs", 200, 9000),
    ];
    let results: Vec<(&FileItem, Score)> = test_data.iter().map(|(file, score)| (file, score.clone())).collect();
    let context = context(0, 0);

    let (items, scores, _) = sort_and_paginate(results, &context);

    assert_eq!(scores.len(), 5);
    assert_eq!(scores[0].total, 200);
    assert_eq!(items[0].modified, 9000, "First 200 should be newest");
    assert_eq!(scores[1].total, 200);
    assert_eq!(items[1].modified, 1000, "Second 200 should be older");
    assert_eq!(scores[2].total, 100);
    assert_eq!(items[2].modified, 8000, "First 100 should be newest");
    assert_eq!(scores[3].total, 100);
    assert_eq!(items[3].modified, 5000);
    assert_eq!(scores[4].total, 100);
    assert_eq!(items[4].modified, 3000, "Last 100 should be oldest");
}

#[test]
fn test_no_partial_sort_for_small_results() {
    let test_data = vec![
        create_test_file("file1.rs", 100, 1000),
        create_test_file("file2.rs", 200, 2000),
        create_test_file("file3.rs", 50, 3000),
    ];
    let results: Vec<(&FileItem, Score)> = test_data.iter().map(|(file, score)| (file, score.clone())).collect();
    let context = context(0, 0);

    let (items, scores, _) = sort_and_paginate(results, &context);

    assert_eq!(scores.len(), 3);
    assert_eq!(scores[0].total, 200);
    assert_eq!(scores[1].total, 100);
    assert_eq!(scores[2].total, 50);
    assert_eq!(items[0].relative_path, "file2.rs");
    assert_eq!(items[1].relative_path, "file1.rs");
    assert_eq!(items[2].relative_path, "file3.rs");
}

#[test]
fn pagination_returns_the_requested_page() {
    let test_data: Vec<(FileItem, Score)> =
        (0..10).map(|i| create_test_file(&format!("f{i}.rs"), 100 - i, 0)).collect();
    let results: Vec<(&FileItem, Score)> = test_data.iter().map(|(f, s)| (f, s.clone())).collect();

    let (items, scores, total) = sort_and_paginate(results.clone(), &context(2, 3));
    assert_eq!(total, 10);
    assert_eq!(scores.iter().map(|s| s.total).collect::<Vec<_>>(), vec![98, 97, 96]);
    assert_eq!(items[0].relative_path, "f2.rs");

    let (items, _, total) = sort_and_paginate(results.clone(), &context(10, 3));
    assert!(items.is_empty());
    assert_eq!(total, 10);

    let (items, _, _) = sort_and_paginate(results.clone(), &context(9, 3));
    assert_eq!(items.len(), 1);
    assert_eq!(items[0].relative_path, "f9.rs");

    let (items, _, total) = sort_and_paginate(Vec::new(), &context(0, 3));
    assert!(items.is_empty());
    assert_eq!(total, 0);
}

#[test]
fn frecency_ranking_orders_by_frecency() {
    let mut a = create_test_file("a.rs", 0, 10).0;
    a.access_frecency_score = 5;
    let mut b = create_test_file("b.rs", 0, 20).0;
    b.modification_frecency_score = 3;
    let c = create_test_file("c.rs", 0, 30).0;
    let files = vec![&a, &b, &c];
    let (items, scores, total) = score_filtered_by_frecency(&files, &context(0, 0));
    assert_eq!(total, 3);
    assert_eq!(items[0].relative_path, "b.rs");
    assert_eq!(scores[0].total, 12);
    assert_eq!(scores[0].frecency_boost, 12);
    assert_eq!(scores[0].match_type, "frecency");
    assert_eq!(items[1].relative_path, "a.rs");
    assert_eq!(scores[1].total, 5);
    assert_eq!(items[2].relative_path, "c.rs");
}

#[test]
fn current_file_penalty_is_whole_or_half() {
    let mut ctx = context(0, 0);
    ctx.current_file = Some("src/main.rs");
    let (mut f, _) = create_test_file("src/main.rs", 0, 0);
    assert_eq!(calculate_current_file_penalty(&f, 101, &ctx), -101);
    f.git_status = Some(1 << 8);
    assert_eq!(calculate_current_file_penalty(&f, 101, &ctx), -50);
    let (other, _) = create_test_file("src/lib.rs", 0, 0);
    assert_eq!(calculate_current_file_penalty(&other, 101, &ctx), 0);
    ctx.current_file = None;
    assert_eq!(calculate_current_file_penalty(&f, 101, &ctx), 0);
}

#[test]
fn special_entry_points() {
    assert!(is_special_entry_point_file("mod.rs"));
    assert!(is_special_entry_point_file("__init__.py"));
    assert!(is_special_entry_point_file("index.tsx"));
    assert!(!is_special_entry_point_file("main.rs.bak"));
    assert!(!is_special_entry_point_file("Index.ts"));
}

#[test]
fn saturating_helpers() {
    assert_eq!(sat_add(i32::MAX, 1), i32::MAX);
    assert_eq!(sat_add(i32::MIN, -1), i32::MIN);
    assert_eq!(sat_add(2, 3), 5);
    assert_eq!(sat_mul(i32::MAX, 2), i32::MAX);
    assert_eq!(sat_mul(i32::MIN, 2), i32::MIN);
    assert_eq!(sat_mul(-4, 5), -20);
}
