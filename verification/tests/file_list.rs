use fff_plus::file_list::{build_file_records, FileListView, FileRecord};
use fff_plus::types::FileItem;

#[test]
fn test_file_record_size() {
    assert_eq!(FileRecord::SIZE, 24);
}

#[test]
fn test_file_record_flags() {
    let r = FileRecord::new(0, 10, 5, false, 100, 200);
    assert_eq!(r.name_len(), 5);
    assert!(!r.is_binary());

    let r = FileRecord::new(0, 10, 5, true, 100, 200);
    assert_eq!(r.name_len(), 5);
    assert!(r.is_binary());
}

#[test]
fn test_round_trip() {
    let files = vec![
        FileItem::new_raw(
            "/base/src/main.rs".to_string(),
            "src/main.rs".to_string(),
            "main.rs".to_string(),
            1024,
            1000000,
            None,
            false,
        ),
        FileItem::new_raw(
            "/base/tests/test.rs".to_string(),
            "tests/test.rs".to_string(),
            "test.rs".to_string(),
            512,
            2000000,
            None,
            false,
        ),
        FileItem::new_raw(
            "/base/image.png".to_string(),
            "image.png".to_string(),
            "image.png".to_string(),
            8192,
            3000000,
            None,
            true,
        ),
    ];

    let (records, strings) = build_file_records(&files);
    let view = FileListView::new(&records, &strings);

    assert_eq!(view.len(), 3);

    assert_eq!(view.relative_path(0), b"src/main.rs");
    assert_eq!(view.file_name(0), b"main.rs");
    assert_eq!(view.record(0).size, 1024);
    assert_eq!(view.record(0).modified, 1000000);
    assert!(!view.record(0).is_binary());

    assert_eq!(view.relative_path(1), b"tests/test.rs");
    assert_eq!(view.file_name(1), b"test.rs");

    assert_eq!(view.relative_path(2), b"image.png");
    assert!(view.record(2).is_binary());

    let items = view.to_file_items("/base");
    assert_eq!(items.len(), 3);
    assert_eq!(items[0].relative_path, "src/main.rs");
    assert_eq!(items[0].file_name, "main.rs");
    assert_eq!(items[0].size, 1024);
    assert!(items[0].path.ends_with("src/main.rs"));
    assert!(!items[0].is_binary);
    assert!(items[2].is_binary);
}

#[test]
fn empty_view_has_no_records() {
    let (records, strings) = build_file_records(&[]);
    let view = FileListView::new(&records, &strings);
    assert!(view.is_empty());
    assert_eq!(view.len(), 0);
    assert!(view.to_file_items("/base").is_empty());
}

#[test]
fn to_file_items_joins_base_path() {
    let files = vec![FileItem::new_raw(
        "/repo/a/b.txt".to_string(),
        "a/b.txt".to_string(),
        "b.txt".to_string(),
        7,
        9,
        None,
        false,
    )];
    let (records, strings) = build_file_records(&files);
    let view = FileListView::new(&records, &strings);
    let items = view.to_file_items("/repo/");
    assert_eq!(items[0].path, "/repo/a/b.txt");
    let items = view.to_file_items("/repo");
    assert_eq!(items[0].path, "/repo/a/b.txt");
}
