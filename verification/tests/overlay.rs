use fff_plus::bigram::extract_bigrams;
use fff_plus::overlay::BigramOverlay;

#[test]
fn modified_files_are_found_by_their_bigrams() {
    let mut o = BigramOverlay::new(100);
    o.modify_file(3, b"fn main() {}");
    o.modify_file(7, b"struct Foo;");
    let q = extract_bigrams(b"main");
    assert_eq!(o.query_modified(&q), vec![3]);
    let mut all = o.query_modified(&[]);
    all.sort();
    assert_eq!(all, vec![3, 7]);
    o.modify_file(3, b"nothing here");
    assert!(o.query_modified(&q).is_empty());
}

#[test]
fn deleted_files_are_tombstoned_and_forgotten() {
    let mut o = BigramOverlay::new(70);
    o.modify_file(65, b"abc");
    o.delete_file(65);
    assert!(o.is_tombstoned(65));
    assert!(!o.is_tombstoned(64));
    assert!(o.query_modified(&[]).is_empty());
    assert_eq!(o.tombstones().len(), 2);
    o.delete_file(500);
    assert!(!o.is_tombstoned(500));
    assert_eq!(o.overlay_size(), 1);
}

#[test]
fn added_files_are_queried_in_order() {
    let mut o = BigramOverlay::new(0);
    o.add_file(b"hello world");
    o.add_file(b"goodbye");
    o.add_file(b"world peace");
    assert_eq!(o.query_added(&extract_bigrams(b"world")), vec![0, 2]);
    o.remove_added(0);
    assert_eq!(o.query_added(&extract_bigrams(b"world")), vec![1]);
    o.update_added(0, extract_bigrams(b"world"));
    assert_eq!(o.query_added(&extract_bigrams(b"world")), vec![0, 1]);
    o.remove_added(9);
    assert_eq!(o.overlay_size(), 2);
    assert_eq!(o.base_file_count(), 0);
}
