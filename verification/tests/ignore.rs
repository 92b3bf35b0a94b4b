use fff_plus::ignore::{is_non_code_directory, split_lines, GitIgnorePolicy};

#[test]
fn policy_document_orders_global_before_info() {
    let global = "/tmp/cfg/global-ignore".to_string();
    let info = "/tmp/cfg/info-exclude".to_string();

    let mut policy = GitIgnorePolicy::new();
    policy.add_source(global.clone(), Some("*.tmp".to_string()));
    policy.add_source(info.clone(), Some("!keep.tmp\n".to_string()));

    assert_eq!(policy.base_document, "*.tmp\n!keep.tmp\n");
    assert_eq!(policy.ignore_files, vec![global.clone(), info.clone()]);
    assert_eq!(policy.sources, vec![global, info]);
    assert_eq!(policy.patterns(), vec!["*.tmp".to_string(), "!keep.tmp".to_string()]);
}

#[test]
fn missing_policy_source_is_watched_but_not_loaded() {
    let missing = "/tmp/cfg/future-ignore".to_string();

    let mut policy = GitIgnorePolicy::new();
    policy.add_source(missing.clone(), None);

    assert!(policy.base_document.is_empty());
    assert!(policy.ignore_files.is_empty());
    assert_eq!(policy.sources, vec![missing]);
}

#[test]
fn split_lines_follows_str_lines() {
    for text in ["", "a", "a\n", "a\r\nb", "a\n\nb\r\n", "\r\n", "x\ry\n"] {
        let expected: Vec<String> = text.lines().map(|l| l.to_string()).collect();
        assert_eq!(split_lines(text), expected, "on {text:?}");
    }
}

#[test]
fn non_code_directories() {
    assert!(is_non_code_directory("/home/u/projects/app/node_modules/x"));
    assert!(!is_non_code_directory("/home/u/projects/app/src"));
    assert!(is_non_code_directory("/home/u/proj/target"));
    assert!(is_non_code_directory("target/x.rs"));
    assert!(is_non_code_directory("/p/target/tmp"));
    assert!(!is_non_code_directory("/p/targets/x"));
    assert!(!is_non_code_directory("/p/my_target"));
}
