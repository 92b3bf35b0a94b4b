use fff_plus::git::{
    format_git_status, is_modified_status, recency_score, recent_commit_scores, CommitChange,
    GitRecencyConfig, STATUS_IGNORED, STATUS_INDEX_NEW, STATUS_WT_MODIFIED, STATUS_WT_NEW,
};

#[test]
fn test_git_recency_config_default() {
    let config = GitRecencyConfig::default();
    assert_eq!(config.max_commits, 10);
    assert_eq!(config.max_files_per_commit, 50);
    assert_eq!(config.max_bonus, 15);
}

#[test]
fn test_git_recency_disabled_with_zero_commits() {
    let config = GitRecencyConfig {
        max_commits: 0,
        ..Default::default()
    };
    assert_eq!(config.max_commits, 0);
    assert!(recent_commit_scores(&config, &[]).is_empty());
}

#[test]
fn test_git_recency_score_formula() {
    let max_bonus: i32 = 15;
    let max_commits: usize = 10;

    let score_0 = max_bonus * (max_commits - 0) as i32 / max_commits as i32;
    assert_eq!(score_0, 15);

    let score_1 = max_bonus * (max_commits - 1) as i32 / max_commits as i32;
    assert_eq!(score_1, 13);

    let score_5 = max_bonus * (max_commits - 5) as i32 / max_commits as i32;
    assert_eq!(score_5, 7);

    let score_9 = max_bonus * (max_commits - 9) as i32 / max_commits as i32;
    assert_eq!(score_9, 1);

    let config = GitRecencyConfig::default();
    assert_eq!(recency_score(&config, 0), 15);
    assert_eq!(recency_score(&config, 1), 13);
    assert_eq!(recency_score(&config, 5), 7);
    assert_eq!(recency_score(&config, 9), 1);
}

#[test]
fn status_names_follow_flag_priority() {
    assert_eq!(format_git_status(None), "clean");
    assert_eq!(format_git_status(Some(STATUS_WT_NEW)), "untracked");
    assert_eq!(format_git_status(Some(STATUS_WT_MODIFIED | STATUS_INDEX_NEW)), "modified");
    assert_eq!(format_git_status(Some(STATUS_INDEX_NEW)), "staged_new");
    assert_eq!(format_git_status(Some(STATUS_IGNORED)), "ignored");
    assert_eq!(format_git_status(Some(0)), "clean");
}

#[test]
fn modified_status_covers_new_and_changed_files() {
    assert!(is_modified_status(STATUS_WT_MODIFIED));
    assert!(is_modified_status(STATUS_INDEX_NEW));
    assert!(!is_modified_status(STATUS_IGNORED));
    assert!(!is_modified_status(0));
}
