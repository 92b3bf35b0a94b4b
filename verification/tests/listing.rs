use fff_plus::listing::{format_directories_wire, format_git_status_wire, format_recent_files_wire};
use fff_plus::wire::{WireDirEntry, WireGitFile, WireSearchResult};

fn git(path: &str, status: &str) -> WireGitFile {
    WireGitFile { path: path.to_string(), status: status.to_string(), frecency_score: 0 }
}

#[test]
fn recent_files_get_frecency_and_git_words() {
    let items = vec![
        WireSearchResult { path: "src/a.rs".into(), score: 0, git_status: Some(256), frecency_score: 120 },
        WireSearchResult { path: "src/b.rs".into(), score: 0, git_status: None, frecency_score: 3 },
        WireSearchResult { path: "src/c.rs".into(), score: 0, git_status: Some(128), frecency_score: 60 },
    ];
    assert_eq!(
        format_recent_files_wire(&items),
        "src/a.rs - hot git:modified\nsrc/b.rs\nsrc/c.rs - warm git:untracked"
    );
    assert_eq!(format_recent_files_wire(&[]), "");
}

#[test]
fn directories_get_frecency_words() {
    let items = vec![
        WireDirEntry { path: "src/".into(), max_frecency: 10 },
        WireDirEntry { path: "docs/".into(), max_frecency: 0 },
    ];
    assert_eq!(format_directories_wire(&items), "src/ - frequent\ndocs/");
}

#[test]
fn git_status_groups_in_fixed_order_then_sorted_others() {
    let items = vec![
        git("new.rs", "untracked"),
        git("a.rs", "modified"),
        git("z.rs", "zzz_custom"),
        git("b.rs", "modified"),
        git("c.rs", "conflicted"),
        git("s.rs", "staged_new"),
    ];
    assert_eq!(
        format_git_status_wire(&items),
        "modified (2):\n  a.rs\n  b.rs\nstaged_new (1):\n  s.rs\nuntracked (1):\n  new.rs\nconflicted (1):\n  c.rs\nzzz_custom (1):\n  z.rs"
    );
    assert_eq!(format_git_status_wire(&[]), "");
}
