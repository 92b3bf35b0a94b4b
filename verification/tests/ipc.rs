use std::collections::HashMap;

use fff_plus::config::WorkerConfig;
use fff_plus::lockfile::{format_contents, is_stale, parse_lockfile};
use fff_plus::paths::{artefact_slug, lockfile_path, log_path, orphan_artefacts, socket_path, xdg_cache_dir, xdg_data_dir};
use fff_plus::ring::SerializableRing;
use fff_plus::routing::{RoutingTable, WorkerEntry};

const CACHE: &str = "/home/u/.cache";

fn components(p: &str) -> Vec<String> {
    p.split('/').filter(|c| !c.is_empty()).map(|c| c.to_string()).collect()
}

fn extension(p: &str) -> Option<String> {
    let name = p.rsplit('/').next()?;
    let dot = name.rfind('.')?;
    if dot == 0 {
        return None;
    }
    Some(name[dot + 1..].to_string())
}

#[test]
fn socket_path_under_sockets_dir() {
    let p = socket_path(CACHE, b"/some/project");
    let components = components(&p);
    assert!(
        components.windows(2).any(|w| w[0] == "fff" && w[1] == "sockets"),
        "expected .../fff/sockets/... in {p:?}"
    );
}

#[test]
fn socket_path_ends_with_sock() {
    let p = socket_path(CACHE, b"/some/project");
    assert_eq!(extension(&p).as_deref(), Some("sock"));
}

#[test]
fn different_base_paths_give_distinct_sockets() {
    let a = socket_path(CACHE, b"/project/a");
    let b = socket_path(CACHE, b"/project/b");
    assert_ne!(a, b);
}

#[test]
fn same_base_path_gives_stable_socket() {
    let a = socket_path(CACHE, b"/project/a");
    let b = socket_path(CACHE, b"/project/a");
    assert_eq!(a, b);
}

#[test]
fn lockfile_under_locks_dir_with_lock_ext() {
    let p = lockfile_path(CACHE, b"/some/project");
    let components = components(&p);
    assert!(
        components.windows(2).any(|w| w[0] == "fff" && w[1] == "locks"),
        "expected .../fff/locks/... in {p:?}"
    );
    assert_eq!(extension(&p).as_deref(), Some("lock"));
}

#[test]
fn artefact_paths_share_the_slug() {
    let s = socket_path(CACHE, b"/some/project");
    let l = lockfile_path(CACHE, b"/some/project");
    let g = log_path(CACHE, b"/some/project");
    let slug = s.strip_prefix("/home/u/.cache/fff/sockets/").unwrap().strip_suffix(".sock").unwrap();
    assert_eq!(l, format!("/home/u/.cache/fff/locks/{slug}.lock"));
    assert_eq!(g, format!("/home/u/.cache/fff/logs/{slug}.log"));
    assert_eq!(slug.len(), 16);
    assert_eq!(slug, &blake3::hash(b"/some/project").to_hex()[..16]);
    assert!(slug.bytes().all(|b| b.is_ascii_hexdigit() && !b.is_ascii_uppercase()));
}

#[test]
fn xdg_cache_dir_prefers_env_then_home() {
    assert_eq!(xdg_cache_dir(Some("/x/cache"), Some("/home/u"), None), "/x/cache");
    assert_eq!(xdg_cache_dir(Some(""), Some("/home/u"), None), "/home/u/.cache");
    assert_eq!(xdg_cache_dir(None, None, Some("/plat")), "/plat");
    assert_eq!(xdg_cache_dir(None, None, None), "/tmp");
    assert_eq!(xdg_data_dir(None, Some("/home/u"), None), "/home/u/.local/share");
}

#[test]
fn worker_config_defaults() {
    let c = WorkerConfig::default();
    assert_eq!(c.n_min, 1);
    assert_eq!(c.n_max, 4);
    assert_eq!(c.roots_per_worker_max, 8);
    assert_eq!(c.idle_ttl_secs, 300);
}

fn make_entry(index: u32, slugs: &[&str]) -> WorkerEntry {
    WorkerEntry {
        index,
        socket_path: format!("worker-{index}.sock"),
        pid: 1000 + index,
        root_slugs: slugs.iter().map(|s| s.to_string()).collect(),
    }
}

#[test]
fn entries_for_worker_counts_slugs() {
    let mut rt = RoutingTable::default();
    rt.workers.insert(0, make_entry(0, &["a", "b", "c"]));
    rt.workers.insert(1, make_entry(1, &[]));

    assert_eq!(rt.entries_for_worker(0), 3);
    assert_eq!(rt.entries_for_worker(1), 0);
    assert_eq!(rt.entries_for_worker(99), 0);
}

#[test]
fn routing_table_counts_workers() {
    let mut workers = HashMap::new();
    workers.insert(0, make_entry(0, &["abc", "def"]));
    workers.insert(1, make_entry(1, &[]));
    let rt = RoutingTable { ring_state: SerializableRing { nodes: vec![(100, 0), (500, 1)] }, workers };
    assert_eq!(rt.worker_count(), 2);
    assert_eq!(rt.ring_state.nodes, vec![(100, 0), (500, 1)]);
}

#[test]
fn missing_file_is_stale() {
    assert!(is_stale(&None, true));
}

#[test]
fn reads_pid_and_base_path() {
    let lock = parse_lockfile("12345\n/some/project\n").expect("parses");
    assert_eq!(lock.pid, 12345);
    assert_eq!(lock.base_path.as_deref(), Some("/some/project"));
}

#[test]
fn reads_legacy_single_line_lockfile() {
    let lock = parse_lockfile("12345").expect("parses");
    assert_eq!(lock.pid, 12345);
    assert_eq!(lock.base_path, None);
}

#[test]
fn unparseable_file_is_stale() {
    let lock = parse_lockfile("not a pid");
    assert!(lock.is_none());
    assert!(is_stale(&lock, true));
}

#[test]
fn dead_pid_is_stale() {
    let lock = parse_lockfile("999999999\n/tmp\n");
    assert!(lock.is_some());
    assert!(is_stale(&lock, false));
    assert!(!is_stale(&lock, true));
}

#[test]
fn lockfile_contents_round_trip() {
    let text = format_contents(4242, "/srv/repo");
    assert_eq!(text, "4242\n/srv/repo\n");
    let lock = parse_lockfile(&text).unwrap();
    assert_eq!(lock.pid, 4242);
    assert_eq!(lock.base_path.as_deref(), Some("/srv/repo"));
}

#[test]
fn lockfile_pid_line_is_trimmed() {
    let lock = parse_lockfile("  77 \r\n  /a b  \n").unwrap();
    assert_eq!(lock.pid, 77);
    assert_eq!(lock.base_path.as_deref(), Some("/a b"));
    assert!(parse_lockfile("").is_none());
    assert!(parse_lockfile("4294967296").is_none());
}

#[test]
fn artefact_names_read_back_as_their_slug() {
    let p = socket_path(CACHE, b"/some/project");
    let name = p.rsplit('/').next().unwrap();
    let slug = artefact_slug(name, "sock").unwrap();
    assert_eq!(slug.len(), 16);
    assert_eq!(format!("{slug}.sock"), name);
    assert_eq!(artefact_slug("a.b.log", "log").as_deref(), Some("a.b"));
    assert_eq!(artefact_slug(".sock", "sock"), None);
    assert_eq!(artefact_slug("x.sock", "log"), None);
    assert_eq!(artefact_slug("nodot", "sock"), None);
}

#[test]
fn orphans_are_artefacts_without_a_live_lock() {
    let names: Vec<String> = ["aa.sock", "bb.sock", "cc.log", "dd.sock", ".sock"].iter().map(|s| s.to_string()).collect();
    let live = vec!["bb".to_string()];
    assert_eq!(orphan_artefacts(&names, "sock", &live), vec!["aa.sock".to_string(), "dd.sock".to_string()]);
    assert_eq!(orphan_artefacts(&names, "log", &live), vec!["cc.log".to_string()]);
    assert!(orphan_artefacts(&Vec::new(), "sock", &live).is_empty());
}
