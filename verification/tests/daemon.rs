use fff_plus::config::WorkerConfig;
use fff_plus::cursor::{CursorStore, MatchKey, MultiGrepCursor, MAX_CURSORS};
use fff_plus::engine::{health_status, next_recovery_step, set_log_level, HealthStatus, RecoveryStep};
use fff_plus::hashing::base_path_slug;
use fff_plus::master::{restart_decision, HandshakeOutcome, MasterCore, RestartDecision};
use fff_plus::routing::RoutingTable;
use fff_plus::wire::{decode_frame, encode_frame, FrameError};

fn master_with_workers(n: u32) -> MasterCore {
    let (mut core, to_spawn) = MasterCore::recover(WorkerConfig::default(), RoutingTable::default(), &[]);
    assert_eq!(to_spawn, 1);
    assert_eq!(core.next_index, 0);
    for _ in 0..n {
        let i = core.alloc_index();
        core.register_worker(i, format!("w{i}.sock"), 1000 + i);
    }
    core
}

#[test]
fn handshake_assigns_then_routes() {
    let mut core = master_with_workers(1);
    match core.handshake(b"/p/a") {
        HandshakeOutcome::Assigned { index, scale_out } => {
            assert_eq!(index, 0);
            assert!(!scale_out);
        }
        _ => panic!("expected an assignment"),
    }
    assert!(matches!(core.handshake(b"/p/a"), HandshakeOutcome::Routed(0)));
    assert_eq!(core.routing.entries_for_worker(0), 1);
}

#[test]
fn handshake_without_workers_finds_none() {
    let mut core = master_with_workers(0);
    assert!(matches!(core.handshake(b"/p/a"), HandshakeOutcome::NoWorkers));
}

#[test]
fn scale_out_is_requested_at_the_root_limit_and_routes_stay() {
    let mut core = master_with_workers(1);
    let mut last = None;
    for i in 0..8 {
        last = Some(core.handshake(format!("/p/{i}").as_bytes()));
    }
    assert!(matches!(last, Some(HandshakeOutcome::Assigned { index: 0, scale_out: true })));
    let i = core.alloc_index();
    core.register_worker(i, "w2.sock".to_string(), 2000);
    for k in 0..8 {
        assert!(matches!(core.handshake(format!("/p/{k}").as_bytes()), HandshakeOutcome::Routed(0)));
    }
}

#[test]
fn evicted_roots_make_workers_idle_and_sweepable() {
    let mut core = master_with_workers(1);
    core.handshake(b"/p/a");
    let slug = base_path_slug(b"/p/a");
    core.evict_root(&slug, 1_000);
    assert_eq!(core.routing.entries_for_worker(0), 0);
    assert!(core.idle_sweep(1_500, 1_000).is_empty());
    assert_eq!(core.idle_sweep(2_000, 1_000), vec![0]);
    core.retire_idle_worker(0);
    assert_eq!(core.routing.worker_count(), 0);
    assert!(matches!(core.handshake(b"/p/a"), HandshakeOutcome::NoWorkers));
}

#[test]
fn recovery_keeps_only_live_workers() {
    let mut core = master_with_workers(2);
    core.handshake(b"/p/a");
    let routing = RoutingTable { ring_state: core.routing.ring_state.clone(), workers: std::mem::take(&mut core.routing.workers) };
    let (mut back, to_spawn) = MasterCore::recover(WorkerConfig::default(), routing, &[1]);
    assert_eq!(to_spawn, 0);
    assert_eq!(back.routing.worker_count(), 1);
    assert_eq!(back.alloc_index(), 2);
    let infos = back.worker_infos();
    assert_eq!(infos.len(), 1);
    assert_eq!(infos[0].index, 1);
    assert_eq!(infos[0].pid, 1001);
}

#[test]
fn restarts_back_off_then_give_up() {
    let d = restart_decision(None, 10);
    assert!(matches!(d, RestartDecision::Respawn { backoff_ms: 100, count: 1, window_start: 10 }));
    let d = restart_decision(Some((1, 10)), 20);
    assert!(matches!(d, RestartDecision::Respawn { backoff_ms: 200, count: 2, window_start: 10 }));
    let d = restart_decision(Some((2, 10)), 30);
    assert!(matches!(d, RestartDecision::Respawn { backoff_ms: 400, count: 3, window_start: 10 }));
    assert!(matches!(restart_decision(Some((3, 10)), 40), RestartDecision::GiveUp));
    let d = restart_decision(Some((3, 10)), 60_011);
    assert!(matches!(d, RestartDecision::Respawn { backoff_ms: 100, count: 1, window_start: 60_011 }));
}

#[test]
fn frames_round_trip() {
    let payload = b"hello frame";
    let framed = encode_frame(payload);
    assert_eq!(&framed[..4], &[11, 0, 0, 0]);
    let (p, n) = decode_frame(&framed).unwrap();
    assert_eq!(p, payload);
    assert_eq!(n, framed.len());
    let mut two = framed.clone();
    two.extend_from_slice(&encode_frame(b""));
    let (p, n) = decode_frame(&two).unwrap();
    assert_eq!(p, payload);
    assert!(decode_frame(&two[n..]) == Ok((&b""[..], 4)));
}

#[test]
fn truncated_frames_are_errors() {
    assert!(decode_frame(&[1, 0]) == Err(FrameError::TruncatedHeader));
    let framed = encode_frame(b"abcdef");
    assert!(decode_frame(&framed[..7]) == Err(FrameError::TruncatedPayload { expected: 6, available: 3 }));
}

#[test]
fn cursors_are_found_under_their_ids_and_evicted_oldest_first() {
    let mut store = CursorStore::new();
    let first = store.store(7);
    assert_eq!(first, "1");
    assert_eq!(store.get(&first), Some(7));
    assert_eq!(store.get("nope"), None);
    for i in 0..MAX_CURSORS {
        store.store(100 + i);
    }
    assert_eq!(store.get(&first), None);
    let id = store.store_multi_grep(MultiGrepCursor::new(vec!["a".into()], String::new()));
    assert!(store.get_multi_grep(&id).is_some());
    assert_eq!(store.get(&id), None);
}

#[test]
fn multi_grep_cursor_reports_each_match_once() {
    let mut c = MultiGrepCursor::new(vec!["a".into(), "b".into()], String::new());
    assert!(c.has_more());
    assert!(c.remember_match(MatchKey::new("x.rs".into(), 3, 10)));
    assert!(!c.remember_match(MatchKey::new("x.rs".into(), 3, 10)));
    assert!(c.remember_file("x.rs".into()));
    assert!(!c.remember_file("x.rs".into()));
}

#[test]
fn health_status_cases() {
    assert!(matches!(health_status("/s".into(), false, false, None), HealthStatus::NotStarted(p) if p == "/s"));
    assert!(matches!(health_status("/s".into(), true, false, None), HealthStatus::Healthy));
    assert!(matches!(health_status("/s".into(), false, true, Some("refused".into())), HealthStatus::ConnRefused(m) if m == "refused"));
    assert!(set_log_level("debug").is_err());
}

#[test]
fn recovery_backs_off_then_tries_the_root_socket() {
    assert!(next_recovery_step(0, false) == RecoveryStep::Handshake { delay_ms: 0 });
    assert!(next_recovery_step(1, false) == RecoveryStep::Handshake { delay_ms: 100 });
    assert!(next_recovery_step(2, false) == RecoveryStep::Handshake { delay_ms: 200 });
    assert!(next_recovery_step(3, false) == RecoveryStep::ConnectLegacy);
    assert!(next_recovery_step(3, true) == RecoveryStep::GiveUp);
}

#[test]
fn cursor_store_drops_the_oldest_beyond_the_limit() {
    let mut store = CursorStore::new();
    let ids: Vec<String> = (0..MAX_CURSORS + 1).map(|i| store.store(i * 10)).collect();
    assert_eq!(store.get(&ids[0]), None);
    assert_eq!(store.get(&ids[1]), Some(10));
    assert_eq!(store.get(&ids[MAX_CURSORS]), Some(MAX_CURSORS * 10));
}
