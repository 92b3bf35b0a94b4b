use fff_plus::ring::{HashRing, SerializableRing};

#[test]
fn assign_empty_ring_returns_none() {
    let ring = HashRing::new();
    assert!(ring.assign(b"/any/path").is_none());
}

#[test]
fn assign_single_worker_always_returns_it() {
    let mut ring = HashRing::new();
    ring.add_worker(0, 150);
    for path in ["/project/a", "/project/b", "/tmp/x"] {
        assert_eq!(ring.assign(path.as_bytes()), Some(0));
    }
}

#[test]
fn both_workers_appear_across_sample() {
    let mut ring = HashRing::new();
    ring.add_worker(0, 150);
    ring.add_worker(1, 150);

    let paths: Vec<String> = (0..100).map(|i| format!("/project/root-{i}")).collect();
    let mut saw = [false; 2];
    for p in &paths {
        match ring.assign(p.as_bytes()) {
            Some(0) => saw[0] = true,
            Some(1) => saw[1] = true,
            _ => {}
        }
    }
    assert!(saw[0], "worker 0 never assigned");
    assert!(saw[1], "worker 1 never assigned");
}

#[test]
fn remove_worker_clears_its_nodes() {
    let mut ring = HashRing::new();
    ring.add_worker(0, 150);
    ring.add_worker(1, 150);
    let before = ring.len();
    ring.remove_worker(0);
    assert_eq!(ring.len(), before - 150);
    for _ in 0..20 {
        assert_eq!(ring.assign(b"/any"), Some(1));
    }
}

#[test]
fn assign_is_stable_after_unrelated_worker_added() {
    let mut ring = HashRing::new();
    ring.add_worker(0, 150);
    ring.add_worker(1, 150);

    let target = (0..200u32)
        .map(|i| format!("/project/stable-{i}"))
        .find(|p| ring.assign(p.as_bytes()) == Some(0))
        .expect("no path mapped to worker 0 in 200 attempts");

    ring.add_worker(2, 150);
    let result = ring.assign(target.as_bytes());
    assert!(result.is_some(), "assign returned None after adding worker");
}

#[test]
fn serialize_deserialize_preserves_assignment() {
    let mut ring = HashRing::new();
    ring.add_worker(0, 150);
    ring.add_worker(1, 150);

    let paths: Vec<String> = (0..20).map(|i| format!("/project/{i}")).collect();
    let original: Vec<Option<u32>> = paths.iter().map(|p| ring.assign(p.as_bytes())).collect();

    let snap = ring.to_serializable();
    let restored = HashRing::from_serializable(snap);
    let after: Vec<Option<u32>> = paths.iter().map(|p| restored.assign(p.as_bytes())).collect();

    assert_eq!(original, after);
}

#[test]
fn workers_returns_unique_indices() {
    let mut ring = HashRing::new();
    ring.add_worker(0, 150);
    ring.add_worker(1, 150);
    let mut ws = ring.workers();
    ws.sort();
    assert_eq!(ws, vec![0, 1]);
}

#[test]
fn adding_a_worker_only_moves_points_to_it() {
    let mut ring = HashRing::new();
    ring.add_worker(0, 150);
    ring.add_worker(1, 150);
    let points: Vec<u64> = (0..500u64).map(|i| i.wrapping_mul(0x9E37_79B9_7F4A_7C15)).collect();
    let before: Vec<Option<u32>> = points.iter().map(|p| ring.assign_point(*p)).collect();
    ring.add_worker(2, 150);
    for (p, b) in points.iter().zip(before.iter()) {
        let a = ring.assign_point(*p);
        assert!(a == *b || a == Some(2));
    }
}

#[test]
fn empty_snapshot_restores_empty_ring() {
    let ring = HashRing::from_serializable(SerializableRing { nodes: vec![] });
    assert!(ring.is_empty());
    assert_eq!(ring.assign_point(42), None);
}

#[test]
fn point_assignment_wraps_to_first_node() {
    let ring = HashRing::from_serializable(SerializableRing { nodes: vec![(100, 0), (500, 1)] });
    assert_eq!(ring.assign_point(50), Some(0));
    assert_eq!(ring.assign_point(100), Some(0));
    assert_eq!(ring.assign_point(101), Some(1));
    assert_eq!(ring.assign_point(500), Some(1));
    assert_eq!(ring.assign_point(501), Some(0));
}

#[test]
fn default_virtual_nodes_add_150_points() {
    let mut ring = HashRing::new();
    ring.add_worker_default(7);
    assert_eq!(ring.len(), 150);
    assert_eq!(ring.workers(), vec![7]);
}

#[test]
fn adding_workers_adds_their_virtual_nodes() {
    let mut ring = HashRing::new();
    ring.add_worker(0, 150);
    assert_eq!(ring.len(), 150);
    ring.add_worker(1, 150);
    assert_eq!(ring.len(), 300);
    let workers = ring.workers();
    assert!(workers.contains(&0) && workers.contains(&1));
}
