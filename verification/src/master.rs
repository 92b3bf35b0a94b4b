//! Decisions of the master process that routes project roots to worker
//! processes: rebuilding state after a restart, registering and removing
//! workers, routing a root, scaling out, evicting roots, retiring idle
//! workers, and crash-restart backoff. Time is a millisecond clock reading
//! handed in by the caller.

use vstd::prelude::*;
use std::collections::HashMap;
use crate::config::WorkerConfig;
use crate::routing::{RoutingTable, WorkerEntry, worker_keys};
use crate::ring::{HashRing, sorted_strict, worker_nodes, without_worker, lemma_without_worker_sorted, DEFAULT_VIRTUAL_NODES, owner_of};
use crate::hashing::{base_path_slug, point_of};
use crate::grep::views;
use crate::text::str_eq;
use crate::output::contains_str;
use crate::paths::slug_chars;

verus! {

broadcast use vstd::std_specs::hash::group_hash_axioms;

proof fn lemma_push_contains<T>(s: Seq<T>, x: T, y: T)
    ensures
        s.push(x).contains(y) == (s.contains(y) || x == y),
{
    if s.push(x).contains(y) {
        let j = choose|j: int| 0 <= j < s.push(x).len() && s.push(x)[j] == y;
        if j < s.len() {
            assert(s[j] == y);
        }
    }
    if s.contains(y) {
        let j = choose|j: int| 0 <= j < s.len() && s[j] == y;
        assert(s.push(x)[j] == y);
    }
    if x == y {
        assert(s.push(x)[s.len() as int] == y);
    }
}

proof fn lemma_ring_grow(before: Seq<(u64, u32)>, after: Seq<(u64, u32)>, ws: Set<u32>, k: u32)
    requires
        ring_of(before, ws),
        sorted_strict(after),
        forall|x: (u64, u32)| #[trigger] after.contains(x) ==> (before + worker_nodes(k, DEFAULT_VIRTUAL_NODES as nat)).contains(x),
        forall|y: (u64, u32)| #[trigger] (before + worker_nodes(k, DEFAULT_VIRTUAL_NODES as nat)).contains(y)
            ==> exists|x: (u64, u32)| #[trigger] after.contains(x) && x.0 == y.0,
    ensures
        ring_of(after, ws.insert(k)),
{
    let all = before + worker_nodes(k, DEFAULT_VIRTUAL_NODES as nat);
    let wsk = ws.insert(k);
    assert forall|x: (u64, u32)| #[trigger] after.contains(x) implies wsk.contains(x.1) by {
        assert(all.contains(x));
        let j = choose|j: int| 0 <= j < all.len() && all[j] == x;
        if j < before.len() {
            assert(before[j] == x);
            assert(before.contains(x));
        } else {
            assert(worker_nodes(k, DEFAULT_VIRTUAL_NODES as nat)[j - before.len()] == x);
        }
    }
    assert forall|w: u32, t: int| wsk.contains(w) && 0 <= t < DEFAULT_VIRTUAL_NODES implies
        on_ring(after, (#[trigger] worker_nodes(w, DEFAULT_VIRTUAL_NODES as nat)[t]).0) by {
        let y = worker_nodes(w, DEFAULT_VIRTUAL_NODES as nat)[t];
        if w == k {
            assert(all[before.len() + t] == y);
            assert(all.contains(y));
            let x1 = choose|x: (u64, u32)| #[trigger] after.contains(x) && x.0 == y.0;
            assert(after.contains(x1) && x1.0 == y.0);
        } else {
            assert(ws.contains(w));
            assert(on_ring(before, y.0));
            let x0 = choose|x: (u64, u32)| #[trigger] before.contains(x) && x.0 == y.0;
            let j = choose|j: int| 0 <= j < before.len() && before[j] == x0;
            assert(all[j] == x0);
            assert(all.contains(x0));
            let x1 = choose|x: (u64, u32)| #[trigger] after.contains(x) && x.0 == x0.0;
            assert(after.contains(x1) && x1.0 == y.0);
        }
    }
}

/// What the master keeps about its workers.
pub struct MasterCore {
    pub config: WorkerConfig,
    pub routing: RoutingTable,
    pub ring: HashRing,
    /// Index the next spawned worker gets.
    pub next_index: u32,
    /// Pids of workers found running at startup, by index.
    pub adopted_pids: HashMap<u32, u32>,
    /// When each worker was last seen without roots, by index.
    pub idle_since: HashMap<u32, u64>,
}

/// `a - b`, or 0 below zero.
pub open spec fn sat_sub_u32(a: u32, b: u32) -> u32 {
    if a > b { (a - b) as u32 } else { 0 }
}

/// Some node of the ring sits at point `p`.
pub open spec fn on_ring(nodes: Seq<(u64, u32)>, p: u64) -> bool {
    exists|x: (u64, u32)| #[trigger] nodes.contains(x) && x.0 == p
}

/// Every node of the ring belongs to a worker in `ws`, and every point of
/// every worker in `ws` is on the ring.
pub open spec fn ring_of(nodes: Seq<(u64, u32)>, ws: Set<u32>) -> bool {
    &&& sorted_strict(nodes)
    &&& forall|x: (u64, u32)| #[trigger] nodes.contains(x) ==> ws.contains(x.1)
    &&& forall|k: u32, i: int| ws.contains(k) && 0 <= i < DEFAULT_VIRTUAL_NODES ==>
        on_ring(nodes, (#[trigger] worker_nodes(k, DEFAULT_VIRTUAL_NODES as nat)[i]).0)
}

/// A registered worker entry with no roots.
pub open spec fn fresh_entry(e: WorkerEntry, index: u32, socket_path: Seq<char>, pid: u32) -> bool {
    e.index == index && e.socket_path@ == socket_path && e.pid == pid && e.root_slugs@.len() == 0
}

impl MasterCore {
    /// The ring stays strictly sorted.
    pub open spec fn wf(&self) -> bool {
        sorted_strict(self.ring.spec_nodes())
    }

    /// State after a master restart: workers of the saved routing table
    /// that are still running (`alive`) are adopted with their pids and put
    /// on a fresh ring, the others dropped; indices continue after the
    /// largest one seen, or start at 0 when the table has no workers. Also returns how many workers to spawn to reach
    /// the configured minimum.
    pub fn recover(config: WorkerConfig, routing: RoutingTable, alive: &[u32]) -> (r: (MasterCore, u32))
        requires
            forall|k: u32| routing.workers@.contains_key(k) ==> k < u32::MAX,
        ensures
            r.0.wf(),
            r.0.config == config,
            r.0.routing.ring_state == routing.ring_state,
            r.0.routing.workers@ == routing.workers@.restrict(alive@.to_set()),
            r.0.adopted_pids@.dom() == r.0.routing.workers@.dom(),
            forall|k: u32| #[trigger] r.0.adopted_pids@.contains_key(k) ==> r.0.adopted_pids@[k] == r.0.routing.workers@[k].pid,
            ring_of(r.0.ring.spec_nodes(), r.0.routing.workers@.dom()),
            forall|k: u32| routing.workers@.contains_key(k) ==> k < r.0.next_index,
            routing.workers@.dom().is_empty() ==> r.0.next_index == 0,
            !routing.workers@.dom().is_empty() ==> routing.workers@.contains_key((r.0.next_index - 1) as u32),
            r.0.idle_since@ == Map::<u32, u64>::empty(),
            r.1 == sat_sub_u32(config.n_min, r.0.routing.workers@.len() as u32),
    {
        let mut routing = routing;
        let ghost old_workers = routing.workers@;
        let ghost old_ring_state = routing.ring_state;
        let keys = worker_keys(&routing.workers);
        let mut max_seen: u32 = 0;
        let mut workers: HashMap<u32, WorkerEntry> = HashMap::new();
        let mut ring = HashRing::new();
        let mut adopted: HashMap<u32, u32> = HashMap::new();
        let ghost alive_set = alive@.to_set();
        let mut i: usize = 0;
        while i < keys.len()
            invariant
                i <= keys@.len(),
                keys@.to_set() == old_workers.dom(),
                keys@.no_duplicates(),
                forall|k: u32| old_workers.contains_key(k) ==> k < u32::MAX,
                forall|t: int| 0 <= t < i ==> keys@[t] <= max_seen,
                i > 0 ==> exists|t: int| 0 <= t < i && keys@[t] == max_seen,
                i == 0 ==> max_seen == 0,
                forall|k: u32| #[trigger] routing.workers@.contains_key(k) <==> (old_workers.contains_key(k) && !keys@.take(i as int).contains(k)),
                forall|k: u32| #[trigger] routing.workers@.contains_key(k) ==> routing.workers@[k] == old_workers[k],
                workers@ == old_workers.restrict(keys@.take(i as int).to_set().intersect(alive_set)),
                adopted@.dom() == workers@.dom(),
                forall|k: u32| #[trigger] adopted@.contains_key(k) ==> adopted@[k] == workers@[k].pid,
                ring_of(ring.spec_nodes(), workers@.dom()),
                routing.ring_state == old_ring_state,
                alive_set == alive@.to_set(),
            decreases keys@.len() - i,
        {
            let k = keys[i];
            proof {
                assert(keys@.to_set().contains(k));
                assert(!keys@.take(i as int).contains(k)) by {
                    if keys@.take(i as int).contains(k) {
                        let t = choose|t: int| 0 <= t < i && keys@.take(i as int)[t] == k;
                        assert(keys@[t] == keys@[i as int]);
                    }
                }
                assert(keys@.take(i + 1) =~= keys@.take(i as int).push(k));
                assert forall|y: u32| #[trigger] keys@.take(i + 1).contains(y) == (keys@.take(i as int).contains(y) || y == k) by {
                    lemma_push_contains(keys@.take(i as int), k, y);
                }
            }
            if k > max_seen {
                max_seen = k;
            }
            let mut is_alive = false;
            let mut a: usize = 0;
            while a < alive.len()
                invariant
                    a <= alive@.len(),
                    is_alive == alive@.take(a as int).contains(k),
                decreases alive@.len() - a,
            {
                proof {
                    assert(alive@.take(a + 1) =~= alive@.take(a as int).push(alive@[a as int]));
                    lemma_push_contains(alive@.take(a as int), alive@[a as int], k);
                }
                if alive[a] == k {
                    is_alive = true;
                }
                a = a + 1;
            }
            proof {
                assert(alive@.take(alive@.len() as int) =~= alive@);
            }
            let removed = routing.workers.remove(&k);
            match removed {
                Some(entry) => {
                    if is_alive {
                        let pid = entry.pid;
                        let ghost before = ring.spec_nodes();
                        let ghost ws0 = workers@.dom();
                        ring.add_worker_default(k);
                        workers.insert(k, entry);
                        adopted.insert(k, pid);
                        proof {
                            lemma_ring_grow(before, ring.spec_nodes(), ws0, k);
                            assert(workers@.dom() =~= ws0.insert(k));
                        }
                    }
                },
                None => {},
            }
            proof {
                let s2 = keys@.take(i + 1).to_set().intersect(alive_set);
                assert(alive_set.contains(k) == is_alive);
                assert(workers@ =~= old_workers.restrict(s2));
                assert(adopted@.dom() =~= workers@.dom());
            }
            i = i + 1;
        }
        proof {
            assert(keys@.take(i as int) =~= keys@);
            assert(keys@.to_set().intersect(alive_set) =~= old_workers.dom().intersect(alive_set));
            assert(old_workers.restrict(keys@.to_set().intersect(alive_set)) =~= old_workers.restrict(alive_set));
            if i > 0 {
                let t = choose|t: int| 0 <= t < i && keys@[t] == max_seen;
                assert(keys@.to_set().contains(keys@[t]));
            } else {
                assert(old_workers.dom() =~= keys@.to_set());
                assert(keys@.to_set() =~= Set::<u32>::empty());
            }
            assert forall|k: u32| old_workers.contains_key(k) implies k <= max_seen by {
                assert(keys@.to_set().contains(k));
                let t = choose|t: int| 0 <= t < keys@.len() && keys@[t] == k;
            }
        }
        let surviving = #[verifier::truncate] (workers.len() as u32);
        let to_spawn = if config.n_min > surviving { config.n_min - surviving } else { 0 };
        routing.workers = workers;
        let core = MasterCore {
            config,
            routing,
            ring,
            next_index: if keys.len() == 0 { 0 } else { max_seen + 1 },
            adopted_pids: adopted,
            idle_since: HashMap::new(),
        };
        (core, to_spawn)
    }

    /// Take the next worker index.
    pub fn alloc_index(&mut self) -> (r: u32)
        requires
            old(self).next_index < u32::MAX,
        ensures
            r == old(self).next_index,
            final(self).next_index == old(self).next_index + 1,
            final(self).routing == old(self).routing,
            final(self).ring == old(self).ring,
            final(self).adopted_pids == old(self).adopted_pids,
            final(self).idle_since == old(self).idle_since,
            final(self).config == old(self).config,
    {
        let i = self.next_index;
        self.next_index = i + 1;
        i
    }

    /// Register a freshly started worker: its points join the ring, it gets
    /// a routing entry without roots, and the saved ring is refreshed.
    pub fn register_worker(&mut self, index: u32, socket_path: String, pid: u32)
        requires
            old(self).wf(),
        ensures
            register_post(*old(self), *final(self), index, socket_path@, pid),
    {
        let ghost r0 = self.ring.spec_nodes();
        self.ring.add_worker_default(index);
        let ghost r1 = self.ring.spec_nodes();
        let snapshot = self.ring.to_serializable();
        let entry = WorkerEntry { index, socket_path, pid, root_slugs: Vec::new() };
        self.routing.workers.insert(index, entry);
        self.routing.ring_state = snapshot;
        assert(self.ring.spec_nodes() == r1);
        assert(r0 == old(self).ring.spec_nodes());
    }

    /// Forget a stopped worker: it leaves the adopted pids, the ring and the
    /// routing table, and the saved ring is refreshed.
    pub fn stop_worker(&mut self, index: u32)
        requires
            old(self).wf(),
        ensures
            final(self).wf(),
            final(self).ring.spec_nodes() == without_worker(old(self).ring.spec_nodes(), index),
            final(self).routing.workers@ == old(self).routing.workers@.remove(index),
            final(self).routing.ring_state.nodes@ == final(self).ring.spec_nodes(),
            final(self).adopted_pids@ == old(self).adopted_pids@.remove(index),
            final(self).next_index == old(self).next_index,
            final(self).idle_since == old(self).idle_since,
            final(self).config == old(self).config,
    {
        self.adopted_pids.remove(&index);
        let ghost before = self.ring.spec_nodes();
        self.ring.remove_worker(index);
        proof {
            lemma_without_worker_sorted(before, index);
        }
        self.routing.workers.remove(&index);
        self.routing.ring_state = self.ring.to_serializable();
    }

    /// Drop a worker that kept crashing: it leaves the routing table and
    /// the ring (the saved ring is not refreshed).
    pub fn drop_crashed_worker(&mut self, index: u32)
        requires
            old(self).wf(),
        ensures
            final(self).wf(),
            final(self).ring.spec_nodes() == without_worker(old(self).ring.spec_nodes(), index),
            final(self).routing.workers@ == old(self).routing.workers@.remove(index),
            final(self).routing.ring_state == old(self).routing.ring_state,
            final(self).adopted_pids == old(self).adopted_pids,
            final(self).next_index == old(self).next_index,
            final(self).idle_since == old(self).idle_since,
            final(self).config == old(self).config,
    {
        self.routing.workers.remove(&index);
        let ghost before = self.ring.spec_nodes();
        self.ring.remove_worker(index);
        proof {
            lemma_without_worker_sorted(before, index);
        }
    }
}

/// `v` without the occurrences of `x`, order kept.
pub open spec fn without(v: Seq<Seq<char>>, x: Seq<char>) -> Seq<Seq<char>>
    decreases v.len(),
{
    if v.len() == 0 {
        v
    } else {
        let p = without(v.drop_last(), x);
        if v.last() == x {
            p
        } else {
            p.push(v.last())
        }
    }
}

/// The slugs of a worker's roots.
pub open spec fn slugs(e: WorkerEntry) -> Seq<Seq<char>> {
    views(e.root_slugs@)
}

/// Some registered worker holds the root `slug`.
pub open spec fn routed(workers: Map<u32, WorkerEntry>, slug: Seq<char>) -> bool {
    exists|k: u32| #[trigger] workers.contains_key(k) && slugs(workers[k]).contains(slug)
}

/// What a handshake for `base_path` does: see [`MasterCore::handshake`].
pub open spec fn handshake_post(before: MasterCore, after: MasterCore, base_path: Seq<u8>, r: HandshakeOutcome) -> bool {
    &&& after.wf()
    &&& after.ring == before.ring
    &&& after.next_index == before.next_index
    &&& after.adopted_pids == before.adopted_pids
    &&& after.config == before.config
    &&& after.routing.ring_state == before.routing.ring_state
    &&& ({
        let slug = slug_chars(base_path);
        let ws = before.routing.workers@;
        if routed(ws, slug) {
            &&& r matches HandshakeOutcome::Routed(k) && ws.contains_key(k) && slugs(ws[k]).contains(slug)
            &&& after.routing.workers@ == ws
            &&& after.idle_since@ == before.idle_since@
        } else {
            match owner_of(before.ring.spec_nodes(), point_of(base_path)) {
                None => {
                    &&& r is NoWorkers
                    &&& after.routing.workers@ == ws
                    &&& after.idle_since@ == before.idle_since@
                },
                Some(index) => {
                    &&& after.idle_since@ == before.idle_since@.remove(index)
                    &&& if ws.contains_key(index) {
                        let e = after.routing.workers@[index];
                        &&& after.routing.workers@.dom() == ws.dom()
                        &&& forall|k: u32| k != index && #[trigger] ws.contains_key(k) ==> after.routing.workers@[k] == ws[k]
                        &&& slugs(e) == slugs(ws[index]).push(slug)
                        &&& e.index == ws[index].index && e.socket_path == ws[index].socket_path && e.pid == ws[index].pid
                        &&& r == HandshakeOutcome::Assigned {
                            index,
                            scale_out: (e.root_slugs@.len() as u32) >= before.config.roots_per_worker_max
                                && (ws.len() as u32) < before.config.n_max,
                        }
                    } else {
                        &&& after.routing.workers@ == ws
                        &&& r == HandshakeOutcome::Assigned { index, scale_out: false }
                    }
                },
            }
        }
    })
}

/// What registering worker `index` does: see [`MasterCore::register_worker`].
pub open spec fn register_post(before: MasterCore, after: MasterCore, index: u32, socket_path: Seq<char>, pid: u32) -> bool {
    &&& after.wf()
    &&& forall|x: (u64, u32)| #[trigger] after.ring.spec_nodes().contains(x) ==>
        (before.ring.spec_nodes() + worker_nodes(index, DEFAULT_VIRTUAL_NODES as nat)).contains(x)
    &&& forall|y: (u64, u32)| #[trigger] (before.ring.spec_nodes() + worker_nodes(index, DEFAULT_VIRTUAL_NODES as nat)).contains(y)
        ==> exists|x: (u64, u32)| #[trigger] after.ring.spec_nodes().contains(x) && x.0 == y.0
    &&& after.routing.workers@.dom() == before.routing.workers@.dom().insert(index)
    &&& fresh_entry(after.routing.workers@[index], index, socket_path, pid)
    &&& forall|k: u32| k != index && #[trigger] before.routing.workers@.contains_key(k) ==>
        after.routing.workers@[k] == before.routing.workers@[k]
    &&& after.routing.ring_state.nodes@ == after.ring.spec_nodes()
    &&& after.next_index == before.next_index
    &&& after.adopted_pids == before.adopted_pids
    &&& after.idle_since == before.idle_since
    &&& after.config == before.config
}

/// Law: a root that a handshake assigned to a registered worker is routed
/// from then on; the next handshake for the same path answers `Routed`
/// and changes no routing entry.
pub proof fn lemma_assigned_root_is_routed(s0: MasterCore, s1: MasterCore, s2: MasterCore, base_path: Seq<u8>, r1: HandshakeOutcome, r2: HandshakeOutcome)
    requires
        s0.wf(),
        handshake_post(s0, s1, base_path, r1),
        handshake_post(s1, s2, base_path, r2),
        r1 is Assigned,
        s0.routing.workers@.contains_key(r1->index),
    ensures
        r2 is Routed,
        s1.routing.workers@.contains_key(r2->0),
        slugs(s1.routing.workers@[r2->0]).contains(slug_chars(base_path)),
        s2.routing.workers@ == s1.routing.workers@,
{
    let slug = slug_chars(base_path);
    let index = r1->index;
    let ws = s0.routing.workers@;
    if routed(ws, slug) {
        assert(r1 is Routed);
    }
    assert(slugs(s1.routing.workers@[index]).contains(slug)) by {
        assert(slugs(s1.routing.workers@[index]).last() == slug);
    }
    assert(s1.routing.workers@.contains_key(index));
    assert(routed(s1.routing.workers@, slug));
}

/// Law: registering a worker under a new index keeps every root routed
/// where it was.
pub proof fn lemma_register_keeps_routes(s0: MasterCore, s1: MasterCore, index: u32, socket_path: Seq<char>, pid: u32, slug: Seq<char>)
    requires
        register_post(s0, s1, index, socket_path, pid),
        !s0.routing.workers@.contains_key(index),
        routed(s0.routing.workers@, slug),
    ensures
        routed(s1.routing.workers@, slug),
        forall|k: u32| #[trigger] s0.routing.workers@.contains_key(k) ==> s1.routing.workers@[k] == s0.routing.workers@[k],
{
    let k = choose|k: u32| #[trigger] s0.routing.workers@.contains_key(k) && slugs(s0.routing.workers@[k]).contains(slug);
    assert(s1.routing.workers@.contains_key(k));
    assert(s1.routing.workers@[k] == s0.routing.workers@[k]);
}

/// Law: scaling out does not move roots: after a new worker is registered,
/// a handshake for a root that was routed is still routed to a worker
/// holding it, and nothing changes in the routing table.
pub proof fn lemma_scale_out_keeps_routing(s0: MasterCore, s1: MasterCore, s2: MasterCore, index: u32, socket_path: Seq<char>, pid: u32, base_path: Seq<u8>, r: HandshakeOutcome)
    requires
        register_post(s0, s1, index, socket_path, pid),
        !s0.routing.workers@.contains_key(index),
        routed(s0.routing.workers@, slug_chars(base_path)),
        handshake_post(s1, s2, base_path, r),
    ensures
        r is Routed,
        s0.routing.workers@.contains_key(r->0),
        slugs(s0.routing.workers@[r->0]).contains(slug_chars(base_path)),
        s2.routing.workers@ == s1.routing.workers@,
{
    lemma_register_keeps_routes(s0, s1, index, socket_path, pid, slug_chars(base_path));
    let k = r->0;
    if k == index {
        assert(slugs(s1.routing.workers@[index]).len() == 0);
    }
}

/// Where a handshake for a root goes.
pub enum HandshakeOutcome {
    /// A worker already holds the root.
    Routed(u32),
    /// The ring picked a worker for the new root; `scale_out` asks for one
    /// more worker.
    Assigned { index: u32, scale_out: bool },
    /// The ring is empty.
    NoWorkers,
}

/// Outcome of a crashed worker's restart check.
pub enum RestartDecision {
    /// It crashed too often: remove it for good.
    GiveUp,
    /// Respawn it after `backoff_ms`, recording `count` restarts since
    /// `window_start`.
    Respawn { backoff_ms: u64, count: u32, window_start: u64 },
}

/// Restarts allowed within one window.
pub const MAX_RESTARTS_PER_WINDOW: u32 = 3;

/// Length of the restart window, in milliseconds.
pub const RESTART_WINDOW_MS: u64 = 60000;

/// `a - b`, or 0 below zero.
pub open spec fn sat_sub_u64(a: u64, b: u64) -> int {
    if a > b { a - b } else { 0 }
}

/// The restart check: a window older than [`RESTART_WINDOW_MS`] starts
/// over; within a window, [`MAX_RESTARTS_PER_WINDOW`] restarts are allowed,
/// each after an exponential backoff of 100 ms, 200 ms, 400 ms, ...
pub open spec fn restart_spec(prev: Option<(u32, u64)>, now: u64) -> RestartDecision {
    let (c0, s0) = match prev {
        Some(p) => p,
        None => (0u32, now),
    };
    let (count, start) = if sat_sub_u64(now, s0) > RESTART_WINDOW_MS { (0u32, now) } else { (c0, s0) };
    if count >= MAX_RESTARTS_PER_WINDOW {
        RestartDecision::GiveUp
    } else {
        RestartDecision::Respawn {
            backoff_ms: (100 * (if count == 0 { 1int } else if count == 1 { 2int } else { 4int })) as u64,
            count: (count + 1) as u32,
            window_start: start,
        }
    }
}

/// Decide about restarting a worker that exited, given its restart record
/// (see [`restart_spec`]).
pub fn restart_decision(prev: Option<(u32, u64)>, now: u64) -> (r: RestartDecision)
    ensures
        r == restart_spec(prev, now),
{
    let (c0, s0) = match prev {
        Some(p) => p,
        None => (0u32, now),
    };
    let elapsed = if now > s0 { now - s0 } else { 0 };
    let (count, start) = if elapsed > RESTART_WINDOW_MS { (0u32, now) } else { (c0, s0) };
    if count >= MAX_RESTARTS_PER_WINDOW {
        return RestartDecision::GiveUp;
    }
    assert((1u64 << count) == (if count == 0 { 1u64 } else if count == 1 { 2u64 } else { 4u64 })) by (bit_vector)
        requires
            count < 3,
    ;
    let backoff = 100 * (1u64 << count);
    RestartDecision::Respawn { backoff_ms: backoff, count: count + 1, window_start: start }
}

/// What a client is told about a worker.
pub struct WorkerInfo {
    pub index: u32,
    pub socket_path: String,
    pub root_slugs: Vec<String>,
    pub root_count: usize,
    pub pid: u32,
}

/// `info` describes worker entry `e`.
pub open spec fn describes(info: WorkerInfo, e: WorkerEntry) -> bool {
    &&& info.index == e.index
    &&& info.socket_path@ == e.socket_path@
    &&& views(info.root_slugs@) == views(e.root_slugs@)
    &&& info.root_count == e.root_slugs@.len()
    &&& info.pid == e.pid
}

fn info_of(e: &WorkerEntry) -> (r: WorkerInfo)
    ensures
        describes(r, *e),
{
    WorkerInfo {
        index: e.index,
        socket_path: e.socket_path.clone(),
        root_slugs: crate::grep::copy_strings(&e.root_slugs),
        root_count: e.root_slugs.len(),
        pid: e.pid,
    }
}

impl MasterCore {
    /// The worker holding root `slug`, if any.
    pub fn find_root(&self, slug: &str) -> (r: Option<u32>)
        ensures
            match r {
                Some(k) => self.routing.workers@.contains_key(k) && slugs(self.routing.workers@[k]).contains(slug@),
                None => !routed(self.routing.workers@, slug@),
            },
    {
        let keys = worker_keys(&self.routing.workers);
        let mut i: usize = 0;
        while i < keys.len()
            invariant
                i <= keys@.len(),
                keys@.to_set() == self.routing.workers@.dom(),
                forall|t: int| 0 <= t < i ==> !slugs(self.routing.workers@[#[trigger] keys@[t]]).contains(slug@),
            decreases keys@.len() - i,
        {
            let k = keys[i];
            proof {
                assert(keys@.to_set().contains(k));
            }
            match self.routing.workers.get(&k) {
                Some(e) => {
                    if contains_str(&e.root_slugs, slug) {
                        return Some(k);
                    }
                },
                None => {},
            }
            i = i + 1;
        }
        proof {
            if routed(self.routing.workers@, slug@) {
                let k = choose|k: u32| #[trigger] self.routing.workers@.contains_key(k) && slugs(self.routing.workers@[k]).contains(slug@);
                assert(keys@.to_set().contains(k));
                let t = choose|t: int| 0 <= t < keys@.len() && keys@[t] == k;
            }
        }
        None
    }

    /// Route a root (by its canonical path) to a worker. A worker already
    /// holding it keeps it. Otherwise the ring picks the worker, which takes
    /// the root and stops being idle; when that brings it to the per-worker
    /// maximum while fewer than the maximum number of workers run, another
    /// worker is asked for.
    pub fn handshake(&mut self, base_path: &[u8]) -> (r: HandshakeOutcome)
        requires
            old(self).wf(),
        ensures
            handshake_post(*old(self), *final(self), base_path@, r),
    {
        let slug = base_path_slug(base_path);
        proof {
            assert(slug@ == slug_chars(base_path@));
        }
        if let Some(k) = self.find_root(slug.as_str()) {
            return HandshakeOutcome::Routed(k);
        }
        proof {
            crate::ring::lemma_strict_is_sorted(self.ring.spec_nodes());
        }
        let index = match self.ring.assign(base_path) {
            Some(i) => i,
            None => return HandshakeOutcome::NoWorkers,
        };
        let mut scale_out = false;
        let ghost ws = self.routing.workers@;
        let total = #[verifier::truncate] (self.routing.workers.len() as u32);
        match self.routing.workers.remove(&index) {
            Some(entry) => {
                let mut entry = entry;
                let ghost s0 = slugs(entry);
                proof {
                    assert(!s0.contains(slug@));
                }
                entry.root_slugs.push(slug);
                proof {
                    assert(slugs(entry) =~= s0.push(slug_chars(base_path@)));
                }
                let load = #[verifier::truncate] (entry.root_slugs.len() as u32);
                scale_out = load >= self.config.roots_per_worker_max && total < self.config.n_max;
                self.routing.workers.insert(index, entry);
                proof {
                    assert(self.routing.workers@.dom() =~= ws.dom());
                }
            },
            None => {
                proof {
                    assert(self.routing.workers@ =~= ws);
                }
            },
        }
        self.idle_since.remove(&index);
        HandshakeOutcome::Assigned { index, scale_out }
    }

    /// Drop root `slug` from every worker; a worker left without roots is
    /// idle from `now` on unless it already was.
    pub fn evict_root(&mut self, slug: &str, now: u64)
        ensures
            final(self).routing.workers@.dom() == old(self).routing.workers@.dom(),
            forall|k: u32| #[trigger] old(self).routing.workers@.contains_key(k) ==> {
                let e = final(self).routing.workers@[k];
                let o = old(self).routing.workers@[k];
                &&& slugs(e) == without(slugs(o), slug@)
                &&& e.index == o.index && e.socket_path == o.socket_path && e.pid == o.pid
            },
            forall|k: u32| #[trigger] final(self).idle_since@.contains_key(k) <==> (old(self).idle_since@.contains_key(k)
                || (old(self).routing.workers@.contains_key(k) && without(slugs(old(self).routing.workers@[k]), slug@).len() == 0)),
            forall|k: u32| #[trigger] final(self).idle_since@.contains_key(k) ==> final(self).idle_since@[k] == if old(self).idle_since@.contains_key(k) {
                old(self).idle_since@[k]
            } else {
                now
            },
            final(self).ring == old(self).ring,
            final(self).routing.ring_state == old(self).routing.ring_state,
            final(self).next_index == old(self).next_index,
            final(self).adopted_pids == old(self).adopted_pids,
            final(self).config == old(self).config,
    {
        let keys = worker_keys(&self.routing.workers);
        let ghost ws = self.routing.workers@;
        let ghost idle0 = self.idle_since@;
        let mut i: usize = 0;
        while i < keys.len()
            invariant
                i <= keys@.len(),
                keys@.to_set() == ws.dom(),
                keys@.no_duplicates(),
                self.routing.workers@.dom() == ws.dom(),
                forall|k: u32| #[trigger] ws.contains_key(k) ==> {
                    let e = self.routing.workers@[k];
                    let o = ws[k];
                    &&& (keys@.take(i as int).contains(k) ==> slugs(e) == without(slugs(o), slug@))
                    &&& (!keys@.take(i as int).contains(k) ==> e == o)
                    &&& e.index == o.index && e.socket_path == o.socket_path && e.pid == o.pid
                },
                forall|k: u32| #[trigger] self.idle_since@.contains_key(k) <==> (idle0.contains_key(k)
                    || (ws.contains_key(k) && keys@.take(i as int).contains(k) && without(slugs(ws[k]), slug@).len() == 0)),
                forall|k: u32| #[trigger] self.idle_since@.contains_key(k) ==> self.idle_since@[k] == if idle0.contains_key(k) {
                    idle0[k]
                } else {
                    now
                },
                self.ring == old(self).ring,
                self.routing.ring_state == old(self).routing.ring_state,
                self.next_index == old(self).next_index,
                self.adopted_pids == old(self).adopted_pids,
                self.config == old(self).config,
            decreases keys@.len() - i,
        {
            let k = keys[i];
            proof {
                assert(keys@.to_set().contains(k));
                assert(!keys@.take(i as int).contains(k)) by {
                    if keys@.take(i as int).contains(k) {
                        let t = choose|t: int| 0 <= t < i && keys@.take(i as int)[t] == k;
                        assert(keys@[t] == keys@[i as int]);
                    }
                }
                assert(keys@.take(i + 1) =~= keys@.take(i as int).push(k));
                assert forall|y: u32| #[trigger] keys@.take(i + 1).contains(y) == (keys@.take(i as int).contains(y) || y == k) by {
                    lemma_push_contains(keys@.take(i as int), k, y);
                }
            }
            match self.routing.workers.remove(&k) {
                Some(entry) => {
                    let mut entry = entry;
                    let kept = remove_slug(&entry.root_slugs, slug);
                    entry.root_slugs = kept;
                    let empty = entry.root_slugs.len() == 0;
                    self.routing.workers.insert(k, entry);
                    if empty && !self.idle_since.contains_key(&k) {
                        self.idle_since.insert(k, now);
                    }
                    proof {
                        assert(self.routing.workers@.dom() =~= ws.dom());
                    }
                },
                None => {},
            }
            i = i + 1;
        }
        proof {
            assert(keys@.take(i as int) =~= keys@);
            assert forall|k: u32| ws.contains_key(k) implies keys@.contains(k) by {
                assert(keys@.to_set().contains(k));
            }
        }
    }

    /// Workers whose idle time reached `ttl_ms` at `now`. A worker without
    /// roots is idle from the first sweep that sees it so (or earlier); a
    /// worker with roots stops being idle.
    pub fn idle_sweep(&mut self, now: u64, ttl_ms: u64) -> (r: Vec<u32>)
        ensures
            r@.no_duplicates(),
            forall|k: u32| #[trigger] r@.contains(k) <==> (old(self).routing.workers@.contains_key(k)
                && old(self).routing.workers@[k].root_slugs@.len() == 0
                && sat_sub_u64(now, if old(self).idle_since@.contains_key(k) { old(self).idle_since@[k] } else { now }) >= ttl_ms),
            forall|k: u32| #[trigger] final(self).idle_since@.contains_key(k) <==> (if old(self).routing.workers@.contains_key(k) {
                old(self).routing.workers@[k].root_slugs@.len() == 0
            } else {
                old(self).idle_since@.contains_key(k)
            }),
            forall|k: u32| #[trigger] final(self).idle_since@.contains_key(k) ==> final(self).idle_since@[k] == if old(self).idle_since@.contains_key(k) {
                old(self).idle_since@[k]
            } else {
                now
            },
            final(self).routing == old(self).routing,
            final(self).ring == old(self).ring,
            final(self).next_index == old(self).next_index,
            final(self).adopted_pids == old(self).adopted_pids,
            final(self).config == old(self).config,
    {
        let keys = worker_keys(&self.routing.workers);
        let ghost ws = self.routing.workers@;
        let ghost idle0 = self.idle_since@;
        let mut out: Vec<u32> = Vec::new();
        let mut i: usize = 0;
        while i < keys.len()
            invariant
                i <= keys@.len(),
                keys@.to_set() == ws.dom(),
                keys@.no_duplicates(),
                self.routing.workers@ == ws,
                out@.no_duplicates(),
                forall|k: u32| #[trigger] out@.contains(k) <==> (keys@.take(i as int).contains(k) && ws.contains_key(k)
                    && ws[k].root_slugs@.len() == 0 && sat_sub_u64(now, if idle0.contains_key(k) { idle0[k] } else { now }) >= ttl_ms),
                forall|k: u32| #[trigger] self.idle_since@.contains_key(k) <==> (if ws.contains_key(k) && keys@.take(i as int).contains(k) {
                    ws[k].root_slugs@.len() == 0
                } else {
                    idle0.contains_key(k)
                }),
                forall|k: u32| #[trigger] self.idle_since@.contains_key(k) ==> self.idle_since@[k] == if idle0.contains_key(k) {
                    idle0[k]
                } else {
                    now
                },
                self.routing == old(self).routing,
                self.ring == old(self).ring,
                self.next_index == old(self).next_index,
                self.adopted_pids == old(self).adopted_pids,
                self.config == old(self).config,
            decreases keys@.len() - i,
        {
            let k = keys[i];
            proof {
                assert(keys@.to_set().contains(k));
                assert(!keys@.take(i as int).contains(k)) by {
                    if keys@.take(i as int).contains(k) {
                        let t = choose|t: int| 0 <= t < i && keys@.take(i as int)[t] == k;
                        assert(keys@[t] == keys@[i as int]);
                    }
                }
                assert(keys@.take(i + 1) =~= keys@.take(i as int).push(k));
                assert forall|y: u32| #[trigger] keys@.take(i + 1).contains(y) == (keys@.take(i as int).contains(y) || y == k) by {
                    lemma_push_contains(keys@.take(i as int), k, y);
                }
            }
            let count = self.routing.entries_for_worker(k);
            if count == 0 {
                let since = match self.idle_since.get(&k) {
                    Some(s) => *s,
                    None => {
                        self.idle_since.insert(k, now);
                        now
                    },
                };
                let elapsed = if now > since { now - since } else { 0 };
                if elapsed >= ttl_ms {
                    let ghost o0 = out@;
                    out.push(k);
                    proof {
                        assert forall|y: u32| #[trigger] out@.contains(y) == (o0.contains(y) || y == k) by {
                            lemma_push_contains(o0, k, y);
                        }
                        assert(!o0.contains(k));
                    }
                }
            } else {
                self.idle_since.remove(&k);
            }
            i = i + 1;
        }
        proof {
            assert(keys@.take(i as int) =~= keys@);
            assert forall|k: u32| ws.contains_key(k) implies keys@.contains(k) by {
                assert(keys@.to_set().contains(k));
            }
        }
        out
    }

    /// Stop tracking an idle worker that was stopped.
    pub fn retire_idle_worker(&mut self, index: u32)
        requires
            old(self).wf(),
        ensures
            final(self).wf(),
            final(self).ring.spec_nodes() == without_worker(old(self).ring.spec_nodes(), index),
            final(self).routing.workers@ == old(self).routing.workers@.remove(index),
            final(self).routing.ring_state.nodes@ == final(self).ring.spec_nodes(),
            final(self).adopted_pids@ == old(self).adopted_pids@.remove(index),
            final(self).idle_since@ == old(self).idle_since@.remove(index),
            final(self).next_index == old(self).next_index,
            final(self).config == old(self).config,
    {
        self.stop_worker(index);
        self.idle_since.remove(&index);
    }

    /// What clients are told about worker `index`.
    pub fn worker_info(&self, index: u32) -> (r: Option<WorkerInfo>)
        ensures
            match r {
                Some(info) => self.routing.workers@.contains_key(index) && describes(info, self.routing.workers@[index]),
                None => !self.routing.workers@.contains_key(index),
            },
    {
        match self.routing.workers.get(&index) {
            Some(e) => Some(info_of(e)),
            None => None,
        }
    }

    /// What clients are told about every worker, one entry each, in some
    /// order.
    pub fn worker_infos(&self) -> (r: Vec<WorkerInfo>)
        ensures
            exists|ks: Seq<u32>| #![trigger ks.to_set()] {
                &&& ks.no_duplicates()
                &&& ks.to_set() == self.routing.workers@.dom()
                &&& ks.len() == r@.len()
                &&& forall|t: int| 0 <= t < ks.len() ==> describes(#[trigger] r@[t], self.routing.workers@[ks[t]])
            },
    {
        let keys = worker_keys(&self.routing.workers);
        let mut out: Vec<WorkerInfo> = Vec::new();
        let mut i: usize = 0;
        while i < keys.len()
            invariant
                i <= keys@.len(),
                keys@.to_set() == self.routing.workers@.dom(),
                keys@.no_duplicates(),
                out@.len() == i,
                forall|t: int| 0 <= t < i ==> describes(#[trigger] out@[t], self.routing.workers@[keys@[t]]),
            decreases keys@.len() - i,
        {
            let k = keys[i];
            proof {
                assert(keys@.to_set().contains(k));
            }
            match self.routing.workers.get(&k) {
                Some(e) => out.push(info_of(e)),
                None => {},
            }
            i = i + 1;
        }
        proof {
            assert(keys@.to_set() == self.routing.workers@.dom());
        }
        out
    }
}

/// `v` without the occurrences of `slug`.
fn remove_slug(v: &Vec<String>, slug: &str) -> (r: Vec<String>)
    ensures
        views(r@) == without(views(v@), slug@),
{
    let mut out: Vec<String> = Vec::new();
    let mut i: usize = 0;
    while i < v.len()
        invariant
            i <= v@.len(),
            views(out@) == without(views(v@.take(i as int)), slug@),
        decreases v@.len() - i,
    {
        proof {
            assert(views(v@.take(i + 1)).drop_last() =~= views(v@.take(i as int)));
            assert(views(v@.take(i + 1)).last() == v@[i as int]@);
        }
        if !str_eq(v[i].as_str(), slug) {
            let ghost o0 = views(out@);
            out.push(v[i].clone());
            proof {
                assert(views(out@) =~= o0.push(v@[i as int]@));
            }
        }
        i = i + 1;
    }
    proof {
        assert(v@.take(i as int) =~= v@);
    }
    out
}

} // verus!
