//! Consistent-hash ring mapping project roots to worker processes.
//!
//! Each worker owns `virtual_nodes` points on the ring `[0, u64::MAX]`; a
//! root is owned by the first point at or clockwise after its own hash.

use vstd::prelude::*;
use crate::hashing::{point_for_key, point_of};
use crate::text::{decimal_bytes, push_decimal};
use vstd::utf8::encode_utf8;

verus! {

/// Virtual nodes per worker when none is given.
pub const DEFAULT_VIRTUAL_NODES: usize = 150;

/// Points strictly increasing along the sequence.
pub open spec fn sorted_strict(s: Seq<(u64, u32)>) -> bool {
    forall|i: int, j: int| 0 <= i < j < s.len() ==> (#[trigger] s[i]).0 < (#[trigger] s[j]).0
}

/// Points non-decreasing along the sequence.
pub open spec fn sorted(s: Seq<(u64, u32)>) -> bool {
    forall|i: int, j: int| 0 <= i < j < s.len() ==> (#[trigger] s[i]).0 <= (#[trigger] s[j]).0
}

/// Bytes hashed for virtual node `i` of worker `index`: `worker-{index}-vnode-{i}`.
pub open spec fn vnode_key(index: u32, i: nat) -> Seq<u8> {
    encode_utf8("worker-"@) + decimal_bytes(index as nat) + encode_utf8("-vnode-"@) + decimal_bytes(i)
}

/// The virtual nodes of worker `index`.
pub open spec fn worker_nodes(index: u32, n: nat) -> Seq<(u64, u32)> {
    Seq::new(n, |i: int| (point_of(vnode_key(index, i as nat)), index))
}

/// Index of the first node whose point is at least `p`, or `s.len()`.
pub open spec fn first_at_or_after(s: Seq<(u64, u32)>, p: u64) -> int
    decreases s.len(),
{
    if s.len() == 0 {
        0
    } else if s[0].0 >= p {
        0
    } else {
        1 + first_at_or_after(s.drop_first(), p)
    }
}

/// Owner of point `p`: the first node at or after `p`, wrapping to the first node.
pub open spec fn owner_of(s: Seq<(u64, u32)>, p: u64) -> Option<u32> {
    if s.len() == 0 {
        None
    } else {
        let i = first_at_or_after(s, p);
        if i < s.len() {
            Some(s[i].1)
        } else {
            Some(s[0].1)
        }
    }
}

/// Distinct workers of a node list, in order of first appearance.
pub open spec fn first_workers(s: Seq<(u64, u32)>) -> Seq<u32>
    decreases s.len(),
{
    if s.len() == 0 {
        seq![]
    } else {
        let r = first_workers(s.drop_last());
        if r.contains(s.last().1) {
            r
        } else {
            r.push(s.last().1)
        }
    }
}

/// The nodes kept after removing worker `w`.
pub open spec fn without_worker(s: Seq<(u64, u32)>, w: u32) -> Seq<(u64, u32)> {
    s.filter(not_worker(w))
}

/// Whether a node belongs to a worker other than `w`.
pub open spec fn not_worker(w: u32) -> spec_fn((u64, u32)) -> bool {
    |n: (u64, u32)| n.1 != w
}

/// Every one of the first `n` candidates has its point in `result`.
/// No two nodes share a point.
pub open spec fn distinct_points(s: Seq<(u64, u32)>) -> bool {
    forall|i: int, j: int| 0 <= i < j < s.len() ==> (#[trigger] s[i]).0 != (#[trigger] s[j]).0
}

/// Every node of `result` is one of the first `n` candidates.
#[verifier::opaque]
pub open spec fn from_prefix(result: Seq<(u64, u32)>, cand: Seq<(u64, u32)>, n: int) -> bool {
    forall|x: (u64, u32)| #[trigger] result.contains(x) ==> exists|j: int| 0 <= j < n && cand[j] == x
}

pub open spec fn covers(result: Seq<(u64, u32)>, cand: Seq<(u64, u32)>, n: int) -> bool {
    forall|j: int| 0 <= j < n ==> exists|x: (u64, u32)| #[trigger] result.contains(x) && x.0 == (#[trigger] cand[j]).0
}

/// Copy of a node list.
fn copy_nodes(nodes: &Vec<(u64, u32)>) -> (r: Vec<(u64, u32)>)
    ensures
        r@ == nodes@,
{
    let mut r: Vec<(u64, u32)> = Vec::new();
    let mut i: usize = 0;
    while i < nodes.len()
        invariant
            i <= nodes@.len(),
            r@ == nodes@.take(i as int),
        decreases nodes@.len() - i,
    {
        r.push(nodes[i]);
        proof {
            assert(nodes@.take(i + 1) =~= nodes@.take(i as int).push(nodes@[i as int]));
        }
        i = i + 1;
    }
    proof {
        assert(nodes@.take(i as int) =~= nodes@);
    }
    r
}

/// Snapshot of a ring: its `(point, worker)` nodes.
pub struct SerializableRing {
    pub nodes: Vec<(u64, u32)>,
}

impl Clone for SerializableRing {
    fn clone(&self) -> (r: Self)
        ensures
            r.nodes@ == self.nodes@,
    {
        SerializableRing { nodes: copy_nodes(&self.nodes) }
    }
}

impl Default for SerializableRing {
    fn default() -> (r: Self)
        ensures
            r.nodes@.len() == 0,
    {
        SerializableRing { nodes: Vec::new() }
    }
}

/// Virtual-node consistent hash ring.
pub struct HashRing {
    nodes: Vec<(u64, u32)>,
}

/// Index of the first node at or after `p` in a sorted node list.
fn lower_bound(nodes: &Vec<(u64, u32)>, p: u64) -> (r: usize)
    requires
        sorted(nodes@),
    ensures
        r <= nodes@.len(),
        forall|i: int| 0 <= i < r ==> (#[trigger] nodes@[i]).0 < p,
        forall|i: int| r <= i < nodes@.len() ==> (#[trigger] nodes@[i]).0 >= p,
{
    let mut lo: usize = 0;
    let mut hi: usize = nodes.len();
    while lo < hi
        invariant
            lo <= hi <= nodes@.len(),
            sorted(nodes@),
            forall|i: int| 0 <= i < lo ==> (#[trigger] nodes@[i]).0 < p,
            forall|i: int| hi <= i < nodes@.len() ==> (#[trigger] nodes@[i]).0 >= p,
        decreases hi - lo,
    {
        let mid = lo + (hi - lo) / 2;
        if nodes[mid].0 < p {
            proof {
                assert forall|i: int| 0 <= i < mid + 1 implies (#[trigger] nodes@[i]).0 < p by {
                    if i < mid {
                        assert(nodes@[i].0 <= nodes@[mid as int].0);
                    }
                }
            }
            lo = mid + 1;
        } else {
            proof {
                assert forall|i: int| mid <= i < nodes@.len() implies (#[trigger] nodes@[i]).0 >= p by {
                    if i > mid {
                        assert(nodes@[mid as int].0 <= nodes@[i].0);
                    }
                }
            }
            hi = mid;
        }
    }
    lo
}

proof fn lemma_first_at_or_after(s: Seq<(u64, u32)>, p: u64, r: int)
    requires
        0 <= r <= s.len(),
        forall|i: int| 0 <= i < r ==> (#[trigger] s[i]).0 < p,
        forall|i: int| r <= i < s.len() ==> (#[trigger] s[i]).0 >= p,
    ensures
        first_at_or_after(s, p) == r,
    decreases s.len(),
{
    if s.len() > 0 && r > 0 {
        let t = s.drop_first();
        assert forall|i: int| 0 <= i < r - 1 implies (#[trigger] t[i]).0 < p by {
            assert(t[i] == s[i + 1]);
        }
        assert forall|i: int| r - 1 <= i < t.len() implies (#[trigger] t[i]).0 >= p by {
            assert(t[i] == s[i + 1]);
        }
        lemma_first_at_or_after(t, p, r - 1);
    }
}

/// Insert `n` into a strictly sorted node list unless its point is taken.
fn insert_unique(nodes: &mut Vec<(u64, u32)>, n: (u64, u32))
    requires
        sorted_strict(old(nodes)@),
    ensures
        sorted_strict(final(nodes)@),
        forall|x: (u64, u32)| #[trigger] final(nodes)@.contains(x) ==> old(nodes)@.contains(x) || x == n,
        forall|x: (u64, u32)| #[trigger] old(nodes)@.contains(x) ==> final(nodes)@.contains(x),
        exists|x: (u64, u32)| #[trigger] final(nodes)@.contains(x) && x.0 == n.0,
        (forall|x: (u64, u32)| #[trigger] old(nodes)@.contains(x) ==> x.0 != n.0) ==> final(nodes)@.len() == old(nodes)@.len() + 1,
{
    let ghost o = nodes@;
    let p = lower_bound(nodes, n.0);
    if p < nodes.len() && nodes[p].0 == n.0 {
        proof {
            assert(nodes@.contains(nodes@[p as int]));
        }
        return;
    }
    nodes.insert(p, n);
    proof {
        assert(nodes@ == o.insert(p as int, n));
        assert forall|i: int, j: int| 0 <= i < j < nodes@.len() implies (#[trigger] nodes@[i]).0 < (#[trigger] nodes@[j]).0 by {
            if j < p {
            } else if j == p {
                assert(o[i].0 < n.0);
            } else if i < p {
                assert(nodes@[j] == o[j - 1]);
                assert(o[i].0 < n.0);
            } else if i == p {
                assert(nodes@[j] == o[j - 1]);
                assert(o[j - 1].0 >= n.0);
            } else {
                assert(nodes@[j] == o[j - 1]);
                assert(nodes@[i] == o[i - 1]);
            }
        }
        assert forall|x: (u64, u32)| #[trigger] nodes@.contains(x) implies o.contains(x) || x == n by {
            let j = choose|j: int| 0 <= j < nodes@.len() && nodes@[j] == x;
            if j < p {
                assert(o[j] == x);
            } else if j > p {
                assert(o[j - 1] == x);
            }
        }
        assert forall|x: (u64, u32)| #[trigger] o.contains(x) implies nodes@.contains(x) by {
            let j = choose|j: int| 0 <= j < o.len() && o[j] == x;
            if j < p {
                assert(nodes@[j] == x);
            } else {
                assert(nodes@[j + 1] == x);
            }
        }
        assert(nodes@.contains(nodes@[p as int]));
    }
}

/// Key bytes of virtual node `i` of worker `index`.
fn vnode_key_bytes(index: u32, i: usize) -> (r: Vec<u8>)
    ensures
        r@ == vnode_key(index, i as nat),
{
    let mut key: Vec<u8> = Vec::new();
    key.extend_from_slice("worker-".as_bytes());
    push_decimal(&mut key, index as u64);
    key.extend_from_slice("-vnode-".as_bytes());
    push_decimal(&mut key, i as u64);
    key
}

/// Inserting candidate `k` keeps the result drawn from, and covering, the
/// first `k + 1` candidates.
proof fn lemma_insert_step(before: Seq<(u64, u32)>, after: Seq<(u64, u32)>, cand: Seq<(u64, u32)>, k: int)
    requires
        0 <= k < cand.len(),
        from_prefix(before, cand, k),
        covers(before, cand, k),
        forall|x: (u64, u32)| #[trigger] after.contains(x) ==> before.contains(x) || x == cand[k],
        forall|x: (u64, u32)| #[trigger] before.contains(x) ==> after.contains(x),
        exists|x: (u64, u32)| #[trigger] after.contains(x) && x.0 == cand[k].0,
    ensures
        from_prefix(after, cand, k + 1),
        covers(after, cand, k + 1),
{
    reveal(from_prefix);
    assert forall|x: (u64, u32)| #[trigger] after.contains(x) implies exists|j: int| 0 <= j < k + 1 && cand[j] == x by {
        if before.contains(x) {
            let j = choose|j: int| 0 <= j < k && cand[j] == x;
        } else {
            assert(cand[k] == x);
        }
    }
    assert forall|j: int| 0 <= j < k + 1 implies exists|x: (u64, u32)| #[trigger] after.contains(x) && x.0 == (#[trigger] cand[j]).0 by {
        if j < k {
            let x = choose|x: (u64, u32)| #[trigger] before.contains(x) && x.0 == cand[j].0;
            assert(after.contains(x));
        }
    }
}

/// With distinct candidate points, candidate `k` has a point that none of
/// the first `k` candidates holds.
proof fn lemma_fresh_point(before: Seq<(u64, u32)>, cand: Seq<(u64, u32)>, k: int)
    requires
        0 <= k < cand.len(),
        distinct_points(cand),
        from_prefix(before, cand, k),
    ensures
        forall|x: (u64, u32)| #[trigger] before.contains(x) ==> x.0 != cand[k].0,
{
    reveal(from_prefix);
    assert forall|x: (u64, u32)| #[trigger] before.contains(x) implies x.0 != cand[k].0 by {
        let j = choose|j: int| 0 <= j < k && cand[j] == x;
    }
}

impl HashRing {
    /// The ring's nodes, in ring order.
    pub closed spec fn spec_nodes(&self) -> Seq<(u64, u32)> {
        self.nodes@
    }

    /// An empty ring.
    pub fn new() -> (r: Self)
        ensures
            r.spec_nodes() == Seq::<(u64, u32)>::empty(),
    {
        HashRing { nodes: Vec::new() }
    }

    /// Add worker `index` with `virtual_nodes` points. The nodes end up
    /// strictly sorted by point with one node per distinct point among the
    /// old and new nodes (a point claimed twice keeps one of its claimants).
    pub fn add_worker(&mut self, index: u32, virtual_nodes: usize)
        ensures
            sorted_strict(final(self).spec_nodes()),
            forall|x: (u64, u32)| #[trigger] final(self).spec_nodes().contains(x) ==> (old(self).spec_nodes()
                + worker_nodes(index, virtual_nodes as nat)).contains(x),
            forall|y: (u64, u32)| #[trigger] (old(self).spec_nodes() + worker_nodes(index, virtual_nodes as nat)).contains(y)
                ==> exists|x: (u64, u32)| #[trigger] final(self).spec_nodes().contains(x) && x.0 == y.0,
            distinct_points(old(self).spec_nodes() + worker_nodes(index, virtual_nodes as nat)) ==>
                final(self).spec_nodes().len() == old(self).spec_nodes().len() + virtual_nodes,
    {
        let ghost cand = self.nodes@ + worker_nodes(index, virtual_nodes as nat);
        let mut result: Vec<(u64, u32)> = Vec::new();
        assert(from_prefix(result@, cand, 0)) by {
            reveal(from_prefix);
        }
        let mut k: usize = 0;
        let n_old = self.nodes.len();
        while k < n_old
            invariant
                k <= n_old,
                n_old == self.nodes@.len(),
                cand == self.nodes@ + worker_nodes(index, virtual_nodes as nat),
                sorted_strict(result@),
                forall|x: (u64, u32)| #[trigger] result@.contains(x) ==> cand.contains(x),
                covers(result@, cand, k as int),
                from_prefix(result@, cand, k as int),
                distinct_points(cand) ==> result@.len() == k,
            decreases n_old - k,
        {
            let nd = self.nodes[k];
            let ghost before = result@;
            proof {
                assert(cand[k as int] == nd);
                if distinct_points(cand) {
                    lemma_fresh_point(before, cand, k as int);
                }
            }
            insert_unique(&mut result, nd);
            proof {
                assert(cand.contains(nd));
                lemma_insert_step(before, result@, cand, k as int);
            }
            k = k + 1;
        }
        proof {
            assert(k == n_old);
            assert(covers(result@, cand, k as int));
        }
        let mut i: usize = 0;
        while i < virtual_nodes
            invariant
                i <= virtual_nodes,
                n_old == self.nodes@.len(),
                cand == self.nodes@ + worker_nodes(index, virtual_nodes as nat),
                cand.len() == n_old + virtual_nodes,
                sorted_strict(result@),
                forall|x: (u64, u32)| #[trigger] result@.contains(x) ==> cand.contains(x),
                covers(result@, cand, n_old + i),
                from_prefix(result@, cand, n_old + i),
                distinct_points(cand) ==> result@.len() == n_old + i,
            decreases virtual_nodes - i,
        {
            let key = vnode_key_bytes(index, i);
            let point = point_for_key(key.as_slice());
            let ghost before = result@;
            proof {
                assert(cand[n_old + i] == (point, index));
                if distinct_points(cand) {
                    lemma_fresh_point(before, cand, n_old + i);
                }
            }
            insert_unique(&mut result, (point, index));
            proof {
                assert(cand.contains((point, index)));
                lemma_insert_step(before, result@, cand, n_old + i);
            }
            i = i + 1;
        }
        proof {
            assert(i == virtual_nodes);
            assert(covers(result@, cand, cand.len() as int));
        }
        let ghost rv = result@;
        self.nodes = result;
        proof {
            assert(self.nodes@ == rv);
            assert forall|y: (u64, u32)| #[trigger] cand.contains(y) implies exists|x: (u64, u32)| #[trigger] self.nodes@.contains(x) && x.0 == y.0 by {
                let j = choose|j: int| 0 <= j < cand.len() && cand[j] == y;
                let x = choose|x: (u64, u32)| #[trigger] rv.contains(x) && x.0 == cand[j].0;
                assert(self.nodes@.contains(x));
            }
        }
    }

    /// Add worker `index` with the default number of virtual nodes.
    pub fn add_worker_default(&mut self, index: u32)
        ensures
            sorted_strict(final(self).spec_nodes()),
            forall|x: (u64, u32)| #[trigger] final(self).spec_nodes().contains(x) ==> (old(self).spec_nodes()
                + worker_nodes(index, DEFAULT_VIRTUAL_NODES as nat)).contains(x),
            forall|y: (u64, u32)| #[trigger] (old(self).spec_nodes() + worker_nodes(index, DEFAULT_VIRTUAL_NODES as nat)).contains(y)
                ==> exists|x: (u64, u32)| #[trigger] final(self).spec_nodes().contains(x) && x.0 == y.0,
    {
        self.add_worker(index, DEFAULT_VIRTUAL_NODES);
    }

    /// Remove every node of worker `index`.
    pub fn remove_worker(&mut self, index: u32)
        ensures
            final(self).spec_nodes() == without_worker(old(self).spec_nodes(), index),
    {
        let ghost o = self.nodes@;
        let mut kept: Vec<(u64, u32)> = Vec::new();
        let mut i: usize = 0;
        proof {
            assert(o.take(0) =~= Seq::<(u64, u32)>::empty());
            assert(without_worker(Seq::<(u64, u32)>::empty(), index) =~= Seq::<(u64, u32)>::empty());
        }
        while i < self.nodes.len()
            invariant
                i <= o.len(),
                o == self.nodes@,
                kept@ == without_worker(o.take(i as int), index),
            decreases o.len() - i,
        {
            let nd = self.nodes[i];
            proof {
                assert(o.take(i + 1) =~= o.take(i as int).push(nd));
                o.take(i as int).lemma_filter_push(nd, not_worker(index));
            }
            if nd.1 != index {
                kept.push(nd);
            }
            i = i + 1;
        }
        proof {
            assert(o.take(i as int) =~= o);
        }
        self.nodes = kept;
    }

    /// Owner of ring point `point`, or `None` for an empty ring.
    pub fn assign_point(&self, point: u64) -> (r: Option<u32>)
        requires
            sorted(self.spec_nodes()),
        ensures
            r == owner_of(self.spec_nodes(), point),
    {
        if self.nodes.len() == 0 {
            return None;
        }
        let idx = lower_bound(&self.nodes, point);
        proof {
            lemma_first_at_or_after(self.nodes@, point, idx as int);
        }
        if idx < self.nodes.len() {
            Some(self.nodes[idx].1)
        } else {
            Some(self.nodes[0].1)
        }
    }

    /// Worker owning the root whose canonical path has the bytes `base_path`.
    pub fn assign(&self, base_path: &[u8]) -> (r: Option<u32>)
        requires
            sorted(self.spec_nodes()),
        ensures
            r == owner_of(self.spec_nodes(), point_of(base_path@)),
    {
        if self.nodes.len() == 0 {
            return None;
        }
        let point = point_for_key(base_path);
        self.assign_point(point)
    }

    /// Distinct worker indices, in ring order of first appearance.
    pub fn workers(&self) -> (r: Vec<u32>)
        ensures
            r@ == first_workers(self.spec_nodes()),
    {
        let mut seen: Vec<u32> = Vec::new();
        let mut i: usize = 0;
        proof {
            assert(self.nodes@.take(0) =~= Seq::<(u64, u32)>::empty());
        }
        while i < self.nodes.len()
            invariant
                i <= self.nodes@.len(),
                seen@ == first_workers(self.nodes@.take(i as int)),
            decreases self.nodes@.len() - i,
        {
            let w = self.nodes[i].1;
            proof {
                assert(self.nodes@.take(i + 1).drop_last() =~= self.nodes@.take(i as int));
            }
            let mut found = false;
            let mut j: usize = 0;
            while j < seen.len()
                invariant
                    j <= seen@.len(),
                    found == (exists|t: int| 0 <= t < j && seen@[t] == w),
                decreases seen@.len() - j,
            {
                if seen[j] == w {
                    found = true;
                }
                j = j + 1;
            }
            if !found {
                seen.push(w);
            }
            i = i + 1;
        }
        proof {
            assert(self.nodes@.take(i as int) =~= self.nodes@);
        }
        seen
    }

    /// Total number of virtual nodes.
    pub fn len(&self) -> (r: usize)
        ensures
            r == self.spec_nodes().len(),
    {
        self.nodes.len()
    }

    /// Whether the ring has no node.
    pub fn is_empty(&self) -> (r: bool)
        ensures
            r == (self.spec_nodes().len() == 0),
    {
        self.nodes.len() == 0
    }

    /// Snapshot of the ring for persistence.
    pub fn to_serializable(&self) -> (r: SerializableRing)
        ensures
            r.nodes@ == self.spec_nodes(),
    {
        SerializableRing { nodes: copy_nodes(&self.nodes) }
    }

    /// Restore a ring from a snapshot, sorting its nodes by point (stable:
    /// an already sorted snapshot is taken as is).
    pub fn from_serializable(ring: SerializableRing) -> (r: Self)
        ensures
            sorted(r.spec_nodes()),
            r.spec_nodes().to_multiset() == ring.nodes@.to_multiset(),
            sorted(ring.nodes@) ==> r.spec_nodes() == ring.nodes@,
    {
        let input = ring.nodes;
        let mut out: Vec<(u64, u32)> = Vec::new();
        let mut i: usize = 0;
        proof {
            assert(input@.take(0) =~= Seq::<(u64, u32)>::empty());
        }
        while i < input.len()
            invariant
                i <= input@.len(),
                sorted(out@),
                out@.to_multiset() == input@.take(i as int).to_multiset(),
                sorted(input@) ==> out@ == input@.take(i as int),
            decreases input@.len() - i,
        {
            let nd = input[i];
            let p = upper_bound(&out, nd.0);
            let ghost o = out@;
            out.insert(p, nd);
            proof {
                assert(input@.take(i + 1) =~= input@.take(i as int).push(nd));
                vstd::seq_lib::to_multiset_insert(o, p as int, nd);
                vstd::seq_lib::to_multiset_build(input@.take(i as int), nd);
                assert forall|a: int, b: int| 0 <= a < b < out@.len() implies (#[trigger] out@[a]).0 <= (#[trigger] out@[b]).0 by {
                    if b < p {
                    } else if b == p {
                    } else if a < p {
                        assert(out@[b] == o[b - 1]);
                    } else if a == p {
                        assert(out@[b] == o[b - 1]);
                    } else {
                        assert(out@[b] == o[b - 1]);
                        assert(out@[a] == o[a - 1]);
                    }
                }
                if sorted(input@) {
                    if i > 0 {
                        assert(o[i - 1] == input@[i - 1]);
                        assert(input@[i - 1].0 <= nd.0);
                    }
                    assert(p == i);
                    assert(out@ =~= input@.take(i + 1));
                }
            }
            i = i + 1;
        }
        proof {
            assert(input@.take(i as int) =~= input@);
        }
        HashRing { nodes: out }
    }
}

/// Index just past the last node whose point is at most `p`.
fn upper_bound(nodes: &Vec<(u64, u32)>, p: u64) -> (r: usize)
    requires
        sorted(nodes@),
    ensures
        r <= nodes@.len(),
        forall|i: int| 0 <= i < r ==> (#[trigger] nodes@[i]).0 <= p,
        forall|i: int| r <= i < nodes@.len() ==> (#[trigger] nodes@[i]).0 > p,
{
    let mut lo: usize = 0;
    let mut hi: usize = nodes.len();
    while lo < hi
        invariant
            lo <= hi <= nodes@.len(),
            sorted(nodes@),
            forall|i: int| 0 <= i < lo ==> (#[trigger] nodes@[i]).0 <= p,
            forall|i: int| hi <= i < nodes@.len() ==> (#[trigger] nodes@[i]).0 > p,
        decreases hi - lo,
    {
        let mid = lo + (hi - lo) / 2;
        if nodes[mid].0 <= p {
            proof {
                assert forall|i: int| 0 <= i < mid + 1 implies (#[trigger] nodes@[i]).0 <= p by {
                    if i < mid {
                        assert(nodes@[i].0 <= nodes@[mid as int].0);
                    }
                }
            }
            lo = mid + 1;
        } else {
            proof {
                assert forall|i: int| mid <= i < nodes@.len() implies (#[trigger] nodes@[i]).0 > p by {
                    if i > mid {
                        assert(nodes@[mid as int].0 <= nodes@[i].0);
                    }
                }
            }
            hi = mid;
        }
    }
    lo
}

impl Default for HashRing {
    fn default() -> (r: Self)
        ensures
            r.spec_nodes() == Seq::<(u64, u32)>::empty(),
    {
        HashRing::new()
    }
}


proof fn lemma_first_props(s: Seq<(u64, u32)>, p: u64)
    ensures
        0 <= first_at_or_after(s, p) <= s.len(),
        forall|j: int| 0 <= j < first_at_or_after(s, p) ==> (#[trigger] s[j]).0 < p,
        first_at_or_after(s, p) < s.len() ==> s[first_at_or_after(s, p)].0 >= p,
    decreases s.len(),
{
    if s.len() > 0 && s[0].0 < p {
        let t = s.drop_first();
        lemma_first_props(t, p);
        assert forall|j: int| 0 <= j < first_at_or_after(s, p) implies (#[trigger] s[j]).0 < p by {
            if j > 0 {
                assert(s[j] == t[j - 1]);
            }
        }
    }
}

proof fn lemma_strict_unique(s: Seq<(u64, u32)>, a: (u64, u32), b: (u64, u32))
    requires
        sorted_strict(s),
        s.contains(a),
        s.contains(b),
        a.0 == b.0,
    ensures
        a == b,
{
    let i = choose|i: int| 0 <= i < s.len() && s[i] == a;
    let j = choose|j: int| 0 <= j < s.len() && s[j] == b;
    if i < j {
        assert(s[i].0 < s[j].0);
    } else if j < i {
        assert(s[j].0 < s[i].0);
    }
}

/// Facts about the nodes after a join, free of the candidate list.
pub open spec fn joined(old_nodes: Seq<(u64, u32)>, new_nodes: Seq<(u64, u32)>, index: u32) -> bool {
    &&& sorted_strict(old_nodes)
    &&& sorted_strict(new_nodes)
    &&& forall|x: (u64, u32)| #[trigger] new_nodes.contains(x) ==> old_nodes.contains(x) || x.1 == index
    &&& forall|o: (u64, u32)| #[trigger] old_nodes.contains(o) ==> exists|y: (u64, u32)| #[trigger] new_nodes.contains(y) && y.0 == o.0
}

#[verifier::rlimit(30)]
proof fn lemma_joined_before_end(old_nodes: Seq<(u64, u32)>, new_nodes: Seq<(u64, u32)>, index: u32, p: u64)
    requires
        joined(old_nodes, new_nodes, index),
        first_at_or_after(new_nodes, p) < new_nodes.len(),
        old_nodes.contains(new_nodes[first_at_or_after(new_nodes, p)]),
    ensures
        owner_of(new_nodes, p) == owner_of(old_nodes, p),
{
    lemma_first_props(new_nodes, p);
    lemma_first_props(old_nodes, p);
    let i = first_at_or_after(new_nodes, p);
    let x = new_nodes[i];
    let io = first_at_or_after(old_nodes, p);
    let jx = choose|jx: int| 0 <= jx < old_nodes.len() && old_nodes[jx] == x;
    assert(io <= jx) by {
        if io > jx {
            assert(old_nodes[jx].0 < p);
        }
    }
    let o = old_nodes[io];
    assert(old_nodes.contains(o));
    let y = choose|y: (u64, u32)| #[trigger] new_nodes.contains(y) && y.0 == o.0;
    let jy = choose|jy: int| 0 <= jy < new_nodes.len() && new_nodes[jy] == y;
    assert(jy >= i) by {
        if jy < i {
            assert(new_nodes[jy].0 < p);
        }
    }
    if jy > i {
        assert(new_nodes[i].0 < new_nodes[jy].0);
    }
    if io < jx {
        assert(old_nodes[io].0 < old_nodes[jx].0);
    }
    lemma_strict_unique(old_nodes, o, x);
}

#[verifier::rlimit(30)]
proof fn lemma_joined_wrap(old_nodes: Seq<(u64, u32)>, new_nodes: Seq<(u64, u32)>, index: u32, p: u64)
    requires
        joined(old_nodes, new_nodes, index),
        new_nodes.len() > 0,
        first_at_or_after(new_nodes, p) == new_nodes.len(),
        old_nodes.contains(new_nodes[0]),
    ensures
        owner_of(new_nodes, p) == owner_of(old_nodes, p),
{
    lemma_first_props(new_nodes, p);
    lemma_first_props(old_nodes, p);
    let x = new_nodes[0];
    let io = first_at_or_after(old_nodes, p);
    assert(io == old_nodes.len()) by {
        if io < old_nodes.len() {
            let o = old_nodes[io];
            assert(old_nodes.contains(o));
            let y = choose|y: (u64, u32)| #[trigger] new_nodes.contains(y) && y.0 == o.0;
            let jy = choose|jy: int| 0 <= jy < new_nodes.len() && new_nodes[jy] == y;
            assert(new_nodes[jy].0 < p);
        }
    }
    let o = old_nodes[0];
    assert(old_nodes.contains(o));
    let y = choose|y: (u64, u32)| #[trigger] new_nodes.contains(y) && y.0 == o.0;
    let jy = choose|jy: int| 0 <= jy < new_nodes.len() && new_nodes[jy] == y;
    if jy > 0 {
        assert(new_nodes[0].0 < new_nodes[jy].0);
    }
    let jx = choose|jx: int| 0 <= jx < old_nodes.len() && old_nodes[jx] == x;
    if jx > 0 {
        assert(old_nodes[0].0 < old_nodes[jx].0);
    }
    lemma_strict_unique(old_nodes, o, x);
}

/// Consistent hashing: after a worker joins, every point keeps its previous
/// owner or moves to the new worker; no root moves between existing workers.
pub proof fn lemma_add_worker_moves_only_to_new(
    old_nodes: Seq<(u64, u32)>,
    new_nodes: Seq<(u64, u32)>,
    index: u32,
    virtual_nodes: nat,
    p: u64,
)
    requires
        sorted_strict(old_nodes),
        sorted_strict(new_nodes),
        forall|x: (u64, u32)| #[trigger] new_nodes.contains(x) ==> (old_nodes + worker_nodes(index, virtual_nodes)).contains(x),
        forall|y: (u64, u32)| #[trigger] (old_nodes + worker_nodes(index, virtual_nodes)).contains(y)
            ==> exists|x: (u64, u32)| #[trigger] new_nodes.contains(x) && x.0 == y.0,
    ensures
        owner_of(new_nodes, p) == owner_of(old_nodes, p) || owner_of(new_nodes, p) == Some(index),
{
    let cand = old_nodes + worker_nodes(index, virtual_nodes);
    assert forall|x: (u64, u32)| #[trigger] new_nodes.contains(x) implies old_nodes.contains(x) || x.1 == index by {
        assert(cand.contains(x));
        let j = choose|j: int| 0 <= j < cand.len() && cand[j] == x;
        if j < old_nodes.len() {
            assert(old_nodes[j] == x);
        }
    }
    assert forall|o: (u64, u32)| #[trigger] old_nodes.contains(o) implies exists|y: (u64, u32)| #[trigger] new_nodes.contains(y) && y.0 == o.0 by {
        let j = choose|j: int| 0 <= j < old_nodes.len() && old_nodes[j] == o;
        assert(cand[j] == o);
        assert(cand.contains(o));
    }
    assert(joined(old_nodes, new_nodes, index));
    if new_nodes.len() == 0 {
        if old_nodes.len() > 0 {
            assert(old_nodes.contains(old_nodes[0]));
        }
        return;
    }
    lemma_first_props(new_nodes, p);
    let i = first_at_or_after(new_nodes, p);
    if i < new_nodes.len() {
        assert(new_nodes.contains(new_nodes[i]));
        if old_nodes.contains(new_nodes[i]) {
            lemma_joined_before_end(old_nodes, new_nodes, index, p);
        }
    } else {
        assert(new_nodes.contains(new_nodes[0]));
        if old_nodes.contains(new_nodes[0]) {
            lemma_joined_wrap(old_nodes, new_nodes, index, p);
        }
    }
}

/// A ring whose nodes all belong to one worker assigns every point to it.
pub proof fn lemma_single_worker_owns_all(nodes: Seq<(u64, u32)>, w: u32, p: u64)
    requires
        nodes.len() > 0,
        forall|i: int| 0 <= i < nodes.len() ==> (#[trigger] nodes[i]).1 == w,
    ensures
        owner_of(nodes, p) == Some(w),
{
    lemma_first_props(nodes, p);
}

/// A snapshot restores to the very same ring when the ring was sorted
/// (every ring built by adding and removing workers is).
pub proof fn lemma_snapshot_round_trip(ring_nodes: Seq<(u64, u32)>, snapshot: Seq<(u64, u32)>, restored: Seq<(u64, u32)>)
    requires
        sorted(ring_nodes),
        snapshot == ring_nodes,
        sorted(snapshot) ==> restored == snapshot,
    ensures
        restored == ring_nodes,
{
}

/// Strictly sorted rings are sorted.
pub proof fn lemma_strict_is_sorted(s: Seq<(u64, u32)>)
    requires
        sorted_strict(s),
    ensures
        sorted(s),
{
    assert forall|i: int, j: int| 0 <= i < j < s.len() implies (#[trigger] s[i]).0 <= (#[trigger] s[j]).0 by {
    }
}

/// Workers listed by `workers` are distinct.
pub proof fn lemma_first_workers_distinct(s: Seq<(u64, u32)>)
    ensures
        forall|i: int, j: int| 0 <= i < j < first_workers(s).len() ==> first_workers(s)[i] != first_workers(s)[j],
    decreases s.len(),
{
    if s.len() > 0 {
        lemma_first_workers_distinct(s.drop_last());
        let r = first_workers(s.drop_last());
        if !r.contains(s.last().1) {
            assert forall|i: int, j: int| 0 <= i < j < first_workers(s).len() implies first_workers(s)[i] != first_workers(s)[j] by {
                if j == r.len() {
                    assert(first_workers(s)[i] == r[i]);
                }
            }
        }
    }
}

proof fn lemma_filter_subset(s: Seq<(u64, u32)>, w: u32)
    ensures
        forall|i: int| 0 <= i < without_worker(s, w).len() ==> s.contains(#[trigger] without_worker(s, w)[i]),
    decreases s.len(),
{
    reveal(Seq::filter);
    if s.len() > 0 {
        let d = s.drop_last();
        lemma_filter_subset(d, w);
        let f = d.filter(not_worker(w));
        assert forall|i: int| 0 <= i < without_worker(s, w).len() implies s.contains(#[trigger] without_worker(s, w)[i]) by {
            let x = without_worker(s, w)[i];
            if i < f.len() {
                assert(x == f[i]);
                assert(x == without_worker(d, w)[i]);
                assert(d.contains(x));
                let k = choose|k: int| 0 <= k < d.len() && d[k] == x;
                assert(s[k] == x);
            } else {
                assert(x == s.last());
                assert(s[s.len() - 1] == x);
            }
        }
    }
}

/// Removing a worker keeps the ring strictly sorted.
pub proof fn lemma_without_worker_sorted(s: Seq<(u64, u32)>, w: u32)
    requires
        sorted_strict(s),
    ensures
        sorted_strict(without_worker(s, w)),
    decreases s.len(),
{
    reveal(Seq::filter);
    if s.len() > 0 {
        let d = s.drop_last();
        assert forall|i: int, j: int| 0 <= i < j < d.len() implies (#[trigger] d[i]).0 < (#[trigger] d[j]).0 by {
            assert(d[i] == s[i] && d[j] == s[j]);
        }
        lemma_without_worker_sorted(d, w);
        lemma_filter_subset(d, w);
        let f = d.filter(not_worker(w));
        if not_worker(w)(s.last()) {
            let g = f.push(s.last());
            assert(s.filter(not_worker(w)) == g);
            assert forall|i: int, j: int| 0 <= i < j < g.len() implies (#[trigger] g[i]).0 < (#[trigger] g[j]).0 by {
                if j == g.len() - 1 {
                    assert(g[i] == f[i]);
                    assert(f[i] == without_worker(d, w)[i]);
                    assert(d.contains(f[i]));
                    let k = choose|k: int| 0 <= k < d.len() && d[k] == f[i];
                    assert(s[k] == d[k]);
                    assert(s[s.len() - 1] == s.last());
                } else {
                    assert(g[i] == f[i] && g[j] == f[j]);
                }
            }
        }
    }
}

} // verus!
