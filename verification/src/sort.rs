//! Ordering of ranked results: by score, then recency, then input position.

use vstd::prelude::*;

verus! {

broadcast use vstd::seq_lib::group_to_multiset_ensures;

/// A result's rank key: `(score, timestamp, position)`.
pub type Rank = (i64, u64, usize);

/// `a` comes no later than `b`: higher score first, then the more recent,
/// then the earlier position.
pub open spec fn rank_le(a: Rank, b: Rank) -> bool {
    a.0 > b.0 || (a.0 == b.0 && (a.1 > b.1 || (a.1 == b.1 && a.2 <= b.2)))
}

/// `s` is in rank order.
pub open spec fn rank_sorted(s: Seq<Rank>) -> bool {
    forall|i: int, j: int| 0 <= i < j < s.len() ==> rank_le(#[trigger] s[i], #[trigger] s[j])
}

/// Merge two rank-ordered runs.
fn merge(a: Vec<Rank>, b: Vec<Rank>) -> (r: Vec<Rank>)
    requires
        rank_sorted(a@),
        rank_sorted(b@),
    ensures
        rank_sorted(r@),
        r@.to_multiset() == a@.to_multiset().add(b@.to_multiset()),
{
    let mut r: Vec<Rank> = Vec::new();
    let mut i: usize = 0;
    let mut j: usize = 0;
    proof {
        assert(a@.take(0) =~= Seq::<Rank>::empty());
        assert(b@.take(0) =~= Seq::<Rank>::empty());
    }
    while i < a.len() || j < b.len()
        invariant
            i <= a@.len(),
            j <= b@.len(),
            rank_sorted(a@),
            rank_sorted(b@),
            rank_sorted(r@),
            forall|k: int, t: int| 0 <= k < r@.len() && i <= t < a@.len() ==> rank_le(#[trigger] r@[k], #[trigger] a@[t]),
            forall|k: int, t: int| 0 <= k < r@.len() && j <= t < b@.len() ==> rank_le(#[trigger] r@[k], #[trigger] b@[t]),
            r@.to_multiset() == a@.take(i as int).to_multiset().add(b@.take(j as int).to_multiset()),
        decreases a@.len() + b@.len() - i - j,
    {
        let take_a = if i < a.len() && j < b.len() {
            let x = a[i];
            let y = b[j];
            x.0 > y.0 || (x.0 == y.0 && (x.1 > y.1 || (x.1 == y.1 && x.2 <= y.2)))
        } else {
            i < a.len()
        };
        let ghost before = r@;
        if take_a {
            let x = a[i];
            r.push(x);
            proof {
                assert(a@.take(i + 1) =~= a@.take(i as int).push(x));
                assert forall|k: int, t: int| 0 <= k < r@.len() && i + 1 <= t < a@.len() implies rank_le(#[trigger] r@[k], #[trigger] a@[t]) by {
                    if k < before.len() {
                        assert(r@[k] == before[k]);
                    } else {
                        assert(rank_le(a@[i as int], a@[t]));
                    }
                }
                assert forall|k: int, t: int| 0 <= k < r@.len() && j <= t < b@.len() implies rank_le(#[trigger] r@[k], #[trigger] b@[t]) by {
                    if k < before.len() {
                        assert(r@[k] == before[k]);
                    } else {
                        assert(rank_le(x, b@[j as int]));
                        assert(rank_le(b@[j as int], b@[t]));
                    }
                }
                assert forall|p: int, q: int| 0 <= p < q < r@.len() implies rank_le(#[trigger] r@[p], #[trigger] r@[q]) by {
                    if q < before.len() {
                        assert(r@[p] == before[p]);
                        assert(r@[q] == before[q]);
                    } else {
                        assert(r@[p] == before[p]);
                        assert(rank_le(before[p], a@[i as int]));
                    }
                }
            }
            i = i + 1;
        } else {
            let y = b[j];
            r.push(y);
            proof {
                assert(b@.take(j + 1) =~= b@.take(j as int).push(y));
                assert forall|k: int, t: int| 0 <= k < r@.len() && i <= t < a@.len() implies rank_le(#[trigger] r@[k], #[trigger] a@[t]) by {
                    if k < before.len() {
                        assert(r@[k] == before[k]);
                    } else {
                        assert(rank_le(y, a@[i as int]));
                        assert(rank_le(a@[i as int], a@[t]));
                    }
                }
                assert forall|k: int, t: int| 0 <= k < r@.len() && j + 1 <= t < b@.len() implies rank_le(#[trigger] r@[k], #[trigger] b@[t]) by {
                    if k < before.len() {
                        assert(r@[k] == before[k]);
                    } else {
                        assert(rank_le(b@[j as int], b@[t]));
                    }
                }
                assert forall|p: int, q: int| 0 <= p < q < r@.len() implies rank_le(#[trigger] r@[p], #[trigger] r@[q]) by {
                    if q < before.len() {
                        assert(r@[p] == before[p]);
                        assert(r@[q] == before[q]);
                    } else {
                        assert(r@[p] == before[p]);
                        assert(rank_le(before[p], b@[j as int]));
                    }
                }
            }
            j = j + 1;
        }
    }
    proof {
        assert(a@.take(i as int) =~= a@);
        assert(b@.take(j as int) =~= b@);
    }
    r
}

/// `v` in rank order.
pub fn sort_ranks(v: &[Rank]) -> (r: Vec<Rank>)
    ensures
        rank_sorted(r@),
        r@.to_multiset() == v@.to_multiset(),
    decreases v@.len(),
{
    let n = v.len();
    if n <= 1 {
        let mut out: Vec<Rank> = Vec::new();
        if n == 1 {
            out.push(v[0]);
            proof {
                assert(v@ =~= Seq::<Rank>::empty().push(v[0]));
            }
        } else {
            proof {
                assert(v@ =~= Seq::<Rank>::empty());
            }
        }
        proof {
            assert(out@ =~= v@);
        }
        return out;
    }
    let mid = n / 2;
    let (lo, hi) = v.split_at(mid);
    let a = sort_ranks(lo);
    let b = sort_ranks(hi);
    proof {
        assert(v@ =~= lo@ + hi@);
        vstd::seq_lib::lemma_multiset_commutative(lo@, hi@);
    }
    merge(a, b)
}

/// The rank-ordered arrangement of `s`.
pub open spec fn rank_order(s: Seq<Rank>) -> Seq<Rank> {
    choose|t: Seq<Rank>| rank_sorted(t) && t.to_multiset() == s.to_multiset()
}

proof fn lemma_sorted_unique(s: Seq<Rank>, t: Seq<Rank>)
    requires
        rank_sorted(s),
        rank_sorted(t),
        s.to_multiset() == t.to_multiset(),
    ensures
        s == t,
    decreases s.len(),
{
    assert(s.to_multiset().len() == s.len());
    assert(t.to_multiset().len() == t.len());
    if s.len() == 0 {
        assert(t.len() == 0);
        assert(s =~= t);
    } else {
        assert(t.len() == s.len());
        let x = s[0];
        let y = t[0];
        assert(s.contains(x));
        assert(s.to_multiset().count(x) > 0);
        assert(t.contains(x));
        let j = choose|j: int| 0 <= j < t.len() && t[j] == x;
        if j > 0 {
            assert(rank_le(t[0], t[j]));
        }
        assert(t.contains(y));
        assert(t.to_multiset().count(y) > 0);
        assert(s.to_multiset().count(y) > 0);
        assert(s.contains(y));
        let i = choose|i: int| 0 <= i < s.len() && s[i] == y;
        if i > 0 {
            assert(rank_le(s[0], s[i]));
        }
        assert(x == y);
        let s2 = s.remove(0);
        let t2 = t.remove(0);
        assert(s2.to_multiset() == s.to_multiset().remove(x));
        assert(t2.to_multiset() == t.to_multiset().remove(y));
        assert forall|p: int, q: int| 0 <= p < q < s2.len() implies rank_le(#[trigger] s2[p], #[trigger] s2[q]) by {
            assert(s2[p] == s[p + 1]);
            assert(s2[q] == s[q + 1]);
        }
        assert forall|p: int, q: int| 0 <= p < q < t2.len() implies rank_le(#[trigger] t2[p], #[trigger] t2[q]) by {
            assert(t2[p] == t[p + 1]);
            assert(t2[q] == t[q + 1]);
        }
        lemma_sorted_unique(s2, t2);
        assert(s =~= t) by {
            assert forall|k: int| 0 <= k < s.len() implies s[k] == t[k] by {
                if k > 0 {
                    assert(s[k] == s2[k - 1]);
                    assert(t[k] == t2[k - 1]);
                }
            }
        }
    }
}

/// A rank-ordered rearrangement of `s` is its rank order.
pub proof fn lemma_rank_order(s: Seq<Rank>, t: Seq<Rank>)
    requires
        rank_sorted(t),
        t.to_multiset() == s.to_multiset(),
    ensures
        rank_order(s) == t,
{
    let u = rank_order(s);
    assert(rank_sorted(u) && u.to_multiset() == s.to_multiset());
    lemma_sorted_unique(u, t);
}

} // verus!
