//! Label equivalences as a forest of parent links: a label's representative is
//! the root reached by following parents.  The proofs carry a ghost rank that
//! strictly grows along every parent link, which bounds every walk to a root.

use vstd::prelude::*;

verus! {

/// Parent links in range and ranks growing strictly along every link, all ranks
/// at most `bound`.
pub open spec fn uf_wf(map: Seq<u32>, rank: Seq<nat>, bound: nat) -> bool {
    &&& map.len() == rank.len()
    &&& forall|a: int| 0 <= a < map.len() ==> (#[trigger] map[a] as int) < map.len()
    &&& forall|a: int| 0 <= a < map.len() ==> #[trigger] rank[a] <= bound
    &&& forall|a: int| 0 <= a < map.len() && map[a] as int != a ==> rank[map[a] as int] > #[trigger] rank[a]
}

/// The root reached from `a` by following parent links.
pub open spec fn uf_root(map: Seq<u32>, rank: Seq<nat>, bound: nat, a: int) -> int
    decreases bound - rank[a],
    when uf_wf(map, rank, bound) && 0 <= a < map.len()
{
    if map[a] as int == a {
        a
    } else {
        uf_root(map, rank, bound, map[a] as int)
    }
}

/// Roots are in range and are their own parents.
pub proof fn lemma_root_is_root(map: Seq<u32>, rank: Seq<nat>, bound: nat, a: int)
    requires
        uf_wf(map, rank, bound),
        0 <= a < map.len(),
    ensures
        0 <= uf_root(map, rank, bound, a) < map.len(),
        map[uf_root(map, rank, bound, a)] as int == uf_root(map, rank, bound, a),
        uf_root(map, rank, bound, map[a] as int) == uf_root(map, rank, bound, a),
    decreases bound - rank[a],
{
    if map[a] as int != a {
        lemma_root_is_root(map, rank, bound, map[a] as int);
    }
}

/// Every label is its own root.
pub proof fn lemma_identity_roots(map: Seq<u32>, rank: Seq<nat>, a: int)
    requires
        forall|i: int| 0 <= i < map.len() ==> #[trigger] map[i] as int == i,
        rank.len() == map.len(),
        forall|i: int| 0 <= i < rank.len() ==> #[trigger] rank[i] == 0,
        0 <= a < map.len(),
    ensures
        uf_wf(map, rank, 0),
        uf_root(map, rank, 0, a) == a,
{
}

/// The parent array after linking root `r2` under root `r1`.
pub open spec fn link_map(map: Seq<u32>, r1: int, r2: int) -> Seq<u32> {
    map.update(r2, r1 as u32)
}

/// Ranks after linking root `r2` under root `r1`.
pub open spec fn link_rank(rank: Seq<nat>, r1: int, r2: int) -> Seq<nat> {
    rank.update(r1, if rank[r1] > rank[r2] { rank[r1] } else { rank[r2] + 1 })
}

/// Linking root `r2` under root `r1` keeps the forest well formed and moves
/// exactly the labels whose root was `r2` over to `r1`.
pub proof fn lemma_link(map: Seq<u32>, rank: Seq<nat>, bound: nat, r1: int, r2: int, a: int)
    requires
        uf_wf(map, rank, bound),
        0 <= r1 < map.len(),
        0 <= r2 < map.len(),
        map[r1] as int == r1,
        map[r2] as int == r2,
        r1 != r2,
        0 <= a < map.len(),
    ensures
        uf_wf(link_map(map, r1, r2), link_rank(rank, r1, r2), bound + 1),
        uf_root(link_map(map, r1, r2), link_rank(rank, r1, r2), bound + 1, a) == (if uf_root(map, rank, bound, a) == r2 {
            r1
        } else {
            uf_root(map, rank, bound, a)
        }),
    decreases bound - rank[a],
{
    let m2 = link_map(map, r1, r2);
    let k2 = link_rank(rank, r1, r2);
    assert(uf_wf(m2, k2, bound + 1)) by {
        assert forall|b: int| 0 <= b < m2.len() && m2[b] as int != b implies k2[m2[b] as int] > #[trigger] k2[b] by {
            if b == r2 {
            } else if b == r1 {
            } else if m2[b] as int == r1 {
            } else {
            }
        }
        assert forall|b: int| 0 <= b < m2.len() implies (#[trigger] m2[b] as int) < m2.len() by {
        }
    }
    if map[a] as int == a {
        if a == r2 {
            assert(m2[r1] as int == r1);
            assert(uf_root(m2, k2, bound + 1, r1) == r1);
        }
    } else {
        lemma_link(map, rank, bound, r1, r2, map[a] as int);
    }
}

/// The label reached from `a` after following `n` parent links.
pub open spec fn follow(map: Seq<u32>, a: int, n: nat) -> int
    decreases n,
{
    if n == 0 {
        a
    } else {
        map[follow(map, a, (n - 1) as nat)] as int
    }
}

/// Label `a` is its own parent.
pub open spec fn is_root(map: Seq<u32>, a: int) -> bool {
    map[a] as int == a
}

/// Following parent links from `a` stays within the map and meets its first
/// root after `n` links.
pub open spec fn reaches_root_in(map: Seq<u32>, a: int, n: nat) -> bool {
    &&& forall|k: nat| k <= n ==> 0 <= #[trigger] follow(map, a, k) < map.len()
    &&& is_root(map, follow(map, a, n))
    &&& forall|k: nat| k < n ==> !is_root(map, #[trigger] follow(map, a, k))
}

/// One link, then `n` more, is `n + 1` links.
proof fn lemma_follow_shift(map: Seq<u32>, a: int, n: nat)
    ensures
        follow(map, a, n + 1) == follow(map, map[a] as int, n),
    decreases n,
{
    assert(follow(map, a, n + 1) == map[follow(map, a, n)] as int);
    if n > 0 {
        lemma_follow_shift(map, a, (n - 1) as nat);
        assert(follow(map, map[a] as int, n) == map[follow(map, map[a] as int, (n - 1) as nat)] as int);
    } else {
        assert(follow(map, a, 0) == a);
        assert(follow(map, map[a] as int, 0) == map[a] as int);
    }
}

/// In a well-formed forest, the walk from any label meets a root, and that
/// root is `uf_root`.
pub proof fn lemma_uf_chain(map: Seq<u32>, rank: Seq<nat>, bound: nat, a: int) -> (n: nat)
    requires
        uf_wf(map, rank, bound),
        0 <= a < map.len(),
    ensures
        reaches_root_in(map, a, n),
        follow(map, a, n) == uf_root(map, rank, bound, a),
    decreases bound - rank[a],
{
    if map[a] as int == a {
        assert(follow(map, a, 0) == a);
        assert forall|k: nat| k <= 0 implies 0 <= #[trigger] follow(map, a, k) < map.len() by {}
        0
    } else {
        let p = map[a] as int;
        let m = lemma_uf_chain(map, rank, bound, p);
        assert forall|k: nat| k <= m + 1 implies 0 <= #[trigger] follow(map, a, k) < map.len() by {
            if k > 0 {
                lemma_follow_shift(map, a, (k - 1) as nat);
                assert(follow(map, p, (k - 1) as nat) == follow(map, a, k));
            }
        }
        assert forall|k: nat| k < m + 1 implies !is_root(map, #[trigger] follow(map, a, k)) by {
            if k > 0 {
                lemma_follow_shift(map, a, (k - 1) as nat);
                assert(follow(map, p, (k - 1) as nat) == follow(map, a, k));
            }
        }
        lemma_follow_shift(map, a, m);
        m + 1
    }
}

/// Follows parent links from `label` until it meets a label that is its own
/// parent, and returns that label.
pub fn find_root(label_map: &Vec<u32>, label: u32) -> (r: u32)
    requires
        exists|n: nat| reaches_root_in(label_map@, label as int, n),
    ensures
        forall|n: nat| reaches_root_in(label_map@, label as int, n) ==> r as int == follow(label_map@, label as int, n),
{
    let ghost m = label_map@;
    let ghost n0 = choose|n: nat| reaches_root_in(m, label as int, n);
    let mut current = label;
    let ghost mut k: nat = 0;
    assert(follow(m, label as int, 0) == label as int);
    while label_map[current as usize] != current
        invariant
            m == label_map@,
            reaches_root_in(m, label as int, n0),
            k <= n0,
            current as int == follow(m, label as int, k),
            forall|j: nat| j < k ==> !is_root(m, #[trigger] follow(m, label as int, j)),
        decreases n0 - k,
    {
        proof {
            assert(0 <= follow(m, label as int, k) < m.len());
        }
        current = label_map[current as usize];
        proof {
            assert(!is_root(m, follow(m, label as int, k)));
            assert(k != n0);
            assert(follow(m, label as int, k + 1) == current as int);
            k = k + 1;
        }
    }
    proof {
        assert(0 <= follow(m, label as int, k) < m.len());
        assert forall|n: nat| reaches_root_in(m, label as int, n) implies current as int == follow(m, label as int, n) by {
            if n < k {
                assert(!is_root(m, follow(m, label as int, n)));
            } else if n > k {
                assert(!is_root(m, follow(m, label as int, k)));
            }
        }
    }
    current
}

} // verus!
