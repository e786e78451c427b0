//! Edge extraction for each group: a Kruskal sweep over the group's pairs,
//! or a plan of oracle queries over sliding windows of the group's path.
use vstd::prelude::*;
use crate::geometry::{coords_ok, sq_dist, squared_distance};
use crate::score::{ids_below, is_tour, view_groups};
use crate::union_find::UnionFind;

verus! {

/// A candidate edge between positions `a < b` of a group, with its squared length.
pub type Pair = (u128, usize, usize);

/// The list holds the pair of positions `(a, b)`.
pub open spec fn has_pair(pairs: Seq<Pair>, a: int, b: int) -> bool {
    exists|k: int| 0 <= k < pairs.len() && #[trigger] pairs[k].1 == a && pairs[k].2 == b
}

/// Each pair lists the earlier position first.
pub open spec fn pairs_ordered(pairs: Seq<Pair>) -> bool {
    forall|k: int| 0 <= k < pairs.len() ==> (#[trigger] pairs[k]).1 < pairs[k].2
}

/// All positions in the list are below `m`.
pub open spec fn pairs_below(pairs: Seq<Pair>, m: int) -> bool {
    forall|k: int| 0 <= k < pairs.len() ==> #[trigger] pairs[k].1 < m && pairs[k].2 < m
}

/// Sorts candidate edges by squared length, keeping equal ones in order.
fn sort_pairs(pairs: &mut Vec<Pair>)
    ensures
        final(pairs)@.len() == old(pairs)@.len(),
        forall|a: int, b: int|
            0 <= a < b < final(pairs)@.len() ==> #[trigger] final(pairs)@[a].0
                <= #[trigger] final(pairs)@[b].0,
        forall|m: int| pairs_below(old(pairs)@, m) ==> pairs_below(final(pairs)@, m),
        forall|a: int, b: int| has_pair(old(pairs)@, a, b) ==> #[trigger] has_pair(final(pairs)@, a, b),
        forall|k: int| 0 <= k < final(pairs)@.len() ==> old(pairs)@.contains(#[trigger] final(pairs)@[k]),
{
    let ghost pairs0 = pairs@;
    let n = pairs.len();
    if n == 0 {
        return;
    }
    assert forall|k: int| 0 <= k < n implies pairs0.contains(#[trigger] pairs@[k]) by {
        assert(pairs0[k] == pairs@[k]);
    }
    let mut i: usize = 1;
    while i < n
        invariant
            n == pairs@.len(),
            1 <= i <= n,
            forall|m: int| pairs_below(pairs0, m) ==> pairs_below(pairs@, m),
            forall|a: int, b: int| has_pair(pairs0, a, b) ==> #[trigger] has_pair(pairs@, a, b),
            forall|k: int| 0 <= k < n ==> pairs0.contains(#[trigger] pairs@[k]),
            pairs0.len() == n,
            forall|a: int, b: int| 0 <= a < b < i ==> #[trigger] pairs@[a].0 <= #[trigger] pairs@[b].0,
        decreases n - i,
    {
        let mut j: usize = i;
        while j > 0 && pairs[j - 1].0 > pairs[j].0
            invariant
                n == pairs@.len(),
                0 <= j <= i < n,
                forall|m: int| pairs_below(pairs0, m) ==> pairs_below(pairs@, m),
                forall|a: int, b: int| has_pair(pairs0, a, b) ==> #[trigger] has_pair(pairs@, a, b),
                forall|k: int| 0 <= k < n ==> pairs0.contains(#[trigger] pairs@[k]),
                pairs0.len() == n,
                forall|a: int, b: int|
                    0 <= a < b <= i && a != j && b != j ==> #[trigger] pairs@[a].0 <= #[trigger] pairs@[b].0,
                forall|b: int| j < b <= i ==> pairs@[j as int].0 < #[trigger] pairs@[b].0,
                0 < j < i ==> pairs@[j - 1].0 <= pairs@[j + 1].0,
            decreases j,
        {
            let ghost q = pairs@;
            let c = pairs[j];
            let d = pairs[j - 1];
            pairs.set(j, d);
            pairs.set(j - 1, c);
            proof {
                assert forall|m: int| pairs_below(q, m) implies pairs_below(pairs@, m) by {
                    assert forall|k: int| 0 <= k < pairs@.len() implies #[trigger] pairs@[k].1 < m
                        && pairs@[k].2 < m by {
                        let pk = if k == j { j - 1 } else if k == j - 1 { j as int } else { k };
                        assert(pairs@[k] == q[pk]);
                        assert(q[pk].1 < m && q[pk].2 < m);
                    }
                }
                assert forall|k: int| 0 <= k < n implies pairs0.contains(#[trigger] pairs@[k]) by {
                    let pk = if k == j { j - 1 } else if k == j - 1 { j as int } else { k };
                    assert(pairs@[k] == q[pk]);
                    assert(pairs0.contains(q[pk]));
                }
                assert forall|a: int, b: int| has_pair(q, a, b) implies #[trigger] has_pair(pairs@, a, b) by {
                    let k = choose|k: int| 0 <= k < q.len() && #[trigger] q[k].1 == a && q[k].2 == b;
                    let pk = if k == j { j - 1 } else if k == j - 1 { j as int } else { k };
                    assert(pairs@[pk] == q[k]);
                }
            }
            j = j - 1;
        }
        i = i + 1;
    }
}

/// All pairs of positions `a < b` of a group of `m` cities, each with its
/// squared length.
fn group_pairs(x: &[u32], y: &[u32], group: &Vec<usize>) -> (r: Vec<Pair>)
    requires
        coords_ok(x@, y@),
        forall|k: int| 0 <= k < group@.len() ==> #[trigger] group@[k] < x@.len(),
    ensures
        pairs_below(r@, group@.len() as int),
        pairs_ordered(r@),
        forall|a: int, b: int| 0 <= a < b < group@.len() ==> #[trigger] has_pair(r@, a, b),
        forall|k: int|
            0 <= k < r@.len() ==> (#[trigger] r@[k]).0 == sq_dist(
                x@,
                y@,
                group@[r@[k].1 as int] as int,
                group@[r@[k].2 as int] as int,
            ),
{
    let m = group.len();
    let mut pairs: Vec<Pair> = Vec::new();
    let mut a: usize = 0;
    while a < m
        invariant
            coords_ok(x@, y@),
            m == group@.len(),
            forall|k: int| 0 <= k < group@.len() ==> #[trigger] group@[k] < x@.len(),
            a <= m,
            pairs_below(pairs@, m as int),
            pairs_ordered(pairs@),
            forall|p: int, q: int| 0 <= p < a && p < q < m ==> #[trigger] has_pair(pairs@, p, q),
            forall|k: int|
                0 <= k < pairs@.len() ==> (#[trigger] pairs@[k]).0 == sq_dist(
                    x@,
                    y@,
                    group@[pairs@[k].1 as int] as int,
                    group@[pairs@[k].2 as int] as int,
                ),
        decreases m - a,
    {
        let mut b: usize = a + 1;
        while b < m
            invariant
                coords_ok(x@, y@),
                m == group@.len(),
                forall|k: int| 0 <= k < group@.len() ==> #[trigger] group@[k] < x@.len(),
                a < m,
                a + 1 <= b <= m,
                pairs_below(pairs@, m as int),
                pairs_ordered(pairs@),
                forall|p: int, q: int| 0 <= p < a && p < q < m ==> #[trigger] has_pair(pairs@, p, q),
                forall|q: int| a < q < b ==> #[trigger] has_pair(pairs@, a as int, q),
                forall|k: int|
                    0 <= k < pairs@.len() ==> (#[trigger] pairs@[k]).0 == sq_dist(
                        x@,
                        y@,
                        group@[pairs@[k].1 as int] as int,
                        group@[pairs@[k].2 as int] as int,
                    ),
            decreases m - b,
        {
            let ghost q0 = pairs@;
            let d = squared_distance(x, y, group[a], group[b]);
            pairs.push((d, a, b));
            proof {
                assert forall|p: int, q: int| has_pair(q0, p, q) implies #[trigger] has_pair(pairs@, p, q) by {
                    let k = choose|k: int| 0 <= k < q0.len() && #[trigger] q0[k].1 == p && q0[k].2 == q;
                    assert(pairs@[k] == q0[k]);
                }
                assert(pairs@[q0.len() as int] == (d, a, b));
                let kk = q0.len() as int;
                assert(pairs@[kk].1 == a as int && pairs@[kk].2 == b as int);
                assert(has_pair(pairs@, a as int, b as int));
                assert forall|q: int| a < q < b + 1 implies #[trigger] has_pair(pairs@, a as int, q) by {
                    if q < b {
                        assert(has_pair(q0, a as int, q));
                    }
                }
            }
            b = b + 1;
        }
        a = a + 1;
    }
    pairs
}

/// Labels of the cities `0..n` after joining the endpoints of the first `k`
/// edges one at a time: two cities share a label exactly when those edges
/// connect them.
pub open spec fn replay(n: nat, edges: Seq<(usize, usize)>, k: int) -> Seq<int>
    decreases k,
{
    if k <= 0 {
        Seq::new(n, |v: int| v)
    } else {
        let l = replay(n, edges, k - 1);
        let a = edges[k - 1].0 as int;
        let b = edges[k - 1].1 as int;
        Seq::new(n, |v: int| if l[v] == l[a] { l[b] } else { l[v] })
    }
}

/// No edge joins two cities that the edges before it already connect.
pub open spec fn acyclic(n: nat, edges: Seq<(usize, usize)>) -> bool {
    forall|k: int|
        0 <= k < edges.len() ==> #[trigger] replay(n, edges, k)[edges[k].0 as int] != replay(
            n,
            edges,
            k,
        )[edges[k].1 as int]
}

/// The edges connect all cities of the group.
pub open spec fn connects(n: nat, edges: Seq<(usize, usize)>, group: Seq<usize>) -> bool {
    forall|p: int|
        0 <= p < group.len() ==> #[trigger] replay(n, edges, edges.len() as int)[group[p] as int]
            == replay(n, edges, edges.len() as int)[group[0] as int]
}

/// Kruskal's rule: each edge is no longer than any pair of the group's
/// cities that the edges before it leave apart.
pub open spec fn kruskal(n: nat, x: Seq<u32>, y: Seq<u32>, edges: Seq<(usize, usize)>, group: Seq<usize>) -> bool {
    forall|k: int, a: int, b: int|
        0 <= k < edges.len() && 0 <= a < b < group.len() && #[trigger] replay(n, edges, k)[group[a] as int]
            != #[trigger] replay(n, edges, k)[group[b] as int] ==> sq_dist(
            x,
            y,
            edges[k].0 as int,
            edges[k].1 as int,
        ) <= sq_dist(x, y, group[a] as int, group[b] as int)
}

/// Each edge joins the cities at two positions `a < b` of the group, the
/// earlier one first.
pub open spec fn oriented(edges: Seq<(usize, usize)>, group: Seq<usize>) -> bool {
    forall|e: int|
        0 <= e < edges.len() ==> exists|a: int, b: int|
            0 <= a < b < group.len() && #[trigger] edges[e] == (group[a], group[b])
}

/// The edges come in order of nondecreasing length.
pub open spec fn by_length(x: Seq<u32>, y: Seq<u32>, edges: Seq<(usize, usize)>) -> bool {
    forall|e1: int, e2: int|
        0 <= e1 < e2 < edges.len() ==> sq_dist(x, y, (#[trigger] edges[e1]).0 as int, edges[e1].1 as int)
            <= sq_dist(x, y, (#[trigger] edges[e2]).0 as int, edges[e2].1 as int)
}

proof fn lemma_replay_prefix(n: nat, e1: Seq<(usize, usize)>, e2: Seq<(usize, usize)>, k: int)
    requires
        0 <= k <= e1.len(),
        k <= e2.len(),
        forall|i: int| 0 <= i < k ==> e1[i] == e2[i],
    ensures
        replay(n, e1, k) == replay(n, e2, k),
    decreases k,
{
    if k > 0 {
        lemma_replay_prefix(n, e1, e2, k - 1);
    }
}

/// Spanning-tree edges of one group by a Kruskal sweep: the pairs in order
/// of increasing length, each kept when it joins two separate parts.
fn group_edges_by_uf(x: &[u32], y: &[u32], group: &Vec<usize>) -> (r: Vec<(usize, usize)>)
    requires
        coords_ok(x@, y@),
        forall|k: int| 0 <= k < group@.len() ==> #[trigger] group@[k] < x@.len(),
        group@.no_duplicates(),
    ensures
        acyclic(x@.len() as nat, r@),
        connects(x@.len() as nat, r@, group@),
        by_length(x@, y@, r@),
        kruskal(x@.len() as nat, x@, y@, r@, group@),
        oriented(r@, group@),
        r@.len() == if group@.len() == 0 {
            0
        } else {
            group@.len() - 1
        },
        forall|e: int|
            0 <= e < r@.len() ==> group@.contains((#[trigger] r@[e]).0) && group@.contains(r@[e].1),
{
    let m = group.len();
    let mut pairs = group_pairs(x, y, group);
    let ghost unsorted = pairs@;
    sort_pairs(&mut pairs);
    proof {
        assert forall|q: int| 0 <= q < pairs@.len() implies (#[trigger] pairs@[q]).1 < pairs@[q].2 by {
            assert(unsorted.contains(pairs@[q]));
            let r = choose|r: int| 0 <= r < unsorted.len() && unsorted[r] == pairs@[q];
            assert(unsorted[r] == pairs@[q]);
        }
        assert forall|q: int| 0 <= q < pairs@.len() implies (#[trigger] pairs@[q]).0 == sq_dist(
            x@,
            y@,
            group@[pairs@[q].1 as int] as int,
            group@[pairs@[q].2 as int] as int,
        ) by {
            assert(unsorted.contains(pairs@[q]));
            let r = choose|r: int| 0 <= r < unsorted.len() && unsorted[r] == pairs@[q];
            assert(unsorted[r] == pairs@[q]);
        }
    }
    let mut uf = UnionFind::new(m);
    let mut edges: Vec<(usize, usize)> = Vec::new();
    let ghost n = x@.len() as nat;
    proof {
        let l0 = replay(n, edges@, 0);
        assert forall|p: int, q: int| 0 <= p < m && 0 <= q < m implies (uf.find(p) == uf.find(q)) == (
        #[trigger] replay(n, edges@, edges@.len() as int)[group@[p] as int] == #[trigger] replay(
            n,
            edges@,
            edges@.len() as int,
        )[group@[q] as int]) by {
            assert(uf.find(p) == p && uf.find(q) == q);
            assert(l0[group@[p] as int] == group@[p] as int);
            assert(l0[group@[q] as int] == group@[q] as int);
        }
    }
    let mut k: usize = 0;
    while k < pairs.len()
        invariant
            m == group@.len(),
            uf.wf(),
            uf.size_spec() == m,
            pairs_below(pairs@, m as int),
            k <= pairs@.len(),
            edges@.len() + uf.num_sets() == m,
            forall|q: int|
                0 <= q < k ==> uf.find(#[trigger] pairs@[q].1 as int) == uf.find(pairs@[q].2 as int),
            forall|a: int, b: int| 0 <= a < b < m ==> #[trigger] has_pair(pairs@, a, b),
            forall|e: int|
                0 <= e < edges@.len() ==> group@.contains((#[trigger] edges@[e]).0) && group@.contains(
                    edges@[e].1,
                ),
            forall|e: int| 0 <= e < edges@.len() ==> (#[trigger] edges@[e]).0 < x@.len() && edges@[e].1 < x@.len(),
            forall|p: int, q: int|
                0 <= p < m && 0 <= q < m ==> (uf.find(p) == uf.find(q)) == (#[trigger] replay(
                    x@.len() as nat,
                    edges@,
                    edges@.len() as int,
                )[group@[p] as int] == #[trigger] replay(
                    x@.len() as nat,
                    edges@,
                    edges@.len() as int,
                )[group@[q] as int]),
            acyclic(x@.len() as nat, edges@),
            forall|k: int| 0 <= k < group@.len() ==> #[trigger] group@[k] < x@.len(),
            group@.no_duplicates(),
            coords_ok(x@, y@),
            n == x@.len(),
            pairs_ordered(pairs@),
            kruskal(n, x@, y@, edges@, group@),
            oriented(edges@, group@),
            forall|q: int|
                0 <= q < pairs@.len() ==> (#[trigger] pairs@[q]).0 == sq_dist(
                    x@,
                    y@,
                    group@[pairs@[q].1 as int] as int,
                    group@[pairs@[q].2 as int] as int,
                ),
            forall|a: int, b: int|
                0 <= a < b < pairs@.len() ==> #[trigger] pairs@[a].0 <= #[trigger] pairs@[b].0,
            forall|e: int, q: int|
                0 <= e < edges@.len() && k <= q < pairs@.len() ==> sq_dist(
                    x@,
                    y@,
                    (#[trigger] edges@[e]).0 as int,
                    edges@[e].1 as int,
                ) <= (#[trigger] pairs@[q]).0,
            forall|e1: int, e2: int|
                0 <= e1 < e2 < edges@.len() ==> sq_dist(x@, y@, (#[trigger] edges@[e1]).0 as int, edges@[e1].1 as int)
                    <= sq_dist(x@, y@, (#[trigger] edges@[e2]).0 as int, edges@[e2].1 as int),
        decreases pairs@.len() - k,
    {
        let (_, a, b) = pairs[k];
        let ghost u0 = uf;
        if !uf.is_same_set(a, b) {
            let ghost u1 = uf;
            uf.unite(a, b);
            let ghost e0 = edges@;
            let ghost l_old = replay(n, e0, e0.len() as int);
            proof {
                assert(acyclic(n, e0));
                assert(kruskal(n, x@, y@, e0, group@));
                assert(oriented(e0, group@));
                assert((u0.find(a as int) == u0.find(b as int)) == (l_old[group@[a as int] as int]
                    == l_old[group@[b as int] as int]));
            }
            edges.push((group[a], group[b]));
            proof {
                let ca = group@[a as int] as int;
                let cb = group@[b as int] as int;
                lemma_replay_prefix(n, e0, edges@, e0.len() as int);
                let l_new = replay(n, edges@, edges@.len() as int);
                assert(edges@[e0.len() as int] == (group@[a as int], group@[b as int]));
                assert(l_new == Seq::new(
                    n,
                    |v: int|
                        if l_old[v] == l_old[ca] {
                            l_old[cb]
                        } else {
                            l_old[v]
                        },
                ));
                assert(u1.find(a as int) != u1.find(b as int));
                assert(l_old[ca] != l_old[cb]);
                assert forall|e: int| 0 <= e < edges@.len() implies exists|p: int, q: int|
                    0 <= p < q < group@.len() && #[trigger] edges@[e] == (group@[p], group@[q]) by {
                    if e < e0.len() {
                        assert(edges@[e] == e0[e]);
                    } else {
                        assert(edges@[e] == (group@[a as int], group@[b as int]));
                    }
                }
                assert forall|i: int, p: int, q: int|
                    0 <= i < edges@.len() && 0 <= p < q < group@.len() && #[trigger] replay(n, edges@, i)[group@[p] as int]
                        != #[trigger] replay(n, edges@, i)[group@[q] as int] implies sq_dist(
                        x@,
                        y@,
                        edges@[i].0 as int,
                        edges@[i].1 as int,
                    ) <= sq_dist(x@, y@, group@[p] as int, group@[q] as int) by {
                    lemma_replay_prefix(n, e0, edges@, i);
                    if i < e0.len() {
                        assert(edges@[i] == e0[i]);
                        assert(replay(n, e0, i)[group@[p] as int] != replay(n, e0, i)[group@[q] as int]);
                    } else {
                        assert(replay(n, edges@, i) == l_old);
                        assert((u0.find(p) == u0.find(q)) == (l_old[group@[p] as int] == l_old[group@[q] as int]));
                        assert(has_pair(pairs@, p, q));
                        let w = choose|w: int| 0 <= w < pairs@.len() && #[trigger] pairs@[w].1 == p && pairs@[w].2 == q;
                        if w < k {
                            assert(u0.find(pairs@[w].1 as int) == u0.find(pairs@[w].2 as int));
                        }
                        assert(pairs@[k as int].0 <= pairs@[w].0);
                        assert(pairs@[w].0 == sq_dist(x@, y@, group@[p] as int, group@[q] as int));
                        assert(pairs@[k as int].0 == sq_dist(x@, y@, group@[a as int] as int, group@[b as int] as int));
                    }
                }
                assert forall|i: int| 0 <= i < edges@.len() implies #[trigger] replay(n, edges@, i)[edges@[i].0 as int]
                    != replay(n, edges@, i)[edges@[i].1 as int] by {
                    lemma_replay_prefix(n, e0, edges@, i);
                    if i < e0.len() {
                        assert(edges@[i] == e0[i]);
                        assert(replay(n, e0, i)[e0[i].0 as int] != replay(n, e0, i)[e0[i].1 as int]);
                        assert(replay(n, e0, i) == replay(n, edges@, i));
                    }
                }
                assert forall|p: int, q: int| 0 <= p < m && 0 <= q < m implies (uf.find(p) == uf.find(q))
                    == (#[trigger] replay(n, edges@, edges@.len() as int)[group@[p] as int]
                    == #[trigger] replay(n, edges@, edges@.len() as int)[group@[q] as int]) by {
                    let gp = group@[p] as int;
                    let gq = group@[q] as int;
                    assert((u1.find(p) == u1.find(a as int)) == (l_old[gp] == l_old[ca]));
                    assert((u1.find(p) == u1.find(b as int)) == (l_old[gp] == l_old[cb]));
                    assert((u1.find(q) == u1.find(a as int)) == (l_old[gq] == l_old[ca]));
                    assert((u1.find(q) == u1.find(b as int)) == (l_old[gq] == l_old[cb]));
                    assert((u1.find(p) == u1.find(q)) == (l_old[gp] == l_old[gq]));
                    assert(uf.find(p) == if u1.find(p) == u1.find(a as int) || u1.find(p) == u1.find(b as int) {
                        uf.find(b as int)
                    } else {
                        u1.find(p)
                    });
                    assert(uf.find(q) == if u1.find(q) == u1.find(a as int) || u1.find(q) == u1.find(b as int) {
                        uf.find(b as int)
                    } else {
                        u1.find(q)
                    });
                    assert(l_new[gp] == if l_old[gp] == l_old[ca] { l_old[cb] } else { l_old[gp] });
                    assert(l_new[gq] == if l_old[gq] == l_old[ca] { l_old[cb] } else { l_old[gq] });
                }
                assert(group@.contains(group@[a as int]) && group@.contains(group@[b as int]));
                assert forall|e: int| 0 <= e < edges@.len() implies group@.contains(
                    (#[trigger] edges@[e]).0,
                ) && group@.contains(edges@[e].1) by {
                    if e < e0.len() {
                        assert(edges@[e] == e0[e]);
                    }
                }
                assert forall|q: int| 0 <= q < k + 1 implies uf.find(#[trigger] pairs@[q].1 as int)
                    == uf.find(pairs@[q].2 as int) by {
                    let u = pairs@[q].1 as int;
                    let v = pairs@[q].2 as int;
                    assert(uf.find(u) == if u1.find(u) == u1.find(a as int) || u1.find(u)
                        == u1.find(b as int) {
                        uf.find(b as int)
                    } else {
                        u1.find(u)
                    });
                    assert(uf.find(v) == if u1.find(v) == u1.find(a as int) || u1.find(v)
                        == u1.find(b as int) {
                        uf.find(b as int)
                    } else {
                        u1.find(v)
                    });
                    if q < k {
                        assert(u0.find(u) == u0.find(v));
                        assert(u1.find(u) == u0.find(u));
                        assert(u1.find(v) == u0.find(v));
                    }
                }
            }
        } else {
            proof {
                assert forall|p: int, q: int| 0 <= p < m && 0 <= q < m implies (uf.find(p) == uf.find(q))
                    == (#[trigger] replay(n, edges@, edges@.len() as int)[group@[p] as int]
                    == #[trigger] replay(n, edges@, edges@.len() as int)[group@[q] as int]) by {
                    assert(uf.find(p) == u0.find(p));
                    assert(uf.find(q) == u0.find(q));
                }
                assert forall|q: int| 0 <= q < k + 1 implies uf.find(#[trigger] pairs@[q].1 as int)
                    == uf.find(pairs@[q].2 as int) by {
                    let u = pairs@[q].1 as int;
                    let v = pairs@[q].2 as int;
                    assert(uf.find(u) == u0.find(u));
                    assert(uf.find(v) == u0.find(v));
                }
            }
        }
        k = k + 1;
    }
    if m > 0 {
        proof {
            assert forall|v: int| 0 <= v < m implies #[trigger] uf.find(v) == uf.find(0) by {
                if v > 0 {
                    assert(has_pair(pairs@, 0, v));
                    let q = choose|q: int| 0 <= q < pairs@.len() && #[trigger] pairs@[q].1 == 0 && pairs@[q].2 == v;
                    assert(uf.find(pairs@[q].1 as int) == uf.find(pairs@[q].2 as int));
                }
            }
            uf.lemma_one_set();
            let l = replay(n, edges@, edges@.len() as int);
            assert forall|p: int| 0 <= p < group@.len() implies #[trigger] l[group@[p] as int]
                == l[group@[0] as int] by {
                assert(uf.find(p) == uf.find(0));
            }
        }
    }
    edges
}

/// For each group, spanning-tree edges built from the midpoints alone by
/// Kruskal's rule: a group of `m > 0` cities gets `m - 1` edges between its
/// own cities, each no longer than any pair that the earlier edges leave
/// apart.
pub fn find_edges_by_uf(groups: &[Vec<usize>], x: &[u32], y: &[u32]) -> (r: Vec<Vec<(usize, usize)>>)
    requires
        coords_ok(x@, y@),
        is_tour(view_groups(groups@), x@.len() as nat),
    ensures
        forall|g: int| 0 <= g < r@.len() ==> acyclic(x@.len() as nat, #[trigger] r@[g]@),
        forall|g: int| 0 <= g < r@.len() ==> connects(x@.len() as nat, #[trigger] r@[g]@, groups@[g]@),
        forall|g: int| 0 <= g < r@.len() ==> by_length(x@, y@, #[trigger] r@[g]@),
        forall|g: int| 0 <= g < r@.len() ==> kruskal(x@.len() as nat, x@, y@, #[trigger] r@[g]@, groups@[g]@),
        forall|g: int| 0 <= g < r@.len() ==> oriented(#[trigger] r@[g]@, groups@[g]@),
        r@.len() == groups@.len(),
        forall|g: int|
            0 <= g < r@.len() ==> (#[trigger] r@[g])@.len() == if groups@[g]@.len() == 0 {
                0
            } else {
                groups@[g]@.len() - 1
            },
        forall|g: int, e: int|
            0 <= g < r@.len() && 0 <= e < r@[g]@.len() ==> groups@[g]@.contains(
                (#[trigger] r@[g]@[e]).0,
            ) && groups@[g]@.contains(r@[g]@[e].1),
{
    let mut edges: Vec<Vec<(usize, usize)>> = Vec::new();
    let mut g: usize = 0;
    while g < groups.len()
        invariant
            coords_ok(x@, y@),
            is_tour(view_groups(groups@), x@.len() as nat),
            g <= groups@.len(),
            edges@.len() == g,
            forall|h: int| 0 <= h < g ==> acyclic(x@.len() as nat, #[trigger] edges@[h]@),
            forall|h: int| 0 <= h < g ==> connects(x@.len() as nat, #[trigger] edges@[h]@, groups@[h]@),
            forall|h: int| 0 <= h < g ==> by_length(x@, y@, #[trigger] edges@[h]@),
            forall|h: int| 0 <= h < g ==> kruskal(x@.len() as nat, x@, y@, #[trigger] edges@[h]@, groups@[h]@),
            forall|h: int| 0 <= h < g ==> oriented(#[trigger] edges@[h]@, groups@[h]@),
            forall|h: int|
                0 <= h < g ==> (#[trigger] edges@[h])@.len() == if groups@[h]@.len() == 0 {
                    0
                } else {
                    groups@[h]@.len() - 1
                },
            forall|h: int, e: int|
                0 <= h < g && 0 <= e < edges@[h]@.len() ==> groups@[h]@.contains(
                    (#[trigger] edges@[h]@[e]).0,
                ) && groups@[h]@.contains(edges@[h]@[e].1),
        decreases groups@.len() - g,
    {
        proof {
            let t = view_groups(groups@);
            assert forall|k: int| 0 <= k < groups@[g as int]@.len() implies #[trigger] groups@[g as int]@[k]
                < x@.len() by {
                assert(t[g as int][k] == groups@[g as int]@[k]);
            }
            assert forall|a: int, b: int| 0 <= a < b < groups@[g as int]@.len() implies groups@[g as int]@[a]
                != groups@[g as int]@[b] by {
                assert(t[g as int][a] == groups@[g as int]@[a]);
                assert(t[g as int][b] == groups@[g as int]@[b]);
            }
        }
        let ge = group_edges_by_uf(x, y, &groups[g]);
        edges.push(ge);
        g = g + 1;
    }
    edges
}

/// One step of the oracle strategy over a group's path, by positions.
#[derive(PartialEq, Eq, Structural, Debug, Clone, Copy)]
pub enum OracleStep {
    /// Ask the oracle about the cities at positions `start..end`; it answers
    /// with `end - start - 1` edges.
    Query(usize, usize),
    /// Emit the edge between the cities at positions `at` and `at + 1`
    /// without asking.
    Direct(usize),
}

/// The steps from position `i` on, for a group of `m` cities and windows of
/// at most `l` cities: a window of up to `l` cities while three or more
/// remain, the next window starting on the last city of this one; a direct
/// edge when two remain.
pub open spec fn plan(m: int, l: int, i: int) -> Seq<OracleStep>
    decreases m - i,
{
    if l < 2 || i + 1 >= m || i < 0 {
        seq![]
    } else if i + 2 < m {
        let end = if m < i + l { m } else { i + l };
        let next = if m < i + l - 1 { m } else { i + l - 1 };
        seq![OracleStep::Query(i as usize, end as usize)] + plan(m, l, next)
    } else {
        seq![OracleStep::Direct(i as usize)] + plan(m, l, i + 2)
    }
}

/// Number of edges that a list of steps yields.
pub open spec fn edges_yielded(s: Seq<OracleStep>) -> int
    decreases s.len(),
{
    if s.len() == 0 {
        0
    } else {
        edges_yielded(s.drop_first()) + match s[0] {
            OracleStep::Query(a, b) => b - a - 1,
            OracleStep::Direct(_) => 1,
        }
    }
}

/// Number of queries in a list of steps.
pub open spec fn queries(s: Seq<OracleStep>) -> int
    decreases s.len(),
{
    if s.len() == 0 {
        0
    } else {
        queries(s.drop_first()) + if s[0] is Query {
            1int
        } else {
            0
        }
    }
}

/// The oracle plan of a group of `m >= 2` cities with windows of at most
/// `l >= 3` cities yields exactly `m - 1` edges; it asks
/// `ceil((m - 2) / (l - 1))` queries, each about between 3 and `l` cities
/// that stand in the group.
pub proof fn lemma_plan_counts(m: int, l: int, i: int)
    requires
        l >= 3,
        0 <= i <= m - 2,
        m <= usize::MAX,
    ensures
        edges_yielded(plan(m, l, i)) == m - 1 - i,
        queries(plan(m, l, i)) == (m - 2 - i + l - 2) / (l - 1),
        forall|k: int| 0 <= k < plan(m, l, i).len() ==> match #[trigger] plan(m, l, i)[k] {
            OracleStep::Query(a, b) => i <= a && a + 3 <= b && b <= a + l && b <= m,
            OracleStep::Direct(a) => i <= a && a + 2 == m,
        },
    decreases m - i,
{
    let s = plan(m, l, i);
    if i + 2 < m {
        let end = if m < i + l { m } else { i + l };
        let next = if m < i + l - 1 { m } else { i + l - 1 };
        assert(s.drop_first() == plan(m, l, next));
        assert(s[0] == OracleStep::Query(i as usize, end as usize));
        assert(edges_yielded(s) == edges_yielded(s.drop_first()) + (end - i - 1));
        assert(queries(s) == queries(s.drop_first()) + 1);
        if next <= m - 2 {
            lemma_plan_counts(m, l, next);
            assert((m - 2 - i + l - 2) / (l - 1) == 1 + (m - 2 - next + l - 2) / (l - 1)) by {
                assert(m - 2 - i + l - 2 == (m - 2 - next + l - 2) + (l - 1));
                vstd::arithmetic::div_mod::lemma_div_plus_one(m - 2 - next + l - 2, l - 1);
            }
        } else {
            assert(plan(m, l, next) == Seq::<OracleStep>::empty());
            assert((m - 2 - i + l - 2) / (l - 1) == 1) by {
                vstd::arithmetic::div_mod::lemma_div_plus_one(m - 2 - i - 1, l - 1);
                vstd::arithmetic::div_mod::lemma_basic_div(m - 2 - i - 1, l - 1);
            }
        }
        assert forall|k: int| 0 <= k < s.len() implies match #[trigger] s[k] {
            OracleStep::Query(a, b) => i <= a && a + 3 <= b && b <= a + l && b <= m,
            OracleStep::Direct(a) => i <= a && a + 2 == m,
        } by {
            if k > 0 {
                assert(s[k] == plan(m, l, next)[k - 1]);
            }
        }
    } else {
        assert(s.drop_first() == plan(m, l, i + 2));
        assert(plan(m, l, i + 2) == Seq::<OracleStep>::empty());
        assert(s[0] == OracleStep::Direct(i as usize));
        assert(edges_yielded(s) == edges_yielded(s.drop_first()) + 1);
        assert(queries(s) == queries(s.drop_first()));
        assert(edges_yielded(Seq::<OracleStep>::empty()) == 0);
        assert(queries(Seq::<OracleStep>::empty()) == 0);
        assert((m - 2 - i + l - 2) / (l - 1) == 0) by {
            vstd::arithmetic::div_mod::lemma_basic_div(l - 2, l - 1);
        }
    }
}

/// The oracle plan of a group of `m` cities with windows of at most `l`.
pub fn oracle_plan(m: usize, l: usize) -> (r: Vec<OracleStep>)
    requires
        l >= 2,
    ensures
        r@ == plan(m as int, l as int, 0),
{
    let mut steps: Vec<OracleStep> = Vec::new();
    let mut i: usize = 0;
    while i < m && m - i > 1
        invariant
            l >= 2,
            i <= m,
            steps@ + plan(m as int, l as int, i as int) == plan(m as int, l as int, 0),
        decreases m - i,
    {
        let ghost s0 = steps@;
        let ghost i0 = i as int;
        if m - i > 2 {
            let end = if m - i < l { m } else { i + l };
            let next = if m - i < l - 1 { m } else { i + (l - 1) };
            steps.push(OracleStep::Query(i, end));
            i = next;
            assert(plan(m as int, l as int, i0) == seq![OracleStep::Query(i0 as usize, end)] + plan(
                m as int,
                l as int,
                i as int,
            ));
        } else {
            steps.push(OracleStep::Direct(i));
            i = i + 2;
            assert(plan(m as int, l as int, i0) == seq![OracleStep::Direct(i0 as usize)] + plan(
                m as int,
                l as int,
                i as int,
            ));
        }
        assert(steps@ + plan(m as int, l as int, i as int) =~= s0 + plan(m as int, l as int, i0));
    }
    assert(plan(m as int, l as int, i as int) == Seq::<OracleStep>::empty());
    assert(steps@ =~= steps@ + Seq::<OracleStep>::empty());
    steps
}

/// For each group, the oracle steps that connect consecutive cities of its
/// path: the queries to ask and the edges to emit directly.
pub fn find_edges_by_oracle(groups: &[Vec<usize>], l: usize) -> (r: Vec<Vec<OracleStep>>)
    requires
        l >= 2,
    ensures
        r@.len() == groups@.len(),
        forall|g: int|
            0 <= g < r@.len() ==> (#[trigger] r@[g])@ == plan(groups@[g]@.len() as int, l as int, 0),
{
    let mut plans: Vec<Vec<OracleStep>> = Vec::new();
    let mut g: usize = 0;
    while g < groups.len()
        invariant
            l >= 2,
            g <= groups@.len(),
            plans@.len() == g,
            forall|h: int|
                0 <= h < g ==> (#[trigger] plans@[h])@ == plan(groups@[h]@.len() as int, l as int, 0),
        decreases groups@.len() - g,
    {
        plans.push(oracle_plan(groups[g].len(), l));
        g = g + 1;
    }
    plans
}

/// The edges of one group from its plan and the oracle's replies, one reply
/// per query in order: each query's reply in turn, each direct step's edge
/// in its place.
pub open spec fn assembled(group: Seq<usize>, plan: Seq<OracleStep>, replies: Seq<Seq<(usize, usize)>>) -> Seq<
    (usize, usize),
>
    decreases plan.len(),
{
    if plan.len() == 0 {
        seq![]
    } else {
        match plan[0] {
            OracleStep::Query(_, _) => if replies.len() == 0 {
                seq![]
            } else {
                replies[0] + assembled(group, plan.drop_first(), replies.drop_first())
            },
            OracleStep::Direct(a) => seq![(group[a as int], group[a + 1])] + assembled(
                group,
                plan.drop_first(),
                replies,
            ),
        }
    }
}

/// Builds a group's edges from its oracle plan and the replies to its
/// queries.
pub fn oracle_edges(group: &Vec<usize>, plan: &Vec<OracleStep>, replies: &Vec<Vec<(usize, usize)>>) -> (r: Vec<
    (usize, usize),
>)
    requires
        forall|k: int|
            0 <= k < plan@.len() ==> match #[trigger] plan@[k] {
                OracleStep::Direct(a) => a + 1 < group@.len(),
                OracleStep::Query(_, _) => true,
            },
    ensures
        r@ == assembled(group@, plan@, Seq::new(replies@.len(), |q: int| replies@[q]@)),
{
    let ghost rs = Seq::new(replies@.len(), |q: int| replies@[q]@);
    let mut out: Vec<(usize, usize)> = Vec::new();
    let mut k: usize = 0;
    let mut q: usize = 0;
    assert(plan@.skip(0) =~= plan@);
    assert(rs.skip(0) =~= rs);
    assert(out@ + assembled(group@, plan@, rs) =~= assembled(group@, plan@, rs));
    while k < plan.len()
        invariant
            rs == Seq::new(replies@.len(), |q: int| replies@[q]@),
            forall|k: int|
                0 <= k < plan@.len() ==> match #[trigger] plan@[k] {
                    OracleStep::Direct(a) => a + 1 < group@.len(),
                    OracleStep::Query(_, _) => true,
                },
            k <= plan@.len(),
            q <= replies@.len(),
            out@ + assembled(group@, plan@.skip(k as int), rs.skip(q as int)) == assembled(
                group@,
                plan@,
                rs,
            ),
        decreases plan@.len() - k,
    {
        let ghost before = out@;
        let ghost q0 = q as int;
        let ghost rest = plan@.skip(k as int);
        assert(rest.drop_first() =~= plan@.skip(k + 1));
        assert(rest[0] == plan@[k as int]);
        match plan[k] {
            OracleStep::Query(_, _) => {
                if q == replies.len() {
                    assert(rs.skip(q as int).len() == 0);
                    assert(assembled(group@, rest, rs.skip(q as int)) =~= Seq::<(usize, usize)>::empty());
                    assert(out@ =~= assembled(group@, plan@, rs));
                    return out;
                }
                let reply = &replies[q];
                let mut e: usize = 0;
                while e < reply.len()
                    invariant
                        e <= reply@.len(),
                        out@ == before + reply@.take(e as int),
                    decreases reply@.len() - e,
                {
                    out.push(reply[e]);
                    assert(reply@.take(e + 1) =~= reply@.take(e as int).push(reply@[e as int]));
                    e = e + 1;
                }
                assert(reply@.take(e as int) =~= reply@);
                assert(rs.skip(q as int).drop_first() =~= rs.skip(q + 1));
                assert(rs.skip(q as int)[0] == reply@);
                q = q + 1;
            },
            OracleStep::Direct(a) => {
                let len = group.len();
                assert(a + 1 < len);
                out.push((group[a], group[a + 1]));
            },
        }
        assert(out@ + assembled(group@, plan@.skip(k + 1), rs.skip(q as int)) =~= before
            + assembled(group@, rest, rs.skip(q0)));
        k = k + 1;
    }
    assert(plan@.skip(k as int).len() == 0);
    assert(out@ =~= out@ + assembled(group@, plan@.skip(k as int), rs.skip(q as int)));
    out
}

} // verus!
