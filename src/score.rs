//! Path lengths of grouped tours, full and incremental.
use vstd::prelude::*;
use crate::geometry::{coords_ok, dist, distance, DIST_BOUND};
use crate::rng::{mix, step, Rng};

verus! {

/// Sum of the first `m` edges `p[e] -> p[e + 1]` of a path.
pub open spec fn edges_sum(x: Seq<u32>, y: Seq<u32>, p: Seq<usize>, m: int) -> nat
    decreases m,
{
    if m <= 0 {
        0
    } else {
        edges_sum(x, y, p, m - 1) + dist(x, y, p[m - 1] as int, p[m] as int)
    }
}

/// Length of the open path visiting `p` in order.
pub open spec fn path_len(x: Seq<u32>, y: Seq<u32>, p: Seq<usize>) -> nat {
    edges_sum(x, y, p, p.len() - 1)
}

/// The groups of a tour, as sequences of city ids.
pub open spec fn view_groups(gs: Seq<Vec<usize>>) -> Seq<Seq<usize>> {
    Seq::new(gs.len(), |g: int| gs[g]@)
}

/// Sum of the path lengths of all groups.
pub open spec fn total_len(x: Seq<u32>, y: Seq<u32>, t: Seq<Seq<usize>>) -> nat
    decreases t.len(),
{
    if t.len() == 0 {
        0
    } else {
        total_len(x, y, t.drop_last()) + path_len(x, y, t.last())
    }
}

/// Number of entries over all groups.
pub open spec fn count(t: Seq<Seq<usize>>) -> nat
    decreases t.len(),
{
    if t.len() == 0 {
        0
    } else {
        count(t.drop_last()) + t.last().len()
    }
}

/// Every entry of every group is a city id below `n`.
pub open spec fn ids_below(t: Seq<Seq<usize>>, n: nat) -> bool {
    forall|g: int, k: int| 0 <= g < t.len() && 0 <= k < t[g].len() ==> #[trigger] t[g][k] < n
}

/// The groups partition the cities `0..n`: each id below `n` stands in
/// exactly one position of one group, and no other entry exists.
pub open spec fn is_tour(t: Seq<Seq<usize>>, n: nat) -> bool {
    &&& count(t) == n
    &&& ids_below(t, n)
    &&& forall|g1: int, k1: int, g2: int, k2: int|
        0 <= g1 < t.len() && 0 <= k1 < t[g1].len() && 0 <= g2 < t.len() && 0 <= k2 < t[g2].len()
            && #[trigger] t[g1][k1] == #[trigger] t[g2][k2] ==> g1 == g2 && k1 == k2
    &&& forall|v: nat| v < n ==> #[trigger] holds_city(t, v)
}

/// Some group holds city `v`.
pub open spec fn holds_city(t: Seq<Seq<usize>>, v: nat) -> bool {
    exists|g: int, k: int| 0 <= g < t.len() && 0 <= k < t[g].len() && #[trigger] t[g][k] == v
}

/// The tour after the cities at `(i, ii)` and `(j, jj)` trade places.
pub open spec fn swap_cities(t: Seq<Seq<usize>>, i: int, ii: int, j: int, jj: int) -> Seq<
    Seq<usize>,
> {
    t.update(i, t[i].update(ii, t[j][jj])).update(j, t[j].update(jj, t[i][ii]))
}

proof fn lemma_edges_sum_bound(x: Seq<u32>, y: Seq<u32>, p: Seq<usize>, m: int)
    requires
        coords_ok(x, y),
        m < p.len(),
        forall|k: int| 0 <= k < p.len() ==> #[trigger] p[k] < x.len(),
    ensures
        m >= 0 ==> edges_sum(x, y, p, m) <= m * DIST_BOUND,
        m < 0 ==> edges_sum(x, y, p, m) == 0,
    decreases m,
{
    if m > 0 {
        lemma_edges_sum_bound(x, y, p, m - 1);
        crate::geometry::lemma_dist_bound(x, y, p[m - 1] as int, p[m] as int);
    }
}

/// Changing the entry at `k` touches only the edges on either side of it.
proof fn lemma_edges_sum_update(x: Seq<u32>, y: Seq<u32>, p: Seq<usize>, k: int, v: usize, m: int)
    requires
        0 <= k < p.len(),
        m < p.len(),
    ensures
        edges_sum(x, y, p.update(k, v), m) as int - edges_sum(x, y, p, m) as int == (if 1 <= k
            && k <= m {
            dist(x, y, p[k - 1] as int, v as int) as int - dist(x, y, p[k - 1] as int, p[k] as int)
        } else {
            0int
        }) + (if k < m {
            dist(x, y, v as int, p[k + 1] as int) as int - dist(x, y, p[k] as int, p[k + 1] as int)
        } else {
            0int
        }),
    decreases m,
{
    if m > 0 {
        lemma_edges_sum_update(x, y, p, k, v, m - 1);
    }
}

/// Replacing one group changes the total by the difference of its lengths.
proof fn lemma_total_len_update(x: Seq<u32>, y: Seq<u32>, t: Seq<Seq<usize>>, i: int, q: Seq<usize>)
    requires
        0 <= i < t.len(),
    ensures
        total_len(x, y, t.update(i, q)) as int == total_len(x, y, t) as int - path_len(x, y, t[i])
            + path_len(x, y, q),
    decreases t.len(),
{
    let u = t.update(i, q);
    if i == t.len() - 1 {
        assert(u.drop_last() =~= t.drop_last());
    } else {
        assert(u.drop_last() =~= t.drop_last().update(i, q));
        lemma_total_len_update(x, y, t.drop_last(), i, q);
    }
}

proof fn lemma_total_len_bound(x: Seq<u32>, y: Seq<u32>, t: Seq<Seq<usize>>)
    requires
        coords_ok(x, y),
        ids_below(t, x.len() as nat),
    ensures
        total_len(x, y, t) <= count(t) * DIST_BOUND,
    decreases t.len(),
{
    if t.len() > 0 {
        let u = t.drop_last();
        assert forall|g: int, k: int| 0 <= g < u.len() && 0 <= k < u[g].len() implies #[trigger] u[g][k]
            < x.len() by {
            assert(u[g][k] == t[g][k]);
        }
        lemma_total_len_bound(x, y, u);
        let p = t.last();
        assert forall|k: int| 0 <= k < p.len() implies #[trigger] p[k] < x.len() by {
            assert(p[k] == t[t.len() - 1][k]);
        }
        lemma_edges_sum_bound(x, y, p, p.len() - 1);
        assert(count(u) * DIST_BOUND + p.len() * DIST_BOUND == count(t) * DIST_BOUND)
            by (nonlinear_arith)
            requires
                count(t) == count(u) + p.len(),
        ;
        assert((p.len() - 1) * DIST_BOUND <= p.len() * DIST_BOUND) by (nonlinear_arith);
    }
}

proof fn lemma_count_prefix(t: Seq<Seq<usize>>, g: int)
    requires
        0 <= g <= t.len(),
    ensures
        count(t.take(g)) <= count(t),
        g < t.len() ==> count(t.take(g + 1)) == count(t.take(g)) + t[g].len(),
    decreases t.len(),
{
    if g < t.len() {
        assert(t.take(g + 1).drop_last() =~= t.take(g));
    }
    if g == t.len() {
        assert(t.take(g) =~= t);
    } else {
        assert(t.take(g) =~= t.drop_last().take(g));
        lemma_count_prefix(t.drop_last(), g);
    }
}

proof fn lemma_total_len_prefix(x: Seq<u32>, y: Seq<u32>, t: Seq<Seq<usize>>, g: int)
    requires
        0 <= g < t.len(),
    ensures
        total_len(x, y, t.take(g + 1)) == total_len(x, y, t.take(g)) + path_len(x, y, t[g]),
{
    assert(t.take(g + 1).drop_last() =~= t.take(g));
}

/// The total of a tour split in two is the sum of the totals of the parts.
pub proof fn lemma_total_len_concat(x: Seq<u32>, y: Seq<u32>, t1: Seq<Seq<usize>>, t2: Seq<Seq<usize>>)
    ensures
        total_len(x, y, t1 + t2) == total_len(x, y, t1) + total_len(x, y, t2),
    decreases t2.len(),
{
    if t2.len() == 0 {
        assert(t1 + t2 =~= t1);
    } else {
        assert((t1 + t2).drop_last() =~= t1 + t2.drop_last());
        lemma_total_len_concat(x, y, t1, t2.drop_last());
    }
}

/// Length of the open path through `p` (no edge back to the start).
pub fn path_length(x: &[u32], y: &[u32], p: &[usize]) -> (r: u128)
    requires
        coords_ok(x@, y@),
        forall|k: int| 0 <= k < p@.len() ==> #[trigger] p@[k] < x@.len(),
    ensures
        r == path_len(x@, y@, p@),
        r <= p@.len() * DIST_BOUND,
{
    if p.len() < 2 {
        return 0;
    }
    let mut tot: u128 = 0;
    let mut k: usize = 1;
    while k < p.len()
        invariant
            coords_ok(x@, y@),
            forall|q: int| 0 <= q < p@.len() ==> #[trigger] p@[q] < x@.len(),
            1 <= k <= p@.len(),
            tot == edges_sum(x@, y@, p@, k - 1),
            tot <= (k - 1) * DIST_BOUND,
        decreases p@.len() - k,
    {
        let d = distance(x, y, p[k - 1], p[k]);
        assert(k * DIST_BOUND < 0x1_0000_0000_0000_0000 * DIST_BOUND) by (nonlinear_arith)
            requires
                k < 0x1_0000_0000_0000_0000,
        ;
        tot = tot + d;
        k = k + 1;
    }
    tot
}

/// Total path length of all groups. The groups may be any part of a tour:
/// ids below the number of cities, no more entries than cities. A group of
/// fewer than two cities, an empty one included, adds nothing.
pub fn full_score(x: &[u32], y: &[u32], groups: &[Vec<usize>]) -> (r: u128)
    requires
        coords_ok(x@, y@),
        ids_below(view_groups(groups@), x@.len() as nat),
        count(view_groups(groups@)) <= x@.len(),
    ensures
        r == total_len(x@, y@, view_groups(groups@)),
        r <= x@.len() * DIST_BOUND,
{
    let ghost t = view_groups(groups@);
    let n = x.len();
    let mut score: u128 = 0;
    let mut g: usize = 0;
    assert(t.take(0) =~= Seq::<Seq<usize>>::empty());
    while g < groups.len()
        invariant
            coords_ok(x@, y@),
            t == view_groups(groups@),
            ids_below(t, x@.len() as nat),
            count(t) <= x@.len(),
            n == x@.len(),
            0 <= g <= groups@.len(),
            score == total_len(x@, y@, t.take(g as int)),
            score <= count(t.take(g as int)) * DIST_BOUND,
        decreases groups@.len() - g,
    {
        let ghost gi = g as int;
        assert(t.len() == groups@.len());
        assert(t[gi] == groups@[gi]@);
        let pl = path_length(x, y, groups[g].as_slice());
        proof {
            lemma_count_prefix(t, gi);
            lemma_count_prefix(t, gi + 1);
            lemma_total_len_prefix(x@, y@, t, gi);
            let c = count(t.take(gi + 1));
            assert(c <= x@.len());
            assert(c * DIST_BOUND <= x@.len() * DIST_BOUND) by (nonlinear_arith)
                requires
                    c <= x@.len(),
            ;
            assert(x@.len() * DIST_BOUND < 0x1_0000_0000_0000_0000 * DIST_BOUND)
                by (nonlinear_arith)
                requires
                    x@.len() < 0x1_0000_0000_0000_0000,
            ;
            assert(count(t.take(gi)) * DIST_BOUND + t[gi].len() * DIST_BOUND == c * DIST_BOUND)
                by (nonlinear_arith)
                requires
                    c == count(t.take(gi)) + t[gi].len(),
            ;
        }
        score = score + pl;
        g = g + 1;
    }
    proof {
        assert(t.take(g as int) =~= t);
        assert(count(t) * DIST_BOUND <= x@.len() * DIST_BOUND) by (nonlinear_arith)
            requires
                count(t) <= x@.len(),
        ;
    }
    score
}

/// Change of a path's length caused by its entry at `k` having been `prev`
/// before it became `p[k]`.
fn position_delta(x: &[u32], y: &[u32], p: &[usize], k: usize, prev: usize) -> (r: i128)
    requires
        coords_ok(x@, y@),
        forall|q: int| 0 <= q < p@.len() ==> #[trigger] p@[q] < x@.len(),
        prev < x@.len(),
        k < p@.len(),
    ensures
        r == path_len(x@, y@, p@) - path_len(x@, y@, p@.update(k as int, prev)),
        -2 * DIST_BOUND <= r <= 2 * DIST_BOUND,
{
    let v = p[k];
    let mut r: i128 = 0;
    if k + 1 < p.len() {
        let now = distance(x, y, v, p[k + 1]);
        let was = distance(x, y, prev, p[k + 1]);
        r = r + (now as i128 - was as i128);
    }
    if k > 0 {
        let now = distance(x, y, p[k - 1], v);
        let was = distance(x, y, p[k - 1], prev);
        r = r + (now as i128 - was as i128);
    }
    proof {
        lemma_edges_sum_update(x@, y@, p@, k as int, prev, p@.len() - 1);
    }
    r
}

/// Exact change of the total length caused by the swap of the cities at
/// `(i, ii)` and `(j, jj)`, given the groups after that swap. Only the edges
/// next to the two positions are looked at.
pub fn delta_score(
    x: &[u32],
    y: &[u32],
    groups: &[Vec<usize>],
    i: usize,
    ii: usize,
    j: usize,
    jj: usize,
) -> (r: i128)
    requires
        coords_ok(x@, y@),
        ids_below(view_groups(groups@), x@.len() as nat),
        i < groups@.len(),
        j < groups@.len(),
        i != j,
        ii < groups@[i as int]@.len(),
        jj < groups@[j as int]@.len(),
    ensures
        r == total_len(x@, y@, view_groups(groups@)) - total_len(
            x@,
            y@,
            swap_cities(view_groups(groups@), i as int, ii as int, j as int, jj as int),
        ),
{
    let ghost t = view_groups(groups@);
    assert(t[i as int] == groups@[i as int]@ && t[j as int] == groups@[j as int]@);
    assert(forall|q: int| 0 <= q < t[i as int].len() ==> #[trigger] t[i as int][q] < x@.len());
    assert(forall|q: int| 0 <= q < t[j as int].len() ==> #[trigger] t[j as int][q] < x@.len());
    let a = groups[i][ii];
    let b = groups[j][jj];
    let di = position_delta(x, y, groups[i].as_slice(), ii, b);
    let dj = position_delta(x, y, groups[j].as_slice(), jj, a);
    proof {
        let qi = t[i as int].update(ii as int, b);
        let qj = t[j as int].update(jj as int, a);
        lemma_total_len_update(x@, y@, t, i as int, qi);
        lemma_total_len_update(x@, y@, t.update(i as int, qi), j as int, qj);
    }
    di + dj
}

proof fn lemma_count_lengths(t: Seq<Seq<usize>>, u: Seq<Seq<usize>>)
    requires
        t.len() == u.len(),
        forall|g: int| 0 <= g < t.len() ==> #[trigger] t[g].len() == u[g].len(),
    ensures
        count(t) == count(u),
    decreases t.len(),
{
    if t.len() > 0 {
        lemma_count_lengths(t.drop_last(), u.drop_last());
    }
}

/// Trading the places of two cities of distinct groups keeps the partition of
/// the cities into groups, and doing it twice restores the tour.
pub proof fn lemma_swap_keeps_tour(t: Seq<Seq<usize>>, n: nat, i: int, ii: int, j: int, jj: int)
    requires
        is_tour(t, n),
        0 <= i < t.len(),
        0 <= j < t.len(),
        i != j,
        0 <= ii < t[i].len(),
        0 <= jj < t[j].len(),
    ensures
        is_tour(swap_cities(t, i, ii, j, jj), n),
        swap_cities(swap_cities(t, i, ii, j, jj), i, ii, j, jj) == t,
        same_shape(t, swap_cities(t, i, ii, j, jj)),
{
    let u = swap_cities(t, i, ii, j, jj);
    lemma_count_lengths(t, u);
    assert forall|g1: int, k1: int, g2: int, k2: int|
        0 <= g1 < u.len() && 0 <= k1 < u[g1].len() && 0 <= g2 < u.len() && 0 <= k2 < u[g2].len()
            && #[trigger] u[g1][k1] == #[trigger] u[g2][k2] implies g1 == g2 && k1 == k2 by {
        let a1 = if g1 == i && k1 == ii { j } else if g1 == j && k1 == jj { i } else { g1 };
        let b1 = if g1 == i && k1 == ii { jj } else if g1 == j && k1 == jj { ii } else { k1 };
        let a2 = if g2 == i && k2 == ii { j } else if g2 == j && k2 == jj { i } else { g2 };
        let b2 = if g2 == i && k2 == ii { jj } else if g2 == j && k2 == jj { ii } else { k2 };
        assert(u[g1][k1] == t[a1][b1]);
        assert(u[g2][k2] == t[a2][b2]);
    }
    assert forall|g: int, k: int| 0 <= g < u.len() && 0 <= k < u[g].len() implies #[trigger] u[g][k]
        < n by {
        let a = if g == i && k == ii { j } else if g == j && k == jj { i } else { g };
        let b = if g == i && k == ii { jj } else if g == j && k == jj { ii } else { k };
        assert(u[g][k] == t[a][b]);
    }
    assert forall|v: nat| v < n implies #[trigger] holds_city(u, v) by {
        assert(holds_city(t, v));
        let (g, k) = choose|g: int, k: int| 0 <= g < t.len() && 0 <= k < t[g].len() && #[trigger] t[g][k] == v;
        let a = if g == i && k == ii { j } else if g == j && k == jj { i } else { g };
        let b = if g == i && k == ii { jj } else if g == j && k == jj { ii } else { k };
        assert(u[a][b] == v);
    }
    let w = swap_cities(u, i, ii, j, jj);
    assert forall|g: int| 0 <= g < t.len() implies #[trigger] w[g] == t[g] by {
        assert(w[g] =~= t[g]);
    }
    assert(w =~= t);
}

/// Two tours with the same number of groups and the same group sizes.
pub open spec fn same_shape(t: Seq<Seq<usize>>, u: Seq<Seq<usize>>) -> bool {
    t.len() == u.len() && forall|g: int| 0 <= g < t.len() ==> #[trigger] t[g].len() == u[g].len()
}

/// Trades the places of the cities at `(i, ii)` and `(j, jj)`.
fn swap_entries(groups: &mut Vec<Vec<usize>>, i: usize, ii: usize, j: usize, jj: usize)
    requires
        i < old(groups)@.len(),
        j < old(groups)@.len(),
        i != j,
        ii < old(groups)@[i as int]@.len(),
        jj < old(groups)@[j as int]@.len(),
    ensures
        final(groups)@.len() == old(groups)@.len(),
        view_groups(final(groups)@) == swap_cities(
            view_groups(old(groups)@),
            i as int,
            ii as int,
            j as int,
            jj as int,
        ),
{
    let ghost t = view_groups(groups@);
    let a = groups[i][ii];
    let b = groups[j][jj];
    let mut tmp: Vec<usize> = Vec::new();
    groups.set_and_swap(i, &mut tmp);
    tmp.set(ii, b);
    groups.set_and_swap(i, &mut tmp);
    groups.set_and_swap(j, &mut tmp);
    tmp.set(jj, a);
    groups.set_and_swap(j, &mut tmp);
    assert(view_groups(groups@) =~= swap_cities(t, i as int, ii as int, j as int, jj as int));
}

/// Trades the cities at `(i, ii)` and `(j, jj)` and keeps the trade unless it
/// makes the total longer. `score` is the total before; the total after is
/// returned.
fn try_swap(
    x: &[u32],
    y: &[u32],
    groups: &mut Vec<Vec<usize>>,
    i: usize,
    ii: usize,
    j: usize,
    jj: usize,
    score: u128,
) -> (r: u128)
    requires
        coords_ok(x@, y@),
        is_tour(view_groups(old(groups)@), x@.len() as nat),
        score == total_len(x@, y@, view_groups(old(groups)@)),
        i < old(groups)@.len(),
        j < old(groups)@.len(),
        i != j,
        ii < old(groups)@[i as int]@.len(),
        jj < old(groups)@[j as int]@.len(),
    ensures
        final(groups)@.len() == old(groups)@.len(),
        is_tour(view_groups(final(groups)@), x@.len() as nat),
        same_shape(view_groups(old(groups)@), view_groups(final(groups)@)),
        r == total_len(x@, y@, view_groups(final(groups)@)),
        r <= score,
        view_groups(final(groups)@) == kept_swap(
            x@,
            y@,
            view_groups(old(groups)@),
            i as int,
            ii as int,
            j as int,
            jj as int,
        ),
{
    let ghost n = x@.len() as nat;
    let ghost before = view_groups(groups@);
    let len = x.len();
    proof {
        lemma_total_len_bound(x@, y@, before);
        assert(count(before) * DIST_BOUND <= 0x1_0000_0000_0000_0000 * DIST_BOUND)
            by (nonlinear_arith)
            requires
                count(before) == len,
                len <= usize::MAX,
        ;
        assert(before[i as int] == groups@[i as int]@);
        assert(before[j as int] == groups@[j as int]@);
        lemma_swap_keeps_tour(before, n, i as int, ii as int, j as int, jj as int);
    }
    swap_entries(groups, i, ii, j, jj);
    let diff = delta_score(x, y, groups.as_slice(), i, ii, j, jj);
    if diff > 0 {
        let ghost after = view_groups(groups@);
        proof {
            assert(after[i as int] == groups@[i as int]@);
            assert(after[j as int] == groups@[j as int]@);
        }
        swap_entries(groups, i, ii, j, jj);
        score
    } else {
        (score as i128 + diff) as u128
    }
}

/// The tour after trying the trade of `(i, ii)` and `(j, jj)`: the trade is
/// kept unless it makes the total longer.
pub open spec fn kept_swap(x: Seq<u32>, y: Seq<u32>, t: Seq<Seq<usize>>, i: int, ii: int, j: int, jj: int) -> Seq<
    Seq<usize>,
> {
    let u = swap_cities(t, i, ii, j, jj);
    if total_len(x, y, u) > total_len(x, y, t) {
        t
    } else {
        u
    }
}

/// One round of the hill climb from generator state `s` and tour `t`: draw
/// two group indices; when they differ and both groups hold more than one
/// city, draw a position in each and try the trade. A tour without groups
/// draws nothing. Gives the new state and the new tour.
pub open spec fn climb_round(x: Seq<u32>, y: Seq<u32>, s: u64, t: Seq<Seq<usize>>) -> (u64, Seq<
    Seq<usize>,
>) {
    if t.len() == 0 {
        (s, t)
    } else {
        let s1 = step(s);
        let i = mix(s1) as int % t.len() as int;
        let s2 = step(s1);
        let j = mix(s2) as int % t.len() as int;
        if i == j || t[i].len() <= 1 || t[j].len() <= 1 {
            (s2, t)
        } else {
            let s3 = step(s2);
            let ii = mix(s3) as int % t[i].len() as int;
            let s4 = step(s3);
            let jj = mix(s4) as int % t[j].len() as int;
            (s4, kept_swap(x, y, t, i, ii, j, jj))
        }
    }
}

/// Generator state and tour after `k` rounds.
pub open spec fn climb_spec(x: Seq<u32>, y: Seq<u32>, k: nat, s: u64, t: Seq<Seq<usize>>) -> (
    u64,
    Seq<Seq<usize>>,
)
    decreases k,
{
    if k == 0 {
        (s, t)
    } else {
        let prev = climb_spec(x, y, (k - 1) as nat, s, t);
        climb_round(x, y, prev.0, prev.1)
    }
}

/// Randomised hill climbing: `iterations` rounds of `climb_round`, each
/// trade kept unless it makes the total longer. Returns the final total
/// length. Empty groups are allowed and add nothing to the total.
pub fn climb(
    iterations: u32,
    x: &[u32],
    y: &[u32],
    rng: &mut Rng,
    groups: &mut Vec<Vec<usize>>,
) -> (score: u128)
    requires
        coords_ok(x@, y@),
        is_tour(view_groups(old(groups)@), x@.len() as nat),
    ensures
        (final(rng).x, view_groups(final(groups)@)) == climb_spec(
            x@,
            y@,
            iterations as nat,
            old(rng).x,
            view_groups(old(groups)@),
        ),
        is_tour(view_groups(final(groups)@), x@.len() as nat),
        same_shape(view_groups(old(groups)@), view_groups(final(groups)@)),
        score == total_len(x@, y@, view_groups(final(groups)@)),
        total_len(x@, y@, view_groups(final(groups)@)) <= total_len(
            x@,
            y@,
            view_groups(old(groups)@),
        ),
        iterations == 0 ==> final(groups)@ == old(groups)@ && final(rng).x == old(rng).x,
{
    let ghost g0 = groups@;
    let ghost s0 = rng.x;
    let ghost n = x@.len() as nat;
    let mut score = full_score(x, y, groups.as_slice());
    let mut it: u32 = 0;
    while it < iterations
        invariant
            coords_ok(x@, y@),
            n == x@.len(),
            groups@.len() == g0.len(),
            is_tour(view_groups(groups@), n),
            same_shape(view_groups(g0), view_groups(groups@)),
            score == total_len(x@, y@, view_groups(groups@)),
            total_len(x@, y@, view_groups(groups@)) <= total_len(x@, y@, view_groups(g0)),
            it <= iterations,
            it == 0 ==> groups@ == g0 && rng.x == s0,
            (rng.x, view_groups(groups@)) == climb_spec(x@, y@, it as nat, s0, view_groups(g0)),
        decreases iterations - it,
    {
        let ghost t = view_groups(groups@);
        let ghost s = rng.x;
        it = it + 1;
        if groups.len() > 0 {
            let i = rng.next() as usize % groups.len();
            let j = rng.next() as usize % groups.len();
            proof {
                assert(t.len() == groups@.len());
                assert(t[i as int] == groups@[i as int]@);
                assert(t[j as int] == groups@[j as int]@);
            }
            if i != j && groups[i].len() > 1 && groups[j].len() > 1 {
                let ii = rng.next() as usize % groups[i].len();
                let jj = rng.next() as usize % groups[j].len();
                score = try_swap(x, y, groups, i, ii, j, jj, score);
            }
        }
        assert((rng.x, view_groups(groups@)) == climb_round(x@, y@, s, t));
    }
    score
}

} // verus!
