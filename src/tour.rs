//! Initial tours over all cities, the choice between them, and the slicing
//! of a tour into groups.
use vstd::prelude::*;
use crate::geometry::{coords_ok, dist, distance};
use crate::score::{count, holds_city, is_tour, path_len, path_length, view_groups};
use vstd::set_lib::{lemma_int_range, lemma_subset_equality, set_int_range};

verus! {

/// `s` visits each of the cities `0..n` exactly once.
pub open spec fn is_perm(s: Seq<usize>, n: nat) -> bool {
    &&& s.len() == n
    &&& forall|k: int| 0 <= k < s.len() ==> #[trigger] s[k] < n
    &&& s.no_duplicates()
}

/// Sort key of city `i` in the stripe order: the tuple (stripe, row within
/// the stripe, half-cell row, half-cell column), packed into one integer of
/// four 32-bit digits so that integer order is the tuple's lexicographic
/// order. Stripes have width `w / 2`; odd stripes run downwards, and there a
/// row index past `w` counts as row 0.
pub open spec fn stripe_key(x: Seq<u32>, y: Seq<u32>, w: u32, i: int) -> int {
    let sw: int = w as int / 2;
    let half: int = sw / 2;
    let xi: int = x[i] as int;
    let yi: int = y[i] as int;
    let qx: int = xi / sw;
    let qy: int = yi / sw;
    let r: int = if qx % 2 == 0 {
        qy
    } else if qy <= w as int {
        w as int - qy
    } else {
        0
    };
    let ry: int = if qx % 2 == 0 {
        yi % sw
    } else {
        sw - yi % sw
    };
    ((qx * 0x1_0000_0000 + r) * 0x1_0000_0000 + ry / half) * 0x1_0000_0000 + (xi % sw) / half
}

/// The stripe key of one city.
fn stripe_key_of(x: &[u32], y: &[u32], w: u32, i: usize) -> (r: u128)
    requires
        coords_ok(x@, y@),
        i < x@.len(),
        w >= 4,
    ensures
        r == stripe_key(x@, y@, w, i as int),
{
    let sw = w / 2;
    let half = sw / 2;
    let qx = x[i] / sw;
    let qy = y[i] / sw;
    let r: u32 = if qx % 2 == 0 {
        qy
    } else if qy <= w {
        w - qy
    } else {
        0
    };
    let ry: u32 = if qx % 2 == 0 {
        y[i] % sw
    } else {
        sw - y[i] % sw
    };
    let a = (ry / half) as u128;
    let b = ((x[i] % sw) / half) as u128;
    let k1 = qx as u128 * 0x1_0000_0000 + r as u128;
    assert(k1 < 0x1_0000_0000_0000_0000) by (nonlinear_arith)
        requires
            k1 == qx * 0x1_0000_0000 + r,
            qx < 0x1_0000_0000,
            r < 0x1_0000_0000,
    ;
    let k2 = k1 * 0x1_0000_0000 + a;
    assert(k2 < 0x1_0000_0000_0000_0000_0000_0000) by (nonlinear_arith)
        requires
            k2 == k1 * 0x1_0000_0000 + a,
            k1 < 0x1_0000_0000_0000_0000,
            a < 0x1_0000_0000,
    ;
    assert(k2 * 0x1_0000_0000 + b < 0x1_0000_0000_0000_0000_0000_0000_0000_0000)
        by (nonlinear_arith)
        requires
            k2 < 0x1_0000_0000_0000_0000_0000_0000,
            b < 0x1_0000_0000,
    ;
    k2 * 0x1_0000_0000 + b
}

/// Stripe (boustrophedon) order: all cities, stably sorted by `stripe_key`.
/// In an odd stripe, a row index past `w` counts as row 0.
pub fn init_mo(x: &[u32], y: &[u32], w: u32) -> (r: Vec<usize>)
    requires
        coords_ok(x@, y@),
        w >= 4,
    ensures
        stripe_sorted(x@, y@, w, r@),
        is_perm(r@, x@.len() as nat),
        forall|a: int, b: int|
            0 <= a < b < r@.len() ==> key_before(
                x@,
                y@,
                w,
                #[trigger] r@[a] as int,
                #[trigger] r@[b] as int,
            ),
{
    let n = x.len();
    let mut keys: Vec<u128> = Vec::new();
    let mut cities: Vec<usize> = Vec::new();
    let mut i: usize = 0;
    while i < n
        invariant
            coords_ok(x@, y@),
            n == x@.len(),
            w >= 4,
            i <= n,
            keys@.len() == i,
            cities@.len() == i,
            forall|k: int| 0 <= k < i ==> #[trigger] keys@[k] == stripe_key(x@, y@, w, k),
            forall|k: int| 0 <= k < i ==> #[trigger] cities@[k] == k,
        decreases n - i,
    {
        keys.push(stripe_key_of(x, y, w, i));
        cities.push(i);
        i = i + 1;
    }
    let mut i: usize = 1;
    while i < n
        invariant
            n == x@.len(),
            keys@.len() == n,
            forall|k: int| 0 <= k < n ==> #[trigger] keys@[k] == stripe_key(x@, y@, w, k),
            1 <= i || n == 0,
            i <= n || n == 0,
            is_perm(cities@, n as nat),
            forall|k: int| i <= k < n ==> #[trigger] cities@[k] == k,
            forall|k: int| 0 <= k < i && k < n ==> #[trigger] cities@[k] < i,
            forall|a: int, b: int|
                0 <= a < b < i && b < n ==> sorted_pair(keys@, #[trigger] cities@[a], #[trigger] cities@[b]),
        decreases n - i,
    {
        let mut j: usize = i;
        while j > 0 && keys[cities[j - 1]] > keys[cities[j]]
            invariant
                n == x@.len(),
                keys@.len() == n,
                0 <= j <= i < n,
                is_perm(cities@, n as nat),
                cities@[j as int] == i,
                forall|k: int| i < k < n ==> #[trigger] cities@[k] == k,
                forall|k: int| 0 <= k <= i && k != j ==> #[trigger] cities@[k] < i,
                forall|a: int, b: int|
                    0 <= a < b <= i && a != j && b != j ==> sorted_pair(
                        keys@,
                        #[trigger] cities@[a],
                        #[trigger] cities@[b],
                    ),
                forall|b: int|
                    j < b <= i ==> keys@[cities@[j as int] as int] < keys@[#[trigger] cities@[
                        b
                    ] as int],
                0 < j < i ==> sorted_pair(keys@, cities@[j - 1], cities@[j + 1]),
            decreases j,
        {
            let c = cities[j];
            let d = cities[j - 1];
            cities.set(j, d);
            cities.set(j - 1, c);
            proof {
                assert(cities@.no_duplicates()) by {
                    assert forall|a: int, b: int|
                        0 <= a < b < cities@.len() implies cities@[a] != cities@[b] by {
                        let old_c = cities@.update(j - 1, d).update(j as int, c);
                        let pa = if a == j { j - 1 } else if a == j - 1 { j as int } else { a };
                        let pb = if b == j { j - 1 } else if b == j - 1 { j as int } else { b };
                        assert(old_c[pa] == cities@[a]);
                        assert(old_c[pb] == cities@[b]);
                    }
                }
            }
            j = j - 1;
        }
        proof {
            if j > 0 {
                assert(cities@[j - 1] < i);
            }
        }
        i = i + 1;
    }
    proof {
        assert forall|a: int, b: int| 0 <= a < b < cities@.len() implies key_before(
            x@,
            y@,
            w,
            #[trigger] cities@[a] as int,
            #[trigger] cities@[b] as int,
        ) by {
            assert(sorted_pair(keys@, cities@[a], cities@[b]));
        }
    }
    cities
}

/// `s` holds every city once, in the stable stripe order.
pub open spec fn stripe_sorted(x: Seq<u32>, y: Seq<u32>, w: u32, s: Seq<usize>) -> bool {
    &&& is_perm(s, x.len() as nat)
    &&& forall|a: int, b: int|
        0 <= a < b < s.len() ==> key_before(x, y, w, #[trigger] s[a] as int, #[trigger] s[b] as int)
}

/// City `u` precedes city `v` in the stable stripe order: a smaller key, or
/// an equal key and a smaller id.
pub open spec fn key_before(x: Seq<u32>, y: Seq<u32>, w: u32, u: int, v: int) -> bool {
    stripe_key(x, y, w, u) < stripe_key(x, y, w, v) || (stripe_key(x, y, w, u) == stripe_key(
        x,
        y,
        w,
        v,
    ) && u < v)
}

/// The same order, over precomputed keys.
spec fn sorted_pair(keys: Seq<u128>, u: usize, v: usize) -> bool {
    keys[u as int] < keys[v as int] || (keys[u as int] == keys[v as int] && u < v)
}

/// Cost of inserting city `c` before position `i` of `path` (at the end
/// when `i == path.len()`): the two new edges minus the edge they replace.
pub open spec fn insert_cost(x: Seq<u32>, y: Seq<u32>, path: Seq<usize>, c: usize, i: int) -> int {
    (if i < path.len() {
        dist(x, y, path[i] as int, c as int) as int
    } else {
        0
    }) + (if i > 0 {
        dist(x, y, path[i - 1] as int, c as int) as int
    } else {
        0
    }) - (if 0 < i < path.len() {
        dist(x, y, path[i - 1] as int, path[i] as int) as int
    } else {
        0
    })
}

/// `(bi, bj)` is the cheapest insertion of `rem[bj]` before position `bi` of
/// `path`, and the first such pair by position, then by index into `rem`.
pub open spec fn is_cheapest(x: Seq<u32>, y: Seq<u32>, path: Seq<usize>, rem: Seq<usize>, bi: int, bj: int) -> bool {
    &&& 0 <= bi <= path.len()
    &&& 0 <= bj < rem.len()
    &&& forall|i: int, j: int|
        0 <= i <= path.len() && 0 <= j < rem.len() ==> insert_cost(x, y, path, rem[bj], bi)
            <= #[trigger] insert_cost(x, y, path, rem[j], i)
    &&& forall|i: int, j: int|
        0 <= i <= path.len() && 0 <= j < rem.len() && (i < bi || (i == bi && j < bj))
            ==> insert_cost(x, y, path, rem[bj], bi) < #[trigger] insert_cost(x, y, path, rem[j], i)
}

/// The pair that `is_cheapest` singles out.
pub open spec fn cheapest_pair(x: Seq<u32>, y: Seq<u32>, path: Seq<usize>, rem: Seq<usize>) -> (int, int) {
    choose|p: (int, int)| is_cheapest(x, y, path, rem, p.0, p.1)
}

/// At most one pair is the first cheapest insertion.
proof fn lemma_cheapest_unique(x: Seq<u32>, y: Seq<u32>, path: Seq<usize>, rem: Seq<usize>, a: (int, int), b: (int, int))
    requires
        is_cheapest(x, y, path, rem, a.0, a.1),
        is_cheapest(x, y, path, rem, b.0, b.1),
    ensures
        a == b,
{
    let ca = insert_cost(x, y, path, rem[a.1], a.0);
    let cb = insert_cost(x, y, path, rem[b.1], b.0);
    assert(ca <= cb && cb <= ca);
}

/// The path that greedy insertion builds from `path` with the cities of
/// `rem` still to place.
pub open spec fn greedy_path(x: Seq<u32>, y: Seq<u32>, path: Seq<usize>, rem: Seq<usize>) -> Seq<usize>
    decreases rem.len(),
{
    let p = cheapest_pair(x, y, path, rem);
    if rem.len() == 0 || !(0 <= p.1 < rem.len()) || !(0 <= p.0 <= path.len()) {
        path
    } else {
        greedy_path(x, y, path.insert(p.0, rem[p.1]), rem.remove(p.1))
    }
}

/// Greedy insertion over all cities: from the path `[0]`, with `1..n` to place.
pub open spec fn greedy_order(x: Seq<u32>, y: Seq<u32>) -> Seq<usize> {
    if x.len() == 0 {
        seq![]
    } else {
        greedy_path(x, y, seq![0usize], Seq::new((x.len() - 1) as nat, |k: int| (k + 1) as usize))
    }
}

/// The cheapest insertion `(i, j)`: city `rem[j]` before position `i` of
/// `path`. Among equally cheap ones, the first by position, then by index
/// into `rem`.
pub fn cheapest_insertion(x: &[u32], y: &[u32], path: &Vec<usize>, rem: &Vec<usize>) -> (r: (
    usize,
    usize,
))
    requires
        coords_ok(x@, y@),
        rem@.len() > 0,
        path@.len() < usize::MAX,
        forall|k: int| 0 <= k < path@.len() ==> #[trigger] path@[k] < x@.len(),
        forall|k: int| 0 <= k < rem@.len() ==> #[trigger] rem@[k] < x@.len(),
    ensures
        is_cheapest(x@, y@, path@, rem@, r.0 as int, r.1 as int),
{
    let mut best: i128 = 0;
    let mut best_i: usize = 0;
    let mut best_j: usize = 0;
    let mut i: usize = 0;
    while i <= path.len()
        invariant
            coords_ok(x@, y@),
            rem@.len() > 0,
            path@.len() < usize::MAX,
            forall|k: int| 0 <= k < path@.len() ==> #[trigger] path@[k] < x@.len(),
            forall|k: int| 0 <= k < rem@.len() ==> #[trigger] rem@[k] < x@.len(),
            i <= path@.len() + 1,
            best_i <= path@.len(),
            best_i <= i,
            best_i < i || i == 0,
            best_j < rem@.len(),
            i > 0 ==> best == insert_cost(x@, y@, path@, rem@[best_j as int], best_i as int),
            forall|p: int, q: int|
                0 <= p < i && 0 <= q < rem@.len() ==> best <= #[trigger] insert_cost(
                    x@,
                    y@,
                    path@,
                    rem@[q],
                    p,
                ),
            forall|p: int, q: int|
                0 <= p < i && 0 <= q < rem@.len() && (p < best_i || (p == best_i && q < best_j))
                    ==> best < #[trigger] insert_cost(x@, y@, path@, rem@[q], p),
        decreases path@.len() + 1 - i,
    {
        let mut j: usize = 0;
        while j < rem.len()
            invariant
                coords_ok(x@, y@),
                rem@.len() > 0,
                path@.len() < usize::MAX,
                forall|k: int| 0 <= k < path@.len() ==> #[trigger] path@[k] < x@.len(),
                forall|k: int| 0 <= k < rem@.len() ==> #[trigger] rem@[k] < x@.len(),
                i <= path@.len(),
                j <= rem@.len(),
                best_i <= i,
                best_i <= path@.len(),
                best_j < rem@.len(),
                best_i == i && (i > 0 || j > 0) ==> best_j < j,
                i > 0 || j > 0 ==> best == insert_cost(x@, y@, path@, rem@[best_j as int], best_i as int),
                forall|p: int, q: int|
                    0 <= q < rem@.len() && (0 <= p < i || (p == i && q < j)) ==> best
                        <= #[trigger] insert_cost(x@, y@, path@, rem@[q], p),
                forall|p: int, q: int|
                    0 <= q < rem@.len() && (0 <= p < i || (p == i && q < j)) && (p < best_i || (p
                        == best_i && q < best_j)) ==> best < #[trigger] insert_cost(
                        x@,
                        y@,
                        path@,
                        rem@[q],
                        p,
                    ),
            decreases rem@.len() - j,
        {
            let mut diff: i128 = 0;
            if i < path.len() {
                diff = diff + distance(x, y, path[i], rem[j]) as i128;
            }
            if i > 0 {
                diff = diff + distance(x, y, path[i - 1], rem[j]) as i128;
            }
            if i > 0 && i < path.len() {
                diff = diff - distance(x, y, path[i - 1], path[i]) as i128;
            }
            assert(diff == insert_cost(x@, y@, path@, rem@[j as int], i as int));
            if (i == 0 && j == 0) || best > diff {
                best = diff;
                best_i = i;
                best_j = j;
            }
            j = j + 1;
        }
        i = i + 1;
    }
    (best_i, best_j)
}

/// Greedy cheapest insertion: start from the path holding city 0 and, while
/// cities remain, insert the city at the position that lengthens the path
/// least (the first such pair, by position then by city id). Takes time
/// cubic in the number of cities.
pub fn init_greedy(x: &[u32], y: &[u32]) -> (r: Vec<usize>)
    requires
        coords_ok(x@, y@),
    ensures
        r@ == greedy_order(x@, y@),
        is_perm(r@, x@.len() as nat),
        x@.len() > 0 ==> r@.contains(0usize),
{
    let n = x.len();
    if n == 0 {
        return Vec::new();
    }
    let mut cities: Vec<usize> = vec![0];
    let mut rem: Vec<usize> = Vec::new();
    let mut v: usize = 1;
    while v < n
        invariant
            1 <= v <= n,
            rem@.len() == v - 1,
            forall|k: int| 0 <= k < rem@.len() ==> #[trigger] rem@[k] == k + 1,
        decreases n - v,
    {
        rem.push(v);
        v = v + 1;
    }
    assert(cities@[0] == 0);
    assert(cities@ =~= seq![0usize]);
    assert(rem@ =~= Seq::new((x@.len() - 1) as nat, |k: int| (k + 1) as usize));
    while rem.len() > 0
        invariant
            greedy_path(x@, y@, cities@, rem@) == greedy_order(x@, y@),
            coords_ok(x@, y@),
            n == x@.len(),
            cities@.len() + rem@.len() == n,
            cities@.len() >= 1,
            cities@.contains(0usize),
            forall|k: int| 0 <= k < cities@.len() ==> #[trigger] cities@[k] < n,
            forall|k: int| 0 <= k < rem@.len() ==> #[trigger] rem@[k] < n,
            cities@.no_duplicates(),
            rem@.no_duplicates(),
            forall|a: int, b: int|
                0 <= a < cities@.len() && 0 <= b < rem@.len() ==> #[trigger] cities@[a]
                    != #[trigger] rem@[b],
        decreases rem@.len(),
    {
        let (best_i, best_j) = cheapest_insertion(x, y, &cities, &rem);
        proof {
            let p = cheapest_pair(x@, y@, cities@, rem@);
            assert(is_cheapest(x@, y@, cities@, rem@, p.0, p.1));
            lemma_cheapest_unique(x@, y@, cities@, rem@, p, (best_i as int, best_j as int));
        }
        let c = rem[best_j];
        let ghost c0 = cities@;
        let ghost r0 = rem@;
        cities.insert(best_i, c);
        rem.remove(best_j);
        proof {
            assert forall|a: int, b: int|
                0 <= a < cities@.len() && 0 <= b < rem@.len() implies #[trigger] cities@[a]
                != #[trigger] rem@[b] by {
                let pb = if b < best_j { b } else { b + 1 };
                assert(rem@[b] == r0[pb]);
                if a < best_i {
                    assert(cities@[a] == c0[a]);
                } else if a > best_i {
                    assert(cities@[a] == c0[a - 1]);
                }
            }
            assert forall|a: int, b: int|
                0 <= a < b < cities@.len() implies cities@[a] != cities@[b] by {
                if a < best_i {
                    assert(cities@[a] == c0[a]);
                } else if a > best_i {
                    assert(cities@[a] == c0[a - 1]);
                }
                if b < best_i {
                    assert(cities@[b] == c0[b]);
                } else if b > best_i {
                    assert(cities@[b] == c0[b - 1]);
                }
            }
            assert forall|a: int, b: int| 0 <= a < b < rem@.len() implies rem@[a] != rem@[b] by {
                let pa = if a < best_j { a } else { a + 1 };
                let pb = if b < best_j { b } else { b + 1 };
                assert(rem@[a] == r0[pa]);
                assert(rem@[b] == r0[pb]);
            }
            assert forall|k: int| 0 <= k < cities@.len() implies #[trigger] cities@[k] < n by {
                if k < best_i {
                    assert(cities@[k] == c0[k]);
                } else if k > best_i {
                    assert(cities@[k] == c0[k - 1]);
                }
            }
            let k0 = choose|k: int| 0 <= k < c0.len() && c0[k] == 0usize;
            if k0 < best_i {
                assert(cities@[k0] == 0usize);
            } else {
                assert(cities@[k0 + 1] == 0usize);
            }
        }
    }
    cities
}

/// Of two candidate orders keeps the first when its path is strictly
/// shorter, else the second.
pub fn choose_order(x: &[u32], y: &[u32], first: Vec<usize>, second: Vec<usize>) -> (r: Vec<
    usize,
>)
    requires
        coords_ok(x@, y@),
        forall|k: int| 0 <= k < first@.len() ==> #[trigger] first@[k] < x@.len(),
        forall|k: int| 0 <= k < second@.len() ==> #[trigger] second@[k] < x@.len(),
    ensures
        r@ == if path_len(x@, y@, first@) < path_len(x@, y@, second@) {
            first@
        } else {
            second@
        },
{
    let d0 = path_length(x, y, first.as_slice());
    let d1 = path_length(x, y, second.as_slice());
    if d0 < d1 {
        first
    } else {
        second
    }
}

/// Builds both initial orders and keeps the shorter one (the greedy one on
/// a tie).
pub fn initial_order(x: &[u32], y: &[u32], w: u32) -> (r: Vec<usize>)
    requires
        coords_ok(x@, y@),
        w >= 4,
    ensures
        is_perm(r@, x@.len() as nat),
        exists|s: Seq<usize>|
            stripe_sorted(x@, y@, w, s) && r@ == if path_len(x@, y@, s) < path_len(
                x@,
                y@,
                greedy_order(x@, y@),
            ) {
                s
            } else {
                greedy_order(x@, y@)
            },
{
    let a = init_mo(x, y, w);
    let b = init_greedy(x, y);
    let ghost sa = a@;
    let r = choose_order(x, y, a, b);
    assert(stripe_sorted(x@, y@, w, sa));
    r
}

/// Every city below `n` occurs in an order that visits each of them once.
pub proof fn lemma_perm_covers(s: Seq<usize>, n: nat, v: int)
    requires
        is_perm(s, n),
        0 <= v < n,
    ensures
        exists|k: int| 0 <= k < s.len() && s[k] as int == v,
{
    let t = s.map_values(|u: usize| u as int);
    assert(t.no_duplicates()) by {
        assert forall|a: int, b: int| 0 <= a < b < t.len() implies t[a] != t[b] by {
            assert(s[a] != s[b]);
        }
    }
    t.unique_seq_to_set();
    let r = set_int_range(0, n as int);
    lemma_int_range(0, n as int);
    assert forall|u: int| t.to_set().contains(u) implies r.contains(u) by {
        assert(t.contains(u));
        let k = choose|k: int| 0 <= k < t.len() && t[k] == u;
        assert(s[k] < n);
    }
    lemma_subset_equality(t.to_set(), r);
    assert(r.contains(v));
    assert(t.to_set().contains(v));
    assert(t.contains(v));
    let k = choose|k: int| 0 <= k < t.len() && t[k] == v;
    assert(s[k] as int == v);
}

/// Where group `g` starts: the sum of the first `g` sizes.
pub open spec fn offset(sizes: Seq<usize>, g: int) -> int
    decreases g,
{
    if g <= 0 {
        0
    } else {
        offset(sizes, g - 1) + sizes[g - 1]
    }
}

proof fn lemma_offset_mono(sizes: Seq<usize>, a: int, b: int)
    requires
        0 <= a <= b,
    ensures
        offset(sizes, a) <= offset(sizes, b),
    decreases b - a,
{
    if a < b {
        lemma_offset_mono(sizes, a, b - 1);
    }
}

proof fn lemma_find_group(sizes: Seq<usize>, p: int, m: int)
    requires
        0 <= p < offset(sizes, m),
        0 <= m,
    ensures
        exists|g: int| 0 <= g < m && offset(sizes, g) <= p < #[trigger] offset(sizes, g + 1),
    decreases m,
{
    if m > 0 && p < offset(sizes, m - 1) {
        lemma_find_group(sizes, p, m - 1);
        let g = choose|g: int| 0 <= g < m - 1 && offset(sizes, g) <= p < #[trigger] offset(sizes, g + 1);
        assert(0 <= g < m && offset(sizes, g) <= p < offset(sizes, g + 1));
    } else if m > 0 {
        assert(offset(sizes, m - 1) <= p < offset(sizes, m - 1 + 1));
    }
}

/// Slicing an order that visits every city once into consecutive runs
/// yields a partition of the cities into groups.
pub proof fn lemma_split_is_tour(order: Seq<usize>, sizes: Seq<usize>, t: Seq<Seq<usize>>)
    requires
        is_perm(order, order.len()),
        offset(sizes, sizes.len() as int) == order.len(),
        t.len() == sizes.len(),
        forall|g: int|
            0 <= g < t.len() ==> #[trigger] t[g] == order.subrange(
                offset(sizes, g),
                offset(sizes, g + 1),
            ),
    ensures
        is_tour(t, order.len()),
{
    let n = order.len();
    assert forall|g: int| 0 <= g <= t.len() implies count(#[trigger] t.take(g)) == offset(sizes, g)
        by {
        lemma_count_take(order, sizes, t, g);
    }
    assert(t.take(t.len() as int) =~= t);
    assert forall|g: int, k: int| 0 <= g < t.len() && 0 <= k < t[g].len() implies #[trigger] t[g][k]
        < n by {
        lemma_offset_mono(sizes, g + 1, sizes.len() as int);
        lemma_offset_mono(sizes, 0, g);
        assert(t[g][k] == order[offset(sizes, g) + k]);
    }
    assert forall|g1: int, k1: int, g2: int, k2: int|
        0 <= g1 < t.len() && 0 <= k1 < t[g1].len() && 0 <= g2 < t.len() && 0 <= k2 < t[g2].len()
            && #[trigger] t[g1][k1] == #[trigger] t[g2][k2] implies g1 == g2 && k1 == k2 by {
        lemma_offset_mono(sizes, g1 + 1, sizes.len() as int);
        lemma_offset_mono(sizes, g2 + 1, sizes.len() as int);
        lemma_offset_mono(sizes, 0, g1);
        lemma_offset_mono(sizes, 0, g2);
        assert(t[g1][k1] == order[offset(sizes, g1) + k1]);
        assert(t[g2][k2] == order[offset(sizes, g2) + k2]);
        if g1 < g2 {
            lemma_offset_mono(sizes, g1 + 1, g2);
        } else if g2 < g1 {
            lemma_offset_mono(sizes, g2 + 1, g1);
        }
    }
    assert forall|v: nat| v < n implies #[trigger] holds_city(t, v) by {
        lemma_perm_covers(order, n, v as int);
        let p = choose|p: int| 0 <= p < order.len() && order[p] as int == v;
        lemma_find_group(sizes, p, sizes.len() as int);
        let g = choose|g: int|
            0 <= g < sizes.len() && offset(sizes, g) <= p < #[trigger] offset(sizes, g + 1);
        lemma_offset_mono(sizes, g + 1, sizes.len() as int);
        lemma_offset_mono(sizes, 0, g);
        let k = p - offset(sizes, g);
        assert(t[g].len() == sizes[g]);
        assert(t[g][k] == order[p]);
        assert(t[g][k] == v);
    }
}

proof fn lemma_count_take(order: Seq<usize>, sizes: Seq<usize>, t: Seq<Seq<usize>>, g: int)
    requires
        offset(sizes, sizes.len() as int) == order.len(),
        t.len() == sizes.len(),
        forall|h: int|
            0 <= h < t.len() ==> #[trigger] t[h] == order.subrange(
                offset(sizes, h),
                offset(sizes, h + 1),
            ),
        0 <= g <= t.len(),
    ensures
        count(t.take(g)) == offset(sizes, g),
    decreases g,
{
    if g > 0 {
        lemma_count_take(order, sizes, t, g - 1);
        assert(t.take(g).drop_last() =~= t.take(g - 1));
        lemma_offset_mono(sizes, g, sizes.len() as int);
        assert(t[g - 1].len() == sizes[g - 1]);
    } else {
        assert(t.take(0).len() == 0);
    }
}

/// Slices an order into consecutive groups of the given sizes.
pub fn split_groups(order: &[usize], sizes: &[usize]) -> (r: Vec<Vec<usize>>)
    requires
        offset(sizes@, sizes@.len() as int) == order@.len(),
    ensures
        r@.len() == sizes@.len(),
        forall|g: int|
            0 <= g < r@.len() ==> #[trigger] r@[g]@ == order@.subrange(
                offset(sizes@, g),
                offset(sizes@, g + 1),
            ),
        is_perm(order@, order@.len()) ==> is_tour(view_groups(r@), order@.len()),
{
    let olen = order.len();
    let mut groups: Vec<Vec<usize>> = Vec::new();
    let mut start: usize = 0;
    let mut g: usize = 0;
    while g < sizes.len()
        invariant
            offset(sizes@, sizes@.len() as int) == order@.len(),
            g <= sizes@.len(),
            olen == order@.len(),
            start == offset(sizes@, g as int),
            groups@.len() == g,
            forall|h: int|
                0 <= h < g ==> #[trigger] groups@[h]@ == order@.subrange(
                    offset(sizes@, h),
                    offset(sizes@, h + 1),
                ),
        decreases sizes@.len() - g,
    {
        proof {
            lemma_offset_mono(sizes@, g as int + 1, sizes@.len() as int);
        }
        let end = start + sizes[g];
        let mut part: Vec<usize> = Vec::new();
        let mut k: usize = start;
        while k < end
            invariant
                start <= k <= end,
                end <= order@.len(),
                part@ == order@.subrange(start as int, k as int),
            decreases end - k,
        {
            part.push(order[k]);
            k = k + 1;
        }
        groups.push(part);
        start = end;
        g = g + 1;
    }
    proof {
        let t = view_groups(groups@);
        if is_perm(order@, order@.len()) {
            assert forall|h: int| 0 <= h < t.len() implies #[trigger] t[h] == order@.subrange(
                offset(sizes@, h),
                offset(sizes@, h + 1),
            ) by {
                assert(t[h] == groups@[h]@);
            }
            lemma_split_is_tour(order@, sizes@, t);
        }
    }
    groups
}

} // verus!
