//! Points, fixed-point Euclidean distances and open-path lengths.
//!
//! A distance is measured in units of `1 / SCALE` of a coordinate unit and
//! rounded down: `dist(a, b) = floor(SCALE * sqrt(dx^2 + dy^2))`. All lengths
//! are exact integers, so sums and differences of them are exact too.
use vstd::prelude::*;

verus! {

/// Number of length units per coordinate unit.
pub const SCALE: u128 = 65536;

/// Every single distance is below this bound.
pub const DIST_BOUND: u128 = 0x2_0000_0000_0000;

/// Largest `r` with `r * r <= n`.
pub open spec fn isqrt(n: nat) -> nat
    decreases n,
{
    if n == 0 {
        0
    } else {
        let r = isqrt((n - 1) as nat);
        if (r + 1) * (r + 1) <= n {
            r + 1
        } else {
            r
        }
    }
}

/// `isqrt(n)` is the integer square root of `n`, rounded down.
pub proof fn lemma_isqrt(n: nat)
    ensures
        isqrt(n) * isqrt(n) <= n,
        n < (isqrt(n) + 1) * (isqrt(n) + 1),
    decreases n,
{
    if n == 0 {
        assert(isqrt(n) == 0);
        assert(0nat * 0nat == 0 && (0nat + 1) * (0nat + 1) == 1) by (nonlinear_arith);
    } else {
        lemma_isqrt((n - 1) as nat);
        let r = isqrt((n - 1) as nat);
        if (r + 1) * (r + 1) <= n {
            assert(isqrt(n) == r + 1);
            assert(n < (r + 1 + 1) * (r + 1 + 1)) by (nonlinear_arith)
                requires
                    n - 1 < (r + 1) * (r + 1),
            ;
        } else {
            assert(isqrt(n) == r);
        }
    }
}

/// Only one number has the property of `lemma_isqrt`.
pub proof fn lemma_isqrt_unique(n: nat, r: nat)
    requires
        r * r <= n,
        n < (r + 1) * (r + 1),
    ensures
        isqrt(n) == r,
{
    lemma_isqrt(n);
    let s = isqrt(n);
    if s < r {
        assert((s + 1) * (s + 1) <= r * r) by (nonlinear_arith)
            requires
                s + 1 <= r,
        ;
    } else if s > r {
        assert((r + 1) * (r + 1) <= s * s) by (nonlinear_arith)
            requires
                r + 1 <= s,
        ;
    }
}

/// Integer square root, rounded down.
pub fn int_sqrt(n: u128) -> (r: u128)
    ensures
        r == isqrt(n as nat),
{
    let mut lo: u128 = 0;
    let mut hi: u128 = 0x1_0000_0000_0000_0000;
    assert(n < hi * hi) by (nonlinear_arith)
        requires
            hi == 0x1_0000_0000_0000_0000u128,
            n <= u128::MAX,
    ;
    while hi - lo > 1
        invariant
            lo < hi,
            hi <= 0x1_0000_0000_0000_0000u128,
            lo * lo <= n,
            n < hi * hi,
        decreases hi - lo,
    {
        let mid = lo + (hi - lo) / 2;
        assert(mid * mid < 0x1_0000_0000_0000_0000_0000_0000_0000_0000) by (nonlinear_arith)
            requires
                mid < 0x1_0000_0000_0000_0000u128,
        ;
        if mid * mid <= n {
            lo = mid;
        } else {
            hi = mid;
        }
    }
    proof {
        lemma_isqrt_unique(n as nat, lo as nat);
    }
    lo
}

/// Squared Euclidean distance between cities `a` and `b`.
pub open spec fn sq_dist(x: Seq<u32>, y: Seq<u32>, a: int, b: int) -> nat {
    ((x[a] - x[b]) * (x[a] - x[b]) + (y[a] - y[b]) * (y[a] - y[b])) as nat
}

/// Distance between cities `a` and `b`, in units of `1 / SCALE`, rounded down.
pub open spec fn dist(x: Seq<u32>, y: Seq<u32>, a: int, b: int) -> nat {
    isqrt(sq_dist(x, y, a, b) * (SCALE * SCALE) as nat)
}

/// Coordinates of `n` cities.
pub open spec fn coords_ok(x: Seq<u32>, y: Seq<u32>) -> bool {
    x.len() == y.len()
}

/// Every distance between two cities is below `DIST_BOUND`.
pub proof fn lemma_dist_bound(x: Seq<u32>, y: Seq<u32>, a: int, b: int)
    requires
        coords_ok(x, y),
        0 <= a < x.len(),
        0 <= b < x.len(),
    ensures
        dist(x, y, a, b) < DIST_BOUND,
{
    let dx = x[a] - x[b];
    let dy = y[a] - y[b];
    assert(0 <= dx * dx < 0x1_0000_0000_0000_0000) by (nonlinear_arith)
        requires
            -0x1_0000_0000 < dx < 0x1_0000_0000,
    ;
    assert(0 <= dy * dy < 0x1_0000_0000_0000_0000) by (nonlinear_arith)
        requires
            -0x1_0000_0000 < dy < 0x1_0000_0000,
    ;
    let d2 = sq_dist(x, y, a, b);
    assert(d2 < 0x2_0000_0000_0000_0000);
    let n = d2 * (SCALE * SCALE) as nat;
    assert(n < 0x2_0000_0000_0000_0000_0000_0000) by (nonlinear_arith)
        requires
            d2 < 0x2_0000_0000_0000_0000,
            n == d2 * 0x1_0000_0000,
    ;
    lemma_isqrt(n);
    let r = isqrt(n);
    if r >= DIST_BOUND {
        assert(r * r >= DIST_BOUND * DIST_BOUND) by (nonlinear_arith)
            requires
                r >= DIST_BOUND,
        ;
    }
}

fn abs_diff(a: u32, b: u32) -> (r: u128)
    ensures
        r * r == (a - b) * (a - b),
        r < 0x1_0000_0000,
{
    let r: u128 = if a >= b {
        (a - b) as u128
    } else {
        (b - a) as u128
    };
    assert(r * r == (a - b) * (a - b)) by (nonlinear_arith)
        requires
            r == a - b || r == b - a,
    ;
    r
}

/// Squared distance between cities `a` and `b`.
pub fn squared_distance(x: &[u32], y: &[u32], a: usize, b: usize) -> (r: u128)
    requires
        x@.len() == y@.len(),
        a < x@.len(),
        b < x@.len(),
    ensures
        r == sq_dist(x@, y@, a as int, b as int),
        r < 0x2_0000_0000_0000_0000,
{
    let dx = abs_diff(x[a], x[b]);
    let dy = abs_diff(y[a], y[b]);
    assert(dx * dx < 0x1_0000_0000_0000_0000 && dy * dy < 0x1_0000_0000_0000_0000)
        by (nonlinear_arith)
        requires
            dx < 0x1_0000_0000,
            dy < 0x1_0000_0000,
    ;
    dx * dx + dy * dy
}

/// Distance between cities `a` and `b`, in units of `1 / SCALE`, rounded down.
pub fn distance(x: &[u32], y: &[u32], a: usize, b: usize) -> (r: u128)
    requires
        x@.len() == y@.len(),
        a < x@.len(),
        b < x@.len(),
    ensures
        r == dist(x@, y@, a as int, b as int),
        r < DIST_BOUND,
{
    let d2 = squared_distance(x, y, a, b);
    assert(d2 * (SCALE * SCALE) < 0x2_0000_0000_0000_0000_0000_0000) by (nonlinear_arith)
        requires
            d2 < 0x2_0000_0000_0000_0000u128,
            SCALE * SCALE == 0x1_0000_0000u128,
    ;
    let scaled = d2 * (SCALE * SCALE);
    let r = int_sqrt(scaled);
    proof {
        lemma_isqrt(scaled as nat);
        if r >= DIST_BOUND {
            assert(r * r >= DIST_BOUND * DIST_BOUND) by (nonlinear_arith)
                requires
                    r >= DIST_BOUND,
            ;
        }
    }
    r
}

/// Midpoints of intervals `lo[k]..hi[k]`, rounded down: one coordinate of
/// each city's estimated position.
pub fn midpoints(lo: &[u32], hi: &[u32]) -> (r: Vec<u32>)
    requires
        lo@.len() == hi@.len(),
    ensures
        r@.len() == lo@.len(),
        forall|k: int| 0 <= k < r@.len() ==> #[trigger] r@[k] == (lo@[k] + hi@[k]) / 2,
{
    let mut r: Vec<u32> = Vec::new();
    let mut k: usize = 0;
    while k < lo.len()
        invariant
            lo@.len() == hi@.len(),
            k <= lo@.len(),
            r@.len() == k,
            forall|q: int| 0 <= q < k ==> #[trigger] r@[q] == (lo@[q] + hi@[q]) / 2,
        decreases lo@.len() - k,
    {
        let m = (lo[k] as u64 + hi[k] as u64) / 2;
        r.push(m as u32);
        k = k + 1;
    }
    r
}

} // verus!
