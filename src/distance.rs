use vstd::prelude::*;
use crate::models::Node;

verus! {

/// Largest magnitude of a coordinate that the distance model accepts.
pub const COORD_LIMIT: i64 = 1_000_000_000;

/// The coordinates of a node lie within `COORD_LIMIT`.
pub open spec fn coords_ok(n: Node) -> bool {
    -COORD_LIMIT <= n.lon <= COORD_LIMIT && -COORD_LIMIT <= n.lat <= COORD_LIMIT
}

/// Squared Euclidean distance between two nodes.
pub open spec fn sq_dist(a: Node, b: Node) -> int {
    (a.lon - b.lon) * (a.lon - b.lon) + (a.lat - b.lat) * (a.lat - b.lat)
}

/// `r` is the integer square root of `n`, rounded down.
pub open spec fn is_isqrt(n: int, r: int) -> bool {
    0 <= r && r * r <= n < (r + 1) * (r + 1)
}

/// Integer square root, rounded down.
pub fn isqrt(n: u64) -> (r: u64)
    requires
        n <= 8_000_000_000_000_000_000,
    ensures
        is_isqrt(n as int, r as int),
{
    let mut lo: u64 = 0;
    let mut hi: u64 = 3_000_000_000;
    assert(hi * hi == 9_000_000_000_000_000_000u64);
    while hi - lo > 1
        invariant
            lo < hi <= 3_000_000_000,
            lo * lo <= n,
            n < hi * hi,
        decreases hi - lo,
    {
        let mid: u64 = lo + (hi - lo) / 2;
        assert(mid * mid <= 9_000_000_000_000_000_000) by (nonlinear_arith)
            requires mid <= 3_000_000_000;
        if mid * mid <= n {
            lo = mid;
        } else {
            hi = mid;
        }
    }
    assert(hi == lo + 1);
    lo
}

/// Straight-line distance between two nodes, rounded down to an integer.
/// The same value weighs edges and serves as the A* estimate.
pub fn euclidean_distance(a: &Node, b: &Node) -> (r: u64)
    requires
        coords_ok(*a),
        coords_ok(*b),
    ensures
        is_isqrt(sq_dist(*a, *b), r as int),
{
    let dx: i64 = a.lon - b.lon;
    let dy: i64 = a.lat - b.lat;
    let ax: u64 = if dx < 0 { (-dx) as u64 } else { dx as u64 };
    let ay: u64 = if dy < 0 { (-dy) as u64 } else { dy as u64 };
    assert(ax * ax <= 4_000_000_000_000_000_000) by (nonlinear_arith)
        requires ax <= 2_000_000_000;
    assert(ay * ay <= 4_000_000_000_000_000_000) by (nonlinear_arith)
        requires ay <= 2_000_000_000;
    assert(ax * ax == dx * dx) by (nonlinear_arith)
        requires ax == dx || ax == -dx;
    assert(ay * ay == dy * dy) by (nonlinear_arith)
        requires ay == dy || ay == -dy;
    let d2: u64 = ax * ax + ay * ay;
    isqrt(d2)
}

/// An integer has one integer square root.
pub proof fn lemma_isqrt_unique(n: int, r1: int, r2: int)
    requires
        is_isqrt(n, r1),
        is_isqrt(n, r2),
    ensures
        r1 == r2,
{
    if r1 < r2 {
        assert((r1 + 1) * (r1 + 1) <= r2 * r2) by (nonlinear_arith)
            requires 0 <= r1 + 1 <= r2;
    }
    if r2 < r1 {
        assert((r2 + 1) * (r2 + 1) <= r1 * r1) by (nonlinear_arith)
            requires 0 <= r2 + 1 <= r1;
    }
}

/// The integer square root of `n`, rounded down.
pub open spec fn isqrt_of(n: int) -> u64 {
    choose|r: u64| is_isqrt(n, r as int)
}

/// A computed square root is the one `isqrt_of` names.
pub proof fn lemma_isqrt_of(n: int, r: u64)
    requires
        is_isqrt(n, r as int),
    ensures
        isqrt_of(n) == r,
{
    lemma_isqrt_unique(n, isqrt_of(n) as int, r as int);
}

/// `r` is the integer square root of `n`, rounded up.
pub open spec fn is_isqrt_up(n: int, r: int) -> bool {
    0 <= r && n <= r * r && (r == 0 || (r - 1) * (r - 1) < n)
}

/// Integer square root, rounded up.
pub fn isqrt_up(n: u64) -> (r: u64)
    requires
        n <= 8_000_000_000_000_000_000,
    ensures
        is_isqrt_up(n as int, r as int),
{
    let f = isqrt(n);
    assert(f * f <= 8_000_000_000_000_000_000);
    if f * f == n {
        if f > 0 {
            assert((f - 1) * (f - 1) < f * f) by (nonlinear_arith)
                requires f > 0;
        }
        f
    } else {
        assert(f < 3_000_000_000) by (nonlinear_arith)
            requires f * f <= 8_000_000_000_000_000_000, f >= 0;
        f + 1
    }
}

/// Straight-line distance between two nodes, rounded up: the weight of an
/// edge between them. Rounding edges up and estimates down keeps the
/// estimate consistent.
pub fn edge_distance(a: &Node, b: &Node) -> (r: u64)
    requires
        coords_ok(*a),
        coords_ok(*b),
    ensures
        is_isqrt_up(sq_dist(*a, *b), r as int),
{
    let dx: i64 = a.lon - b.lon;
    let dy: i64 = a.lat - b.lat;
    let ax: u64 = if dx < 0 { (-dx) as u64 } else { dx as u64 };
    let ay: u64 = if dy < 0 { (-dy) as u64 } else { dy as u64 };
    assert(ax * ax <= 4_000_000_000_000_000_000) by (nonlinear_arith)
        requires ax <= 2_000_000_000;
    assert(ay * ay <= 4_000_000_000_000_000_000) by (nonlinear_arith)
        requires ay <= 2_000_000_000;
    assert(ax * ax == dx * dx) by (nonlinear_arith)
        requires ax == dx || ax == -dx;
    assert(ay * ay == dy * dy) by (nonlinear_arith)
        requires ay == dy || ay == -dy;
    let d2: u64 = ax * ax + ay * ay;
    isqrt_up(d2)
}

/// An integer has one integer square root rounded up.
pub proof fn lemma_isqrt_up_unique(n: int, r1: int, r2: int)
    requires
        is_isqrt_up(n, r1),
        is_isqrt_up(n, r2),
    ensures
        r1 == r2,
{
    if r1 < r2 {
        assert(r1 * r1 <= (r2 - 1) * (r2 - 1)) by (nonlinear_arith)
            requires 0 <= r1 <= r2 - 1;
    }
    if r2 < r1 {
        assert(r2 * r2 <= (r1 - 1) * (r1 - 1)) by (nonlinear_arith)
            requires 0 <= r2 <= r1 - 1;
    }
}

/// Every natural number up to the limit has an integer square root.
pub proof fn lemma_isqrt_exists(n: int)
    requires
        0 <= n <= 8_000_000_000_000_000_000,
    ensures
        is_isqrt(n, isqrt_of(n) as int),
    decreases n,
{
    if n == 0 {
        assert(is_isqrt(0, 0u64 as int));
    } else {
        lemma_isqrt_exists(n - 1);
        let r = isqrt_of(n - 1);
        assert(r as int * r <= 8_000_000_000_000_000_000);
        assert(r < 3_000_000_000) by (nonlinear_arith)
            requires r as int * r <= 8_000_000_000_000_000_000, r >= 0;
        if (r + 1) * (r + 1) <= n {
            let r1 = (r + 1) as u64;
            assert((r1 + 1) * (r1 + 1) > n) by (nonlinear_arith)
                requires n - 1 < (r + 1) * (r + 1), r1 == r + 1;
            assert(is_isqrt(n, r1 as int));
        } else {
            assert(is_isqrt(n, r as int));
        }
    }
}

/// Straight-line distance, rounded down, drops by at most the rounded-up
/// length of a step: `floor |x - z| <= ceil |x - y| + floor |y - z|`.
pub proof fn lemma_rounded_triangle(x: Node, y: Node, z: Node, r1: int, r2: int, r3: int)
    requires
        is_isqrt_up(sq_dist(x, y), r1),
        is_isqrt(sq_dist(y, z), r2),
        is_isqrt(sq_dist(x, z), r3),
    ensures
        r3 <= r1 + r2,
{
    let u1 = x.lon - y.lon;
    let u2 = x.lat - y.lat;
    let v1 = y.lon - z.lon;
    let v2 = y.lat - z.lat;
    let a = u1 * u1 + u2 * u2;
    let b = v1 * v1 + v2 * v2;
    let d = u1 * v1 + u2 * v2;
    let c = (u1 + v1) * (u1 + v1) + (u2 + v2) * (u2 + v2);
    assert(x.lon - z.lon == u1 + v1 && x.lat - z.lat == u2 + v2);
    assert(c == sq_dist(x, z));
    assert(c == a + b + 2 * d) by (nonlinear_arith)
        requires c == (u1 + v1) * (u1 + v1) + (u2 + v2) * (u2 + v2), a == u1 * u1 + u2 * u2, b == v1 * v1 + v2 * v2,
            d == u1 * v1 + u2 * v2;
    let p1 = u1 * v1;
    let p2 = u2 * v2;
    let q1 = u1 * v2;
    let q2 = u2 * v1;
    assert(d * d == p1 * p1 + 2 * (p1 * p2) + p2 * p2) by (nonlinear_arith)
        requires d == p1 + p2;
    assert(a * b == u1 * u1 * (v1 * v1) + u1 * u1 * (v2 * v2) + u2 * u2 * (v1 * v1) + u2 * u2 * (v2 * v2)) by (nonlinear_arith)
        requires a == u1 * u1 + u2 * u2, b == v1 * v1 + v2 * v2;
    assert(u1 * u1 * (v1 * v1) == p1 * p1) by (nonlinear_arith)
        requires p1 == u1 * v1;
    assert(u2 * u2 * (v2 * v2) == p2 * p2) by (nonlinear_arith)
        requires p2 == u2 * v2;
    assert(u1 * u1 * (v2 * v2) == q1 * q1) by (nonlinear_arith)
        requires q1 == u1 * v2;
    assert(u2 * u2 * (v1 * v1) == q2 * q2) by (nonlinear_arith)
        requires q2 == u2 * v1;
    assert(p1 * p2 == q1 * q2) by (nonlinear_arith)
        requires p1 == u1 * v1, p2 == u2 * v2, q1 == u1 * v2, q2 == u2 * v1;
    assert(0 <= (q1 - q2) * (q1 - q2)) by (nonlinear_arith);
    assert((q1 - q2) * (q1 - q2) == q1 * q1 - 2 * (q1 * q2) + q2 * q2) by (nonlinear_arith);
    assert(d * d <= a * b);
    assert(0 <= b) by (nonlinear_arith)
        requires b == v1 * v1 + v2 * v2;
    assert(0 <= a) by (nonlinear_arith)
        requires a == u1 * u1 + u2 * u2;
    let k = r1 + r2 + 1;
    let p = r1 * (r2 + 1);
    assert(p >= 0) by (nonlinear_arith)
        requires r1 >= 0, r2 >= 0, p == r1 * (r2 + 1);
    assert(a * b <= p * p) by (nonlinear_arith)
        requires a <= r1 * r1, 0 <= b < (r2 + 1) * (r2 + 1), p == r1 * (r2 + 1), r1 >= 0, a >= 0;
    assert(d <= p) by (nonlinear_arith)
        requires d * d <= a * b, a * b <= p * p, p >= 0;
    assert(c < k * k) by (nonlinear_arith)
        requires c == a + b + 2 * d, a <= r1 * r1, b < (r2 + 1) * (r2 + 1), d <= p, p == r1 * (r2 + 1), k == r1 + r2 + 1;
    if r3 >= k {
        assert(k * k <= r3 * r3) by (nonlinear_arith)
            requires 0 <= k <= r3;
    }
}

} // verus!
