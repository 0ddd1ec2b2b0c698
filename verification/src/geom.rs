//! Fixed-point plane geometry for the road network.
//!
//! All coordinates are integers counting `SUBUNITS` per world unit, so the
//! whole derivation of lane positions and point projection is exact and
//! deterministic.

use vstd::arithmetic::div_mod::{
    lemma_div_by_multiple, lemma_div_is_ordered, lemma_div_pos_is_pos,
};
use vstd::prelude::*;

verus! {

/// Number of coordinate steps in one world unit.
pub const SUBUNITS: i64 = 1000;

/// Intersection centers must lie within this coordinate magnitude.
pub const MAX_COORD: i64 = 1_000_000_000;

/// Derived lane-node positions always stay within this magnitude.
pub const NODE_COORD_BOUND: i64 = 1_000_100_000;

/// A lane-node sits at most this far (25 units) from its own intersection.
pub const HALF_LEN_CAP: i64 = 25_000;

/// Lanes sit this far (4 units) to the side of the road centerline.
pub const LANE_OFFSET: i64 = 4_000;

/// A point (or displacement) of the plane, in fixed-point coordinates.
#[derive(Clone, Copy, PartialEq, Eq, Structural, Debug)]
pub struct Vec2 {
    pub x: i64,
    pub y: i64,
}

impl Vec2 {
    pub fn new(x: i64, y: i64) -> (v: Vec2)
        ensures
            v == (Vec2 { x, y }),
    {
        Vec2 { x, y }
    }
}

/// Both coordinates of `v` have magnitude at most `b`.
pub open spec fn in_bounds(v: Vec2, b: int) -> bool {
    -b <= v.x <= b && -b <= v.y <= b
}

/// Squared euclidean distance between two points.
pub open spec fn dist2(a: Vec2, b: Vec2) -> int {
    (a.x - b.x) * (a.x - b.x) + (a.y - b.y) * (a.y - b.y)
}

proof fn lemma_mul_bounds(a: int, b: int, ca: int, cb: int)
    by (nonlinear_arith)
    requires
        -ca <= a <= ca,
        -cb <= b <= cb,
        0 <= ca,
        0 <= cb,
    ensures
        -(ca * cb) <= a * b <= ca * cb,
{
}

proof fn lemma_square_nonneg(a: int)
    by (nonlinear_arith)
    ensures
        a * a >= 0,
{
}

/// `r` is the floor of the square root of `n`.
pub open spec fn is_sqrt_floor(n: int, r: int) -> bool {
    0 <= r && r * r <= n && n < (r + 1) * (r + 1)
}

/// Floor of the square root of a non-negative integer.
pub open spec fn sqrt_floor(n: int) -> int {
    choose|r: int| is_sqrt_floor(n, r)
}

pub proof fn lemma_sqrt_floor_exists(n: int)
    requires
        n >= 0,
    ensures
        is_sqrt_floor(n, sqrt_floor(n)),
    decreases n,
{
    if n == 0 {
        assert(is_sqrt_floor(0, 0));
    } else {
        lemma_sqrt_floor_exists(n - 1);
        let r = sqrt_floor(n - 1);
        if (r + 1) * (r + 1) <= n {
            assert(is_sqrt_floor(n, r + 1)) by (nonlinear_arith)
                requires
                    0 <= r,
                    (r + 1) * (r + 1) <= n,
                    n - 1 < (r + 1) * (r + 1),
            {
            }
        } else {
            assert(is_sqrt_floor(n, r));
        }
    }
    assert(exists|r: int| is_sqrt_floor(n, r));
}

/// The floor square root is unique, so any witness equals `sqrt_floor`.
pub proof fn lemma_sqrt_is(n: int, r: int)
    requires
        is_sqrt_floor(n, r),
    ensures
        sqrt_floor(n) == r,
{
    lemma_sqrt_floor_exists(n);
    let s = sqrt_floor(n);
    assert(s == r) by (nonlinear_arith)
        requires
            is_sqrt_floor(n, r),
            is_sqrt_floor(n, s),
    {
    }
}

/// Any value whose square is at most `n` is at most the floor square root.
pub proof fn lemma_sqrt_dominates(n: int, r: int, x: int)
    by (nonlinear_arith)
    requires
        is_sqrt_floor(n, r),
        0 <= x,
        x * x <= n,
    ensures
        x <= r,
{
}

/// Floor square root of `n` is at most any `b` with `n <= b * b`.
pub proof fn lemma_sqrt_bounded(n: int, r: int, b: int)
    by (nonlinear_arith)
    requires
        is_sqrt_floor(n, r),
        0 <= b,
        n <= b * b,
    ensures
        r <= b,
{
}

/// Floor of the square root, by binary search.
pub fn isqrt64(n: u64) -> (r: u64)
    ensures
        is_sqrt_floor(n as int, r as int),
        r as int == sqrt_floor(n as int),
{
    let mut lo: u64 = 0;
    let mut hi: u64 = 0x1_0000_0000;
    assert(0x1_0000_0000int * 0x1_0000_0000int > u64::MAX as int) by (nonlinear_arith);
    while lo + 1 < hi
        invariant
            lo < hi <= 0x1_0000_0000,
            (lo as int) * (lo as int) <= n as int,
            (n as int) < (hi as int) * (hi as int),
        decreases hi - lo,
    {
        let mid: u64 = lo + (hi - lo) / 2;
        proof {
            assert((mid as int) * (mid as int) <= 0x1_0000_0000 * 0x1_0000_0000)
                by (nonlinear_arith)
                requires
                    0 <= mid as int <= 0x1_0000_0000,
            {
            }
        }
        if (mid as u128) * (mid as u128) <= (n as u128) {
            lo = mid;
        } else {
            hi = mid;
        }
    }
    proof {
        assert(is_sqrt_floor(n as int, lo as int));
        lemma_sqrt_is(n as int, lo as int);
    }
    lo
}

/// Integer division rounding toward zero, as the executable code computes it.
pub open spec fn div_trunc(a: int, b: int) -> int {
    if a >= 0 {
        a / b
    } else {
        -((-a) / b)
    }
}

/// Truncating division never exceeds `c` in magnitude when `|a| <= b * c`.
pub proof fn lemma_div_trunc_bound(a: int, b: int, c: int)
    requires
        b > 0,
        c >= 0,
        -(b * c) <= a <= b * c,
    ensures
        -c <= div_trunc(a, b) <= c,
{
    if a >= 0 {
        lemma_div_pos_is_pos(a, b);
        lemma_div_is_ordered(a, b * c, b);
        lemma_div_by_multiple(c, b);
        assert(b * c == c * b) by (nonlinear_arith);
    } else {
        lemma_div_pos_is_pos(-a, b);
        lemma_div_is_ordered(-a, b * c, b);
        lemma_div_by_multiple(c, b);
        assert(b * c == c * b) by (nonlinear_arith);
    }
}

/// For `0 <= t <= l`, `v * t / l` truncated lies between `0` and `v`.
pub proof fn lemma_div_trunc_between(v: int, t: int, l: int)
    requires
        l > 0,
        0 <= t <= l,
    ensures
        v >= 0 ==> 0 <= div_trunc(v * t, l) <= v,
        v < 0 ==> v <= div_trunc(v * t, l) <= 0,
{
    if v >= 0 {
        assert(0 <= v * t <= l * v) by (nonlinear_arith)
            requires
                v >= 0 && 0 <= t <= l,
        {
        }
        lemma_div_trunc_bound(v * t, l, v);
        lemma_div_pos_is_pos(v * t, l);
    } else {
        assert(l * (-v) >= -(v * t) >= 0) by (nonlinear_arith)
            requires
                v < 0 && 0 <= t <= l,
        {
        }
        lemma_div_trunc_bound(v * t, l, -v);
        lemma_div_pos_is_pos(-(v * t), l);
    }
}

/// Truncating division of an `i128` by a positive `i128`.
pub fn div_trunc_i128(a: i128, b: i128) -> (q: i128)
    requires
        b > 0,
        a > i128::MIN,
    ensures
        q as int == div_trunc(a as int, b as int),
{
    if a >= 0 {
        let q = (a as u128) / (b as u128);
        q as i128
    } else {
        let q = ((-a) as u128) / (b as u128);
        proof {
            lemma_div_pos_is_pos(-(a as int), b as int);
            vstd::arithmetic::div_mod::lemma_div_nonincreasing(-(a as int), b as int);
        }
        -(q as i128)
    }
}

/// Half the distance between the two centers, capped at `HALF_LEN_CAP`.
pub open spec fn half_len(d: int) -> int {
    if d / 2 < HALF_LEN_CAP {
        d / 2
    } else {
        HALF_LEN_CAP as int
    }
}

/// Derived position of the outgoing lane-node of the directed connection
/// `src -> dst`: from the source center, `half_len` toward the destination,
/// shifted `LANE_OFFSET` to the right of the direction of travel.
pub open spec fn out_lane_pos(src: Vec2, dst: Vec2) -> (int, int) {
    let dx = dst.x - src.x;
    let dy = dst.y - src.y;
    let d = sqrt_floor(dist2(src, dst));
    if d <= 0 {
        (src.x as int, src.y as int)
    } else {
        let l = half_len(d);
        (
            src.x + div_trunc(dx * l, d) + div_trunc(dy * (LANE_OFFSET as int), d),
            src.y + div_trunc(dy * l, d) - div_trunc(dx * (LANE_OFFSET as int), d),
        )
    }
}

/// Derived position of the incoming lane-node of `src -> dst`: from the
/// destination center, `half_len` back toward the source, shifted to the same
/// side as the paired outgoing lane.
pub open spec fn in_lane_pos(src: Vec2, dst: Vec2) -> (int, int) {
    let dx = dst.x - src.x;
    let dy = dst.y - src.y;
    let d = sqrt_floor(dist2(src, dst));
    if d <= 0 {
        (dst.x as int, dst.y as int)
    } else {
        let l = half_len(d);
        (
            dst.x - div_trunc(dx * l, d) + div_trunc(dy * (LANE_OFFSET as int), d),
            dst.y - div_trunc(dy * l, d) - div_trunc(dx * (LANE_OFFSET as int), d),
        )
    }
}

/// The two displacement components applied to a center are small: along the
/// road at most the capped half-length, sideways at most the lane offset.
proof fn lemma_lane_div_bounds(dx: int, dy: int, d2: int, d: int, l: int)
    requires
        d2 == dx * dx + dy * dy,
        is_sqrt_floor(d2, d),
        d >= 1,
        0 <= l <= 25_000,
    ensures
        -d <= dx <= d,
        -d <= dy <= d,
        -25_000 <= div_trunc(dx * l, d) <= 25_000,
        -25_000 <= div_trunc(dy * l, d) <= 25_000,
        -4_000 <= div_trunc(dx * 4_000, d) <= 4_000,
        -4_000 <= div_trunc(dy * 4_000, d) <= 4_000,
        -(d * 25_000) <= dx * l <= d * 25_000,
        -(d * 25_000) <= dy * l <= d * 25_000,
        -(d * 4_000) <= dx * 4_000 <= d * 4_000,
        -(d * 4_000) <= dy * 4_000 <= d * 4_000,
{
    lemma_square_nonneg(dx);
    lemma_square_nonneg(dy);
    assert((-dx) * (-dx) == dx * dx) by (nonlinear_arith);
    assert((-dy) * (-dy) == dy * dy) by (nonlinear_arith);
    if dx >= 0 {
        lemma_sqrt_dominates(d2, d, dx);
    } else {
        lemma_sqrt_dominates(d2, d, -dx);
    }
    if dy >= 0 {
        lemma_sqrt_dominates(d2, d, dy);
    } else {
        lemma_sqrt_dominates(d2, d, -dy);
    }
    lemma_mul_bounds(dx, l, d, 25_000);
    lemma_mul_bounds(dy, l, d, 25_000);
    lemma_mul_bounds(dx, 4_000, d, 4_000);
    lemma_mul_bounds(dy, 4_000, d, 4_000);
    lemma_div_trunc_bound(dx * l, d, 25_000);
    lemma_div_trunc_bound(dy * l, d, 25_000);
    lemma_div_trunc_bound(dx * 4_000, d, 4_000);
    lemma_div_trunc_bound(dy * 4_000, d, 4_000);
}

/// Computes the positions of the two lane-nodes of the directed connection
/// `src -> dst`: the outgoing node near `src` and the incoming node near
/// `dst`.
pub fn lane_endpoints(src: Vec2, dst: Vec2) -> (r: (Vec2, Vec2))
    requires
        in_bounds(src, MAX_COORD as int),
        in_bounds(dst, MAX_COORD as int),
    ensures
        (r.0.x as int, r.0.y as int) == out_lane_pos(src, dst),
        (r.1.x as int, r.1.y as int) == in_lane_pos(src, dst),
        in_bounds(r.0, NODE_COORD_BOUND as int),
        in_bounds(r.1, NODE_COORD_BOUND as int),
{
    let dx: i128 = dst.x as i128 - src.x as i128;
    let dy: i128 = dst.y as i128 - src.y as i128;
    proof {
        lemma_mul_bounds(dx as int, dx as int, 2_000_000_000, 2_000_000_000);
        lemma_mul_bounds(dy as int, dy as int, 2_000_000_000, 2_000_000_000);
        lemma_square_nonneg(dx as int);
        lemma_square_nonneg(dy as int);
    }
    let w: i128 = dx * dx + dy * dy;
    proof {
        assert(dx as int == dst.x - src.x && dy as int == dst.y - src.y);
        assert((dx as int) * (dx as int) == (src.x - dst.x) * (src.x - dst.x))
            by (nonlinear_arith)
            requires
                dx as int == dst.x - src.x,
        {
        }
        assert((dy as int) * (dy as int) == (src.y - dst.y) * (src.y - dst.y))
            by (nonlinear_arith)
            requires
                dy as int == dst.y - src.y,
        {
        }
        assert(w as int == dist2(src, dst));
        assert(0 <= w as int <= 8_000_000_000_000_000_000);
    }
    let d2: u64 = w as u64;
    let d: u64 = isqrt64(d2);
    if d == 0 {
        proof {
            lemma_sqrt_is(dist2(src, dst), 0);
        }
        (src, dst)
    } else {
        proof {
            assert(3_000_000_000int * 3_000_000_000int >= d2 as int) by (nonlinear_arith)
                requires
                    d2 as int <= 8_000_000_000_000_000_001,
            {
            }
            lemma_sqrt_bounded(d2 as int, d as int, 3_000_000_000);
        }
        let di: i128 = d as i128;
        let dh: u64 = d / 2;
        let l: i128 = if dh < 25_000 {
            dh as i128
        } else {
            25_000
        };
        proof {
            assert(d as int / 2 == dh as int);
            assert(l as int == half_len(d as int));
            lemma_lane_div_bounds(dx as int, dy as int, d2 as int, d as int, l as int);
            lemma_sqrt_is(dist2(src, dst), d as int);
        }
        let along_x: i128 = div_trunc_i128(dx * l, di);
        let along_y: i128 = div_trunc_i128(dy * l, di);
        let side_x: i128 = div_trunc_i128(dy * (LANE_OFFSET as i128), di);
        let side_y: i128 = div_trunc_i128(dx * (LANE_OFFSET as i128), di);
        proof {
            assert((dx as int) * (l as int) == (dst.x - src.x) * half_len(d as int))
                by (nonlinear_arith)
                requires
                    dx as int == dst.x - src.x,
                    l as int == half_len(d as int),
            {
            }
            assert((dy as int) * (l as int) == (dst.y - src.y) * half_len(d as int))
                by (nonlinear_arith)
                requires
                    dy as int == dst.y - src.y,
                    l as int == half_len(d as int),
            {
            }
            assert((dx as int) * (LANE_OFFSET as int) == (dst.x - src.x) * (LANE_OFFSET as int))
                by (nonlinear_arith)
                requires
                    dx as int == dst.x - src.x,
            {
            }
            assert((dy as int) * (LANE_OFFSET as int) == (dst.y - src.y) * (LANE_OFFSET as int))
                by (nonlinear_arith)
                requires
                    dy as int == dst.y - src.y,
            {
            }
        }
        let out = Vec2 {
            x: (src.x as i128 + along_x + side_x) as i64,
            y: (src.y as i128 + along_y - side_y) as i64,
        };
        let into = Vec2 {
            x: (dst.x as i128 - along_x + side_x) as i64,
            y: (dst.y as i128 - along_y - side_y) as i64,
        };
        (out, into)
    }
}

/// Squared distance, computed exactly in wide arithmetic.
pub fn dist2_exec(a: Vec2, b: Vec2) -> (r: i128)
    requires
        in_bounds(a, 4_000_000_000),
        in_bounds(b, 4_000_000_000),
    ensures
        r as int == dist2(a, b),
{
    let dx: i128 = a.x as i128 - b.x as i128;
    let dy: i128 = a.y as i128 - b.y as i128;
    proof {
        lemma_mul_bounds(dx as int, dx as int, 8_000_000_000, 8_000_000_000);
        lemma_mul_bounds(dy as int, dy as int, 8_000_000_000, 8_000_000_000);
        lemma_square_nonneg(dx as int);
        lemma_square_nonneg(dy as int);
    }
    dx * dx + dy * dy
}

/// Dot product of `p - a` with `b - a`, clamped to `[0, |b - a|^2]`: the
/// parameter (scaled by `|b - a|^2`) of the point of segment `a b` closest
/// to `p`.
pub open spec fn seg_t(p: Vec2, a: Vec2, b: Vec2) -> int {
    let raw = (p.x - a.x) * (b.x - a.x) + (p.y - a.y) * (b.y - a.y);
    if raw < 0 {
        0
    } else if raw > dist2(a, b) {
        dist2(a, b)
    } else {
        raw
    }
}

/// The point of segment `a b` closest to `p`, with coordinates truncated
/// toward `a`.
pub open spec fn snap_to_segment(p: Vec2, a: Vec2, b: Vec2) -> (int, int) {
    let len2 = dist2(a, b);
    if len2 <= 0 {
        (a.x as int, a.y as int)
    } else {
        let t = seg_t(p, a, b);
        (a.x + div_trunc((b.x - a.x) * t, len2), a.y + div_trunc((b.y - a.y) * t, len2))
    }
}

/// Computes the point of segment `a b` closest to `p`.
pub fn snap_on_segment(p: Vec2, a: Vec2, b: Vec2) -> (s: Vec2)
    requires
        in_bounds(p, MAX_COORD as int),
        in_bounds(a, MAX_COORD as int),
        in_bounds(b, MAX_COORD as int),
    ensures
        (s.x as int, s.y as int) == snap_to_segment(p, a, b),
        in_bounds(s, MAX_COORD as int),
{
    let abx: i128 = b.x as i128 - a.x as i128;
    let aby: i128 = b.y as i128 - a.y as i128;
    let apx: i128 = p.x as i128 - a.x as i128;
    let apy: i128 = p.y as i128 - a.y as i128;
    proof {
        lemma_mul_bounds(abx as int, abx as int, 2_000_000_000, 2_000_000_000);
        lemma_mul_bounds(aby as int, aby as int, 2_000_000_000, 2_000_000_000);
        lemma_mul_bounds(apx as int, abx as int, 2_000_000_000, 2_000_000_000);
        lemma_mul_bounds(apy as int, aby as int, 2_000_000_000, 2_000_000_000);
        lemma_square_nonneg(abx as int);
        lemma_square_nonneg(aby as int);
    }
    let len2: i128 = abx * abx + aby * aby;
    proof {
        assert(abx as int == b.x - a.x && aby as int == b.y - a.y);
        assert(apx as int == p.x - a.x && apy as int == p.y - a.y);
        assert((abx as int) * (abx as int) == (a.x - b.x) * (a.x - b.x)) by (nonlinear_arith)
            requires
                abx as int == b.x - a.x,
        {
        }
        assert((aby as int) * (aby as int) == (a.y - b.y) * (a.y - b.y)) by (nonlinear_arith)
            requires
                aby as int == b.y - a.y,
        {
        }
        assert((apx as int) * (abx as int) == (p.x - a.x) * (b.x - a.x)) by (nonlinear_arith)
            requires
                apx as int == p.x - a.x,
                abx as int == b.x - a.x,
        {
        }
        assert((apy as int) * (aby as int) == (p.y - a.y) * (b.y - a.y)) by (nonlinear_arith)
            requires
                apy as int == p.y - a.y,
                aby as int == b.y - a.y,
        {
        }
        assert(len2 as int == dist2(a, b));
    }
    if len2 == 0 {
        a
    } else {
        let raw: i128 = apx * abx + apy * aby;
        let t: i128 = if raw < 0 {
            0
        } else if raw > len2 {
            len2
        } else {
            raw
        };
        proof {
            lemma_mul_bounds(abx as int, t as int, 2_000_000_000, 8_000_000_000_000_000_000);
            lemma_mul_bounds(aby as int, t as int, 2_000_000_000, 8_000_000_000_000_000_000);
            lemma_div_trunc_between(abx as int, t as int, len2 as int);
            lemma_div_trunc_between(aby as int, t as int, len2 as int);
            assert(t as int == seg_t(p, a, b));
            assert((abx as int) * (t as int) == (b.x - a.x) * seg_t(p, a, b))
                by (nonlinear_arith)
                requires
                    abx as int == b.x - a.x,
                    t as int == seg_t(p, a, b),
            {
            }
            assert((aby as int) * (t as int) == (b.y - a.y) * seg_t(p, a, b))
                by (nonlinear_arith)
                requires
                    aby as int == b.y - a.y,
                    t as int == seg_t(p, a, b),
            {
            }
        }
        let sx: i128 = a.x as i128 + div_trunc_i128(abx * t, len2);
        let sy: i128 = a.y as i128 + div_trunc_i128(aby * t, len2);
        Vec2 { x: sx as i64, y: sy as i64 }
    }
}

} // verus!
