//! Points, lines, and exact integer distance arithmetic.
//!
//! Coordinates are integer pixel positions.  Euclidean distances are
//! irrational in general, so the engine works with squared distances
//! and with the floor of the true distance (an integer square root);
//! both are exact, and every comparison against an integer tolerance
//! agrees with the comparison on the real distance.

use vstd::prelude::*;

verus! {

/// Coordinates of pipeline data stay well below this bound, so that
/// every distance computation fits in 64- and 128-bit integers.
pub const GEOM_BOUND: i64 = 0x4000_0000;

/// An (x, y) coordinate pair in image pixel space.
#[derive(Clone, Copy, PartialEq, Eq, Structural, Debug)]
pub struct Point(pub i64, pub i64);

/// A straight segment between two points, with the approximate stroke
/// width it was extracted from.
#[derive(Clone, Copy, PartialEq, Eq, Structural, Debug)]
pub struct Line {
    pub start: Point,
    pub end: Point,
    pub thickness: i64,
}

/// The square of an integer.
pub open spec fn sq(n: int) -> int {
    n * n
}

/// `r` is the floor of the (real) square root of `n`.
pub open spec fn is_sqrt_floor(n: int, r: int) -> bool {
    0 <= r && sq(r) <= n && n < sq(r + 1)
}

/// The floor of the square root of `n`, as a total function.
pub open spec fn sqrt_floor(n: nat) -> nat
    decreases n,
{
    if n == 0 {
        0
    } else {
        let p = sqrt_floor((n - 1) as nat);
        if sq(p as int + 1) <= n {
            p + 1
        } else {
            p
        }
    }
}

/// The squared Euclidean distance between two points.
pub open spec fn dist_sq(a: Point, b: Point) -> int {
    sq(a.0 - b.0) + sq(a.1 - b.1)
}

/// Both coordinates lie within the range the engine computes in.
pub open spec fn pt_bounded(p: Point) -> bool {
    -GEOM_BOUND <= p.0 <= GEOM_BOUND && -GEOM_BOUND <= p.1 <= GEOM_BOUND
}

/// All four endpoint coordinates are in range.
pub open spec fn line_pts_bounded(l: Line) -> bool {
    pt_bounded(l.start) && pt_bounded(l.end)
}

/// How alike two lines are: the floor-distance between their start
/// points plus the floor-distance between their end points, discounted
/// by both thicknesses, so thicker strokes tolerate more spread.
pub open spec fn similarity(a: Line, b: Line) -> int {
    sqrt_floor(dist_sq(a.start, b.start) as nat) + sqrt_floor(dist_sq(a.end, b.end) as nat)
        - a.thickness - b.thickness
}

/// The merge of two lines: each endpoint of `a` is pushed further by
/// its displacement from the matching endpoint of `b`, and the
/// thicknesses add up.
pub open spec fn merged(a: Line, b: Line) -> Line {
    Line {
        start: Point((2 * a.start.0 - b.start.0) as i64, (2 * a.start.1 - b.start.1) as i64),
        end: Point((2 * a.end.0 - b.end.0) as i64, (2 * a.end.1 - b.end.1) as i64),
        thickness: (a.thickness + b.thickness) as i64,
    }
}

/// The dot product of the segment vector of `l` with the vector from
/// `l.start` to `p`.
pub open spec fn seg_dot(l: Line, p: Point) -> int {
    (l.end.0 - l.start.0) * (p.0 - l.start.0) + (l.end.1 - l.start.1) * (p.1 - l.start.1)
}

/// Numerator of the squared clamped-projection distance from `p` to
/// the segment `l`: the squared distance is `num / den` as a rational.
/// When the projection of `p` falls before `l.start` (or the segment
/// is degenerate) the closest point is `l.start`; past `l.end` it is
/// `l.end`; otherwise it is the foot of the perpendicular.
pub open spec fn seg_dist_num(l: Line, p: Point) -> int {
    let absq = dist_sq(l.start, l.end);
    let dot = seg_dot(l, p);
    if absq == 0 || dot <= 0 {
        dist_sq(l.start, p)
    } else if dot >= absq {
        dist_sq(l.end, p)
    } else {
        dist_sq(l.start, p) * absq - dot * dot
    }
}

/// Denominator of the squared clamped-projection distance.
pub open spec fn seg_dist_den(l: Line, p: Point) -> int {
    let absq = dist_sq(l.start, l.end);
    let dot = seg_dot(l, p);
    if absq == 0 || dot <= 0 || dot >= absq {
        1
    } else {
        absq
    }
}

/// The floor of the clamped-projection distance from `p` to `l`.
pub open spec fn seg_dist(l: Line, p: Point) -> int {
    sqrt_floor((seg_dist_num(l, p) / seg_dist_den(l, p)) as nat) as int
}

/// The real clamped-projection distance from `p` to `l` is strictly
/// below `tol`.
pub open spec fn within_seg_dist(l: Line, p: Point, tol: int) -> bool {
    seg_dist_num(l, p) < sq(tol) * seg_dist_den(l, p)
}

pub proof fn lemma_sq_nonneg(a: int)
    ensures
        sq(a) >= 0,
{
    assert(a * a >= 0) by (nonlinear_arith);
}

pub proof fn lemma_sq_swap(a: int, b: int)
    ensures
        sq(a - b) == sq(b - a),
{
    assert((a - b) * (a - b) == (b - a) * (b - a)) by (nonlinear_arith);
}

/// Lagrange's identity in two dimensions.
proof fn lemma_lagrange(px: int, py: int, qx: int, qy: int)
    ensures
        (px * px + py * py) * (qx * qx + qy * qy) - (px * qx + py * qy) * (px * qx + py * qy)
            == (px * qy - py * qx) * (px * qy - py * qx),
{
    let a = px * qx;
    let b = py * qy;
    let c = px * qy;
    let d = py * qx;
    assert((px * qx + py * qy) * (px * qx + py * qy) == a * a + 2 * (a * b) + b * b)
        by (nonlinear_arith)
        requires
            a == px * qx && b == py * qy,
    ;
    assert((px * qy - py * qx) * (px * qy - py * qx) == c * c - 2 * (c * d) + d * d)
        by (nonlinear_arith)
        requires
            c == px * qy && d == py * qx,
    ;
    assert((px * px + py * py) * (qx * qx + qy * qy) == (px * px) * (qx * qx) + (px * px) * (qy
        * qy) + (py * py) * (qx * qx) + (py * py) * (qy * qy)) by (nonlinear_arith);
    assert((px * px) * (qx * qx) == a * a) by (nonlinear_arith)
        requires
            a == px * qx,
    ;
    assert((px * px) * (qy * qy) == c * c) by (nonlinear_arith)
        requires
            c == px * qy,
    ;
    assert((py * py) * (qx * qx) == d * d) by (nonlinear_arith)
        requires
            d == py * qx,
    ;
    assert((py * py) * (qy * qy) == b * b) by (nonlinear_arith)
        requires
            b == py * qy,
    ;
    assert(a * b == c * d) by (nonlinear_arith)
        requires
            a == px * qx && b == py * qy && c == px * qy && d == py * qx,
    ;
}

pub proof fn lemma_sq_mono(a: int, b: int)
    requires
        0 <= a <= b,
    ensures
        sq(a) <= sq(b),
{
    assert(a * a <= b * b) by (nonlinear_arith)
        requires
            0 <= a <= b,
    ;
}

/// `sqrt_floor` meets its defining property.
pub proof fn lemma_sqrt_floor(n: nat)
    ensures
        is_sqrt_floor(n as int, sqrt_floor(n) as int),
    decreases n,
{
    if n == 0 {
        assert(sq(0) == 0);
        assert(sq(1) == 1);
    } else {
        lemma_sqrt_floor((n - 1) as nat);
        let p = sqrt_floor((n - 1) as nat) as int;
        if sq(p + 1) <= n {
            assert(sq(p + 1) < sq(p + 2)) by (nonlinear_arith)
                requires
                    p >= 0,
            ;
        }
    }
}

/// The floor of the square root is unique.
pub proof fn lemma_sqrt_floor_unique(n: nat, r: int)
    requires
        is_sqrt_floor(n as int, r),
    ensures
        r == sqrt_floor(n),
{
    lemma_sqrt_floor(n);
    let s = sqrt_floor(n) as int;
    if r < s {
        lemma_sq_mono(r + 1, s);
        assert(false);
    }
    if r > s {
        lemma_sq_mono(s + 1, r);
        assert(false);
    }
}

/// The floor of the square root of `n`, by binary search.
pub fn isqrt_u128(n: u128) -> (r: u128)
    ensures
        is_sqrt_floor(n as int, r as int),
        r == sqrt_floor(n as nat),
{
    let mut lo: u128 = 0;
    let mut hi: u128 = 0x1_0000_0000_0000_0000;
    assert((0x1_0000_0000_0000_0000 as int) * (0x1_0000_0000_0000_0000 as int) > u128::MAX as int)
        by (nonlinear_arith);
    while lo + 1 < hi
        invariant
            lo < hi <= 0x1_0000_0000_0000_0000,
            sq(lo as int) <= n as int,
            (n as int) < sq(hi as int),
        decreases hi - lo,
    {
        let mid = lo + (hi - lo) / 2;
        assert(lo < mid < hi);
        assert(mid * mid <= u128::MAX) by (nonlinear_arith)
            requires
                mid < 0x1_0000_0000_0000_0000,
        ;
        if mid * mid <= n {
            lo = mid;
        } else {
            hi = mid;
        }
    }
    proof {
        lemma_sqrt_floor_unique(n as nat, lo as int);
    }
    lo
}

impl Point {
    /// The squared Euclidean distance to `other`; exact.
    pub fn distance_sq(&self, other: &Point) -> (r: i128)
        requires
            pt_bounded(*self),
            pt_bounded(*other),
        ensures
            r as int == dist_sq(*self, *other),
            0 <= r <= 0x8000_0000_0000_0000,
    {
        let dx: i128 = self.0 as i128 - other.0 as i128;
        let dy: i128 = self.1 as i128 - other.1 as i128;
        assert(0 <= dx * dx <= 0x4000_0000_0000_0000) by (nonlinear_arith)
            requires
                -0x8000_0000 <= dx <= 0x8000_0000,
        ;
        assert(0 <= dy * dy <= 0x4000_0000_0000_0000) by (nonlinear_arith)
            requires
                -0x8000_0000 <= dy <= 0x8000_0000,
        ;
        dx * dx + dy * dy
    }

    /// The floor of the Euclidean distance to `other`.
    ///
    /// For any integer tolerance `t`, the result is `< t` exactly when
    /// the real distance is `< t`.
    pub fn distance(&self, other: &Point) -> (r: i64)
        requires
            pt_bounded(*self),
            pt_bounded(*other),
        ensures
            r == sqrt_floor(dist_sq(*self, *other) as nat),
            0 <= r <= 0x1_0000_0000,
    {
        let dsq = self.distance_sq(other);
        let r = isqrt_u128(dsq as u128);
        proof {
            if r > 0x1_0000_0000 {
                assert(sq(0x1_0000_0000 as int) <= sq(r as int)) by (nonlinear_arith)
                    requires
                        0x1_0000_0000 <= r,
                ;
                assert(false);
            }
        }
        r as i64
    }
}

/// Lagrange's identity in two dimensions: the squared-distance
/// numerator of the interior case is a perfect square, hence never
/// negative.
pub proof fn lemma_seg_num_nonneg(l: Line, p: Point)
    ensures
        seg_dist_num(l, p) >= 0,
        seg_dist_den(l, p) >= 1,
{
    let abx = l.end.0 - l.start.0;
    let aby = l.end.1 - l.start.1;
    let apx = p.0 - l.start.0;
    let apy = p.1 - l.start.1;
    let absq = dist_sq(l.start, l.end);
    let apsq = dist_sq(l.start, p);
    let dot = seg_dot(l, p);
    lemma_sq_nonneg(apx);
    lemma_sq_nonneg(apy);
    lemma_sq_nonneg(abx);
    lemma_sq_nonneg(aby);
    lemma_sq_nonneg(l.start.0 - p.0);
    lemma_sq_nonneg(l.start.1 - p.1);
    lemma_sq_nonneg(l.end.0 - p.0);
    lemma_sq_nonneg(l.end.1 - p.1);
    lemma_sq_swap(l.start.0 as int, l.end.0 as int);
    lemma_sq_swap(l.start.1 as int, l.end.1 as int);
    lemma_sq_swap(l.start.0 as int, p.0 as int);
    lemma_sq_swap(l.start.1 as int, p.1 as int);
    assert(apsq == apx * apx + apy * apy);
    assert(absq == abx * abx + aby * aby);
    assert(dot == abx * apx + aby * apy);
    lemma_lagrange(apx, apy, abx, aby);
    assert((apx * aby - apy * abx) * (apx * aby - apy * abx) >= 0) by (nonlinear_arith);
    assert(apsq * absq - dot * dot >= 0);
}

/// Comparing the floor of the segment distance against an integer
/// tolerance agrees exactly with comparing the real distance.
pub proof fn lemma_seg_dist_cmp(l: Line, p: Point, tol: int)
    requires
        tol >= 0,
    ensures
        seg_dist(l, p) < tol <==> within_seg_dist(l, p, tol),
{
    lemma_seg_num_nonneg(l, p);
    let num = seg_dist_num(l, p);
    let den = seg_dist_den(l, p);
    let m = num / den;
    vstd::arithmetic::div_mod::lemma_fundamental_div_mod(num, den);
    vstd::arithmetic::div_mod::lemma_mod_bound(num, den);
    assert(num == den * m + num % den);
    assert(m >= 0) by {
        if m < 0 {
            assert(den * m <= -den) by (nonlinear_arith)
                requires
                    den >= 1 && m <= -1,
            ;
        }
    }
    let r = sqrt_floor(m as nat) as int;
    lemma_sqrt_floor(m as nat);
    // r < tol  <==>  m < sq(tol)
    if r < tol {
        lemma_sq_mono(r + 1, tol);
        assert(m < sq(tol));
    }
    if r >= tol {
        lemma_sq_mono(tol, r);
        assert(m >= sq(tol));
    }
    // m < sq(tol)  <==>  num < sq(tol) * den
    lemma_sq_nonneg(tol);
    if m < sq(tol) {
        assert(den * m + (den - 1) < sq(tol) * den) by (nonlinear_arith)
            requires
                den >= 1 && m <= sq(tol) - 1 && 0 <= sq(tol),
        ;
    }
    if m >= sq(tol) {
        assert(den * m >= sq(tol) * den) by (nonlinear_arith)
            requires
                den >= 1 && m >= sq(tol),
        ;
    }
}

/// When two lines are similar within `tol`, each coordinate of each
/// endpoint of `a` lies within `tol` plus the combined thickness of
/// the matching coordinate of `b`.
pub proof fn lemma_similar_displacement(a: Line, b: Line, tol: int)
    requires
        similarity(a, b) < tol,
        a.thickness >= 0,
        b.thickness >= 0,
        tol >= 0,
    ensures
        ({
            let t = tol + a.thickness + b.thickness;
            &&& -t <= a.start.0 - b.start.0 <= t
            &&& -t <= a.start.1 - b.start.1 <= t
            &&& -t <= a.end.0 - b.end.0 <= t
            &&& -t <= a.end.1 - b.end.1 <= t
        }),
{
    let t = tol + a.thickness + b.thickness;
    let dss = dist_sq(a.start, b.start);
    let dse = dist_sq(a.end, b.end);
    lemma_sq_nonneg(a.start.0 - b.start.0);
    lemma_sq_nonneg(a.start.1 - b.start.1);
    lemma_sq_nonneg(a.end.0 - b.end.0);
    lemma_sq_nonneg(a.end.1 - b.end.1);
    lemma_sqrt_floor(dss as nat);
    lemma_sqrt_floor(dse as nat);
    let r1 = sqrt_floor(dss as nat) as int;
    let r2 = sqrt_floor(dse as nat) as int;
    assert(r1 <= t - 1 && r2 <= t - 1 || t == 0 && r1 == 0 && r2 == 0);
    lemma_sq_mono(r1 + 1, t);
    lemma_sq_mono(r2 + 1, t);
    assert(dss < sq(t) && dse < sq(t)) by {
        if t == 0 {
            assert(sq(1) == 1);
        }
    }
    lemma_coord_within(a.start.0 - b.start.0, t, dss - sq(a.start.1 - b.start.1));
    lemma_coord_within(a.start.1 - b.start.1, t, dss - sq(a.start.0 - b.start.0));
    lemma_coord_within(a.end.0 - b.end.0, t, dse - sq(a.end.1 - b.end.1));
    lemma_coord_within(a.end.1 - b.end.1, t, dse - sq(a.end.0 - b.end.0));
}

/// A coordinate whose square is below `sq(t)` lies within `[-t, t]`.
proof fn lemma_coord_within(d: int, t: int, dsq: int)
    requires
        sq(d) <= dsq < sq(t),
        t >= 0,
    ensures
        -t <= d <= t,
{
    if d > t {
        lemma_sq_mono(t, d);
    }
    if d < -t {
        lemma_sq_mono(t, -d);
        assert(sq(-d) == sq(d)) by (nonlinear_arith);
    }
}

impl Line {
    /// The similarity of two lines; see [`similarity`].
    pub fn similarity_to(&self, other: &Line) -> (r: i64)
        requires
            line_pts_bounded(*self),
            line_pts_bounded(*other),
            0 <= self.thickness <= GEOM_BOUND,
            0 <= other.thickness <= GEOM_BOUND,
        ensures
            r == similarity(*self, *other),
    {
        self.start.distance(&other.start) + self.end.distance(&other.end) - self.thickness
            - other.thickness
    }

    /// The merge of two similar lines; see [`merged`].
    pub fn merge_with(&self, other: &Line) -> (r: Line)
        requires
            line_pts_bounded(*self),
            line_pts_bounded(*other),
            -GEOM_BOUND <= self.thickness + other.thickness <= GEOM_BOUND,
        ensures
            r == merged(*self, *other),
            r.start.0 == 2 * self.start.0 - other.start.0,
            r.start.1 == 2 * self.start.1 - other.start.1,
            r.end.0 == 2 * self.end.0 - other.end.0,
            r.end.1 == 2 * self.end.1 - other.end.1,
            r.thickness == self.thickness + other.thickness,
    {
        Line {
            start: Point(
                2 * self.start.0 - other.start.0,
                2 * self.start.1 - other.start.1,
            ),
            end: Point(2 * self.end.0 - other.end.0, 2 * self.end.1 - other.end.1),
            thickness: self.thickness + other.thickness,
        }
    }

    /// The floor of the clamped-projection distance from `point` to
    /// this segment.
    ///
    /// For any integer tolerance `t`, the result is `< t` exactly when
    /// the real distance is `< t`; see [`lemma_seg_dist_cmp`].
    pub fn distance_to_point(&self, point: &Point) -> (r: i64)
        requires
            line_pts_bounded(*self),
            pt_bounded(*point),
        ensures
            r == seg_dist(*self, *point),
            0 <= r <= 0x1_0000_0000,
    {
        let ax = self.start.0 as i128;
        let ay = self.start.1 as i128;
        let bx = self.end.0 as i128;
        let by = self.end.1 as i128;
        let px = point.0 as i128;
        let py = point.1 as i128;
        let abx = bx - ax;
        let aby = by - ay;
        let apx = px - ax;
        let apy = py - ay;
        proof {
            lemma_prod_bound(abx as int, abx as int);
            lemma_prod_bound(aby as int, aby as int);
            lemma_prod_bound(apx as int, apx as int);
            lemma_prod_bound(apy as int, apy as int);
            lemma_prod_bound(abx as int, apx as int);
            lemma_prod_bound(aby as int, apy as int);
            lemma_sq_nonneg(abx as int);
            lemma_sq_nonneg(aby as int);
            lemma_sq_nonneg(apx as int);
            lemma_sq_nonneg(apy as int);
        }
        let absq = abx * abx + aby * aby;
        let apsq = apx * apx + apy * apy;
        let dot = abx * apx + aby * apy;
        proof {
            lemma_seg_num_nonneg(*self, *point);
            lemma_sq_swap(self.start.0 as int, self.end.0 as int);
            lemma_sq_swap(self.start.1 as int, self.end.1 as int);
            lemma_sq_swap(self.start.0 as int, point.0 as int);
            lemma_sq_swap(self.start.1 as int, point.1 as int);
            assert(absq as int == dist_sq(self.start, self.end));
            assert(apsq as int == dist_sq(self.start, *point));
            assert(dot as int == seg_dot(*self, *point));
        }
        let dsq: u128 = if absq == 0 || dot <= 0 {
            apsq as u128
        } else if dot >= absq {
            proof {
                lemma_prod_bound((bx - px) as int, (bx - px) as int);
                lemma_prod_bound((by - py) as int, (by - py) as int);
                lemma_sq_nonneg((bx - px) as int);
                lemma_sq_nonneg((by - py) as int);
            }
            let bpsq = (bx - px) * (bx - px) + (by - py) * (by - py);
            proof {
                assert(bpsq as int == dist_sq(self.end, *point));
            }
            bpsq as u128
        } else {
            assert(0 <= apsq * absq <= 0x4000_0000_0000_0000_0000_0000_0000_0000)
                by (nonlinear_arith)
                requires
                    0 <= apsq <= 0x8000_0000_0000_0000 && 0 <= absq <= 0x8000_0000_0000_0000,
            ;
            assert(0 <= dot * dot <= 0x4000_0000_0000_0000_0000_0000_0000_0000)
                by (nonlinear_arith)
                requires
                    -0x8000_0000_0000_0000 <= dot <= 0x8000_0000_0000_0000,
            ;
            let num = apsq * absq - dot * dot;
            proof {
                assert(num as int == seg_dist_num(*self, *point));
                assert(absq as int == seg_dist_den(*self, *point));
                // num / absq is at most apsq, since num <= apsq * absq.
                vstd::arithmetic::div_mod::lemma_div_is_ordered(
                    num as int,
                    apsq * absq,
                    absq as int,
                );
                vstd::arithmetic::div_mod::lemma_div_by_multiple(apsq as int, absq as int);
                vstd::arithmetic::div_mod::lemma_div_pos_is_pos(num as int, absq as int);
            }
            (num as u128) / (absq as u128)
        };
        proof {
            assert(dsq as int == seg_dist_num(*self, *point) / seg_dist_den(*self, *point))
                by {
                    vstd::arithmetic::div_mod::lemma_div_basics(seg_dist_num(*self, *point));
                }
            assert(dsq <= 0x8000_0000_0000_0000);
        }
        let r = isqrt_u128(dsq);
        proof {
            if r > 0x1_0000_0000 {
                assert(sq(0x1_0000_0001) > 0x8000_0000_0000_0000) by (nonlinear_arith);
                lemma_sq_mono(0x1_0000_0001, r as int);
                assert(false);
            }
        }
        r as i64
    }
}

/// Products of quantities below `2^31` in magnitude stay inside
/// signed 64 bits.
proof fn lemma_prod_bound(a: int, b: int)
    requires
        -0x8000_0000 <= a <= 0x8000_0000,
        -0x8000_0000 <= b <= 0x8000_0000,
    ensures
        -0x4000_0000_0000_0000 <= a * b <= 0x4000_0000_0000_0000,
{
    assert(-0x4000_0000_0000_0000 <= a * b <= 0x4000_0000_0000_0000) by (nonlinear_arith)
        requires
            -0x8000_0000 <= a <= 0x8000_0000 && -0x8000_0000 <= b <= 0x8000_0000,
    ;
}

} // verus!
