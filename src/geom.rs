//! Points, circles and directions, with exact predicates on them.
use vstd::prelude::*;

verus! {

/// Largest absolute value of a center coordinate.
pub const COORD_LIMIT: i64 = 16384;

/// Largest radius.
pub const RADIUS_LIMIT: i64 = 32768;

/// Largest absolute value of a coordinate handed to `Circle::contains`.
pub const PLANE_LIMIT: i64 = 1152921504606846976;

/// A point of the plane, or a vector.
#[derive(Clone, Copy, Debug, PartialEq, Eq, Structural)]
pub struct Point {
    pub x: i64,
    pub y: i64,
}

pub open spec fn dist_sq(a: Point, b: Point) -> int {
    (a.x - b.x) * (a.x - b.x) + (a.y - b.y) * (a.y - b.y)
}

pub open spec fn in_plane(p: Point) -> bool {
    -PLANE_LIMIT <= p.x <= PLANE_LIMIT && -PLANE_LIMIT <= p.y <= PLANE_LIMIT
}

/// `v * v` is at most `b * b` when `|v| <= b`.
pub proof fn lemma_square_bound(v: int, b: int)
    requires
        -b <= v <= b,
    ensures
        v * v <= b * b,
        0 <= v * v,
{
    assert(v * v <= b * b) by (nonlinear_arith)
        requires
            -b <= v <= b,
    ;
    assert(0 <= v * v) by (nonlinear_arith);
}

/// A circle; an inverted one stands for the outside of its disk.
#[derive(Clone, Copy, Debug, PartialEq, Eq, Structural)]
pub struct Circle {
    pub center: Point,
    pub radius: i64,
    pub inverted: bool,
}

impl Circle {
    /// Positive radius, and center and radius within the limits that keep
    /// every computation of this crate inside 128-bit integers.
    pub open spec fn wf(self) -> bool {
        &&& 0 < self.radius <= RADIUS_LIMIT
        &&& -COORD_LIMIT <= self.center.x <= COORD_LIMIT
        &&& -COORD_LIMIT <= self.center.y <= COORD_LIMIT
    }

    /// Whether `p` lies in the region of this circle: strictly inside the
    /// disk for an ordinary circle, on or outside it for an inverted one.
    pub open spec fn contains_spec(self, p: Point) -> bool {
        (dist_sq(self.center, p) < self.radius * self.radius) != self.inverted
    }

    /// Whether the circle meets `wf`.
    pub fn is_valid(self) -> (r: bool)
        ensures
            r == self.wf(),
    {
        0 < self.radius && self.radius <= RADIUS_LIMIT && -COORD_LIMIT <= self.center.x
            && self.center.x <= COORD_LIMIT && -COORD_LIMIT <= self.center.y
            && self.center.y <= COORD_LIMIT
    }

    pub fn contains(self, pos: Point) -> (r: bool)
        requires
            self.wf(),
            in_plane(pos),
        ensures
            r == self.contains_spec(pos),
    {
        let dx = self.center.x as i128 - pos.x as i128;
        let dy = self.center.y as i128 - pos.y as i128;
        proof {
            lemma_square_bound(dx as int, 0x2000_0000_0000_0000);
            lemma_square_bound(dy as int, 0x2000_0000_0000_0000);
        }
        let r = self.radius as i128;
        proof {
            lemma_square_bound(r as int, RADIUS_LIMIT as int);
        }
        (dx * dx + dy * dy < r * r) != self.inverted
    }
}


/// An inverted circle holds exactly the points on or outside its disk, the
/// complement of what the same circle holds when not inverted.
pub proof fn lemma_inverted_is_complement(c: Circle, p: Point)
    requires
        c.inverted,
    ensures
        c.contains_spec(p) <==> dist_sq(c.center, p) >= c.radius * c.radius,
        c.contains_spec(p) <==> !(Circle { inverted: false, ..c }).contains_spec(p),
{
}

/// Largest absolute value of a component of a direction vector.
pub const DIR_LIMIT: i64 = 0x40_0000_0000;

pub open spec fn dir_ok(d: Point) -> bool {
    &&& -DIR_LIMIT <= d.x <= DIR_LIMIT
    &&& -DIR_LIMIT <= d.y <= DIR_LIMIT
    &&& (d.x != 0 || d.y != 0)
}

/// Length to which the directions of an arc's ends are scaled.
pub const UNIT: i64 = 0x1000_0000;

/// A direction that an arc's end can have: no longer than `UNIT` in each
/// component, so that the sum of two of them is still a direction.
pub open spec fn end_dir_ok(d: Point) -> bool {
    &&& dir_ok(d)
    &&& -UNIT <= d.x <= UNIT
    &&& -UNIT <= d.y <= UNIT
}

pub open spec fn cross(a: Point, b: Point) -> int {
    a.x * b.y - a.y * b.x
}

pub open spec fn dot(a: Point, b: Point) -> int {
    a.x * b.x + a.y * b.y
}

/// The angle of `d`, taken in `[0, 2π)`, is at least `π`.
pub open spec fn lower_half(d: Point) -> bool {
    d.y < 0 || (d.y == 0 && d.x < 0)
}

/// The angle of `a` is below the angle of `b`, both taken in `[0, 2π)`.
pub open spec fn angle_lt(a: Point, b: Point) -> bool {
    ||| (!lower_half(a) && lower_half(b))
    ||| (lower_half(a) == lower_half(b) && cross(a, b) > 0)
}

pub proof fn lemma_angle_lt_asymmetric(a: Point, b: Point)
    ensures
        angle_lt(a, b) ==> !angle_lt(b, a),
{
    assert(cross(b, a) == -cross(a, b)) by (nonlinear_arith);
}

proof fn lemma_cross_bound(a: Point, b: Point)
    requires
        dir_ok(a),
        dir_ok(b),
    ensures
        -0x1_0000_0000_0000_0000_0000 <= a.x * b.y <= 0x1_0000_0000_0000_0000_0000,
        -0x1_0000_0000_0000_0000_0000 <= a.y * b.x <= 0x1_0000_0000_0000_0000_0000,
        -0x1_0000_0000_0000_0000_0000 <= a.x * b.x <= 0x1_0000_0000_0000_0000_0000,
        -0x1_0000_0000_0000_0000_0000 <= a.y * b.y <= 0x1_0000_0000_0000_0000_0000,
        -0x2_0000_0000_0000_0000_0000 <= cross(a, b) <= 0x2_0000_0000_0000_0000_0000,
        -0x2_0000_0000_0000_0000_0000 <= dot(a, b) <= 0x2_0000_0000_0000_0000_0000,
{
    let l = DIR_LIMIT as int;
    assert(-l * l <= a.x * b.y <= l * l) by (nonlinear_arith)
        requires -l <= a.x <= l, -l <= b.y <= l;
    assert(-l * l <= a.y * b.x <= l * l) by (nonlinear_arith)
        requires -l <= a.y <= l, -l <= b.x <= l;
    assert(-l * l <= a.x * b.x <= l * l) by (nonlinear_arith)
        requires -l <= a.x <= l, -l <= b.x <= l;
    assert(-l * l <= a.y * b.y <= l * l) by (nonlinear_arith)
        requires -l <= a.y <= l, -l <= b.y <= l;
}

/// Compares the angles of two directions exactly.
pub fn angle_less(a: Point, b: Point) -> (r: bool)
    requires
        dir_ok(a),
        dir_ok(b),
    ensures
        r == angle_lt(a, b),
{
    proof {
        lemma_cross_bound(a, b);
    }
    let la = a.y < 0 || (a.y == 0 && a.x < 0);
    let lb = b.y < 0 || (b.y == 0 && b.x < 0);
    if la != lb {
        !la
    } else {
        (a.x as i128) * (b.y as i128) - (a.y as i128) * (b.x as i128) > 0
    }
}

/// `r` is the integer square root of `k`.
pub open spec fn is_root(k: int, r: int) -> bool {
    0 <= r && r * r <= k < (r + 1) * (r + 1)
}

pub open spec fn isqrt_spec(k: int) -> int {
    choose|r: int| is_root(k, r)
}

pub proof fn lemma_root_unique(k: int, r1: int, r2: int)
    requires
        is_root(k, r1),
        is_root(k, r2),
    ensures
        r1 == r2,
{
    if r1 < r2 {
        assert((r1 + 1) * (r1 + 1) <= r2 * r2) by (nonlinear_arith)
            requires 0 <= r1 + 1 <= r2;
    } else if r2 < r1 {
        assert((r2 + 1) * (r2 + 1) <= r1 * r1) by (nonlinear_arith)
            requires 0 <= r2 + 1 <= r1;
    }
}

/// Every non-negative integer has an integer square root, and `isqrt_spec`
/// gives it.
pub proof fn lemma_root_exists(k: int)
    requires
        0 <= k,
    ensures
        is_root(k, isqrt_spec(k)),
    decreases k,
{
    if k == 0 {
        assert(is_root(0, 0));
    } else {
        lemma_root_exists(k - 1);
        let r = isqrt_spec(k - 1);
        if (r + 1) * (r + 1) <= k {
            assert((r + 2) * (r + 2) > k) by (nonlinear_arith)
                requires (r + 1) * (r + 1) <= k, k - 1 < (r + 1) * (r + 1), 0 <= r;
            assert(is_root(k, r + 1));
        } else {
            assert(is_root(k, r));
        }
    }
}

/// The integer square root, found by bisection.
pub fn isqrt(k: u128) -> (r: u128)
    requires
        k < 0x100_0000_0000_0000_0000_0000_0000_0000,
    ensures
        is_root(k as int, r as int),
        r == isqrt_spec(k as int),
        r < 0x1000_0000_0000_0000,
{
    let mut lo: u128 = 0;
    let mut hi: u128 = 0x1000_0000_0000_0000;
    assert(0x1000_0000_0000_0000u128 * 0x1000_0000_0000_0000u128
        == 0x100_0000_0000_0000_0000_0000_0000_0000u128);
    while hi - lo > 1
        invariant
            lo < hi <= 0x1000_0000_0000_0000,
            lo * lo <= k,
            k < hi * hi,
        decreases hi - lo,
    {
        let mid = lo + (hi - lo) / 2;
        assert(mid * mid <= 0x100_0000_0000_0000_0000_0000_0000_0000) by (nonlinear_arith)
            requires mid <= 0x1000_0000_0000_0000;
        if mid * mid <= k {
            lo = mid;
        } else {
            hi = mid;
        }
    }
    proof {
        assert(is_root(k as int, lo as int));
        lemma_root_unique(k as int, lo as int, isqrt_spec(k as int));
    }
    lo
}

/// `c · UNIT / len`, rounded toward zero.
pub open spec fn scale_to_unit(c: int, len: int) -> int {
    if c >= 0 {
        c * UNIT / len
    } else {
        -((-c) * UNIT / len)
    }
}

/// The direction of the vector `(x, y)`, scaled to length `UNIT` (up to
/// rounding).
pub open spec fn unit_dir(x: int, y: int) -> Point {
    let len = isqrt_spec(x * x + y * y);
    Point { x: scale_to_unit(x, len) as i64, y: scale_to_unit(y, len) as i64 }
}

/// `|c| · UNIT / len` lies in `[0, UNIT]` when `|c| <= len`, and is at least 1
/// when moreover `2·|c| >= len`.
proof fn lemma_scale_bound(m: int, len: int)
    requires
        0 <= m <= len,
        0 < len,
    ensures
        0 <= m * UNIT / len <= UNIT,
        2 * m >= len ==> m * UNIT / len >= 1,
{
    let u = UNIT as int;
    let q = m * u / len;
    vstd::arithmetic::div_mod::lemma_fundamental_div_mod(m * u, len);
    let r = (m * u) % len;
    vstd::arithmetic::div_mod::lemma_mod_bound(m * u, len);
    assert(m * u == len * q + r);
    assert(0 <= q) by (nonlinear_arith)
        requires m * u == len * q + r, 0 <= r < len, 0 <= m, u > 0, len > 0;
    assert(q <= u) by (nonlinear_arith)
        requires m * u == len * q + r, 0 <= r < len, m <= len, u > 0, len > 0;
    if 2 * m >= len {
        assert(q >= 1) by (nonlinear_arith)
            requires m * u == len * q + r, 0 <= r < len, 2 * m >= len, u >= 2, len > 0;
    }
}

/// Scales the nonzero vector `(x, y)` to length `UNIT`.
pub fn unit_direction(x: i128, y: i128) -> (r: Point)
    requires
        x != 0 || y != 0,
        -0x400_0000_0000_0000 <= x <= 0x400_0000_0000_0000,
        -0x400_0000_0000_0000 <= y <= 0x400_0000_0000_0000,
    ensures
        r == unit_dir(x as int, y as int),
        end_dir_ok(r),
{
    let ax: u128 = if x < 0 { (-x) as u128 } else { x as u128 };
    let ay: u128 = if y < 0 { (-y) as u128 } else { y as u128 };
    proof {
        lemma_square_bound(x as int, 0x400_0000_0000_0000);
        lemma_square_bound(y as int, 0x400_0000_0000_0000);
        assert(ax * ax == x * x && ay * ay == y * y) by (nonlinear_arith)
            requires ax == x || ax == -x, ay == y || ay == -y;
    }
    let q = ax * ax + ay * ay;
    let len = isqrt(q);
    proof {
        let l = len as int;
        assert(ax <= l && ay <= l) by (nonlinear_arith)
            requires ax * ax <= q, ay * ay <= q, q < (l + 1) * (l + 1), 0 <= l, ax >= 0, ay >= 0;
        assert(l > 0) by (nonlinear_arith)
            requires q < (l + 1) * (l + 1), q == ax * ax + ay * ay, ax > 0 || ay > 0, 0 <= l, ax >= 0, ay >= 0;
        assert(2 * ax >= l || 2 * ay >= l) by (nonlinear_arith)
            requires l * l <= q, q == ax * ax + ay * ay, 0 <= l, ax >= 0, ay >= 0;
        lemma_scale_bound(ax as int, l);
        lemma_scale_bound(ay as int, l);
        assert(q == x * x + y * y);
    }
    let sx = (ax * (UNIT as u128) / len) as i64;
    let sy = (ay * (UNIT as u128) / len) as i64;
    let px = if x < 0 { -sx } else { sx };
    let py = if y < 0 { -sy } else { sy };
    Point { x: px, y: py }
}

/// The direction halfway round the counter-clockwise arc from `u` to `v`,
/// for ends of equal length (the ends of arcs are scaled to length `UNIT`):
/// the sum `u + v` when the arc is under half a turn, its opposite when it is
/// over, `u` turned a quarter when it is exactly half a turn, and `-u` for the
/// full turn (`u`, `v` alike).
pub open spec fn mid_dir(u: Point, v: Point) -> Point {
    let c = cross(u, v);
    if c > 0 {
        Point { x: (u.x + v.x) as i64, y: (u.y + v.y) as i64 }
    } else if c < 0 {
        Point { x: (-(u.x + v.x)) as i64, y: (-(u.y + v.y)) as i64 }
    } else if dot(u, v) > 0 {
        Point { x: (-u.x) as i64, y: (-u.y) as i64 }
    } else {
        Point { x: (-u.y) as i64, y: u.x }
    }
}

/// Computes `mid_dir(u, v)`.
pub fn middle_direction(u: Point, v: Point) -> (r: Point)
    requires
        end_dir_ok(u),
        end_dir_ok(v),
    ensures
        r == mid_dir(u, v),
        dir_ok(r),
        strictly_inside(u, v, r),
{
    proof {
        lemma_cross_bound(u, v);
    }
    let c = (u.x as i128) * (v.y as i128) - (u.y as i128) * (v.x as i128);
    let d = (u.x as i128) * (v.x as i128) + (u.y as i128) * (v.y as i128);
    proof {
        lemma_sum_nonzero_if_cross(u, v);
        lemma_mid_inside(u, v, mid_dir(u, v));
    }
    if c > 0 {
        proof {
            lemma_sum_nonzero(u, v);
        }
        Point { x: u.x + v.x, y: u.y + v.y }
    } else if c < 0 {
        proof {
            lemma_sum_nonzero(u, v);
        }
        Point { x: -(u.x + v.x), y: -(u.y + v.y) }
    } else if d > 0 {
        Point { x: -u.x, y: -u.y }
    } else {
        Point { x: -u.y, y: u.x }
    }
}

/// `w` points strictly between the ends of the counter-clockwise arc from
/// `u` to `v`: left of `u` and right of `v`, or, on a full turn, anywhere but
/// along `u`.
pub open spec fn strictly_inside(u: Point, v: Point, w: Point) -> bool {
    if cross(u, v) == 0 && dot(u, v) > 0 {
        cross(u, w) != 0 || dot(u, w) < 0
    } else {
        cross(u, w) > 0 && cross(w, v) > 0
    }
}

proof fn lemma_mid_inside(u: Point, v: Point, w: Point)
    requires
        u.x != 0 || u.y != 0,
        v.x != 0 || v.y != 0,
        end_dir_ok(u),
        end_dir_ok(v),
        w == mid_dir(u, v),
    ensures
        strictly_inside(u, v, w),
{
    let c = cross(u, v);
    if c > 0 {
        assert(cross(u, w) == c && cross(w, v) == c) by (nonlinear_arith)
            requires w.x == u.x + v.x, w.y == u.y + v.y, c == u.x * v.y - u.y * v.x;
    } else if c < 0 {
        assert(cross(u, w) == -c && cross(w, v) == -c) by (nonlinear_arith)
            requires w.x == -(u.x + v.x), w.y == -(u.y + v.y), c == u.x * v.y - u.y * v.x;
    } else if dot(u, v) > 0 {
        assert(dot(u, w) == -(u.x * u.x + u.y * u.y)) by (nonlinear_arith)
            requires w.x == -u.x, w.y == -u.y;
        assert(u.x * u.x + u.y * u.y > 0) by (nonlinear_arith)
            requires u.x != 0 || u.y != 0;
    } else {
        assert(cross(u, w) == u.x * u.x + u.y * u.y) by (nonlinear_arith)
            requires w.x == -u.y, w.y == u.x;
        assert(u.x * u.x + u.y * u.y > 0) by (nonlinear_arith)
            requires u.x != 0 || u.y != 0;
        // v points against u: v = -λ·u for some λ > 0
        assert(cross(w, v) == -dot(u, v)) by (nonlinear_arith)
            requires w.x == -u.y, w.y == u.x;
        assert(dot(u, v) != 0) by (nonlinear_arith)
            requires cross(u, v) == 0, u.x != 0 || u.y != 0, v.x != 0 || v.y != 0,
                cross(u, v) == u.x * v.y - u.y * v.x, dot(u, v) == u.x * v.x + u.y * v.y;
    }
}

proof fn lemma_sum_nonzero_if_cross(u: Point, v: Point)
    ensures
        cross(u, v) != 0 ==> (u.x + v.x != 0 || u.y + v.y != 0),
{
    if cross(u, v) != 0 {
        lemma_sum_nonzero(u, v);
    }
}

proof fn lemma_sum_nonzero(u: Point, v: Point)
    requires
        cross(u, v) != 0,
    ensures
        u.x + v.x != 0 || u.y + v.y != 0,
{
    if u.x + v.x == 0 && u.y + v.y == 0 {
        assert(cross(u, v) == 0) by (nonlinear_arith)
            requires v.x == -u.x, v.y == -u.y;
    }
}

/// `m < l·√w`, decided without leaving the integers (`w >= 0`).
pub open spec fn lt_scaled_root(m: int, l: int, w: int) -> bool {
    if l >= 0 {
        m < 0 || m * m < l * l * w
    } else {
        m < 0 && m * m > l * l * w
    }
}

/// The point of `around` in direction `w` from its center lies in the
/// region of `other`. With `e = around.center - other.center`, `r` and `r'`
/// the radii, that point is in the open disk of `other` exactly when
/// `2·r·(e·w) < (r'² - r² - |e|²)·|w|`.
pub open spec fn arc_point_in(other: Circle, around: Circle, w: Point) -> bool {
    let e = Point { x: (around.center.x - other.center.x) as i64, y: (around.center.y - other.center.y) as i64 };
    let m = 2 * around.radius * dot(e, w);
    let l = other.radius * other.radius - around.radius * around.radius - dot(e, e);
    lt_scaled_root(m, l, dot(w, w)) != other.inverted
}

impl Circle {
    /// Whether the point of `around` in direction `w` from its center lies in
    /// the region of this circle.
    pub fn contains_arc_point(self, around: Circle, w: Point) -> (r: bool)
        requires
            self.wf(),
            around.wf(),
            dir_ok(w),
            -0x2000_0000 <= w.x <= 0x2000_0000,
            -0x2000_0000 <= w.y <= 0x2000_0000,
        ensures
            r == arc_point_in(self, around, w),
    {
        let ex = around.center.x as i128 - self.center.x as i128;
        let ey = around.center.y as i128 - self.center.y as i128;
        let wx = w.x as i128;
        let wy = w.y as i128;
        let ra = around.radius as i128;
        let ro = self.radius as i128;
        proof {
            lemma_product_bound(ex as int, wx as int, 0x8000, 0x2000_0000);
            lemma_product_bound(ey as int, wy as int, 0x8000, 0x2000_0000);
            lemma_square_bound(ex as int, 0x8000);
            lemma_square_bound(ey as int, 0x8000);
            lemma_square_bound(ra as int, 0x8000);
            lemma_square_bound(ro as int, 0x8000);
            lemma_square_bound(wx as int, 0x2000_0000);
            lemma_square_bound(wy as int, 0x2000_0000);
        }
        let ew = ex * wx + ey * wy;
        proof {
            lemma_product_bound(2 * ra, ew as int, 0x1_0000, 0x2000_0000_0000);
        }
        let m = 2 * ra * ew;
        let l = ro * ro - ra * ra - (ex * ex + ey * ey);
        let ww = wx * wx + wy * wy;
        proof {
            lemma_square_bound(m as int, 0x2000_0000_0000_0000);
            lemma_square_bound(l as int, 0x1_0000_0000);
            lemma_product_bound(l * l, ww as int, 0x1_0000_0000_0000_0000, 0x800_0000_0000_0000);
        }
        let inside = if l >= 0 {
            m < 0 || m * m < l * l * ww
        } else {
            m < 0 && m * m > l * l * ww
        };
        inside != self.inverted
    }
}

/// `|a·b| <= la·lb` when `|a| <= la` and `|b| <= lb`.
pub proof fn lemma_product_bound(a: int, b: int, la: int, lb: int)
    requires
        -la <= a <= la,
        -lb <= b <= lb,
    ensures
        -(la * lb) <= a * b <= la * lb,
{
    assert(-(la * lb) <= a * b <= la * lb) by (nonlinear_arith)
        requires -la <= a <= la, -lb <= b <= lb;
}

} // verus!
