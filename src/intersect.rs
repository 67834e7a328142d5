//! Where two circles cross, by the radical-line method in exact integers.
use vstd::prelude::*;
use crate::geom::{
    Circle, Point, dist_sq, end_dir_ok, isqrt, isqrt_spec, lemma_product_bound, lemma_square_bound,
    unit_dir, unit_direction, is_root, lemma_root_exists,
};

verus! {

/// Two lengths count as equal when they differ by less than
/// `1 / EPSILON_SCALE`.
pub const EPSILON_SCALE: i64 = 1000;

/// `|√d_sq - len| < 1 / EPSILON_SCALE`, decided without leaving the integers.
pub open spec fn near_length(d_sq: int, len: int) -> bool {
    let e = EPSILON_SCALE as int;
    &&& e * e * d_sq < (e * len + 1) * (e * len + 1)
    &&& (e * len < 1 || (e * len - 1) * (e * len - 1) < e * e * d_sq)
}

pub open spec fn abs(v: int) -> int {
    if v < 0 { -v } else { v }
}

/// The circles touch, from outside or from inside, up to the tolerance.
pub open spec fn tangent(c1: Circle, c2: Circle) -> bool {
    let d_sq = dist_sq(c1.center, c2.center);
    near_length(d_sq, c1.radius + c2.radius) || near_length(d_sq, abs(c1.radius - c2.radius))
}

/// Twice the squared center distance times the distance, along the axis
/// from `c1` to `c2`, from `c1`'s center to the radical line.
pub open spec fn radical_offset(c1: Circle, c2: Circle) -> int {
    dist_sq(c1.center, c2.center) + c1.radius * c1.radius - c2.radius * c2.radius
}

/// `(2 · d_sq · half_chord)²`: positive exactly when the circles cross.
pub open spec fn chord_disc(c1: Circle, c2: Circle) -> int {
    let a = radical_offset(c1, c2);
    4 * dist_sq(c1.center, c2.center) * (c1.radius * c1.radius) - a * a
}

/// The circles cross at two distinct points, not at a tangency.
pub open spec fn crosses(c1: Circle, c2: Circle) -> bool {
    chord_disc(c1, c2) > 0 && !tangent(c1, c2)
}

/// The half-chord is multiplied by this before its root is taken, so that
/// rounding the root down moves a crossing point by under
/// `1 / (2 · ROOT_SCALE)`.
pub const ROOT_SCALE: i64 = 1024;

/// `ROOT_SCALE` times `2 · d_sq` times the vector from `c1`'s center to one
/// of the points where it meets `c2`, up to rounding the root down:
/// `T·a·d ± ⌊√(T²·k)⌋·perp(d)`, with `d` the axis from `c1` to `c2`; `side`
/// picks the point to the left of the axis.
pub open spec fn raw_crossing_dir(c1: Circle, c2: Circle, side: bool) -> (int, int) {
    let t = ROOT_SCALE as int;
    let dx = c2.center.x - c1.center.x;
    let dy = c2.center.y - c1.center.y;
    let a = radical_offset(c1, c2);
    let s = isqrt_spec(t * t * chord_disc(c1, c2));
    if side {
        (t * a * dx - s * dy, t * a * dy + s * dx)
    } else {
        (t * a * dx + s * dy, t * a * dy - s * dx)
    }
}

/// The half-chord in `raw_crossing_dir` is the exact one rounded down at
/// scale `ROOT_SCALE`: with `k = chord_disc(c1, c2)` and `T = ROOT_SCALE`,
/// the root `s` has `s² <= T²·k < (s + 1)²`.
pub proof fn lemma_half_chord_accuracy(c1: Circle, c2: Circle)
    requires
        chord_disc(c1, c2) >= 0,
    ensures
        is_root(
            ROOT_SCALE * ROOT_SCALE * chord_disc(c1, c2),
            isqrt_spec(ROOT_SCALE * ROOT_SCALE * chord_disc(c1, c2)),
        ),
{
    let k = chord_disc(c1, c2);
    assert(ROOT_SCALE * ROOT_SCALE * k >= 0) by (nonlinear_arith)
        requires k >= 0;
    lemma_root_exists(ROOT_SCALE * ROOT_SCALE * k);
}

/// The direction from `c1`'s center to a point where it meets `c2`, scaled
/// to length `UNIT`.
pub open spec fn crossing_dir(c1: Circle, c2: Circle, side: bool) -> Point {
    let v = raw_crossing_dir(c1, c2, side);
    unit_dir(v.0, v.1)
}

/// Names one crossing point of two circles of a list, the same from either
/// circle: `side` is the side of the axis from circle `first` to circle
/// `second`, where `first < second`.
#[derive(Clone, Copy, Debug, PartialEq, Eq, Structural)]
pub struct Crossing {
    pub first: usize,
    pub second: usize,
    pub side: bool,
}

/// The name of the point on `side` of the axis from circle `i` to circle `j`.
/// Seen from `j`, the same point lies on the other side.
pub open spec fn crossing_id(i: int, j: int, side: bool) -> Crossing {
    if i < j {
        Crossing { first: i as usize, second: j as usize, side }
    } else {
        Crossing { first: j as usize, second: i as usize, side: !side }
    }
}

/// A point where a circle is cut: its direction from the center, and its name.
#[derive(Clone, Copy, Debug, PartialEq, Eq, Structural)]
pub struct Split {
    pub dir: Point,
    pub at: Crossing,
}

/// The points where circle `j` cuts circle `i`: none, or two.
pub open spec fn pair_splits(circles: Seq<Circle>, i: int, j: int) -> Seq<Split> {
    if crosses(circles[i], circles[j]) {
        seq![
            Split { dir: crossing_dir(circles[i], circles[j], true), at: crossing_id(i, j, true) },
            Split { dir: crossing_dir(circles[i], circles[j], false), at: crossing_id(i, j, false) },
        ]
    } else {
        seq![]
    }
}

/// Circles whose centers lie the sum or the difference of their radii
/// apart, up to the tolerance, do not cut each other.
pub proof fn lemma_tangent_circles_do_not_cut(circles: Seq<Circle>, i: int, j: int)
    requires
        0 <= i < circles.len(),
        0 <= j < circles.len(),
        tangent(circles[i], circles[j]),
    ensures
        pair_splits(circles, i, j).len() == 0,
{
}

/// Neither crossing direction is the zero vector when the circles cross.
proof fn lemma_direction_nonzero(a: int, s: int, dx: int, dy: int, k: int, r_sq: int)
    requires
        k == 4 * (dx * dx + dy * dy) * r_sq - a * a,
        k > 0,
        0 <= s,
        s * s <= k < (s + 1) * (s + 1),
    ensures
        a * dx - s * dy != 0 || a * dy + s * dx != 0,
        a * dx + s * dy != 0 || a * dy - s * dx != 0,
{
    let d_sq = dx * dx + dy * dy;
    assert(d_sq > 0) by (nonlinear_arith)
        requires k == 4 * d_sq * r_sq - a * a, k > 0, d_sq == dx * dx + dy * dy;
    assert(a != 0 || s != 0) by (nonlinear_arith)
        requires k > 0, s * s <= k < (s + 1) * (s + 1), 0 <= s;
    lemma_not_both_zero(a, s, dx, dy, d_sq);
    lemma_not_both_zero(a, -s, dx, dy, d_sq);
    assert((-s) * dy == -(s * dy) && (-s) * dx == -(s * dx)) by (nonlinear_arith);
}

proof fn lemma_not_both_zero(a: int, s: int, dx: int, dy: int, d_sq: int)
    requires
        d_sq == dx * dx + dy * dy,
        d_sq > 0,
        a != 0 || s != 0,
    ensures
        a * dx - s * dy != 0 || a * dy + s * dx != 0,
{
    let p = a * dx - s * dy;
    let q = a * dy + s * dx;
    assert(dx * p + dy * q == a * d_sq) by (nonlinear_arith)
        requires p == a * dx - s * dy, q == a * dy + s * dx, d_sq == dx * dx + dy * dy;
    assert(dx * q - dy * p == s * d_sq) by (nonlinear_arith)
        requires p == a * dx - s * dy, q == a * dy + s * dx, d_sq == dx * dx + dy * dy;
    if p == 0 && q == 0 {
        assert(a * d_sq == 0 && s * d_sq == 0);
        assert(a == 0 && s == 0) by (nonlinear_arith)
            requires a * d_sq == 0, s * d_sq == 0, d_sq > 0;
    }
}

/// Names the point on `side` of the axis from circle `i` to circle `j`.
pub fn crossing_name(i: usize, j: usize, side: bool) -> (r: Crossing)
    ensures
        r == crossing_id(i as int, j as int, side),
{
    if i < j {
        Crossing { first: i, second: j, side }
    } else {
        Crossing { first: j, second: i, side: !side }
    }
}

fn near_length_exec(d_sq: i128, len: i128) -> (r: bool)
    requires
        0 <= d_sq <= 0x1_0000_0000,
        0 <= len <= 0x1_0000,
    ensures
        r == near_length(d_sq as int, len as int),
{
    let e = EPSILON_SCALE as i128;
    let ee = e * e;
    let el = e * len;
    proof {
        lemma_product_bound(ee as int, d_sq as int, 1_000_000, 0x1_0000_0000);
        lemma_product_bound(el + 1, el + 1, 0x400_0000, 0x400_0000);
        lemma_product_bound(el - 1, el - 1, 0x400_0000, 0x400_0000);
    }
    (ee * d_sq < (el + 1) * (el + 1)) && (el < 1 || (el - 1) * (el - 1) < ee * d_sq)
}

/// Whether `c2` cuts `c1` at two points; when it does, the directions from
/// `c1`'s center to the point left of the axis and to the one right of it.
pub fn circle_crossing(c1: Circle, c2: Circle) -> (r: Option<(Point, Point)>)
    requires
        c1.wf(),
        c2.wf(),
    ensures
        r.is_some() == crosses(c1, c2),
        r matches Some(p) ==> p.0 == crossing_dir(c1, c2, true) && p.1 == crossing_dir(c1, c2, false),
        r matches Some(p) ==> end_dir_ok(p.0) && end_dir_ok(p.1),
{
    let dx = c2.center.x as i128 - c1.center.x as i128;
    let dy = c2.center.y as i128 - c1.center.y as i128;
    let r1 = c1.radius as i128;
    let r2 = c2.radius as i128;
    proof {
        lemma_square_bound(dx as int, 0x8000);
        lemma_square_bound(dy as int, 0x8000);
        lemma_square_bound(r1 as int, 0x8000);
        lemma_square_bound(r2 as int, 0x8000);
    }
    let d_sq = dx * dx + dy * dy;
    assert(d_sq == dist_sq(c1.center, c2.center)) by (nonlinear_arith)
        requires dx == c2.center.x - c1.center.x, dy == c2.center.y - c1.center.y,
            d_sq == dx * dx + dy * dy;
    let diff = if r1 < r2 { r2 - r1 } else { r1 - r2 };
    if near_length_exec(d_sq, r1 + r2) || near_length_exec(d_sq, diff) {
        return None;
    }
    let a = d_sq + r1 * r1 - r2 * r2;
    proof {
        lemma_product_bound(4 * d_sq, r1 * r1, 0x2_0000_0000, 0x4000_0000);
        lemma_square_bound(a as int, 0x1_0000_0000);
    }
    let k = 4 * d_sq * (r1 * r1) - a * a;
    if k <= 0 {
        return None;
    }
    let t = ROOT_SCALE as i128;
    let s = isqrt((t * t * k) as u128) as i128;
    let ta = t * a;
    proof {
        assert(s < 0x400_0000_0000) by (nonlinear_arith)
            requires s * s <= t * t * k, k <= 0x8000_0000_0000_0000, t == 1024, 0 <= s;
        lemma_product_bound(ta as int, dx as int, 0x400_0000_0000, 0x8000);
        lemma_product_bound(ta as int, dy as int, 0x400_0000_0000, 0x8000);
        lemma_product_bound(s as int, dx as int, 0x400_0000_0000, 0x8000);
        lemma_product_bound(s as int, dy as int, 0x400_0000_0000, 0x8000);
        assert(t * t * k == 4 * (dx * dx + dy * dy) * (t * t * (r1 * r1)) - ta * ta) by (nonlinear_arith)
            requires k == 4 * d_sq * (r1 * r1) - a * a, ta == t * a, d_sq == dx * dx + dy * dy;
        lemma_direction_nonzero(ta as int, s as int, dx as int, dy as int, t * t * k, t * t * (r1 * r1));
    }
    let left = unit_direction(ta * dx - s * dy, ta * dy + s * dx);
    let right = unit_direction(ta * dx + s * dy, ta * dy - s * dx);
    Some((left, right))
}

} // verus!
