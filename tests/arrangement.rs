use circle_intersect::arcs::{cut_circle_by_circles, intersect_many_circles, iter_excluding_index, ArcSegment};
use circle_intersect::geom::{angle_less, isqrt, Circle, Point};
use circle_intersect::intersect::{circle_crossing, crossing_name, Crossing};
use circle_intersect::stitch::{boundary_loops, stitch_loops};

fn circle(x: i64, y: i64, radius: i64, inverted: bool) -> Circle {
    Circle { center: Point { x, y }, radius, inverted }
}

fn leading(a: &ArcSegment) -> Option<Crossing> {
    if a.circle.inverted { a.end_at } else { a.start_at }
}

fn trailing(a: &ArcSegment) -> Option<Crossing> {
    if a.circle.inverted { a.start_at } else { a.end_at }
}

fn assert_closed(lp: &[ArcSegment]) {
    for k in 0..lp.len() - 1 {
        assert_eq!(trailing(&lp[k]), leading(&lp[k + 1]));
    }
    assert_eq!(trailing(&lp[lp.len() - 1]), leading(&lp[0]));
}

#[test]
fn two_overlapping_circles_make_a_lens() {
    let circles = vec![circle(0, 0, 5, false), circle(6, 0, 5, false)];
    let arcs = intersect_many_circles(&circles);
    assert_eq!(arcs.len(), 2);
    let loops = boundary_loops(&circles);
    assert_eq!(loops.len(), 1);
    assert_eq!(loops[0].len(), 2);
    assert_closed(&loops[0]);
    let inside = Point { x: 3, y: 0 };
    assert!(circles.iter().all(|c| c.contains(inside)));
}

#[test]
fn single_circle_is_one_full_arc() {
    let circles = vec![circle(0, 0, 3, false)];
    let arcs = intersect_many_circles(&circles);
    assert_eq!(arcs.len(), 1);
    assert_eq!(arcs[0].start_angle, Point { x: 1, y: 0 });
    assert_eq!(arcs[0].end_angle, Point { x: 1, y: 0 });
    assert_eq!(arcs[0].start_at, None);
    assert_eq!(arcs[0].circle, circles[0]);
    let loops = boundary_loops(&circles);
    assert_eq!(loops.len(), 1);
    assert_eq!(loops[0].len(), 1);
}

#[test]
fn inverted_inner_circle_makes_an_annulus() {
    let circles = vec![circle(0, 0, 10, false), circle(0, 0, 2, true)];
    let arcs = intersect_many_circles(&circles);
    assert_eq!(arcs.len(), 2);
    assert_eq!(arcs[0].circle, circles[0]);
    assert_eq!(arcs[1].circle, circles[1]);
    let loops = boundary_loops(&circles);
    assert_eq!(loops.len(), 2);
}

#[test]
fn three_symmetric_circles_make_a_curved_triangle() {
    let circles = vec![circle(0, 0, 8, false), circle(10, 0, 8, false), circle(5, 9, 8, false)];
    let arcs = intersect_many_circles(&circles);
    assert_eq!(arcs.len(), 3);
    let loops = boundary_loops(&circles);
    assert_eq!(loops.len(), 1);
    assert_eq!(loops[0].len(), 3);
    assert_closed(&loops[0]);
}

#[test]
fn disjoint_circles_have_no_region() {
    let circles = vec![circle(0, 0, 3, false), circle(10, 0, 3, false)];
    assert!(intersect_many_circles(&circles).is_empty());
    assert!(boundary_loops(&circles).is_empty());
}

#[test]
fn no_circles_give_no_arcs() {
    let circles: Vec<Circle> = vec![];
    assert!(intersect_many_circles(&circles).is_empty());
}

#[test]
fn inverted_contains_is_the_complement() {
    let c = circle(0, 0, 5, false);
    let inv = circle(0, 0, 5, true);
    for p in [Point { x: 0, y: 0 }, Point { x: 3, y: 4 }, Point { x: 5, y: 1 }, Point { x: -2, y: 1 }] {
        assert_eq!(inv.contains(p), !c.contains(p));
    }
    assert!(inv.contains(Point { x: 3, y: 4 }));
    assert!(!c.contains(Point { x: 3, y: 4 }));
    assert!(c.contains(Point { x: 3, y: 3 }));
}

#[test]
fn near_tangent_circles_do_not_cut() {
    // The centers lie 1013.99901 apart, radii add up to 1014.
    let circles = vec![circle(-500, -20, 507, false), circle(513, 25, 507, false)];
    assert_eq!(circle_crossing(circles[0], circles[1]), None);
    assert_eq!(cut_circle_by_circles(&circles, 0).len(), 1);
    let overlapping = vec![circle(-500, -20, 508, false), circle(513, 25, 507, false)];
    assert!(circle_crossing(overlapping[0], overlapping[1]).is_some());
    assert_eq!(cut_circle_by_circles(&overlapping, 0).len(), 2);
}

#[test]
fn exactly_tangent_circles_do_not_cut() {
    let circles = vec![circle(0, 0, 5, false), circle(10, 0, 5, false)];
    assert_eq!(circle_crossing(circles[0], circles[1]), None);
    let inner = vec![circle(0, 0, 5, false), circle(2, 0, 3, false)];
    assert_eq!(circle_crossing(inner[0], inner[1]), None);
}

#[test]
fn crossing_directions_point_at_the_crossings() {
    let (left, right) = circle_crossing(circle(0, 0, 5, false), circle(6, 0, 5, false)).unwrap();
    assert_eq!(left, Point { x: 161061273, y: 214748364 });
    assert_eq!(right, Point { x: 161061273, y: -214748364 });
}

fn angle_of(d: Point) -> f64 {
    (d.y as f64).atan2(d.x as f64)
}

#[test]
fn crossing_directions_are_accurate_for_close_centers() {
    // The circles meet at (0.5, ±4.97494): the exact angle is 1.47063.
    let (left, right) = circle_crossing(circle(0, 0, 5, false), circle(1, 0, 5, false)).unwrap();
    let exact = (99.0f64.sqrt() / 2.0).atan2(0.5);
    assert!((angle_of(left) - exact).abs() < 1e-4);
    assert!((angle_of(right) + exact).abs() < 1e-4);
    // The point on the first circle lies on the second one within the tolerance.
    let t = angle_of(left);
    let (px, py) = (5.0 * t.cos(), 5.0 * t.sin());
    let off = (((px - 1.0) * (px - 1.0) + py * py).sqrt() - 5.0).abs();
    assert!(off < 0.001);
}

#[test]
fn midpoint_is_halfway_along_the_arc() {
    let circles = vec![circle(0, 0, 5, false), circle(6, 0, 5, false)];
    let arcs = intersect_many_circles(&circles);
    // The kept arc of the first circle runs from (3, -4) to (3, 4).
    let mid = arcs[0].midpoint();
    assert!(angle_of(mid).abs() < 1e-6);
    // The other arc of that circle runs through angle π.
    let cut = cut_circle_by_circles(&circles, 0);
    let far = cut.iter().find(|a| a != &&arcs[0]).unwrap().midpoint();
    assert!((angle_of(far).abs() - std::f64::consts::PI).abs() < 1e-6);
}

#[test]
fn arcs_of_a_cut_circle_cover_it_once() {
    let circles = vec![circle(0, 0, 8, false), circle(10, 0, 8, false), circle(5, 9, 8, false)];
    for i in 0..circles.len() {
        let arcs = cut_circle_by_circles(&circles, i);
        assert_eq!(arcs.len(), 4);
        for k in 0..arcs.len() {
            let next = &arcs[(k + 1) % arcs.len()];
            assert_eq!(arcs[k].end_angle, next.start_angle);
            assert_eq!(arcs[k].end_at, next.start_at);
        }
        for k in 0..arcs.len() - 1 {
            assert!(angle_less(arcs[k].start_angle, arcs[k + 1].start_angle));
        }
    }
}

#[test]
fn arrangement_is_the_same_on_a_second_run() {
    let circles = vec![circle(0, 0, 8, false), circle(10, 0, 8, true), circle(5, 9, 8, false)];
    assert_eq!(intersect_many_circles(&circles), intersect_many_circles(&circles));
}

#[test]
fn stitched_loops_close_for_a_generic_arrangement() {
    let circles = vec![circle(0, 0, 10, false), circle(12, 0, 10, false), circle(6, 4, 3, true)];
    let loops = boundary_loops(&circles);
    assert!(!loops.is_empty());
    for lp in &loops {
        assert_closed(lp);
    }
    let total: usize = loops.iter().map(|l| l.len()).sum();
    assert_eq!(total, intersect_many_circles(&circles).len());
}

#[test]
fn stitching_keeps_every_arc() {
    let circles = vec![circle(0, 0, 5, false), circle(6, 0, 5, false)];
    let arcs = intersect_many_circles(&circles);
    let loops = stitch_loops(arcs.clone());
    let flat: Vec<ArcSegment> = loops.into_iter().flatten().collect();
    assert_eq!(flat.len(), arcs.len());
    for a in &arcs {
        assert!(flat.contains(a));
    }
}

#[test]
fn angles_compare_by_turn_from_the_x_axis() {
    let east = Point { x: 1, y: 0 };
    let north = Point { x: 0, y: 3 };
    let west = Point { x: -2, y: 0 };
    let south = Point { x: 0, y: -1 };
    assert!(angle_less(east, north));
    assert!(angle_less(north, west));
    assert!(angle_less(west, south));
    assert!(!angle_less(south, east));
    assert!(!angle_less(east, Point { x: 5, y: 0 }));
}

#[test]
fn integer_square_root() {
    assert_eq!(isqrt(0), 0);
    assert_eq!(isqrt(2304), 48);
    assert_eq!(isqrt(2303), 47);
    assert_eq!(isqrt(0x3fff_ffff_ffff_ffff), 0x7fff_ffff);
}

#[test]
fn crossing_names_agree_from_either_circle() {
    assert_eq!(crossing_name(0, 1, true), Crossing { first: 0, second: 1, side: true });
    assert_eq!(crossing_name(1, 0, true), Crossing { first: 0, second: 1, side: false });
}

#[test]
fn excluding_an_index_drops_that_item() {
    assert_eq!(iter_excluding_index(&vec![1, 2, 3], 1), vec![1, 3]);
    assert_eq!(iter_excluding_index(&vec![1, 2, 3], 5), vec![1, 2, 3]);
}

#[test]
fn validity_of_circles() {
    assert!(circle(0, 0, 1, false).is_valid());
    assert!(!circle(0, 0, 0, false).is_valid());
    assert!(!circle(20000, 0, 5, false).is_valid());
    assert!(circle(1500, -900, 2000, false).is_valid());
}

#[test]
fn three_circles_through_one_point_leave_empty_arcs_out() {
    // All three pass through (3, 4) and (3, -4).
    let circles = vec![circle(0, 0, 5, false), circle(6, 0, 5, false), circle(3, 0, 4, false)];
    let cut = cut_circle_by_circles(&circles, 0);
    assert_eq!(cut.len(), 4);
    let empty = cut.iter().filter(|a| a.start_angle == a.end_angle).count();
    assert_eq!(empty, 2);
    let arcs = intersect_many_circles(&circles);
    assert_eq!(arcs.len(), 2);
    assert!(arcs.iter().all(|a| a.start_angle != a.end_angle));
}
