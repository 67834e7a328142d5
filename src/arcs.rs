//! Cutting circles into arcs, and keeping the arcs that bound the region.
use vstd::prelude::*;
use vstd::arithmetic::div_mod::{lemma_mod_self_0, lemma_small_mod};
use crate::geom::{
    Circle, Point, angle_less, angle_lt, arc_point_in, dir_ok, end_dir_ok, lemma_angle_lt_asymmetric,
    mid_dir, middle_direction, strictly_inside,
};
use crate::intersect::{Crossing, Split, circle_crossing, crossing_name, pair_splits};

verus! {

/// An arc of `circle`, counter-clockwise from the direction `start_angle` to
/// the direction `end_angle`. `start_at` and `end_at` name the crossing
/// points at its ends; a full circle that nothing cuts has neither. Equal
/// directions stand for the full turn on such a circle, and for an empty arc
/// between two crossings at one point.
#[derive(Clone, Copy, Debug, PartialEq, Eq)]
pub struct ArcSegment {
    pub circle: Circle,
    pub start_angle: Point,
    pub end_angle: Point,
    pub start_at: Option<Crossing>,
    pub end_at: Option<Crossing>,
}

impl ArcSegment {
    /// Both ends are directions that can be added.
    pub open spec fn dirs_ok(self) -> bool {
        end_dir_ok(self.start_angle) && end_dir_ok(self.end_angle)
    }

    /// The arc runs between two crossings at one point, and holds nothing.
    pub open spec fn is_empty(self) -> bool {
        self.start_angle == self.end_angle && self.start_at.is_some()
    }

    /// The direction from the center to a point strictly inside the arc,
    /// halfway along it when its ends are equally long vectors.
    pub fn midpoint(self) -> (r: Point)
        requires
            self.dirs_ok(),
        ensures
            r == mid_dir(self.start_angle, self.end_angle),
            strictly_inside(self.start_angle, self.end_angle, r),
            dir_ok(r),
            -0x2000_0000 <= r.x <= 0x2000_0000,
            -0x2000_0000 <= r.y <= 0x2000_0000,
    {
        middle_direction(self.start_angle, self.end_angle)
    }
}

/// The direction of angle zero, which starts and ends an uncut circle.
pub open spec fn zero_dir() -> Point {
    Point { x: 1, y: 0 }
}

pub open spec fn all_circles_wf(circles: Seq<Circle>) -> bool {
    forall|k: int| 0 <= k < circles.len() ==> #[trigger] circles[k].wf()
}

/// The points where the circles before index `n`, other than circle `i`,
/// cut circle `i`, in the order of the list.
pub open spec fn splits_upto(circles: Seq<Circle>, i: int, n: int) -> Seq<Split>
    decreases n,
{
    if n <= 0 {
        seq![]
    } else if n - 1 == i {
        splits_upto(circles, i, n - 1)
    } else {
        splits_upto(circles, i, n - 1) + pair_splits(circles, i, n - 1)
    }
}

/// The first index at or after `k` whose direction comes after that of `x`.
pub open spec fn insert_pos(t: Seq<Split>, x: Split, k: int) -> int
    decreases t.len() - k,
{
    if k >= t.len() {
        t.len() as int
    } else if angle_lt(x.dir, t[k].dir) {
        k
    } else {
        insert_pos(t, x, k + 1)
    }
}

/// `s` ordered by angle; splits of equal angle keep their order.
pub open spec fn sort_splits(s: Seq<Split>) -> Seq<Split>
    decreases s.len(),
{
    if s.len() == 0 {
        s
    } else {
        let t = sort_splits(s.drop_last());
        t.insert(insert_pos(t, s.last(), 0), s.last())
    }
}

/// No direction of `t` comes before the one ahead of it.
pub open spec fn angles_sorted(t: Seq<Split>) -> bool {
    forall|k: int| 0 <= k < t.len() - 1 ==> !angle_lt(#[trigger] t[k + 1].dir, t[k].dir)
}

pub open spec fn dirs_ok(t: Seq<Split>) -> bool {
    forall|k: int| 0 <= k < t.len() ==> end_dir_ok(#[trigger] t[k].dir)
}

proof fn lemma_insert_pos(t: Seq<Split>, x: Split, k: int)
    requires
        0 <= k <= t.len(),
    ensures
        k <= insert_pos(t, x, k) <= t.len(),
        forall|q: int| k <= q < insert_pos(t, x, k) ==> !angle_lt(x.dir, #[trigger] t[q].dir),
        insert_pos(t, x, k) < t.len() ==> angle_lt(x.dir, t[insert_pos(t, x, k)].dir),
    decreases t.len() - k,
{
    if k < t.len() && !angle_lt(x.dir, t[k].dir) {
        lemma_insert_pos(t, x, k + 1);
    }
}

/// Sorting keeps the splits and orders them by angle.
pub proof fn lemma_sort_splits(s: Seq<Split>)
    ensures
        angles_sorted(sort_splits(s)),
        sort_splits(s).len() == s.len(),
        sort_splits(s).to_multiset() == s.to_multiset(),
        dirs_ok(s) ==> dirs_ok(sort_splits(s)),
    decreases s.len(),
{
    if s.len() > 0 {
        let t = sort_splits(s.drop_last());
        let x = s.last();
        lemma_sort_splits(s.drop_last());
        lemma_insert_pos(t, x, 0);
        let p = insert_pos(t, x, 0);
        let u = t.insert(p, x);
        vstd::seq_lib::to_multiset_insert(t, p, x);
        vstd::seq_lib::to_multiset_build(s.drop_last(), x);
        assert(s.drop_last().push(x) == s);
        assert forall|k: int| 0 <= k < u.len() - 1 implies !angle_lt(#[trigger] u[k + 1].dir, u[k].dir) by {
            if k + 1 < p {
                assert(u[k] == t[k] && u[k + 1] == t[k + 1]);
                assert(!angle_lt(t[k + 1].dir, t[k].dir));
            } else if k + 1 == p {
                assert(u[k] == t[k] && u[k + 1] == x);
                assert(!angle_lt(x.dir, t[k].dir));
            } else if k == p {
                assert(u[k] == x && u[k + 1] == t[p]);
                lemma_angle_lt_asymmetric(x.dir, t[p].dir);
            } else {
                assert(u[k] == t[k - 1] && u[k + 1] == t[k]);
                assert(!angle_lt(t[(k - 1) + 1].dir, t[k - 1].dir));
            }
        }
        if dirs_ok(s) {
            assert(dirs_ok(s.drop_last()));
            assert(end_dir_ok(s[s.len() - 1].dir));
            assert forall|k: int| 0 <= k < u.len() implies end_dir_ok(#[trigger] u[k].dir) by {
                if k < p {
                } else if k == p {
                } else {
                    assert(u[k] == t[k - 1]);
                }
            }
        }
    }
}

/// Orders the splits by angle, keeping the order of splits of equal angle.
pub fn sort_by_angle(s: &Vec<Split>) -> (r: Vec<Split>)
    requires
        dirs_ok(s@),
    ensures
        r@ == sort_splits(s@),
{
    let mut t: Vec<Split> = Vec::new();
    let mut i: usize = 0;
    while i < s.len()
        invariant
            i <= s.len(),
            dirs_ok(s@),
            t@ == sort_splits(s@.take(i as int)),
        decreases s.len() - i,
    {
        let x = s[i];
        proof {
            lemma_sort_splits(s@.take(i as int));
            assert(dirs_ok(s@.take(i as int)));
            assert(s@.take(i as int + 1).drop_last() == s@.take(i as int));
        }
        let mut p: usize = 0;
        while p < t.len() && !angle_less(x.dir, t[p].dir)
            invariant
                p <= t.len(),
                end_dir_ok(x.dir),
                dirs_ok(t@),
                insert_pos(t@, x, 0) == insert_pos(t@, x, p as int),
            decreases t.len() - p,
        {
            p = p + 1;
        }
        t.insert(p, x);
        i = i + 1;
    }
    assert(s@.take(s.len() as int) == s@);
    t
}


/// Every point where another circle of the list cuts circle `i`, in the
/// order of the list.
pub fn collect_splits(circles: &Vec<Circle>, i: usize) -> (r: Vec<Split>)
    requires
        all_circles_wf(circles@),
        i < circles.len(),
    ensures
        r@ == splits_upto(circles@, i as int, circles.len() as int),
        dirs_ok(r@),
{
    let mut out: Vec<Split> = Vec::new();
    let mut j: usize = 0;
    while j < circles.len()
        invariant
            j <= circles.len(),
            i < circles.len(),
            all_circles_wf(circles@),
            out@ == splits_upto(circles@, i as int, j as int),
            dirs_ok(out@),
        decreases circles.len() - j,
    {
        if j != i {
            let c1 = circles[i];
            let c2 = circles[j];
            match circle_crossing(c1, c2) {
                Some((left, right)) => {
                    out.push(Split { dir: left, at: crossing_name(i, j, true) });
                    out.push(Split { dir: right, at: crossing_name(i, j, false) });
                },
                None => {},
            }
            proof {
                let ps = pair_splits(circles@, i as int, j as int);
                assert(ps.len() == 0 ==> ps =~= seq![]);
            }
        }
        proof {
            assert(dirs_ok(out@));
        }
        j = j + 1;
    }
    out
}

/// The arc from split `a` to split `b`.
pub open spec fn arc_between(circle: Circle, a: Split, b: Split) -> ArcSegment {
    ArcSegment {
        circle,
        start_angle: a.dir,
        end_angle: b.dir,
        start_at: Some(a.at),
        end_at: Some(b.at),
    }
}

/// The whole of `circle`, from angle zero round to angle zero.
pub open spec fn full_arc(circle: Circle) -> ArcSegment {
    ArcSegment { circle, start_angle: zero_dir(), end_angle: zero_dir(), start_at: None, end_at: None }
}

/// The arcs between consecutive splits of `t`, the last one wrapping round
/// to the first split; the full circle when `t` is empty.
pub open spec fn arcs_from_splits(circle: Circle, t: Seq<Split>) -> Seq<ArcSegment> {
    if t.len() == 0 {
        seq![full_arc(circle)]
    } else {
        Seq::new(t.len(), |k: int| arc_between(circle, t[k], t[(k + 1) % (t.len() as int)]))
    }
}

/// The arcs into which the other circles of the list cut circle `i`.
pub open spec fn cut_spec(circles: Seq<Circle>, i: int) -> Seq<ArcSegment> {
    arcs_from_splits(circles[i], sort_splits(splits_upto(circles, i, circles.len() as int)))
}

/// Cuts circle `index` of the list at every point where another circle of
/// the list crosses it, and returns the arcs in order of angle.
pub fn cut_circle_by_circles(circles: &Vec<Circle>, index: usize) -> (r: Vec<ArcSegment>)
    requires
        all_circles_wf(circles@),
        index < circles.len(),
    ensures
        r@ == cut_spec(circles@, index as int),
        forall|k: int| 0 <= k < r.len() ==> (#[trigger] r@[k]).dirs_ok(),
{
    let circle = circles[index];
    let splits = collect_splits(circles, index);
    let sorted = sort_by_angle(&splits);
    proof {
        lemma_sort_splits(splits@);
    }
    let n = sorted.len();
    if n == 0 {
        let full = ArcSegment {
            circle,
            start_angle: Point { x: 1, y: 0 },
            end_angle: Point { x: 1, y: 0 },
            start_at: None,
            end_at: None,
        };
        let r = vec![full];
        assert(r@ =~= cut_spec(circles@, index as int));
        assert(r@[0].dirs_ok());
        return r;
    }
    let mut out: Vec<ArcSegment> = Vec::new();
    let mut k: usize = 0;
    while k < n
        invariant
            k <= n,
            n == sorted.len(),
            n > 0,
            out@ =~= arcs_from_splits(circle, sorted@).take(k as int),
            dirs_ok(sorted@),
            forall|q: int| 0 <= q < out.len() ==> (#[trigger] out@[q]).dirs_ok(),
        decreases n - k,
    {
        let next = if k + 1 == n { 0 } else { k + 1 };
        proof {
            if k + 1 == n {
                lemma_mod_self_0(n as int);
            } else {
                lemma_small_mod((k + 1) as nat, n as nat);
            }
        }
        let a = sorted[k];
        let b = sorted[next];
        out.push(ArcSegment {
            circle,
            start_angle: a.dir,
            end_angle: b.dir,
            start_at: Some(a.at),
            end_at: Some(b.at),
        });
        k = k + 1;
    }
    assert(out@ =~= arcs_from_splits(circle, sorted@));
    out
}

proof fn lemma_splits_come_in_pairs(circles: Seq<Circle>, i: int, n: int)
    ensures
        splits_upto(circles, i, n).len() % 2 == 0,
    decreases n,
{
    if n > 0 {
        lemma_splits_come_in_pairs(circles, i, n - 1);
    }
}

/// The arcs into which a circle is cut cover it once: each arc ends where
/// the next one starts, the last one ends where the first one starts, and
/// the arcs start in increasing order of angle, and two arcs start at one
/// direction only where the first of them is empty. A circle that nothing
/// cuts is one arc from angle zero round to angle zero; one that something
/// cuts is at least two arcs.
pub proof fn lemma_arcs_cover_circle(circles: Seq<Circle>, i: int)
    requires
        0 <= i < circles.len(),
    ensures
        ({
            let arcs = cut_spec(circles, i);
            let n = arcs.len() as int;
            &&& n >= 1
            &&& forall|k: int| 0 <= k < n ==> #[trigger] arcs[k].end_angle == arcs[(k + 1) % n].start_angle
                && arcs[k].end_at == arcs[(k + 1) % n].start_at
            &&& forall|k: int| 0 <= k < n - 1 ==> !angle_lt(#[trigger] arcs[k + 1].start_angle, arcs[k].start_angle)
            &&& forall|k: int| 0 <= k < n ==> #[trigger] arcs[k].circle == circles[i]
            &&& (splits_upto(circles, i, circles.len() as int).len() == 0 <==> arcs == seq![full_arc(circles[i])])
            &&& (splits_upto(circles, i, circles.len() as int).len() > 0 ==> n >= 2)
            &&& forall|k: int| 0 <= k < n - 1 && #[trigger] arcs[k].start_angle == arcs[k + 1].start_angle
                ==> arcs[k].is_empty()
        }),
{
    lemma_splits_come_in_pairs(circles, i, circles.len() as int);
    let s = splits_upto(circles, i, circles.len() as int);
    let t = sort_splits(s);
    lemma_sort_splits(s);
    let arcs = cut_spec(circles, i);
    let n = arcs.len() as int;
    if t.len() > 0 {
        assert forall|k: int| 0 <= k < n - 1 implies !angle_lt(#[trigger] arcs[k + 1].start_angle, arcs[k].start_angle) by {
            assert(arcs[k + 1].start_angle == t[k + 1].dir);
            assert(arcs[k].start_angle == t[k].dir);
        }
        assert forall|k: int| 0 <= k < n implies #[trigger] arcs[k].end_angle == arcs[(k + 1) % n].start_angle
            && arcs[k].end_at == arcs[(k + 1) % n].start_at by {
            let q = (k + 1) % n;
            assert(0 <= q < n);
        }
        assert(arcs.len() != 1 || arcs[0].start_at.is_some());
        assert(n == t.len() && t.len() == s.len());
        assert(s.len() >= 2);
        assert forall|k: int| 0 <= k < n - 1 && #[trigger] arcs[k].start_angle == arcs[k + 1].start_angle
            implies arcs[k].is_empty() by {
            lemma_small_mod((k + 1) as nat, n as nat);
            assert(arcs[k].end_angle == t[k + 1].dir);
            assert(arcs[k + 1].start_angle == t[k + 1].dir);
        }
    } else {
        assert(s.len() == 0);
    }
}


/// The items of `items` but the one at `index_to_exclude`, in order.
pub fn iter_excluding_index<T: Copy>(items: &Vec<T>, index_to_exclude: usize) -> (r: Vec<T>)
    ensures
        r@ == (if index_to_exclude < items.len() {
            items@.remove(index_to_exclude as int)
        } else {
            items@
        }),
{
    let mut out: Vec<T> = Vec::new();
    let mut k: usize = 0;
    while k < items.len()
        invariant
            k <= items.len(),
            out@ == (if index_to_exclude < k {
                items@.take(k as int).remove(index_to_exclude as int)
            } else {
                items@.take(k as int)
            }),
        decreases items.len() - k,
    {
        let x = items[k];
        if k != index_to_exclude {
            out.push(x);
        }
        proof {
            if index_to_exclude < k {
                assert(items@.take(k + 1).remove(index_to_exclude as int)
                    =~= items@.take(k as int).remove(index_to_exclude as int).push(x));
            } else if index_to_exclude == k {
                assert(items@.take(k + 1).remove(index_to_exclude as int) =~= items@.take(k as int));
            } else {
                assert(items@.take(k + 1) =~= items@.take(k as int).push(x));
            }
        }
        k = k + 1;
    }
    assert(items@.take(items.len() as int) =~= items@);
    out
}

/// The arc's midpoint lies in the region of every circle of the list but
/// circle `i`, the one it belongs to.
pub open spec fn survives(circles: Seq<Circle>, i: int, a: ArcSegment) -> bool {
    &&& !a.is_empty()
    &&& forall|j: int|
        0 <= j < circles.len() && j != i ==> arc_point_in(
            #[trigger] circles[j],
            a.circle,
            mid_dir(a.start_angle, a.end_angle),
        )
}

/// The arcs of `arcs` that survive, in order.
pub open spec fn keep_surviving(circles: Seq<Circle>, i: int, arcs: Seq<ArcSegment>) -> Seq<ArcSegment>
    decreases arcs.len(),
{
    if arcs.len() == 0 {
        seq![]
    } else {
        let rest = keep_surviving(circles, i, arcs.drop_last());
        if survives(circles, i, arcs.last()) {
            rest.push(arcs.last())
        } else {
            rest
        }
    }
}

/// The surviving arcs of the circles before index `n`, circle by circle.
pub open spec fn arrangement_upto(circles: Seq<Circle>, n: int) -> Seq<ArcSegment>
    decreases n,
{
    if n <= 0 {
        seq![]
    } else {
        arrangement_upto(circles, n - 1) + keep_surviving(circles, n - 1, cut_spec(circles, n - 1))
    }
}

/// The arcs that bound the region inside every ordinary circle of the list
/// and outside every inverted one.
pub open spec fn arrangement(circles: Seq<Circle>) -> Seq<ArcSegment> {
    arrangement_upto(circles, circles.len() as int)
}

fn arc_survives(circles: &Vec<Circle>, i: usize, a: ArcSegment) -> (r: bool)
    requires
        all_circles_wf(circles@),
        i < circles.len(),
        a.circle == circles@[i as int],
        a.dirs_ok(),
    ensures
        r == survives(circles@, i as int, a),
{
    if a.start_angle == a.end_angle && a.start_at.is_some() {
        return false;
    }
    let mid = a.midpoint();
    let others = iter_excluding_index(circles, i);
    let mut q: usize = 0;
    while q < others.len()
        invariant
            q <= others.len(),
            others@ == circles@.remove(i as int),
            i < circles.len(),
            all_circles_wf(circles@),
            a.circle == circles@[i as int],
            mid == mid_dir(a.start_angle, a.end_angle),
            dir_ok(mid),
            -0x2000_0000 <= mid.x <= 0x2000_0000,
            -0x2000_0000 <= mid.y <= 0x2000_0000,
            forall|p: int| 0 <= p < q ==> arc_point_in(#[trigger] others@[p], a.circle, mid),
        decreases others.len() - q,
    {
        let other = others[q];
        proof {
            if q < i {
                assert(other == circles@[q as int]);
            } else {
                assert(other == circles@[q + 1]);
            }
        }
        if !other.contains_arc_point(a.circle, mid) {
            proof {
                let j = if q < i { q as int } else { q + 1 };
                assert(circles@[j] == others@[q as int]);
            }
            return false;
        }
        q = q + 1;
    }
    proof {
        assert forall|j: int| 0 <= j < circles.len() && j != i implies arc_point_in(
            #[trigger] circles@[j],
            a.circle,
            mid_dir(a.start_angle, a.end_angle),
        ) by {
            let p = if j < i { j } else { j - 1 };
            assert(others@[p] == circles@[j]);
        }
    }
    true
}

/// For every circle of the list, cuts it by all the others and keeps the
/// arcs whose midpoint lies in the region of every other circle: the
/// boundary of the region inside every ordinary circle and outside every
/// inverted one.
pub fn intersect_many_circles(circles: &Vec<Circle>) -> (r: Vec<ArcSegment>)
    requires
        all_circles_wf(circles@),
    ensures
        r@ == arrangement(circles@),
{
    let mut all_segments: Vec<ArcSegment> = Vec::new();
    let mut i: usize = 0;
    while i < circles.len()
        invariant
            i <= circles.len(),
            all_circles_wf(circles@),
            all_segments@ == arrangement_upto(circles@, i as int),
        decreases circles.len() - i,
    {
        let candidates = cut_circle_by_circles(circles, i);
        let ghost base = all_segments@;
        let mut k: usize = 0;
        while k < candidates.len()
            invariant
                k <= candidates.len(),
                i < circles.len(),
                all_circles_wf(circles@),
                candidates@ == cut_spec(circles@, i as int),
                forall|q: int| 0 <= q < candidates.len() ==> (#[trigger] candidates@[q]).dirs_ok(),
                all_segments@ == base + keep_surviving(circles@, i as int, candidates@.take(k as int)),
            decreases candidates.len() - k,
        {
            let a = candidates[k];
            proof {
                lemma_cut_circle(circles@, i as int);
                assert(candidates@.take(k + 1).drop_last() =~= candidates@.take(k as int));
            }
            if arc_survives(circles, i, a) {
                all_segments.push(a);
                proof {
                    assert(all_segments@ =~= base + keep_surviving(circles@, i as int, candidates@.take(k + 1)));
                }
            }
            k = k + 1;
        }
        assert(candidates@.take(candidates.len() as int) =~= candidates@);
        i = i + 1;
    }
    all_segments
}

/// Every arc of circle `i` belongs to circle `i`.
proof fn lemma_cut_circle(circles: Seq<Circle>, i: int)
    requires
        0 <= i < circles.len(),
    ensures
        forall|k: int| 0 <= k < cut_spec(circles, i).len() ==> (#[trigger] cut_spec(circles, i)[k]).circle == circles[i],
{
    lemma_arcs_cover_circle(circles, i);
}

/// No circles bound nothing; a lone circle is bounded by all of itself.
pub proof fn lemma_arrangement_of_few(c: Circle)
    ensures
        arrangement(Seq::<Circle>::empty()) == Seq::<ArcSegment>::empty(),
        arrangement(seq![c]) == seq![full_arc(c)],
{
    let circles = seq![c];
    assert(splits_upto(circles, 0, 0) == Seq::<Split>::empty());
    assert(splits_upto(circles, 0, 1) == Seq::<Split>::empty());
    assert(sort_splits(Seq::<Split>::empty()) == Seq::<Split>::empty());
    let arcs = cut_spec(circles, 0);
    assert(arcs == seq![full_arc(c)]);
    assert(survives(circles, 0, full_arc(c)));
    assert(arcs.drop_last() =~= Seq::<ArcSegment>::empty());
    assert(keep_surviving(circles, 0, arcs.drop_last()) == Seq::<ArcSegment>::empty());
    assert(keep_surviving(circles, 0, arcs) =~= seq![full_arc(c)]);
    assert(arrangement_upto(circles, 0) == Seq::<ArcSegment>::empty());
    assert(arrangement(circles) =~= seq![full_arc(c)]);
}

/// The filter depends on the list of circles alone: two runs on the same
/// list give the same arcs.
pub proof fn lemma_arrangement_deterministic(circles: Seq<Circle>, first: Seq<ArcSegment>, second: Seq<ArcSegment>)
    requires
        first == arrangement(circles),
        second == arrangement(circles),
    ensures
        first == second,
{
}

} // verus!
