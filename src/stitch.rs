//! Chaining boundary arcs into closed loops.
use vstd::prelude::*;
use crate::arcs::{ArcSegment, all_circles_wf, arrangement, intersect_many_circles};
use crate::geom::Circle;
use crate::intersect::Crossing;

verus! {

broadcast use vstd::multiset::group_multiset_axioms;

/// The crossing where a walk along the boundary enters the arc: its start on
/// an ordinary circle, its end on an inverted one, which is walked the other
/// way round.
pub open spec fn leading(a: ArcSegment) -> Option<Crossing> {
    if a.circle.inverted { a.end_at } else { a.start_at }
}

/// The crossing where a walk along the boundary leaves the arc.
pub open spec fn trailing(a: ArcSegment) -> Option<Crossing> {
    if a.circle.inverted { a.start_at } else { a.end_at }
}

/// The walk can go on from `a` into `b`: `b` is entered at the very crossing
/// where `a` is left.
pub open spec fn continues(a: ArcSegment, b: ArcSegment) -> bool {
    trailing(a).is_some() && leading(b) == trailing(a)
}

/// The arcs of the loops, one loop after the other.
pub open spec fn flat(loops: Seq<Vec<ArcSegment>>) -> Seq<ArcSegment>
    decreases loops.len(),
{
    if loops.len() == 0 {
        seq![]
    } else {
        flat(loops.drop_last()) + loops.last()@
    }
}

/// Each arc of the chain goes on into the next.
pub open spec fn chained(c: Seq<ArcSegment>) -> bool {
    forall|k: int| 0 <= k < c.len() - 1 ==> continues(#[trigger] c[k], c[k + 1])
}

/// No arc of `c` goes on from `a`.
pub open spec fn none_continues(a: ArcSegment, c: Seq<ArcSegment>) -> bool {
    forall|k: int| 0 <= k < c.len() ==> !continues(a, #[trigger] c[k])
}

/// Whether the crossing `at` is the one where the walk enters `b`.
fn enters_at(b: ArcSegment, at: Option<Crossing>) -> (r: bool)
    ensures
        r == (at.is_some() && leading(b) == at),
{
    let lead = if b.circle.inverted { b.end_at } else { b.start_at };
    match (lead, at) {
        (Some(x), Some(y)) => x == y,
        _ => false,
    }
}

/// The first arc of `pool` that goes on from `last`, if any.
fn find_continuation(pool: &Vec<ArcSegment>, last: ArcSegment) -> (r: Option<usize>)
    ensures
        r matches Some(p) ==> p < pool.len() && continues(last, pool@[p as int]),
        r is None ==> none_continues(last, pool@),
{
    let at = if last.circle.inverted { last.start_at } else { last.end_at };
    let mut p: usize = 0;
    while p < pool.len()
        invariant
            p <= pool.len(),
            at == trailing(last),
            forall|q: int| 0 <= q < p ==> !continues(last, #[trigger] pool@[q]),
        decreases pool.len() - p,
    {
        if enters_at(pool[p], at) {
            return Some(p);
        }
        p = p + 1;
    }
    None
}

proof fn lemma_swap_remove_multiset(s: Seq<ArcSegment>, i: int)
    requires
        0 <= i < s.len(),
    ensures
        s.update(i, s.last()).drop_last().to_multiset() == s.to_multiset().remove(s[i]),
{
    broadcast use vstd::seq_lib::group_to_multiset_ensures;

    let n = s.len() - 1;
    if i == n {
        assert(s.update(i, s.last()) =~= s);
        assert(s.drop_last() =~= s.remove(n));
        vstd::seq_lib::to_multiset_remove(s, n);
    } else {
        let u = s.update(i, s.last());
        vstd::seq_lib::to_multiset_update(s, i, s.last());
        assert(u.drop_last() =~= u.remove(n));
        vstd::seq_lib::to_multiset_remove(u, n);
        assert(u[n] == s.last());
        assert(u.drop_last().to_multiset() =~= s.to_multiset().remove(s[i]));
    }
}

/// Chains the arcs into loops. Each loop starts from the last arc left and
/// grows, while some arc left goes on from its last arc, by the first such
/// arc; when none does, the loop is done and the next one starts.
pub fn stitch_loops(arcs: Vec<ArcSegment>) -> (r: Vec<Vec<ArcSegment>>)
    ensures
        flat(r@).to_multiset() == arcs@.to_multiset(),
        forall|p: int| 0 <= p < r.len() ==> (#[trigger] r@[p])@.len() > 0 && chained(r@[p]@),
        forall|p: int, q: int|
            0 <= p < q < r.len() ==> none_continues((#[trigger] r@[p])@.last(), (#[trigger] r@[q])@),
{
    let ghost input = arcs@;
    let mut pool = arcs;
    let mut loops: Vec<Vec<ArcSegment>> = Vec::new();
    while pool.len() > 0
        invariant
            (flat(loops@) + pool@).to_multiset() == input.to_multiset(),
            forall|p: int| 0 <= p < loops.len() ==> (#[trigger] loops@[p])@.len() > 0 && chained(loops@[p]@),
            forall|p: int, q: int|
                0 <= p < q < loops.len() ==> none_continues((#[trigger] loops@[p])@.last(), (#[trigger] loops@[q])@),
            forall|p: int| 0 <= p < loops.len() ==> none_continues((#[trigger] loops@[p])@.last(), pool@),
        decreases pool.len(),
    {
        let ghost whole = pool@;
        let first = pool.pop().unwrap();
        let mut current: Vec<ArcSegment> = Vec::new();
        current.push(first);
        let mut last = first;
        let mut done = false;
        proof {
            assert(whole =~= pool@.push(first));
            assert(current@ =~= seq![first]);
            lemma_move_to_front(flat(loops@), first, pool@);
        }
        while !done
            invariant
                pool.len() < whole.len(),
                current@.len() > 0,
                last == current@.last(),
                chained(current@),
                (flat(loops@) + current@ + pool@).to_multiset() == input.to_multiset(),
                forall|p: int| 0 <= p < loops.len() ==> (#[trigger] loops@[p])@.len() > 0 && chained(loops@[p]@),
                forall|p: int, q: int|
                    0 <= p < q < loops.len() ==> none_continues((#[trigger] loops@[p])@.last(), (#[trigger] loops@[q])@),
                forall|p: int| 0 <= p < loops.len() ==> none_continues((#[trigger] loops@[p])@.last(), pool@),
                forall|p: int| 0 <= p < loops.len() ==> none_continues((#[trigger] loops@[p])@.last(), current@),
                done ==> none_continues(last, pool@),
            decreases pool.len() + (if done { 0int } else { 1int }),
        {
            match find_continuation(&pool, last) {
                Some(p) => {
                    let ghost before = pool@;
                    let ghost old_cur = current@;
                    let a = pool.swap_remove(p);
                    current.push(a);
                    proof {
                        lemma_swap_remove_multiset(before, p as int);
                        lemma_regroup(flat(loops@), old_cur, a, before, pool@, p as int);
                        assert(current@ == old_cur.push(a));
                        assert forall|q: int| 0 <= q < loops.len() implies none_continues(
                            (#[trigger] loops@[q])@.last(), pool@) by {
                            assert forall|k: int| 0 <= k < pool@.len() implies !continues(
                                loops@[q]@.last(), #[trigger] pool@[k]) by {
                                if k == p {
                                    assert(pool@[k] == before[before.len() - 1]);
                                } else {
                                    assert(pool@[k] == before[k]);
                                }
                            }
                        }
                        assert forall|q: int| 0 <= q < loops.len() implies none_continues(
                            (#[trigger] loops@[q])@.last(), current@) by {
                            assert forall|k: int| 0 <= k < current@.len() implies !continues(
                                loops@[q]@.last(), #[trigger] current@[k]) by {
                                if k < current@.len() - 1 {
                                    assert(current@[k] == current@.drop_last()[k]);
                                }
                            }
                        }
                        assert forall|k: int| 0 <= k < current@.len() - 1 implies continues(
                            #[trigger] current@[k], current@[k + 1]) by {
                            if k < current@.len() - 2 {
                                assert(current@[k] == current@.drop_last()[k]);
                                assert(current@[k + 1] == current@.drop_last()[k + 1]);
                            }
                        }
                    }
                    last = a;
                },
                None => {
                    done = true;
                },
            }
        }
        let ghost old_loops = loops@;
        loops.push(current);
        proof {
            assert(loops@.drop_last() == old_loops);
            assert(flat(loops@) == flat(old_loops) + current@);
            assert forall|p: int, q: int|
                0 <= p < q < loops.len() implies none_continues((#[trigger] loops@[p])@.last(), (#[trigger] loops@[q])@) by {
                if q == loops.len() - 1 {
                    assert(loops@[q] == current);
                }
            }
        }
    }
    assert(flat(loops@) + pool@ =~= flat(loops@));
    loops
}

/// The boundary of the region inside every ordinary circle of the list and
/// outside every inverted one, as loops of arcs.
pub fn boundary_loops(circles: &Vec<Circle>) -> (r: Vec<Vec<ArcSegment>>)
    requires
        all_circles_wf(circles@),
    ensures
        flat(r@).to_multiset() == arrangement(circles@).to_multiset(),
        forall|p: int| 0 <= p < r.len() ==> (#[trigger] r@[p])@.len() > 0 && chained(r@[p]@),
        forall|p: int, q: int|
            0 <= p < q < r.len() ==> none_continues((#[trigger] r@[p])@.last(), (#[trigger] r@[q])@),
{
    stitch_loops(intersect_many_circles(circles))
}

proof fn lemma_move_to_front(front: Seq<ArcSegment>, x: ArcSegment, rest: Seq<ArcSegment>)
    ensures
        (front + seq![x] + rest).to_multiset() == (front + rest.push(x)).to_multiset(),
{
    broadcast use vstd::seq_lib::group_to_multiset_ensures;

    vstd::seq_lib::lemma_multiset_commutative(front + seq![x], rest);
    vstd::seq_lib::lemma_multiset_commutative(front, seq![x]);
    vstd::seq_lib::lemma_multiset_commutative(front, rest.push(x));
    vstd::seq_lib::to_multiset_build(rest, x);
    vstd::seq_lib::to_multiset_build(Seq::<ArcSegment>::empty(), x);
    assert(seq![x] =~= Seq::<ArcSegment>::empty().push(x));
    assert((front + seq![x] + rest).to_multiset() =~= (front + rest.push(x)).to_multiset());
}

proof fn lemma_regroup(
    done_arcs: Seq<ArcSegment>,
    cur: Seq<ArcSegment>,
    a: ArcSegment,
    before: Seq<ArcSegment>,
    after: Seq<ArcSegment>,
    p: int,
)
    requires
        0 <= p < before.len(),
        before[p] == a,
        after.to_multiset() == before.to_multiset().remove(a),
    ensures
        (done_arcs + cur.push(a) + after).to_multiset() == (done_arcs + cur + before).to_multiset(),
{
    broadcast use vstd::seq_lib::group_to_multiset_ensures;

    vstd::seq_lib::lemma_multiset_commutative(done_arcs + cur.push(a), after);
    vstd::seq_lib::lemma_multiset_commutative(done_arcs, cur.push(a));
    vstd::seq_lib::lemma_multiset_commutative(done_arcs + cur, before);
    vstd::seq_lib::lemma_multiset_commutative(done_arcs, cur);
    vstd::seq_lib::to_multiset_build(cur, a);
    assert(before.to_multiset().count(a) > 0) by {
        vstd::seq_lib::to_multiset_contains(before, a);
        assert(before.contains(a)) by {
            assert(before[p] == a);
        }
    }
    assert((done_arcs + cur.push(a) + after).to_multiset() =~= (done_arcs + cur + before).to_multiset());
}

} // verus!
