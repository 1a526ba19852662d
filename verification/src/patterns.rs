//! Three well-known patterns, anywhere on the plane: a still life, an
//! oscillator and a spaceship.

use vstd::prelude::*;
use crate::cell::{point, Point};
use crate::delta::{applied, frontier, pending};
use crate::rule::{generation, lemma_live_neighbors_sum, step, Change};

verus! {

/// The block of two by two cells whose corner of least `x` and `y` is `p`.
pub open spec fn block(p: Point) -> Set<Point> {
    set![p, (p.0 + 1, p.1), (p.0, p.1 + 1), (p.0 + 1, p.1 + 1)]
}

/// The blinker around `p` in its upright phase.
pub open spec fn blinker_upright(p: Point) -> Set<Point> {
    set![(p.0, p.1 - 1), p, (p.0, p.1 + 1)]
}

/// The blinker around `p` in its level phase.
pub open spec fn blinker_level(p: Point) -> Set<Point> {
    set![(p.0 - 1, p.1), p, (p.0 + 1, p.1)]
}

/// The glider whose bounding box has `p` as its corner of least `x` and
/// `y`, in the phase that has three cells in its top row.
pub open spec fn glider(p: Point) -> Set<Point> {
    set![
        (p.0, p.1 + 2),
        (p.0 + 1, p.1),
        (p.0 + 1, p.1 + 2),
        (p.0 + 2, p.1 + 1),
        (p.0 + 2, p.1 + 2)
    ]
}

/// The phase of the glider one generation after `glider(p)`.
pub open spec fn glider_second(p: Point) -> Set<Point> {
    set![
        (p.0, p.1 + 1),
        (p.0 + 1, p.1 + 2),
        (p.0 + 1, p.1 + 3),
        (p.0 + 2, p.1 + 1),
        (p.0 + 2, p.1 + 2)
    ]
}

/// The phase of the glider two generations after `glider(p)`.
pub open spec fn glider_third(p: Point) -> Set<Point> {
    set![
        (p.0, p.1 + 2),
        (p.0 + 1, p.1 + 3),
        (p.0 + 2, p.1 + 1),
        (p.0 + 2, p.1 + 2),
        (p.0 + 2, p.1 + 3)
    ]
}

/// The phase of the glider three generations after `glider(p)`.
pub open spec fn glider_fourth(p: Point) -> Set<Point> {
    set![
        (p.0 + 1, p.1 + 1),
        (p.0 + 1, p.1 + 3),
        (p.0 + 2, p.1 + 2),
        (p.0 + 2, p.1 + 3),
        (p.0 + 3, p.1 + 2)
    ]
}

/// A block is a still life: it is its own next generation, and so it is
/// unchanged after any number of generations. The delta engine, once no
/// change is left on its board, keeps the block and finds no change.
pub proof fn lemma_block_is_still(p: Point, count: nat)
    ensures
        step(block(p)) == block(p),
        generation(block(p), count) == block(p),
        applied(block(p), Seq::<Change>::empty()) == block(p),
        pending(block(p), frontier(Seq::<Change>::empty())) == Set::<Change>::empty(),
        pending(block(p), Set::<Point>::full()) == Set::<Change>::empty(),
    decreases count,
{
    assert(applied(block(p), Seq::<Change>::empty()) =~= block(p));
    assert(pending(block(p), frontier(Seq::<Change>::empty())) =~= Set::<Change>::empty());
    assert forall|ch: Change| !pending(block(p), Set::<Point>::full()).contains(ch) by {
        lemma_live_neighbors_sum(block(p), point(ch.coord));
    }
    assert(pending(block(p), Set::<Point>::full()) =~= Set::<Change>::empty());
    assert forall|q: Point| step(block(p)).contains(q) <==> block(p).contains(q) by {
        lemma_live_neighbors_sum(block(p), q);
    }
    assert(step(block(p)) =~= block(p));
    if count > 0 {
        lemma_block_is_still(p, (count - 1) as nat);
    }
}

/// A blinker has period two: one generation turns it from upright to level
/// and the next turns it back, and the two phases differ.
pub proof fn lemma_blinker_has_period_two(p: Point)
    ensures
        step(blinker_upright(p)) == blinker_level(p),
        step(blinker_level(p)) == blinker_upright(p),
        generation(blinker_upright(p), 1) != blinker_upright(p),
        generation(blinker_upright(p), 2) == blinker_upright(p),
{
    assert forall|q: Point| step(blinker_upright(p)).contains(q) <==> blinker_level(p).contains(
        q,
    ) by {
        lemma_live_neighbors_sum(blinker_upright(p), q);
    }
    assert(step(blinker_upright(p)) =~= blinker_level(p));
    assert forall|q: Point| step(blinker_level(p)).contains(q) <==> blinker_upright(p).contains(
        q,
    ) by {
        lemma_live_neighbors_sum(blinker_level(p), q);
    }
    assert(step(blinker_level(p)) =~= blinker_upright(p));
    reveal_with_fuel(generation, 3);
    assert(blinker_level(p).contains((p.0 + 1, p.1)));
    assert(!blinker_upright(p).contains((p.0 + 1, p.1)));
}

/// A glider passes through its phases one generation at a time.
proof fn lemma_glider_phases(p: Point)
    ensures
        step(glider(p)) == glider_second(p),
        step(glider_second(p)) == glider_third(p),
        step(glider_third(p)) == glider_fourth(p),
        step(glider_fourth(p)) == glider((p.0 + 1, p.1 + 1)),
{
    assert forall|q: Point| step(glider(p)).contains(q) <==> glider_second(p).contains(q) by {
        lemma_live_neighbors_sum(glider(p), q);
    }
    assert(step(glider(p)) =~= glider_second(p));
    assert forall|q: Point| step(glider_second(p)).contains(q) <==> glider_third(p).contains(
        q,
    ) by {
        lemma_live_neighbors_sum(glider_second(p), q);
    }
    assert(step(glider_second(p)) =~= glider_third(p));
    assert forall|q: Point| step(glider_third(p)).contains(q) <==> glider_fourth(p).contains(
        q,
    ) by {
        lemma_live_neighbors_sum(glider_third(p), q);
    }
    assert(step(glider_third(p)) =~= glider_fourth(p));
    assert forall|q: Point| step(glider_fourth(p)).contains(q) <==> glider(
        (p.0 + 1, p.1 + 1),
    ).contains(q) by {
        lemma_live_neighbors_sum(glider_fourth(p), q);
    }
    assert(step(glider_fourth(p)) =~= glider((p.0 + 1, p.1 + 1)));
}

/// A glider travels: after four generations it has its first shape again,
/// one cell further in each axis, and not before.
pub proof fn lemma_glider_travels(p: Point)
    ensures
        generation(glider(p), 4) == glider((p.0 + 1, p.1 + 1)),
        forall|count: nat| 1 <= count < 4 ==> generation(glider(p), count) != glider(
            (p.0 + 1, p.1 + 1),
        ),
{
    lemma_glider_phases(p);
    reveal_with_fuel(generation, 5);
    let moved = glider((p.0 + 1, p.1 + 1));
    assert(generation(glider(p), 1) == glider_second(p));
    assert(generation(glider(p), 2) == glider_third(p));
    assert(generation(glider(p), 3) == glider_fourth(p));
    assert(glider_second(p).contains((p.0, p.1 + 1)) && !moved.contains((p.0, p.1 + 1)));
    assert(glider_third(p).contains((p.0, p.1 + 2)) && !moved.contains((p.0, p.1 + 2)));
    assert(glider_fourth(p).contains((p.0 + 1, p.1 + 1)) && !moved.contains((p.0 + 1, p.1 + 1)));
}

} // verus!
