//! The rule of Life (a dead cell with three live neighbours is born, a live
//! cell with two or three survives) and the classification of one cell.

use vstd::prelude::*;
use crate::cell::{
    adjacent, eight, interior, lemma_neighbor_index, neighbor, neighborhood, point, points, Coord,
    Point,
};
use crate::live_set::LiveSet;

verus! {

/// What the next generation holds for a cell.
#[derive(Clone, Copy, Debug, PartialEq, Eq, Structural)]
pub enum Destiny {
    /// The cell is dead and becomes live.
    Live,
    /// The cell is live and becomes dead.
    Die,
    /// The cell stays as it is.
    Ignored,
}

/// The destiny of one cell.
#[derive(Clone, Copy, Debug, PartialEq, Eq)]
pub struct Change {
    pub destiny: Destiny,
    pub coord: Coord,
}

/// A list of changes.
pub type Changes = Vec<Change>;

/// One if `p` is live, zero if not.
pub open spec fn occupied(live: Set<Point>, p: Point) -> nat {
    if live.contains(p) {
        1
    } else {
        0
    }
}

/// The number of live cells among the first `k` neighbours of `p`.
pub open spec fn live_among(live: Set<Point>, p: Point, k: int) -> nat
    decreases k,
{
    if k <= 0 {
        0
    } else {
        live_among(live, p, k - 1) + occupied(live, neighbor(p, k - 1))
    }
}

/// The number of live cells among the eight neighbours of `p`. Whether `p`
/// itself is live does not count.
pub open spec fn live_neighbors(live: Set<Point>, p: Point) -> nat {
    live_among(live, p, 8)
}

/// The classification of `p` against the live set `live`.
pub open spec fn classify(live: Set<Point>, p: Point) -> Destiny {
    let n = live_neighbors(live, p);
    if n == 2 {
        Destiny::Ignored
    } else if n == 3 {
        if live.contains(p) {
            Destiny::Ignored
        } else {
            Destiny::Live
        }
    } else {
        if live.contains(p) {
            Destiny::Die
        } else {
            Destiny::Ignored
        }
    }
}

/// Whether a cell is live after a change of the given destiny.
pub open spec fn outcome(destiny: Destiny, was_live: bool) -> bool {
    match destiny {
        Destiny::Live => true,
        Destiny::Die => false,
        Destiny::Ignored => was_live,
    }
}

/// Whether `p` is live in the generation after `live`: born on three live
/// neighbours, surviving on two or three.
pub open spec fn alive_next(live: Set<Point>, p: Point) -> bool {
    let n = live_neighbors(live, p);
    n == 3 || (n == 2 && live.contains(p))
}

/// The generation after `live`.
pub open spec fn step(live: Set<Point>) -> Set<Point> {
    Set::new(|p: Point| alive_next(live, p))
}

/// The live set `count` generations after `live`.
pub open spec fn generation(live: Set<Point>, count: nat) -> Set<Point>
    decreases count,
{
    if count == 0 {
        live
    } else {
        step(generation(live, (count - 1) as nat))
    }
}

/// The neighbour count written out as a sum over the eight neighbours.
pub proof fn lemma_live_neighbors_sum(live: Set<Point>, p: Point)
    ensures
        live_neighbors(live, p) == occupied(live, neighbor(p, 0)) + occupied(live, neighbor(p, 1))
            + occupied(live, neighbor(p, 2)) + occupied(live, neighbor(p, 3)) + occupied(
            live,
            neighbor(p, 4),
        ) + occupied(live, neighbor(p, 5)) + occupied(live, neighbor(p, 6)) + occupied(
            live,
            neighbor(p, 7),
        ),
        live_neighbors(live, p) <= 8,
{
    reveal_with_fuel(live_among, 9);
}

/// A cell has a live neighbour exactly when some live cell is adjacent to it.
pub proof fn lemma_live_neighbors_zero(live: Set<Point>, p: Point)
    ensures
        live_neighbors(live, p) == 0 <==> (forall|q: Point| live.contains(q) ==> !adjacent(q, p)),
{
    lemma_live_neighbors_sum(live, p);
    if live_neighbors(live, p) == 0 {
        assert forall|q: Point| live.contains(q) implies !adjacent(q, p) by {
            if adjacent(q, p) {
                lemma_neighbor_index(p, q);
            }
        }
    } else {
        let k = choose|k: int| 0 <= k < 8 && live.contains(neighbor(p, k));
        assert(adjacent(neighbor(p, k), p));
    }
}

/// Making one more cell live raises by one the neighbour count of the cells
/// adjacent to it, and of no others.
pub proof fn lemma_live_neighbors_insert(live: Set<Point>, c: Point, p: Point)
    requires
        !live.contains(c),
    ensures
        live_neighbors(live.insert(c), p) == live_neighbors(live, p) + (if adjacent(c, p) {
            1nat
        } else {
            0nat
        }),
{
    lemma_live_neighbors_sum(live, p);
    lemma_live_neighbors_sum(live.insert(c), p);
    lemma_neighbor_index(p, c);
}

/// The classification agrees with the rule of Life: on exactly two live
/// neighbours the cell does not change, on exactly three it is live in the
/// next generation, and on any other count it is dead.
pub proof fn lemma_rule_correct(live: Set<Point>, p: Point)
    ensures
        outcome(classify(live, p), live.contains(p)) == alive_next(live, p),
        live_neighbors(live, p) == 2 ==> outcome(classify(live, p), live.contains(p)) == live.contains(p),
        live_neighbors(live, p) == 3 ==> outcome(classify(live, p), live.contains(p)),
        live_neighbors(live, p) != 2 && live_neighbors(live, p) != 3 ==> !outcome(
            classify(live, p),
            live.contains(p),
        ),
{
}

/// Returns the change that gives `coord` the destiny `destiny`.
pub fn change(destiny: Destiny, coord: Coord) -> (result: Change)
    ensures
        result == (Change { destiny, coord }),
{
    Change { destiny, coord }
}

/// Returns the birth of `c`.
pub fn live(c: &Coord) -> (result: Change)
    ensures
        result == (Change { destiny: Destiny::Live, coord: *c }),
{
    change(Destiny::Live, *c)
}

/// Returns the death of `c`.
pub fn die(c: &Coord) -> (result: Change)
    ensures
        result == (Change { destiny: Destiny::Die, coord: *c }),
{
    change(Destiny::Die, *c)
}

/// Returns the change that leaves `c` as it is.
pub fn ignored(c: &Coord) -> (result: Change)
    ensures
        result == (Change { destiny: Destiny::Ignored, coord: *c }),
{
    change(Destiny::Ignored, *c)
}

/// Counts the live cells among the eight neighbours of `coord`.
pub fn neighbor_count(live_set: &LiveSet, coord: &Coord) -> (count: usize)
    requires
        interior(point(*coord)),
    ensures
        count == live_neighbors(live_set@, point(*coord)),
{
    let around = eight(coord);
    let mut count: usize = 0;
    let mut k: usize = 0;
    assert(around@.len() == 8) by {
        assert(points(around@).len() == 8);
    }
    while k < 8
        invariant
            k <= 8,
            around@.len() == 8,
            points(around@) == neighborhood(point(*coord)),
            count == live_among(live_set@, point(*coord), k as int),
            count <= k,
        decreases 8 - k,
    {
        assert(point(around@[k as int]) == neighbor(point(*coord), k as int)) by {
            assert(points(around@)[k as int] == neighborhood(point(*coord))[k as int]);
        }
        if live_set.contains(&around[k]) {
            count = count + 1;
        }
        k = k + 1;
    }
    count
}

/// Classifies `c` against `live_set`.
pub fn compute_change(live_set: &LiveSet, c: &Coord) -> (result: Change)
    requires
        interior(point(*c)),
    ensures
        result == (Change { destiny: classify(live_set@, point(*c)), coord: *c }),
{
    let count = neighbor_count(live_set, c);
    if count == 2 {
        ignored(c)
    } else if count == 3 {
        if !live_set.contains(c) {
            live(c)
        } else {
            ignored(c)
        }
    } else {
        if live_set.contains(c) {
            die(c)
        } else {
            ignored(c)
        }
    }
}

} // verus!
