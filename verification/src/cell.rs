//! Cells of the plane, their neighbourhoods, and the integer keys under which
//! cells are stored in hash tables.

use vstd::prelude::*;

verus! {

/// A cell that the library can store, as `(x, y)`.
pub type Coord = (i64, i64);

/// A cell of the unbounded plane.
pub type Point = (int, int);

/// The point of the plane that a coordinate names.
pub open spec fn point(c: Coord) -> Point {
    (c.0 as int, c.1 as int)
}

/// The points named by a sequence of coordinates, in the same order.
pub open spec fn points(s: Seq<Coord>) -> Seq<Point> {
    s.map_values(|c: Coord| point(c))
}

/// True of the points that lie at least `margin` cells inside the square of
/// the points that a `Coord` can name.
pub open spec fn inset(p: Point, margin: int) -> bool {
    &&& i64::MIN + margin <= p.0 <= i64::MAX - margin
    &&& i64::MIN + margin <= p.1 <= i64::MAX - margin
}

/// True of the points that a `Coord` can name.
pub open spec fn representable(p: Point) -> bool {
    inset(p, 0)
}

/// True of the points whose eight neighbours are all representable.
pub open spec fn interior(p: Point) -> bool {
    inset(p, 1)
}

/// True when `a` and `b` are distinct and differ by at most one in each axis.
pub open spec fn adjacent(a: Point, b: Point) -> bool {
    &&& a != b
    &&& within_one(a, b)
}

/// True when `a` and `b` differ by at most one in each axis; a point is
/// within one of itself.
pub open spec fn within_one(a: Point, b: Point) -> bool {
    &&& -1 <= a.0 - b.0 <= 1
    &&& -1 <= a.1 - b.1 <= 1
}

/// The `k`-th neighbour of `p`, for `k` from 0 to 7: columns from left to
/// right, and within a column from bottom to top.
pub open spec fn neighbor(p: Point, k: int) -> Point {
    if k == 0 {
        (p.0 - 1, p.1 - 1)
    } else if k == 1 {
        (p.0 - 1, p.1)
    } else if k == 2 {
        (p.0 - 1, p.1 + 1)
    } else if k == 3 {
        (p.0, p.1 - 1)
    } else if k == 4 {
        (p.0, p.1 + 1)
    } else if k == 5 {
        (p.0 + 1, p.1 - 1)
    } else if k == 6 {
        (p.0 + 1, p.1)
    } else {
        (p.0 + 1, p.1 + 1)
    }
}

/// The eight neighbours of `p` in their fixed order.
pub open spec fn neighborhood(p: Point) -> Seq<Point> {
    Seq::new(8, |k: int| neighbor(p, k))
}

/// The index under which `q` stands among the neighbours of `p`, where the
/// two are adjacent.
pub open spec fn neighbor_index(p: Point, q: Point) -> int {
    let j = (q.0 - p.0 + 1) * 3 + (q.1 - p.1 + 1);
    if j < 4 {
        j
    } else {
        j - 1
    }
}

/// A point is adjacent to `p` exactly when it is one of the eight
/// neighbours of `p`, and then it stands at its `neighbor_index`.
pub proof fn lemma_neighbor_index(p: Point, q: Point)
    ensures
        adjacent(p, q) ==> 0 <= neighbor_index(p, q) < 8 && neighbor(p, neighbor_index(p, q)) == q,
        adjacent(p, q) <==> adjacent(q, p),
        forall|k: int| 0 <= k < 8 && #[trigger] neighbor(p, k) == q ==> adjacent(p, q) && neighbor_index(p, q) == k,
{
}

/// One if `p` is among the first `m` neighbours of `c`, zero if not.
pub open spec fn arrived(c: Point, p: Point, m: int) -> nat {
    if adjacent(c, p) && neighbor_index(c, p) < m {
        1
    } else {
        0
    }
}

/// The neighbourhood of `p` holds exactly the points adjacent to `p`, each
/// once.
pub proof fn lemma_neighborhood_is_adjacency(p: Point)
    ensures
        neighborhood(p).no_duplicates(),
        forall|q: Point| neighborhood(p).contains(q) <==> adjacent(p, q),
{
    let n = neighborhood(p);
    assert forall|q: Point| adjacent(p, q) implies n.contains(q) by {
        lemma_neighbor_index(p, q);
        assert(n[neighbor_index(p, q)] == q);
    }
}

/// Returns true when `coord` lies at least `margin` cells inside the square
/// of the cells that have a coordinate.
pub fn is_inset(coord: &Coord, margin: i64) -> (b: bool)
    requires
        0 <= margin,
    ensures
        b == inset(point(*coord), margin as int),
{
    let lo: i64 = i64::MIN + margin;
    let hi: i64 = i64::MAX - margin;
    lo <= coord.0 && coord.0 <= hi && lo <= coord.1 && coord.1 <= hi
}

/// Returns the eight neighbours of `coord`, in the order of `neighborhood`:
/// the cells adjacent to `coord`, each once.
///
/// The cell must be interior, so that each neighbour has a coordinate.
pub fn eight(coord: &Coord) -> (result: Vec<Coord>)
    requires
        interior(point(*coord)),
    ensures
        points(result@) == neighborhood(point(*coord)),
        points(result@).no_duplicates(),
        forall|q: Point| points(result@).contains(q) <==> adjacent(point(*coord), q),
{
    let mut result: Vec<Coord> = Vec::with_capacity(8);
    let (cx, cy) = *coord;
    let mut x: i64 = -1;
    while x <= 1
        invariant
            -1 <= x <= 2,
            interior((cx as int, cy as int)),
            result@.len() == if x <= 0 { 3 * (x + 1) } else { 3 * (x + 1) - 1 },
            forall|k: int| 0 <= k < result@.len() ==> point(#[trigger] result@[k]) == neighbor((cx as int, cy as int), k),
        decreases 2 - x,
    {
        let mut y: i64 = -1;
        while y <= 1
            invariant
                -1 <= x <= 1,
                -1 <= y <= 2,
                interior((cx as int, cy as int)),
                result@.len() == (if x <= 0 { 3 * (x + 1) } else { 3 * (x + 1) - 1 }) + (if x == 0 && y > 0 { y as int } else { y + 1 }),
                forall|k: int| 0 <= k < result@.len() ==> point(#[trigger] result@[k]) == neighbor((cx as int, cy as int), k),
            decreases 2 - y,
        {
            if x != 0 || y != 0 {
                result.push((cx + x, cy + y));
            }
            y = y + 1;
        }
        x = x + 1;
    }
    proof {
        assert(points(result@) =~= neighborhood(point(*coord)));
        lemma_neighborhood_is_adjacency(point(*coord));
    }
    result
}

} // verus!
