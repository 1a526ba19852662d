//! What a display needs of a live set: its bounding box, and the cells of a
//! window as rows of characters.

use vstd::prelude::*;
use vstd::std_specs::iter::IteratorSpec;
use crate::cell::{point, Coord, Point};
use crate::key::{key_of, lemma_key_bijection, point_of, unpack};
use crate::live_set::LiveSet;

verus! {

broadcast use vstd::std_specs::hash::group_hash_axioms;

/// A corner of a box.
pub type Corner = Coord;

/// A box of cells, as its corner of least `x` and `y` and its corner of
/// greatest `x` and `y`.
pub type BoundingBox = (Corner, Corner);

/// True when every live cell lies between `lo` and `hi` in both axes.
pub open spec fn encloses(live: Set<Point>, lo: Point, hi: Point) -> bool {
    forall|p: Point| live.contains(p) ==> lo.0 <= p.0 <= hi.0 && lo.1 <= p.1 <= hi.1
}

/// True when each of the four sides of the box from `lo` to `hi` passes
/// through a live cell.
pub open spec fn touches(live: Set<Point>, lo: Point, hi: Point) -> bool {
    &&& exists|p: Point| live.contains(p) && p.0 == lo.0
    &&& exists|p: Point| live.contains(p) && p.1 == lo.1
    &&& exists|p: Point| live.contains(p) && p.0 == hi.0
    &&& exists|p: Point| live.contains(p) && p.1 == hi.1
}

/// True when `lo` and `hi` are the corners of the bounding box of `live`:
/// the least box that encloses the live cells, and the fixed box from
/// (0, 0) to (1, 1) where no cell is live.
pub open spec fn is_bbox(live: Set<Point>, lo: Point, hi: Point) -> bool {
    if live =~= Set::<Point>::empty() {
        lo == (0int, 0int) && hi == (1int, 1int)
    } else {
        encloses(live, lo, hi) && touches(live, lo, hi)
    }
}

/// A live set has one bounding box only.
pub proof fn lemma_bbox_unique(live: Set<Point>, lo: Point, hi: Point, lo2: Point, hi2: Point)
    requires
        is_bbox(live, lo, hi),
        is_bbox(live, lo2, hi2),
    ensures
        lo == lo2,
        hi == hi2,
{
}

/// True when one of the first `n` keys stands for a point whose `x` is `v`.
spec fn attains_x(keys: Seq<u128>, n: int, v: int) -> bool {
    exists|j: int| 0 <= j < n && point_of(#[trigger] keys[j]).0 == v
}

/// True when one of the first `n` keys stands for a point whose `y` is `v`.
spec fn attains_y(keys: Seq<u128>, n: int, v: int) -> bool {
    exists|j: int| 0 <= j < n && point_of(#[trigger] keys[j]).1 == v
}

proof fn lemma_attains_next(keys: Seq<u128>, n: int, v: int)
    requires
        0 <= n < keys.len(),
    ensures
        attains_x(keys, n, v) || point_of(keys[n]).0 == v ==> attains_x(keys, n + 1, v),
        attains_y(keys, n, v) || point_of(keys[n]).1 == v ==> attains_y(keys, n + 1, v),
{
    if attains_x(keys, n, v) {
        let j = choose|j: int| 0 <= j < n && point_of(#[trigger] keys[j]).0 == v;
        assert(0 <= j < n + 1 && point_of(keys[j]).0 == v);
    }
    if point_of(keys[n]).0 == v {
        assert(0 <= n < n + 1 && point_of(keys[n]).0 == v);
    }
    if attains_y(keys, n, v) {
        let j = choose|j: int| 0 <= j < n && point_of(#[trigger] keys[j]).1 == v;
        assert(0 <= j < n + 1 && point_of(keys[j]).1 == v);
    }
    if point_of(keys[n]).1 == v {
        assert(0 <= n < n + 1 && point_of(keys[n]).1 == v);
    }
}

/// Returns the bounding box of `live_set`: the corner of the least `x` and
/// `y` and the corner of the greatest `x` and `y` of its cells, or the box
/// from (0, 0) to (1, 1) where it is empty.
pub fn bbox(live_set: &LiveSet) -> (result: BoundingBox)
    ensures
        is_bbox(live_set@, point(result.0), point(result.1)),
{
    if live_set.is_empty() {
        return ((0, 0), (1, 1));
    }
    let mut minx: i64 = i64::MAX;
    let mut maxx: i64 = i64::MIN;
    let mut miny: i64 = i64::MAX;
    let mut maxy: i64 = i64::MIN;
    let ghost keys = live_set.keys.iter().remaining().unref();
    let ghost mut n: int = 0;
    for k in it: live_set.keys.iter()
        invariant
            it.seq().unref() == keys,
            n == it.index(),
            0 <= n <= keys.len(),
            forall|j: int|
                0 <= j < n ==> minx <= point_of(#[trigger] keys[j]).0 <= maxx && miny <= point_of(
                    keys[j],
                ).1 <= maxy,
            n == 0 ==> minx == i64::MAX && maxx == i64::MIN && miny == i64::MAX && maxy
                == i64::MIN,
            n > 0 ==> attains_x(keys, n, minx as int) && attains_x(keys, n, maxx as int)
                && attains_y(keys, n, miny as int) && attains_y(keys, n, maxy as int),
    {
        let (x, y) = unpack(*k);
        let ghost was = (minx, maxx, miny, maxy);
        proof {
            assert(*k == keys[n]);
        }
        if x < minx {
            minx = x;
        }
        if x > maxx {
            maxx = x;
        }
        if y < miny {
            miny = y;
        }
        if y > maxy {
            maxy = y;
        }
        proof {
            lemma_attains_next(keys, n, minx as int);
            lemma_attains_next(keys, n, maxx as int);
            lemma_attains_next(keys, n, miny as int);
            lemma_attains_next(keys, n, maxy as int);
            n = n + 1;
        }
    }
    proof {
        lemma_key_bijection();
        live_set.lemma_keys();
        let live = live_set@;
        let lo = (minx as int, miny as int);
        let hi = (maxx as int, maxy as int);
        assert(keys.to_set() == live_set.keys@);
        assert forall|p: Point| live.contains(p) implies lo.0 <= p.0 <= hi.0 && lo.1 <= p.1
            <= hi.1 by {
            assert(keys.to_set().contains(key_of(p)));
            let j = choose|j: int| 0 <= j < keys.len() && keys[j] == key_of(p);
            assert(point_of(keys[j]) == p);
        }
        assert(n > 0) by {
            if n == 0 {
                assert(keys.to_set() =~= Set::<u128>::empty());
                assert(live =~= Set::<Point>::empty());
            }
        }
        let a = choose|j: int| 0 <= j < n && point_of(#[trigger] keys[j]).0 == minx as int;
        let b = choose|j: int| 0 <= j < n && point_of(#[trigger] keys[j]).1 == miny as int;
        let c = choose|j: int| 0 <= j < n && point_of(#[trigger] keys[j]).0 == maxx as int;
        let d = choose|j: int| 0 <= j < n && point_of(#[trigger] keys[j]).1 == maxy as int;
        assert(keys.to_set().contains(keys[a]) && keys.to_set().contains(keys[b])
            && keys.to_set().contains(keys[c]) && keys.to_set().contains(keys[d]));
        assert(live.contains(point_of(keys[a])) && point_of(keys[a]).0 == lo.0);
        assert(live.contains(point_of(keys[b])) && point_of(keys[b]).1 == lo.1);
        assert(live.contains(point_of(keys[c])) && point_of(keys[c]).0 == hi.0);
        assert(live.contains(point_of(keys[d])) && point_of(keys[d]).1 == hi.1);
    }
    ((minx, miny), (maxx, maxy))
}

/// The number of integers from `lo` to `hi`, both included.
pub open spec fn extent(lo: int, hi: int) -> nat {
    if hi >= lo {
        (hi - lo + 1) as nat
    } else {
        0
    }
}

/// The character that shows a cell: `#` for a live cell, a space for a dead
/// one.
pub open spec fn glyph(is_live: bool) -> char {
    if is_live {
        '#'
    } else {
        ' '
    }
}

/// Returns the cells of `window` as rows of characters, the row of the
/// greatest `y` first, and within a row the cell of the least `x` first. A
/// window whose greatest corner lies below or left of its least corner has
/// no rows, or empty rows.
///
/// The width and the height of the window must fit in `usize`.
pub fn render(live_set: &LiveSet, window: &BoundingBox) -> (rows: Vec<Vec<char>>)
    requires
        point(window.1).0 - point(window.0).0 < usize::MAX,
        point(window.1).1 - point(window.0).1 < usize::MAX,
    ensures
        rows@.len() == extent(point(window.0).1, point(window.1).1),
        forall|r: int|
            0 <= r < rows@.len() ==> (#[trigger] rows@[r])@.len() == extent(
                point(window.0).0,
                point(window.1).0,
            ),
        forall|r: int, c: int|
            0 <= r < rows@.len() && 0 <= c < rows@[r]@.len() ==> (#[trigger] rows@[r]@[c])
                == glyph(live_set@.contains((point(window.0).0 + c, point(window.1).1 - r))),
{
    let lo = window.0;
    let hi = window.1;
    let width: usize = if hi.0 >= lo.0 {
        (hi.0 as i128 - lo.0 as i128 + 1) as usize
    } else {
        0
    };
    let height: usize = if hi.1 >= lo.1 {
        (hi.1 as i128 - lo.1 as i128 + 1) as usize
    } else {
        0
    };
    let mut rows: Vec<Vec<char>> = Vec::new();
    let mut r: usize = 0;
    while r < height
        invariant
            r <= height,
            height == extent(lo.1 as int, hi.1 as int),
            width == extent(lo.0 as int, hi.0 as int),
            rows@.len() == r,
            forall|i: int| 0 <= i < rows@.len() ==> (#[trigger] rows@[i])@.len() == width,
            forall|i: int, c: int|
                0 <= i < rows@.len() && 0 <= c < rows@[i]@.len() ==> (#[trigger] rows@[i]@[c])
                    == glyph(live_set@.contains((lo.0 + c, hi.1 - i))),
        decreases height - r,
    {
        let y: i64 = (hi.1 as i128 - r as i128) as i64;
        let mut row: Vec<char> = Vec::new();
        let mut c: usize = 0;
        while c < width
            invariant
                c <= width,
                width == extent(lo.0 as int, hi.0 as int),
                row@.len() == c,
                forall|i: int|
                    0 <= i < row@.len() ==> (#[trigger] row@[i]) == glyph(
                        live_set@.contains((lo.0 + i, y as int)),
                    ),
            decreases width - c,
        {
            let x: i64 = (lo.0 as i128 + c as i128) as i64;
            if live_set.contains(&(x, y)) {
                row.push('#');
            } else {
                row.push(' ');
            }
            c = c + 1;
        }
        rows.push(row);
        r = r + 1;
    }
    rows
}

} // verus!
