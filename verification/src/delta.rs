//! The incremental delta engine: beside the live set it keeps the changes of
//! the last step, and in each step it classifies only the neighbours of the
//! cells that those changes name.

use vstd::prelude::*;
use vstd::std_specs::iter::IteratorSpec;
use crate::cell::{
    adjacent, arrived, eight, inset, interior, is_inset, lemma_neighbor_index, neighbor,
    neighbor_index, neighborhood, point, points, Coord, Point,
};
use crate::key::{key_of, lemma_key_bijection, point_of, unpack};
use crate::live_set::LiveSet;
use crate::rule::{classify, compute_change, live, Change, Changes, Destiny};

verus! {

broadcast use vstd::std_specs::hash::group_hash_axioms;

/// The state of the engine: the live set, and the changes that the next
/// step applies to it.
pub type Board = (LiveSet, Changes);

/// The cells that one of the first `n` changes gives the destiny `destiny`.
pub open spec fn marked_among(changes: Seq<Change>, destiny: Destiny, n: int) -> Set<Point> {
    Set::new(
        |p: Point|
            exists|i: int|
                0 <= i < n && (#[trigger] changes[i]).destiny == destiny && point(changes[i].coord)
                    == p,
    )
}

/// The cells that `changes` marks as born.
pub open spec fn born(changes: Seq<Change>) -> Set<Point> {
    marked_among(changes, Destiny::Live, changes.len() as int)
}

/// The cells that `changes` marks as dying.
pub open spec fn dying(changes: Seq<Change>) -> Set<Point> {
    marked_among(changes, Destiny::Die, changes.len() as int)
}

/// The live set after `changes`: the dying cells leave, then the born cells
/// enter.
pub open spec fn applied(live: Set<Point>, changes: Seq<Change>) -> Set<Point> {
    live.difference(dying(changes)).union(born(changes))
}

/// The cells adjacent to a cell that one of the first `n` changes names.
pub open spec fn frontier_among(changes: Seq<Change>, n: int) -> Set<Point> {
    Set::new(
        |p: Point|
            exists|i: int| 0 <= i < n && adjacent(point((#[trigger] changes[i]).coord), p),
    )
}

/// The affected frontier of `changes`: the cells adjacent to a cell that a
/// change names, whatever its destiny.
pub open spec fn frontier(changes: Seq<Change>) -> Set<Point> {
    frontier_among(changes, changes.len() as int)
}

/// The births and deaths that the rule asks of the cells of `affected`
/// against the live set `live`.
pub open spec fn pending(live: Set<Point>, affected: Set<Point>) -> Set<Change> {
    Set::new(
        |ch: Change|
            affected.contains(point(ch.coord)) && ch.destiny != Destiny::Ignored && ch.destiny
                == classify(live, point(ch.coord)),
    )
}

/// The birth of each cell of `cells`, in the same order.
pub open spec fn births(cells: Seq<Coord>) -> Seq<Change> {
    cells.map_values(|c: Coord| Change { destiny: Destiny::Live, coord: c })
}

proof fn lemma_marked_next(changes: Seq<Change>, destiny: Destiny, n: int)
    requires
        0 <= n < changes.len(),
    ensures
        marked_among(changes, destiny, n + 1) == if changes[n].destiny == destiny {
            marked_among(changes, destiny, n).insert(point(changes[n].coord))
        } else {
            marked_among(changes, destiny, n)
        },
{
    let now = marked_among(changes, destiny, n + 1);
    let was = marked_among(changes, destiny, n);
    let c = point(changes[n].coord);
    assert forall|p: Point| was.contains(p) implies now.contains(p) by {
        let i = choose|i: int|
            0 <= i < n && (#[trigger] changes[i]).destiny == destiny && point(changes[i].coord) == p;
        assert(0 <= i < n + 1);
    }
    assert forall|p: Point| now.contains(p) implies was.contains(p) || (p == c && changes[n].destiny
        == destiny) by {
        let i = choose|i: int|
            0 <= i < n + 1 && (#[trigger] changes[i]).destiny == destiny && point(changes[i].coord)
                == p;
        if i < n {
            assert(was.contains(p));
        }
    }
    if changes[n].destiny == destiny {
        assert(now.contains(c));
        assert(now =~= was.insert(c));
    } else {
        assert(now =~= was);
    }
}

proof fn lemma_frontier_next(changes: Seq<Change>, n: int)
    requires
        0 <= n < changes.len(),
    ensures
        forall|p: Point|
            frontier_among(changes, n + 1).contains(p) <==> frontier_among(changes, n).contains(p)
                || adjacent(point(changes[n].coord), p),
{
    let now = frontier_among(changes, n + 1);
    let was = frontier_among(changes, n);
    assert forall|p: Point| now.contains(p) <==> was.contains(p) || adjacent(
        point(changes[n].coord),
        p,
    ) by {
        if was.contains(p) {
            let i = choose|i: int| 0 <= i < n && adjacent(point((#[trigger] changes[i]).coord), p);
            assert(0 <= i < n + 1);
        }
        if now.contains(p) {
            let i = choose|i: int|
                0 <= i < n + 1 && adjacent(point((#[trigger] changes[i]).coord), p);
            if i < n {
                assert(was.contains(p));
            }
        }
        if adjacent(point(changes[n].coord), p) {
            assert(0 <= n < n + 1 && adjacent(point(changes[n].coord), p));
        }
    }
}

/// Returns the live set of `board` after its changes: the cells marked as
/// dying are removed, then the cells marked as born are added.
pub fn apply_changes(board: &Board) -> (result: LiveSet)
    ensures
        result@ == applied(board.0@, board.1@),
{
    let live_set = &board.0;
    let changes = &board.1;
    let mut result = live_set.clone();
    proof {
        assert(marked_among(changes@, Destiny::Die, 0) =~= Set::<Point>::empty());
        assert(result@ =~= live_set@.difference(marked_among(changes@, Destiny::Die, 0)));
    }
    let mut i: usize = 0;
    while i < changes.len()
        invariant
            i <= changes.len(),
            result@ == board.0@.difference(marked_among(changes@, Destiny::Die, i as int)),
        decreases changes.len() - i,
    {
        let ghost earlier = result@;
        match changes[i].destiny {
            Destiny::Die => {
                result.remove(&changes[i].coord);
            },
            _ => {},
        }
        proof {
            lemma_marked_next(changes@, Destiny::Die, i as int);
            assert(result@ =~= board.0@.difference(marked_among(changes@, Destiny::Die, i + 1)));
        }
        i = i + 1;
    }
    proof {
        assert(marked_among(changes@, Destiny::Live, 0) =~= Set::<Point>::empty());
        assert(result@ =~= board.0@.difference(dying(changes@)).union(
            marked_among(changes@, Destiny::Live, 0),
        ));
    }
    let mut i: usize = 0;
    while i < changes.len()
        invariant
            i <= changes.len(),
            result@ == board.0@.difference(dying(changes@)).union(
                marked_among(changes@, Destiny::Live, i as int),
            ),
        decreases changes.len() - i,
    {
        match changes[i].destiny {
            Destiny::Live => {
                result.insert(changes[i].coord);
            },
            _ => {},
        }
        proof {
            lemma_marked_next(changes@, Destiny::Live, i as int);
            assert(result@ =~= board.0@.difference(dying(changes@)).union(
                marked_among(changes@, Destiny::Live, i + 1),
            ));
        }
        i = i + 1;
    }
    result
}

/// Returns the affected frontier of `changes`.
///
/// Every cell that a change names must be interior, so that each of its
/// neighbours has a coordinate.
pub fn neighbors(changes: &Changes) -> (result: LiveSet)
    requires
        forall|i: int| 0 <= i < changes@.len() ==> interior(point(#[trigger] changes@[i].coord)),
    ensures
        result@ == frontier(changes@),
{
    let hint: usize = match changes.len().checked_mul(8) {
        Some(n) => n,
        None => changes.len(),
    };
    let mut result = LiveSet::with_capacity(hint);
    let mut i: usize = 0;
    assert(result@ =~= frontier_among(changes@, 0));
    while i < changes.len()
        invariant
            i <= changes.len(),
            forall|i: int| 0 <= i < changes@.len() ==> interior(point(#[trigger] changes@[i].coord)),
            result@ == frontier_among(changes@, i as int),
        decreases changes.len() - i,
    {
        let around = eight(&changes[i].coord);
        let ghost c = point(changes@[i as int].coord);
        let ghost before = result@;
        assert(around@.len() == 8) by {
            assert(points(around@).len() == 8);
        }
        let mut m: usize = 0;
        while m < 8
            invariant
                m <= 8,
                around@.len() == 8,
                points(around@) == neighborhood(c),
                forall|p: Point|
                    #[trigger] result@.contains(p) <==> before.contains(p) || arrived(c, p, m as int) == 1,
            decreases 8 - m,
        {
            let ghost earlier = result@;
            result.insert(around[m]);
            proof {
                assert(point(around@[m as int]) == neighborhood(c)[m as int]) by {
                    assert(points(around@)[m as int] == neighborhood(c)[m as int]);
                }
                let added = point(around@[m as int]);
                assert(result@ == earlier.insert(added));
                assert(added == neighbor(c, m as int));
                assert forall|p: Point|
                    #[trigger] result@.contains(p) <==> before.contains(p) || arrived(c, p, m + 1) == 1 by {
                    lemma_neighbor_index(c, p);
                    assert(earlier.contains(p) <==> before.contains(p) || arrived(c, p, m as int) == 1);
                    assert(result@.contains(p) <==> earlier.contains(p) || p == added);
                    assert(p == added <==> adjacent(c, p) && neighbor_index(c, p) == m);
                }
            }
            m = m + 1;
        }
        proof {
            lemma_frontier_next(changes@, i as int);
            assert forall|p: Point|
                #[trigger] result@.contains(p) <==> frontier_among(changes@, i + 1).contains(p) by {
                lemma_neighbor_index(c, p);
            }
            assert(result@ =~= frontier_among(changes@, i + 1));
        }
        i = i + 1;
    }
    result
}

/// Classifies every cell of `affected` against `live_set` and returns the
/// births and deaths, each once, in no particular order.
///
/// Every cell of `affected` must be interior.
pub fn compute_changes(live_set: &LiveSet, affected: &LiveSet) -> (result: Changes)
    requires
        forall|p: Point| affected@.contains(p) ==> interior(p),
    ensures
        result@.no_duplicates(),
        result@.to_set() == pending(live_set@, affected@),
{
    let mut result: Changes = Vec::new();
    let ghost keys = affected.keys.iter().remaining().unref();
    let ghost mut n: int = 0;
    for k in it: affected.keys.iter()
        invariant
            it.seq().unref() == keys,
            n == it.index(),
            0 <= n <= keys.len(),
            keys.no_duplicates(),
            keys.to_set() == affected.keys@,
            forall|p: Point| affected@.contains(p) ==> interior(p),
            result@.no_duplicates(),
            forall|i: int|
                0 <= i < result@.len() ==> exists|j: int|
                    0 <= j < n && point_of(#[trigger] keys[j]) == point((#[trigger] result@[i]).coord),
            forall|i: int|
                0 <= i < result@.len() ==> (#[trigger] result@[i]).destiny != Destiny::Ignored
                    && result@[i].destiny == classify(live_set@, point(result@[i].coord)),
            forall|j: int|
                0 <= j < n && classify(live_set@, point_of(#[trigger] keys[j])) != Destiny::Ignored
                    ==> exists|i: int|
                    0 <= i < result@.len() && point((#[trigger] result@[i]).coord) == point_of(
                        keys[j],
                    ),
    {
        let coord = unpack(*k);
        let ghost earlier = result@;
        proof {
            lemma_key_bijection();
            affected.lemma_keys();
            assert(*k == keys[n]);
            assert(keys.to_set().contains(keys[n]));
            assert(affected@.contains(point(coord)));
        }
        let found = compute_change(live_set, &coord);
        match found.destiny {
            Destiny::Ignored => {},
            _ => {
                result.push(found);
            },
        }
        proof {
            assert forall|i: int| 0 <= i < earlier.len() implies (#[trigger] earlier[i]).coord
                != coord by {
                let j = choose|j: int|
                    0 <= j < n && point_of(#[trigger] keys[j]) == point(earlier[i].coord);
                assert(key_of(point_of(keys[j])) == keys[j]);
                assert(key_of(point_of(keys[n])) == keys[n]);
            }
            assert forall|i: int| 0 <= i < result@.len() implies exists|j: int|
                0 <= j < n + 1 && point_of(#[trigger] keys[j]) == point((#[trigger] result@[i]).coord) by {
                if i < earlier.len() {
                    let j = choose|j: int|
                        0 <= j < n && point_of(#[trigger] keys[j]) == point(earlier[i].coord);
                    assert(0 <= j < n + 1 && point_of(keys[j]) == point(result@[i].coord));
                } else {
                    assert(0 <= n < n + 1 && point_of(keys[n]) == point(result@[i].coord));
                }
            }
            assert forall|j: int|
                0 <= j < n + 1 && classify(live_set@, point_of(#[trigger] keys[j]))
                    != Destiny::Ignored implies exists|i: int|
                0 <= i < result@.len() && point((#[trigger] result@[i]).coord) == point_of(
                    keys[j],
                ) by {
                if j < n {
                    let i = choose|i: int|
                        0 <= i < earlier.len() && point((#[trigger] earlier[i]).coord) == point_of(
                            keys[j],
                        );
                    assert(0 <= i < result@.len() && point(result@[i].coord) == point_of(keys[j]));
                } else {
                    let i = result@.len() - 1;
                    assert(0 <= i < result@.len() && point(result@[i].coord) == point_of(keys[j]));
                }
            }
            n = n + 1;
        }
    }
    proof {
        lemma_key_bijection();
        affected.lemma_keys();
        assert forall|ch: Change| result@.to_set().contains(ch) <==> pending(
            live_set@,
            affected@,
        ).contains(ch) by {
            if result@.to_set().contains(ch) {
                let i = choose|i: int| 0 <= i < result@.len() && result@[i] == ch;
                let j = choose|j: int|
                    0 <= j < n && point_of(#[trigger] keys[j]) == point(result@[i].coord);
                assert(keys.to_set().contains(keys[j]));
            }
            if pending(live_set@, affected@).contains(ch) {
                let key = key_of(point(ch.coord));
                assert(keys.to_set().contains(key));
                let j = choose|j: int| 0 <= j < keys.len() && keys[j] == key;
                assert(point_of(keys[j]) == point(ch.coord));
                let i = choose|i: int|
                    0 <= i < result@.len() && point((#[trigger] result@[i]).coord) == point_of(
                        keys[j],
                    );
                assert(result@[i] == ch);
            }
        }
        assert(result@.to_set() =~= pending(live_set@, affected@));
    }
    result
}

/// Returns true when every cell that a change of `board` names lies at
/// least two cells inside the square of the cells that have a coordinate:
/// the boards that `next` accepts.
pub fn can_advance(board: &Board) -> (b: bool)
    ensures
        b == (forall|i: int|
            0 <= i < board.1@.len() ==> inset(point(#[trigger] board.1@[i].coord), 2)),
{
    let mut i: usize = 0;
    while i < board.1.len()
        invariant
            i <= board.1@.len(),
            forall|j: int| 0 <= j < i ==> inset(point(#[trigger] board.1@[j].coord), 2),
        decreases board.1@.len() - i,
    {
        if !is_inset(&board.1[i].coord, 2) {
            assert(!inset(point(board.1@[i as int].coord), 2));
            return false;
        }
        i = i + 1;
    }
    true
}

/// Returns the board on which the cells of `cells` are about to be born:
/// no cell is live yet, and each cell listed has its birth among the
/// changes.
pub fn seed(cells: &Vec<Coord>) -> (board: Board)
    ensures
        board.0@ == Set::<Point>::empty(),
        board.1@ == births(cells@),
{
    let mut changes: Changes = Vec::with_capacity(cells.len());
    let mut i: usize = 0;
    while i < cells.len()
        invariant
            i <= cells.len(),
            changes@ == births(cells@).take(i as int),
        decreases cells.len() - i,
    {
        changes.push(live(&cells[i]));
        assert(changes@ =~= births(cells@).take(i + 1));
        i = i + 1;
    }
    assert(changes@ =~= births(cells@));
    (LiveSet::new(), changes)
}

/// Advances a board by one step: applies its changes to its live set, then
/// classifies the affected frontier of those changes against the new live
/// set and keeps the births and deaths as the new changes.
///
/// Every cell that a change names must lie at least two cells inside the
/// square of the cells that have a coordinate, so that each cell of the
/// frontier is interior.
pub fn next(board: Board) -> (result: Board)
    requires
        forall|i: int| 0 <= i < board.1@.len() ==> inset(point(#[trigger] board.1@[i].coord), 2),
    ensures
        result.0@ == applied(board.0@, board.1@),
        result.1@.no_duplicates(),
        result.1@.to_set() == pending(result.0@, frontier(board.1@)),
{
    let new_set = apply_changes(&board);
    let affected = neighbors(&board.1);
    proof {
        assert forall|p: Point| affected@.contains(p) implies interior(p) by {
            let i = choose|i: int|
                0 <= i < board.1@.len() && adjacent(point((#[trigger] board.1@[i]).coord), p);
            assert(inset(point(board.1@[i].coord), 2));
        }
    }
    let updates = compute_changes(&new_set, &affected);
    (new_set, updates)
}

} // verus!
