//! What holds of the two engines together: they agree on every generation,
//! the delta engine looks at no cell that nothing changed around, and the
//! empty board stays empty.

use vstd::prelude::*;
use crate::cell::{
    adjacent, interior, lemma_neighbor_index, neighbor, point, points, representable, within_one,
    Coord, Point,
};
use crate::delta::{applied, births, born, dying, frontier, pending};
use crate::rule::{
    alive_next, classify, generation, lemma_live_neighbors_sum, lemma_rule_correct,
    live_neighbors, step, Change, Destiny,
};

verus! {

/// True when `changes` lists exactly the births and deaths that the rule
/// asks of `live`, over the whole plane: the changes that turn `live` into
/// its next generation.
pub open spec fn due(live: Set<Point>, changes: Seq<Change>) -> bool {
    changes.to_set() == pending(live, Set::<Point>::full())
}

/// The coordinate that names a representable point.
pub open spec fn coord_of(p: Point) -> Coord {
    (p.0 as i64, p.1 as i64)
}

/// A cell that changes between `live` and its next generation is
/// representable, where every live cell is interior.
proof fn lemma_changed_is_representable(live: Set<Point>, p: Point)
    requires
        forall|q: Point| live.contains(q) ==> interior(q),
        classify(live, p) != Destiny::Ignored,
    ensures
        representable(p),
        point(coord_of(p)) == p,
        live_neighbors(live, p) > 0 ==> exists|q: Point| live.contains(q) && adjacent(q, p),
{
    lemma_live_neighbors_sum(live, p);
    if live_neighbors(live, p) > 0 {
        let k = choose|k: int| 0 <= k < 8 && live.contains(neighbor(p, k));
        let q = neighbor(p, k);
        assert(interior(q));
        assert(live.contains(q) && adjacent(q, p));
    } else {
        assert(live.contains(p));
        assert(interior(p));
    }
}

/// Under changes that are due, the cells marked as born are those that the
/// rule gives life, and the cells marked as dying are those that it kills.
proof fn lemma_due_marks(live: Set<Point>, changes: Seq<Change>, p: Point)
    requires
        forall|q: Point| live.contains(q) ==> interior(q),
        due(live, changes),
    ensures
        born(changes).contains(p) <==> classify(live, p) == Destiny::Live,
        dying(changes).contains(p) <==> classify(live, p) == Destiny::Die,
        classify(live, p) != Destiny::Ignored ==> exists|i: int|
            0 <= i < changes.len() && point((#[trigger] changes[i]).coord) == p,
{
    let all = Set::<Point>::full();
    if born(changes).contains(p) {
        let i = choose|i: int|
            0 <= i < changes.len() && (#[trigger] changes[i]).destiny == Destiny::Live && point(
                changes[i].coord,
            ) == p;
        assert(changes.to_set().contains(changes[i]));
        assert(pending(live, all).contains(changes[i]));
    }
    if dying(changes).contains(p) {
        let i = choose|i: int|
            0 <= i < changes.len() && (#[trigger] changes[i]).destiny == Destiny::Die && point(
                changes[i].coord,
            ) == p;
        assert(changes.to_set().contains(changes[i]));
        assert(pending(live, all).contains(changes[i]));
    }
    if classify(live, p) != Destiny::Ignored {
        lemma_changed_is_representable(live, p);
        let ch = Change { destiny: classify(live, p), coord: coord_of(p) };
        assert(all.contains(point(ch.coord)));
        assert(pending(live, all).contains(ch));
        assert(changes.to_set().contains(ch));
        let i = choose|i: int| 0 <= i < changes.len() && changes[i] == ch;
        assert(changes[i].destiny == classify(live, p) && point(changes[i].coord) == p);
    }
}

/// The two engines agree. Where the changes of a board are due for its
/// live set, applying them, as the delta engine does, gives the next
/// generation of that live set, which is what the dense engine computes.
pub proof fn lemma_engines_agree(live: Set<Point>, changes: Seq<Change>)
    requires
        forall|q: Point| live.contains(q) ==> interior(q),
        due(live, changes),
    ensures
        applied(live, changes) == step(live),
{
    assert forall|p: Point| applied(live, changes).contains(p) <==> step(live).contains(p) by {
        lemma_due_marks(live, changes, p);
        lemma_rule_correct(live, p);
    }
    assert(applied(live, changes) =~= step(live));
}

/// A cell none of whose neighbours changed from `live` to its next
/// generation needs no change in the generation after.
proof fn lemma_quiet_cell(live: Set<Point>, p: Point)
    requires
        forall|k: int|
            0 <= k < 8 ==> step(live).contains(#[trigger] neighbor(p, k)) == live.contains(
                neighbor(p, k),
            ),
    ensures
        classify(step(live), p) == Destiny::Ignored,
{
    lemma_live_neighbors_sum(live, p);
    lemma_live_neighbors_sum(step(live), p);
    assert(step(live).contains(neighbor(p, 0)) == live.contains(neighbor(p, 0)));
    assert(step(live).contains(neighbor(p, 1)) == live.contains(neighbor(p, 1)));
    assert(step(live).contains(neighbor(p, 2)) == live.contains(neighbor(p, 2)));
    assert(step(live).contains(neighbor(p, 3)) == live.contains(neighbor(p, 3)));
    assert(step(live).contains(neighbor(p, 4)) == live.contains(neighbor(p, 4)));
    assert(step(live).contains(neighbor(p, 5)) == live.contains(neighbor(p, 5)));
    assert(step(live).contains(neighbor(p, 6)) == live.contains(neighbor(p, 6)));
    assert(step(live).contains(neighbor(p, 7)) == live.contains(neighbor(p, 7)));
    assert(live_neighbors(step(live), p) == live_neighbors(live, p));
    assert(step(live).contains(p) == alive_next(live, p));
}

/// The agreement lasts. Where the changes of a board are due for its live
/// set, the changes that the delta engine computes in its step, which are
/// those asked of the affected frontier alone, are due for the new live
/// set: outside the frontier no cell needs a change.
pub proof fn lemma_due_is_kept(live: Set<Point>, changes: Seq<Change>, after: Seq<Change>)
    requires
        forall|q: Point| live.contains(q) ==> interior(q),
        due(live, changes),
        after.to_set() == pending(applied(live, changes), frontier(changes)),
    ensures
        due(step(live), after),
{
    lemma_engines_agree(live, changes);
    let all = Set::<Point>::full();
    let narrow = pending(step(live), frontier(changes));
    let wide = pending(step(live), all);
    assert forall|ch: Change| wide.contains(ch) implies narrow.contains(ch) by {
        let p = point(ch.coord);
        if !frontier(changes).contains(p) {
            assert forall|k: int| 0 <= k < 8 implies step(live).contains(
                #[trigger] neighbor(p, k),
            ) == live.contains(neighbor(p, k)) by {
                let q = neighbor(p, k);
                if step(live).contains(q) != live.contains(q) {
                    lemma_rule_correct(live, q);
                    lemma_due_marks(live, changes, q);
                    let i = choose|i: int|
                        0 <= i < changes.len() && point((#[trigger] changes[i]).coord) == q;
                    lemma_neighbor_index(p, q);
                    assert(adjacent(point(changes[i].coord), p));
                    assert(frontier(changes).contains(p));
                }
            }
            lemma_quiet_cell(live, p);
        }
    }
    assert(narrow =~= wide);
}

/// True when the delta engine, in one step, can turn the board `before`
/// into the board `after`: the live set and the set of changes of `after`
/// are those that the step computes, in whatever order it lists the changes.
pub open spec fn follows(
    before: (Set<Point>, Seq<Change>),
    after: (Set<Point>, Seq<Change>),
) -> bool {
    &&& after.0 == applied(before.0, before.1)
    &&& after.1.to_set() == pending(after.0, frontier(before.1))
}

/// The engines agree on every generation. In a run of the delta engine that
/// starts from a board whose changes are due, the live set after `i` steps
/// is the `i`-th generation of the first live set, as the dense engine
/// computes it; every live set before it must have interior cells only.
pub proof fn lemma_engines_agree_on_a_run(run: Seq<(Set<Point>, Seq<Change>)>, i: int)
    requires
        0 <= i < run.len(),
        due(run[0].0, run[0].1),
        forall|j: int, q: Point| 0 <= j < i && #[trigger] run[j].0.contains(q) ==> interior(q),
        forall|j: int| 0 <= j < i ==> follows(#[trigger] run[j], run[j + 1]),
    ensures
        run[i].0 == generation(run[0].0, i as nat),
        due(run[i].0, run[i].1),
    decreases i,
{
    if i > 0 {
        lemma_engines_agree_on_a_run(run, i - 1);
        let before = run[i - 1];
        assert(follows(before, run[i - 1 + 1]));
        assert forall|q: Point| before.0.contains(q) implies interior(q) by {
            assert(run[i - 1].0.contains(q));
        }
        lemma_engines_agree(before.0, before.1);
        lemma_due_is_kept(before.0, before.1, run[i].1);
    }
}

/// The agreement begins at the seed. After the first step of the delta
/// engine on a seeded board the live set is the set of the seed cells, and
/// the changes are due for it, where every seed cell is interior and has
/// another seed cell next to it. (A seed cell with no neighbour is never
/// classified, since it lies outside the frontier of the seed.)
pub proof fn lemma_seed_becomes_due(cells: Seq<Coord>, after: Seq<Change>)
    requires
        forall|i: int| 0 <= i < cells.len() ==> interior(point(#[trigger] cells[i])),
        forall|i: int|
            0 <= i < cells.len() ==> live_neighbors(
                points(cells).to_set(),
                point(#[trigger] cells[i]),
            ) > 0,
        after.to_set() == pending(
            applied(Set::<Point>::empty(), births(cells)),
            frontier(births(cells)),
        ),
    ensures
        applied(Set::<Point>::empty(), births(cells)) == points(cells).to_set(),
        due(points(cells).to_set(), after),
{
    let seeded = points(cells).to_set();
    let first = births(cells);
    let empty = Set::<Point>::empty();
    assert forall|p: Point| applied(empty, first).contains(p) <==> seeded.contains(p) by {
        if applied(empty, first).contains(p) {
            let i = choose|i: int|
                0 <= i < first.len() && (#[trigger] first[i]).destiny == Destiny::Live && point(
                    first[i].coord,
                ) == p;
            assert(points(cells)[i] == p);
        }
        if seeded.contains(p) {
            let i = choose|i: int| 0 <= i < points(cells).len() && points(cells)[i] == p;
            assert(first[i].destiny == Destiny::Live && point(first[i].coord) == p);
            assert(born(first).contains(p));
        }
    }
    assert(applied(empty, first) =~= seeded);
    assert forall|q: Point| seeded.contains(q) implies interior(q) by {
        let i = choose|i: int| 0 <= i < points(cells).len() && points(cells)[i] == q;
        assert(interior(point(cells[i])));
    }
    let all = Set::<Point>::full();
    let narrow = pending(seeded, frontier(first));
    let wide = pending(seeded, all);
    assert forall|ch: Change| wide.contains(ch) implies narrow.contains(ch) by {
        let p = point(ch.coord);
        if seeded.contains(p) {
            let i = choose|i: int| 0 <= i < points(cells).len() && points(cells)[i] == p;
            assert(live_neighbors(seeded, point(cells[i])) > 0);
        }
        assert(live_neighbors(seeded, p) > 0);
        lemma_changed_is_representable(seeded, p);
        let q = choose|q: Point| seeded.contains(q) && adjacent(q, p);
        let j = choose|j: int| 0 <= j < points(cells).len() && points(cells)[j] == q;
        assert(adjacent(point(first[j].coord), p));
        assert(frontier(first).contains(p));
    }
    assert(narrow =~= wide);
}

/// The delta engine does no needless work. Every cell of the affected
/// frontier, and so every cell that a step classifies or changes, has a
/// cell named by the previous changes within one of it.
pub proof fn lemma_frontier_minimal(live: Set<Point>, changes: Seq<Change>)
    ensures
        forall|p: Point|
            frontier(changes).contains(p) ==> exists|i: int|
                0 <= i < changes.len() && within_one(point((#[trigger] changes[i]).coord), p),
        forall|ch: Change|
            pending(live, frontier(changes)).contains(ch) ==> exists|i: int|
                0 <= i < changes.len() && within_one(
                    point((#[trigger] changes[i]).coord),
                    point(ch.coord),
                ),
{
    assert forall|p: Point| frontier(changes).contains(p) implies exists|i: int|
        0 <= i < changes.len() && within_one(point((#[trigger] changes[i]).coord), p) by {
        let i = choose|i: int|
            0 <= i < changes.len() && adjacent(point((#[trigger] changes[i]).coord), p);
        assert(within_one(point(changes[i].coord), p));
    }
}

/// The empty board stays empty. Its next generation is empty, and so is
/// every later one; and a step of the delta engine on the empty board
/// without changes leaves the live set empty and asks for no change.
pub proof fn lemma_empty_stays_empty(count: nat)
    ensures
        step(Set::<Point>::empty()) == Set::<Point>::empty(),
        generation(Set::<Point>::empty(), count) == Set::<Point>::empty(),
        applied(Set::<Point>::empty(), Seq::<Change>::empty()) == Set::<Point>::empty(),
        pending(Set::<Point>::empty(), frontier(Seq::<Change>::empty())) == Set::<Change>::empty(),
    decreases count,
{
    let empty = Set::<Point>::empty();
    assert forall|p: Point| !step(empty).contains(p) by {
        lemma_live_neighbors_sum(empty, p);
    }
    assert(step(empty) =~= empty);
    if count > 0 {
        lemma_empty_stays_empty((count - 1) as nat);
    }
    assert(applied(empty, Seq::<Change>::empty()) =~= empty);
    assert(frontier(Seq::<Change>::empty()) =~= empty);
    assert(pending(empty, frontier(Seq::<Change>::empty())) =~= Set::<Change>::empty());
}

} // verus!
