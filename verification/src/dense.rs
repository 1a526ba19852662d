//! The dense recount engine: every generation, count for each cell next to a
//! live cell how many live neighbours it has, and keep the cells that the
//! rule of Life makes live.

use vstd::prelude::*;
use std::collections::HashMap;
use vstd::std_specs::iter::IteratorSpec;
use crate::cell::{
    adjacent, arrived, eight, interior, is_inset, lemma_neighbor_index, neighborhood, point, points,
    representable, Point,
};
use crate::key::{key_of, lemma_key_bijection, pack, point_of, unpack};
use crate::live_set::LiveSet;
use crate::rule::{
    alive_next, lemma_live_neighbors_insert, lemma_live_neighbors_sum, lemma_live_neighbors_zero,
    live_neighbors, step,
};

verus! {

broadcast use vstd::std_specs::hash::group_hash_axioms;

/// The count recorded under the key `k`: zero where none is recorded.
spec fn tally(counts: Map<u128, usize>, k: u128) -> nat {
    if counts.contains_key(k) {
        counts[k] as nat
    } else {
        0
    }
}

/// The points that the first `n` keys of `keys` stand for.
spec fn seen(keys: Seq<u128>, n: int) -> Set<Point> {
    Set::new(|p: Point| exists|j: int| 0 <= j < n && point_of(#[trigger] keys[j]) == p)
}

/// Whether a cell with `count` live neighbours is live in the next
/// generation.
spec fn chosen(count: usize, is_live: bool) -> bool {
    count == 3 || (count == 2 && is_live)
}

proof fn lemma_seen_next(keys: Seq<u128>, n: int)
    requires
        0 <= n < keys.len(),
        keys.no_duplicates(),
    ensures
        seen(keys, n + 1) == seen(keys, n).insert(point_of(keys[n])),
        !seen(keys, n).contains(point_of(keys[n])),
{
    lemma_key_bijection();
    let c = point_of(keys[n]);
    if seen(keys, n).contains(c) {
        let j = choose|j: int| 0 <= j < n && point_of(#[trigger] keys[j]) == c;
        assert(key_of(point_of(keys[j])) == keys[j]);
        assert(key_of(point_of(keys[n])) == keys[n]);
    }
    assert forall|p: Point| seen(keys, n + 1).contains(p) <==> seen(keys, n).insert(c).contains(p) by {
        if seen(keys, n + 1).contains(p) {
            let j = choose|j: int| 0 <= j < n + 1 && point_of(#[trigger] keys[j]) == p;
            if j < n {
                assert(seen(keys, n).contains(p));
            }
        }
        if seen(keys, n).contains(p) {
            let j = choose|j: int| 0 <= j < n && point_of(#[trigger] keys[j]) == p;
            assert(0 <= j < n + 1 && point_of(keys[j]) == p);
        }
        if p == c {
            assert(0 <= n < n + 1 && point_of(keys[n]) == p);
        }
    }
    assert(seen(keys, n + 1) =~= seen(keys, n).insert(c));
}

/// Adds one to the count recorded under `k`.
fn bump(counts: &mut HashMap<u128, usize>, k: u128)
    requires
        tally(old(counts)@, k) < usize::MAX,
    ensures
        final(counts)@ == old(counts)@.insert(k, (tally(old(counts)@, k) + 1) as usize),
{
    let slot = counts.entry(k).or_insert(0);
    *slot = *slot + 1;
}

/// Returns true when every live cell is interior: the live sets that `tick`
/// accepts.
pub fn can_tick(state: &LiveSet) -> (b: bool)
    ensures
        b == (forall|p: Point| state@.contains(p) ==> interior(p)),
{
    let ghost keys = state.keys.iter().remaining().unref();
    let ghost mut n: int = 0;
    for k in it: state.keys.iter()
        invariant
            it.seq().unref() == keys,
            n == it.index(),
            0 <= n <= keys.len(),
            keys.to_set() == state.keys@,
            forall|j: int| 0 <= j < n ==> interior(point_of(#[trigger] keys[j])),
    {
        let coord = unpack(*k);
        proof {
            lemma_key_bijection();
            state.lemma_keys();
            assert(*k == keys[n]);
            assert(keys.to_set().contains(keys[n]));
        }
        if !is_inset(&coord, 1) {
            assert(state@.contains(point(coord)) && !interior(point(coord)));
            return false;
        }
        proof {
            n = n + 1;
        }
    }
    proof {
        lemma_key_bijection();
        state.lemma_keys();
        assert forall|p: Point| state@.contains(p) implies interior(p) by {
            assert(keys.to_set().contains(key_of(p)));
            let j = choose|j: int| 0 <= j < keys.len() && keys[j] == key_of(p);
            assert(point_of(keys[j]) == p);
        }
    }
    true
}

/// Advances a live set by one generation.
///
/// Every live cell must be interior, so that each of its neighbours has a
/// coordinate.
pub fn tick(state: LiveSet) -> (result: LiveSet)
    requires
        forall|p: Point| state@.contains(p) ==> interior(p),
    ensures
        result@ == step(state@),
{
    let hint: usize = match state.len().checked_mul(8) {
        Some(n) => n,
        None => state.len(),
    };
    let mut counts: HashMap<u128, usize> = HashMap::with_capacity(hint);
    let ghost keys = state.keys.iter().remaining().unref();
    let ghost mut n: int = 0;
    proof {
        lemma_key_bijection();
        state.lemma_keys();
        assert(seen(keys, 0) =~= Set::<Point>::empty());
        assert forall|q: u128| #[trigger] tally(counts@, q) == live_neighbors(seen(keys, 0), point_of(q)) by {
            lemma_live_neighbors_sum(seen(keys, 0), point_of(q));
        }
    }
    for k in it: state.keys.iter()
        invariant
            it.seq().unref() == keys,
            n == it.index(),
            0 <= n <= keys.len(),
            keys.no_duplicates(),
            keys.to_set() == state.keys@,
            forall|p: Point| state@.contains(p) ==> interior(p),
            forall|q: u128| #[trigger] tally(counts@, q) == live_neighbors(seen(keys, n), point_of(q)),
    {
        let coord = unpack(*k);
        let ghost c = point(coord);
        let ghost before = seen(keys, n);
        proof {
            lemma_key_bijection();
            state.lemma_keys();
            assert(*k == keys[n]);
            assert(keys.to_set().contains(keys[n]));
            assert(state@.contains(c));
        }
        let around = eight(&coord);
        assert(around@.len() == 8) by {
            assert(points(around@).len() == 8);
        }
        let mut m: usize = 0;
        while m < 8
            invariant
                m <= 8,
                around@.len() == 8,
                points(around@) == neighborhood(c),
                interior(c),
                forall|q: u128| #[trigger] tally(counts@, q) == live_neighbors(before, point_of(q)) + arrived(c, point_of(q), m as int),
            decreases 8 - m,
        {
            let nk = pack(around[m]);
            let ghost earlier = counts@;
            proof {
                lemma_key_bijection();
                assert(point(around@[m as int]) == neighborhood(c)[m as int]) by {
                    assert(points(around@)[m as int] == neighborhood(c)[m as int]);
                }
                lemma_live_neighbors_sum(before, point_of(nk));
                assert(tally(counts@, nk) <= 9);
            }
            bump(&mut counts, nk);
            proof {
                assert forall|q: u128| #[trigger] tally(counts@, q) == live_neighbors(before, point_of(q)) + arrived(c, point_of(q), m + 1) by {
                    lemma_neighbor_index(c, point_of(q));
                    assert(tally(earlier, q) == live_neighbors(before, point_of(q)) + arrived(c, point_of(q), m as int));
                    assert(key_of(point_of(q)) == q);
                }
            }
            m = m + 1;
        }
        proof {
            lemma_seen_next(keys, n);
            assert forall|q: u128| #[trigger] tally(counts@, q) == live_neighbors(seen(keys, n + 1), point_of(q)) by {
                lemma_live_neighbors_insert(before, c, point_of(q));
                lemma_neighbor_index(c, point_of(q));
            }
            n = n + 1;
        }
    }
    proof {
        assert(seen(keys, n) =~= state@) by {
            lemma_key_bijection();
            state.lemma_keys();
            assert forall|p: Point| state@.contains(p) implies seen(keys, n).contains(p) by {
                assert(keys.to_set().contains(key_of(p)));
                let j = choose|j: int| 0 <= j < keys.len() && keys[j] == key_of(p);
                assert(point_of(keys[j]) == p);
            }
            assert forall|p: Point| seen(keys, n).contains(p) implies state@.contains(p) by {
                let j = choose|j: int| 0 <= j < n && point_of(#[trigger] keys[j]) == p;
                assert(keys.to_set().contains(keys[j]));
            }
        }
    }
    let mut result = LiveSet::with_capacity(counts.len());
    let ghost entries = counts.iter().remaining().unref();
    let ghost mut done: int = 0;
    for entry in it: counts.iter()
        invariant
            it.seq().unref() == entries,
            done == it.index(),
            0 <= done <= entries.len(),
            forall|p: Point|
                result@.contains(p) <==> exists|j: int|
                    0 <= j < done && point_of((#[trigger] entries[j]).0) == p && chosen(entries[j].1, state@.contains(p)),
    {
        let (k, count) = entry;
        let ghost earlier = result@;
        proof {
            lemma_key_bijection();
            assert((*k, *count) == entries[done]);
        }
        if *count == 3 || (*count == 2 && state.keys.contains(k)) {
            result.keys.insert(*k);
        }
        proof {
            let here = point_of(*k);
            assert(result@ =~= if chosen(*count, state@.contains(here)) {
                earlier.insert(here)
            } else {
                earlier
            });
            assert forall|p: Point|
                result@.contains(p) <==> exists|j: int|
                    0 <= j < done + 1 && point_of((#[trigger] entries[j]).0) == p && chosen(entries[j].1, state@.contains(p)) by {
                if result@.contains(p) {
                    if earlier.contains(p) {
                        let j = choose|j: int|
                            0 <= j < done && point_of((#[trigger] entries[j]).0) == p && chosen(entries[j].1, state@.contains(p));
                        assert(0 <= j < done + 1);
                    } else {
                        assert(point_of(entries[done].0) == p);
                    }
                }
                if exists|j: int|
                    0 <= j < done + 1 && point_of((#[trigger] entries[j]).0) == p && chosen(entries[j].1, state@.contains(p)) {
                    let j = choose|j: int|
                        0 <= j < done + 1 && point_of((#[trigger] entries[j]).0) == p && chosen(entries[j].1, state@.contains(p));
                    if j < done {
                        assert(earlier.contains(p));
                    }
                }
            }
            done = done + 1;
        }
    }
    proof {
        lemma_key_bijection();
        let listed = counts.iter().remaining();
        assert forall|p: Point| result@.contains(p) <==> alive_next(state@, p) by {
            if result@.contains(p) {
                let j = choose|j: int|
                    0 <= j < done && point_of((#[trigger] entries[j]).0) == p && chosen(entries[j].1, state@.contains(p));
                assert(counts@.contains_key(*listed[j].0) && counts@[*listed[j].0] == *listed[j].1);
                assert(tally(counts@, entries[j].0) == live_neighbors(state@, p));
            }
            if alive_next(state@, p) {
                lemma_live_neighbors_zero(state@, p);
                let q = choose|q: Point| state@.contains(q) && adjacent(q, p);
                assert(interior(q));
                assert(representable(p));
                let key = key_of(p);
                assert(tally(counts@, key) == live_neighbors(state@, point_of(key)));
                assert(counts@.contains_key(key));
                assert(listed.contains((&key, &counts@[key])));
                let j = choose|j: int| 0 <= j < listed.len() && listed[j] == (&key, &counts@[key]);
                assert(entries[j] == (key, counts@[key]));
                assert(0 <= j < done && point_of(entries[j].0) == p && chosen(entries[j].1, state@.contains(p)));
            }
        }
        assert(result@ =~= step(state@));
    }
    result
}

} // verus!
