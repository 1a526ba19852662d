//! The set of live cells.

use vstd::prelude::*;
use std::collections::HashSet;
use vstd::std_specs::iter::IteratorSpec;
use crate::cell::{point, points, representable, Coord, Point};
use crate::key::{key_of, lemma_key_bijection, pack, point_of, unpack};

verus! {

broadcast use vstd::std_specs::hash::group_hash_axioms;

/// A finite set of cells, unique and unordered.
#[derive(Debug, PartialEq, Eq)]
pub struct LiveSet {
    pub(crate) keys: HashSet<u128>,
}

impl View for LiveSet {
    type V = Set<Point>;

    /// The points that the set holds.
    open(crate) spec fn view(&self) -> Set<Point> {
        Set::new(|p: Point| representable(p) && self.keys@.contains(key_of(p)))
    }
}

impl Clone for LiveSet {
    /// Returns a set of the same cells.
    fn clone(&self) -> (result: LiveSet)
        ensures
            result@ == self@,
    {
        let mut keys: HashSet<u128> = HashSet::with_capacity(self.keys.len());
        let ghost listed = self.keys.iter().remaining().unref();
        let ghost mut n: int = 0;
        assert(listed.take(0).to_set() =~= Set::<u128>::empty());
        for k in it: self.keys.iter()
            invariant
                it.seq().unref() == listed,
                n == it.index(),
                0 <= n <= listed.len(),
                keys@ == listed.take(n).to_set(),
        {
            keys.insert(*k);
            proof {
                assert(*k == listed[n]);
                assert(listed.take(n + 1) =~= listed.take(n) + seq![listed[n]]);
                Seq::lemma_to_set_insert_commutes(listed.take(n), listed[n]);
                n = n + 1;
            }
        }
        assert(listed.take(n) =~= listed);
        let result = LiveSet { keys };
        assert(result@ =~= self@);
        result
    }
}

impl LiveSet {
    /// A live set is finite and holds only representable points.
    pub proof fn lemma_view(&self)
        ensures
            self@.finite(),
            self@.len() <= usize::MAX,
            forall|p: Point| self@.contains(p) ==> representable(p),
    {
        self.lemma_keys();
    }

    /// The keys held are those of the points of the view, one key for each.
    pub(crate) proof fn lemma_keys(&self)
        ensures
            self@.finite(),
            self@.len() == self.keys@.len(),
            self@.len() <= usize::MAX,
            forall|k: u128| #![trigger point_of(k)] self.keys@.contains(k) <==> self@.contains(point_of(k)),
    {
        lemma_key_bijection();
        let f = |k: u128| point_of(k);
        assert(self.keys@.map(f) =~= self@) by {
            assert forall|p: Point| self@.contains(p) implies self.keys@.map(f).contains(p) by {
                assert(self.keys@.contains(key_of(p)) && f(key_of(p)) == p);
            }
        }
        assert(vstd::relations::injective_on(f, self.keys@)) by {
            assert forall|a: u128, b: u128| #[trigger] f(a) == #[trigger] f(b) implies a == b by {
                assert(key_of(point_of(a)) == a);
                assert(key_of(point_of(b)) == b);
            }
        }
        let listed = self.keys.iter().remaining().unref();
        assert(listed.to_set() == self.keys@);
        vstd::seq_lib::seq_to_set_is_finite(listed);
        vstd::set_lib::lemma_map_size(self.keys@, self@, f);
        assert(self.keys@.len() == self.keys.len());
    }

    /// Returns the empty set.
    pub fn new() -> (result: LiveSet)
        ensures
            result@ == Set::<Point>::empty(),
    {
        let result = LiveSet { keys: HashSet::new() };
        assert(result@ =~= Set::<Point>::empty());
        result
    }

    /// Returns the empty set, with room for `capacity` cells.
    pub fn with_capacity(capacity: usize) -> (result: LiveSet)
        ensures
            result@ == Set::<Point>::empty(),
    {
        let result = LiveSet { keys: HashSet::with_capacity(capacity) };
        assert(result@ =~= Set::<Point>::empty());
        result
    }

    /// Returns the set of the cells listed, each once however often it is
    /// listed.
    pub fn from_cells(cells: &Vec<Coord>) -> (result: LiveSet)
        ensures
            result@ == points(cells@).to_set(),
    {
        let mut result = LiveSet::with_capacity(cells.len());
        let mut i: usize = 0;
        while i < cells.len()
            invariant
                i <= cells.len(),
                result@ == points(cells@).take(i as int).to_set(),
            decreases cells.len() - i,
        {
            result.insert(cells[i]);
            proof {
                let s = points(cells@);
                assert(s.take(i + 1) =~= s.take(i as int) + seq![s[i as int]]);
                Seq::lemma_to_set_insert_commutes(s.take(i as int), s[i as int]);
            }
            i = i + 1;
        }
        assert(points(cells@).take(i as int) =~= points(cells@));
        result
    }

    /// Returns the number of live cells.
    pub fn len(&self) -> (n: usize)
        ensures
            n == self@.len(),
    {
        proof {
            self.lemma_keys();
        }
        self.keys.len()
    }

    /// Returns true when no cell is live.
    pub fn is_empty(&self) -> (b: bool)
        ensures
            b == (self@ == Set::<Point>::empty()),
    {
        proof {
            self.lemma_keys();
            if self.keys@.is_empty() {
                assert(self@ =~= Set::<Point>::empty());
            } else {
                let k = choose|k: u128| self.keys@.contains(k);
                assert(self@.contains(point_of(k)));
            }
        }
        self.keys.is_empty()
    }

    /// Returns true when `coord` is live.
    pub fn contains(&self, coord: &Coord) -> (b: bool)
        ensures
            b == self@.contains(point(*coord)),
    {
        let k = pack(*coord);
        self.keys.contains(&k)
    }

    /// Makes `coord` live. Returns true when it was not live before.
    pub fn insert(&mut self, coord: Coord) -> (fresh: bool)
        ensures
            final(self)@ == old(self)@.insert(point(coord)),
            fresh == !old(self)@.contains(point(coord)),
    {
        proof {
            lemma_key_bijection();
        }
        let fresh = self.keys.insert(pack(coord));
        assert(self@ =~= old(self)@.insert(point(coord)));
        fresh
    }

    /// Makes `coord` dead. Returns true when it was live before.
    pub fn remove(&mut self, coord: &Coord) -> (was_live: bool)
        ensures
            final(self)@ == old(self)@.remove(point(*coord)),
            was_live == old(self)@.contains(point(*coord)),
    {
        proof {
            lemma_key_bijection();
        }
        let k = pack(*coord);
        let was_live = self.keys.remove(&k);
        assert(self@ =~= old(self)@.remove(point(*coord)));
        was_live
    }

    /// Returns the live cells, each once, in no particular order.
    pub fn cells(&self) -> (result: Vec<Coord>)
        ensures
            points(result@).no_duplicates(),
            points(result@).to_set() == self@,
    {
        let mut result: Vec<Coord> = Vec::with_capacity(self.keys.len());
        let ghost keys = self.keys.iter().remaining().unref();
        proof {
            lemma_key_bijection();
        }
        for k in it: self.keys.iter()
            invariant
                it.seq().unref() == keys,
                result@.len() == it.index(),
                forall|j: int| 0 <= j < it.index() ==> point(#[trigger] result@[j]) == point_of(keys[j]),
        {
            result.push(unpack(*k));
        }
        proof {
            let s = points(result@);
            assert(keys.to_set() == self.keys@);
            assert(keys.no_duplicates());
            assert forall|i: int, j: int| 0 <= i < s.len() && 0 <= j < s.len() && i != j implies s[i] != s[j] by {
                assert(key_of(point_of(keys[i])) == keys[i]);
                assert(key_of(point_of(keys[j])) == keys[j]);
            }
            assert forall|p: Point| s.to_set().contains(p) <==> self@.contains(p) by {
                if s.to_set().contains(p) {
                    let j = choose|j: int| 0 <= j < s.len() && s[j] == p;
                    assert(keys.contains(keys[j]));
                }
                if self@.contains(p) {
                    assert(keys.to_set().contains(key_of(p)));
                    let j = choose|j: int| 0 <= j < keys.len() && keys[j] == key_of(p);
                    assert(s[j] == p);
                }
            }
            assert(s.to_set() =~= self@);
        }
        result
    }
}

} // verus!
