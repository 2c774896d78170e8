//! Maps and sets keyed by the squares of the board.

use vstd::prelude::*;
use crate::space::{Square, in_bounds, sq_index};

verus! {

broadcast use vstd::array::group_array_axioms;

/// A map from the squares of the board to values
pub struct SquareMap<T> {
    inner: [Option<T>; 121],
}

impl<T: Copy> SquareMap<T> {
    /// The entry of each square, in row-major order
    pub closed spec fn entries(&self) -> Seq<Option<T>> {
        self.inner@
    }

    pub fn new() -> (r: SquareMap<T>)
        ensures
            forall|i: int| 0 <= i < 121 ==> r.entries()[i] is None,
            r.entries().len() == 121,
    {
        let inner: [Option<T>; 121] = [None; 121];
        proof {
            vstd::array::axiom_spec_array_fill_for_copy_type::<Option<T>, 121>(None);
            assert(forall|i: int| 0 <= i < 121 ==> inner@[i] is None);
        }
        SquareMap { inner }
    }

    pub fn contains_key(&self, key: &Square) -> (r: bool)
        requires
            in_bounds(*key),
        ensures
            r == self.entries()[sq_index(*key)] is Some,
            self.entries().len() == 121,
    {
        self.inner[key.y * 11 + key.x].is_some()
    }

    pub fn get(&self, key: &Square) -> (r: Option<T>)
        requires
            in_bounds(*key),
        ensures
            r == self.entries()[sq_index(*key)],
            self.entries().len() == 121,
    {
        self.inner[key.y * 11 + key.x]
    }

    pub fn insert(&mut self, key: Square, value: T)
        requires
            in_bounds(key),
        ensures
            final(self).entries() == old(self).entries().update(sq_index(key), Some(value)),
            old(self).entries().len() == 121,
            final(self).entries().len() == 121,
            final(self).entries()[sq_index(key)] == Some(value),
            forall|k: Square| in_bounds(k) && k != key ==> #[trigger] final(self).entries()[sq_index(k)] == old(self).entries()[sq_index(k)],
    {
        let ix = key.y * 11 + key.x;
        self.inner[ix] = Some(value);
    }
}

/// A set of squares of the board
pub type SquareSet = SquareMap<()>;

impl SquareMap<()> {
    pub fn contains(&self, key: &Square) -> (r: bool)
        requires
            in_bounds(*key),
        ensures
            r == self.entries()[sq_index(*key)] is Some,
    {
        self.contains_key(key)
    }

    pub fn add(&mut self, key: Square)
        requires
            in_bounds(key),
        ensures
            final(self).entries() == old(self).entries().update(sq_index(key), Some(())),
    {
        self.insert(key, ());
    }
}

} // verus!
