//! The neighbour-count accumulator of one tick.

use crate::cell_system::CellPosition;
use bevy::utils::HashMap;
use vstd::prelude::*;

verus! {

/// For each cell touched so far during a tick, the number of live cells that
/// touch it. The counts live in a hash map of `bevy::utils`, keyed by the
/// pair of a cell's coordinates. Verus does not see into the map: what it
/// holds is known by [`counts_of`] alone, and what the three methods below
/// that reach into it say of [`counts_of`] is taken from the documentation
/// of the map, not proved.
#[verifier::external_body]
pub struct NeighbourCounts {
    counts: HashMap<(isize, isize), u32>,
}

/// The keys that the accumulator's map holds, each with its value.
pub uninterp spec fn counts_of(acc: NeighbourCounts) -> Map<(isize, isize), u32>;

/// The count that is recorded for a cell: zero for a cell that has no entry.
pub open spec fn count_at(counts: Map<(isize, isize), u32>, at: (isize, isize)) -> int {
    if counts.contains_key(at) {
        counts[at] as int
    } else {
        0
    }
}

impl NeighbourCounts {
    /// Calls `HashMap::new`. Taken on trust: the new map holds no key.
    #[verifier::external_body]
    pub(crate) fn new() -> (acc: NeighbourCounts)
        ensures
            forall|at: (isize, isize)| !counts_of(acc).contains_key(at),
    {
        NeighbourCounts { counts: HashMap::new() }
    }

    /// Calls `HashMap::get`. Taken on trust: it hands out the value stored
    /// under the key, and nothing where the map does not hold the key.
    #[verifier::external_body]
    pub(crate) fn get(&self, at: (isize, isize)) -> (found: Option<u32>)
        ensures
            found == if counts_of(*self).contains_key(at) {
                Some(counts_of(*self)[at])
            } else {
                None
            },
    {
        self.counts.get(&at).copied()
    }

    /// Calls `HashMap::insert`. Taken on trust: afterwards the key holds the
    /// value, whether or not it held one before, and every other key is as
    /// it was.
    #[verifier::external_body]
    pub(crate) fn insert(&mut self, at: (isize, isize), count: u32)
        ensures
            counts_of(*final(self)) == counts_of(*old(self)).insert(at, count),
    {
        self.counts.insert(at, count);
    }

    /// The count recorded for the cell, zero where nothing is recorded.
    pub fn count(&self, cell: &CellPosition) -> (n: u32)
        ensures
            n == count_at(counts_of(*self), (cell.x, cell.y)),
    {
        match self.get((cell.x, cell.y)) {
            Some(n) => n,
            None => 0,
        }
    }

    /// Whether anything is recorded for the cell.
    pub fn is_recorded(&self, cell: &CellPosition) -> (known: bool)
        ensures
            known == counts_of(*self).contains_key((cell.x, cell.y)),
    {
        self.get((cell.x, cell.y)).is_some()
    }
}

} // verus!
