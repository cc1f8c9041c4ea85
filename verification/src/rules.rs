//! The rules of the game, stated over sets of points of the integer plane.
//!
//! Everything here is ghost code: the executable step is proved against
//! [`next_generation`].

use vstd::prelude::*;

verus! {

/// Two distinct points touch when they differ by at most one on each axis.
pub open spec fn adjacent(a: (int, int), b: (int, int)) -> bool {
    &&& a != b
    &&& -1 <= a.0 - b.0 <= 1
    &&& -1 <= a.1 - b.1 <= 1
}

/// One when the point `(x, y)` is alive, zero otherwise.
pub open spec fn occupied(live: Set<(int, int)>, x: int, y: int) -> int {
    if live.contains((x, y)) {
        1
    } else {
        0
    }
}

/// The number of live cells among the eight points that touch `c`.
pub open spec fn live_neighbours(live: Set<(int, int)>, c: (int, int)) -> int {
    occupied(live, c.0 - 1, c.1 - 1) + occupied(live, c.0, c.1 - 1) + occupied(
        live,
        c.0 + 1,
        c.1 - 1,
    ) + occupied(live, c.0 - 1, c.1) + occupied(live, c.0 + 1, c.1) + occupied(
        live,
        c.0 - 1,
        c.1 + 1,
    ) + occupied(live, c.0, c.1 + 1) + occupied(live, c.0 + 1, c.1 + 1)
}

/// Whether `c` is alive in the generation that follows `live`: a live cell
/// stays with two or three live neighbours, a dead one is born with exactly
/// three.
pub open spec fn lives_on(live: Set<(int, int)>, c: (int, int)) -> bool {
    let n = live_neighbours(live, c);
    n == 3 || (n == 2 && live.contains(c))
}

/// The generation that follows `live`.
pub open spec fn next_generation(live: Set<(int, int)>) -> Set<(int, int)> {
    Set::new(|c: (int, int)| lives_on(live, c))
}

/// A cell outside the neighbourhood of every live cell has no live neighbour
/// and is dead in the next generation.
pub proof fn lemma_far_cells_stay_dead(live: Set<(int, int)>, c: (int, int))
    requires
        forall|p: (int, int)| live.contains(p) ==> !adjacent(p, c),
    ensures
        live_neighbours(live, c) == 0,
        !next_generation(live).contains(c),
{
    assert(adjacent((c.0 - 1, c.1 - 1), c));
    assert(adjacent((c.0, c.1 - 1), c));
    assert(adjacent((c.0 + 1, c.1 - 1), c));
    assert(adjacent((c.0 - 1, c.1), c));
    assert(adjacent((c.0 + 1, c.1), c));
    assert(adjacent((c.0 - 1, c.1 + 1), c));
    assert(adjacent((c.0, c.1 + 1), c));
    assert(adjacent((c.0 + 1, c.1 + 1), c));
}

/// A cell with a live neighbour touches a live cell.
pub proof fn lemma_neighbour_exists(live: Set<(int, int)>, c: (int, int)) -> (p: (int, int))
    requires
        live_neighbours(live, c) > 0,
    ensures
        live.contains(p),
        adjacent(p, c),
{
    if live.contains((c.0 - 1, c.1 - 1)) {
        (c.0 - 1, c.1 - 1)
    } else if live.contains((c.0, c.1 - 1)) {
        (c.0, c.1 - 1)
    } else if live.contains((c.0 + 1, c.1 - 1)) {
        (c.0 + 1, c.1 - 1)
    } else if live.contains((c.0 - 1, c.1)) {
        (c.0 - 1, c.1)
    } else if live.contains((c.0 + 1, c.1)) {
        (c.0 + 1, c.1)
    } else if live.contains((c.0 - 1, c.1 + 1)) {
        (c.0 - 1, c.1 + 1)
    } else if live.contains((c.0, c.1 + 1)) {
        (c.0, c.1 + 1)
    } else {
        (c.0 + 1, c.1 + 1)
    }
}

/// A cell that was not alive adds one to the count of each point it touches
/// and to no other.
pub proof fn lemma_count_after_insert(live: Set<(int, int)>, c: (int, int), p: (int, int))
    requires
        !live.contains(c),
    ensures
        live_neighbours(live.insert(c), p) == live_neighbours(live, p) + if adjacent(c, p) {
            1int
        } else {
            0int
        },
{
}

} // verus!
