//! The step from one generation to the next.

use crate::cell_system::{ascending, before, CellEvent, CellPosition};
use crate::live_set::{
    all_inside, inside, lemma_points_add, lemma_points_contains, lemma_points_push,
    lemma_points_remove, points, LiveSet,
};
use crate::neighbours::{count_at, counts_of, NeighbourCounts};
use crate::rules::{
    adjacent, lemma_count_after_insert, lemma_far_cells_stay_dead, lemma_neighbour_exists,
    live_neighbours, lives_on, next_generation,
};
use std::collections::BTreeSet;
use vstd::prelude::*;
use vstd::std_specs::btree::increasing_seq;
use vstd::std_specs::cmp::OrdSpec;
use vstd::std_specs::iter::IteratorSpec;

verus! {

/// The point of the plane that a pair of coordinates names.
pub open spec fn point_of(at: (isize, isize)) -> (int, int) {
    (at.0 as int, at.1 as int)
}

/// The steps to the eight cells around a cell, row by row.
pub open spec fn offset(k: int) -> (int, int) {
    if k == 0 {
        (-1, -1)
    } else if k == 1 {
        (0, -1)
    } else if k == 2 {
        (1, -1)
    } else if k == 3 {
        (-1, 0)
    } else if k == 4 {
        (1, 0)
    } else if k == 5 {
        (-1, 1)
    } else if k == 6 {
        (0, 1)
    } else {
        (1, 1)
    }
}

/// The number of the step that leads from one point to another, and 8 where
/// no single step does.
pub open spec fn direction(from: (int, int), to: (int, int)) -> int {
    let dx = to.0 - from.0;
    let dy = to.1 - from.1;
    if dy == -1 && dx == -1 {
        0
    } else if dy == -1 && dx == 0 {
        1
    } else if dy == -1 && dx == 1 {
        2
    } else if dy == 0 && dx == -1 {
        3
    } else if dy == 0 && dx == 1 {
        4
    } else if dy == 1 && dx == -1 {
        5
    } else if dy == 1 && dx == 0 {
        6
    } else if dy == 1 && dx == 1 {
        7
    } else {
        8
    }
}

/// The `k`-th step to a neighbour.
fn neighbor_delta(k: usize) -> (d: (isize, isize))
    requires
        k < 8,
    ensures
        point_of(d) == offset(k as int),
{
    if k == 0 {
        (-1, -1)
    } else if k == 1 {
        (0, -1)
    } else if k == 2 {
        (1, -1)
    } else if k == 3 {
        (-1, 0)
    } else if k == 4 {
        (1, 0)
    } else if k == 5 {
        (-1, 1)
    } else if k == 6 {
        (0, 1)
    } else {
        (1, 1)
    }
}

/// Whether the counts are those of the live set: each cell's count is the
/// number of its live neighbours, and the cells without any are not recorded.
pub open spec fn counts_match(counts: Map<(isize, isize), u32>, live: Set<(int, int)>) -> bool {
    &&& forall|at: (isize, isize)| #[trigger]
        count_at(counts, at) == live_neighbours(live, point_of(at))
    &&& forall|at: (isize, isize)| #[trigger]
        counts.contains_key(at) <==> live_neighbours(live, point_of(at)) > 0
}

/// Whether the candidates are the cells with exactly three live neighbours.
pub open spec fn threes_of(candidates: Set<(isize, isize)>, live: Set<(int, int)>) -> bool {
    forall|at: (isize, isize)| #[trigger]
        candidates.contains(at) <==> live_neighbours(live, point_of(at)) == 3
}

/// Counts, for every cell that touches a live cell, how many live cells
/// touch it, and gathers the cells whose count is exactly three. A cell
/// joins the candidates when its running count reaches three and leaves them
/// when it reaches four.
pub fn count_neighbours(live: &LiveSet) -> (out: (NeighbourCounts, BTreeSet<(isize, isize)>))
    requires
        all_inside(live.order()),
    ensures
        counts_match(counts_of(out.0), live@),
        threes_of(out.1@, live@),
{
    let cells = live.cells();
    let mut neighbours = NeighbourCounts::new();
    let mut spawn_candidates: BTreeSet<(isize, isize)> = BTreeSet::new();
    let mut i: usize = 0;
    while i < cells.len()
        invariant
            i <= cells.len(),
            cells@.no_duplicates(),
            all_inside(cells@),
            forall|at: (isize, isize)| #[trigger]
                count_at(counts_of(neighbours), at) == live_neighbours(
                    points(cells@.take(i as int)),
                    point_of(at),
                ),
            forall|at: (isize, isize)| #[trigger]
                counts_of(neighbours).contains_key(at) ==> counts_of(neighbours)[at] >= 1,
            forall|at: (isize, isize)| #[trigger]
                spawn_candidates@.contains(at) <==> count_at(counts_of(neighbours), at) == 3,
        decreases cells.len() - i,
    {
        let cell = cells[i];
        let ghost seen = points(cells@.take(i as int));
        let ghost before = counts_of(neighbours);
        assert(inside(cell));
        let mut k: usize = 0;
        while k < 8
            invariant
                k <= 8,
                inside(cell),
                forall|at: (isize, isize)| #[trigger]
                    count_at(before, at) == live_neighbours(seen, point_of(at)),
                forall|at: (isize, isize)| #[trigger]
                    count_at(counts_of(neighbours), at) == count_at(before, at) + if direction(
                        cell@,
                        point_of(at),
                    ) < k {
                        1int
                    } else {
                        0int
                    },
                forall|at: (isize, isize)| #[trigger]
                    counts_of(neighbours).contains_key(at) ==> counts_of(neighbours)[at] >= 1,
                forall|at: (isize, isize)| #[trigger]
                    spawn_candidates@.contains(at) <==> count_at(counts_of(neighbours), at) == 3,
            decreases 8 - k,
        {
            let delta = neighbor_delta(k);
            let scan_pos = (cell.x + delta.0, cell.y + delta.1);
            let ghost earlier = counts_of(neighbours);
            let ghost chosen = spawn_candidates@;
            assert(direction(cell@, point_of(scan_pos)) == k);
            assert(count_at(earlier, scan_pos) == count_at(before, scan_pos));
            let neighbours_count: u32 = match neighbours.get(scan_pos) {
                Some(previous_value) => previous_value + 1,
                None => 1,
            };
            neighbours.insert(scan_pos, neighbours_count);
            if neighbours_count == 3 {
                spawn_candidates.insert(scan_pos);
            } else if neighbours_count == 4 {
                spawn_candidates.remove(&scan_pos);
            }
            proof {
                let now = counts_of(neighbours);
                assert(now == earlier.insert(scan_pos, neighbours_count));
                assert forall|at: (isize, isize)| #[trigger]
                    count_at(now, at) == count_at(before, at) + if direction(
                        cell@,
                        point_of(at),
                    ) < k + 1 {
                        1int
                    } else {
                        0int
                    } by {
                    if at == scan_pos {
                    } else {
                        assert(point_of(at) != point_of(scan_pos));
                        assert(direction(cell@, point_of(at)) != k);
                        assert(count_at(now, at) == count_at(earlier, at));
                    }
                }
                assert forall|at: (isize, isize)| #[trigger]
                    spawn_candidates@.contains(at) <==> count_at(now, at) == 3 by {
                    if at == scan_pos {
                    } else {
                        assert(count_at(now, at) == count_at(earlier, at));
                        assert(spawn_candidates@.contains(at) == chosen.contains(at));
                    }
                }
            }
            k += 1;
        }
        proof {
            let grown = points(cells@.take(i as int + 1));
            assert(cells@.take(i as int + 1) =~= cells@.take(i as int).push(cell));
            lemma_points_push(cells@.take(i as int), cell);
            lemma_points_contains(cells@.take(i as int), cell);
            assert(!seen.contains(cell@));
            assert forall|at: (isize, isize)| #[trigger]
                count_at(counts_of(neighbours), at) == live_neighbours(grown, point_of(at)) by {
                lemma_count_after_insert(seen, cell@, point_of(at));
                assert(adjacent(cell@, point_of(at)) <==> direction(cell@, point_of(at)) < 8);
                assert(count_at(before, at) == live_neighbours(seen, point_of(at)));
            }
        }
        i += 1;
    }
    proof {
        assert(cells@.take(i as int) =~= cells@);
        assert forall|at: (isize, isize)| #[trigger]
            counts_of(neighbours).contains_key(at) <==> live_neighbours(live@, point_of(at))
                > 0 by {
            assert(count_at(counts_of(neighbours), at) == live_neighbours(live@, point_of(at)));
        }
    }
    (neighbours, spawn_candidates)
}

/// The test that the survivors of a generation pass.
pub open spec fn stays(live: Set<(int, int)>) -> spec_fn(CellPosition) -> bool {
    |c: CellPosition| lives_on(live, c@)
}

/// The test that the casualties of a generation pass.
pub open spec fn goes(live: Set<(int, int)>) -> spec_fn(CellPosition) -> bool {
    |c: CellPosition| !lives_on(live, c@)
}

/// Those of the cells that are alive in the generation after `live`, in
/// their order.
pub open spec fn survivors(live: Set<(int, int)>, cells: Seq<CellPosition>) -> Seq<CellPosition> {
    cells.filter(stays(live))
}

/// Those of the cells that are dead in the generation after `live`, in their
/// order.
pub open spec fn casualties(live: Set<(int, int)>, cells: Seq<CellPosition>) -> Seq<
    CellPosition,
> {
    cells.filter(goes(live))
}

/// What a filter keeps of a sequence: the members that pass, and no repeats
/// where there were none.
proof fn lemma_filter_members(cells: Seq<CellPosition>, pass: spec_fn(CellPosition) -> bool)
    ensures
        forall|c: CellPosition|
            cells.filter(pass).contains(c) <==> cells.contains(c) && pass(c),
        cells.no_duplicates() ==> cells.filter(pass).no_duplicates(),
    decreases cells.len(),
{
    if cells.len() == 0 {
        assert(cells.filter(pass) =~= cells);
    } else {
        let front = cells.drop_last();
        let last = cells.last();
        assert(cells =~= front.push(last));
        lemma_filter_members(front, pass);
        front.lemma_filter_push(last, pass);
        assert forall|c: CellPosition|
            cells.filter(pass).contains(c) <==> cells.contains(c) && pass(c) by {
            if cells.contains(c) {
                let i = choose|i: int| 0 <= i < cells.len() && cells[i] == c;
                if i < front.len() {
                    assert(front[i] == c);
                }
            }
            if front.contains(c) {
                let i = choose|i: int| 0 <= i < front.len() && front[i] == c;
                assert(cells[i] == c);
            }
            assert(cells[cells.len() - 1] == last);
        }
        if cells.no_duplicates() {
            assert(front.no_duplicates());
            if front.contains(last) {
                let i = choose|i: int| 0 <= i < front.len() && front[i] == last;
                assert(cells[i] == cells[cells.len() - 1]);
            }
        }
    }
}

/// The order that a tuple has by `Ord`.
spec fn ordered<K: Ord>(a: K, b: K) -> bool {
    a.cmp_spec(&b) is Less
}

/// Keys that a `BTreeSet` hands out in increasing order rise by the first
/// coordinate, then by the second.
proof fn lemma_keys_rise(keys: Seq<&(isize, isize)>)
    requires
        increasing_seq(keys),
    ensures
        forall|i: int, j: int|
            0 <= i < j < keys.len() ==> keys[i].0 < keys[j].0 || (keys[i].0 == keys[j].0
                && keys[i].1 < keys[j].1),
{
    assert(vstd::laws_cmp::obeys_cmp::<isize>());
    assert(vstd::laws_cmp::obeys_cmp::<(isize, isize)>());
    assert(vstd::laws_cmp::obeys_cmp::<&(isize, isize)>());
    assert forall|i: int, j: int| 0 <= i < j < keys.len() implies keys[i].0 < keys[j].0 || (
    keys[i].0 == keys[j].0 && keys[i].1 < keys[j].1) by {
        assert(ordered::<&(isize, isize)>(keys[i], keys[j]));
    }
}

/// The cells made of the candidates that are left, in the order in which
/// the set hands them out, are the dead cells with three live neighbours,
/// in ascending order.
proof fn lemma_newborn(
    live: Set<(int, int)>,
    cells: Seq<CellPosition>,
    candidates: Set<(isize, isize)>,
    keys: Seq<&(isize, isize)>,
    born: Seq<CellPosition>,
)
    requires
        live == points(cells),
        all_inside(cells),
        forall|at: (isize, isize)| #[trigger]
            candidates.contains(at) <==> live_neighbours(live, point_of(at)) == 3
                && !live.contains(point_of(at)),
        keys.unref().to_set() == candidates,
        keys.no_duplicates(),
        increasing_seq(keys),
        born.len() == keys.len(),
        forall|k: int|
            0 <= k < born.len() ==> (#[trigger] born[k]).x == keys[k].0 && born[k].y == keys[k].1,
    ensures
        points(born) == next_generation(live).difference(live),
        ascending(born),
        born.no_duplicates(),
{
    lemma_keys_rise(keys);
    assert forall|p: (int, int)|
        points(born).contains(p) <==> next_generation(live).difference(live).contains(p) by {
        if points(born).contains(p) {
            let k = choose|k: int| 0 <= k < born.len() && (#[trigger] born[k])@ == p;
            assert(keys.unref()[k] == *keys[k]);
            assert(candidates.contains(*keys[k]));
            assert(point_of(*keys[k]) == p);
        }
        if next_generation(live).difference(live).contains(p) {
            // A cell that is born touches a live cell, so it has coordinates.
            let q = lemma_neighbour_exists(live, p);
            let m = choose|m: int| 0 <= m < cells.len() && (#[trigger] cells[m])@ == q;
            assert(inside(cells[m]));
            let at = (p.0 as isize, p.1 as isize);
            assert(point_of(at) == p);
            assert(candidates.contains(at));
            assert(keys.unref().contains(at));
            let k = choose|k: int| 0 <= k < keys.unref().len() && keys.unref()[k] == at;
            assert(born[k]@ == p);
        }
    }
    assert(points(born) =~= next_generation(live).difference(live));
    assert forall|a: int, b: int| 0 <= a < b < born.len() implies before(born[a], born[b]) by {
        assert(keys[a].0 < keys[b].0 || (keys[a].0 == keys[b].0 && keys[a].1 < keys[b].1));
    }
    assert forall|a: int, b: int|
        0 <= a < born.len() && 0 <= b < born.len() && a != b implies born[a] != born[b] by {
        assert(keys[a] != keys[b]);
    }
}

/// The survivors followed by the newborn are the next generation, each cell
/// once.
proof fn lemma_new_set(live: Set<(int, int)>, cells: Seq<CellPosition>, born: Seq<CellPosition>)
    requires
        live == points(cells),
        cells.no_duplicates(),
        born.no_duplicates(),
        points(born) == next_generation(live).difference(live),
    ensures
        points(survivors(live, cells) + born) == next_generation(live),
        (survivors(live, cells) + born).no_duplicates(),
{
    let kept = survivors(live, cells);
    lemma_filter_members(cells, stays(live));
    assert forall|a: int, b: int| 0 <= a < kept.len() && 0 <= b < born.len() implies kept[a]
        != born[b] by {
        assert(kept.contains(kept[a]));
        lemma_points_contains(cells, kept[a]);
        assert(points(born).contains(born[b]@));
    }
    vstd::seq_lib::lemma_no_dup_in_concat(kept, born);
    lemma_points_add(kept, born);
    assert forall|p: (int, int)|
        points(kept).union(points(born)).contains(p) <==> next_generation(live).contains(p) by {
        if points(kept).contains(p) {
            let a = choose|a: int| 0 <= a < kept.len() && (#[trigger] kept[a])@ == p;
            assert(kept.contains(kept[a]));
        }
        if next_generation(live).contains(p) && live.contains(p) {
            let m = choose|m: int| 0 <= m < cells.len() && (#[trigger] cells[m])@ == p;
            assert(cells.contains(cells[m]));
            assert(kept.contains(cells[m]));
            lemma_points_contains(kept, cells[m]);
        }
    }
    assert(points(kept + born) =~= next_generation(live));
}

/// One tick: the generation that follows, and what became of which cell.
#[derive(Debug)]
pub struct Generation {
    /// The live cells of the new generation: the survivors in their old
    /// order, then the newborn.
    pub live: LiveSet,
    /// The cells that died, in the order that they had in the old set.
    pub died: Vec<CellPosition>,
    /// The cells that were born, in ascending order.
    pub born: Vec<CellPosition>,
}

impl Generation {
    /// Whether this is the tick that leads on from `live`.
    pub open spec fn follows(&self, live: &LiveSet) -> bool {
        &&& self.live@ == next_generation(live@)
        &&& self.live.order() == survivors(live@, live.order()) + self.born@
        &&& self.live.order().no_duplicates()
        &&& self.died@ == casualties(live@, live.order())
        &&& points(self.born@) == next_generation(live@).difference(live@)
        &&& ascending(self.born@)
    }
}

/// Computes the generation that follows `live`. Only the live cells and the
/// cells around them are visited. Every live cell has to be [`inside`], so
/// that each cell around it has coordinates.
pub fn advance(live: &LiveSet) -> (out: Generation)
    requires
        all_inside(live.order()),
    ensures
        out.follows(live),
{
    let (neighbours, mut spawn_candidates) = count_neighbours(live);
    let cells = live.cells();
    let mut next: Vec<CellPosition> = Vec::new();
    let mut died: Vec<CellPosition> = Vec::new();
    let mut i: usize = 0;
    while i < cells.len()
        invariant
            i <= cells.len(),
            cells@ == live.order(),
            counts_match(counts_of(neighbours), live@),
            next@ == survivors(live@, cells@.take(i as int)),
            died@ == casualties(live@, cells@.take(i as int)),
            forall|at: (isize, isize)| #[trigger]
                spawn_candidates@.contains(at) <==> live_neighbours(live@, point_of(at)) == 3
                    && !points(cells@.take(i as int)).contains(point_of(at)),
        decreases cells.len() - i,
    {
        let cell = cells[i];
        let ghost chosen = spawn_candidates@;
        let neighbours_count = neighbours.count(&cell);
        proof {
            let seen = cells@.take(i as int);
            assert(cells@.take(i as int + 1) =~= seen.push(cell));
            seen.lemma_filter_push(cell, stays(live@));
            seen.lemma_filter_push(cell, goes(live@));
            lemma_points_push(seen, cell);
            assert(point_of((cell.x, cell.y)) == cell@);
            assert(live@.contains(cell@));
        }
        if neighbours_count == 2 {
            next.push(cell);
        } else if neighbours_count == 3 {
            spawn_candidates.remove(&(cell.x, cell.y));
            next.push(cell);
        } else {
            died.push(cell);
        }
        proof {
            assert forall|at: (isize, isize)| #[trigger]
                spawn_candidates@.contains(at) <==> live_neighbours(live@, point_of(at)) == 3
                    && !points(cells@.take(i as int + 1)).contains(point_of(at)) by {
                if at == (cell.x, cell.y) {
                } else {
                    assert(point_of(at) != cell@);
                    assert(spawn_candidates@.contains(at) == chosen.contains(at));
                }
            }
        }
        i += 1;
    }
    let ghost kept = next@;
    let ghost keys = spawn_candidates.iter().remaining();
    let mut born: Vec<CellPosition> = Vec::new();
    for key in it: spawn_candidates.iter()
        invariant
            it.seq() == keys,
            born.len() == it.index(),
            forall|k: int|
                0 <= k < born.len() ==> (#[trigger] born[k]).x == keys[k].0 && born[k].y
                    == keys[k].1,
            next@ == kept + born@,
    {
        let cell = CellPosition { x: key.0, y: key.1 };
        proof {
            assert((kept + born@).push(cell) =~= kept + born@.push(cell));
        }
        next.push(cell);
        born.push(cell);
    }
    proof {
        assert(cells@.take(i as int) =~= cells@);
        lemma_newborn(live@, cells@, spawn_candidates@, keys, born@);
        lemma_new_set(live@, cells@, born@);
    }
    Generation { live: LiveSet::from_distinct(next), died, born }
}

/// Computes the generation that follows `live` where every live cell is
/// [`inside`], and nothing where one is not.
pub fn try_advance(live: &LiveSet) -> (out: Option<Generation>)
    ensures
        out is Some <==> all_inside(live.order()),
        out matches Some(generation) ==> generation.follows(live),
{
    if live.can_advance() {
        Some(advance(live))
    } else {
        None
    }
}

impl Generation {
    /// The events of the tick: the deaths, then the births.
    pub fn events(&self) -> (events: Vec<CellEvent>)
        ensures
            events@ == self.died@.map_values(|c: CellPosition| CellEvent::Died(c))
                + self.born@.map_values(|c: CellPosition| CellEvent::Born(c)),
    {
        let mut events: Vec<CellEvent> = Vec::new();
        let mut i: usize = 0;
        while i < self.died.len()
            invariant
                i <= self.died.len(),
                events@ == self.died@.take(i as int).map_values(
                    |c: CellPosition| CellEvent::Died(c),
                ),
            decreases self.died.len() - i,
        {
            events.push(CellEvent::Died(self.died[i]));
            proof {
                assert(self.died@.take(i as int + 1) =~= self.died@.take(i as int).push(
                    self.died@[i as int],
                ));
                assert(events@ =~= self.died@.take(i as int + 1).map_values(
                    |c: CellPosition| CellEvent::Died(c),
                ));
            }
            i += 1;
        }
        let ghost deaths = events@;
        assert(self.died@.take(i as int) =~= self.died@);
        let mut j: usize = 0;
        while j < self.born.len()
            invariant
                j <= self.born.len(),
                events@ == deaths + self.born@.take(j as int).map_values(
                    |c: CellPosition| CellEvent::Born(c),
                ),
            decreases self.born.len() - j,
        {
            events.push(CellEvent::Born(self.born[j]));
            proof {
                assert(self.born@.take(j as int + 1) =~= self.born@.take(j as int).push(
                    self.born@[j as int],
                ));
                assert(events@ =~= deaths + self.born@.take(j as int + 1).map_values(
                    |c: CellPosition| CellEvent::Born(c),
                ));
            }
            j += 1;
        }
        assert(self.born@.take(j as int) =~= self.born@);
        events
    }
}

/// Ascending sequences that stand on the same points are the same sequence.
pub proof fn lemma_ascending_unique(a: Seq<CellPosition>, b: Seq<CellPosition>)
    requires
        ascending(a),
        ascending(b),
        points(a) == points(b),
    ensures
        a == b,
    decreases a.len(),
{
    if a.len() == 0 {
        if b.len() > 0 {
            assert(points(b).contains(b[0]@));
            let i = choose|i: int| 0 <= i < a.len() && (#[trigger] a[i])@ == b[0]@;
        }
        assert(a =~= b);
    } else {
        let top = a.last();
        assert(points(a).contains(a[a.len() - 1]@));
        let j = choose|j: int| 0 <= j < b.len() && (#[trigger] b[j])@ == top@;
        assert(points(b).contains(b[b.len() - 1]@));
        let i = choose|i: int| 0 <= i < a.len() && (#[trigger] a[i])@ == b.last()@;
        assert(b[j] == top && a[i] == b.last());
        if j < b.len() - 1 {
            assert(before(b[j], b[b.len() - 1]));
            if i < a.len() - 1 {
                assert(before(a[i], a[a.len() - 1]));
            }
        }
        assert(b.last() == top);
        assert(a.no_duplicates() && b.no_duplicates()) by {
            assert forall|m: int, n: int| 0 <= m < a.len() && 0 <= n < a.len() && m != n implies a[m]
                != a[n] by {
                if m < n {
                    assert(before(a[m], a[n]));
                } else {
                    assert(before(a[n], a[m]));
                }
            }
            assert forall|m: int, n: int| 0 <= m < b.len() && 0 <= n < b.len() && m != n implies b[m]
                != b[n] by {
                if m < n {
                    assert(before(b[m], b[n]));
                } else {
                    assert(before(b[n], b[m]));
                }
            }
        }
        lemma_points_remove(a, a.len() - 1);
        lemma_points_remove(b, b.len() - 1);
        assert(a.remove(a.len() - 1) =~= a.drop_last());
        assert(b.remove(b.len() - 1) =~= b.drop_last());
        lemma_ascending_unique(a.drop_last(), b.drop_last());
        assert(a =~= a.drop_last().push(top));
        assert(b =~= b.drop_last().push(top));
    }
}

/// The step is determined by the cells that are alive: from live sets that
/// hold the same cells it leads to the same cells, with the same cells born
/// in the same order. From live sets that also agree in their order it
/// leads to the same order, and the same cells die in the same order.
pub proof fn lemma_advance_deterministic(
    live_a: LiveSet,
    live_b: LiveSet,
    out_a: Generation,
    out_b: Generation,
)
    requires
        live_a@ == live_b@,
        out_a.follows(&live_a),
        out_b.follows(&live_b),
    ensures
        out_a.live@ == out_b.live@,
        out_a.born@ == out_b.born@,
        live_a.order() == live_b.order() ==> out_a.live.order() == out_b.live.order()
            && out_a.died@ == out_b.died@,
{
    lemma_ascending_unique(out_a.born@, out_b.born@);
}

/// A cell that touches no live cell is not recorded in the counts, is no
/// candidate for birth, and is dead in the next generation.
pub proof fn lemma_untouched_cells_unvisited(
    live: Set<(int, int)>,
    counts: Map<(isize, isize), u32>,
    candidates: Set<(isize, isize)>,
    at: (isize, isize),
)
    requires
        counts_match(counts, live),
        threes_of(candidates, live),
        forall|p: (int, int)| live.contains(p) ==> !adjacent(p, point_of(at)),
    ensures
        !counts.contains_key(at),
        !candidates.contains(at),
        !next_generation(live).contains(point_of(at)),
{
    lemma_far_cells_stay_dead(live, point_of(at));
}

} // verus!
