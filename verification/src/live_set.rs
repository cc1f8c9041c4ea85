//! The set of live cells.

use crate::cell_system::{CellEvent, CellPosition};
use vstd::prelude::*;

verus! {

/// The points that the cells of a sequence stand on.
pub open spec fn points(cells: Seq<CellPosition>) -> Set<(int, int)> {
    Set::new(|p: (int, int)| exists|i: int| 0 <= i < cells.len() && (#[trigger] cells[i])@ == p)
}

/// Whether the cell has a neighbour on every side: none of its coordinates
/// is the least or the greatest that there is.
pub open spec fn inside(cell: CellPosition) -> bool {
    &&& isize::MIN < cell.x < isize::MAX
    &&& isize::MIN < cell.y < isize::MAX
}

/// Whether every cell of the sequence is [`inside`].
pub open spec fn all_inside(cells: Seq<CellPosition>) -> bool {
    forall|i: int| 0 <= i < cells.len() ==> inside(#[trigger] cells[i])
}

/// The cells of the seed pattern, in the order in which they are set.
pub open spec fn seed_pattern() -> Seq<CellPosition> {
    seq![
        CellPosition { x: 0, y: 0 },
        CellPosition { x: (-1) as isize, y: 0 },
        CellPosition { x: 0, y: (-1) as isize },
        CellPosition { x: 0, y: 1 },
        CellPosition { x: 1, y: 1 },
    ]
}

/// The sequence with the cell in it: put at the end where it was missing.
pub open spec fn with_cell(cells: Seq<CellPosition>, cell: CellPosition) -> Seq<CellPosition> {
    if cells.contains(cell) {
        cells
    } else {
        cells.push(cell)
    }
}

/// The sequence without the cell: taken out from where it first stood.
pub open spec fn without_cell(cells: Seq<CellPosition>, cell: CellPosition) -> Seq<CellPosition> {
    if cells.contains(cell) {
        cells.remove(cells.index_of(cell))
    } else {
        cells
    }
}

/// The cells of a sequence, each at the place where it first occurs.
pub open spec fn first_occurrences(cells: Seq<CellPosition>) -> Seq<CellPosition>
    decreases cells.len(),
{
    if cells.len() == 0 {
        cells
    } else if cells.drop_last().contains(cells.last()) {
        first_occurrences(cells.drop_last())
    } else {
        first_occurrences(cells.drop_last()).push(cells.last())
    }
}

/// A point is among the points of a sequence when a cell of the sequence
/// stands on it.
pub proof fn lemma_points_contains(cells: Seq<CellPosition>, c: CellPosition)
    ensures
        points(cells).contains(c@) <==> cells.contains(c),
{
    if points(cells).contains(c@) {
        let i = choose|i: int| 0 <= i < cells.len() && (#[trigger] cells[i])@ == c@;
        assert(cells[i] == c);
    }
    if cells.contains(c) {
        let i = choose|i: int| 0 <= i < cells.len() && cells[i] == c;
        assert(cells[i]@ == c@);
    }
}

/// A cell put at the end adds its point.
pub proof fn lemma_points_push(cells: Seq<CellPosition>, c: CellPosition)
    ensures
        points(cells.push(c)) == points(cells).insert(c@),
{
    let longer = cells.push(c);
    assert forall|p: (int, int)| points(longer).contains(p) <==> points(cells).insert(
        c@,
    ).contains(p) by {
        if points(longer).contains(p) {
            let i = choose|i: int| 0 <= i < longer.len() && (#[trigger] longer[i])@ == p;
            if i < cells.len() {
                assert(cells[i]@ == p);
            }
        }
        if points(cells).contains(p) {
            let i = choose|i: int| 0 <= i < cells.len() && (#[trigger] cells[i])@ == p;
            assert(longer[i]@ == p);
        }
        if p == c@ {
            assert(longer[cells.len() as int]@ == p);
        }
    }
    assert(points(longer) =~= points(cells).insert(c@));
}

/// Two sequences put end to end stand on the points of both.
pub proof fn lemma_points_add(a: Seq<CellPosition>, b: Seq<CellPosition>)
    ensures
        points(a + b) == points(a).union(points(b)),
{
    let both = a + b;
    assert forall|p: (int, int)| points(both).contains(p) <==> points(a).union(
        points(b),
    ).contains(p) by {
        if points(both).contains(p) {
            let i = choose|i: int| 0 <= i < both.len() && (#[trigger] both[i])@ == p;
            if i < a.len() {
                assert(a[i]@ == p);
            } else {
                assert(b[i - a.len()]@ == p);
            }
        }
        if points(a).contains(p) {
            let i = choose|i: int| 0 <= i < a.len() && (#[trigger] a[i])@ == p;
            assert(both[i]@ == p);
        }
        if points(b).contains(p) {
            let i = choose|i: int| 0 <= i < b.len() && (#[trigger] b[i])@ == p;
            assert(both[a.len() + i]@ == p);
        }
    }
    assert(points(both) =~= points(a).union(points(b)));
}

/// Taking a cell out of a sequence without repeats takes its point out.
pub proof fn lemma_points_remove(cells: Seq<CellPosition>, k: int)
    requires
        cells.no_duplicates(),
        0 <= k < cells.len(),
    ensures
        points(cells.remove(k)) == points(cells).remove(cells[k]@),
        cells.remove(k).no_duplicates(),
{
    let shorter = cells.remove(k);
    assert forall|p: (int, int)| points(shorter).contains(p) <==> points(cells).remove(
        cells[k]@,
    ).contains(p) by {
        if points(shorter).contains(p) {
            let i = choose|i: int| 0 <= i < shorter.len() && (#[trigger] shorter[i])@ == p;
            if i < k {
                assert(cells[i]@ == p);
            } else {
                assert(cells[i + 1]@ == p);
            }
        }
        if points(cells).contains(p) && p != cells[k]@ {
            let i = choose|i: int| 0 <= i < cells.len() && (#[trigger] cells[i])@ == p;
            if i < k {
                assert(shorter[i]@ == p);
            } else {
                assert(shorter[i - 1]@ == p);
            }
        }
    }
    assert(points(shorter) =~= points(cells).remove(cells[k]@));
    assert forall|i: int, j: int|
        0 <= i < shorter.len() && 0 <= j < shorter.len() && i != j implies shorter[i]
        != shorter[j] by {
        let a = if i < k { i } else { i + 1 };
        let b = if j < k { j } else { j + 1 };
        assert(shorter[i] == cells[a] && shorter[j] == cells[b]);
    }
}

/// The cells that are alive, each once, in the order in which they came.
#[derive(Debug)]
pub struct LiveSet {
    cells: Vec<CellPosition>,
}

impl View for LiveSet {
    type V = Set<(int, int)>;

    /// The live points of the plane.
    open spec fn view(&self) -> Set<(int, int)> {
        points(self.order())
    }
}

impl Clone for LiveSet {
    /// A set of the same cells in the same order.
    fn clone(&self) -> (copy: LiveSet)
        ensures
            copy.order() == self.order(),
    {
        proof {
            use_type_invariant(self);
        }
        let cells = self.cells.clone();
        assert(cells@ =~= self.cells@);
        LiveSet { cells }
    }
}

impl LiveSet {
    #[verifier::type_invariant]
    spec fn distinct(self) -> bool {
        self.cells@.no_duplicates()
    }

    /// The live cells in the order in which they are handed out.
    pub closed spec fn order(&self) -> Seq<CellPosition> {
        self.cells@
    }

    /// The set without any cell.
    pub fn new() -> (live: LiveSet)
        ensures
            live.order() == Seq::<CellPosition>::empty(),
            live@ == Set::<(int, int)>::empty(),
    {
        let live = LiveSet { cells: Vec::new() };
        assert(live@ =~= Set::<(int, int)>::empty());
        live
    }

    /// The live cells as they are stored.
    pub(crate) fn cells(&self) -> (cells: &Vec<CellPosition>)
        ensures
            cells@ == self.order(),
            cells@.no_duplicates(),
    {
        proof {
            use_type_invariant(self);
        }
        &self.cells
    }

    /// The set of the given cells, none of which occurs twice.
    pub(crate) fn from_distinct(cells: Vec<CellPosition>) -> (live: LiveSet)
        requires
            cells@.no_duplicates(),
        ensures
            live.order() == cells@,
    {
        LiveSet { cells }
    }

    /// The seed pattern: five cells around the origin.
    pub fn seed() -> (live: LiveSet)
        ensures
            live.order() == seed_pattern(),
    {
        let mut live = LiveSet::new();
        live.insert(CellPosition { x: 0, y: 0 });
        live.insert(CellPosition { x: -1, y: 0 });
        live.insert(CellPosition { x: 0, y: -1 });
        live.insert(CellPosition { x: 0, y: 1 });
        live.insert(CellPosition { x: 1, y: 1 });
        assert(live.order() =~= seed_pattern());
        live
    }

    /// The set of the given cells. A cell that is given more than once is
    /// alive once, at the place of its first occurrence.
    pub fn from_cells(cells: &Vec<CellPosition>) -> (live: LiveSet)
        ensures
            live@ == points(cells@),
            live.order() == first_occurrences(cells@),
    {
        let mut live = LiveSet::new();
        let mut i: usize = 0;
        while i < cells.len()
            invariant
                i <= cells.len(),
                live@ == points(cells@.take(i as int)),
                live.order() == first_occurrences(cells@.take(i as int)),
            decreases cells.len() - i,
        {
            proof {
                let front = cells@.take(i as int);
                let longer = cells@.take(i as int + 1);
                assert(longer =~= front.push(cells@[i as int]));
                assert(longer.drop_last() =~= front);
                lemma_points_push(front, cells@[i as int]);
                lemma_points_contains(front, cells@[i as int]);
            }
            live.insert(cells[i]);
            i += 1;
        }
        assert(cells@.take(i as int) =~= cells@);
        live
    }

    /// The number of live cells.
    pub fn len(&self) -> (n: usize)
        ensures
            n == self.order().len(),
            n == self@.len(),
            self@.finite(),
    {
        proof {
            use_type_invariant(self);
            lemma_points_count(self.cells@);
        }
        self.cells.len()
    }

    /// The `i`-th live cell, where there are that many.
    pub fn get(&self, i: usize) -> (cell: Option<CellPosition>)
        ensures
            cell == if i < self.order().len() {
                Some(self.order()[i as int])
            } else {
                None
            },
    {
        if i < self.cells.len() {
            Some(self.cells[i])
        } else {
            None
        }
    }

    /// The live cells in their order, as they are at the time of the call.
    pub fn iterate(&self) -> (cells: Vec<CellPosition>)
        ensures
            cells@ == self.order(),
            cells@.no_duplicates(),
    {
        proof {
            use_type_invariant(self);
        }
        let cells = self.cells.clone();
        assert(cells@ =~= self.cells@);
        cells
    }

    /// Whether every live cell is [`inside`], so that the set can advance.
    pub fn can_advance(&self) -> (ok: bool)
        ensures
            ok == all_inside(self.order()),
    {
        let mut i: usize = 0;
        while i < self.cells.len()
            invariant
                i <= self.cells.len(),
                forall|k: int| 0 <= k < i ==> inside(#[trigger] self.cells@[k]),
            decreases self.cells.len() - i,
        {
            let cell = self.cells[i];
            if cell.x == isize::MIN || cell.x == isize::MAX || cell.y == isize::MIN || cell.y
                == isize::MAX {
                assert(!inside(self.cells@[i as int]));
                return false;
            }
            i += 1;
        }
        true
    }

    /// Whether the two sets hold the same cells, in whatever order.
    pub fn same_cells(&self, other: &LiveSet) -> (same: bool)
        ensures
            same == (self@ == other@),
    {
        proof {
            use_type_invariant(self);
            use_type_invariant(other);
            lemma_points_count(self.cells@);
            lemma_points_count(other.cells@);
        }
        if self.cells.len() != other.cells.len() {
            return false;
        }
        let mut i: usize = 0;
        while i < self.cells.len()
            invariant
                i <= self.cells.len(),
                forall|k: int| 0 <= k < i ==> other@.contains((#[trigger] self.cells@[k])@),
            decreases self.cells.len() - i,
        {
            if !other.contains(&self.cells[i]) {
                assert(self@.contains(self.cells@[i as int]@));
                return false;
            }
            i += 1;
        }
        proof {
            assert(self@.subset_of(other@)) by {
                assert forall|p: (int, int)| self@.contains(p) implies other@.contains(p) by {
                    let k = choose|k: int|
                        0 <= k < self.cells@.len() && (#[trigger] self.cells@[k])@ == p;
                }
            }
            vstd::set_lib::lemma_subset_equality(self@, other@);
        }
        true
    }

    fn position(&self, cell: &CellPosition) -> (at: Option<usize>)
        ensures
            match at {
                Some(k) => k < self.order().len() && self.order()[k as int] == *cell,
                None => !self.order().contains(*cell),
            },
    {
        let mut k: usize = 0;
        while k < self.cells.len()
            invariant
                k <= self.cells.len(),
                forall|i: int| 0 <= i < k ==> self.cells@[i] != *cell,
            decreases self.cells.len() - k,
        {
            if self.cells[k].x == cell.x && self.cells[k].y == cell.y {
                return Some(k);
            }
            k += 1;
        }
        None
    }

    /// Whether the cell is alive.
    pub fn contains(&self, cell: &CellPosition) -> (alive: bool)
        ensures
            alive == self@.contains(cell@),
    {
        proof {
            lemma_points_contains(self.order(), *cell);
        }
        self.position(cell).is_some()
    }

    /// Makes the cell alive. The result says whether it was born by this
    /// call: a cell that was alive already stays as it was.
    pub fn insert(&mut self, cell: CellPosition) -> (born: bool)
        ensures
            born == !old(self)@.contains(cell@),
            born == !old(self).order().contains(cell),
            final(self)@ == old(self)@.insert(cell@),
            final(self).order() == with_cell(old(self).order(), cell),
    {
        proof {
            use_type_invariant(&*self);
            lemma_points_contains(self.order(), cell);
            lemma_points_push(self.order(), cell);
        }
        match self.position(&cell) {
            Some(_) => {
                assert(self@.insert(cell@) =~= self@);
                false
            },
            None => {
                let mut cells: Vec<CellPosition> = Vec::new();
                std::mem::swap(&mut self.cells, &mut cells);
                cells.push(cell);
                self.cells = cells;
                true
            },
        }
    }

    /// Makes the cell dead. The result says whether it died by this call: a
    /// cell that was dead already stays so.
    pub fn remove(&mut self, cell: &CellPosition) -> (died: bool)
        ensures
            died == old(self)@.contains(cell@),
            died == old(self).order().contains(*cell),
            final(self)@ == old(self)@.remove(cell@),
            final(self).order() == without_cell(old(self).order(), *cell),
    {
        proof {
            use_type_invariant(&*self);
            lemma_points_contains(self.order(), *cell);
        }
        match self.position(cell) {
            Some(k) => {
                proof {
                    lemma_points_remove(self.order(), k as int);
                    self.order().index_of_first_ensures(*cell);
                }
                let mut cells: Vec<CellPosition> = Vec::new();
                std::mem::swap(&mut self.cells, &mut cells);
                cells.remove(k);
                self.cells = cells;
                true
            },
            None => {
                assert(self@.remove(cell@) =~= self@);
                false
            },
        }
    }

    /// Makes the cell alive where it was dead, and dead where it was alive.
    pub fn toggle(&mut self, cell: CellPosition) -> (event: CellEvent)
        ensures
            event == if old(self)@.contains(cell@) {
                CellEvent::Died(cell)
            } else {
                CellEvent::Born(cell)
            },
            final(self)@ == if old(self)@.contains(cell@) {
                old(self)@.remove(cell@)
            } else {
                old(self)@.insert(cell@)
            },
            final(self).order() == if old(self)@.contains(cell@) {
                without_cell(old(self).order(), cell)
            } else {
                with_cell(old(self).order(), cell)
            },
    {
        if self.remove(&cell) {
            CellEvent::Died(cell)
        } else {
            self.insert(cell);
            CellEvent::Born(cell)
        }
    }

    /// Makes every cell dead, and hands out the cells that died, in their
    /// order.
    pub fn clear(&mut self) -> (died: Vec<CellPosition>)
        ensures
            died@ == old(self).order(),
            final(self).order() == Seq::<CellPosition>::empty(),
            final(self)@ == Set::<(int, int)>::empty(),
    {
        let mut cells: Vec<CellPosition> = Vec::new();
        std::mem::swap(&mut self.cells, &mut cells);
        assert(self@ =~= Set::<(int, int)>::empty());
        cells
    }
}

/// A sequence without repeats stands on as many points as it has cells.
pub proof fn lemma_points_count(cells: Seq<CellPosition>)
    requires
        cells.no_duplicates(),
    ensures
        points(cells).finite(),
        points(cells).len() == cells.len(),
    decreases cells.len(),
{
    if cells.len() == 0 {
        assert(points(cells) =~= Set::<(int, int)>::empty());
    } else {
        let front = cells.drop_last();
        let last = cells.last();
        assert(cells =~= front.push(last));
        lemma_points_count(front);
        lemma_points_push(front, last);
        lemma_points_contains(front, last);
    }
}

/// Inserting a cell twice is inserting it once: the second time nothing is
/// born and the cells stay as they are, and no cell comes to stand twice.
pub proof fn lemma_insert_idempotent(cells: Seq<CellPosition>, cell: CellPosition)
    ensures
        with_cell(cells, cell).contains(cell),
        with_cell(with_cell(cells, cell), cell) == with_cell(cells, cell),
        points(with_cell(cells, cell)).insert(cell@) == points(with_cell(cells, cell)),
        cells.no_duplicates() ==> with_cell(cells, cell).no_duplicates(),
{
    let once = with_cell(cells, cell);
    if !cells.contains(cell) {
        assert(once[cells.len() as int] == cell);
    }
    lemma_points_contains(once, cell);
    assert(points(once).insert(cell@) =~= points(once));
}

/// Removing a cell twice is removing it once: the second time nothing dies
/// and the cells stay as they are.
pub proof fn lemma_remove_idempotent(cells: Seq<CellPosition>, cell: CellPosition)
    requires
        cells.no_duplicates(),
    ensures
        !without_cell(cells, cell).contains(cell),
        without_cell(without_cell(cells, cell), cell) == without_cell(cells, cell),
        without_cell(cells, cell).no_duplicates(),
{
    if cells.contains(cell) {
        cells.index_of_first_ensures(cell);
        let k = cells.index_of(cell);
        lemma_points_remove(cells, k);
        lemma_points_contains(cells.remove(k), cell);
    }
}

} // verus!
