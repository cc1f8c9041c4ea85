use game_of_life::cell_system::{CellEvent, CellPosition};
use game_of_life::generation::{advance, count_neighbours, try_advance};
use game_of_life::live_set::LiveSet;
use std::collections::BTreeSet;

fn cell(x: isize, y: isize) -> CellPosition {
    CellPosition { x, y }
}

fn live_of(cells: &[(isize, isize)]) -> LiveSet {
    let mut live = LiveSet::new();
    for &(x, y) in cells {
        live.insert(cell(x, y));
    }
    live
}

fn sorted(live: &LiveSet) -> Vec<(isize, isize)> {
    let mut cells: Vec<(isize, isize)> = live.iterate().iter().map(|c| (c.x, c.y)).collect();
    cells.sort();
    cells
}

/// The rules applied to every cell of the box around the live cells.
fn by_the_book(cells: &[(isize, isize)]) -> Vec<(isize, isize)> {
    let alive: BTreeSet<(isize, isize)> = cells.iter().copied().collect();
    let mut next = Vec::new();
    if alive.is_empty() {
        return next;
    }
    let min_x = alive.iter().map(|c| c.0).min().unwrap() - 1;
    let max_x = alive.iter().map(|c| c.0).max().unwrap() + 1;
    let min_y = alive.iter().map(|c| c.1).min().unwrap() - 1;
    let max_y = alive.iter().map(|c| c.1).max().unwrap() + 1;
    for x in min_x..=max_x {
        for y in min_y..=max_y {
            let mut n = 0;
            for dx in -1..=1 {
                for dy in -1..=1 {
                    if (dx, dy) != (0, 0) && alive.contains(&(x + dx, y + dy)) {
                        n += 1;
                    }
                }
            }
            if n == 3 || (n == 2 && alive.contains(&(x, y))) {
                next.push((x, y));
            }
        }
    }
    next.sort();
    next
}

#[test]
fn empty_set_stays_empty() {
    let out = advance(&LiveSet::new());
    assert_eq!(out.live.len(), 0);
    assert!(out.died.is_empty());
    assert!(out.born.is_empty());
    assert!(out.events().is_empty());
}

#[test]
fn single_cell_dies() {
    let out = advance(&live_of(&[(0, 0)]));
    assert_eq!(out.live.len(), 0);
    assert_eq!(out.died, vec![cell(0, 0)]);
    assert!(out.born.is_empty());
}

#[test]
fn blinker_turns_and_turns_back() {
    let flat = live_of(&[(-1, 0), (0, 0), (1, 0)]);
    let first = advance(&flat);
    assert_eq!(sorted(&first.live), vec![(0, -1), (0, 0), (0, 1)]);
    assert_eq!(first.died, vec![cell(-1, 0), cell(1, 0)]);
    assert_eq!(first.born, vec![cell(0, -1), cell(0, 1)]);
    let second = advance(&first.live);
    assert_eq!(sorted(&second.live), vec![(-1, 0), (0, 0), (1, 0)]);
    assert!(second.live.same_cells(&flat));
}

#[test]
fn block_is_stable() {
    let block = live_of(&[(0, 0), (1, 0), (0, 1), (1, 1)]);
    let out = advance(&block);
    assert!(out.live.same_cells(&block));
    assert_eq!(out.live.iterate(), block.iterate());
    assert!(out.died.is_empty());
    assert!(out.born.is_empty());
}

#[test]
fn seed_pattern_after_one_tick() {
    let out = advance(&LiveSet::seed());
    assert_eq!(
        sorted(&out.live),
        vec![(-1, -1), (-1, 0), (-1, 1), (0, -1), (0, 1), (1, 1)]
    );
    assert_eq!(out.died, vec![cell(0, 0)]);
    assert_eq!(out.born, vec![cell(-1, -1), cell(-1, 1)]);
    assert_eq!(
        out.live.iterate(),
        vec![cell(-1, 0), cell(0, -1), cell(0, 1), cell(1, 1), cell(-1, -1), cell(-1, 1)]
    );
}

#[test]
fn survivors_keep_their_order_and_newborn_follow_ascending() {
    // A row of three and a cell below its middle: three cells are born.
    let live = live_of(&[(1, 0), (0, 0), (-1, 0), (0, 1)]);
    let out = advance(&live);
    assert_eq!(out.died, Vec::<CellPosition>::new());
    assert_eq!(out.born, vec![cell(-1, 1), cell(0, -1), cell(1, 1)]);
    assert_eq!(
        out.live.iterate(),
        vec![
            cell(1, 0),
            cell(0, 0),
            cell(-1, 0),
            cell(0, 1),
            cell(-1, 1),
            cell(0, -1),
            cell(1, 1)
        ]
    );
}

#[test]
fn a_cell_with_four_neighbours_dies_and_is_not_born() {
    // The centre of a plus sign has four live neighbours.
    let plus = live_of(&[(0, 0), (1, 0), (-1, 0), (0, 1), (0, -1)]);
    let out = advance(&plus);
    assert!(!out.live.contains(&cell(0, 0)));
    assert_eq!(out.died, vec![cell(0, 0)]);
    // A ring without its centre: the centre has four live neighbours too.
    let ring = live_of(&[(1, 0), (-1, 0), (0, 1), (0, -1)]);
    let out = advance(&ring);
    assert!(!out.live.contains(&cell(0, 0)));
    assert!(!out.born.contains(&cell(0, 0)));
}

#[test]
fn events_are_the_deaths_then_the_births() {
    let out = advance(&live_of(&[(-1, 0), (0, 0), (1, 0)]));
    assert_eq!(
        out.events(),
        vec![
            CellEvent::Died(cell(-1, 0)),
            CellEvent::Died(cell(1, 0)),
            CellEvent::Born(cell(0, -1)),
            CellEvent::Born(cell(0, 1)),
        ]
    );
    assert_eq!(out.events()[0].position(), cell(-1, 0));
    assert_eq!(out.events()[3].position(), cell(0, 1));
}

#[test]
fn the_order_of_the_live_cells_does_not_change_the_outcome() {
    let one = live_of(&[(0, 0), (-1, 0), (0, -1), (0, 1), (1, 1)]);
    let other = live_of(&[(1, 1), (0, 1), (0, -1), (-1, 0), (0, 0)]);
    let a = advance(&one);
    let b = advance(&other);
    assert!(a.live.same_cells(&b.live));
    assert_eq!(a.born, b.born);
    assert_eq!(sorted(&a.live), sorted(&b.live));
    let again = advance(&one);
    assert_eq!(a.live.iterate(), again.live.iterate());
    assert_eq!(a.died, again.died);
    assert_eq!(a.born, again.born);
}

#[test]
fn glider_agrees_with_the_rules_for_twenty_ticks() {
    let mut cells = vec![(1, 0), (2, 1), (0, 2), (1, 2), (2, 2)];
    let mut live = live_of(&cells);
    for _ in 0..20 {
        let expected = by_the_book(&cells);
        let out = advance(&live);
        assert_eq!(sorted(&out.live), expected);
        assert_eq!(out.live.len(), expected.len());
        cells = expected;
        live = out.live;
    }
    // After twenty ticks the glider has moved five cells along the diagonal.
    assert_eq!(sorted(&live), vec![(5, 7), (6, 5), (6, 7), (7, 6), (7, 7)]);
}

#[test]
fn seed_pattern_agrees_with_the_rules_for_forty_ticks() {
    let mut live = LiveSet::seed();
    for _ in 0..40 {
        let cells = sorted(&live);
        let out = advance(&live);
        assert_eq!(sorted(&out.live), by_the_book(&cells));
        for died in &out.died {
            assert!(live.contains(died));
            assert!(!out.live.contains(died));
        }
        for born in &out.born {
            assert!(!live.contains(born));
            assert!(out.live.contains(born));
        }
        assert_eq!(out.live.len() + out.died.len(), live.len() + out.born.len());
        live = out.live;
    }
}

#[test]
fn nothing_appears_away_from_the_live_cells() {
    let live = live_of(&[(0, 0), (1, 0), (2, 0), (100, 100), (101, 100), (100, 101)]);
    let out = advance(&live);
    for c in out.live.iterate() {
        let near = live
            .iterate()
            .iter()
            .any(|l| (l.x - c.x).abs() <= 1 && (l.y - c.y).abs() <= 1);
        assert!(near);
    }
    assert_eq!(
        sorted(&out.live),
        vec![(1, -1), (1, 0), (1, 1), (100, 100), (100, 101), (101, 100), (101, 101)]
    );
}

#[test]
fn counts_hold_the_live_neighbours_of_the_touched_cells_only() {
    let live = live_of(&[(-1, 0), (0, 0), (1, 0)]);
    let (counts, candidates) = count_neighbours(&live);
    assert_eq!(counts.count(&cell(0, 0)), 2);
    assert_eq!(counts.count(&cell(-1, 0)), 1);
    assert_eq!(counts.count(&cell(1, 0)), 1);
    assert_eq!(counts.count(&cell(0, 1)), 3);
    assert_eq!(counts.count(&cell(0, -1)), 3);
    assert_eq!(counts.count(&cell(-1, 1)), 2);
    assert_eq!(counts.count(&cell(2, 0)), 1);
    assert_eq!(counts.count(&cell(2, 1)), 1);
    assert_eq!(counts.count(&cell(3, 0)), 0);
    assert_eq!(counts.count(&cell(0, 2)), 0);
    assert!(counts.is_recorded(&cell(2, -1)));
    assert!(counts.is_recorded(&cell(0, 0)));
    assert!(!counts.is_recorded(&cell(3, 0)));
    assert!(!counts.is_recorded(&cell(0, 2)));
    assert!(!counts.is_recorded(&cell(50, 50)));
    let threes: Vec<(isize, isize)> = candidates.into_iter().collect();
    assert_eq!(threes, vec![(0, -1), (0, 1)]);
}

#[test]
fn a_lonely_cell_is_not_recorded_itself() {
    let (counts, candidates) = count_neighbours(&live_of(&[(7, -3)]));
    assert!(!counts.is_recorded(&cell(7, -3)));
    assert_eq!(counts.count(&cell(7, -3)), 0);
    assert_eq!(counts.count(&cell(8, -3)), 1);
    assert_eq!(counts.count(&cell(6, -4)), 1);
    assert!(candidates.is_empty());
}

#[test]
fn a_candidate_leaves_when_its_count_reaches_four() {
    // (0, 0) is touched by four live cells: it is a candidate after three
    // of them and none after the fourth.
    let live = live_of(&[(-1, -1), (1, -1), (-1, 1), (1, 1)]);
    let (counts, candidates) = count_neighbours(&live);
    assert_eq!(counts.count(&cell(0, 0)), 4);
    assert!(!candidates.contains(&(0, 0)));
    assert!(candidates.is_empty());
    let out = advance(&live);
    assert_eq!(out.live.len(), 0);
}

#[test]
fn a_live_cell_with_three_neighbours_is_no_birth() {
    let block = live_of(&[(0, 0), (1, 0), (0, 1), (1, 1)]);
    let (counts, candidates) = count_neighbours(&block);
    assert_eq!(counts.count(&cell(0, 0)), 3);
    assert!(candidates.contains(&(0, 0)));
    let out = advance(&block);
    assert!(out.born.is_empty());
    assert_eq!(out.live.len(), 4);
}

#[test]
fn cells_next_to_the_edge_of_the_range_advance() {
    let far = isize::MAX - 1;
    let live = live_of(&[(far, 0), (far, 1), (far, -1)]);
    assert!(live.can_advance());
    let out = advance(&live);
    assert_eq!(sorted(&out.live), vec![(far - 1, 0), (far, 0), (isize::MAX, 0)]);
    assert!(!out.live.can_advance());
}

#[test]
fn try_advance_refuses_a_cell_on_the_edge() {
    assert!(try_advance(&live_of(&[(0, 0), (isize::MAX, 5)])).is_none());
    assert!(try_advance(&live_of(&[(isize::MIN, 5)])).is_none());
    assert!(try_advance(&live_of(&[(3, isize::MIN)])).is_none());
    assert!(try_advance(&live_of(&[(3, isize::MAX), (0, 0)])).is_none());
}

#[test]
fn try_advance_is_advance_elsewhere() {
    let live = LiveSet::seed();
    let tried = try_advance(&live).unwrap();
    let out = advance(&live);
    assert_eq!(tried.live.iterate(), out.live.iterate());
    assert_eq!(tried.died, out.died);
    assert_eq!(tried.born, out.born);
    assert!(try_advance(&LiveSet::new()).is_some());
}
