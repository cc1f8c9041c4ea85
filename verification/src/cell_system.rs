//! Cells, and what happens to them.

use std::time::Duration;
use vstd::prelude::*;

verus! {

/// The coordinates of one cell of the grid.
#[derive(Clone, Copy, Debug, PartialEq, Eq, Hash, PartialOrd, Ord, Structural)]
pub struct CellPosition {
    pub x: isize,
    pub y: isize,
}

impl View for CellPosition {
    type V = (int, int);

    /// The point of the integer plane that the cell stands on.
    open spec fn view(&self) -> (int, int) {
        (self.x as int, self.y as int)
    }
}

/// The order of cells: by `x` first, then by `y`.
pub open spec fn before(a: CellPosition, b: CellPosition) -> bool {
    a.x < b.x || (a.x == b.x && a.y < b.y)
}

/// Whether each cell of the sequence comes [`before`] all that follow it.
pub open spec fn ascending(cells: Seq<CellPosition>) -> bool {
    forall|i: int, j: int| 0 <= i < j < cells.len() ==> before(cells[i], cells[j])
}

/// What a change of the live set means for one cell.
#[derive(Clone, Copy, Debug, PartialEq, Eq, Structural)]
pub enum CellEvent {
    /// The cell was dead and is now alive.
    Born(CellPosition),
    /// The cell was alive and is now dead.
    Died(CellPosition),
}

impl CellEvent {
    /// The cell that the event is about.
    pub open spec fn cell(self) -> CellPosition {
        match self {
            CellEvent::Born(c) => c,
            CellEvent::Died(c) => c,
        }
    }

    /// The cell that the event is about.
    pub fn position(&self) -> (c: CellPosition)
        ensures
            c == self.cell(),
    {
        match self {
            CellEvent::Born(c) => *c,
            CellEvent::Died(c) => *c,
        }
    }
}

/// The length of time that `Duration::from_millis` makes of a number of
/// milliseconds.
pub uninterp spec fn millis(ms: u64) -> Duration;

/// Calls `Duration::from_millis`. Taken on trust: the result is the length
/// of time that [`millis`] names, the same for the same number.
#[verifier::external_body]
fn duration_from_millis(ms: u64) -> (period: Duration)
    ensures
        period == millis(ms),
{
    Duration::from_millis(ms)
}

/// Compares two lengths of time with `==`. Taken on trust: `==` holds of
/// them when they are the same length of time, and only then.
#[verifier::external_body]
fn same_duration(a: &Duration, b: &Duration) -> (same: bool)
    ensures
        same == (*a == *b),
{
    a == b
}

/// How the simulation runs.
#[derive(Debug)]
pub struct CellParams {
    /// Whether generations follow each other by the timer.
    pub playing: bool,
    /// The time from one generation to the next while playing.
    pub period: Duration,
    /// Whether a generation is waiting to be computed.
    pub compute_next_generation: bool,
}

impl Default for CellParams {
    /// Playing, a millisecond apart, with nothing waiting.
    fn default() -> (params: CellParams)
        ensures
            params.playing,
            params.period == millis(1),
            !params.compute_next_generation,
    {
        CellParams {
            playing: true,
            period: duration_from_millis(1),
            compute_next_generation: false,
        }
    }
}

impl CellParams {
    /// Whether the timer has to be set to the period anew, and so to start
    /// over: when the parameters were changed and the timer runs by another
    /// period than theirs. A period of no time at all is refused: the timer
    /// then keeps the period that it has.
    pub fn timer_is_stale(&self, changed: bool, timer_period: &Duration) -> (stale: bool)
        ensures
            stale == (changed && self.period != *timer_period && self.period != millis(0)),
    {
        changed && !same_duration(&self.period, timer_period) && !same_duration(
            &self.period,
            &duration_from_millis(0),
        )
    }

    /// Decides at a frame whether a generation is to be computed now.
    /// `timer_finished` says whether the timer ran out during this frame; it
    /// counts only while playing. One generation is due when the timer ran
    /// out or one was waiting, however many asked for it; afterwards none is
    /// waiting.
    pub fn take_tick(&mut self, timer_finished: bool) -> (due: bool)
        ensures
            due == (old(self).compute_next_generation || (old(self).playing && timer_finished)),
            !final(self).compute_next_generation,
            final(self).playing == old(self).playing,
            final(self).period == old(self).period,
    {
        if self.playing && timer_finished {
            self.compute_next_generation = true;
        }
        if self.compute_next_generation {
            self.compute_next_generation = false;
            true
        } else {
            false
        }
    }

    /// Applies the controls of one frame, in this order: `toggle` flips
    /// between playing and pausing; `step` asks for one generation, which
    /// counts only while pausing; `reset` pauses. The result says whether
    /// the live cells are to be cleared, which is what `reset` asks for.
    pub fn apply_controls(&mut self, toggle: bool, step: bool, reset: bool) -> (clear: bool)
        ensures
            final(self).playing == (!reset && (old(self).playing != toggle)),
            final(self).compute_next_generation == (old(self).compute_next_generation || (step
                && old(self).playing == toggle)),
            final(self).period == old(self).period,
            clear == reset,
    {
        if toggle {
            self.playing = !self.playing;
        }
        if step && !self.playing {
            self.compute_next_generation = true;
        }
        if reset {
            self.playing = false;
        }
        reset
    }
}

} // verus!
