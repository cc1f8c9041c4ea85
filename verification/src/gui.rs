//! What the display needs of the grid.

use vstd::prelude::*;

verus! {

/// What the display shows besides the cells.
#[derive(Debug)]
pub struct GuiParams {
    /// Whether the lines of the grid are drawn.
    pub grid_enabled: bool,
}

impl Default for GuiParams {
    /// Without the lines of the grid.
    fn default() -> (params: GuiParams)
        ensures
            !params.grid_enabled,
    {
        GuiParams { grid_enabled: false }
    }
}

/// The greater of two numbers.
pub fn return_highest_value(val1: isize, val2: isize) -> (highest: isize)
    ensures
        highest >= val1,
        highest >= val2,
        highest == val1 || highest == val2,
{
    if val1 > val2 {
        return val1;
    } else {
        return val2;
    }
}

/// The direction in which the view moves while the given keys are held: one
/// step to the right for `right`, one to the left for `left`, one up for
/// `up` and one down for `down`; opposite keys cancel.
pub fn pan_direction(left: bool, right: bool, down: bool, up: bool) -> (step: (i32, i32))
    ensures
        step.0 == (if right { 1int } else { 0int }) - (if left { 1int } else { 0int }),
        step.1 == (if up { 1int } else { 0int }) - (if down { 1int } else { 0int }),
{
    let mut x: i32 = 0;
    let mut y: i32 = 0;
    if left {
        x -= 1
    }
    if right {
        x += 1
    }
    if down {
        y -= 1
    }
    if up {
        y += 1
    }
    (x, y)
}

} // verus!
