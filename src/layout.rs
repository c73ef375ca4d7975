//! Sizes of the drawn board and panels, in terminal cells.
use vstd::prelude::*;

use crate::state::{GameState, UiZoom};

verus! {

/// Width of the drawn grid: row labels, borders and nine cells.
pub fn grid_width(zoom: UiZoom) -> (r: usize)
    ensures
        r == 18 + 9 * zoom.cell_w_spec(),
{
    18 + (9 * zoom.cell_w())
}

/// Height of the drawn grid: column header, three borders, nine cells and
/// the bottom border.
pub fn grid_height(zoom: UiZoom) -> (r: usize)
    ensures
        r == 5 + 9 * zoom.cell_h_spec(),
{
    5 + (9 * zoom.cell_h())
}

/// Height of the side panel: three boxed sections of 3, 3 and 5 lines.
pub fn side_panel_height() -> (r: usize)
    ensures
        r == 17,
{
    (3 + 2) + (3 + 2) + (5 + 2)
}

/// What the cell at `(row, col)` shows: nothing for a given cell while givens
/// are hidden, else its value.
pub fn cell_visible_value(state: &GameState, row: usize, col: usize) -> (r: Option<u8>)
    requires
        row < 9,
        col < 9,
    ensures
        r == if state.grid[row as int][col as int].given && !state.show_givens {
            None
        } else {
            state.grid[row as int][col as int].value
        },
{
    let cell = &state.grid[row][col];
    if cell.given && !state.show_givens {
        None
    } else {
        cell.value
    }
}

} // verus!
