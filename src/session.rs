//! The saved form of a session and the rules for restoring one.
use vstd::prelude::*;

use crate::history::GameAction;
use crate::rules::in_grid;
use crate::state::{
    is_puzzle, Board, Cell, Difficulty, DifficultyOption, GameState, InputMode, Screen, Selection,
    UiZoom,
};

verus! {

/// The save format this library writes and reads.
pub const SAVE_VERSION: u8 = 1;

/// Everything a saved session records.
#[derive(Debug, Clone, Copy)]
pub struct SaveData {
    pub version: u8,
    pub difficulty: Difficulty,
    pub elapsed_secs: u64,
    pub last_played_at: u64,
    pub game_completed: bool,
    pub mistakes: u8,
    pub mistakes_max: u8,
    pub hints_left: u8,
    pub input_mode: InputMode,
    pub ui_zoom: UiZoom,
    pub show_givens: bool,
    pub help_visible: bool,
    pub screen: Screen,
    pub selector_selection: DifficultyOption,
    pub selection: Selection,
    pub grid: Board,
}

/// Why a saved session could not be restored.
#[derive(Debug, Clone, Copy, PartialEq, Eq, Structural)]
pub enum SaveError {
    /// The save was written in a format this library does not read.
    UnsupportedVersion(u8),
}

/// A cell of a fresh puzzle with the player's saved work put back: given
/// cells come from the puzzle, the others take the saved value, pencil marks
/// and wrong mark.
pub open spec fn restored_cell(fresh: Cell, saved: Cell) -> Cell {
    if fresh.given {
        fresh
    } else {
        Cell {
            value: saved.value,
            candidates_mask: saved.candidates_mask,
            wrong: saved.wrong,
            ..fresh
        }
    }
}

/// `s` is the session restored from `d` onto a fresh puzzle, started at `started_at`.
pub open spec fn restored_from(s: GameState, d: SaveData, started_at: std::time::Instant) -> bool {
    &&& s.difficulty == d.difficulty
    &&& s.game_completed == d.game_completed
    &&& s.mistakes_max == if d.mistakes_max >= 1 { d.mistakes_max } else { 1 }
    &&& s.mistakes == if d.mistakes <= s.mistakes_max { d.mistakes } else { s.mistakes_max }
    &&& s.hints_left == d.hints_left
    &&& s.input_mode == d.input_mode
    &&& s.ui_zoom == d.ui_zoom
    &&& s.show_givens == d.show_givens
    &&& s.help_visible == d.help_visible
    &&& s.screen == d.screen
    &&& s.selector_selection == d.selector_selection
    &&& s.selection.row == if d.selection.row <= 8 { d.selection.row } else { 8 }
    &&& s.selection.col == if d.selection.col <= 8 { d.selection.col } else { 8 }
    &&& s.started_at == started_at
    &&& !s.has_recent_save
    &&& !s.max_mistakes_warning
    &&& s.last_action is None
    &&& !s.should_quit
    &&& s.history.past_actions() == Seq::<GameAction>::empty()
    &&& s.history.future_actions() == Seq::<GameAction>::empty()
    &&& exists|p: Board|
        #[trigger] is_puzzle(p, d.difficulty) && forall|r: int, c: int|
            in_grid(r, c) ==> #[trigger] s.grid[r][c] == restored_cell(p[r][c], d.grid[r][c])
}

impl SaveData {
    /// The saved form of `state`, which has been played for `elapsed_secs`
    /// and is saved at `last_played_at` (seconds since the Unix epoch).
    pub fn from_state(state: &GameState, elapsed_secs: u64, last_played_at: u64) -> (r: Self)
        ensures
            r == (SaveData {
                version: SAVE_VERSION,
                difficulty: state.difficulty,
                elapsed_secs,
                last_played_at,
                game_completed: state.game_completed,
                mistakes: state.mistakes,
                mistakes_max: state.mistakes_max,
                hints_left: state.hints_left,
                input_mode: state.input_mode,
                ui_zoom: state.ui_zoom,
                show_givens: state.show_givens,
                help_visible: state.help_visible,
                screen: state.screen,
                selector_selection: state.selector_selection,
                selection: state.selection,
                grid: state.grid,
            }),
    {
        SaveData {
            version: SAVE_VERSION,
            difficulty: state.difficulty,
            elapsed_secs,
            last_played_at,
            game_completed: state.game_completed,
            mistakes: state.mistakes,
            mistakes_max: state.mistakes_max,
            hints_left: state.hints_left,
            input_mode: state.input_mode,
            ui_zoom: state.ui_zoom,
            show_givens: state.show_givens,
            help_visible: state.help_visible,
            screen: state.screen,
            selector_selection: state.selector_selection,
            selection: state.selection,
            grid: state.grid,
        }
    }

    /// Restores a session: a fresh puzzle of the saved difficulty with the
    /// player's non-given cells and settings put back, the maximum of mistakes
    /// at least one, the mistakes at most that, and the selection on the board.
    /// A save of another version is refused.
    pub fn into_state(self, started_at: std::time::Instant) -> (r: Result<GameState, SaveError>)
        ensures
            self.version != SAVE_VERSION ==> r == Err::<GameState, SaveError>(
                SaveError::UnsupportedVersion(self.version),
            ),
            self.version == SAVE_VERSION ==> (r matches Ok(s) && restored_from(s, self, started_at)
                && s.wf()),
    {
        if self.version != SAVE_VERSION {
            return Err(SaveError::UnsupportedVersion(self.version));
        }
        let mut state = GameState::new(self.difficulty);
        let ghost fresh = state.grid;
        state.game_completed = self.game_completed;
        state.mistakes_max = if self.mistakes_max >= 1 {
            self.mistakes_max
        } else {
            1
        };
        state.mistakes = if self.mistakes <= state.mistakes_max {
            self.mistakes
        } else {
            state.mistakes_max
        };
        state.hints_left = self.hints_left;
        state.input_mode = self.input_mode;
        state.ui_zoom = self.ui_zoom;
        state.show_givens = self.show_givens;
        state.help_visible = self.help_visible;
        state.screen = self.screen;
        state.selector_selection = self.selector_selection;
        state.selection = Selection {
            row: if self.selection.row <= 8 {
                self.selection.row
            } else {
                8
            },
            col: if self.selection.col <= 8 {
                self.selection.col
            } else {
                8
            },
        };
        state.started_at = started_at;
        let ghost before_grid = state;
        let mut row: usize = 0;
        while row < 9
            invariant
                row <= 9,
                state == (GameState { grid: state.grid, ..before_grid }),
                is_puzzle(fresh, self.difficulty),
                forall|r: int, c: int|
                    in_grid(r, c) ==> #[trigger] state.grid[r][c] == if r < row {
                        restored_cell(fresh[r][c], self.grid[r][c])
                    } else {
                        fresh[r][c]
                    },
            decreases 9 - row,
        {
            let mut col: usize = 0;
            while col < 9
                invariant
                    row < 9,
                    col <= 9,
                    state == (GameState { grid: state.grid, ..before_grid }),
                    is_puzzle(fresh, self.difficulty),
                    forall|r: int, c: int|
                        in_grid(r, c) ==> #[trigger] state.grid[r][c] == if r < row || (r == row
                            && c < col) {
                            restored_cell(fresh[r][c], self.grid[r][c])
                        } else {
                            fresh[r][c]
                        },
                decreases 9 - col,
            {
                if !state.grid[row][col].given {
                    let saved = self.grid[row][col];
                    state.grid[row][col].value = saved.value;
                    state.grid[row][col].candidates_mask = saved.candidates_mask;
                    state.grid[row][col].wrong = saved.wrong;
                }
                col += 1;
            }
            row += 1;
        }
        Ok(state)
    }
}

impl GameState {
    /// The session to start with: a loaded one that is not finished and was
    /// started fewer than eight hours ago resumes on the playing screen;
    /// otherwise a fresh Easy game waits at the level selector.
    pub fn resume_or_select(loaded: Option<GameState>, hours_elapsed: u64) -> (r: GameState)
        ensures
            (loaded matches Some(s) && (!s.game_completed && hours_elapsed < 8)) ==> r == (GameState {
                screen: Screen::Playing,
                has_recent_save: true,
                ..loaded->0
            }),
            !(loaded matches Some(s) && (!s.game_completed && hours_elapsed < 8)) ==> {
                &&& crate::state::fresh_game(r, Difficulty::Easy)
                &&& r.screen == Screen::LevelSelector
                &&& r.ui_zoom == UiZoom::Large
                &&& r.show_givens
                &&& r.wf()
            },
    {
        if let Some(mut state) = loaded {
            if !state.game_completed && hours_elapsed < 8 {
                state.screen = Screen::Playing;
                state.has_recent_save = true;
                return state;
            }
        }
        let mut state = GameState::new(Difficulty::Easy);
        state.screen = Screen::LevelSelector;
        state.has_recent_save = false;
        state.selector_selection = DifficultyOption::Easy;
        state
    }
}

} // verus!
