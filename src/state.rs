//! Game state around the engine: cells with pencil-mark candidates, the
//! selection, input modes, and the editing, undo/redo and validation rules.
use vstd::prelude::*;

use crate::history::{pushed_actions, ActionHistory, GameAction};
use crate::puzzle::{generate_puzzle, get_solution};
use crate::rules::{
    consistent, empty_cells, fills, first_filling, full, grid_digits, in_grid, removal_target,
    solution_count_capped, solvable, uniquely_solvable, value_at, all_filled_needed,
};

verus! {

#[verifier::external_type_specification]
#[verifier::external_body]
pub struct ExInstant(std::time::Instant);

/// Relies on `std::time::Instant::now`: a reading of the monotonic clock, of
/// which nothing is assumed.
pub assume_specification[ std::time::Instant::now ]() -> std::time::Instant;

/// Relies on `Instant`'s `Clone`: `Instant` is `Copy`, so a clone is the same reading.
pub assume_specification[ <std::time::Instant as Clone>::clone ](i: &std::time::Instant) -> (r:
    std::time::Instant)
    ensures
        r == *i,
;

#[derive(Debug, Clone, Copy, PartialEq, Eq, Structural)]
pub enum InputMode {
    Normal,
    Notes,
}

/// How hard a generated puzzle is: the number of cells the reducer aims to clear.
#[derive(Debug, Clone, Copy, PartialEq, Eq, Structural)]
pub enum Difficulty {
    Easy,
    Medium,
    Hard,
    Expert,
}

/// One square of the board.
#[derive(Debug, Clone, Copy, PartialEq, Eq, Structural)]
pub struct Cell {
    pub given: bool,
    pub value: Option<u8>,
    pub candidates_mask: u16,
    pub wrong: bool,
}

pub type Board = [[Cell; 9]; 9];

#[derive(Debug, Clone, Copy, PartialEq, Eq, Structural)]
pub enum Screen {
    LevelSelector,
    Playing,
    Win,
}

#[derive(Debug, Clone, Copy, PartialEq, Eq, Structural)]
pub enum DifficultyOption {
    Resume,
    Easy,
    Medium,
    Hard,
    Expert,
}

/// How large the board is drawn.
#[derive(Debug, Clone, Copy, PartialEq, Eq, Structural)]
pub enum UiZoom {
    Small,
    Medium,
    Large,
    XLarge,
}

impl Default for UiZoom {
    fn default() -> (r: Self)
        ensures
            r == UiZoom::Large,
    {
        UiZoom::Large
    }
}

impl UiZoom {
    pub open spec fn cell_w_spec(self) -> nat {
        match self {
            UiZoom::Small => 1,
            UiZoom::Medium => 2,
            UiZoom::Large => 3,
            UiZoom::XLarge => 5,
        }
    }

    pub open spec fn cell_h_spec(self) -> nat {
        match self {
            UiZoom::Small => 1,
            UiZoom::Medium => 1,
            UiZoom::Large => 2,
            UiZoom::XLarge => 3,
        }
    }

    /// One step larger, staying at the largest.
    pub fn zoom_in(self) -> (r: Self)
        ensures
            r == match self {
                UiZoom::Small => UiZoom::Medium,
                UiZoom::Medium => UiZoom::Large,
                UiZoom::Large => UiZoom::XLarge,
                UiZoom::XLarge => UiZoom::XLarge,
            },
    {
        match self {
            UiZoom::Small => UiZoom::Medium,
            UiZoom::Medium => UiZoom::Large,
            UiZoom::Large => UiZoom::XLarge,
            UiZoom::XLarge => UiZoom::XLarge,
        }
    }

    /// One step smaller, staying at the smallest.
    pub fn zoom_out(self) -> (r: Self)
        ensures
            r == match self {
                UiZoom::Small => UiZoom::Small,
                UiZoom::Medium => UiZoom::Small,
                UiZoom::Large => UiZoom::Medium,
                UiZoom::XLarge => UiZoom::Large,
            },
    {
        match self {
            UiZoom::Small => UiZoom::Small,
            UiZoom::Medium => UiZoom::Small,
            UiZoom::Large => UiZoom::Medium,
            UiZoom::XLarge => UiZoom::Large,
        }
    }

    /// Width of a cell in terminal columns.
    pub fn cell_w(self) -> (r: usize)
        ensures
            r == self.cell_w_spec(),
    {
        match self {
            UiZoom::Small => 1,
            UiZoom::Medium => 2,
            UiZoom::Large => 3,
            UiZoom::XLarge => 5,
        }
    }

    /// Height of a cell in terminal rows.
    pub fn cell_h(self) -> (r: usize)
        ensures
            r == self.cell_h_spec(),
    {
        match self {
            UiZoom::Small => 1,
            UiZoom::Medium => 1,
            UiZoom::Large => 2,
            UiZoom::XLarge => 3,
        }
    }
}

#[derive(Debug, Clone, Copy, PartialEq, Eq, Structural)]
pub enum LastAction {
    Undo,
    Redo,
    Hint,
    Clear,
    Save,
    Load,
}

#[derive(Debug, Clone, Copy, PartialEq, Eq, Structural)]
pub enum MoveDir {
    Left,
    Right,
    Up,
    Down,
}

#[derive(Debug, Clone, Copy, PartialEq, Eq, Structural)]
pub struct Selection {
    pub row: usize,
    pub col: usize,
}

/// The bit of a candidate mask that stands for digit `d` (1-9).
pub open spec fn candidate_bit(d: u8) -> u16 {
    1u16 << ((d - 1) as u16)
}

/// `mask` with the bit of `d` flipped when `d` is a digit 1-9, else `mask`.
pub open spec fn toggled(mask: u16, d: u8) -> u16 {
    if 1 <= d <= 9 {
        mask ^ candidate_bit(d)
    } else {
        mask
    }
}

/// The digits among 1..=n whose bit is set in `mask`, ascending.
pub open spec fn candidate_digits(mask: u16, n: nat) -> Seq<u8>
    decreases n,
{
    if n == 0 {
        Seq::empty()
    } else {
        let rest = candidate_digits(mask, (n - 1) as nat);
        if mask & candidate_bit(n as u8) != 0 {
            rest.push(n as u8)
        } else {
            rest
        }
    }
}



impl Cell {
    /// A blank cell: not given, no value, no candidates, not marked wrong.
    pub fn empty() -> (r: Self)
        ensures
            !r.given,
            r.value is None,
            r.candidates_mask == 0,
            !r.wrong,
    {
        Cell { given: false, value: None, candidates_mask: 0, wrong: false }
    }

    /// A given cell holding `value`.
    pub fn given(value: u8) -> (r: Self)
        ensures
            r.given,
            r.value == Some(value),
            r.candidates_mask == 0,
            !r.wrong,
    {
        Cell { given: true, value: Some(value), candidates_mask: 0, wrong: false }
    }

    /// Flips pencil mark `digit`; anything outside 1-9 is ignored.
    pub fn toggle_candidate(&mut self, digit: u8)
        ensures
            *final(self) == (Cell { candidates_mask: toggled(old(self).candidates_mask, digit), ..*old(self) }),
    {
        if digit < 1 || digit > 9 {
            return;
        }
        let bit: u16 = 1u16 << ((digit - 1) as u16);
        self.candidates_mask = self.candidates_mask ^ bit;
    }

    pub fn clear_candidates(&mut self)
        ensures
            *final(self) == (Cell { candidates_mask: 0, ..*old(self) }),
    {
        self.candidates_mask = 0;
    }

    /// The pencil-marked digits, ascending.
    pub fn candidates(&self) -> (r: Vec<u8>)
        ensures
            r@ == candidate_digits(self.candidates_mask, 9),
    {
        let mut out: Vec<u8> = Vec::new();
        let mut d: u8 = 1;
        while d <= 9
            invariant
                1 <= d <= 10,
                out@ == candidate_digits(self.candidates_mask, (d - 1) as nat),
            decreases 10 - d,
        {
            if self.candidates_mask & (1u16 << ((d - 1) as u16)) != 0 {
                out.push(d);
            }
            d += 1;
        }
        out
    }
}


/// The coordinates an action refers to lie on the board.
pub open spec fn action_in_grid(a: GameAction) -> bool {
    match a {
        GameAction::SetCell { row, col, .. } => row < 9 && col < 9,
        GameAction::ToggleCandidate { row, col, .. } => row < 9 && col < 9,
        GameAction::ClearCandidates { row, col, .. } => row < 9 && col < 9,
        GameAction::NewGame => true,
    }
}

pub open spec fn actions_in_grid(s: Seq<GameAction>) -> bool {
    forall|i: int| 0 <= i < s.len() ==> action_in_grid(#[trigger] s[i])
}

proof fn lemma_pushed_in_grid(s: Seq<GameAction>, a: GameAction)
    requires
        actions_in_grid(s),
        action_in_grid(a),
    ensures
        actions_in_grid(pushed_actions(s, a)),
{
    let p = pushed_actions(s, a);
    assert forall|i: int| 0 <= i < p.len() implies action_in_grid(#[trigger] p[i]) by {
        if s.len() >= 50 {
            if i < p.len() - 1 {
                assert(p[i] == s[i + 1]);
            }
        } else {
            if i < p.len() - 1 {
                assert(p[i] == s[i]);
            }
        }
    }
}

/// The cell of an action, or the top-left cell for an action on no cell.
pub open spec fn action_cell(a: GameAction) -> (int, int) {
    match a {
        GameAction::SetCell { row, col, .. } => (row as int, col as int),
        GameAction::ToggleCandidate { row, col, .. } => (row as int, col as int),
        GameAction::ClearCandidates { row, col, .. } => (row as int, col as int),
        GameAction::NewGame => (0, 0),
    }
}

/// A cell after undoing `a` on it; given cells never change.
pub open spec fn undo_cell(c: Cell, a: GameAction) -> Cell {
    if c.given {
        c
    } else {
        match a {
            GameAction::SetCell { old_value, .. } => Cell { value: old_value, wrong: false, ..c },
            GameAction::ToggleCandidate { digit, .. } => Cell {
                candidates_mask: toggled(c.candidates_mask, digit),
                ..c
            },
            GameAction::ClearCandidates { old_mask, .. } => Cell { candidates_mask: old_mask, ..c },
            GameAction::NewGame => c,
        }
    }
}

/// A cell after redoing `a` on it; given cells never change.
pub open spec fn redo_cell(c: Cell, a: GameAction) -> Cell {
    if c.given {
        c
    } else {
        match a {
            GameAction::SetCell { new_value, .. } => Cell {
                value: new_value,
                candidates_mask: if new_value is Some {
                    0
                } else {
                    c.candidates_mask
                },
                wrong: false,
                ..c
            },
            GameAction::ToggleCandidate { digit, .. } => Cell {
                value: None,
                candidates_mask: toggled(c.candidates_mask, digit),
                ..c
            },
            GameAction::ClearCandidates { .. } => Cell { candidates_mask: 0, ..c },
            GameAction::NewGame => c,
        }
    }
}

/// A cell after the player types `digit` into it in `mode`.
pub open spec fn entered(c: Cell, mode: InputMode, digit: u8) -> Cell {
    match mode {
        InputMode::Normal => Cell { value: Some(digit), candidates_mask: 0, wrong: false, ..c },
        InputMode::Notes => Cell {
            value: None,
            candidates_mask: toggled(c.candidates_mask, digit),
            wrong: false,
            ..c
        },
    }
}

/// The selector entry that starts a game of `d`.
pub open spec fn option_for(d: Difficulty) -> DifficultyOption {
    match d {
        Difficulty::Easy => DifficultyOption::Easy,
        Difficulty::Medium => DifficultyOption::Medium,
        Difficulty::Hard => DifficultyOption::Hard,
        Difficulty::Expert => DifficultyOption::Expert,
    }
}

/// A freshly generated puzzle of difficulty `d`: consistent, with exactly one
/// solution, given exactly where filled, no pencil marks or wrong marks, and
/// at most the difficulty's target of empty cells; unless that target was
/// reached, every filled cell is needed for the solution to stay unique.
pub open spec fn is_puzzle(b: Board, d: Difficulty) -> bool {
    &&& consistent(b)
    &&& uniquely_solvable(b)
    &&& forall|i: int, j: int|
        in_grid(i, j) ==> (#[trigger] b[i][j]).given == (value_at(b, i, j) is Some)
            && b[i][j].candidates_mask == 0 && !b[i][j].wrong
    &&& empty_cells(b).finite()
    &&& empty_cells(b).len() <= removal_target(d)
    &&& empty_cells(b).len() == removal_target(d) || all_filled_needed(b)
}

/// A generated puzzle has exactly one solution, so counting its solutions gives one.
pub proof fn lemma_generated_puzzle_has_one_solution(b: Board, d: Difficulty)
    requires
        is_puzzle(b, d),
    ensures
        solution_count_capped(b) == 1,
{
}

/// Everything a session is made of.
#[derive(Debug, Clone)]
pub struct GameState {
    pub difficulty: Difficulty,
    pub screen: Screen,
    pub game_completed: bool,
    pub last_played_at: std::time::Instant,
    pub has_recent_save: bool,
    pub selector_selection: DifficultyOption,
    pub started_at: std::time::Instant,
    pub mistakes: u8,
    pub mistakes_max: u8,
    pub max_mistakes_warning: bool,
    pub hints_left: u8,
    pub input_mode: InputMode,
    pub ui_zoom: UiZoom,
    pub show_givens: bool,
    pub help_visible: bool,
    pub selection: Selection,
    pub grid: Board,
    pub last_action: Option<LastAction>,
    pub should_quit: bool,
    pub history: ActionHistory,
}

/// `b` differs from `a` at most in the grid cell `(row, col)` and the history.
pub open spec fn others_kept(a: GameState, b: GameState, row: int, col: int) -> bool {
    &&& b == (GameState { grid: b.grid, history: b.history, ..a })
    &&& forall|r: int, c: int|
        in_grid(r, c) && !(r == row && c == col) ==> #[trigger] b.grid[r][c] == a.grid[r][c]
}

/// The state of a game just started at difficulty `d`, apart from the screen
/// and the display preferences.
pub open spec fn fresh_game(s: GameState, d: Difficulty) -> bool {
    &&& s.difficulty == d
    &&& !s.game_completed
    &&& !s.has_recent_save
    &&& s.selector_selection == option_for(d)
    &&& s.mistakes == 0
    &&& s.mistakes_max == 3
    &&& !s.max_mistakes_warning
    &&& s.hints_left == 2
    &&& s.input_mode == InputMode::Normal
    &&& !s.help_visible
    &&& s.selection == Selection { row: 3, col: 5 }
    &&& s.last_action is None
    &&& !s.should_quit
    &&& s.history.past_actions() == Seq::<GameAction>::empty()
    &&& s.history.future_actions() == Seq::<GameAction>::empty()
    &&& is_puzzle(s.grid, d)
}

/// What a validation pass leaves: when the grid can be completed every cell
/// that disagrees with the first solution is marked wrong and every other cell
/// is cleared of the mark; otherwise nothing changes.
pub open spec fn validated(a: GameState, b: GameState) -> bool {
    &&& !solvable(a.grid) ==> b == a
    &&& solvable(a.grid) ==> {
        &&& b == (GameState { grid: b.grid, ..a })
        &&& forall|r: int, c: int|
            in_grid(r, c) ==> #[trigger] b.grid[r][c] == (Cell { wrong: false, ..a.grid[r][c] })
    }
}

/// Writes `cell` at `(row, col)`, leaving every other cell as it was.
fn set_cell(grid: &mut Board, row: usize, col: usize, cell: Cell)
    requires
        row < 9,
        col < 9,
    ensures
        final(grid)[row as int][col as int] == cell,
        forall|r: int, c: int|
            in_grid(r, c) && !(r == row && c == col) ==> #[trigger] final(grid)[r][c] == old(grid)[r][c],
{
    grid[row][col] = cell;
}

/// The cell an action refers to.
fn action_position(a: GameAction) -> (r: (usize, usize))
    ensures
        r.0 as int == action_cell(a).0,
        r.1 as int == action_cell(a).1,
{
    match a {
        GameAction::SetCell { row, col, .. } => (row, col),
        GameAction::ToggleCandidate { row, col, .. } => (row, col),
        GameAction::ClearCandidates { row, col, .. } => (row, col),
        GameAction::NewGame => (0, 0),
    }
}

/// `cell` with action `a` undone.
fn undone(cell: Cell, a: GameAction) -> (r: Cell)
    ensures
        r == undo_cell(cell, a),
{
    let mut c = cell;
    if c.given {
        return c;
    }
    match a {
        GameAction::SetCell { old_value, .. } => {
            c.value = old_value;
            c.wrong = false;
        },
        GameAction::ToggleCandidate { digit, .. } => {
            c.toggle_candidate(digit);
        },
        GameAction::ClearCandidates { old_mask, .. } => {
            c.candidates_mask = old_mask;
        },
        GameAction::NewGame => {},
    }
    c
}

/// `cell` with action `a` redone.
fn redone(cell: Cell, a: GameAction) -> (r: Cell)
    ensures
        r == redo_cell(cell, a),
{
    let mut c = cell;
    if c.given {
        return c;
    }
    match a {
        GameAction::SetCell { new_value, .. } => {
            c.value = new_value;
            if new_value.is_some() {
                c.clear_candidates();
            }
            c.wrong = false;
        },
        GameAction::ToggleCandidate { digit, .. } => {
            c.value = None;
            c.toggle_candidate(digit);
        },
        GameAction::ClearCandidates { .. } => {
            c.clear_candidates();
        },
        GameAction::NewGame => {},
    }
    c
}

proof fn lemma_in_grid_drop_push(s: Seq<GameAction>, t: Seq<GameAction>)
    requires
        actions_in_grid(s),
        actions_in_grid(t),
        s.len() > 0,
    ensures
        actions_in_grid(s.drop_last()),
        action_in_grid(s.last()),
        actions_in_grid(t.push(s.last())),
{
    assert(action_in_grid(s[s.len() - 1]));
    assert forall|i: int| 0 <= i < s.drop_last().len() implies action_in_grid(
        #[trigger] s.drop_last()[i],
    ) by {
        assert(s.drop_last()[i] == s[i]);
    }
    assert forall|i: int| 0 <= i < t.push(s.last()).len() implies action_in_grid(
        #[trigger] t.push(s.last())[i],
    ) by {
        if i < t.len() {
            assert(t.push(s.last())[i] == t[i]);
        }
    }
}

/// What typing `digit` does to state `a`, giving `b` (see `GameState::enter_digit`).
pub open spec fn digit_entered(a: GameState, b: GameState, digit: u8) -> bool {
    let row = a.selection.row as int;
    let col = a.selection.col as int;
    let cell = a.grid[row][col];
    if !(1 <= digit <= 9) || cell.given {
        b == a
    } else {
        let action = match a.input_mode {
            InputMode::Normal => GameAction::SetCell {
                row: row as usize,
                col: col as usize,
                old_value: cell.value,
                new_value: Some(digit),
            },
            InputMode::Notes => GameAction::ToggleCandidate {
                row: row as usize,
                col: col as usize,
                digit,
            },
        };
        &&& b.grid[row][col] == entered(cell, a.input_mode, digit)
        &&& others_kept(a, b, row, col)
        &&& if a.input_mode == InputMode::Normal && cell.value == Some(digit) {
            b.history == a.history
        } else {
            &&& b.history.past_actions() == pushed_actions(
                a.history.past_actions(),
                action,
            )
            &&& b.history.future_actions() == Seq::<GameAction>::empty()
        }
    }
}

/// What clearing the selected cell does to state `a`, giving `b` (see `GameState::clear_selected`).
pub open spec fn selection_cleared(a: GameState, b: GameState) -> bool {
    let row = a.selection.row as int;
    let col = a.selection.col as int;
    let cell = a.grid[row][col];
    let past1 = if cell.candidates_mask != 0 {
        pushed_actions(
            a.history.past_actions(),
            GameAction::ClearCandidates {
                row: row as usize,
                col: col as usize,
                old_mask: cell.candidates_mask,
            },
        )
    } else {
        a.history.past_actions()
    };
    let past2 = if cell.value is Some {
        pushed_actions(
            past1,
            GameAction::SetCell {
                row: row as usize,
                col: col as usize,
                old_value: cell.value,
                new_value: None,
            },
        )
    } else {
        past1
    };
    if cell.given {
        b == a
    } else {
        &&& b.grid[row][col] == (Cell {
            value: None,
            candidates_mask: 0,
            wrong: false,
            ..cell
        })
        &&& others_kept(a, b, row, col)
        &&& if cell.candidates_mask == 0 && cell.value is None {
            b.history == a.history
        } else {
            &&& b.history.past_actions() == past2
            &&& b.history.future_actions() == Seq::<GameAction>::empty()
        }
    }
}

/// The selection after one step in `dir`, stopping at the edges.
pub open spec fn moved(sel: Selection, dir: MoveDir) -> Selection {
    match dir {
        MoveDir::Left => Selection { col: if sel.col > 0 { (sel.col - 1) as usize } else { 0 }, ..sel },
        MoveDir::Right => Selection { col: if sel.col < 8 { (sel.col + 1) as usize } else { 8 }, ..sel },
        MoveDir::Up => Selection { row: if sel.row > 0 { (sel.row - 1) as usize } else { 0 }, ..sel },
        MoveDir::Down => Selection { row: if sel.row < 8 { (sel.row + 1) as usize } else { 8 }, ..sel },
    }
}

impl GameState {
    /// The selection lies on the board and the history names only board cells.
    pub open spec fn wf(&self) -> bool {
        &&& self.selection.row < 9
        &&& self.selection.col < 9
        &&& actions_in_grid(self.history.past_actions())
        &&& actions_in_grid(self.history.future_actions())
    }

    /// A new session at the level selector with a fresh puzzle of `difficulty`.
    pub fn new(difficulty: Difficulty) -> (r: Self)
        ensures
            fresh_game(r, difficulty),
            r.screen == Screen::LevelSelector,
            r.ui_zoom == UiZoom::Large,
            r.show_givens,
            r.wf(),
    {
        let grid = generate_puzzle(difficulty);
        GameState {
            difficulty,
            screen: Screen::LevelSelector,
            game_completed: false,
            last_played_at: std::time::Instant::now(),
            has_recent_save: false,
            selector_selection: match difficulty {
                Difficulty::Easy => DifficultyOption::Easy,
                Difficulty::Medium => DifficultyOption::Medium,
                Difficulty::Hard => DifficultyOption::Hard,
                Difficulty::Expert => DifficultyOption::Expert,
            },
            started_at: std::time::Instant::now(),
            mistakes: 0,
            mistakes_max: 3,
            max_mistakes_warning: false,
            hints_left: 2,
            input_mode: InputMode::Normal,
            ui_zoom: UiZoom::default(),
            show_givens: true,
            help_visible: false,
            selection: Selection { row: 3, col: 5 },
            grid,
            last_action: None,
            should_quit: false,
            history: ActionHistory::new(),
        }
    }

    /// Replaces the session with a fresh game of `difficulty` on the playing
    /// screen, keeping the display preferences.
    pub fn new_game(&mut self, difficulty: Difficulty)
        ensures
            fresh_game(*final(self), difficulty),
            final(self).screen == Screen::Playing,
            final(self).ui_zoom == old(self).ui_zoom,
            final(self).show_givens == old(self).show_givens,
            final(self).wf(),
    {
        let ui_zoom = self.ui_zoom;
        let show_givens = self.show_givens;
        let mut next = GameState::new(difficulty);
        next.ui_zoom = ui_zoom;
        next.show_givens = show_givens;
        next.screen = Screen::Playing;
        *self = next;
    }

    pub fn selected_cell(&self) -> (r: &Cell)
        requires
            self.selection.row < 9,
            self.selection.col < 9,
        ensures
            *r == self.grid[self.selection.row as int][self.selection.col as int],
    {
        &self.grid[self.selection.row][self.selection.col]
    }

    pub fn selected_cell_mut(&mut self) -> (r: &mut Cell)
        requires
            old(self).selection.row < 9,
            old(self).selection.col < 9,
        ensures
            *r == old(self).grid[old(self).selection.row as int][old(self).selection.col as int],
            final(self).grid[old(self).selection.row as int][old(self).selection.col as int]
                == *final(r),
            others_kept(
                *old(self),
                *final(self),
                old(self).selection.row as int,
                old(self).selection.col as int,
            ),
            final(self).history == old(self).history,
    {
        &mut self.grid[self.selection.row][self.selection.col]
    }

    /// Types `digit` (1-9) into the selected cell unless it is given: in normal
    /// mode it becomes the value, in notes mode it toggles a pencil mark and
    /// clears the value. The change is recorded for undo; retyping the current
    /// value in normal mode records nothing.
    pub fn enter_digit(&mut self, digit: u8)
        requires
            old(self).wf(),
        ensures
            final(self).wf(),
            digit_entered(*old(self), *final(self), digit),
    {
        if digit < 1 || digit > 9 {
            return;
        }
        let mode = self.input_mode;
        let row = self.selection.row;
        let col = self.selection.col;
        if self.grid[row][col].given {
            return;
        }
        let old_value = self.grid[row][col].value;
        match mode {
            InputMode::Normal => {
                let unchanged = match old_value {
                    Some(v) => v == digit,
                    None => false,
                };
                if !unchanged {
                    self.history.push(
                        GameAction::SetCell { row, col, old_value, new_value: Some(digit) },
                    );
                    proof {
                        lemma_pushed_in_grid(
                            old(self).history.past_actions(),
                            GameAction::SetCell { row, col, old_value, new_value: Some(digit) },
                        );
                    }
                }
                let mut cell = self.grid[row][col];
                cell.value = Some(digit);
                cell.clear_candidates();
                cell.wrong = false;
                self.grid[row][col] = cell;
            },
            InputMode::Notes => {
                let mut cell = self.grid[row][col];
                cell.value = None;
                cell.toggle_candidate(digit);
                cell.wrong = false;
                self.grid[row][col] = cell;
                self.history.push(GameAction::ToggleCandidate { row, col, digit });
                proof {
                    lemma_pushed_in_grid(
                        old(self).history.past_actions(),
                        GameAction::ToggleCandidate { row, col, digit },
                    );
                }
            },
        }
    }

    /// Empties the selected cell unless it is given: value, pencil marks and
    /// wrong mark go. Clearing marks and clearing a value are each recorded
    /// for undo when there was something to clear.
    pub fn clear_selected(&mut self)
        requires
            old(self).wf(),
        ensures
            final(self).wf(),
            selection_cleared(*old(self), *final(self)),
    {
        let row = self.selection.row;
        let col = self.selection.col;
        if self.grid[row][col].given {
            return;
        }
        let old_value = self.grid[row][col].value;
        let old_mask = self.grid[row][col].candidates_mask;
        if old_mask != 0 {
            self.history.push(GameAction::ClearCandidates { row, col, old_mask });
            proof {
                lemma_pushed_in_grid(
                    old(self).history.past_actions(),
                    GameAction::ClearCandidates { row, col, old_mask },
                );
            }
        }
        let ghost mid = self.history.past_actions();
        if old_value.is_some() {
            self.history.push(GameAction::SetCell { row, col, old_value, new_value: None });
            proof {
                lemma_pushed_in_grid(
                    mid,
                    GameAction::SetCell { row, col, old_value, new_value: None },
                );
            }
        }
        let mut cell = self.grid[row][col];
        cell.value = None;
        cell.clear_candidates();
        cell.wrong = false;
        set_cell(&mut self.grid, row, col, cell);
    }

    /// Undoes the most recent recorded action on its cell (given cells are
    /// left alone) and makes it redoable.
    pub fn undo(&mut self)
        requires
            old(self).wf(),
        ensures
            final(self).wf(),
            old(self).history.past_actions().len() == 0 ==> {
                &&& final(self).history.past_actions() == old(self).history.past_actions()
                &&& final(self).history.future_actions() == old(self).history.future_actions()
                &&& final(self).grid == old(self).grid
                &&& others_kept(*old(self), *final(self), 0, 0)
            },
            old(self).history.past_actions().len() > 0 ==> ({
                let a = old(self).history.past_actions().last();
                let (row, col) = action_cell(a);
                &&& final(self).history.past_actions() == old(self).history.past_actions().drop_last()
                &&& final(self).history.future_actions() == old(self).history.future_actions().push(a)
                &&& final(self).grid[row][col] == undo_cell(old(self).grid[row][col], a)
                &&& others_kept(*old(self), *final(self), row, col)
            }),
    {
        let ghost before = self.history.past_actions();
        if let Some(action) = self.history.undo() {
            proof {
                lemma_in_grid_drop_push(before, old(self).history.future_actions());
            }
            let (row, col) = action_position(action);
            let cell = undone(self.grid[row][col], action);
            set_cell(&mut self.grid, row, col, cell);
        }
    }

    /// Redoes the next undone action on its cell (given cells are left alone)
    /// and puts it back on the history.
    pub fn redo(&mut self)
        requires
            old(self).wf(),
        ensures
            final(self).wf(),
            old(self).history.future_actions().len() == 0 ==> {
                &&& final(self).history.past_actions() == old(self).history.past_actions()
                &&& final(self).history.future_actions() == old(self).history.future_actions()
                &&& final(self).grid == old(self).grid
                &&& others_kept(*old(self), *final(self), 0, 0)
            },
            old(self).history.future_actions().len() > 0 ==> ({
                let a = old(self).history.future_actions().last();
                let (row, col) = action_cell(a);
                &&& final(self).history.future_actions() == old(self).history.future_actions().drop_last()
                &&& final(self).history.past_actions() == old(self).history.past_actions().push(a)
                &&& final(self).grid[row][col] == redo_cell(old(self).grid[row][col], a)
                &&& others_kept(*old(self), *final(self), row, col)
            }),
    {
        let ghost before = self.history.future_actions();
        if let Some(action) = self.history.redo() {
            proof {
                lemma_in_grid_drop_push(before, old(self).history.past_actions());
            }
            let (row, col) = action_position(action);
            let cell = redone(self.grid[row][col], action);
            set_cell(&mut self.grid, row, col, cell);
        }
    }

    /// Checks the board against its first solution. A cell would be marked wrong,
    /// and counted as a mistake up to the maximum, when its value differs from
    /// that solution; but the solution keeps every filled cell fixed, given or
    /// not, so no cell ever differs. In effect, when the board can be completed
    /// every wrong mark is cleared and the mistakes stay as they were; when it
    /// cannot, nothing happens, even if a wrong entry is what blocks it.
    pub fn validate_and_count_mistakes(&mut self)
        ensures
            validated(*old(self), *final(self)),
    {
        let solution = get_solution(&self.grid);
        if let Some(solution) = solution {
            let ghost s0 = *self;
            let ghost g0 = self.grid;
            proof {
                assert(first_filling(grid_digits(solution), g0));
            }
            let mut row: usize = 0;
            while row < 9
                invariant
                    row <= 9,
                    s0 == *old(self),
                    g0 == s0.grid,
                    fills(grid_digits(solution), g0),
                    *self == (GameState { grid: self.grid, ..s0 }),
                    forall|r: int, c: int|
                        in_grid(r, c) ==> #[trigger] self.grid[r][c] == if r < row {
                            Cell { wrong: false, ..g0[r][c] }
                        } else {
                            g0[r][c]
                        },
                decreases 9 - row,
            {
                let mut col: usize = 0;
                while col < 9
                    invariant
                        row < 9,
                        col <= 9,
                        s0 == *old(self),
                        g0 == s0.grid,
                        fills(grid_digits(solution), g0),
                        *self == (GameState { grid: self.grid, ..s0 }),
                        forall|r: int, c: int|
                            in_grid(r, c) ==> #[trigger] self.grid[r][c] == if r < row || (r == row
                                && c < col) {
                                Cell { wrong: false, ..g0[r][c] }
                            } else {
                                g0[r][c]
                            },
                    decreases 9 - col,
                {
                    let mut cell = self.grid[row][col];
                    if cell.given {
                        cell.wrong = false;
                    } else {
                        let is_wrong = match cell.value {
                            Some(v) => v != solution[row][col],
                            None => false,
                        };
                        proof {
                            if cell.value is Some {
                                assert(value_at(g0, row as int, col as int) is Some);
                            }
                        }
                        if is_wrong && !cell.wrong {
                            let m = self.mistakes.saturating_add(1);
                            self.mistakes = if m < self.mistakes_max {
                                m
                            } else {
                                self.mistakes_max
                            };
                            if self.mistakes >= self.mistakes_max {
                                self.max_mistakes_warning = true;
                            }
                        }
                        cell.wrong = is_wrong;
                    }
                    set_cell(&mut self.grid, row, col, cell);
                    col += 1;
                }
                row += 1;
            }
        }
    }

    /// The game is won when every cell holds a value and, after a validation
    /// pass, no cell is marked wrong. A board with an empty cell is left alone.
    pub fn check_win(&mut self) -> (r: bool)
        ensures
            !full(old(self).grid) ==> !r && *final(self) == *old(self),
            full(old(self).grid) ==> validated(*old(self), *final(self)) && r == (forall|i: int, j: int|
                in_grid(i, j) ==> !(#[trigger] final(self).grid[i][j]).wrong),
    {
        let mut row: usize = 0;
        while row < 9
            invariant
                row <= 9,
                *self == *old(self),
                forall|r: int, c: int| in_grid(r, c) && r < row ==> (#[trigger] value_at(self.grid, r, c)) is Some,
            decreases 9 - row,
        {
            let mut col: usize = 0;
            while col < 9
                invariant
                    row < 9,
                    col <= 9,
                    *self == *old(self),
                    forall|r: int, c: int|
                        in_grid(r, c) && (r < row || (r == row && c < col)) ==> (#[trigger] value_at(
                            self.grid,
                            r,
                            c,
                        )) is Some,
                decreases 9 - col,
            {
                if self.grid[row][col].value.is_none() {
                    assert(value_at(self.grid, row as int, col as int) is None);
                    return false;
                }
                col += 1;
            }
            row += 1;
        }
        assert(full(old(self).grid));
        self.validate_and_count_mistakes();
        let ghost after = *self;
        let mut row: usize = 0;
        while row < 9
            invariant
                row <= 9,
                *self == after,
                full(old(self).grid),
                validated(*old(self), after),
                forall|r: int, c: int| in_grid(r, c) && r < row ==> !(#[trigger] self.grid[r][c]).wrong,
            decreases 9 - row,
        {
            let mut col: usize = 0;
            while col < 9
                invariant
                    row < 9,
                    col <= 9,
                    *self == after,
                    full(old(self).grid),
                    validated(*old(self), after),
                    forall|r: int, c: int|
                        in_grid(r, c) && (r < row || (r == row && c < col)) ==> !(#[trigger] self.grid[r][c]).wrong,
                decreases 9 - col,
            {
                if self.grid[row][col].wrong {
                    return false;
                }
                col += 1;
            }
            row += 1;
        }
        true
    }

    /// Moves the selection one cell, stopping at the edges.
    pub fn move_selection(&mut self, dir: MoveDir)
        requires
            old(self).wf(),
        ensures
            *final(self) == (GameState { selection: moved(old(self).selection, dir), ..*old(self) }),
            final(self).wf(),
    {
        match dir {
            MoveDir::Left => self.selection.col = self.selection.col.saturating_sub(1),
            MoveDir::Right => self.selection.col = if self.selection.col + 1 < 8 {
                self.selection.col + 1
            } else {
                8
            },
            MoveDir::Up => self.selection.row = self.selection.row.saturating_sub(1),
            MoveDir::Down => self.selection.row = if self.selection.row + 1 < 8 {
                self.selection.row + 1
            } else {
                8
            },
        }
    }
}

} // verus!
