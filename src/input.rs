//! Player commands and how each one changes the game state. Work that reaches
//! outside the state (saving, loading, the leaderboard) is handed back to the
//! caller as an `Effect` to perform.
use vstd::prelude::*;

use crate::puzzle::{apply_hint, hint_applied};
use crate::state::{
    digit_entered, fresh_game, moved, selection_cleared, validated, Difficulty, DifficultyOption,
    GameState, InputMode, LastAction, MoveDir, Screen,
};
use crate::rules::{full, in_grid};

verus! {

#[derive(Debug, Clone, Copy, PartialEq, Eq, Structural)]
pub enum Command {
    Move(MoveDir),
    MoveSelectorUp,
    MoveSelectorDown,
    Digit(u8),
    ToggleNotes,
    NewGame,
    ToggleGivens,
    ToggleHelp,
    ZoomIn,
    ZoomOut,
    Validate,
    Action(LastAction),
    SelectDifficulty,
    Quit,
}

/// The keys the game reads, as plain values.
#[derive(Debug, Clone, Copy, PartialEq, Eq, Structural)]
pub enum KeyInput {
    Left,
    Right,
    Up,
    Down,
    Enter,
    Char(char),
    Other,
}

/// A key event: the key, whether Control was held, and whether it is a release.
#[derive(Debug, Clone, Copy, PartialEq, Eq, Structural)]
pub struct Key {
    pub code: KeyInput,
    pub control: bool,
    pub release: bool,
}

/// The command a key stands for, if any.
pub open spec fn key_command(key: Key) -> Option<Command> {
    if key.release {
        None
    } else {
        match key.code {
            KeyInput::Left => Some(Command::Move(MoveDir::Left)),
            KeyInput::Right => Some(Command::Move(MoveDir::Right)),
            KeyInput::Up => Some(Command::Move(MoveDir::Up)),
            KeyInput::Down => Some(Command::Move(MoveDir::Down)),
            KeyInput::Enter => Some(Command::SelectDifficulty),
            KeyInput::Other => None,
            KeyInput::Char(c) => if c == 'H' {
                Some(Command::Move(MoveDir::Left))
            } else if c == 'L' {
                Some(Command::Move(MoveDir::Right))
            } else if c == 'K' {
                Some(Command::Move(MoveDir::Up))
            } else if c == 'J' {
                Some(Command::Move(MoveDir::Down))
            } else if c == 'P' {
                Some(Command::MoveSelectorUp)
            } else if c == 'N' {
                Some(Command::MoveSelectorDown)
            } else if c == 'n' {
                if key.control {
                    Some(Command::NewGame)
                } else {
                    Some(Command::ToggleNotes)
                }
            } else if c == 'g' {
                Some(Command::ToggleGivens)
            } else if c == '?' {
                Some(Command::ToggleHelp)
            } else if c == '+' {
                Some(Command::ZoomIn)
            } else if c == '-' {
                Some(Command::ZoomOut)
            } else if c == 'v' {
                Some(Command::Validate)
            } else if c == 'u' {
                Some(Command::Action(LastAction::Undo))
            } else if c == 'r' {
                Some(Command::Action(LastAction::Redo))
            } else if c == 'h' {
                if key.control {
                    None
                } else {
                    Some(Command::Action(LastAction::Hint))
                }
            } else if c == 'c' {
                Some(Command::Action(LastAction::Clear))
            } else if c == 's' {
                Some(Command::Action(LastAction::Save))
            } else if c == 'o' {
                Some(Command::Action(LastAction::Load))
            } else if c == 'q' {
                Some(Command::Quit)
            } else if '1' <= c <= '9' {
                Some(Command::Digit((c as u32 - '0' as u32) as u8))
            } else {
                None
            }
        }
    }
}

/// Maps a key to its command: arrows and H/J/K/L move, P/N move the level
/// selector, Enter selects, 1-9 enter digits, and single letters toggle modes
/// and trigger actions. Releases and other keys map to nothing.
pub fn command_from_key(key: Key) -> (r: Option<Command>)
    ensures
        r == key_command(key),
{
    if key.release {
        return None;
    }
    match key.code {
        KeyInput::Left => Some(Command::Move(MoveDir::Left)),
        KeyInput::Right => Some(Command::Move(MoveDir::Right)),
        KeyInput::Up => Some(Command::Move(MoveDir::Up)),
        KeyInput::Down => Some(Command::Move(MoveDir::Down)),
        KeyInput::Enter => Some(Command::SelectDifficulty),
        KeyInput::Other => None,
        KeyInput::Char(c) => {
            if c == 'H' {
                Some(Command::Move(MoveDir::Left))
            } else if c == 'L' {
                Some(Command::Move(MoveDir::Right))
            } else if c == 'K' {
                Some(Command::Move(MoveDir::Up))
            } else if c == 'J' {
                Some(Command::Move(MoveDir::Down))
            } else if c == 'P' {
                Some(Command::MoveSelectorUp)
            } else if c == 'N' {
                Some(Command::MoveSelectorDown)
            } else if c == 'n' {
                if key.control {
                    Some(Command::NewGame)
                } else {
                    Some(Command::ToggleNotes)
                }
            } else if c == 'g' {
                Some(Command::ToggleGivens)
            } else if c == '?' {
                Some(Command::ToggleHelp)
            } else if c == '+' {
                Some(Command::ZoomIn)
            } else if c == '-' {
                Some(Command::ZoomOut)
            } else if c == 'v' {
                Some(Command::Validate)
            } else if c == 'u' {
                Some(Command::Action(LastAction::Undo))
            } else if c == 'r' {
                Some(Command::Action(LastAction::Redo))
            } else if c == 'h' {
                if key.control {
                    None
                } else {
                    Some(Command::Action(LastAction::Hint))
                }
            } else if c == 'c' {
                Some(Command::Action(LastAction::Clear))
            } else if c == 's' {
                Some(Command::Action(LastAction::Save))
            } else if c == 'o' {
                Some(Command::Action(LastAction::Load))
            } else if c == 'q' {
                Some(Command::Quit)
            } else if '1' <= c && c <= '9' {
                Some(Command::Digit((c as u32 - '0' as u32) as u8))
            } else {
                None
            }
        },
    }
}

/// Outside work a command asks the caller to carry out.
#[derive(Debug, Clone, Copy, PartialEq, Eq, Structural)]
pub enum Effect {
    /// Nothing more to do.
    Nothing,
    /// Load the saved session; if that works, it replaces the state and play resumes.
    ResumeSession,
    /// Save the session.
    SaveSession,
    /// Load the saved session; if that works, it replaces the state.
    LoadSession,
    /// The game was just won: record its time on the leaderboard.
    RecordWin,
}

/// The selector entry above `o`, wrapping from the top to the bottom.
pub open spec fn selector_up(o: DifficultyOption) -> DifficultyOption {
    match o {
        DifficultyOption::Easy => DifficultyOption::Expert,
        DifficultyOption::Medium => DifficultyOption::Easy,
        DifficultyOption::Hard => DifficultyOption::Medium,
        DifficultyOption::Expert => DifficultyOption::Hard,
        DifficultyOption::Resume => DifficultyOption::Expert,
    }
}

/// The selector entry below `o`, wrapping from the bottom to the top.
pub open spec fn selector_down(o: DifficultyOption) -> DifficultyOption {
    match o {
        DifficultyOption::Easy => DifficultyOption::Medium,
        DifficultyOption::Medium => DifficultyOption::Hard,
        DifficultyOption::Hard => DifficultyOption::Expert,
        DifficultyOption::Expert => DifficultyOption::Easy,
        DifficultyOption::Resume => DifficultyOption::Easy,
    }
}

/// After a digit was typed into `mid`: on the playing screen a full board that
/// validates with no wrong cell wins the game.
pub open spec fn after_digit(mid: GameState, b: GameState, e: Effect) -> bool {
    if mid.screen == Screen::Playing && full(mid.grid) {
        exists|v: GameState|
            #[trigger] validated(mid, v) && if forall|i: int, j: int|
                in_grid(i, j) ==> !(#[trigger] v.grid[i][j]).wrong {
                b == (GameState { game_completed: true, screen: Screen::Win, ..v }) && e
                    == Effect::RecordWin
            } else {
                b == v && e == Effect::Nothing
            }
    } else {
        b == mid && e == Effect::Nothing
    }
}

/// What typing digit `d` does to state `a`, giving `b` and effect `r`.
pub open spec fn digit_applied(a: GameState, b: GameState, d: u8, r: Effect) -> bool {
    exists|mid: GameState| #[trigger] digit_entered(a, mid, d) && mid.wf() && after_digit(mid, b, r)
}

/// What `command` does to state `a`, giving `b` and effect `r` (see `apply_command`).
pub open spec fn command_applied(a: GameState, b: GameState, command: Command, r: Effect) -> bool {
    match command {
        Command::Move(dir) => b == (GameState { selection: moved(a.selection, dir), ..a })
            && r == Effect::Nothing,
        Command::MoveSelectorUp => r == Effect::Nothing && if a.screen
            == Screen::LevelSelector {
            b == (GameState { selector_selection: selector_up(a.selector_selection), ..a })
        } else {
            b == a
        },
        Command::MoveSelectorDown => r == Effect::Nothing && if a.screen
            == Screen::LevelSelector {
            b == (GameState {
                selector_selection: selector_down(a.selector_selection),
                ..a
            })
        } else {
            b == a
        },
        Command::SelectDifficulty => if a.screen != Screen::LevelSelector {
            b == a && r == Effect::Nothing
        } else {
            match a.selector_selection {
                DifficultyOption::Resume => b == a && r == Effect::ResumeSession,
                _ => {
                    let d = match a.selector_selection {
                        DifficultyOption::Easy => Difficulty::Easy,
                        DifficultyOption::Medium => Difficulty::Medium,
                        DifficultyOption::Hard => Difficulty::Hard,
                        _ => Difficulty::Expert,
                    };
                    &&& fresh_game(b, d)
                    &&& b.screen == Screen::Playing
                    &&& b.ui_zoom == a.ui_zoom
                    &&& b.show_givens == a.show_givens
                    &&& r == Effect::Nothing
                },
            }
        },
        Command::Digit(d) => digit_applied(a, b, d, r),
        Command::ToggleNotes => r == Effect::Nothing && b == (GameState {
            input_mode: match a.input_mode {
                InputMode::Normal => InputMode::Notes,
                InputMode::Notes => InputMode::Normal,
            },
            ..a
        }),
        Command::NewGame => {
            &&& fresh_game(b, a.difficulty)
            &&& b.screen == Screen::Playing
            &&& b.ui_zoom == a.ui_zoom
            &&& b.show_givens == a.show_givens
            &&& r == Effect::Nothing
        },
        Command::ToggleGivens => r == Effect::Nothing && b == (GameState {
            show_givens: !a.show_givens,
            ..a
        }),
        Command::ToggleHelp => r == Effect::Nothing && b == (GameState {
            help_visible: !a.help_visible,
            ..a
        }),
        Command::ZoomIn => r == Effect::Nothing && b == (GameState {
            ui_zoom: match a.ui_zoom {
                crate::state::UiZoom::Small => crate::state::UiZoom::Medium,
                crate::state::UiZoom::Medium => crate::state::UiZoom::Large,
                _ => crate::state::UiZoom::XLarge,
            },
            ..a
        }),
        Command::ZoomOut => r == Effect::Nothing && b == (GameState {
            ui_zoom: match a.ui_zoom {
                crate::state::UiZoom::XLarge => crate::state::UiZoom::Large,
                crate::state::UiZoom::Large => crate::state::UiZoom::Medium,
                _ => crate::state::UiZoom::Small,
            },
            ..a
        }),
        Command::Validate => r == Effect::Nothing && validated(a, b),
        Command::Action(act) => {
            let a1 = GameState { last_action: Some(act), ..a };
            match act {
                LastAction::Clear => r == Effect::Nothing && selection_cleared(a1, b),
                LastAction::Hint => r == Effect::Nothing && if a1.hints_left > 0 {
                    exists|mid: GameState, ok: bool|
                        #[trigger] hint_applied(a1, mid, ok) && b == if ok {
                            GameState { hints_left: (mid.hints_left - 1) as u8, ..mid }
                        } else {
                            mid
                        }
                } else {
                    b == a1
                },
                LastAction::Save => b == a1 && r == Effect::SaveSession,
                LastAction::Load => b == a1 && r == Effect::LoadSession,
                _ => b == a1 && r == Effect::Nothing,
            }
        },
        Command::Quit => r == Effect::Nothing && b == (GameState { should_quit: true, ..a }),
    }
}

/// Selector navigation and choice.
fn apply_selector_command(state: &mut GameState, command: Command) -> (r: Effect)
    requires
        old(state).wf(),
        command == Command::MoveSelectorUp || command == Command::MoveSelectorDown || command
            == Command::SelectDifficulty,
    ensures
        final(state).wf(),
        command_applied(*old(state), *final(state), command, r),
{
    match command {
        Command::MoveSelectorUp => {
            if state.screen == Screen::LevelSelector {
                state.selector_selection = match state.selector_selection {
                    DifficultyOption::Easy => DifficultyOption::Expert,
                    DifficultyOption::Medium => DifficultyOption::Easy,
                    DifficultyOption::Hard => DifficultyOption::Medium,
                    DifficultyOption::Expert => DifficultyOption::Hard,
                    DifficultyOption::Resume => DifficultyOption::Expert,
                };
            }
            Effect::Nothing
        },
        Command::MoveSelectorDown => {
            if state.screen == Screen::LevelSelector {
                state.selector_selection = match state.selector_selection {
                    DifficultyOption::Easy => DifficultyOption::Medium,
                    DifficultyOption::Medium => DifficultyOption::Hard,
                    DifficultyOption::Hard => DifficultyOption::Expert,
                    DifficultyOption::Expert => DifficultyOption::Easy,
                    DifficultyOption::Resume => DifficultyOption::Easy,
                };
            }
            Effect::Nothing
        },
        _ => {
            if state.screen != Screen::LevelSelector {
                return Effect::Nothing;
            }
            match state.selector_selection {
                DifficultyOption::Resume => Effect::ResumeSession,
                DifficultyOption::Easy => {
                    state.new_game(Difficulty::Easy);
                    Effect::Nothing
                },
                DifficultyOption::Medium => {
                    state.new_game(Difficulty::Medium);
                    Effect::Nothing
                },
                DifficultyOption::Hard => {
                    state.new_game(Difficulty::Hard);
                    Effect::Nothing
                },
                DifficultyOption::Expert => {
                    state.new_game(Difficulty::Expert);
                    Effect::Nothing
                },
            }
        },
    }
}

/// Typing a digit, and winning the game with it.
fn apply_digit_command(state: &mut GameState, digit: u8) -> (r: Effect)
    requires
        old(state).wf(),
    ensures
        final(state).wf(),
        command_applied(*old(state), *final(state), Command::Digit(digit), r),
{
    state.enter_digit(digit);
    let ghost mid = *state;
    assert(digit_entered(*old(state), mid, digit));
    if state.screen != Screen::Playing {
        assert(mid.wf() && after_digit(mid, *state, Effect::Nothing));
        return Effect::Nothing;
    }
    let won = state.check_win();
    let ghost v = *state;
    if won {
        state.game_completed = true;
        state.screen = Screen::Win;
        proof {
            assert(full(mid.grid));
            assert(validated(mid, v));
            assert(after_digit(mid, *state, Effect::RecordWin));
            assert(mid.wf());
        }
        Effect::RecordWin
    } else {
        proof {
            if full(mid.grid) {
                assert(validated(mid, v));
                assert(after_digit(mid, *state, Effect::Nothing));
            } else {
                assert(*state == mid);
                assert(after_digit(mid, *state, Effect::Nothing));
            }
            assert(mid.wf());
        }
        Effect::Nothing
    }
}

/// The actions of the side panel.
fn apply_action_command(state: &mut GameState, action: LastAction) -> (r: Effect)
    requires
        old(state).wf(),
    ensures
        final(state).wf(),
        command_applied(*old(state), *final(state), Command::Action(action), r),
{
    state.last_action = Some(action);
    match action {
        LastAction::Clear => {
            state.clear_selected();
            Effect::Nothing
        },
        LastAction::Hint => {
            if state.hints_left > 0 {
                let ghost a1 = *state;
                let ok = apply_hint(state);
                let ghost mid = *state;
                if ok {
                    state.hints_left = state.hints_left - 1;
                }
                assert(hint_applied(a1, mid, ok));
            }
            Effect::Nothing
        },
        LastAction::Save => Effect::SaveSession,
        LastAction::Load => Effect::LoadSession,
        _ => Effect::Nothing,
    }
}

/// Carries out `command` on the state and says what outside work is left.
pub fn apply_command(state: &mut GameState, command: Command) -> (r: Effect)
    requires
        old(state).wf(),
    ensures
        final(state).wf(),
        command_applied(*old(state), *final(state), command, r),
{
    match command {
        Command::Move(dir) => {
            state.move_selection(dir);
            Effect::Nothing
        },
        Command::MoveSelectorUp => apply_selector_command(state, command),
        Command::MoveSelectorDown => apply_selector_command(state, command),
        Command::SelectDifficulty => apply_selector_command(state, command),
        Command::Digit(digit) => apply_digit_command(state, digit),
        Command::ToggleNotes => {
            state.input_mode = match state.input_mode {
                InputMode::Normal => InputMode::Notes,
                InputMode::Notes => InputMode::Normal,
            };
            Effect::Nothing
        },
        Command::NewGame => {
            let d = state.difficulty;
            state.new_game(d);
            Effect::Nothing
        },
        Command::ToggleGivens => {
            state.show_givens = !state.show_givens;
            Effect::Nothing
        },
        Command::ToggleHelp => {
            state.help_visible = !state.help_visible;
            Effect::Nothing
        },
        Command::ZoomIn => {
            state.ui_zoom = state.ui_zoom.zoom_in();
            Effect::Nothing
        },
        Command::ZoomOut => {
            state.ui_zoom = state.ui_zoom.zoom_out();
            Effect::Nothing
        },
        Command::Validate => {
            state.validate_and_count_mistakes();
            Effect::Nothing
        },
        Command::Action(action) => apply_action_command(state, action),
        Command::Quit => {
            state.should_quit = true;
            Effect::Nothing
        },
    }
}

} // verus!
