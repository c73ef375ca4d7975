use sudokui::input::{apply_command, Command, Effect};
use sudokui::state::{
    Difficulty, DifficultyOption, GameState, LastAction, MoveDir, Screen, UiZoom,
};

#[test]
fn zoom_commands_are_bounded() {
    let mut state = GameState::new(Difficulty::Easy);
    state.ui_zoom = UiZoom::Small;
    apply_command(&mut state, Command::ZoomOut);
    assert_eq!(state.ui_zoom, UiZoom::Small);

    state.ui_zoom = UiZoom::XLarge;
    apply_command(&mut state, Command::ZoomIn);
    assert_eq!(state.ui_zoom, UiZoom::XLarge);
}

#[test]
fn navigation_stays_within_bounds() {
    let mut state = GameState::new(Difficulty::Easy);
    state.selection.row = 0;
    state.selection.col = 0;
    apply_command(&mut state, Command::Move(MoveDir::Left));
    apply_command(&mut state, Command::Move(MoveDir::Up));
    assert_eq!(state.selection.row, 0);
    assert_eq!(state.selection.col, 0);

    state.selection.row = 8;
    state.selection.col = 8;
    apply_command(&mut state, Command::Move(MoveDir::Right));
    apply_command(&mut state, Command::Move(MoveDir::Down));
    assert_eq!(state.selection.row, 8);
    assert_eq!(state.selection.col, 8);
}

#[test]
fn outside_work_is_handed_back() {
    let mut state = GameState::new(Difficulty::Easy);
    assert_eq!(
        apply_command(&mut state, Command::Action(LastAction::Save)),
        Effect::SaveSession
    );
    assert_eq!(state.last_action, Some(LastAction::Save));
    assert_eq!(
        apply_command(&mut state, Command::Action(LastAction::Load)),
        Effect::LoadSession
    );
    state.selector_selection = DifficultyOption::Resume;
    assert_eq!(
        apply_command(&mut state, Command::SelectDifficulty),
        Effect::ResumeSession
    );
    assert_eq!(apply_command(&mut state, Command::Quit), Effect::Nothing);
    assert!(state.should_quit);
}

#[test]
fn selector_wraps_and_starts_a_game() {
    let mut state = GameState::new(Difficulty::Easy);
    assert_eq!(state.screen, Screen::LevelSelector);
    apply_command(&mut state, Command::MoveSelectorUp);
    assert_eq!(state.selector_selection, DifficultyOption::Expert);
    apply_command(&mut state, Command::MoveSelectorDown);
    assert_eq!(state.selector_selection, DifficultyOption::Easy);
    apply_command(&mut state, Command::MoveSelectorDown);
    assert_eq!(state.selector_selection, DifficultyOption::Medium);
    state.ui_zoom = UiZoom::Small;
    assert_eq!(apply_command(&mut state, Command::SelectDifficulty), Effect::Nothing);
    assert_eq!(state.screen, Screen::Playing);
    assert_eq!(state.difficulty, Difficulty::Medium);
    assert_eq!(state.ui_zoom, UiZoom::Small);
    apply_command(&mut state, Command::MoveSelectorUp);
    assert_eq!(state.selector_selection, DifficultyOption::Medium);
}

#[test]
fn hint_action_spends_a_hint_only_on_success() {
    let mut state = GameState::new(Difficulty::Easy);
    let mut empty = None;
    for row in 0..9 {
        for col in 0..9 {
            if empty.is_none() && state.grid[row][col].value.is_none() {
                empty = Some((row, col));
            }
        }
    }
    let (row, col) = empty.unwrap();
    state.selection.row = row;
    state.selection.col = col;
    apply_command(&mut state, Command::Action(LastAction::Hint));
    assert_eq!(state.hints_left, 1);
    assert!(state.grid[row][col].value.is_some());
    apply_command(&mut state, Command::Action(LastAction::Hint));
    assert_eq!(state.hints_left, 1);
}

#[test]
fn solving_the_board_wins_and_asks_to_record() {
    let mut state = GameState::new(Difficulty::Easy);
    state.screen = Screen::Playing;
    let solution = sudokui::puzzle::get_solution(&state.grid).unwrap();
    let mut last = None;
    for row in 0..9 {
        for col in 0..9 {
            if !state.grid[row][col].given {
                last = Some((row, col));
            }
        }
    }
    let (last_row, last_col) = last.unwrap();
    for row in 0..9 {
        for col in 0..9 {
            if !state.grid[row][col].given && (row, col) != (last_row, last_col) {
                state.selection.row = row;
                state.selection.col = col;
                assert_eq!(
                    apply_command(&mut state, Command::Digit(solution[row][col])),
                    Effect::Nothing
                );
            }
        }
    }
    state.selection.row = last_row;
    state.selection.col = last_col;
    assert_eq!(
        apply_command(&mut state, Command::Digit(solution[last_row][last_col])),
        Effect::RecordWin
    );
    assert_eq!(state.screen, Screen::Win);
    assert!(state.game_completed);
}
