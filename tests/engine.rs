use sudokui::history::{ActionHistory, GameAction};
use sudokui::layout::{grid_height, grid_width, side_panel_height};
use sudokui::puzzle::{
    apply_hint, count_solutions, generate_complete_board, generate_puzzle,
    get_correct_value_for_cell, get_solution, is_consistent, is_safe, remove_cells_in_order,
};
use sudokui::session::{SaveData, SaveError, SAVE_VERSION};
use sudokui::state::{
    Cell, Difficulty, DifficultyOption, GameState, InputMode, Screen, Selection, UiZoom,
};

fn pattern_digit(row: usize, col: usize) -> u8 {
    ((3 * (row % 3) + row / 3 + col) % 9 + 1) as u8
}

fn complete_grid() -> [[Cell; 9]; 9] {
    let mut grid = [[Cell::empty(); 9]; 9];
    for row in 0..9 {
        for col in 0..9 {
            grid[row][col] = Cell::given(pattern_digit(row, col));
        }
    }
    grid
}

fn units_hold_each_digit_once(grid: &[[u8; 9]; 9]) -> bool {
    for unit in 0..9 {
        let mut row_seen = [0u8; 10];
        let mut col_seen = [0u8; 10];
        let mut box_seen = [0u8; 10];
        for k in 0..9 {
            row_seen[grid[unit][k] as usize] += 1;
            col_seen[grid[k][unit] as usize] += 1;
            box_seen[grid[(unit / 3) * 3 + k / 3][(unit % 3) * 3 + k % 3] as usize] += 1;
        }
        for d in 1..10 {
            if row_seen[d] != 1 || col_seen[d] != 1 || box_seen[d] != 1 {
                return false;
            }
        }
    }
    true
}

#[test]
fn is_safe_checks_row_column_and_box() {
    let mut grid = [[Cell::empty(); 9]; 9];
    grid[0][0] = Cell::given(5);
    grid[0][1] = Cell::given(3);
    grid[0][4] = Cell::given(7);
    assert!(!is_safe(&grid, 0, 2, 5));
    assert!(is_safe(&grid, 0, 2, 9));
    assert!(!is_safe(&grid, 1, 1, 5));
    assert!(!is_safe(&grid, 8, 4, 7));
    assert!(is_safe(&grid, 8, 8, 5));
}

#[test]
fn is_safe_ignores_the_target_cell() {
    let mut grid = [[Cell::empty(); 9]; 9];
    grid[4][4] = Cell::given(6);
    assert!(is_safe(&grid, 4, 4, 6));
    assert!(!is_safe(&grid, 4, 5, 6));
}

#[test]
fn correct_value_of_a_cleared_cell_is_the_removed_digit() {
    let mut grid = complete_grid();
    let removed = grid[4][6].value;
    grid[4][6] = Cell::empty();
    assert_eq!(get_correct_value_for_cell(&grid, 4, 6), removed);
    assert_eq!(count_solutions(&grid), 1);
}

#[test]
fn solution_of_a_complete_grid_is_the_grid() {
    let grid = complete_grid();
    let solution = get_solution(&grid).unwrap();
    for row in 0..9 {
        for col in 0..9 {
            assert_eq!(Some(solution[row][col]), grid[row][col].value);
        }
    }
    assert_eq!(count_solutions(&grid), 1);
}

#[test]
fn empty_board_gets_its_first_solution() {
    let grid = [[Cell::empty(); 9]; 9];
    let solution = get_solution(&grid).unwrap();
    assert_eq!(solution[0], [1, 2, 3, 4, 5, 6, 7, 8, 9]);
    assert_eq!(solution[1], [4, 5, 6, 7, 8, 9, 1, 2, 3]);
    assert_eq!(solution[2], [7, 8, 9, 1, 2, 3, 4, 5, 6]);
    assert!(units_hold_each_digit_once(&solution));
    assert_eq!(count_solutions(&grid), 2);
    assert_eq!(get_correct_value_for_cell(&grid, 0, 8), Some(9));
}

#[test]
fn clashing_board_has_no_solution() {
    let mut grid = [[Cell::empty(); 9]; 9];
    grid[2][0] = Cell::given(4);
    grid[2][8] = Cell::given(4);
    assert!(!is_consistent(&grid));
    assert_eq!(get_solution(&grid), None);
    assert_eq!(count_solutions(&grid), 0);
    assert_eq!(get_correct_value_for_cell(&grid, 5, 5), None);

    let mut out_of_range = [[Cell::empty(); 9]; 9];
    out_of_range[0][0] = Cell::given(10);
    assert!(!is_consistent(&out_of_range));
    assert_eq!(count_solutions(&out_of_range), 0);
}

#[test]
fn consistent_board_without_completion_has_no_solution() {
    let mut grid = [[Cell::empty(); 9]; 9];
    for col in 0..8 {
        grid[0][col] = Cell::given((col + 1) as u8);
    }
    grid[1][8] = Cell::given(9);
    assert!(is_consistent(&grid));
    assert_eq!(get_solution(&grid), None);
    assert_eq!(count_solutions(&grid), 0);
}

#[test]
fn generated_puzzles_respect_targets() {
    for (difficulty, target) in [
        (Difficulty::Easy, 45),
        (Difficulty::Medium, 51),
        (Difficulty::Hard, 55),
        (Difficulty::Expert, 60),
    ] {
        let grid = generate_puzzle(difficulty);
        let mut givens = 0;
        for row in 0..9 {
            for col in 0..9 {
                assert_eq!(grid[row][col].given, grid[row][col].value.is_some());
                if grid[row][col].given {
                    givens += 1;
                }
            }
        }
        assert!(givens >= 81 - target);
        assert!(is_consistent(&grid));
        assert_eq!(count_solutions(&grid), 1);
        let solution = get_solution(&grid).unwrap();
        assert!(units_hold_each_digit_once(&solution));
    }
}

#[test]
fn wrong_entry_blocks_validation_and_hints() {
    let mut state = GameState::new(Difficulty::Easy);
    let solution = get_solution(&state.grid).unwrap();
    let mut target = None;
    let mut other = None;
    for row in 0..9 {
        for col in 0..9 {
            if !state.grid[row][col].given {
                if target.is_none() {
                    target = Some((row, col));
                } else if other.is_none() {
                    other = Some((row, col));
                }
            }
        }
    }
    let (row, col) = target.unwrap();
    let wrong = if solution[row][col] == 9 { 1 } else { solution[row][col] + 1 };
    let mut trial = state.grid;
    trial[row][col].value = Some(wrong);
    assert_eq!(get_solution(&trial), None);
    state.selection = Selection { row, col };
    state.enter_digit(wrong);
    state.validate_and_count_mistakes();
    assert_eq!(state.mistakes, 0);
    assert!(!state.grid[row][col].wrong);

    let (orow, ocol) = other.unwrap();
    state.selection = Selection { row: orow, col: ocol };
    assert!(!apply_hint(&mut state));
    assert_eq!(state.grid[orow][ocol].value, None);
}

#[test]
fn candidates_toggle_and_ignore_non_digits() {
    let mut cell = Cell::empty();
    cell.toggle_candidate(8);
    cell.toggle_candidate(2);
    cell.toggle_candidate(0);
    cell.toggle_candidate(10);
    assert_eq!(cell.candidates(), vec![2, 8]);
    assert_eq!(cell.candidates_mask, 0b1000_0010);
    cell.toggle_candidate(8);
    assert_eq!(cell.candidates(), vec![2]);
    cell.clear_candidates();
    assert!(cell.candidates().is_empty());
}

#[test]
fn history_keeps_fifty_actions() {
    let mut history = ActionHistory::new();
    for digit in 0..55u8 {
        history.push(GameAction::ToggleCandidate { row: 0, col: 0, digit });
    }
    let mut undone = 0;
    let mut last = None;
    while let Some(action) = history.undo() {
        undone += 1;
        last = Some(action);
    }
    assert_eq!(undone, 50);
    assert_eq!(
        last,
        Some(GameAction::ToggleCandidate { row: 0, col: 0, digit: 5 })
    );
    assert_eq!(
        history.redo(),
        Some(GameAction::ToggleCandidate { row: 0, col: 0, digit: 5 })
    );
    history.push(GameAction::NewGame);
    assert_eq!(history.redo(), None);
}

#[test]
fn zoom_steps_and_sizes() {
    assert_eq!(UiZoom::default(), UiZoom::Large);
    assert_eq!(UiZoom::Small.zoom_in(), UiZoom::Medium);
    assert_eq!(UiZoom::Large.zoom_out(), UiZoom::Medium);
    assert_eq!(UiZoom::XLarge.cell_w(), 5);
    assert_eq!(UiZoom::Large.cell_h(), 2);
    assert_eq!(grid_width(UiZoom::Large), 45);
    assert_eq!(grid_height(UiZoom::XLarge), 32);
    assert_eq!(side_panel_height(), 17);
}

#[test]
fn new_game_keeps_display_preferences() {
    let mut state = GameState::new(Difficulty::Easy);
    state.ui_zoom = UiZoom::Small;
    state.show_givens = false;
    state.mistakes = 2;
    state.new_game(Difficulty::Hard);
    assert_eq!(state.difficulty, Difficulty::Hard);
    assert_eq!(state.ui_zoom, UiZoom::Small);
    assert!(!state.show_givens);
    assert_eq!(state.mistakes, 0);
    assert_eq!(state.hints_left, 2);
    assert_eq!(state.selection, Selection { row: 3, col: 5 });
}

#[test]
fn saved_session_restores_player_work() {
    let mut state = GameState::new(Difficulty::Easy);
    state.ui_zoom = UiZoom::Small;
    state.input_mode = InputMode::Notes;
    state.mistakes = 9;
    state.mistakes_max = 0;
    let mut data = SaveData::from_state(&state, 123, 456);
    assert_eq!(data.version, SAVE_VERSION);
    assert_eq!(data.elapsed_secs, 123);
    assert_eq!(data.last_played_at, 456);
    data.selection = Selection { row: 20, col: 4 };
    for row in 0..9 {
        for col in 0..9 {
            data.grid[row][col] = Cell {
                given: false,
                value: Some(7),
                candidates_mask: 0b100,
                wrong: true,
            };
        }
    }
    let started = std::time::Instant::now();
    let restored = data.into_state(started).unwrap();
    assert_eq!(restored.ui_zoom, UiZoom::Small);
    assert_eq!(restored.input_mode, InputMode::Notes);
    assert_eq!(restored.mistakes_max, 1);
    assert_eq!(restored.mistakes, 1);
    assert_eq!(restored.selection, Selection { row: 8, col: 4 });
    assert_eq!(restored.screen, Screen::LevelSelector);
    for row in 0..9 {
        for col in 0..9 {
            let cell = restored.grid[row][col];
            if !cell.given {
                assert_eq!(cell.value, Some(7));
                assert_eq!(cell.candidates(), vec![3]);
                assert!(cell.wrong);
            } else {
                assert!(cell.value.is_some());
            }
        }
    }

    data.version = 2;
    assert!(matches!(
        data.into_state(started),
        Err(SaveError::UnsupportedVersion(2))
    ));
}

#[test]
fn only_recent_unfinished_sessions_resume() {
    let mut loaded = GameState::new(Difficulty::Hard);
    loaded.mistakes = 2;
    let resumed = GameState::resume_or_select(Some(loaded.clone()), 3);
    assert_eq!(resumed.screen, Screen::Playing);
    assert!(resumed.has_recent_save);
    assert_eq!(resumed.mistakes, 2);
    assert_eq!(resumed.difficulty, Difficulty::Hard);

    let stale = GameState::resume_or_select(Some(loaded.clone()), 8);
    assert_eq!(stale.screen, Screen::LevelSelector);
    assert_eq!(stale.difficulty, Difficulty::Easy);
    assert_eq!(stale.selector_selection, DifficultyOption::Easy);

    loaded.game_completed = true;
    let finished = GameState::resume_or_select(Some(loaded), 0);
    assert_eq!(finished.difficulty, Difficulty::Easy);
    assert!(!finished.has_recent_save);

    let fresh = GameState::resume_or_select(None, 0);
    assert_eq!(fresh.screen, Screen::LevelSelector);
}

#[test]
fn puzzle_short_of_target_keeps_only_needed_givens() {
    for (difficulty, target) in [(Difficulty::Hard, 55), (Difficulty::Expert, 60)] {
        let grid = generate_puzzle(difficulty);
        let empty = grid
            .iter()
            .flat_map(|row| row.iter())
            .filter(|cell| cell.value.is_none())
            .count();
        assert!(empty <= target);
        if empty < target {
            for row in 0..9 {
                for col in 0..9 {
                    if grid[row][col].value.is_some() {
                        let mut trial = grid;
                        trial[row][col] = Cell::empty();
                        assert_eq!(count_solutions(&trial), 2);
                    }
                }
            }
        }
    }
}

#[test]
fn complete_board_holds_each_digit_once_per_unit() {
    let board = generate_complete_board();
    let mut digits = [[0u8; 9]; 9];
    for row in 0..9 {
        for col in 0..9 {
            assert!(board[row][col].given);
            digits[row][col] = board[row][col].value.unwrap();
        }
    }
    assert!(units_hold_each_digit_once(&digits));
    assert_eq!(count_solutions(&board), 1);
}

#[test]
fn reducer_follows_the_given_order() {
    let mut order = Vec::new();
    for row in 0..9 {
        for col in 0..9 {
            order.push((row, col));
        }
    }
    let mut first = complete_grid();
    remove_cells_in_order(&mut first, &order, 45);
    let mut second = complete_grid();
    remove_cells_in_order(&mut second, &order, 45);
    assert_eq!(first, second);
    let empty = first
        .iter()
        .flat_map(|row| row.iter())
        .filter(|cell| cell.value.is_none())
        .count();
    assert!(empty <= 45);
    assert_eq!(count_solutions(&first), 1);
    assert_eq!(first[0][0].value, None);

    let mut none = complete_grid();
    remove_cells_in_order(&mut none, &order, 0);
    assert_eq!(none, complete_grid());

    let mut few = complete_grid();
    remove_cells_in_order(&mut few, &order[..3].to_vec(), 45);
    assert_eq!(few[0][0].value, None);
    assert_eq!(few[0][1].value, None);
    assert_eq!(few[0][2].value, None);
    assert!(few[0][3].value.is_some());
}
