use sudokui::puzzle::{apply_hint, get_correct_value_for_cell};
use sudokui::state::{Difficulty, GameState, InputMode, Selection};

#[test]
fn validate_marks_wrong_and_counts_once() {
    let mut state = GameState::new(Difficulty::Easy);

    let mut cell_pos = None;
    for row in 0..9 {
        for col in 0..9 {
            if !state.grid[row][col].given {
                state.selection = Selection { row, col };
                state.enter_digit(1);
                cell_pos = Some((row, col));
                break;
            }
        }
        if cell_pos.is_some() {
            break;
        }
    }

    assert_eq!(state.mistakes, 0);
    state.validate_and_count_mistakes();

    if state.mistakes > 0 {
        assert!(state.grid[cell_pos.unwrap().0][cell_pos.unwrap().1].wrong);
    }

    let mistakes_after_second_validate = state.mistakes;
    state.validate_and_count_mistakes();
    assert_eq!(state.mistakes, mistakes_after_second_validate);
}

#[test]
fn hint_fills_empty_cell() {
    let mut state = GameState::new(Difficulty::Easy);

    let mut empty_cell = None;
    for row in 0..9 {
        for col in 0..9 {
            if !state.grid[row][col].given {
                empty_cell = Some((row, col));
                break;
            }
        }
        if empty_cell.is_some() {
            break;
        }
    }

    let (row, col) = empty_cell.unwrap();
    state.selection = Selection { row, col };

    let correct_value = get_correct_value_for_cell(&state.grid, row, col);
    assert!(
        correct_value.is_some(),
        "Should have a solution for the cell"
    );

    let result = apply_hint(&mut state);

    assert!(result, "Hint should succeed on empty cell");
    assert_eq!(
        state.grid[row][col].value, correct_value,
        "Should fill correct value"
    );
}

#[test]
fn hint_does_not_modify_given_cell() {
    let mut state = GameState::new(Difficulty::Easy);

    let mut given_cell = None;
    for row in 0..9 {
        for col in 0..9 {
            if state.grid[row][col].given {
                given_cell = Some((row, col));
                break;
            }
        }
        if given_cell.is_some() {
            break;
        }
    }

    let (row, col) = given_cell.unwrap();
    state.selection = Selection { row, col };

    let original_value = state.grid[row][col].value;
    let hints_before = state.hints_left;

    let result = apply_hint(&mut state);

    assert!(!result, "Hint should fail on given cell");
    assert_eq!(state.hints_left, hints_before, "Should not decrement hints");
    assert_eq!(
        state.grid[row][col].value, original_value,
        "Should not modify given cell"
    );
}

#[test]
fn hint_does_not_modify_filled_cell() {
    let mut state = GameState::new(Difficulty::Easy);

    let mut empty_cell = None;
    for row in 0..9 {
        for col in 0..9 {
            if !state.grid[row][col].given {
                empty_cell = Some((row, col));
                state.selection = Selection { row, col };
                state.enter_digit(5);
                break;
            }
        }
        if empty_cell.is_some() {
            break;
        }
    }

    let (row, col) = empty_cell.unwrap();
    let hints_before = state.hints_left;

    let result = apply_hint(&mut state);

    assert!(!result, "Hint should fail on filled cell");
    assert_eq!(state.hints_left, hints_before, "Should not decrement hints");
    assert_eq!(
        state.grid[row][col].value,
        Some(5),
        "Should keep entered value"
    );
}

#[test]
fn hint_only_works_when_hints_available() {
    let mut state = GameState::new(Difficulty::Easy);
    state.hints_left = 0;

    for row in 0..9 {
        for col in 0..9 {
            if !state.grid[row][col].given {
                state.selection = Selection { row, col };
                break;
            }
        }
    }

    let result = apply_hint(&mut state);

    assert!(
        result,
        "Hint should succeed regardless of hints_left counter"
    );
}

#[test]
fn hint_fills_correct_value() {
    let mut state = GameState::new(Difficulty::Easy);

    let mut tested = 0;
    for row in 0..9 {
        for col in 0..9 {
            if !state.grid[row][col].given && tested < 5 {
                state.selection = Selection { row, col };

                let expected = get_correct_value_for_cell(&state.grid, row, col);
                assert!(expected.is_some(), "Cell should have correct value");

                let result = apply_hint(&mut state);
                assert!(result, "Hint should succeed");

                assert_eq!(
                    state.grid[row][col].value, expected,
                    "Hint should fill correct value at [{},{}]",
                    row, col
                );

                tested += 1;
            }
        }
        if tested >= 5 {
            break;
        }
    }

    assert!(tested >= 5, "Should test at least 5 cells");
}

#[test]
fn undo_and_redo_cell_value() {
    let mut state = GameState::new(Difficulty::Easy);

    let mut cell_pos = None;
    for row in 0..9 {
        for col in 0..9 {
            if !state.grid[row][col].given {
                state.selection = Selection { row, col };
                cell_pos = Some((row, col));
                break;
            }
        }
        if cell_pos.is_some() {
            break;
        }
    }

    let (row, col) = cell_pos.unwrap();

    state.enter_digit(5);
    assert_eq!(state.grid[row][col].value, Some(5));

    state.undo();
    assert_eq!(state.grid[row][col].value, None);

    state.redo();
    assert_eq!(state.grid[row][col].value, Some(5));
}

#[test]
fn undo_and_redo_candidate() {
    let mut state = GameState::new(Difficulty::Easy);
    state.input_mode = InputMode::Notes;

    let mut cell_pos = None;
    for row in 0..9 {
        for col in 0..9 {
            if !state.grid[row][col].given {
                state.selection = Selection { row, col };
                cell_pos = Some((row, col));
                break;
            }
        }
        if cell_pos.is_some() {
            break;
        }
    }

    let (row, col) = cell_pos.unwrap();

    state.enter_digit(3);
    let candidates = state.grid[row][col].candidates();
    assert!(candidates.contains(&3));

    state.undo();
    let candidates = state.grid[row][col].candidates();
    assert!(!candidates.contains(&3));

    state.redo();
    let candidates = state.grid[row][col].candidates();
    assert!(candidates.contains(&3));
}

#[test]
fn undo_and_redo_clear_cell() {
    let mut state = GameState::new(Difficulty::Easy);

    let mut cell_pos = None;
    for row in 0..9 {
        for col in 0..9 {
            if !state.grid[row][col].given {
                state.selection = Selection { row, col };
                cell_pos = Some((row, col));
                break;
            }
        }
        if cell_pos.is_some() {
            break;
        }
    }

    let (row, col) = cell_pos.unwrap();

    state.enter_digit(8);
    assert_eq!(state.grid[row][col].value, Some(8));

    state.clear_selected();
    assert_eq!(state.grid[row][col].value, None);

    state.undo();
    assert_eq!(state.grid[row][col].value, Some(8));

    state.redo();
    assert_eq!(state.grid[row][col].value, None);
}
