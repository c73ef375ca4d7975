use sudokui::puzzle::{count_solutions, generate_puzzle, get_solution};
use sudokui::state::{Cell, Difficulty};

fn count_givens(grid: &[[Cell; 9]; 9]) -> usize {
    grid.iter()
        .flat_map(|row| row.iter())
        .filter(|cell| cell.given)
        .count()
}

fn is_valid_sudoku(grid: &[[Cell; 9]; 9]) -> bool {
    for row in 0..9 {
        let mut seen = [false; 9];
        for col in 0..9 {
            if let Some(val) = grid[row][col].value {
                let idx = (val - 1) as usize;
                if seen[idx] {
                    return false;
                }
                seen[idx] = true;
            }
        }
    }
    for col in 0..9 {
        let mut seen = [false; 9];
        for row in 0..9 {
            if let Some(val) = grid[row][col].value {
                let idx = (val - 1) as usize;
                if seen[idx] {
                    return false;
                }
                seen[idx] = true;
            }
        }
    }
    for box_row in 0..3 {
        for box_col in 0..3 {
            let mut seen = [false; 9];
            for row in (box_row * 3)..(box_row * 3 + 3) {
                for col in (box_col * 3)..(box_col * 3 + 3) {
                    if let Some(val) = grid[row][col].value {
                        let idx = (val - 1) as usize;
                        if seen[idx] {
                            return false;
                        }
                        seen[idx] = true;
                    }
                }
            }
        }
    }
    true
}

#[test]
fn test_easy_difficulty_givens() {
    let grid = generate_puzzle(Difficulty::Easy);
    let givens = count_givens(&grid);
    assert!(
        givens >= 36 && givens <= 38,
        "Easy: expected 36-38 givens, got {}",
        givens
    );
}

#[test]
fn test_medium_difficulty_givens() {
    let grid = generate_puzzle(Difficulty::Medium);
    let givens = count_givens(&grid);
    assert!(
        givens >= 30 && givens <= 32,
        "Medium: expected 30-32 givens, got {}",
        givens
    );
}

#[test]
fn test_hard_difficulty_givens() {
    let grid = generate_puzzle(Difficulty::Hard);
    let givens = count_givens(&grid);
    assert!(
        givens >= 24 && givens <= 27,
        "Hard: expected 24-27 givens, got {}",
        givens
    );
}

#[test]
fn test_expert_difficulty_givens() {
    let grid = generate_puzzle(Difficulty::Expert);
    let givens = count_givens(&grid);
    assert!(
        givens >= 17 && givens <= 27,
        "Expert: expected 17-27 givens (uniqueness constraint), got {}",
        givens
    );
}

#[test]
fn test_generated_puzzle_is_valid() {
    for difficulty in &[
        Difficulty::Easy,
        Difficulty::Medium,
        Difficulty::Hard,
        Difficulty::Expert,
    ] {
        let grid = generate_puzzle(*difficulty);
        assert!(
            is_valid_sudoku(&grid),
            "Generated puzzle for {:?} is invalid",
            difficulty
        );
    }
}

#[test]
fn test_solution_is_valid() {
    let grid = generate_puzzle(Difficulty::Easy);
    let solution = get_solution(&grid);
    assert!(solution.is_some(), "Easy puzzle should have a solution");
    if let Some(sol) = solution {
        for row in 0..9 {
            for col in 0..9 {
                let val = sol[row][col];
                assert!(
                    val >= 1 && val <= 9,
                    "Solution should have valid values, got {} at [{},{}]",
                    val,
                    row,
                    col
                );
            }
        }
    }
}

#[test]
fn test_unique_solution() {
    let grid = generate_puzzle(Difficulty::Easy);
    let solution_count = count_solutions(&grid);
    assert_eq!(
        solution_count, 1,
        "Easy puzzle should have exactly 1 solution"
    );
}

#[test]
fn test_multiple_puzzles_are_different() {
    let grid1 = generate_puzzle(Difficulty::Easy);
    let grid2 = generate_puzzle(Difficulty::Easy);

    let mut different = false;
    for row in 0..9 {
        for col in 0..9 {
            if grid1[row][col].given != grid2[row][col].given {
                different = true;
                break;
            }
        }
        if different {
            break;
        }
    }
    assert!(different, "Multiple Easy puzzles should be different");
}
