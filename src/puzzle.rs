//! The puzzle engine: constraint checks, backtracking solver, bounded solution
//! counter, randomized full-grid generator and uniqueness-preserving reducer.
use rand::seq::SliceRandom;
use vstd::prelude::*;

use crate::rules::{
    before, board_digits, consistent, differ, filled_before, fills, first_filling, full, in_grid,
    is_digit, lemma_full_board, lemma_lex_asymmetric, lemma_place, lemma_place_consistent,
    lemma_unsafe_excludes, lex_less, peers, safe, solvable, value_at, values_set, Filling,
    ambiguous, first_solution_digit, grid_digits, lemma_fills_consistent,
    lemma_first_filling_agree, lemma_full_board_unique, solution_count_capped, empty_cells,
    lemma_clear_consistent, lemma_pattern_valid, uniquely_solvable, marks_kept, digit_fits,
    all_filled_needed, lemma_clear_needed, lemma_sub_puzzle, needed, sub_puzzle, lemma_outside,
    reduced_cells, lemma_complete_grid_units, unit_holds_once, has_solutions, has_solutions_below,
    lemma_below_ends, lemma_below_skip, lemma_below_split, lemma_below_union,
    lemma_full_board_one_solution, lemma_has_solutions_small, solution_family,
};
use crate::state::{is_puzzle, others_kept, Board, Cell, Difficulty, GameState};

verus! {

/// True iff no peer of `(row, col)` already holds `num`. The cell itself is not consulted.
pub fn is_safe(board: &Board, row: usize, col: usize, num: u8) -> (r: bool)
    requires
        row < 9,
        col < 9,
    ensures
        r == safe(*board, row as int, col as int, num as int),
{
    let mut i: usize = 0;
    while i < 9
        invariant
            i <= 9,
            row < 9,
            col < 9,
            forall|c: int| 0 <= c < i && c != col ==> value_at(*board, row as int, c) != Some(num),
        decreases 9 - i,
    {
        if i != col {
            if let Some(v) = board[row][i].value {
                if v == num {
                    assert(peers(row as int, col as int, row as int, i as int));
                    assert(value_at(*board, row as int, i as int) == Some(num));
                    return false;
                }
            }
        }
        i += 1;
    }
    let mut i: usize = 0;
    while i < 9
        invariant
            i <= 9,
            row < 9,
            col < 9,
            forall|c: int| 0 <= c < 9 && c != col ==> value_at(*board, row as int, c) != Some(num),
            forall|r: int| 0 <= r < i && r != row ==> value_at(*board, r, col as int) != Some(num),
        decreases 9 - i,
    {
        if i != row {
            if let Some(v) = board[i][col].value {
                if v == num {
                    assert(peers(row as int, col as int, i as int, col as int));
                    assert(value_at(*board, i as int, col as int) == Some(num));
                    return false;
                }
            }
        }
        i += 1;
    }
    let box_row: usize = (row / 3) * 3;
    let box_col: usize = (col / 3) * 3;
    let mut i: usize = 0;
    while i < 3
        invariant
            i <= 3,
            row < 9,
            col < 9,
            box_row == (row / 3) * 3,
            box_col == (col / 3) * 3,
            forall|c: int| 0 <= c < 9 && c != col ==> value_at(*board, row as int, c) != Some(num),
            forall|r: int| 0 <= r < 9 && r != row ==> value_at(*board, r, col as int) != Some(num),
            forall|r: int, c: int|
                box_row <= r < box_row + i && box_col <= c < box_col + 3 && !(r == row && c == col)
                    ==> #[trigger] value_at(*board, r, c) != Some(num),
        decreases 3 - i,
    {
        let mut j: usize = 0;
        while j < 3
            invariant
                i < 3,
                j <= 3,
                row < 9,
                col < 9,
                box_row == (row / 3) * 3,
                box_col == (col / 3) * 3,
                forall|c: int| 0 <= c < 9 && c != col ==> value_at(*board, row as int, c) != Some(num),
                forall|r: int| 0 <= r < 9 && r != row ==> value_at(*board, r, col as int) != Some(num),
                forall|r: int, c: int|
                    box_row <= r < box_row + i && box_col <= c < box_col + 3 && !(r == row && c
                        == col) ==> #[trigger] value_at(*board, r, c) != Some(num),
                forall|c: int|
                    box_col <= c < box_col + j && !(box_row + i == row && c == col) ==> #[trigger] value_at(
                        *board,
                        box_row + i,
                        c,
                    ) != Some(num),
            decreases 3 - j,
        {
            let r = box_row + i;
            let c = box_col + j;
            if !(r == row && c == col) {
                if let Some(v) = board[r][c].value {
                    if v == num {
                        assert(peers(row as int, col as int, r as int, c as int));
                        assert(value_at(*board, r as int, c as int) == Some(num));
                        return false;
                    }
                }
            }
            j += 1;
        }
        i += 1;
    }
    assert forall|r: int, c: int| peers(row as int, col as int, r, c) implies (#[trigger] value_at(
        *board,
        r,
        c,
    )) != Some(num) by {
        if r != row && c != col {
            assert(box_row <= r < box_row + 3 && box_col <= c < box_col + 3);
        }
    }
    true
}

/// True iff every filled cell holds a digit 1-9 and no unit holds a digit twice.
pub fn is_consistent(board: &Board) -> (r: bool)
    ensures
        r == consistent(*board),
{
    let mut row: usize = 0;
    while row < 9
        invariant
            row <= 9,
            forall|r: int, c: int|
                in_grid(r, c) && r < row && (#[trigger] value_at(*board, r, c)) is Some ==> {
                    let v = value_at(*board, r, c)->0;
                    is_digit(v as int) && safe(*board, r, c, v as int)
                },
        decreases 9 - row,
    {
        let mut col: usize = 0;
        while col < 9
            invariant
                row < 9,
                col <= 9,
                forall|r: int, c: int|
                    in_grid(r, c) && (r < row || (r == row && c < col)) && (#[trigger] value_at(
                        *board,
                        r,
                        c,
                    )) is Some ==> {
                        let v = value_at(*board, r, c)->0;
                        is_digit(v as int) && safe(*board, r, c, v as int)
                    },
            decreases 9 - col,
        {
            if let Some(v) = board[row][col].value {
                if v < 1 || v > 9 {
                    assert(value_at(*board, row as int, col as int) is Some);
                    assert(!is_digit(value_at(*board, row as int, col as int)->0 as int));
                    return false;
                }
                if !is_safe(board, row, col, v) {
                    let ghost b = *board;
                    proof {
                        let (r, c) = choose|r: int, c: int|
                            peers(row as int, col as int, r, c) && (#[trigger] value_at(b, r, c))
                                == Some((v as int) as u8);
                        assert(value_at(b, row as int, col as int) is Some);
                        assert(value_at(b, r, c) is Some);
                    }
                    return false;
                }
            }
            col += 1;
        }
        row += 1;
    }
    proof {
        let b = *board;
        assert forall|r1: int, c1: int, r2: int, c2: int|
            peers(r1, c1, r2, c2) && (#[trigger] value_at(b, r1, c1)) is Some && (#[trigger] value_at(
                b,
                r2,
                c2,
            )) is Some implies value_at(b, r1, c1) != value_at(b, r2, c2) by {
            let v = value_at(b, r1, c1)->0;
            assert(safe(b, r1, c1, v as int));
            assert(value_at(b, r2, c2) != Some((v as int) as u8));
        }
    }
    true
}

/// The filling found from `(row, col)` onwards is the first in row-major order.
proof fn lemma_first_after_place(
    b0: Board,
    b1: Board,
    row: int,
    col: int,
    num: int,
    s: Filling,
)
    requires
        in_grid(row, col),
        1 <= num <= 9,
        value_at(b0, row, col) is None,
        values_set(b0, b1, row, col, Some(num as u8)),
        filled_before(b0, row, col),
        first_filling(s, b1),
        forall|t: Filling| #[trigger] fills(t, b0) ==> !(1 <= t(row, col) < num),
    ensures
        first_filling(s, b0),
{
    lemma_place(b0, b1, row, col, num, s);
    assert forall|t: Filling| fills(t, b0) implies !lex_less(t, s) by {
        lemma_place(b0, b1, row, col, num, t);
        assert(is_digit(t(row, col)));
        if t(row, col) > num {
            assert forall|r2: int, c2: int|
                in_grid(r2, c2) && before(r2, c2, row, col) implies #[trigger] s(r2, c2) == t(
                    r2,
                    c2,
                ) by {
                assert(value_at(b0, r2, c2) is Some);
            }
            assert(lex_less(s, t));
            lemma_lex_asymmetric(s, t);
        }
    }
}

/// The next cell in row-major order.
fn next_cell(row: usize, col: usize) -> (r: (usize, usize))
    requires
        row < 9,
        col < 9,
    ensures
        col == 8 ==> r.0 == row + 1 && r.1 == 0,
        col < 8 ==> r.0 == row && r.1 == col + 1,
{
    if col == 8 {
        (row + 1, 0)
    } else {
        (row, col + 1)
    }
}

/// A board that has every cell before `(9, 0)` filled is full.
proof fn lemma_filled_before_end(b: Board)
    requires
        filled_before(b, 9, 0),
    ensures
        full(b),
{
    assert forall|r: int, c: int| in_grid(r, c) implies (#[trigger] value_at(b, r, c)) is Some by {
        assert(before(r, c, 9, 0));
    }
}

/// Filling the cell at `(row, col)` extends the filled prefix to the next cell.
proof fn lemma_filled_before_next(b: Board, row: int, col: int, nr: int, nc: int)
    requires
        in_grid(row, col),
        filled_before(b, row, col),
        value_at(b, row, col) is Some,
        (col == 8 && nr == row + 1 && nc == 0) || (col < 8 && nr == row && nc == col + 1),
    ensures
        filled_before(b, nr, nc),
{
    assert forall|r: int, c: int| in_grid(r, c) && before(r, c, nr, nc) implies (#[trigger] value_at(
        b,
        r,
        c,
    )) is Some by {
        if !(r == row && c == col) {
            assert(before(r, c, row, col));
        }
    }
}

/// Depth-first search from `(row, col)` in row-major order, trying digits in
/// ascending order in each empty cell and keeping every filled cell fixed.
/// On success the board holds the first solution; on failure it is unchanged.
fn solve_helper(board: &mut Board, row: usize, col: usize) -> (r: bool)
    requires
        (row < 9 && col < 9) || (row == 9 && col == 0),
        consistent(*old(board)),
        filled_before(*old(board), row as int, col as int),
    ensures
        r == solvable(*old(board)),
        r ==> full(*final(board)),
        r ==> first_filling(board_digits(*final(board)), *old(board)),
        marks_kept(*old(board), *final(board)),
        !r ==> *final(board) == *old(board),
    decreases 9 - row, 9 - col,
{
    let ghost b0 = *board;
    if row == 9 {
        proof {
            lemma_filled_before_end(b0);
            lemma_full_board(b0);
            let s = board_digits(b0);
            assert forall|t: Filling| fills(t, b0) implies !lex_less(t, s) by {
                assert(!differ(t, s));
            }
        }
        return true;
    }
    let (next_row, next_col) = next_cell(row, col);
    if board[row][col].value.is_some() {
        proof {
            lemma_filled_before_next(b0, row as int, col as int, next_row as int, next_col as int);
        }
        return solve_helper(board, next_row, next_col);
    }
    let mut num: u8 = 1;
    while num <= 9
        invariant
            1 <= num <= 10,
            row < 9,
            col < 9,
            (col == 8 && next_row == row + 1 && next_col == 0) || (col < 8 && next_row == row
                && next_col == col + 1),
            *board == b0,
            b0 == *old(board),
            consistent(b0),
            filled_before(b0, row as int, col as int),
            value_at(b0, row as int, col as int) is None,
            forall|t: Filling| #[trigger] fills(t, b0) ==> !(1 <= t(row as int, col as int) < num),
        decreases 10 - num,
    {
        if is_safe(board, row, col, num) {
            board[row][col].value = Some(num);
            let ghost b1 = *board;
            proof {
                assert(values_set(b0, b1, row as int, col as int, Some(num)));
                lemma_place_consistent(b0, b1, row as int, col as int, num as int);
                assert(filled_before(b1, row as int, col as int));
                lemma_filled_before_next(
                    b1,
                    row as int,
                    col as int,
                    next_row as int,
                    next_col as int,
                );
            }
            if solve_helper(board, next_row, next_col) {
                proof {
                    let s = board_digits(*board);
                    assert(first_filling(s, b1));
                    lemma_first_after_place(b0, b1, row as int, col as int, num as int, s);
                    assert(fills(s, b0));
                    assert forall|r: int, c: int| in_grid(r, c) implies (#[trigger] board[r][c]).given
                        == b0[r][c].given && board[r][c].candidates_mask == b0[r][c].candidates_mask
                        && board[r][c].wrong == b0[r][c].wrong by {
                        assert(board[r][c].given == b1[r][c].given);
                    }
                }
                return true;
            }
            board[row][col].value = None;
            proof {
                assert(board[row as int] =~= b0[row as int]);
                assert(*board =~= b0);
                assert forall|t: Filling| #[trigger] fills(t, b0) implies t(row as int, col as int)
                    != num by {
                    lemma_place(b0, b1, row as int, col as int, num as int, t);
                }
            }
        } else {
            proof {
                assert forall|t: Filling| #[trigger] fills(t, b0) implies t(row as int, col as int)
                    != num by {
                    lemma_unsafe_excludes(b0, row as int, col as int, num as int, t);
                }
            }
        }
        num += 1;
    }
    proof {
        assert forall|t: Filling| !fills(t, b0) by {
            if fills(t, b0) {
                assert(is_digit(t(row as int, col as int)));
            }
        }
    }
    false
}


/// Depth-first enumeration of the solutions of the board from `(row, col)`,
/// digits ascending, stopping as soon as `need` of them have been found, and
/// leaving the board as it was. On a consistent board filled before `(row, col)`
/// it returns `min(need, N)` for `N` the number of solutions: at least `r`
/// different solutions exist, and below `need` no more than `r` do.
fn count_solutions_helper(board: &mut Board, row: usize, col: usize, need: u32) -> (r: u32)
    requires
        (row < 9 && col < 9) || (row == 9 && col == 0),
        need >= 1,
    ensures
        *final(board) == *old(board),
        r <= need,
        consistent(*old(board)) && filled_before(*old(board), row as int, col as int) ==> {
            &&& has_solutions(*old(board), r as nat)
            &&& r < need ==> !has_solutions(*old(board), r as nat + 1)
        },
    decreases 9 - row, 9 - col,
{
    let ghost b0 = *board;
    let ghost good = consistent(b0) && filled_before(b0, row as int, col as int);
    if row == 9 {
        proof {
            if good {
                lemma_filled_before_end(b0);
                lemma_full_board_one_solution(b0);
            }
        }
        return 1;
    }
    let (next_row, next_col) = next_cell(row, col);
    if board[row][col].value.is_some() {
        proof {
            if good {
                lemma_filled_before_next(
                    b0,
                    row as int,
                    col as int,
                    next_row as int,
                    next_col as int,
                );
            }
        }
        return count_solutions_helper(board, next_row, next_col, need);
    }
    proof {
        lemma_below_ends(b0, row as int, col as int, 0);
        lemma_below_ends(b0, row as int, col as int, 1);
    }
    let mut count: u32 = 0;
    let mut num: u8 = 1;
    while num <= 9
        invariant
            1 <= num <= 10,
            row < 9,
            col < 9,
            (col == 8 && next_row == row + 1 && next_col == 0) || (col < 8 && next_row == row
                && next_col == col + 1),
            *board == b0,
            b0 == *old(board),
            value_at(b0, row as int, col as int) is None,
            need >= 1,
            count < need,
            good == (consistent(b0) && filled_before(b0, row as int, col as int)),
            good ==> has_solutions_below(b0, row as int, col as int, num as int, count as nat),
            good ==> !has_solutions_below(
                b0,
                row as int,
                col as int,
                num as int,
                count as nat + 1,
            ),
        decreases 10 - num,
    {
        if is_safe(board, row, col, num) {
            board[row][col].value = Some(num);
            let ghost b1 = *board;
            proof {
                assert(values_set(b0, b1, row as int, col as int, Some(num)));
                if good {
                    lemma_place_consistent(b0, b1, row as int, col as int, num as int);
                    assert(filled_before(b1, row as int, col as int));
                    lemma_filled_before_next(
                        b1,
                        row as int,
                        col as int,
                        next_row as int,
                        next_col as int,
                    );
                }
            }
            let found = count_solutions_helper(board, next_row, next_col, need - count);
            board[row][col].value = None;
            proof {
                assert(board[row as int] =~= b0[row as int]);
                assert(*board =~= b0);
                if good {
                    lemma_below_union(
                        b0,
                        b1,
                        row as int,
                        col as int,
                        num as int,
                        count as nat,
                        found as nat,
                    );
                    if count + found < need {
                        lemma_below_split(
                            b0,
                            b1,
                            row as int,
                            col as int,
                            num as int,
                            count as nat,
                            found as nat,
                        );
                    }
                }
            }
            count = count + found;
            if count >= need {
                proof {
                    if good {
                        let fam = choose|fam: Set<Filling>|
                            solution_family(fam, b0) && fam.len() >= count as nat && forall|
                                s: Filling,
                            | #[trigger] fam.contains(s) ==> s(row as int, col as int) < num + 1;
                        assert(solution_family(fam, b0) && fam.len() >= count as nat);
                    }
                }
                return count;
            }
        } else {
            proof {
                if good {
                    lemma_below_skip(b0, row as int, col as int, num as int, count as nat);
                    lemma_below_skip(b0, row as int, col as int, num as int, count as nat + 1);
                }
            }
        }
        num += 1;
    }
    proof {
        if good {
            lemma_below_ends(b0, row as int, col as int, count as nat);
            lemma_below_ends(b0, row as int, col as int, count as nat + 1);
        }
    }
    count
}

/// The number of solutions of `board`, counted up to two: 0, 1, or 2 for "two or more".
pub fn count_solutions(board: &Board) -> (r: u32)
    ensures
        r == solution_count_capped(*board),
{
    if !is_consistent(board) {
        proof {
            if solvable(*board) {
                let s = choose|s: Filling| fills(s, *board);
                lemma_fills_consistent(s, *board);
            }
        }
        return 0;
    }
    let mut copy = *board;
    let r = count_solutions_helper(&mut copy, 0, 0, 2);
    proof {
        lemma_has_solutions_small(*board);
        if ambiguous(*board) {
            let (s, t) = choose|s: Filling, t: Filling|
                fills(s, *board) && fills(t, *board) && differ(s, t);
            assert(solvable(*board));
        }
    }
    r
}

/// Fills every empty cell of `board` with the first solution, or reports that
/// there is none and leaves the board as it was.
fn solve_board(board: &mut Board) -> (r: bool)
    ensures
        r == solvable(*old(board)),
        r ==> full(*final(board)),
        r ==> first_filling(board_digits(*final(board)), *old(board)),
        marks_kept(*old(board), *final(board)),
        !r ==> *final(board) == *old(board),
{
    if !is_consistent(board) {
        proof {
            if solvable(*board) {
                let s = choose|s: Filling| fills(s, *board);
                lemma_fills_consistent(s, *board);
            }
        }
        return false;
    }
    solve_helper(board, 0, 0)
}

/// The first solution of `board`, treating every filled cell as fixed, or `None`
/// if the board cannot be completed.
pub fn get_solution(board: &Board) -> (r: Option<[[u8; 9]; 9]>)
    ensures
        r is Some == solvable(*board),
        r matches Some(g) ==> first_filling(grid_digits(g), *board),
{
    let mut copy = *board;
    if !solve_board(&mut copy) {
        return None;
    }
    let mut solution = [[0u8; 9]; 9];
    let mut row: usize = 0;
    while row < 9
        invariant
            row <= 9,
            full(copy),
            forall|r: int, c: int|
                in_grid(r, c) && r < row ==> #[trigger] solution[r][c] as int == board_digits(copy)(
                    r,
                    c,
                ),
        decreases 9 - row,
    {
        let mut col: usize = 0;
        while col < 9
            invariant
                row < 9,
                col <= 9,
                full(copy),
                forall|r: int, c: int|
                    in_grid(r, c) && (r < row || (r == row && c < col)) ==> #[trigger] solution[r][c] as int
                        == board_digits(copy)(r, c),
            decreases 9 - col,
        {
            assert(value_at(copy, row as int, col as int) is Some);
            solution[row][col] = copy[row][col].value.unwrap();
            col += 1;
        }
        row += 1;
    }
    proof {
        lemma_first_filling_agree(board_digits(copy), grid_digits(solution), *board);
    }
    Some(solution)
}

/// The digit that the first solution of `board` puts at `(row, col)`, or `None`
/// if the board cannot be completed.
pub fn get_correct_value_for_cell(board: &Board, row: usize, col: usize) -> (r: Option<u8>)
    requires
        row < 9,
        col < 9,
    ensures
        r is Some == solvable(*board),
        r matches Some(v) ==> first_solution_digit(*board, row as int, col as int, v as int),
{
    let solution = get_solution(board)?;
    Some(solution[row][col])
}


/// Relies on rand's `SliceRandom::shuffle` with the thread-local generator: it
/// only swaps elements, so the result is a permutation of the input.
#[verifier::external_body]
fn shuffle<T>(vec: &mut Vec<T>)
    ensures
        final(vec)@.to_multiset() == old(vec)@.to_multiset(),
{
    vec.shuffle(&mut rand::thread_rng());
}

/// After a shuffle of the digits 1-9, each position holds a digit and each digit is present.
proof fn lemma_shuffled_digits(orig: Seq<u8>, sh: Seq<u8>)
    requires
        orig.len() == 9,
        forall|i: int| 0 <= i < 9 ==> orig[i] == i + 1,
        sh.to_multiset() == orig.to_multiset(),
    ensures
        sh.len() == 9,
        forall|i: int| 0 <= i < 9 ==> 1 <= #[trigger] sh[i] <= 9,
        forall|d: u8| 1 <= d <= 9 ==> #[trigger] sh.contains(d),
{
    sh.to_multiset_ensures();
    orig.to_multiset_ensures();
    assert(sh.to_multiset().len() == orig.to_multiset().len());

    assert forall|i: int| 0 <= i < 9 implies 1 <= #[trigger] sh[i] <= 9 by {
        assert(sh.contains(sh[i]));
        assert(orig.to_multiset().count(sh[i]) > 0);
        assert(orig.contains(sh[i]));
    }
    assert forall|d: u8| 1 <= d <= 9 implies #[trigger] sh.contains(d) by {
        assert(orig[d - 1] == d);
        assert(orig.contains(d));
        assert(sh.to_multiset().count(d) > 0);
    }
}

/// Randomized depth-first fill from `(row, col)` in row-major order: each empty
/// cell tries the digits 1-9 in a fresh random order, marking placed digits as
/// given. On success every cell from `(row, col)` on holds a given digit and the
/// board is solved; on failure the board is unchanged.
fn fill_cell(board: &mut Board, row: usize, col: usize) -> (r: bool)
    requires
        (row < 9 && col < 9) || (row == 9 && col == 0),
        consistent(*old(board)),
        filled_before(*old(board), row as int, col as int),
        forall|r: int, c: int|
            in_grid(r, c) && !before(r, c, row as int, col as int) ==> (#[trigger] value_at(
                *old(board),
                r,
                c,
            )) is None && !old(board)[r][c].given,
    ensures
        r == solvable(*old(board)),
        r ==> full(*final(board)) && consistent(*final(board)),
        r ==> fills(board_digits(*final(board)), *old(board)),
        r ==> forall|r: int, c: int|
            in_grid(r, c) && !before(r, c, row as int, col as int) ==> #[trigger] final(board)[r][c].given,
        forall|r: int, c: int|
            in_grid(r, c) && before(r, c, row as int, col as int) ==> #[trigger] final(board)[r][c]
                == old(board)[r][c],
        forall|r: int, c: int|
            in_grid(r, c) ==> (#[trigger] final(board)[r][c]).candidates_mask == old(
                board,
            )[r][c].candidates_mask && final(board)[r][c].wrong == old(board)[r][c].wrong,
        !r ==> *final(board) == *old(board),
    decreases 9 - row, 9 - col, 1nat,
{
    let ghost b0 = *board;
    if row == 9 {
        proof {
            lemma_filled_before_end(b0);
            lemma_full_board(b0);
        }
        return true;
    }
    let mut numbers: Vec<u8> = Vec::new();
    let mut d: u8 = 1;
    while d <= 9
        invariant
            1 <= d <= 10,
            numbers@.len() == d - 1,
            forall|i: int| 0 <= i < d - 1 ==> numbers@[i] == i + 1,
        decreases 10 - d,
    {
        numbers.push(d);
        d += 1;
    }
    let ghost ordered = numbers@;
    shuffle(&mut numbers);
    proof {
        lemma_shuffled_digits(ordered, numbers@);
    }
    fill_cell_in_order(board, row, col, &numbers)
}

/// Depth-first fill from `(row, col)` that tries the digits of `order`, in that
/// order, in the cell `(row, col)`, and fresh random orders in the later cells.
/// On success the cell holds the first digit of `order` with which the board can
/// still be completed.
fn fill_cell_in_order(board: &mut Board, row: usize, col: usize, order: &Vec<u8>) -> (r: bool)
    requires
        row < 9,
        col < 9,
        order@.len() == 9,
        forall|i: int| 0 <= i < 9 ==> 1 <= #[trigger] order@[i] <= 9,
        forall|d: u8| 1 <= d <= 9 ==> #[trigger] order@.contains(d),
        consistent(*old(board)),
        filled_before(*old(board), row as int, col as int),
        forall|r: int, c: int|
            in_grid(r, c) && !before(r, c, row as int, col as int) ==> (#[trigger] value_at(
                *old(board),
                r,
                c,
            )) is None && !old(board)[r][c].given,
    ensures
        r == solvable(*old(board)),
        r ==> full(*final(board)) && consistent(*final(board)),
        r ==> fills(board_digits(*final(board)), *old(board)),
        r ==> forall|r: int, c: int|
            in_grid(r, c) && !before(r, c, row as int, col as int) ==> #[trigger] final(board)[r][c].given,
        forall|r: int, c: int|
            in_grid(r, c) && before(r, c, row as int, col as int) ==> #[trigger] final(board)[r][c]
                == old(board)[r][c],
        forall|r: int, c: int|
            in_grid(r, c) ==> (#[trigger] final(board)[r][c]).candidates_mask == old(
                board,
            )[r][c].candidates_mask && final(board)[r][c].wrong == old(board)[r][c].wrong,
        !r ==> *final(board) == *old(board),
        r ==> exists|k: int|
            0 <= k < 9 && value_at(*final(board), row as int, col as int) == Some(
                #[trigger] order@[k],
            ) && forall|j: int|
                0 <= j < k ==> !digit_fits(*old(board), row as int, col as int, order@[j] as int),
    decreases 9 - row, 9 - col, 0nat,
{
    let ghost b0 = *board;
    let (next_row, next_col) = next_cell(row, col);
    proof {
        assert(value_at(b0, row as int, col as int) is None);
    }
    let mut k: usize = 0;
    while k < order.len()
        invariant
            k <= order@.len() == 9,
            forall|i: int| 0 <= i < 9 ==> 1 <= #[trigger] order@[i] <= 9,
            forall|d: u8| 1 <= d <= 9 ==> #[trigger] order@.contains(d),
            row < 9,
            col < 9,
            (col == 8 && next_row == row + 1 && next_col == 0) || (col < 8 && next_row == row
                && next_col == col + 1),
            *board == b0,
            b0 == *old(board),
            consistent(b0),
            filled_before(b0, row as int, col as int),
            value_at(b0, row as int, col as int) is None,
            !b0[row as int][col as int].given,
            forall|r: int, c: int|
                in_grid(r, c) && !before(r, c, row as int, col as int) ==> (#[trigger] value_at(
                    b0,
                    r,
                    c,
                )) is None && !b0[r][c].given,
            forall|t: Filling, i: int|
                #[trigger] fills(t, b0) && 0 <= i < k ==> t(row as int, col as int) != #[trigger] order@[i],
        decreases 9 - k,
    {
        let num = order[k];
        if is_safe(board, row, col, num) {
            board[row][col].value = Some(num);
            board[row][col].given = true;
            let ghost b1 = *board;
            proof {
                assert(values_set(b0, b1, row as int, col as int, Some(num)));
                lemma_place_consistent(b0, b1, row as int, col as int, num as int);
                assert(filled_before(b1, row as int, col as int));
                lemma_filled_before_next(
                    b1,
                    row as int,
                    col as int,
                    next_row as int,
                    next_col as int,
                );
                assert forall|r: int, c: int|
                    in_grid(r, c) && !before(
                        r,
                        c,
                        next_row as int,
                        next_col as int,
                    ) implies (#[trigger] value_at(b1, r, c)) is None && !b1[r][c].given by {
                    assert(!before(r, c, row as int, col as int));
                    assert(!(r == row && c == col));
                }
            }
            if fill_cell(board, next_row, next_col) {
                proof {
                    let s = board_digits(*board);
                    lemma_place(b0, b1, row as int, col as int, num as int, s);
                    assert forall|r: int, c: int|
                        in_grid(r, c) && !before(
                            r,
                            c,
                            row as int,
                            col as int,
                        ) implies #[trigger] board[r][c].given by {
                        if r == row && c == col {
                            assert(before(r, c, next_row as int, next_col as int));
                        } else {
                            assert(!before(r, c, next_row as int, next_col as int));
                        }
                    }
                    assert forall|r: int, c: int|
                        in_grid(r, c) && before(
                            r,
                            c,
                            row as int,
                            col as int,
                        ) implies #[trigger] board[r][c] == b0[r][c] by {
                        assert(before(r, c, next_row as int, next_col as int));
                    }
                    assert forall|r: int, c: int| in_grid(r, c) implies (#[trigger] board[r][c]).candidates_mask
                        == b0[r][c].candidates_mask && board[r][c].wrong == b0[r][c].wrong by {
                        assert(board[r][c].candidates_mask == b1[r][c].candidates_mask);
                    }
                    assert(before(row as int, col as int, next_row as int, next_col as int));
                    assert(board[row as int][col as int] == b1[row as int][col as int]);
                    assert forall|j: int| 0 <= j < k implies !digit_fits(
                        b0,
                        row as int,
                        col as int,
                        order@[j] as int,
                    ) by {
                        if digit_fits(b0, row as int, col as int, order@[j] as int) {
                            let t = choose|t: Filling|
                                fills(t, b0) && t(row as int, col as int) == order@[j] as int;
                            assert(t(row as int, col as int) != order@[j]);
                        }
                    }
                    assert(value_at(*board, row as int, col as int) == Some(order@[k as int]));
                }
                return true;
            }
            board[row][col].value = None;
            board[row][col].given = false;
            proof {
                assert(board[row as int] =~= b0[row as int]);
                assert(*board =~= b0);
                assert forall|t: Filling| #[trigger] fills(t, b0) implies t(row as int, col as int)
                    != num by {
                    lemma_place(b0, b1, row as int, col as int, num as int, t);
                }
            }
        } else {
            proof {
                assert forall|t: Filling| #[trigger] fills(t, b0) implies t(row as int, col as int)
                    != num by {
                    lemma_unsafe_excludes(b0, row as int, col as int, num as int, t);
                }
            }
        }
        k += 1;
    }
    proof {
        assert forall|t: Filling| !fills(t, b0) by {
            if fills(t, b0) {
                let v = t(row as int, col as int);
                assert(is_digit(v));
                assert(order@.contains(v as u8));
                let i = choose|i: int| 0 <= i < order@.len() && order@[i] == v as u8;
                assert(t(row as int, col as int) != order@[i]);
            }
        }
    }
    false
}

/// A completely filled board obeying every unit, with every cell given.
pub fn generate_complete_board() -> (r: Board)
    ensures
        full(r),
        consistent(r),
        forall|i: int, j: int|
            in_grid(i, j) ==> (#[trigger] r[i][j]).given && r[i][j].candidates_mask == 0
                && !r[i][j].wrong,
        forall|kind: int, i: int, d: int|
            0 <= kind < 3 && 0 <= i < 9 && is_digit(d) ==> #[trigger] unit_holds_once(r, kind, i, d),
{
    let mut board = [[Cell::empty(); 9]; 9];
    proof {
        lemma_pattern_valid(board);
    }
    let done = fill_cell(&mut board, 0, 0);
    assert(done);
    proof {
        lemma_complete_grid_units(board);
    }
    board
}


/// After a shuffle of all 81 coordinates, every entry is a cell of the grid,
/// no cell comes twice, and every cell is there.
proof fn lemma_shuffled_cells(orig: Seq<(usize, usize)>, sh: Seq<(usize, usize)>)
    requires
        orig.len() == 81,
        forall|i: int|
            0 <= i < orig.len() ==> (#[trigger] orig[i]).0 < 9 && orig[i].1 < 9 && 9 * orig[i].0
                + orig[i].1 == i,
        sh.to_multiset() == orig.to_multiset(),
    ensures
        forall|i: int| 0 <= i < sh.len() ==> (#[trigger] sh[i]).0 < 9 && sh[i].1 < 9,
        sh.no_duplicates(),
        forall|r: int, c: int| in_grid(r, c) ==> #[trigger] sh.contains((r as usize, c as usize)),
{
    sh.to_multiset_ensures();
    orig.to_multiset_ensures();
    assert forall|i: int| 0 <= i < sh.len() implies (#[trigger] sh[i]).0 < 9 && sh[i].1 < 9 by {
        assert(sh.contains(sh[i]));
        assert(orig.to_multiset().count(sh[i]) > 0);
        assert(orig.contains(sh[i]));
    }
    assert(orig.no_duplicates()) by {
        assert forall|i: int, j: int|
            0 <= i < orig.len() && 0 <= j < orig.len() && i != j implies orig[i] != orig[j] by {
            assert(9 * orig[i].0 + orig[i].1 == i);
            assert(9 * orig[j].0 + orig[j].1 == j);
        }
    }
    orig.lemma_multiset_has_no_duplicates();
    sh.lemma_multiset_has_no_duplicates_conv();
    assert forall|r: int, c: int| in_grid(r, c) implies #[trigger] sh.contains(
        (r as usize, c as usize),
    ) by {
        let k = 9 * r + c;
        assert(9 * orig[k].0 + orig[k].1 == k);
        assert(orig[k] == (r as usize, c as usize));
        assert(orig.contains((r as usize, c as usize)));
        assert(orig.to_multiset().count((r as usize, c as usize)) > 0);
    }
}

/// Visits the cells of `order` in turn and clears each one whose removal keeps
/// exactly one solution, until `cells_to_remove` cells have been cleared; a
/// refused removal is undone. The cells cleared are exactly `reduced_cells` of
/// the order; so either the target was reached or every cell of `order` that is
/// still filled is needed for the solution to stay unique.
pub fn remove_cells_in_order(
    board: &mut Board,
    order: &Vec<(usize, usize)>,
    cells_to_remove: usize,
)
    requires
        full(*old(board)),
        consistent(*old(board)),
        forall|r: int, c: int| in_grid(r, c) ==> (#[trigger] old(board)[r][c]).given,
        forall|i: int| 0 <= i < order@.len() ==> (#[trigger] order@[i]).0 < 9 && order@[i].1 < 9,
        order@.no_duplicates(),
    ensures
        consistent(*final(board)),
        uniquely_solvable(*final(board)),
        sub_puzzle(*final(board), *old(board)),
        forall|r: int, c: int|
            in_grid(r, c) ==> (#[trigger] final(board)[r][c]).given == (value_at(
                *final(board),
                r,
                c,
            ) is Some) && final(board)[r][c].candidates_mask == old(board)[r][c].candidates_mask
                && final(board)[r][c].wrong == old(board)[r][c].wrong,
        forall|r: int, c: int|
            in_grid(r, c) && (#[trigger] value_at(*final(board), r, c)) is None ==> order@.contains(
                (r as usize, c as usize),
            ),
        empty_cells(*final(board)) == reduced_cells(
            *old(board),
            order@,
            cells_to_remove as nat,
            Set::<(int, int)>::empty(),
        ),
        empty_cells(*final(board)).finite(),
        empty_cells(*final(board)).len() <= cells_to_remove,
        empty_cells(*final(board)).len() == cells_to_remove || forall|i: int|
            0 <= i < order@.len() && value_at(*final(board), order@[i].0 as int, order@[i].1 as int)
                is Some ==> needed(*final(board), #[trigger] order@[i].0 as int, order@[i].1 as int),
{
    let ghost b0 = *board;
    proof {
        lemma_full_board(b0);
        if ambiguous(b0) {
            let (s, t) = choose|s: Filling, t: Filling| fills(s, b0) && fills(t, b0) && differ(s, t);
            lemma_full_board_unique(b0, s, t);
        }
        assert(empty_cells(b0) =~= Set::<(int, int)>::empty());
    }
    let ghost mut cleared: Set<(int, int)> = Set::empty();
    let mut removed: usize = 0;
    let mut k: usize = 0;
    assert(order@.subrange(0, order@.len() as int) =~= order@);
    while k < order.len() && removed < cells_to_remove
        invariant
            k <= order@.len(),
            forall|m: int| 0 <= m < order@.len() ==> (#[trigger] order@[m]).0 < 9 && order@[m].1 < 9,
            order@.no_duplicates(),
            removed <= cells_to_remove,
            cleared.finite(),
            cleared.len() == removed,
            empty_cells(*board) == cleared,
            forall|p: (int, int)|
                #[trigger] cleared.contains(p) ==> exists|m: int|
                    0 <= m < k && order@[m].0 as int == p.0 && order@[m].1 as int == p.1,
            consistent(*board),
            uniquely_solvable(*board),
            sub_puzzle(*board, b0),
            forall|r: int, c: int|
                in_grid(r, c) ==> (#[trigger] board[r][c]).given == (value_at(*board, r, c) is Some)
                    && board[r][c].candidates_mask == b0[r][c].candidates_mask && board[r][c].wrong
                    == b0[r][c].wrong,
            b0 == *old(board),
            full(b0),
            reduced_cells(b0, order@, cells_to_remove as nat, Set::<(int, int)>::empty())
                == reduced_cells(
                b0,
                order@.subrange(k as int, order@.len() as int),
                cells_to_remove as nat,
                cleared,
            ),
            removed == cells_to_remove || forall|m: int|
                0 <= m < k && value_at(*board, order@[m].0 as int, order@[m].1 as int) is Some
                    ==> needed(*board, #[trigger] order@[m].0 as int, order@[m].1 as int),
        decreases order@.len() - k,
    {
        let (row, col) = order[k];
        let ghost prev = *board;
        let ghost p = (row as int, col as int);
        proof {
            if cleared.contains(p) {
                let m = choose|m: int|
                    0 <= m < k && order@[m].0 as int == p.0 && order@[m].1 as int == p.1;
                assert(order@[m] == order@[k as int]);
            }
            assert(!empty_cells(prev).contains(p));
            assert(value_at(prev, row as int, col as int) is Some);
        }
        let old_value = board[row][col].value;
        board[row][col].value = None;
        board[row][col].given = false;
        proof {
            assert(values_set(prev, *board, row as int, col as int, None));
            lemma_clear_consistent(prev, *board, row as int, col as int);
            lemma_clear_needed(prev, *board, row as int, col as int);
            assert(sub_puzzle(*board, prev));
            lemma_sub_puzzle(prev, *board);
            let s0 = choose|s0: Filling| fills(s0, prev);
            assert(fills(s0, *board));
            assert(empty_cells(*board) =~= cleared.insert(p));
            assert(sub_puzzle(*board, b0));
            lemma_outside(*board, b0);
            let rest_k = order@.subrange(k as int, order@.len() as int);
            assert(rest_k[0] == order@[k as int]);
            assert(rest_k.subrange(1, rest_k.len() as int) =~= order@.subrange(
                k + 1,
                order@.len() as int,
            ));
        }
        if count_solutions(board) == 1 {
            proof {
                cleared = cleared.insert(p);
                assert(empty_cells(*board) =~= cleared);
                assert(sub_puzzle(*board, b0));
                assert forall|q: (int, int)| #[trigger] cleared.contains(q) implies exists|m: int|
                    0 <= m < k + 1 && order@[m].0 as int == q.0 && order@[m].1 as int == q.1 by {
                    if q != p {
                        assert(empty_cells(prev).contains(q));
                    }
                }
            }
            removed += 1;
        } else {
            proof {
                assert(ambiguous(*board));
            }
            board[row][col].value = old_value;
            board[row][col].given = true;
            proof {
                assert(board[row as int] =~= prev[row as int]);
                assert(*board =~= prev);
            }
        }
        k += 1;
    }
    proof {
        let b = *board;
        if k == order@.len() {
            assert(order@.subrange(k as int, order@.len() as int).len() == 0);
        }
        assert forall|r: int, c: int|
            in_grid(r, c) && (#[trigger] value_at(b, r, c)) is None implies order@.contains(
                (r as usize, c as usize),
            ) by {
            assert(empty_cells(b).contains((r, c)));
            let m = choose|m: int| 0 <= m < k && order@[m].0 as int == r && order@[m].1 as int == c;
            assert(order@[m] == (r as usize, c as usize));
        }
        if removed != cells_to_remove {
            assert(k == order@.len());
        }
    }
}

/// Visits all 81 cells in random order and clears each one whose removal keeps
/// exactly one solution, until `cells_to_remove` cells have been cleared. The
/// board stays a sub-puzzle of the full grid it started as, with a unique
/// solution, and given exactly where it holds a value; unless the target was
/// reached, every cell still filled is needed for that uniqueness. The cells
/// cleared are `reduced_cells` of the random order drawn.
fn remove_cells(board: &mut Board, cells_to_remove: usize)
    requires
        full(*old(board)),
        consistent(*old(board)),
        forall|r: int, c: int| in_grid(r, c) ==> (#[trigger] old(board)[r][c]).given,
    ensures
        consistent(*final(board)),
        uniquely_solvable(*final(board)),
        sub_puzzle(*final(board), *old(board)),
        forall|r: int, c: int|
            in_grid(r, c) ==> (#[trigger] final(board)[r][c]).given == (value_at(
                *final(board),
                r,
                c,
            ) is Some) && final(board)[r][c].candidates_mask == old(board)[r][c].candidates_mask
                && final(board)[r][c].wrong == old(board)[r][c].wrong,
        empty_cells(*final(board)).finite(),
        empty_cells(*final(board)).len() <= cells_to_remove,
        empty_cells(*final(board)).len() == cells_to_remove || all_filled_needed(*final(board)),
        exists|order: Seq<(usize, usize)>|
            {
                &&& order.no_duplicates()
                &&& forall|r: int, c: int|
                    in_grid(r, c) ==> #[trigger] order.contains((r as usize, c as usize))
                &&& forall|m: int| 0 <= m < order.len() ==> (#[trigger] order[m]).0 < 9 && order[m].1 < 9
                &&& empty_cells(*final(board)) == #[trigger] reduced_cells(
                    *old(board),
                    order,
                    cells_to_remove as nat,
                    Set::<(int, int)>::empty(),
                )
            },
{
    let mut indices: Vec<(usize, usize)> = Vec::new();
    let mut i: usize = 0;
    while i < 9
        invariant
            i <= 9,
            indices@.len() == 9 * i,
            forall|k: int|
                0 <= k < indices@.len() ==> (#[trigger] indices@[k]).0 < 9 && indices@[k].1 < 9
                    && 9 * indices@[k].0 + indices@[k].1 == k,
        decreases 9 - i,
    {
        let mut j: usize = 0;
        while j < 9
            invariant
                i < 9,
                j <= 9,
                indices@.len() == 9 * i + j,
                forall|k: int|
                    0 <= k < indices@.len() ==> (#[trigger] indices@[k]).0 < 9 && indices@[k].1 < 9
                        && 9 * indices@[k].0 + indices@[k].1 == k,
            decreases 9 - j,
        {
            indices.push((i, j));
            j += 1;
        }
        i += 1;
    }
    let ghost ordered = indices@;
    shuffle(&mut indices);
    proof {
        lemma_shuffled_cells(ordered, indices@);
    }
    let ghost b_old = *board;
    remove_cells_in_order(board, &indices, cells_to_remove);
    proof {
        let b = *board;
        assert(empty_cells(b) == reduced_cells(
            b_old,
            indices@,
            cells_to_remove as nat,
            Set::<(int, int)>::empty(),
        ));
        if empty_cells(b).len() != cells_to_remove {
            assert forall|r: int, c: int|
                in_grid(r, c) && (#[trigger] value_at(b, r, c)) is Some implies needed(b, r, c) by {
                assert(indices@.contains((r as usize, c as usize)));
                let m = choose|m: int| 0 <= m < indices@.len() && indices@[m] == (r as usize, c as usize);
                assert(needed(b, indices@[m].0 as int, indices@[m].1 as int));
            }
        }
    }
}

/// A fresh puzzle: a random full grid with cells cleared while the solution
/// stays unique, at most as many as the difficulty's target. Exactly the
/// cells that hold a value are given.
pub fn generate_puzzle(difficulty: Difficulty) -> (r: Board)
    ensures
        is_puzzle(r, difficulty),
{
    let mut board = generate_complete_board();
    let cells_to_remove: usize = match difficulty {
        Difficulty::Easy => 45,
        Difficulty::Medium => 51,
        Difficulty::Hard => 55,
        Difficulty::Expert => 60,
    };
    remove_cells(&mut board, cells_to_remove);
    board
}


/// What a hint does to state `a`, giving `b` and outcome `r` (see `apply_hint`).
pub open spec fn hint_applied(a: GameState, b: GameState, r: bool) -> bool {
    let row = a.selection.row as int;
    let col = a.selection.col as int;
    let cell = a.grid[row][col];
    &&& r == (!cell.given && cell.value is None && solvable(a.grid))
    &&& !r ==> b == a
    &&& r ==> {
        &&& b.grid[row][col].value is Some
        &&& first_solution_digit(a.grid, row, col, b.grid[row][col].value->0 as int)
        &&& b.grid[row][col] == (Cell { value: b.grid[row][col].value, ..cell })
        &&& others_kept(a, b, row, col)
        &&& b.history == a.history
    }
}

/// Fills the selected cell with the digit of the board's first solution. Refused,
/// with nothing changed, when the cell is given, already holds a value, or the
/// board as a whole cannot be completed.
pub fn apply_hint(state: &mut GameState) -> (r: bool)
    requires
        old(state).selection.row < 9,
        old(state).selection.col < 9,
    ensures
        hint_applied(*old(state), *final(state), r),
{
    let cell = state.selected_cell();
    if cell.given || cell.value.is_some() {
        return false;
    }
    if let Some(correct_value) = get_correct_value_for_cell(
        &state.grid,
        state.selection.row,
        state.selection.col,
    ) {
        state.selected_cell_mut().value = Some(correct_value);
        true
    } else {
        false
    }
}

} // verus!
