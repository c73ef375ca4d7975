//! The rules of the game, stated over the board: units, consistency, and the
//! fillings (complete digit assignments) that solve a board.
use vstd::prelude::*;
use vstd::set_lib::{
    lemma_int_range, lemma_len_subset, lemma_map_size, lemma_set_disjoint_lens, lemma_subset_equality,
    set_int_range,
};

use crate::state::{Board, Difficulty};

verus! {

/// A solved assignment of digits: cell `(r, c)` holds `s(r, c)`.
pub type Filling = spec_fn(int, int) -> int;

pub open spec fn in_grid(r: int, c: int) -> bool {
    0 <= r < 9 && 0 <= c < 9
}

pub open spec fn is_digit(v: int) -> bool {
    1 <= v <= 9
}

/// Two distinct cells that share a row, a column or a 3x3 box.
pub open spec fn peers(r1: int, c1: int, r2: int, c2: int) -> bool {
    &&& in_grid(r1, c1)
    &&& in_grid(r2, c2)
    &&& !(r1 == r2 && c1 == c2)
    &&& (r1 == r2 || c1 == c2 || (r1 / 3 == r2 / 3 && c1 / 3 == c2 / 3))
}

/// Row-major order of cells: `(r1, c1)` comes strictly before `(r2, c2)`.
pub open spec fn before(r1: int, c1: int, r2: int, c2: int) -> bool {
    r1 < r2 || (r1 == r2 && c1 < c2)
}

pub open spec fn value_at(b: Board, r: int, c: int) -> Option<u8> {
    b[r][c].value
}

/// Every filled cell holds a digit 1-9 and no unit holds a digit twice.
pub open spec fn consistent(b: Board) -> bool {
    &&& forall|r: int, c: int|
        in_grid(r, c) && (#[trigger] value_at(b, r, c)) is Some ==> is_digit(
            value_at(b, r, c)->0 as int,
        )
    &&& forall|r1: int, c1: int, r2: int, c2: int|
        peers(r1, c1, r2, c2) && (#[trigger] value_at(b, r1, c1)) is Some && (#[trigger] value_at(
            b,
            r2,
            c2,
        )) is Some ==> value_at(b, r1, c1) != value_at(b, r2, c2)
}

/// Every cell holds a value.
pub open spec fn full(b: Board) -> bool {
    forall|r: int, c: int| in_grid(r, c) ==> (#[trigger] value_at(b, r, c)) is Some
}

/// Every cell strictly before `(row, col)` holds a value.
pub open spec fn filled_before(b: Board, row: int, col: int) -> bool {
    forall|r: int, c: int| in_grid(r, c) && before(r, c, row, col) ==> (#[trigger] value_at(b, r, c)) is Some
}

/// No peer of `(row, col)` holds digit `d`; the cell itself is not consulted.
pub open spec fn safe(b: Board, row: int, col: int, d: int) -> bool {
    forall|r: int, c: int| peers(row, col, r, c) ==> (#[trigger] value_at(b, r, c)) != Some(d as u8)
}

/// A complete assignment obeying every unit: each unit holds nine distinct digits.
pub open spec fn valid_filling(s: Filling) -> bool {
    &&& forall|r: int, c: int| in_grid(r, c) ==> is_digit(#[trigger] s(r, c))
    &&& forall|r1: int, c1: int, r2: int, c2: int|
        peers(r1, c1, r2, c2) ==> #[trigger] s(r1, c1) != #[trigger] s(r2, c2)
}

/// `s` solves `b`: it is valid and keeps every filled cell of `b`.
pub open spec fn fills(s: Filling, b: Board) -> bool {
    &&& valid_filling(s)
    &&& forall|r: int, c: int|
        in_grid(r, c) && (#[trigger] value_at(b, r, c)) is Some ==> s(r, c) == value_at(b, r, c)->0 as int
}

pub open spec fn solvable(b: Board) -> bool {
    exists|s: Filling| fills(s, b)
}

/// The two fillings disagree on some cell of the grid.
pub open spec fn differ(s: Filling, t: Filling) -> bool {
    exists|r: int, c: int| in_grid(r, c) && s(r, c) != t(r, c)
}

/// `b` has at least two solutions.
pub open spec fn ambiguous(b: Board) -> bool {
    exists|s: Filling, t: Filling| fills(s, b) && fills(t, b) && differ(s, t)
}

/// `b` has exactly one solution.
pub open spec fn uniquely_solvable(b: Board) -> bool {
    solvable(b) && !ambiguous(b)
}

/// The number of solutions of `b`, counted up to two.
pub open spec fn solution_count_capped(b: Board) -> nat {
    if !solvable(b) {
        0
    } else if ambiguous(b) {
        2
    } else {
        1
    }
}

/// `s` comes before `t` when read cell by cell in row-major order.
pub open spec fn lex_less(s: Filling, t: Filling) -> bool {
    exists|r: int, c: int|
        in_grid(r, c) && s(r, c) < t(r, c) && forall|r2: int, c2: int|
            in_grid(r2, c2) && before(r2, c2, r, c) ==> #[trigger] s(r2, c2) == t(r2, c2)
}

/// `s` is the first solution of `b` in row-major order with digits ascending.
pub open spec fn first_filling(s: Filling, b: Board) -> bool {
    fills(s, b) && forall|t: Filling| fills(t, b) ==> !lex_less(t, s)
}

/// The digits of a board, read as a filling.
pub open spec fn board_digits(b: Board) -> Filling {
    |r: int, c: int| value_at(b, r, c)->0 as int
}

/// The digits of a plain digit grid, read as a filling.
pub open spec fn grid_digits(g: [[u8; 9]; 9]) -> Filling {
    |r: int, c: int| g[r][c] as int
}

/// `b2` is `b1` with cell `(row, col)` set to value `v`; all other values are kept.
pub open spec fn values_set(b1: Board, b2: Board, row: int, col: int, v: Option<u8>) -> bool {
    &&& value_at(b2, row, col) == v
    &&& forall|r: int, c: int|
        in_grid(r, c) && !(r == row && c == col) ==> #[trigger] value_at(b2, r, c) == value_at(
            b1,
            r,
            c,
        )
}

/// Some solution of `b` puts digit `d` at `(row, col)`.
pub open spec fn digit_fits(b: Board, row: int, col: int, d: int) -> bool {
    exists|t: Filling| fills(t, b) && t(row, col) == d
}

/// `b2` keeps the given flag, pencil marks and wrong mark of every cell of `b1`.
pub open spec fn marks_kept(b1: Board, b2: Board) -> bool {
    forall|r: int, c: int|
        in_grid(r, c) ==> (#[trigger] b2[r][c]).given == b1[r][c].given && b2[r][c].candidates_mask
            == b1[r][c].candidates_mask && b2[r][c].wrong == b1[r][c].wrong
}

/// `s` solves `b` with cell `(row, col)` left open: it is valid and keeps every
/// other filled cell of `b`.
pub open spec fn fills_except(s: Filling, b: Board, row: int, col: int) -> bool {
    &&& valid_filling(s)
    &&& forall|r: int, c: int|
        in_grid(r, c) && !(r == row && c == col) && (#[trigger] value_at(b, r, c)) is Some ==> s(r, c)
            == value_at(b, r, c)->0 as int
}

/// Cell `(row, col)` is needed in `b`: with it cleared, `b` would have two solutions.
pub open spec fn needed(b: Board, row: int, col: int) -> bool {
    exists|s: Filling, t: Filling|
        fills_except(s, b, row, col) && fills_except(t, b, row, col) && differ(s, t)
}

/// Every filled cell of `b` is needed.
pub open spec fn all_filled_needed(b: Board) -> bool {
    forall|r: int, c: int| in_grid(r, c) && (#[trigger] value_at(b, r, c)) is Some ==> needed(b, r, c)
}

/// `b2` keeps some of the filled cells of `b1` and adds none.
pub open spec fn sub_puzzle(b2: Board, b1: Board) -> bool {
    forall|r: int, c: int|
        in_grid(r, c) && (#[trigger] value_at(b2, r, c)) is Some ==> value_at(b2, r, c) == value_at(
            b1,
            r,
            c,
        )
}

/// Clearing a cell leaves two solutions exactly when that cell is needed.
pub proof fn lemma_clear_needed(b: Board, b2: Board, row: int, col: int)
    requires
        in_grid(row, col),
        values_set(b, b2, row, col, None),
    ensures
        ambiguous(b2) == needed(b, row, col),
        forall|s: Filling| fills(s, b2) == fills_except(s, b, row, col),
{
    assert forall|s: Filling| fills(s, b2) == fills_except(s, b, row, col) by {
        if fills(s, b2) {
            assert forall|r: int, c: int|
                in_grid(r, c) && !(r == row && c == col) && (#[trigger] value_at(b, r, c)) is Some implies s(
                    r,
                    c,
                ) == value_at(b, r, c)->0 as int by {
                assert(value_at(b2, r, c) == value_at(b, r, c));
            }
        }
        if fills_except(s, b, row, col) {
            assert forall|r: int, c: int|
                in_grid(r, c) && (#[trigger] value_at(b2, r, c)) is Some implies s(r, c) == value_at(
                    b2,
                    r,
                    c,
                )->0 as int by {
                assert(value_at(b2, r, c) == value_at(b, r, c));
            }
        }
    }
    if ambiguous(b2) {
        let (s, t) = choose|s: Filling, t: Filling| fills(s, b2) && fills(t, b2) && differ(s, t);
        assert(fills_except(s, b, row, col) && fills_except(t, b, row, col));
    }
    if needed(b, row, col) {
        let (s, t) = choose|s: Filling, t: Filling|
            fills_except(s, b, row, col) && fills_except(t, b, row, col) && differ(s, t);
        assert(fills(s, b2) && fills(t, b2));
    }
}

/// Fewer filled cells lose no solution, and a needed cell stays needed.
pub proof fn lemma_sub_puzzle(b1: Board, b2: Board)
    requires
        sub_puzzle(b2, b1),
    ensures
        forall|s: Filling| fills(s, b1) ==> #[trigger] fills(s, b2),
        forall|r: int, c: int| #[trigger] needed(b1, r, c) ==> needed(b2, r, c),
{
    assert forall|s: Filling| fills(s, b1) implies #[trigger] fills(s, b2) by {
        assert forall|r: int, c: int|
            in_grid(r, c) && (#[trigger] value_at(b2, r, c)) is Some implies s(r, c) == value_at(
                b2,
                r,
                c,
            )->0 as int by {
            assert(value_at(b1, r, c) is Some);
        }
    }
    assert forall|r: int, c: int| #[trigger] needed(b1, r, c) implies needed(b2, r, c) by {
        let (s, t) = choose|s: Filling, t: Filling|
            fills_except(s, b1, r, c) && fills_except(t, b1, r, c) && differ(s, t);
        assert forall|u: Filling| fills_except(u, b1, r, c) implies fills_except(u, b2, r, c) by {
            assert forall|r2: int, c2: int|
                in_grid(r2, c2) && !(r2 == r && c2 == c) && (#[trigger] value_at(
                    b2,
                    r2,
                    c2,
                )) is Some implies u(r2, c2) == value_at(b2, r2, c2)->0 as int by {
                assert(value_at(b1, r2, c2) is Some);
            }
        }
        assert(fills_except(s, b2, r, c) && fills_except(t, b2, r, c));
    }
}

/// `s` solves the full grid `b0` with the cells of `e` left open.
pub open spec fn fills_outside(s: Filling, b0: Board, e: Set<(int, int)>) -> bool {
    &&& valid_filling(s)
    &&& forall|r: int, c: int|
        in_grid(r, c) && !e.contains((r, c)) ==> #[trigger] s(r, c) == value_at(b0, r, c)->0 as int
}

/// The full grid `b0` with the cells of `e` cleared has exactly one solution.
pub open spec fn unique_outside(b0: Board, e: Set<(int, int)>) -> bool {
    &&& exists|s: Filling| fills_outside(s, b0, e)
    &&& !exists|s: Filling, t: Filling|
        fills_outside(s, b0, e) && fills_outside(t, b0, e) && differ(s, t)
}

/// The cells cleared from the full grid `b0` when the cells of `order` are
/// visited in turn, the cells of `e` being clear already: a cell is cleared
/// when the grid keeps exactly one solution without it, and the visit stops
/// once `target` cells are clear.
pub open spec fn reduced_cells(
    b0: Board,
    order: Seq<(usize, usize)>,
    target: nat,
    e: Set<(int, int)>,
) -> Set<(int, int)>
    decreases order.len(),
{
    if order.len() == 0 || e.len() >= target {
        e
    } else {
        let p = (order[0].0 as int, order[0].1 as int);
        let rest = order.subrange(1, order.len() as int);
        if unique_outside(b0, e.insert(p)) {
            reduced_cells(b0, rest, target, e.insert(p))
        } else {
            reduced_cells(b0, rest, target, e)
        }
    }
}

/// A sub-puzzle of a full grid has the solutions of that grid with its empty cells open.
pub proof fn lemma_outside(b: Board, b0: Board)
    requires
        full(b0),
        sub_puzzle(b, b0),
    ensures
        forall|s: Filling| #[trigger] fills(s, b) == fills_outside(s, b0, empty_cells(b)),
        uniquely_solvable(b) == unique_outside(b0, empty_cells(b)),
{
    let e = empty_cells(b);
    assert forall|s: Filling| #[trigger] fills(s, b) == fills_outside(s, b0, e) by {
        if fills(s, b) {
            assert forall|r: int, c: int| in_grid(r, c) && !e.contains((r, c)) implies #[trigger] s(
                r,
                c,
            ) == value_at(b0, r, c)->0 as int by {
                assert(value_at(b, r, c) is Some);
            }
        }
        if fills_outside(s, b0, e) {
            assert forall|r: int, c: int|
                in_grid(r, c) && (#[trigger] value_at(b, r, c)) is Some implies s(r, c) == value_at(
                    b,
                    r,
                    c,
                )->0 as int by {
                assert(!e.contains((r, c)));
            }
        }
    }
    if uniquely_solvable(b) {
        let s = choose|s: Filling| fills(s, b);
        assert(fills_outside(s, b0, e));
        if exists|s: Filling, t: Filling| fills_outside(s, b0, e) && fills_outside(t, b0, e) && differ(s, t) {
            let (s1, t1) = choose|s: Filling, t: Filling|
                fills_outside(s, b0, e) && fills_outside(t, b0, e) && differ(s, t);
            assert(fills(s1, b) && fills(t1, b));
        }
    }
    if unique_outside(b0, e) {
        let s = choose|s: Filling| fills_outside(s, b0, e);
        assert(fills(s, b));
        if ambiguous(b) {
            let (s1, t1) = choose|s: Filling, t: Filling| fills(s, b) && fills(t, b) && differ(s, t);
            assert(fills_outside(s1, b0, e) && fills_outside(t1, b0, e));
        }
    }
}

/// A finite set of solutions of `b`, any two of which differ.
pub open spec fn solution_family(fam: Set<Filling>, b: Board) -> bool {
    &&& fam.finite()
    &&& forall|s: Filling| #[trigger] fam.contains(s) ==> fills(s, b)
    &&& forall|s: Filling, t: Filling|
        #[trigger] fam.contains(s) && #[trigger] fam.contains(t) && s != t ==> differ(s, t)
}

/// `b` has at least `n` different solutions.
pub open spec fn has_solutions(b: Board, n: nat) -> bool {
    exists|fam: Set<Filling>| solution_family(fam, b) && fam.len() >= n
}

/// At least one solution is being solvable; at least two is being ambiguous.
pub proof fn lemma_has_solutions_small(b: Board)
    ensures
        has_solutions(b, 0),
        has_solutions(b, 1) == solvable(b),
        has_solutions(b, 2) == ambiguous(b),
{
    assert(solution_family(Set::<Filling>::empty(), b));
    if solvable(b) {
        let s = choose|s: Filling| fills(s, b);
        let fam = Set::<Filling>::empty().insert(s);
        assert(solution_family(fam, b));
        assert(fam.len() == 1);
    }
    if has_solutions(b, 1) {
        let fam = choose|fam: Set<Filling>| solution_family(fam, b) && fam.len() >= 1;
        let s = fam.choose();
        assert(fam.contains(s));
    }
    if ambiguous(b) {
        let (s, t) = choose|s: Filling, t: Filling| fills(s, b) && fills(t, b) && differ(s, t);
        let fam = Set::<Filling>::empty().insert(s).insert(t);
        assert(s != t);
        assert(solution_family(fam, b)) by {
            assert forall|u: Filling, v: Filling|
                #[trigger] fam.contains(u) && #[trigger] fam.contains(v) && u != v implies differ(
                u,
                v,
            ) by {
                if u == t {
                    let (r, c) = choose|r: int, c: int| in_grid(r, c) && s(r, c) != t(r, c);
                    assert(in_grid(r, c) && u(r, c) != v(r, c));
                }
            }
        }
        assert(fam.len() == 2);
    }
    if has_solutions(b, 2) {
        let fam = choose|fam: Set<Filling>| solution_family(fam, b) && fam.len() >= 2;
        let s = fam.choose();
        assert(fam.contains(s));
        assert(fam.remove(s).len() >= 1);
        let t = fam.remove(s).choose();
        assert(fam.remove(s).contains(t));
        assert(fills(s, b) && fills(t, b) && differ(s, t));
    }
}

/// A full consistent board has no two different solutions.
pub proof fn lemma_full_board_one_solution(b: Board)
    requires
        full(b),
        consistent(b),
    ensures
        has_solutions(b, 1),
        !has_solutions(b, 2),
{
    lemma_has_solutions_small(b);
    lemma_full_board(b);
    if ambiguous(b) {
        let (s, t) = choose|s: Filling, t: Filling| fills(s, b) && fills(t, b) && differ(s, t);
        lemma_full_board_unique(b, s, t);
    }
}

/// Solutions of `b` that put a digit below `d` at `(row, col)`: at least `n` of them.
pub open spec fn has_solutions_below(b: Board, row: int, col: int, d: int, n: nat) -> bool {
    exists|fam: Set<Filling>|
        solution_family(fam, b) && fam.len() >= n && forall|s: Filling|
            #[trigger] fam.contains(s) ==> s(row, col) < d
}

/// Below ten every solution counts; below one none does; and zero always holds.
pub proof fn lemma_below_ends(b: Board, row: int, col: int, n: nat)
    requires
        in_grid(row, col),
    ensures
        has_solutions_below(b, row, col, 10, n) == has_solutions(b, n),
        has_solutions_below(b, row, col, 1, n) == (n == 0),
{
    assert(solution_family(Set::<Filling>::empty(), b));
    if has_solutions(b, n) {
        let fam = choose|fam: Set<Filling>| solution_family(fam, b) && fam.len() >= n;
        assert forall|s: Filling| #[trigger] fam.contains(s) implies s(row, col) < 10 by {
            assert(is_digit(s(row, col)));
        }
    }
    if has_solutions_below(b, row, col, 1, n) && n > 0 {
        let fam = choose|fam: Set<Filling>|
            solution_family(fam, b) && fam.len() >= n && forall|s: Filling|
                #[trigger] fam.contains(s) ==> s(row, col) < 1;
        let s = fam.choose();
        assert(fam.contains(s));
        assert(is_digit(s(row, col)));
    }
}

/// Solutions below `d` and solutions with `d` placed add up to solutions below `d + 1`.
pub proof fn lemma_below_union(b0: Board, b1: Board, row: int, col: int, d: int, c: nat, f: nat)
    requires
        in_grid(row, col),
        value_at(b0, row, col) is None,
        1 <= d <= 9,
        values_set(b0, b1, row, col, Some(d as u8)),
        has_solutions_below(b0, row, col, d, c),
        has_solutions(b1, f),
    ensures
        has_solutions_below(b0, row, col, d + 1, c + f),
{
    let s1 = choose|fam: Set<Filling>|
        solution_family(fam, b0) && fam.len() >= c && forall|s: Filling|
            #[trigger] fam.contains(s) ==> s(row, col) < d;
    let s2 = choose|fam: Set<Filling>| solution_family(fam, b1) && fam.len() >= f;
    let u = s1 + s2;
    assert forall|s: Filling| #[trigger] s2.contains(s) implies fills(s, b0) && s(row, col) == d by {
        lemma_place(b0, b1, row, col, d, s);
    }
    assert(s1.disjoint(s2)) by {
        assert forall|s: Filling| s1.contains(s) implies !s2.contains(s) by {
            if s2.contains(s) {
                assert(s(row, col) == d);
            }
        }
    }
    lemma_set_disjoint_lens(s1, s2);
    assert(solution_family(u, b0)) by {
        assert forall|s: Filling, t: Filling|
            #[trigger] u.contains(s) && #[trigger] u.contains(t) && s != t implies differ(s, t) by {
            if s1.contains(s) && s2.contains(t) {
                assert(in_grid(row, col) && s(row, col) != t(row, col));
            } else if s2.contains(s) && s1.contains(t) {
                assert(in_grid(row, col) && s(row, col) != t(row, col));
            }
        }
    }
    assert forall|s: Filling| #[trigger] u.contains(s) implies s(row, col) < d + 1 by {
        if s2.contains(s) {
            assert(s(row, col) == d);
        }
    }
}

/// Conversely, too few of each leaves too few below `d + 1`.
pub proof fn lemma_below_split(b0: Board, b1: Board, row: int, col: int, d: int, c: nat, f: nat)
    requires
        in_grid(row, col),
        value_at(b0, row, col) is None,
        1 <= d <= 9,
        values_set(b0, b1, row, col, Some(d as u8)),
        !has_solutions_below(b0, row, col, d, c + 1),
        !has_solutions(b1, f + 1),
    ensures
        !has_solutions_below(b0, row, col, d + 1, c + f + 1),
{
    if has_solutions_below(b0, row, col, d + 1, c + f + 1) {
        let fam = choose|fam: Set<Filling>|
            solution_family(fam, b0) && fam.len() >= c + f + 1 && forall|s: Filling|
                #[trigger] fam.contains(s) ==> s(row, col) < d + 1;
        let lo = fam.filter(|s: Filling| s(row, col) < d);
        let eq = fam.filter(|s: Filling| s(row, col) == d);
        lemma_len_subset(lo, fam);
        lemma_len_subset(eq, fam);
        assert(lo + eq =~= fam) by {
            assert forall|s: Filling| fam.contains(s) implies (lo + eq).contains(s) by {
                assert(s(row, col) < d + 1);
            }
        }
        assert(lo.disjoint(eq));
        lemma_set_disjoint_lens(lo, eq);
        if lo.len() >= c + 1 {
            assert(solution_family(lo, b0));
            assert forall|s: Filling| #[trigger] lo.contains(s) implies s(row, col) < d by {}
        } else {
            assert(eq.len() >= f + 1);
            assert forall|s: Filling| #[trigger] eq.contains(s) implies fills(s, b1) by {
                lemma_place(b0, b1, row, col, d, s);
            }
            assert(solution_family(eq, b1));
        }
    }
}

/// A digit that a peer holds adds no solution below the next digit.
pub proof fn lemma_below_skip(b: Board, row: int, col: int, d: int, n: nat)
    requires
        in_grid(row, col),
        1 <= d <= 9,
        !safe(b, row, col, d),
    ensures
        has_solutions_below(b, row, col, d + 1, n) == has_solutions_below(b, row, col, d, n),
{
    if has_solutions_below(b, row, col, d + 1, n) {
        let fam = choose|fam: Set<Filling>|
            solution_family(fam, b) && fam.len() >= n && forall|s: Filling|
                #[trigger] fam.contains(s) ==> s(row, col) < d + 1;
        assert forall|s: Filling| #[trigger] fam.contains(s) implies s(row, col) < d by {
            lemma_unsafe_excludes(b, row, col, d, s);
        }
    }
}

/// A board that cannot be solved is one whose filled cells already clash.
pub proof fn lemma_fills_consistent(s: Filling, b: Board)
    requires
        fills(s, b),
    ensures
        consistent(b),
{
    assert forall|r1: int, c1: int, r2: int, c2: int|
        peers(r1, c1, r2, c2) && (#[trigger] value_at(b, r1, c1)) is Some && (#[trigger] value_at(
            b,
            r2,
            c2,
        )) is Some implies value_at(b, r1, c1) != value_at(b, r2, c2) by {
        assert(s(r1, c1) != s(r2, c2));
    }
    assert forall|r: int, c: int|
        in_grid(r, c) && (#[trigger] value_at(b, r, c)) is Some implies is_digit(
            value_at(b, r, c)->0 as int,
        ) by {
        assert(is_digit(s(r, c)));
    }
}

/// Setting an empty cell to `d`: the solutions of the new board are exactly the
/// solutions of the old one that put `d` there.
pub proof fn lemma_place(b1: Board, b2: Board, row: int, col: int, d: int, s: Filling)
    requires
        in_grid(row, col),
        value_at(b1, row, col) is None,
        0 <= d < 256,
        values_set(b1, b2, row, col, Some(d as u8)),
    ensures
        fills(s, b2) <==> (fills(s, b1) && s(row, col) == d),
{
    if fills(s, b2) {
        assert(value_at(b2, row, col) is Some);
        assert(s(row, col) == d);
        assert forall|r: int, c: int|
            in_grid(r, c) && (#[trigger] value_at(b1, r, c)) is Some implies s(r, c) == value_at(
                b1,
                r,
                c,
            )->0 as int by {
            assert(value_at(b2, r, c) == value_at(b1, r, c));
        }
    }
    if fills(s, b1) && s(row, col) == d {
        assert forall|r: int, c: int|
            in_grid(r, c) && (#[trigger] value_at(b2, r, c)) is Some implies s(r, c) == value_at(
                b2,
                r,
                c,
            )->0 as int by {
            if r == row && c == col {
            } else {
                assert(value_at(b2, r, c) == value_at(b1, r, c));
            }
        }
    }
}

/// A digit that a peer already holds cannot go in the cell in any solution.
pub proof fn lemma_unsafe_excludes(b: Board, row: int, col: int, d: int, s: Filling)
    requires
        in_grid(row, col),
        1 <= d <= 9,
        !safe(b, row, col, d),
        fills(s, b),
    ensures
        s(row, col) != d,
{
    let (r, c) = choose|r: int, c: int|
        peers(row, col, r, c) && (#[trigger] value_at(b, r, c)) == Some(d as u8);
    assert(value_at(b, r, c) == Some(d as u8));
    assert(s(r, c) == d);
    assert(s(row, col) != s(r, c));
}

/// Placing a safe digit in an empty cell keeps the board consistent.
pub proof fn lemma_place_consistent(b1: Board, b2: Board, row: int, col: int, d: int)
    requires
        in_grid(row, col),
        value_at(b1, row, col) is None,
        1 <= d <= 9,
        consistent(b1),
        safe(b1, row, col, d),
        values_set(b1, b2, row, col, Some(d as u8)),
    ensures
        consistent(b2),
{
    assert forall|r1: int, c1: int, r2: int, c2: int|
        peers(r1, c1, r2, c2) && (#[trigger] value_at(b2, r1, c1)) is Some && (#[trigger] value_at(
            b2,
            r2,
            c2,
        )) is Some implies value_at(b2, r1, c1) != value_at(b2, r2, c2) by {
        if r1 == row && c1 == col {
            assert(value_at(b1, r2, c2) != Some(d as u8));
        } else if r2 == row && c2 == col {
            assert(peers(row, col, r1, c1));
            assert(value_at(b1, r1, c1) != Some(d as u8));
        } else {
            assert(value_at(b1, r1, c1) == value_at(b2, r1, c1));
            assert(value_at(b1, r2, c2) == value_at(b2, r2, c2));
        }
    }
    assert forall|r: int, c: int|
        in_grid(r, c) && (#[trigger] value_at(b2, r, c)) is Some implies is_digit(
            value_at(b2, r, c)->0 as int,
        ) by {
        if !(r == row && c == col) {
            assert(value_at(b1, r, c) == value_at(b2, r, c));
        }
    }
}

/// Clearing a cell keeps the board consistent.
pub proof fn lemma_clear_consistent(b1: Board, b2: Board, row: int, col: int)
    requires
        in_grid(row, col),
        consistent(b1),
        values_set(b1, b2, row, col, None),
    ensures
        consistent(b2),
{
    assert forall|r1: int, c1: int, r2: int, c2: int|
        peers(r1, c1, r2, c2) && (#[trigger] value_at(b2, r1, c1)) is Some && (#[trigger] value_at(
            b2,
            r2,
            c2,
        )) is Some implies value_at(b2, r1, c1) != value_at(b2, r2, c2) by {
        assert(value_at(b1, r1, c1) == value_at(b2, r1, c1));
        assert(value_at(b1, r2, c2) == value_at(b2, r2, c2));
    }
    assert forall|r: int, c: int|
        in_grid(r, c) && (#[trigger] value_at(b2, r, c)) is Some implies is_digit(
            value_at(b2, r, c)->0 as int,
        ) by {
        assert(value_at(b1, r, c) == value_at(b2, r, c));
    }
}

/// A full consistent board is solved by its own digits, and by nothing else.
pub proof fn lemma_full_board(b: Board)
    requires
        full(b),
        consistent(b),
    ensures
        fills(board_digits(b), b),
        forall|t: Filling| fills(t, b) ==> !differ(t, board_digits(b)),
{
    let s = board_digits(b);
    assert forall|r: int, c: int| in_grid(r, c) implies is_digit(#[trigger] s(r, c)) by {
        assert(value_at(b, r, c) is Some);
    }
    assert forall|r1: int, c1: int, r2: int, c2: int|
        peers(r1, c1, r2, c2) implies #[trigger] s(r1, c1) != #[trigger] s(r2, c2) by {
        assert(value_at(b, r1, c1) is Some);
        assert(value_at(b, r2, c2) is Some);
    }
    assert forall|r: int, c: int|
        in_grid(r, c) && (#[trigger] value_at(b, r, c)) is Some implies s(r, c) == value_at(
            b,
            r,
            c,
        )->0 as int by {}
    assert forall|t: Filling| fills(t, b) implies !differ(t, s) by {
        assert forall|r: int, c: int| in_grid(r, c) implies t(r, c) == s(r, c) by {
            assert(value_at(b, r, c) is Some);
        }
    }
}

/// The row-major order on fillings is asymmetric.
pub proof fn lemma_lex_asymmetric(s: Filling, t: Filling)
    requires
        lex_less(s, t),
    ensures
        !lex_less(t, s),
{
    let (r, c) = choose|r: int, c: int|
        in_grid(r, c) && s(r, c) < t(r, c) && forall|r2: int, c2: int|
            in_grid(r2, c2) && before(r2, c2, r, c) ==> #[trigger] s(r2, c2) == t(r2, c2);
    if lex_less(t, s) {
        let (q, p) = choose|q: int, p: int|
            in_grid(q, p) && t(q, p) < s(q, p) && forall|r2: int, c2: int|
                in_grid(r2, c2) && before(r2, c2, q, p) ==> #[trigger] t(r2, c2) == s(r2, c2);
        if before(q, p, r, c) {
            assert(s(q, p) == t(q, p));
        } else if before(r, c, q, p) {
            assert(t(r, c) == s(r, c));
        }
    }
}


/// Some first solution of `b` puts digit `v` at `(row, col)`.
pub open spec fn first_solution_digit(b: Board, row: int, col: int, v: int) -> bool {
    exists|s: Filling| first_filling(s, b) && s(row, col) == v
}

/// Being the first solution depends only on the digits inside the grid.
pub proof fn lemma_first_filling_agree(s: Filling, t: Filling, b: Board)
    requires
        first_filling(s, b),
        forall|r: int, c: int| in_grid(r, c) ==> s(r, c) == t(r, c),
    ensures
        first_filling(t, b),
{
    assert forall|r: int, c: int| in_grid(r, c) implies is_digit(#[trigger] t(r, c)) by {
        assert(is_digit(s(r, c)));
    }
    assert forall|r1: int, c1: int, r2: int, c2: int|
        peers(r1, c1, r2, c2) implies #[trigger] t(r1, c1) != #[trigger] t(r2, c2) by {
        assert(s(r1, c1) != s(r2, c2));
    }
    assert forall|r: int, c: int|
        in_grid(r, c) && (#[trigger] value_at(b, r, c)) is Some implies t(r, c) == value_at(
            b,
            r,
            c,
        )->0 as int by {
        assert(s(r, c) == value_at(b, r, c)->0 as int);
    }
    assert forall|u: Filling| fills(u, b) implies !lex_less(u, t) by {
        if lex_less(u, t) {
            let (r, c) = choose|r: int, c: int|
                in_grid(r, c) && u(r, c) < t(r, c) && forall|r2: int, c2: int|
                    in_grid(r2, c2) && before(r2, c2, r, c) ==> #[trigger] u(r2, c2) == t(r2, c2);
            assert forall|r2: int, c2: int|
                in_grid(r2, c2) && before(r2, c2, r, c) implies #[trigger] u(r2, c2) == s(r2, c2) by {
                assert(u(r2, c2) == t(r2, c2));
            }
            assert(lex_less(u, s));
        }
    }
}

/// Two solutions of a full board cannot differ.
pub proof fn lemma_full_board_unique(b: Board, s: Filling, t: Filling)
    requires
        full(b),
        consistent(b),
        fills(s, b),
        fills(t, b),
    ensures
        !differ(s, t),
{
    lemma_full_board(b);
    if differ(s, t) {
        let (r, c) = choose|r: int, c: int| in_grid(r, c) && s(r, c) != t(r, c);
        assert(value_at(b, r, c) is Some);
    }
}


/// A fixed solved grid: row `r` is the sequence 1-9 shifted by `3 * (r % 3) + r / 3`.
pub open spec fn pattern_filling() -> Filling {
    |r: int, c: int| (3 * (r % 3) + r / 3 + c) % 9 + 1
}

/// The fixed grid obeys every unit, so a board with no filled cell is solvable.
pub proof fn lemma_pattern_valid(b: Board)
    requires
        forall|r: int, c: int| in_grid(r, c) ==> (#[trigger] value_at(b, r, c)) is None,
    ensures
        valid_filling(pattern_filling()),
        solvable(b),
{
    let s = pattern_filling();
    assert forall|r: int, c: int| in_grid(r, c) implies is_digit(#[trigger] s(r, c)) by {}
    assert forall|r1: int, c1: int, r2: int, c2: int|
        peers(r1, c1, r2, c2) implies #[trigger] s(r1, c1) != #[trigger] s(r2, c2) by {
        lemma_pattern_peers(r1, c1, r2, c2);
    }
    assert(fills(s, b));
}

/// Two numbers less than nine apart and not equal leave different remainders mod 9.
proof fn lemma_mod9_distinct(x: int, y: int)
    requires
        0 <= x < 27,
        0 <= y < 27,
        x != y,
        -9 < x - y < 9,
    ensures
        x % 9 != y % 9,
{
}

proof fn lemma_pattern_peers(r1: int, c1: int, r2: int, c2: int)
    requires
        peers(r1, c1, r2, c2),
    ensures
        (3 * (r1 % 3) + r1 / 3 + c1) % 9 != (3 * (r2 % 3) + r2 / 3 + c2) % 9,
{
    let (a1, i1, a2, i2) = (r1 / 3, r1 % 3, r2 / 3, r2 % 3);
    let (b1, j1, b2, j2) = (c1 / 3, c1 % 3, c2 / 3, c2 % 3);
    assert(r1 == 3 * a1 + i1 && 0 <= a1 < 3 && 0 <= i1 < 3);
    assert(r2 == 3 * a2 + i2 && 0 <= a2 < 3 && 0 <= i2 < 3);
    assert(c1 == 3 * b1 + j1 && 0 <= b1 < 3 && 0 <= j1 < 3);
    assert(c2 == 3 * b2 + j2 && 0 <= b2 < 3 && 0 <= j2 < 3);
    let x = 3 * i1 + a1 + c1;
    let y = 3 * i2 + a2 + c2;
    if r1 == r2 {
        lemma_mod9_distinct(x, y);
    } else if c1 == c2 {
        assert(i1 != i2 || a1 != a2);
        lemma_mod9_distinct(x, y);
    } else {
        assert(a1 == a2 && b1 == b2);
        assert(i1 != i2 || j1 != j2);
        assert(x - y == 3 * (i1 - i2) + (j1 - j2));
        lemma_mod9_distinct(x, y);
    }
}

/// The cells of `b` that hold no value.
pub open spec fn empty_cells(b: Board) -> Set<(int, int)> {
    Set::new(|p: (int, int)| in_grid(p.0, p.1) && value_at(b, p.0, p.1) is None)
}

/// How many cells the reducer aims to clear at each difficulty.
pub open spec fn removal_target(d: Difficulty) -> nat {
    match d {
        Difficulty::Easy => 45,
        Difficulty::Medium => 51,
        Difficulty::Hard => 55,
        Difficulty::Expert => 60,
    }
}


/// The `k`-th cell (0-8) of unit `i` (0-8) of a kind: rows (0), columns (1) or boxes (2).
pub open spec fn unit_cell(kind: int, i: int, k: int) -> (int, int) {
    if kind == 0 {
        (i, k)
    } else if kind == 1 {
        (k, i)
    } else {
        ((i / 3) * 3 + k / 3, (i % 3) * 3 + k % 3)
    }
}

/// Digit `d` stands in exactly one cell of unit `i` of the given kind.
pub open spec fn unit_holds_once(b: Board, kind: int, i: int, d: int) -> bool {
    exists|k: int|
        0 <= k < 9 && value_at(b, unit_cell(kind, i, k).0, unit_cell(kind, i, k).1) == Some(d as u8)
            && forall|k2: int|
            0 <= k2 < 9 && k2 != k ==> value_at(
                b,
                #[trigger] unit_cell(kind, i, k2).0,
                unit_cell(kind, i, k2).1,
            ) != Some(d as u8)
}

/// Nine distinct digits are all nine digits.
proof fn lemma_nine_distinct_digits(f: spec_fn(int) -> int)
    requires
        forall|k: int| 0 <= k < 9 ==> is_digit(#[trigger] f(k)),
        forall|k1: int, k2: int| 0 <= k1 < 9 && 0 <= k2 < 9 && k1 != k2 ==> #[trigger] f(k1) != #[trigger] f(k2),
    ensures
        forall|d: int| is_digit(d) ==> exists|k: int| 0 <= k < 9 && #[trigger] f(k) == d,
{
    let x = set_int_range(0, 9);
    let z = set_int_range(1, 10);
    lemma_int_range(0, 9);
    lemma_int_range(1, 10);
    let y = x.map(f);
    assert(vstd::relations::injective_on(f, x));
    lemma_map_size(x, y, f);
    assert(y.subset_of(z)) by {
        assert forall|d: int| y.contains(d) implies z.contains(d) by {
            let k = choose|k: int| x.contains(k) && f(k) == d;
        }
    }
    lemma_subset_equality(y, z);
    assert forall|d: int| is_digit(d) implies exists|k: int| 0 <= k < 9 && #[trigger] f(k) == d by {
        assert(z.contains(d));
        assert(y.contains(d));
    }
}

/// The cells of one unit are distinct cells of the grid, pairwise peers.
proof fn lemma_unit_cells(kind: int, i: int)
    requires
        0 <= kind < 3,
        0 <= i < 9,
    ensures
        forall|k: int|
            0 <= k < 9 ==> in_grid(#[trigger] unit_cell(kind, i, k).0, unit_cell(kind, i, k).1),
        forall|k1: int, k2: int|
            0 <= k1 < 9 && 0 <= k2 < 9 && k1 != k2 ==> peers(
                #[trigger] unit_cell(kind, i, k1).0,
                unit_cell(kind, i, k1).1,
                #[trigger] unit_cell(kind, i, k2).0,
                unit_cell(kind, i, k2).1,
            ),
{
    assert forall|k1: int, k2: int| 0 <= k1 < 9 && 0 <= k2 < 9 && k1 != k2 implies peers(
        #[trigger] unit_cell(kind, i, k1).0,
        unit_cell(kind, i, k1).1,
        #[trigger] unit_cell(kind, i, k2).0,
        unit_cell(kind, i, k2).1,
    ) by {
        if kind == 2 {
            assert(k1 / 3 != k2 / 3 || k1 % 3 != k2 % 3);
            assert(((i / 3) * 3 + k1 / 3) / 3 == i / 3);
            assert(((i / 3) * 3 + k2 / 3) / 3 == i / 3);
            assert(((i % 3) * 3 + k1 % 3) / 3 == i % 3);
            assert(((i % 3) * 3 + k2 % 3) / 3 == i % 3);
        }
    }
}

/// In a full board that obeys every unit, every row, every column and every
/// 3x3 box holds each digit 1-9 exactly once.
pub proof fn lemma_complete_grid_units(b: Board)
    requires
        full(b),
        consistent(b),
    ensures
        forall|kind: int, i: int, d: int|
            0 <= kind < 3 && 0 <= i < 9 && is_digit(d) ==> #[trigger] unit_holds_once(b, kind, i, d),
{
    assert forall|kind: int, i: int, d: int|
        0 <= kind < 3 && 0 <= i < 9 && is_digit(d) implies #[trigger] unit_holds_once(b, kind, i, d) by {
        lemma_unit_cells(kind, i);
        let f = |k: int| value_at(b, unit_cell(kind, i, k).0, unit_cell(kind, i, k).1)->0 as int;
        assert forall|k: int| 0 <= k < 9 implies is_digit(#[trigger] f(k)) by {
            assert(in_grid(unit_cell(kind, i, k).0, unit_cell(kind, i, k).1));
            assert(value_at(b, unit_cell(kind, i, k).0, unit_cell(kind, i, k).1) is Some);
        }
        assert forall|k1: int, k2: int|
            0 <= k1 < 9 && 0 <= k2 < 9 && k1 != k2 implies #[trigger] f(k1) != #[trigger] f(k2) by {
            let (r1, c1) = unit_cell(kind, i, k1);
            let (r2, c2) = unit_cell(kind, i, k2);
            assert(peers(r1, c1, r2, c2));
            assert(value_at(b, r1, c1) is Some);
            assert(value_at(b, r2, c2) is Some);
        }
        lemma_nine_distinct_digits(f);
        let k = choose|k: int| 0 <= k < 9 && #[trigger] f(k) == d;
        let (r, c) = unit_cell(kind, i, k);
        assert(value_at(b, r, c) is Some);
        assert forall|k2: int| 0 <= k2 < 9 && k2 != k implies value_at(
            b,
            #[trigger] unit_cell(kind, i, k2).0,
            unit_cell(kind, i, k2).1,
        ) != Some(d as u8) by {
            let (r2, c2) = unit_cell(kind, i, k2);
            assert(peers(r, c, r2, c2));
            assert(value_at(b, r2, c2) is Some);
        }
    }
}

/// A full board that obeys every unit can be completed, and its first
/// solution is the board itself.
pub proof fn lemma_solution_of_complete_grid(b: Board, g: [[u8; 9]; 9])
    requires
        full(b),
        consistent(b),
    ensures
        solvable(b),
        first_filling(grid_digits(g), b) ==> forall|r: int, c: int|
            in_grid(r, c) ==> #[trigger] value_at(b, r, c) == Some(g[r][c]),
{
    lemma_full_board(b);
    if first_filling(grid_digits(g), b) {
        assert forall|r: int, c: int| in_grid(r, c) implies #[trigger] value_at(b, r, c) == Some(
            g[r][c],
        ) by {
            assert(value_at(b, r, c) is Some);
            assert(grid_digits(g)(r, c) == value_at(b, r, c)->0 as int);
        }
    }
}

/// Two fillings that differ are ordered one way or the other, found by
/// scanning from `(row, col)` on, given that they agree on every earlier cell.
proof fn lemma_differ_ordered(s: Filling, t: Filling, row: int, col: int)
    requires
        (0 <= row < 9 && 0 <= col < 9) || (row == 9 && col == 0),
        differ(s, t),
        forall|r: int, c: int| in_grid(r, c) && before(r, c, row, col) ==> #[trigger] s(r, c) == t(r, c),
    ensures
        lex_less(s, t) || lex_less(t, s),
    decreases 9 - row, 9 - col,
{
    if row == 9 {
        let (r, c) = choose|r: int, c: int| in_grid(r, c) && s(r, c) != t(r, c);
        assert(before(r, c, row, col));
    } else if s(row, col) != t(row, col) {
        assert forall|r2: int, c2: int|
            in_grid(r2, c2) && before(r2, c2, row, col) implies #[trigger] t(r2, c2) == s(r2, c2) by {
            assert(s(r2, c2) == t(r2, c2));
        }
        assert forall|r2: int, c2: int|
            in_grid(r2, c2) && before(r2, c2, row, col) implies #[trigger] s(r2, c2) == t(r2, c2) by {}
        if s(row, col) < t(row, col) {
            assert(in_grid(row, col) && s(row, col) < t(row, col) && forall|r2: int, c2: int|
                in_grid(r2, c2) && before(r2, c2, row, col) ==> #[trigger] s(r2, c2) == t(r2, c2));
        } else {
            assert(in_grid(row, col) && t(row, col) < s(row, col) && forall|r2: int, c2: int|
                in_grid(r2, c2) && before(r2, c2, row, col) ==> #[trigger] t(r2, c2) == s(r2, c2));
        }
    } else {
        let (nr, nc) = if col == 8 {
            (row + 1, 0)
        } else {
            (row, col + 1)
        };
        assert forall|r: int, c: int| in_grid(r, c) && before(r, c, nr, nc) implies #[trigger] s(r, c)
            == t(r, c) by {
            if !(r == row && c == col) {
                assert(before(r, c, row, col));
            }
        }
        lemma_differ_ordered(s, t, nr, nc);
    }
}

/// A board has at most one first solution.
pub proof fn lemma_first_filling_unique(s: Filling, t: Filling, b: Board)
    requires
        first_filling(s, b),
        first_filling(t, b),
    ensures
        !differ(s, t),
{
    if differ(s, t) {
        lemma_differ_ordered(s, t, 0, 0);
    }
}

/// The digit a hint writes into a cell and the digit `get_correct_value_for_cell`
/// reports for it are both the first solution's digit there, so they agree.
pub proof fn lemma_hint_matches_correct_value(b: Board, row: int, col: int, v: int, w: int)
    requires
        in_grid(row, col),
        first_solution_digit(b, row, col, v),
        first_solution_digit(b, row, col, w),
    ensures
        v == w,
{
    let s = choose|s: Filling| first_filling(s, b) && s(row, col) == v;
    let t = choose|t: Filling| first_filling(t, b) && t(row, col) == w;
    lemma_first_filling_unique(s, t, b);
}


/// Clearing one cell of a full board that obeys every unit leaves a board that
/// can be completed, and its first solution puts the cleared digit back.
pub proof fn lemma_cleared_cell_restored(b: Board, b2: Board, row: int, col: int)
    requires
        full(b),
        consistent(b),
        in_grid(row, col),
        values_set(b, b2, row, col, None),
    ensures
        solvable(b2),
        forall|v: int|
            #[trigger] first_solution_digit(b2, row, col, v) ==> value_at(b, row, col) == Some(
                v as u8,
            ) && 0 <= v < 256,
{
    lemma_full_board(b);
    let s = board_digits(b);
    assert forall|r: int, c: int|
        in_grid(r, c) && (#[trigger] value_at(b2, r, c)) is Some implies s(r, c) == value_at(
            b2,
            r,
            c,
        )->0 as int by {
        assert(value_at(b2, r, c) == value_at(b, r, c));
    }
    assert(fills(s, b2));
    lemma_complete_grid_units(b);
    assert forall|v: int| #[trigger] first_solution_digit(b2, row, col, v) implies value_at(
        b,
        row,
        col,
    ) == Some(v as u8) && 0 <= v < 256 by {
        let t = choose|t: Filling| first_filling(t, b2) && t(row, col) == v;
        assert(is_digit(v));
        assert(unit_holds_once(b, 0, row, v));
        let k = choose|k: int|
            0 <= k < 9 && value_at(b, unit_cell(0, row, k).0, unit_cell(0, row, k).1) == Some(
                v as u8,
            ) && forall|k2: int|
                0 <= k2 < 9 && k2 != k ==> value_at(
                    b,
                    #[trigger] unit_cell(0, row, k2).0,
                    unit_cell(0, row, k2).1,
                ) != Some(v as u8);
        if k != col {
            assert(value_at(b2, row, k) == value_at(b, row, k));
            assert(t(row, k) == v);
            assert(peers(row, col, row, k));
        }
    }
}

} // verus!
