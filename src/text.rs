//! The text of the drawn board: borders, column header and the timer.
use vstd::prelude::*;
use vstd::string::StringExecFns;

use crate::state::{Difficulty, GameState};

verus! {

/// Relies on `String::push`: appends one character.
#[verifier::external_body]
fn push_char(s: &mut String, c: char)
    ensures
        final(s)@ == old(s)@.push(c),
{
    s.push(c);
}

/// `n` copies of `c`.
pub open spec fn repeated(c: char, n: nat) -> Seq<char> {
    Seq::new(n, |i: int| c)
}

/// A horizontal border: two spaces of margin, then the left corner, three runs
/// of `3 * cell_w + 4` lines separated by `mid`, and the right corner.
pub open spec fn border_text(left: char, mid: char, right: char, cell_w: nat) -> Seq<char> {
    let run = repeated('─', 3 * cell_w + 4);
    seq![' ', ' ', left] + run + seq![mid] + run + seq![mid] + run + seq![right]
}

fn push_repeated(s: &mut String, c: char, n: usize)
    ensures
        final(s)@ == old(s)@ + repeated(c, n as nat),
{
    let mut i: usize = 0;
    while i < n
        invariant
            i <= n,
            s@ == old(s)@ + repeated(c, i as nat),
        decreases n - i,
    {
        push_char(s, c);
        proof {
            assert(s@ =~= old(s)@ + repeated(c, (i + 1) as nat));
        }
        i += 1;
    }
}

pub fn border_line(left: char, mid: char, right: char, cell_w: usize) -> (r: String)
    requires
        3 * cell_w + 4 <= usize::MAX,
    ensures
        r@ == border_text(left, mid, right, cell_w as nat),
{
    let block_w = (cell_w * 3) + 4;
    let mut out = String::new();
    push_char(&mut out, ' ');
    push_char(&mut out, ' ');
    push_char(&mut out, left);
    push_repeated(&mut out, '─', block_w);
    push_char(&mut out, mid);
    push_repeated(&mut out, '─', block_w);
    push_char(&mut out, mid);
    push_repeated(&mut out, '─', block_w);
    push_char(&mut out, right);
    proof {
        assert(out@ =~= border_text(left, mid, right, cell_w as nat));
    }
    out
}


pub fn top_border_line(cell_w: usize) -> (r: String)
    requires
        3 * cell_w + 4 <= usize::MAX,
    ensures
        r@ == border_text('┌', '┬', '┐', cell_w as nat),
{
    border_line('┌', '┬', '┐', cell_w)
}

pub fn mid_border_line(cell_w: usize) -> (r: String)
    requires
        3 * cell_w + 4 <= usize::MAX,
    ensures
        r@ == border_text('├', '┼', '┤', cell_w as nat),
{
    border_line('├', '┼', '┤', cell_w)
}

pub fn bottom_border_line(cell_w: usize) -> (r: String)
    requires
        3 * cell_w + 4 <= usize::MAX,
    ensures
        r@ == border_text('└', '┴', '┘', cell_w as nat),
{
    border_line('└', '┴', '┘', cell_w)
}

/// The character of decimal digit `d` (0-9).
pub open spec fn digit_char(d: nat) -> char {
    if d == 0 {
        '0'
    } else if d == 1 {
        '1'
    } else if d == 2 {
        '2'
    } else if d == 3 {
        '3'
    } else if d == 4 {
        '4'
    } else if d == 5 {
        '5'
    } else if d == 6 {
        '6'
    } else if d == 7 {
        '7'
    } else if d == 8 {
        '8'
    } else {
        '9'
    }
}

fn digit(d: u64) -> (r: char)
    requires
        d < 10,
    ensures
        r == digit_char(d as nat),
{
    if d == 0 {
        '0'
    } else if d == 1 {
        '1'
    } else if d == 2 {
        '2'
    } else if d == 3 {
        '3'
    } else if d == 4 {
        '4'
    } else if d == 5 {
        '5'
    } else if d == 6 {
        '6'
    } else if d == 7 {
        '7'
    } else if d == 8 {
        '8'
    } else {
        '9'
    }
}

/// `c` centred in a field of `w` characters, any odd space going right.
pub open spec fn centered(c: char, w: nat) -> Seq<char> {
    if w <= 1 {
        seq![c]
    } else {
        repeated(' ', ((w - 1) as nat / 2) as nat) + seq![c] + repeated(
            ' ',
            ((w - 1) as nat - (w - 1) as nat / 2) as nat,
        )
    }
}

/// What follows column `col` in the header: a wide gap after each box, a
/// single space between columns, nothing after the last.
pub open spec fn column_gap(col: nat) -> Seq<char> {
    if col == 2 || col == 5 {
        seq![' ', ' ', ' ']
    } else if col != 8 {
        seq![' ']
    } else {
        Seq::empty()
    }
}

/// The labels of the first `n` columns, each centred in `w` characters.
pub open spec fn column_labels(w: nat, n: nat) -> Seq<char>
    decreases n,
{
    if n == 0 {
        Seq::empty()
    } else {
        column_labels(w, (n - 1) as nat) + centered(digit_char(n), w) + column_gap((n - 1) as nat)
    }
}

/// The column numbers 1-9 above the grid, each centred over its cell.
pub fn column_header_line(cell_w: usize) -> (r: String)
    requires
        cell_w < usize::MAX,
    ensures
        r@ == seq![' ', ' ', ' ', ' '] + column_labels(cell_w as nat, 9),
{
    let mut out = String::new();
    push_repeated(&mut out, ' ', 4);
    proof {
        assert(out@ =~= seq![' ', ' ', ' ', ' '] + column_labels(cell_w as nat, 0));
    }
    let mut col: u64 = 0;
    while col < 9
        invariant
            col <= 9,
            cell_w < usize::MAX,
            out@ == seq![' ', ' ', ' ', ' '] + column_labels(cell_w as nat, col as nat),
        decreases 9 - col,
    {
        let ghost before = out@;
        let label = digit(col + 1);
        if cell_w <= 1 {
            push_char(&mut out, label);
        } else {
            let pad = cell_w - 1;
            push_repeated(&mut out, ' ', pad / 2);
            push_char(&mut out, label);
            push_repeated(&mut out, ' ', pad - pad / 2);
        }
        if col == 2 || col == 5 {
            push_repeated(&mut out, ' ', 3);
        } else if col != 8 {
            push_char(&mut out, ' ');
        }
        proof {
            assert(out@ =~= before + centered(digit_char((col + 1) as nat), cell_w as nat)
                + column_gap(col as nat));
            assert(out@ =~= seq![' ', ' ', ' ', ' '] + column_labels(cell_w as nat, (col + 1) as nat));
        }
        col += 1;
    }
    out
}

/// The decimal digits of `n`, most significant first.
pub open spec fn decimal(n: nat) -> Seq<char>
    decreases n,
{
    if n < 10 {
        seq![digit_char(n)]
    } else {
        decimal(n / 10) + seq![digit_char(n % 10)]
    }
}

/// `n` in decimal, with a leading zero below ten.
pub open spec fn two_digits(n: nat) -> Seq<char> {
    if n < 10 {
        seq!['0', digit_char(n)]
    } else {
        decimal(n)
    }
}

fn push_decimal(s: &mut String, n: u64)
    ensures
        final(s)@ == old(s)@ + decimal(n as nat),
    decreases n,
{
    if n >= 10 {
        push_decimal(s, n / 10);
    }
    push_char(s, digit(n % 10));
    proof {
        if n >= 10 {
            assert(final(s)@ =~= old(s)@ + decimal(n as nat));
        } else {
            assert(final(s)@ =~= old(s)@ + decimal(n as nat));
        }
    }
}

fn push_two_digits(s: &mut String, n: u64)
    ensures
        final(s)@ == old(s)@ + two_digits(n as nat),
{
    if n < 10 {
        push_char(s, '0');
    }
    push_decimal(s, n);
    proof {
        assert(final(s)@ =~= old(s)@ + two_digits(n as nat));
    }
}

/// A duration of `secs` seconds as hours, minutes and seconds, each at
/// least two digits: `HH:MM:SS`.
pub fn format_hhmmss(secs: u64) -> (r: String)
    ensures
        r@ == hhmmss(secs as nat),
{
    let h = secs / 3600;
    let m = (secs % 3600) / 60;
    let s = secs % 60;
    let mut out = String::new();
    push_two_digits(&mut out, h);
    push_char(&mut out, ':');
    push_two_digits(&mut out, m);
    push_char(&mut out, ':');
    push_two_digits(&mut out, s);
    proof {
        assert(out@ =~= two_digits(h as nat) + seq![':'] + two_digits(m as nat) + seq![':']
            + two_digits(s as nat));
    }
    out
}


/// The name a difficulty is shown under.
pub open spec fn difficulty_name(d: Difficulty) -> Seq<char> {
    match d {
        Difficulty::Easy => "Easy"@,
        Difficulty::Medium => "Medium"@,
        Difficulty::Hard => "Hard"@,
        Difficulty::Expert => "Very Hard"@,
    }
}

/// The name a difficulty is shown under.
pub fn difficulty_label(d: Difficulty) -> (r: &'static str)
    ensures
        r@ == difficulty_name(d),
{
    match d {
        Difficulty::Easy => "Easy",
        Difficulty::Medium => "Medium",
        Difficulty::Hard => "Hard",
        Difficulty::Expert => "Very Hard",
    }
}

/// The timer text for `secs` seconds.
pub open spec fn hhmmss(secs: nat) -> Seq<char> {
    two_digits(secs / 3600) + seq![':'] + two_digits((secs % 3600) / 60) + seq![':'] + two_digits(
        secs % 60,
    )
}

/// The title bar while playing: name, difficulty, timer, mistakes, and a
/// warning once the maximum of mistakes is reached.
pub fn header_line(state: &GameState, elapsed_secs: u64) -> (r: String)
    ensures
        r@ == "SUDOKUI  "@ + difficulty_name(state.difficulty) + "  "@ + hhmmss(
            elapsed_secs as nat,
        ) + "  Mistakes: "@ + decimal(state.mistakes as nat) + "/"@ + decimal(
            state.mistakes_max as nat,
        ) + if state.max_mistakes_warning {
            " [MAX MISTAKES!]"@
        } else {
            Seq::<char>::empty()
        },
{
    let mut out = String::new();
    out.append("SUDOKUI  ");
    out.append(difficulty_label(state.difficulty));
    out.append("  ");
    let timer = format_hhmmss(elapsed_secs);
    out.append(timer.as_str());
    out.append("  Mistakes: ");
    push_decimal(&mut out, state.mistakes as u64);
    out.append("/");
    push_decimal(&mut out, state.mistakes_max as u64);
    if state.max_mistakes_warning {
        out.append(" [MAX MISTAKES!]");
    }
    proof {
        assert(out@ =~= "SUDOKUI  "@ + difficulty_name(state.difficulty) + "  "@ + hhmmss(
            elapsed_secs as nat,
        ) + "  Mistakes: "@ + decimal(state.mistakes as nat) + "/"@ + decimal(
            state.mistakes_max as nat,
        ) + if state.max_mistakes_warning {
            " [MAX MISTAKES!]"@
        } else {
            Seq::<char>::empty()
        });
    }
    out
}

} // verus!
