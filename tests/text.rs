use sudokui::state::{Difficulty, GameState};
use sudokui::text::{
    border_line, bottom_border_line, column_header_line, format_hhmmss, header_line,
    mid_border_line, top_border_line,
};

fn expected_border(left: char, mid: char, right: char, cell_w: usize) -> String {
    let run = "─".repeat(cell_w * 3 + 4);
    format!("  {left}{run}{mid}{run}{mid}{run}{right}")
}

fn expected_header(cell_w: usize) -> String {
    let mut out = String::from("    ");
    for col in 0..9 {
        out.push_str(&format!("{:^width$}", col + 1, width = cell_w));
        if col == 2 || col == 5 {
            out.push_str("   ");
        } else if col != 8 {
            out.push(' ');
        }
    }
    out
}

#[test]
fn borders_match_their_layout() {
    for cell_w in [1, 2, 3, 5] {
        assert_eq!(
            top_border_line(cell_w),
            expected_border('┌', '┬', '┐', cell_w)
        );
        assert_eq!(
            mid_border_line(cell_w),
            expected_border('├', '┼', '┤', cell_w)
        );
        assert_eq!(
            bottom_border_line(cell_w),
            expected_border('└', '┴', '┘', cell_w)
        );
    }
    assert_eq!(border_line('a', 'b', 'c', 0), "  a────b────b────c");
}

#[test]
fn column_header_centres_each_number() {
    for cell_w in [0, 1, 2, 3, 5] {
        assert_eq!(column_header_line(cell_w), expected_header(cell_w));
    }
    assert_eq!(
        column_header_line(3),
        "     1   2   3     4   5   6     7   8   9 "
    );
}

#[test]
fn timer_pads_to_two_digits() {
    assert_eq!(format_hhmmss(0), "00:00:00");
    assert_eq!(format_hhmmss(3725), "01:02:05");
    assert_eq!(format_hhmmss(86399), "23:59:59");
    assert_eq!(format_hhmmss(360000), "100:00:00");
}

#[test]
fn header_shows_difficulty_timer_and_mistakes() {
    let mut state = GameState::new(Difficulty::Expert);
    state.mistakes = 2;
    assert_eq!(
        header_line(&state, 3725),
        "SUDOKUI  Very Hard  01:02:05  Mistakes: 2/3"
    );
    state.max_mistakes_warning = true;
    state.difficulty = Difficulty::Medium;
    assert_eq!(
        header_line(&state, 59),
        "SUDOKUI  Medium  00:00:59  Mistakes: 2/3 [MAX MISTAKES!]"
    );
}
