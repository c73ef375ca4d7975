use sudokui::leaderboard::{Leaderboard, LeaderboardEntry, LEADERBOARD_SIZE};
use sudokui::state::Difficulty;

#[test]
fn test_add_entry() {
    let mut leaderboard = Leaderboard::new();

    let entry1 = LeaderboardEntry {
        difficulty: Difficulty::Easy,
        time_seconds: 100,
        completed_at: "2026-01-26T00:00:00Z".to_string(),
    };
    leaderboard.add_entry(entry1);

    let entry2 = LeaderboardEntry {
        difficulty: Difficulty::Easy,
        time_seconds: 50,
        completed_at: "2026-01-26T01:00:00Z".to_string(),
    };
    leaderboard.add_entry(entry2);

    let top = leaderboard.get_top_for_difficulty(Difficulty::Easy, 5);
    assert_eq!(top.len(), 2);
    assert_eq!(top[0].time_seconds, 50);
    assert_eq!(top[1].time_seconds, 100);
}

#[test]
fn test_per_difficulty_limit() {
    let mut leaderboard = Leaderboard::new();

    for i in 0..25 {
        leaderboard.add_entry(LeaderboardEntry {
            difficulty: Difficulty::Easy,
            time_seconds: 100 + i as u64,
            completed_at: "2026-01-26T00:00:00Z".to_string(),
        });
    }

    let easy_entries = leaderboard.get_top_for_difficulty(Difficulty::Easy, 100);
    assert_eq!(easy_entries.len(), LEADERBOARD_SIZE);
}

#[test]
fn test_multiple_difficulties() {
    let mut leaderboard = Leaderboard::new();

    leaderboard.add_entry(LeaderboardEntry {
        difficulty: Difficulty::Easy,
        time_seconds: 100,
        completed_at: "2026-01-26T00:00:00Z".to_string(),
    });

    leaderboard.add_entry(LeaderboardEntry {
        difficulty: Difficulty::Hard,
        time_seconds: 200,
        completed_at: "2026-01-26T01:00:00Z".to_string(),
    });

    let easy_top = leaderboard.get_top_for_difficulty(Difficulty::Easy, 5);
    let hard_top = leaderboard.get_top_for_difficulty(Difficulty::Hard, 5);

    assert_eq!(easy_top.len(), 1);
    assert_eq!(hard_top.len(), 1);
}

#[test]
fn cap_keeps_the_fastest_and_other_difficulties() {
    let mut leaderboard = Leaderboard::new();
    leaderboard.add_entry(LeaderboardEntry {
        difficulty: Difficulty::Hard,
        time_seconds: 7,
        completed_at: "h".to_string(),
    });
    for i in 0..25u64 {
        leaderboard.add_entry(LeaderboardEntry {
            difficulty: Difficulty::Easy,
            time_seconds: 200 - i,
            completed_at: "e".to_string(),
        });
    }
    let easy = leaderboard.get_top_for_difficulty(Difficulty::Easy, 100);
    assert_eq!(easy.len(), 20);
    assert_eq!(easy[0].time_seconds, 176);
    assert_eq!(easy[19].time_seconds, 195);
    let hard = leaderboard.get_top_for_difficulty(Difficulty::Hard, 100);
    assert_eq!(hard.len(), 1);
    assert_eq!(hard[0].time_seconds, 7);
    assert_eq!(leaderboard.get_top_for_difficulty(Difficulty::Easy, 3).len(), 3);
    assert_eq!(leaderboard.get_top_for_difficulty(Difficulty::Expert, 5).len(), 0);
}

#[test]
fn equal_times_keep_arrival_order() {
    let mut leaderboard = Leaderboard::new();
    for tag in ["first", "second"] {
        leaderboard.add_entry(LeaderboardEntry {
            difficulty: Difficulty::Medium,
            time_seconds: 90,
            completed_at: tag.to_string(),
        });
    }
    let top = leaderboard.get_top_for_difficulty(Difficulty::Medium, 5);
    assert_eq!(top[0].completed_at, "first");
    assert_eq!(top[1].completed_at, "second");
}
