use sgr_bot::chat::ChatThrottle;
use sgr_bot::leaderboard::{self, PlacementPlayer, RefreshLimiter};
use sgr_bot::text::{i64_string, u64_string};

fn player(name: &str, new_rating: i64, old_rating: i64) -> PlacementPlayer {
    PlacementPlayer {
        name: name.to_string(),
        new_rating,
        old_rating,
    }
}

#[test]
fn match_string() {
    let teams = vec![
        vec![player("StarCubey", 1600, 1500), player("StarCubey", 1600, 1500)],
        vec![
            player("F A C T S 2", 1600, 1500),
            player("F A C T S 2", 1600, 1500),
        ],
        vec![player("F A C T S 3", 1600, 1500)],
    ];
    let match_string = leaderboard::match_string(&teams, Some(vec![5, 1, 3]), None);

    println!("{}\n{}", match_string.0, match_string.1);
}

#[test]
fn match_string_ranks_by_score() {
    let teams = vec![
        vec![player("Low", 1400, 1450)],
        vec![player("High", 1650, 1500)],
    ];
    let (detailed, summary) = leaderboard::match_string(&teams, Some(vec![1, 5]), None);
    assert_eq!(detailed, summary);
    // the score line leads with the higher score
    assert!(summary.starts_with("5 - 1\n"));
    // each player is rendered with rounded rating and signed delta
    assert!(summary.contains("High (1650, +150)"));
    assert!(summary.contains("Low (1400, -50)"));
    // the winner's block is ranked first
    let high_at = summary.find("High").unwrap();
    let low_at = summary.find("Low").unwrap();
    assert!(high_at < low_at);
}

#[test]
fn match_string_marks_a_draw() {
    let teams = vec![
        vec![player("Alice", 1500, 1500)],
        vec![player("Bob", 1500, 1500)],
    ];
    let (_, summary) = leaderboard::match_string(&teams, None, Some(vec![true]));
    assert!(summary.starts_with("Draw\n"));
    assert!(summary.contains("Alice (1500, +0)"));
    assert!(summary.contains("Bob (1500, +0)"));
}

#[test]
fn refresh_coalesces_to_one_deferred_run() {
    // two updates five seconds apart: the first refreshes at once, the
    // second waits for the cool-down and runs exactly once
    let mut limiter = RefreshLimiter::new();
    let mut refreshes = 0;

    let (run, arm) = limiter.on_update();
    assert!(run && arm);
    refreshes += 1;

    let (run, _) = limiter.on_update();
    assert!(!run);

    let (run, arm) = limiter.on_timer();
    assert!(run && arm);
    refreshes += 1;

    let (run, _) = limiter.on_timer();
    assert!(!run);
    assert!(limiter.can_update);

    assert_eq!(refreshes, 2);
}

#[test]
fn chat_throttle_bounds_a_burst_to_six() {
    let mut throttle = ChatThrottle::new();
    let mut sent = 0;
    for i in 0..7 {
        let out = throttle.chat(format!("message {}", i));
        sent += out.len();
    }
    assert_eq!(sent, 6);

    // the next refill releases the seventh, in order
    let out = throttle.tick();
    assert_eq!(out, vec!["message 6".to_string()]);
}

#[test]
fn chat_throttle_keeps_fifo_order() {
    let mut throttle = ChatThrottle::new();
    let mut all = Vec::new();
    for i in 0..9 {
        all.extend(throttle.chat(format!("m{}", i)));
    }
    while all.len() < 9 {
        all.extend(throttle.tick());
    }
    let expected: Vec<String> = (0..9).map(|i| format!("m{}", i)).collect();
    assert_eq!(all, expected);
}

#[test]
fn match_log_names_are_escaped() {
    let teams = vec![
        vec![player("a-b_c", 1500, 1500)],
        vec![player("plain", 1500, 1500)],
    ];
    let (detailed, summary) = leaderboard::match_string(&teams, None, Some(vec![false]));
    assert!(detailed.contains("a\\-b\\_c (1500, +0)"));
    assert!(summary.contains("a-b_c (1500, +0)"));
    assert!(!summary.contains("\\"));
}

#[test]
fn two_team_outcome_names_winner_and_loser() {
    let teams = vec![
        vec![player("First", 1510, 1500)],
        vec![player("Second", 1490, 1500)],
    ];
    let (_, summary) = leaderboard::match_string(&teams, None, Some(vec![false]));
    assert_eq!(summary, "Winner: First (1510, +10)\nLoser: Second (1490, -10)\n");
}

#[test]
fn tied_teams_share_an_ordinal() {
    let teams = vec![
        vec![player("Ada", 1510, 1500)],
        vec![player("Ben", 1510, 1500)],
        vec![player("Cy", 1480, 1500)],
    ];
    let (_, summary) = leaderboard::match_string(&teams, None, Some(vec![true, false]));
    assert_eq!(
        summary,
        "1. Ada (1510, +10)\n1. Ben (1510, +10)\n3. Cy (1480, -20)\n"
    );
}

#[test]
fn decimal_rendering_is_exact() {
    assert_eq!(u64_string(0), "0");
    assert_eq!(u64_string(67890), "67890");
    assert_eq!(i64_string(-12), "-12");
    assert_eq!(i64_string(i64::MIN), "-9223372036854775808");
}
