use sgr_bot::bonk_commands::{fuzzy_finder, pick, ready, strike, strike_count, vote_cancel};
use sgr_bot::bonk_room::{Action, BonkRoom, GamePlayers, GameScores, Player, RoomState};
use sgr_bot::events::{
    on_game_end, on_lobby_visibility, on_player_leave, on_transition_timer_expired,
    transition_idle, update_players,
};
use sgr_bot::room_maker::{
    close_escalates, creation_wait, Mode, Queue, RetryPolicy, RoomParameters,
};

fn params(mode: Mode, queue: Queue, maps: usize) -> RoomParameters {
    let mut map_list = Vec::new();
    let mut i = 0;
    while i < maps {
        map_list.push(format!("map{}", i));
        i += 1;
    }
    RoomParameters {
        name: "test room".to_string(),
        password: None,
        max_players: 8,
        min_level: 0,
        unlisted: true,
        headless: true,
        mode,
        queue,
        rounds: 3,
        maps: map_list,
        strike_num: 2,
        strike_time: 20,
        team_size: 2,
        team_num: 2,
        ffa_min: 2,
        ffa_max: 7,
        idle_time: 0,
        pick_time: 60,
        ready_time: 60,
        game_time: 600,
        leaderboard: None,
    }
}

fn snapshot_player(id: i32, name: &str) -> Player {
    Player {
        id,
        team: 0,
        ready: false,
        ready_cmd: false,
        name: name.to_string(),
        in_room: true,
    }
}

fn queue_up(room: &mut BonkRoom, names: &[(&str, i32)]) {
    let snapshot: Vec<Player> = names
        .iter()
        .map(|(n, id)| snapshot_player(*id, n))
        .collect();
    let bot = "bot".to_string();
    let _ = update_players(room, &snapshot, 1000, &bot);
}

fn queue_names(room: &BonkRoom) -> Vec<String> {
    room.queue.iter().map(|e| e.player.name.clone()).collect()
}

fn has_chat(acts: &[Action], text: &str) -> bool {
    acts.iter().any(|a| match a {
        Action::Chat { message } => message == text,
        _ => false,
    })
}

#[test]
fn creation_pacing_and_retries() {
    assert_eq!(creation_wait(None, 1_000), 0);
    assert_eq!(creation_wait(Some(1_000), 2_000), 4_000);
    assert_eq!(creation_wait(Some(1_000), 6_000), 0);

    let mut policy = RetryPolicy::new(3);
    assert!(policy.on_failure());
    assert!(policy.on_failure());
    assert!(!policy.on_failure());

    assert!(!close_escalates(0, 600_000));
    assert!(close_escalates(0, 600_001));
}

#[test]
fn fuzzy_finder_test() {
    let output = fuzzy_finder(
        "RDDuwu",
        &vec![
            "StarCubey".to_string(),
            "Arrrd God".to_string(),
            "Arow Godd".to_string(),
        ],
    );

    println!("{:?}", output);
}

#[test]
fn fuzzy_exact_match_wins() {
    let keys = vec![
        "StarCubey".to_string(),
        "Star".to_string(),
        "Cubey".to_string(),
    ];
    let out = fuzzy_finder("StarCubey", &keys);
    assert_eq!(out, vec!["StarCubey".to_string()]);
}

#[test]
fn fuzzy_empty_query_matches_nothing() {
    let keys = vec!["Alice".to_string(), "Bob".to_string()];
    let out = fuzzy_finder("", &keys);
    assert!(out.is_empty());
}

#[test]
fn singles_pair_launches_to_map_selection() {
    // two queued players in a three-map classic room launch at once
    let mut room = BonkRoom::new(params(Mode::Classic, Queue::Singles, 3), false);
    queue_up(&mut room, &[("Alice", 1), ("Bob", 2)]);
    let acts = transition_idle(&mut room);

    assert!(matches!(room.state, RoomState::MapSelection));
    match &room.game_players {
        GamePlayers::Singles { picker, picked } => {
            assert_eq!(picker.as_ref().unwrap().name, "Alice");
            assert_eq!(picked.as_ref().unwrap().name, "Bob");
        }
        _ => panic!("expected a singles assignment"),
    }
    let struck = room.map_strikes.iter().filter(|s| **s).count();
    assert_eq!(struck, 1);
    assert!(has_chat(&acts, "Use !s to roll another map or use !r to start."));
    assert!(matches!(acts.last(), Some(Action::SendStartCountdown)));
}

#[test]
fn pick_timeout_kicks_captain() {
    // three queued players enter picking; the captain never picks
    let mut room = BonkRoom::new(params(Mode::Classic, Queue::Singles, 3), false);
    queue_up(&mut room, &[("Alice", 1), ("Bob", 2), ("Carol", 3)]);
    let _ = transition_idle(&mut room);
    assert!(matches!(room.state, RoomState::Pick));

    let acts = on_transition_timer_expired(&mut room);
    assert!(matches!(acts.first(), Some(Action::Kick { id: 1 })));
    assert!(matches!(room.state, RoomState::Idle));
    assert!(!queue_names(&room).contains(&"Alice".to_string()));
    assert_eq!(room.queue.len(), 2);
}

#[test]
fn double_strike_is_rejected_inside_guard() {
    // four maps keep striking open after the first accepted strike
    let mut room = BonkRoom::new(params(Mode::Classic, Queue::Singles, 4), false);
    queue_up(&mut room, &[("Alice", 1), ("Bob", 2)]);
    let _ = transition_idle(&mut room);
    assert!(matches!(room.state, RoomState::MapSelection));

    // accepted: the timer shows at most the configured strike time
    let first = strike(&mut room, 1, 20);
    assert!(!first.is_empty());
    assert_eq!(strike_count(&room, 1), 1);
    assert!(matches!(room.state, RoomState::MapSelection));

    // rejected: issued right after the re-arm, still above twenty
    let second = strike(&mut room, 1, 21);
    assert!(second.is_empty());
    assert_eq!(strike_count(&room, 1), 1);
}

#[test]
fn strike_exhaustion_moves_to_ready() {
    let mut room = BonkRoom::new(params(Mode::Classic, Queue::Singles, 3), false);
    queue_up(&mut room, &[("Alice", 1), ("Bob", 2)]);
    let _ = transition_idle(&mut room);
    assert!(matches!(room.state, RoomState::MapSelection));
    // three maps: one struck at selection, a strike leaves one unstruck
    let _ = strike(&mut room, 1, 10);
    assert!(matches!(room.state, RoomState::Ready));
}

#[test]
fn football_premature_leave_reports_the_survivor() {
    // Football singles: the picked player leaves mid-game and the
    // picker's side is reported as the winner
    let mut room = BonkRoom::new(params(Mode::Football, Queue::Singles, 3), true);
    queue_up(&mut room, &[("Alice", 1), ("Bob", 2)]);
    let _ = transition_idle(&mut room);
    // Football skips map selection
    assert!(matches!(room.state, RoomState::Ready));

    let _ = ready(&mut room, 1, true);
    let _ = ready(&mut room, 2, true);
    assert!(matches!(room.state, RoomState::GameStarting));
    let _ = on_lobby_visibility(&mut room, false);
    assert!(matches!(room.state, RoomState::InGame));

    let picker_team: i64 = if room.team_flip { 2 } else { 3 };
    let bob = snapshot_player(2, "Bob");
    let acts = on_player_leave(&mut room, &bob);
    match acts.first() {
        Some(Action::EndGame { winner, tie }) => {
            assert_eq!(*winner, Some(picker_team));
            assert!(!tie);
        }
        other => panic!("expected a game end, got {:?}", other.is_some()),
    }

    let end_acts = on_game_end(&mut room, Some(picker_team), false, &GameScores::Unavailable);
    let update = end_acts.iter().find_map(|a| match a {
        Action::RatingUpdate { teams, ties } => Some((teams.clone(), ties.clone())),
        _ => None,
    });
    let (teams, ties) = update.expect("a rating update is sent");
    assert_eq!(teams, vec![vec!["Alice".to_string()], vec!["Bob".to_string()]]);
    assert_eq!(ties, vec![false]);
    // the opponent lands in front of the captain at the tail
    assert_eq!(queue_names(&room), vec!["Bob".to_string(), "Alice".to_string()]);
    assert!(matches!(room.state, RoomState::Idle));
}

#[test]
fn teams_game_end_ranks_by_score_and_rotates() {
    // two one-player teams; slot 0 (Alice) outscores slot 1 (Bob)
    let mut p = params(Mode::Classic, Queue::Teams, 3);
    p.team_size = 1;
    let mut room = BonkRoom::new(p, true);
    queue_up(&mut room, &[("Alice", 1), ("Bob", 2)]);
    let _ = transition_idle(&mut room);
    assert!(matches!(room.state, RoomState::Pick));
    // the game ran its course; the host reports the final scores
    room.state = RoomState::InGame;

    let acts = on_game_end(&mut room, None, false, &GameScores::ByTeam(vec![3, 1]));
    let update = acts.iter().find_map(|a| match a {
        Action::RatingUpdate { teams, ties } => Some((teams.clone(), ties.clone())),
        _ => None,
    });
    let (teams, ties) = update.expect("a rating update is sent");
    assert_eq!(teams, vec![vec!["Alice".to_string()], vec!["Bob".to_string()]]);
    assert_eq!(ties, vec![false]);
    // both captains were rotated to the back; with a two-spot queue
    // the names are merely permuted
    let mut names = queue_names(&room);
    names.sort();
    assert_eq!(names, vec!["Alice".to_string(), "Bob".to_string()]);
    assert!(matches!(room.state, RoomState::Idle));
}

#[test]
fn teams_game_end_overrides_the_winner_slot() {
    // the declared winner outranks a better raw score
    let mut p = params(Mode::Classic, Queue::Teams, 3);
    p.team_size = 1;
    p.rounds = 9;
    let mut room = BonkRoom::new(p, true);
    queue_up(&mut room, &[("Alice", 1), ("Bob", 2)]);
    let _ = transition_idle(&mut room);
    room.state = RoomState::InGame;

    // slot 1 (Bob) is declared winner despite trailing 0 - 5
    let acts = on_game_end(&mut room, Some(1), false, &GameScores::ByTeam(vec![5, 0]));
    let update = acts.iter().find_map(|a| match a {
        Action::RatingUpdate { teams, ties } => Some((teams.clone(), ties.clone())),
        _ => None,
    });
    let (teams, ties) = update.expect("a rating update is sent");
    assert_eq!(teams, vec![vec!["Bob".to_string()], vec!["Alice".to_string()]]);
    assert_eq!(ties, vec![false]);
}

#[test]
fn ffa_game_end_ties_on_equal_scores() {
    let mut room = BonkRoom::new(params(Mode::Classic, Queue::FFA, 3), true);
    queue_up(&mut room, &[("Alice", 1), ("Bob", 2), ("Carol", 3)]);
    let _ = transition_idle(&mut room);
    assert!(matches!(room.state, RoomState::MapSelection));
    for id in [1, 2, 3] {
        let _ = ready(&mut room, id, true);
    }
    let _ = on_lobby_visibility(&mut room, false);

    let acts = on_game_end(
        &mut room,
        None,
        false,
        &GameScores::ByPlayer(vec![(1, 2), (2, 4), (3, 2)]),
    );
    let update = acts.iter().find_map(|a| match a {
        Action::RatingUpdate { teams, ties } => Some((teams.clone(), ties.clone())),
        _ => None,
    });
    let (teams, ties) = update.expect("a rating update is sent");
    assert_eq!(
        teams,
        vec![
            vec!["Bob".to_string()],
            vec!["Alice".to_string()],
            vec!["Carol".to_string()]
        ]
    );
    assert_eq!(ties, vec![false, true]);
    assert!(matches!(room.state, RoomState::Idle));
}

#[test]
fn pick_out_of_state_is_rebuffed() {
    let mut room = BonkRoom::new(params(Mode::Classic, Queue::Singles, 3), false);
    let acts = pick(&mut room, 1, &"Bob".to_string());
    assert!(has_chat(&acts, "You can't pick an opponent right now."));
    assert!(matches!(room.state, RoomState::Idle));
}

#[test]
fn pick_resolves_a_queued_spectator() {
    let mut room = BonkRoom::new(params(Mode::Classic, Queue::Singles, 3), false);
    queue_up(&mut room, &[("Alice", 1), ("Bob", 2), ("Carol", 3)]);
    let _ = transition_idle(&mut room);
    assert!(matches!(room.state, RoomState::Pick));

    // the wrong player may not pick
    let acts = pick(&mut room, 2, &"Carol".to_string());
    assert!(has_chat(&acts, "It's Alice's turn to pick."));

    // the captain picks an unambiguous name
    let acts = pick(&mut room, 1, &"Carol".to_string());
    assert!(acts
        .iter()
        .any(|a| matches!(a, Action::ChangeTeam { id: 3, team: 1 })));
    assert!(matches!(room.state, RoomState::MapSelection));
    match &room.game_players {
        GamePlayers::Singles { picked, .. } => {
            assert_eq!(picked.as_ref().unwrap().name, "Carol");
        }
        _ => panic!("expected a singles assignment"),
    }
}

#[test]
fn queue_spot_is_evicted_after_hold() {
    let mut room = BonkRoom::new(params(Mode::Classic, Queue::Singles, 3), false);
    let bot = "bot".to_string();
    let both = vec![snapshot_player(1, "Alice"), snapshot_player(2, "Bob")];
    let _ = update_players(&mut room, &both, 1_000, &bot);
    assert_eq!(room.queue.len(), 2);

    // Bob vanishes; within the hold he keeps his spot
    let only_alice = vec![snapshot_player(1, "Alice")];
    let _ = update_players(&mut room, &only_alice, 30_000, &bot);
    assert_eq!(room.queue.len(), 2);
    assert!(!room.queue[1].player.in_room);

    // one minute later the spot is gone
    let _ = update_players(&mut room, &only_alice, 70_000, &bot);
    assert_eq!(queue_names(&room), vec!["Alice".to_string()]);
}

#[test]
fn rejoin_keeps_queue_position() {
    let mut room = BonkRoom::new(params(Mode::Classic, Queue::Singles, 3), false);
    let bot = "bot".to_string();
    let both = vec![snapshot_player(1, "Alice"), snapshot_player(2, "Bob")];
    let _ = update_players(&mut room, &both, 1_000, &bot);
    let only_bob = vec![snapshot_player(2, "Bob")];
    let _ = update_players(&mut room, &only_bob, 10_000, &bot);
    // Alice returns under a fresh id before the hold lapses
    let back = vec![snapshot_player(9, "Alice"), snapshot_player(2, "Bob")];
    let _ = update_players(&mut room, &back, 20_000, &bot);
    assert_eq!(
        queue_names(&room),
        vec!["Alice".to_string(), "Bob".to_string()]
    );
    assert_eq!(room.queue[0].player.id, 9);
}

#[test]
fn chat_commands_are_dispatched() {
    let mut room = BonkRoom::new(params(Mode::Classic, Queue::Singles, 3), false);
    let acts = sgr_bot::events::on_message(&mut room, 1, "!ping", 0, true);
    assert!(has_chat(&acts, "Pong!"));

    let acts = sgr_bot::events::on_message(&mut room, 1, "!help", 0, true);
    assert!(has_chat(&acts, "!queue (lists the queue)"));

    let acts = sgr_bot::events::on_message(&mut room, 1, "just chatting", 0, true);
    assert!(acts.is_empty());

    // a pick out of phase routes to the pick handler's rebuff
    let acts = sgr_bot::events::on_message(&mut room, 1, "!p Bob", 0, true);
    assert!(has_chat(&acts, "You can't pick an opponent right now."));
}

#[test]
fn queue_command_lists_present_players() {
    let mut room = BonkRoom::new(params(Mode::Classic, Queue::Singles, 3), false);
    queue_up(&mut room, &[("Alice", 1), ("Bob", 2)]);
    let acts = sgr_bot::events::on_message(&mut room, 1, "!queue", 0, true);
    assert!(has_chat(&acts, "Alice, Bob"));
}

#[test]
fn cancel_votes_need_a_majority() {
    let mut room = BonkRoom::new(params(Mode::Classic, Queue::Singles, 3), false);
    queue_up(&mut room, &[("Alice", 1), ("Bob", 2)]);
    let _ = transition_idle(&mut room);
    let _ = ready(&mut room, 1, true);
    let _ = ready(&mut room, 2, true);
    assert!(matches!(room.state, RoomState::GameStarting));

    // an outsider's vote does not count
    let acts = vote_cancel(&mut room, 99);
    assert!(acts.is_empty() && room.cancel_votes.is_empty());
    // one of two votes: no majority yet
    let acts = vote_cancel(&mut room, 1);
    assert!(acts.is_empty());
    assert_eq!(room.cancel_votes, vec![1]);
    // a repeat changes nothing
    let acts = vote_cancel(&mut room, 1);
    assert!(acts.is_empty());
    assert_eq!(room.cancel_votes, vec![1]);
    // the second voter tips the majority and the room resets
    let _ = vote_cancel(&mut room, 2);
    assert!(matches!(room.state, RoomState::Idle));
    assert!(room.cancel_votes.is_empty());
}

#[test]
fn ready_progress_is_reported() {
    let mut room = BonkRoom::new(params(Mode::Classic, Queue::Singles, 3), false);
    queue_up(&mut room, &[("Alice", 1), ("Bob", 2)]);
    let _ = transition_idle(&mut room);
    assert!(matches!(room.state, RoomState::MapSelection));

    let acts = ready(&mut room, 1, true);
    assert!(has_chat(&acts, "1/2 players ready."));
    assert!(matches!(room.state, RoomState::MapSelection));

    let acts = ready(&mut room, 2, true);
    assert!(acts.iter().any(|a| matches!(a, Action::StartGame)));
    assert!(matches!(room.state, RoomState::GameStarting));
}

#[test]
fn strike_announces_the_remaining_allowance() {
    let mut room = BonkRoom::new(params(Mode::Classic, Queue::Singles, 4), false);
    queue_up(&mut room, &[("Alice", 1), ("Bob", 2)]);
    let _ = transition_idle(&mut room);
    let acts = strike(&mut room, 1, 10);
    assert!(acts.iter().any(|a| match a {
        Action::Chat { message } =>
            message == "Alice struck a map. They have 1 strike(s) remaining.",
        _ => false,
    }));
}

#[test]
fn strike_cap_is_rebuffed_with_the_original_wording() {
    let mut room = BonkRoom::new(params(Mode::Classic, Queue::Singles, 6), false);
    queue_up(&mut room, &[("Alice", 1), ("Bob", 2)]);
    let _ = transition_idle(&mut room);
    let _ = strike(&mut room, 1, 10);
    let _ = strike(&mut room, 1, 10);
    assert_eq!(strike_count(&room, 1), 2);
    let acts = strike(&mut room, 1, 10);
    assert!(has_chat(&acts, "You've used all of you're strikes"));
    assert_eq!(strike_count(&room, 1), 2);
}

#[test]
fn pick_warning_fires_once_at_halftime() {
    let mut room = BonkRoom::new(params(Mode::Classic, Queue::Singles, 3), false);
    queue_up(&mut room, &[("Alice", 1), ("Bob", 2), ("Carol", 3)]);
    let _ = transition_idle(&mut room);
    assert!(matches!(room.state, RoomState::Pick));

    let acts = sgr_bot::events::update_warning(&mut room, 31);
    assert!(acts.is_empty());
    let acts = sgr_bot::events::update_warning(&mut room, 29);
    assert!(has_chat(&acts, "30 seconds left to pick."));
    let acts = sgr_bot::events::update_warning(&mut room, 20);
    assert!(acts.is_empty());
}
