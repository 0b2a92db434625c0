//! The room state machine's event handlers: timer expiries, launches,
//! player joins and leaves, and the end of a game.
//!
//! Each handler mutates the room and returns the actions the driver
//! must carry out, in order. Host scores and chat arrive as plain
//! values; the coin flips and map rolls are drawn here.

use vstd::prelude::*;
use crate::bonk_room::{
    Action, BonkRoom, GamePlayers, GamePlayersV, Player, PlayerV, QueueEntry, RoomState,
    TimerArm, GameScores, first_with_id, lemma_first_with_id, first_with_name,
    lemma_first_with_name, is_chat, is_arm, valid_step, count_false, queue_names_unique,
    players_view, in_room_filter, plv,
};
use crate::room_maker::{Mode, Queue, RoomParameters};
use crate::random::{coin_flip, random_below};
use vstd::multiset::Multiset;
use crate::text::{dec_digits, u64_string};

verus! {

/// Some action in the list says exactly this in chat.
pub open spec fn has_chat(acts: Seq<Action>, m: Seq<char>) -> bool {
    exists|i: int| 0 <= i < acts.len() && is_chat(acts[i], m)
}

/// Some action in the list re-arms the timer to this value.
pub open spec fn has_arm(acts: Seq<Action>, t: TimerArm) -> bool {
    exists|i: int| 0 <= i < acts.len() && is_arm(acts[i], t)
}

/// Some action in the list moves this player to this team.
pub open spec fn has_change_team(acts: Seq<Action>, id: i32, team: i32) -> bool {
    exists|i: int|
        0 <= i < acts.len() && acts[i] == (Action::ChangeTeam { id, team })
}

proof fn lemma_replays_extend(a: Seq<Action>, b: Seq<Action>, id: i32)
    requires
        a.len() <= b.len(),
        forall|k: int| 0 <= k < a.len() ==> a[k] == b[k],
    ensures
        forall|team: i32| has_replay(a, id, team) ==> has_replay(b, id, team),
{
    assert forall|team: i32| has_replay(a, id, team) implies has_replay(b, id, team) by {
        let k = choose|k: int|
            0 <= k < a.len() && a[k] == (Action::HostReplayJoin { id, team });
        assert(b[k] == (Action::HostReplayJoin { id, team }));
    }
}

/// Some action in the list is exactly this one.
pub open spec fn has_action(acts: Seq<Action>, a: Action) -> bool {
    exists|i: int| 0 <= i < acts.len() && acts[i] == a
}

pub proof fn lemma_actions_extend(a: Seq<Action>, b: Seq<Action>)
    requires
        a.len() <= b.len(),
        forall|k: int| 0 <= k < a.len() ==> a[k] == b[k],
    ensures
        forall|id: i32, team: i32|
            has_change_team(a, id, team) ==> #[trigger] has_change_team(b, id, team),
        forall|x: Action| has_action(a, x) ==> #[trigger] has_action(b, x),
        forall|m: Seq<char>| has_chat(a, m) ==> #[trigger] has_chat(b, m),
        forall|t: TimerArm| has_arm(a, t) ==> #[trigger] has_arm(b, t),
{
    assert forall|id: i32, team: i32| has_change_team(a, id, team) implies #[trigger]
        has_change_team(b, id, team) by {
        let k = choose|k: int| 0 <= k < a.len() && a[k] == (Action::ChangeTeam { id, team });
        assert(b[k] == (Action::ChangeTeam { id, team }));
    }
    assert forall|x: Action| has_action(a, x) implies #[trigger] has_action(b, x) by {
        let k = choose|k: int| 0 <= k < a.len() && a[k] == x;
        assert(b[k] == x);
    }
    assert forall|m: Seq<char>| has_chat(a, m) implies #[trigger] has_chat(b, m) by {
        let k = choose|k: int| 0 <= k < a.len() && is_chat(a[k], m);
        assert(is_chat(b[k], m));
    }
    assert forall|t: TimerArm| has_arm(a, t) implies #[trigger] has_arm(b, t) by {
        let k = choose|k: int| 0 <= k < a.len() && is_arm(a[k], t);
        assert(is_arm(b[k], t));
    }
}

proof fn lemma_actions_append_r(c: Seq<Action>, a: Seq<Action>)
    ensures
        forall|id: i32, team: i32|
            has_change_team(a, id, team) ==> #[trigger] has_change_team(c + a, id, team),
        forall|x: Action| has_action(a, x) ==> #[trigger] has_action(c + a, x),
        forall|m: Seq<char>| has_chat(a, m) ==> #[trigger] has_chat(c + a, m),
        forall|t: TimerArm| has_arm(a, t) ==> #[trigger] has_arm(c + a, t),
{
    assert forall|id: i32, team: i32| has_change_team(a, id, team) implies #[trigger]
        has_change_team(c + a, id, team) by {
        let k = choose|k: int| 0 <= k < a.len() && a[k] == (Action::ChangeTeam { id, team });
        assert((c + a)[c.len() + k] == (Action::ChangeTeam { id, team }));
    }
    assert forall|x: Action| has_action(a, x) implies #[trigger] has_action(c + a, x) by {
        let k = choose|k: int| 0 <= k < a.len() && a[k] == x;
        assert((c + a)[c.len() + k] == x);
    }
    assert forall|m: Seq<char>| has_chat(a, m) implies #[trigger] has_chat(c + a, m) by {
        let k = choose|k: int| 0 <= k < a.len() && is_chat(a[k], m);
        assert(is_chat((c + a)[c.len() + k], m));
    }
    assert forall|t: TimerArm| has_arm(a, t) implies #[trigger] has_arm(c + a, t) by {
        let k = choose|k: int| 0 <= k < a.len() && is_arm(a[k], t);
        assert(is_arm((c + a)[c.len() + k], t));
    }
}

/// What entering map selection leaves visible after a launch: the
/// Football bypass goes straight to the ready wait; otherwise the
/// strike table is freshly cleared with one struck, loaded map, the
/// readiness reset is sent, and the room either strikes on or waits
/// for ready.
pub open spec fn selection_entered(p: RoomParameters, post: BonkRoom, acts: Seq<Action>) -> bool {
    if p.mode == Mode::Football {
        &&& post.state == RoomState::Ready
        &&& has_arm(acts, TimerArm::Secs(p.ready_time))
        &&& has_chat(acts, "Use !r to start."@)
    } else {
        let skip = p.strike_num == 0 || p.maps@.len() < 2;
        &&& post.state == if skip {
            RoomState::Ready
        } else {
            RoomState::MapSelection
        }
        &&& post.player_strikes@ == Seq::<(i32, u32)>::empty()
        &&& post.map_strikes@.len() == p.maps@.len()
        &&& count_false(post.map_strikes@) == post.map_strikes@.len() - 1
        &&& exists|mi: int|
            0 <= mi < post.map_strikes@.len() && post.map_strikes@[mi] && has_action(
                acts,
                Action::LoadMap { map_index: mi as usize },
            )
        &&& has_action(acts, Action::AllReadyReset)
        &&& has_arm(acts, TimerArm::Secs(if skip {
            p.ready_time
        } else {
            p.strike_time
        }))
        &&& has_chat(acts, if skip {
            "Use !r to start."@
        } else {
            "Use !s to roll another map or use !r to start."@
        })
    }
}

/// Some action in the list replays a host join onto this team.
pub open spec fn has_replay(acts: Seq<Action>, id: i32, team: i32) -> bool {
    exists|i: int|
        0 <= i < acts.len() && acts[i] == (Action::HostReplayJoin { id, team })
}

/// The Football side the captain's team sits on, by coin flip.
pub open spec fn football_picker_team(flip: bool) -> i32 {
    if flip {
        2
    } else {
        3
    }
}

/// The Football side opposite the captain's.
pub open spec fn football_other_team(flip: bool) -> i32 {
    if flip {
        3
    } else {
        2
    }
}

/// Whether the queue marks this player id as ready, by either the
/// game-provided flag or the explicit command.
pub open spec fn ready_in(q: Seq<QueueEntry>, id: i32) -> bool {
    let r = first_with_id(q, id);
    r != -1 && (q[r].player.ready || q[r].player.ready_cmd)
}

/// How many of these players the queue marks as ready.
pub open spec fn ready_count(q: Seq<QueueEntry>, ps: Seq<PlayerV>) -> int
    decreases ps.len(),
{
    if ps.len() == 0 {
        0
    } else {
        ready_count(q, ps.drop_last()) + if ready_in(q, ps.last().id) {
            1int
        } else {
            0int
        }
    }
}

/// Whether the queue marks this player id as ready.
pub fn queue_ready(room: &BonkRoom, id: i32) -> (b: bool)
    ensures
        b == ready_in(room.queue@, id),
{
    proof {
        lemma_first_with_id(room.queue@, id);
    }
    let n = room.queue.len();
    let mut i: usize = 0;
    while i < n
        invariant
            i <= n,
            n == room.queue@.len(),
            forall|j: int| 0 <= j < i ==> room.queue@[j].player.id != id,
        decreases n - i,
    {
        if room.queue[i].player.id == id {
            proof {
                lemma_first_with_id(room.queue@, id);
                assert(first_with_id(room.queue@, id) == i as int);
            }
            return room.queue[i].player.ready || room.queue[i].player.ready_cmd;
        }
        i += 1;
    }
    proof {
        lemma_first_with_id(room.queue@, id);
    }
    false
}

/// The players assigned to the current game, in slot order.
pub fn in_game_players(room: &BonkRoom) -> (r: Vec<Player>)
    ensures
        plv(r@) == room.game_players@.players_seq(),
{
    let mut r: Vec<Player> = Vec::new();
    match &room.game_players {
        GamePlayers::Singles { picker, picked } => {
            if let Some(p) = picker {
                r.push(p.duplicate());
            }
            if let Some(p) = picked {
                r.push(p.duplicate());
            }
            proof {
                assert(plv(r@) =~= room.game_players@.players_seq());
            }
        },
        GamePlayers::Teams { teams, picker_idx: _ } => {
            let ghost tv = teams@.map_values(|t: Vec<Player>| t@.map_values(|p: Player| p@));
            let tn = teams.len();
            let mut i: usize = 0;
            proof {
                assert(tv.take(0) =~= Seq::<Seq<PlayerV>>::empty());
            }
            while i < tn
                invariant
                    i <= tn,
                    tn == teams@.len(),
                    tv == teams@.map_values(|t: Vec<Player>| t@.map_values(|p: Player| p@)),
                    plv(r@) == tv.take(i as int).flatten_alt(),
                decreases tn - i,
            {
                let team = &teams[i];
                let m = team.len();
                let mut j: usize = 0;
                while j < m
                    invariant
                        j <= m,
                        i < tn,
                        tn == teams@.len(),
                        m == teams@[i as int]@.len(),
                        tv == teams@.map_values(
                            |t: Vec<Player>| t@.map_values(|p: Player| p@),
                        ),
                        team == teams@[i as int],
                        plv(r@) == tv.take(i as int).flatten_alt() + tv[i as int].take(
                            j as int,
                        ),
                    decreases m - j,
                {
                    let ghost rprev = r@;
                    r.push(team[j].duplicate());
                    proof {
                        assert(plv(r@) =~= plv(rprev).push(teams@[i as int]@[j as int]@));
                        assert(tv[i as int].take(j + 1) =~= tv[i as int].take(j as int).push(
                            tv[i as int][j as int],
                        ));
                        assert(tv[i as int][j as int] == teams@[i as int]@[j as int]@);
                        assert(plv(r@) =~= tv.take(i as int).flatten_alt() + tv[
                            i as int
                        ].take(j + 1));
                    }
                    j += 1;
                }
                proof {
                    assert(tv.take(i + 1).drop_last() =~= tv.take(i as int));
                    assert(tv.take(i + 1).last() == tv[i as int]);
                    assert(tv[i as int].take(m as int) =~= tv[i as int]);
                    assert(plv(r@) =~= tv.take(i + 1).flatten_alt());
                }
                i += 1;
            }
            proof {
                assert(tv.take(tn as int) == tv);
                tv.lemma_flatten_and_flatten_alt_are_equivalent();
            }
        },
        GamePlayers::FFA { in_game } => {
            let m = in_game.len();
            let mut j: usize = 0;
            proof {
                assert(plv(r@) =~= plv(in_game@).take(0));
            }
            while j < m
                invariant
                    j <= m,
                    m == in_game@.len(),
                    plv(in_game@) == room.game_players@.players_seq(),
                    plv(r@) == plv(in_game@).take(j as int),
                decreases m - j,
            {
                let ghost rprev = r@;
                r.push(in_game[j].duplicate());
                proof {
                    assert(plv(r@) =~= plv(rprev).push(in_game@[j as int]@));
                    assert(plv(in_game@).take(j + 1) =~= plv(in_game@).take(j as int).push(
                        plv(in_game@)[j as int],
                    ));
                    assert(plv(r@) =~= plv(in_game@).take(j + 1));
                }
                j += 1;
            }
            proof {
                assert(plv(in_game@).take(m as int) == plv(in_game@));
            }
        },
    }
    r
}

/// The spectator moves a reset issues: one per queued player still on a
/// team, in queue order.
pub open spec fn reset_team_acts(q: Seq<QueueEntry>) -> Seq<Action> {
    q.filter(|e: QueueEntry| e.player.team != 0).map_values(
        |e: QueueEntry| Action::ChangeTeam { id: e.player.id, team: 0 },
    )
}

/// An empty game assignment for this queue kind.
pub open spec fn empty_game_for(k: Queue, gp: GamePlayersV) -> bool {
    match k {
        Queue::Singles => gp == (GamePlayersV::Singles { picker: None, picked: None }),
        Queue::Teams => gp matches GamePlayersV::Teams { teams, picker_idx }
            && teams.len() == 0 && picker_idx == 0,
        Queue::FFA => gp matches GamePlayersV::FFA { in_game } && in_game.len() == 0,
    }
}

proof fn lemma_count_false_all(s: Seq<bool>)
    requires
        forall|x: int| 0 <= x < s.len() ==> !s[x],
    ensures
        count_false(s) == s.len(),
    decreases s.len(),
{
    if s.len() > 0 {
        lemma_count_false_all(s.drop_last());
    }
}

proof fn lemma_count_false_one(s: Seq<bool>, mi: int)
    requires
        0 <= mi < s.len(),
        forall|x: int| 0 <= x < s.len() ==> s[x] == (x == mi),
    ensures
        count_false(s) == s.len() - 1,
    decreases s.len(),
{
    if mi == s.len() - 1 {
        lemma_count_false_all(s.drop_last());
    } else {
        lemma_count_false_one(s.drop_last(), mi);
    }
}

/// Striking an unstruck map lowers the unstruck count by one.
pub proof fn lemma_count_false_update(s: Seq<bool>, i: int)
    requires
        0 <= i < s.len(),
        !s[i],
    ensures
        count_false(s.update(i, true)) == count_false(s) - 1,
    decreases s.len(),
{
    let s2 = s.update(i, true);
    if i == s.len() - 1 {
        assert(s2.drop_last() =~= s.drop_last());
    } else {
        lemma_count_false_update(s.drop_last(), i);
        assert(s2.drop_last() =~= s.drop_last().update(i, true));
        assert(s2.last() == s.last());
    }
}

/// Graceful reset: clear the votes; then, if the room is closing,
/// announce and terminate, otherwise send every teamed player to
/// spectator, clear readiness, empty the game assignment and idle.
pub fn reset(room: &mut BonkRoom) -> (acts: Vec<Action>)
    requires
        old(room).wf(),
    ensures
        final(room).wf(),
        valid_step(old(room).state, final(room).state),
        final(room).reset_votes@ == Seq::<i32>::empty(),
        final(room).cancel_votes@ == Seq::<i32>::empty(),
        final(room).queue@.len() == old(room).queue@.len(),
        crate::bonk_room::names_seq(final(room).queue@) == crate::bonk_room::names_seq(
            old(room).queue@,
        ),
        crate::bonk_room::stamps_seq(final(room).queue@) == crate::bonk_room::stamps_seq(
            old(room).queue@,
        ),
        old(room).closing ==> {
            &&& acts@.len() == 2
            &&& is_chat(acts@[0], "Closing the room. Goodbye!"@)
            &&& acts@[1] == Action::Terminate
            &&& *final(room) == (BonkRoom {
                reset_votes: final(room).reset_votes,
                cancel_votes: final(room).cancel_votes,
                ..*old(room)
            })
        },
        !old(room).closing ==> {
            &&& final(room).state == RoomState::Idle
            &&& final(room).warning_step == 0
            &&& final(room).queue@.len() == old(room).queue@.len()
            &&& forall|i: int|
                0 <= i < old(room).queue@.len() ==> (#[trigger] final(room).queue@[i]).player@
                    == (PlayerV { team: 0, ready_cmd: false, ..old(room).queue@[i].player@ })
                    && final(room).queue@[i].last_seen == old(room).queue@[i].last_seen
            &&& empty_game_for(old(room).room_parameters.queue, final(room).game_players@)
            &&& acts@ == reset_team_acts(old(room).queue@) + seq![
                Action::AllReadyReset,
                Action::ArmTimer { timer: TimerArm::Secs(old(room).room_parameters.idle_time) },
            ]
            &&& *final(room) == (BonkRoom {
                state: final(room).state,
                queue: final(room).queue,
                game_players: final(room).game_players,
                warning_step: 0,
                reset_votes: final(room).reset_votes,
                cancel_votes: final(room).cancel_votes,
                ..*old(room)
            })
        },
{
    room.reset_votes = Vec::new();
    room.cancel_votes = Vec::new();
    let mut acts: Vec<Action> = Vec::new();
    if room.closing {
        proof {
            reveal_strlit("Closing the room. Goodbye!");
        }
        acts.push(Action::Chat { message: String::from_str("Closing the room. Goodbye!") });
        acts.push(Action::Terminate);
        return acts;
    }
    let ghost q0 = room.queue@;
    let n = room.queue.len();
    let mut i: usize = 0;
    proof {
        reveal(Seq::filter);
        assert(q0.take(0) =~= Seq::<QueueEntry>::empty());
        assert(acts@ =~= reset_team_acts(q0.take(0)));
    }
    while i < n
        invariant
            i <= n,
            n == q0.len(),
            room.queue@ == q0,
            acts@ == reset_team_acts(q0.take(i as int)),
        decreases n - i,
    {
        let ghost t1 = q0.take(i + 1);
        let ghost t0 = q0.take(i as int);
        proof {
            reveal(Seq::filter);
            assert(t1.drop_last() =~= t0);
            assert(t1.last() == q0[i as int]);
        }
        if room.queue[i].player.team != 0 {
            acts.push(Action::ChangeTeam { id: room.queue[i].player.id, team: 0 });
            proof {
                assert(t1.filter(|e: QueueEntry| e.player.team != 0) == t0.filter(
                    |e: QueueEntry| e.player.team != 0,
                ).push(q0[i as int]));
                assert(acts@ =~= reset_team_acts(t1));
            }
        } else {
            proof {
                assert(t1.filter(|e: QueueEntry| e.player.team != 0) == t0.filter(
                    |e: QueueEntry| e.player.team != 0,
                ));
            }
        }
        i += 1;
    }
    proof {
        assert(q0.take(n as int) == q0);
    }
    room.all_queue_to_spec();
    acts.push(Action::AllReadyReset);
    room.game_players = match room.room_parameters.queue {
        Queue::Singles => GamePlayers::Singles { picker: None, picked: None },
        Queue::Teams => GamePlayers::Teams { teams: Vec::new(), picker_idx: 0 },
        Queue::FFA => GamePlayers::FFA { in_game: Vec::new() },
    };
    room.state = RoomState::Idle;
    room.warning_step = 0;
    acts.push(Action::ArmTimer { timer: TimerArm::Secs(room.room_parameters.idle_time) });
    proof {
        assert(crate::bonk_room::names_seq(room.queue@) =~= crate::bonk_room::names_seq(q0));
        assert(crate::bonk_room::stamps_seq(room.queue@) =~= crate::bonk_room::stamps_seq(q0));
        assert(acts@ =~= reset_team_acts(q0) + seq![
            Action::AllReadyReset,
            Action::ArmTimer { timer: TimerArm::Secs(old(room).room_parameters.idle_time) },
        ]);
    }
    acts
}

/// Begin map selection: Football goes straight to the ready phase;
/// otherwise the strike table is cleared, a map is rolled uniformly,
/// struck and loaded, readiness is reset, and the room either strikes
/// on or, with no strikes to spend or fewer than two maps, waits for
/// ready.
pub fn start_map_selection(room: &mut BonkRoom) -> (acts: Vec<Action>)
    requires
        old(room).wf(),
        old(room).state == RoomState::Idle || old(room).state == RoomState::Pick,
    ensures
        final(room).wf(),
        valid_step(old(room).state, final(room).state),
        old(room).room_parameters.mode == Mode::Football ==> {
            &&& final(room).state == RoomState::Ready
            &&& acts@.len() == 2
            &&& is_arm(acts@[0], TimerArm::Secs(old(room).room_parameters.ready_time))
            &&& is_chat(acts@[1], "Use !r to start."@)
            &&& *final(room) == (BonkRoom {
                state: RoomState::Ready,
                warning_step: 0,
                ..*old(room)
            })
        },
        old(room).room_parameters.mode != Mode::Football ==> {
            let skip = old(room).room_parameters.strike_num == 0
                || old(room).room_parameters.maps@.len() < 2;
            &&& final(room).state == if skip {
                RoomState::Ready
            } else {
                RoomState::MapSelection
            }
            &&& final(room).player_strikes@ == Seq::<(i32, u32)>::empty()
            &&& final(room).map_strikes@.len() == old(room).room_parameters.maps@.len()
            &&& count_false(final(room).map_strikes@) == final(room).map_strikes@.len() - 1
            &&& exists|mi: int|
                0 <= mi < final(room).map_strikes@.len() && final(room).map_strikes@[mi]
                    && acts@[0] == (Action::LoadMap { map_index: mi as usize })
            &&& final(room).queue@.len() == old(room).queue@.len()
            &&& forall|i: int|
                0 <= i < old(room).queue@.len() ==> (#[trigger] final(room).queue@[i]).player@
                    == (PlayerV { ready_cmd: false, ..old(room).queue@[i].player@ })
                    && final(room).queue@[i].last_seen == old(room).queue@[i].last_seen
            &&& acts@.len() == 4
            &&& acts@[1] == Action::AllReadyReset
            &&& is_arm(acts@[2], TimerArm::Secs(if skip {
                old(room).room_parameters.ready_time
            } else {
                old(room).room_parameters.strike_time
            }))
            &&& is_chat(acts@[3], if skip {
                "Use !r to start."@
            } else {
                "Use !s to roll another map or use !r to start."@
            })
            &&& *final(room) == (BonkRoom {
                state: final(room).state,
                warning_step: 0,
                queue: final(room).queue,
                map_strikes: final(room).map_strikes,
                player_strikes: final(room).player_strikes,
                ..*old(room)
            })
        },
        selection_entered(old(room).room_parameters, *final(room), acts@),
{
    let mut acts: Vec<Action> = Vec::new();
    if let Mode::Football = room.room_parameters.mode {
        room.state = RoomState::Ready;
        room.warning_step = 0;
        acts.push(
            Action::ArmTimer { timer: TimerArm::Secs(room.room_parameters.ready_time) },
        );
        proof {
            reveal_strlit("Use !r to start.");
        }
        acts.push(Action::Chat { message: String::from_str("Use !r to start.") });
        proof {
            assert(is_arm(acts@[0], TimerArm::Secs(old(room).room_parameters.ready_time)));
            assert(is_chat(acts@[1], "Use !r to start."@));
        }
        return acts;
    }
    let len = room.room_parameters.maps.len();
    let mi = random_below(len);
    let mut ms: Vec<bool> = Vec::new();
    let mut j: usize = 0;
    while j < len
        invariant
            j <= len,
            mi < len,
            ms@.len() == j,
            forall|x: int| 0 <= x < j ==> ms@[x] == (x == mi as int),
        decreases len - j,
    {
        ms.push(j == mi);
        j += 1;
    }
    proof {
        lemma_count_false_one(ms@, mi as int);
    }
    room.map_strikes = ms;
    room.player_strikes = Vec::new();
    acts.push(Action::LoadMap { map_index: mi });
    proof {
        let w = mi as int;
        assert(0 <= w < room.map_strikes@.len() && room.map_strikes@[w] && acts@[0]
            == (Action::LoadMap { map_index: w as usize }));
    }
    room.clear_ready_cmds();
    acts.push(Action::AllReadyReset);
    if room.room_parameters.strike_num == 0 || room.room_parameters.maps.len() < 2 {
        room.state = RoomState::Ready;
        room.warning_step = 0;
        acts.push(
            Action::ArmTimer { timer: TimerArm::Secs(room.room_parameters.ready_time) },
        );
        proof {
            reveal_strlit("Use !r to start.");
        }
        acts.push(Action::Chat { message: String::from_str("Use !r to start.") });
    } else {
        room.state = RoomState::MapSelection;
        room.warning_step = 0;
        acts.push(
            Action::ArmTimer { timer: TimerArm::Secs(room.room_parameters.strike_time) },
        );
        proof {
            reveal_strlit("Use !s to roll another map or use !r to start.");
        }
        acts.push(
            Action::Chat {
                message: String::from_str("Use !s to roll another map or use !r to start."),
            },
        );
    }
    proof {
        let skip = old(room).room_parameters.strike_num == 0
            || old(room).room_parameters.maps@.len() < 2;
        assert(acts@[0] == (Action::LoadMap { map_index: mi }));
        assert(acts@[1] == Action::AllReadyReset);
        assert(is_arm(acts@[2], TimerArm::Secs(if skip {
            old(room).room_parameters.ready_time
        } else {
            old(room).room_parameters.strike_time
        })));
        assert(is_chat(acts@[3], if skip {
            "Use !r to start."@
        } else {
            "Use !s to roll another map or use !r to start."@
        }));
        assert(selection_entered(old(room).room_parameters, *room, acts@));
    }
    acts
}

/// Two player images that differ at most in team and command-readiness.
pub open spec fn same_but_team(a: PlayerV, b: PlayerV) -> bool {
    a == (PlayerV { team: a.team, ready_cmd: a.ready_cmd, ..b })
}

/// A launch keeps the queue: same spots, same names and ids; only team
/// and command-readiness may move.
pub open spec fn queue_kept(q1: Seq<QueueEntry>, q0: Seq<QueueEntry>) -> bool {
    &&& q1.len() == q0.len()
    &&& forall|i: int|
        0 <= i < q0.len() ==> same_but_team((#[trigger] q1[i]).player@, q0[i].player@)
            && q1[i].last_seen == q0[i].last_seen
}

/// The captain's pick prompt.
fn prompt_string(name: &String, teammate: bool) -> (m: String)
    ensures
        teammate ==> m@ == name@ + ", pick a teammate with !p <abbreviation>"@,
        !teammate ==> m@ == name@ + ", pick an opponent with !p <abbreviation>"@,
{
    let mut m = name.clone();
    if teammate {
        m.append(", pick a teammate with !p <abbreviation>");
    } else {
        m.append(", pick an opponent with !p <abbreviation>");
    }
    m
}

/// What an idle launch leaves behind, by queue kind: a singles queue
/// needs two present players (two exactly start at once, more enter
/// picking), a teams queue seats one captain per team and enters
/// picking, a free-for-all takes everyone up to its cap straight to
/// map selection. Football coerces a free-for-all queue to singles,
/// clamps teams to two and draws the side coin; too few players
/// re-arm the idle timer and leave the room untouched.
pub open spec fn idle_launch_post(pre: BonkRoom, post: BonkRoom, acts: Seq<Action>) -> bool {
    let irq = players_view(in_room_filter(pre.queue@));
    let p = pre.room_parameters;
    &&& post.wf()
    &&& valid_step(pre.state, post.state)
    &&& queue_kept(post.queue@, pre.queue@)
    &&& post.closing == pre.closing
    &&& post.has_leaderboard == pre.has_leaderboard
    &&& post.room_parameters == (crate::room_maker::RoomParameters {
        team_num: post.room_parameters.team_num,
        queue: post.room_parameters.queue,
        ..pre.room_parameters
    })
    &&& match p.queue {
        Queue::Singles => {
            &&& irq.len() < 2 ==> post == (BonkRoom {
                room_parameters: post.room_parameters,
                ..pre
            }) && post.state == RoomState::Idle && acts =~= seq![
                Action::ArmTimer { timer: TimerArm::Secs(p.idle_time) },
            ]
            &&& irq.len() >= 2 ==> {
                &&& post.game_players@ matches GamePlayersV::Singles {
                    picker: Some(pk),
                    picked,
                } && pk.name == irq[0].name && pk.id == irq[0].id && {
                    if irq.len() == 2 {
                        &&& picked matches Some(pd) && pd.name == irq[1].name && pd.id
                            == irq[1].id
                        &&& has_change_team(acts, irq[1].id, if p.mode == Mode::Football {
                            football_other_team(post.team_flip)
                        } else {
                            1
                        })
                        &&& selection_entered(p, post, acts)
                    } else {
                        &&& picked is None
                        &&& post.state == RoomState::Pick
                        &&& has_arm(acts, TimerArm::Secs(p.pick_time))
                        &&& has_chat(
                            acts,
                            irq[0].name + ", pick an opponent with !p <abbreviation>"@,
                        )
                    }
                }
                &&& has_change_team(acts, irq[0].id, if p.mode == Mode::Football {
                    football_picker_team(post.team_flip)
                } else {
                    1
                })
                &&& acts.len() > 0 && acts.last() == Action::SendStartCountdown
            }
        },
        Queue::Teams => {
            let tn = if p.mode == Mode::Football {
                2int
            } else if p.team_num > 4 {
                4int
            } else {
                p.team_num as int
            };
            &&& post.room_parameters.team_num == tn
            &&& irq.len() as int / tn < p.team_size ==> post == (BonkRoom {
                room_parameters: post.room_parameters,
                ..pre
            }) && post.state == RoomState::Idle && acts =~= seq![
                Action::ArmTimer { timer: TimerArm::Secs(p.idle_time) },
            ]
            &&& irq.len() as int / tn >= p.team_size ==> {
                &&& post.state == RoomState::Pick
                &&& post.game_players@ matches GamePlayersV::Teams { teams, picker_idx }
                    && picker_idx == 0 && teams.len() == tn && (forall|x: int|
                    0 <= x < tn ==> (#[trigger] teams[x]).len() == 1 && teams[x][0].name
                        == irq[x].name && teams[x][0].id == irq[x].id)
                &&& forall|x: int|
                    0 <= x < tn ==> has_change_team(
                        acts,
                        (#[trigger] irq[x]).id,
                        if p.mode == Mode::Football {
                            if x == 0 {
                                football_picker_team(post.team_flip)
                            } else {
                                football_other_team(post.team_flip)
                            }
                        } else {
                            (2 + x) as i32
                        },
                    )
                &&& has_arm(acts, TimerArm::Secs(p.pick_time))
                &&& has_chat(acts, irq[0].name + ", pick a teammate with !p <abbreviation>"@)
                &&& acts.len() > 0 && acts.last() == Action::SendStartCountdown
            }
        },
        Queue::FFA => {
            &&& p.mode == Mode::Football ==> post == (BonkRoom {
                room_parameters: post.room_parameters,
                ..pre
            }) && post.state == RoomState::Idle && post.room_parameters.queue
                == Queue::Singles && acts =~= seq![Action::ArmTimer { timer: TimerArm::Zero }]
            &&& p.mode != Mode::Football ==> {
                &&& irq.len() < p.ffa_min ==> post == (BonkRoom {
                    room_parameters: post.room_parameters,
                    ..pre
                }) && post.state == RoomState::Idle && acts =~= seq![
                    Action::ArmTimer { timer: TimerArm::Secs(p.idle_time) },
                ]
                &&& irq.len() >= p.ffa_min ==> {
                    let cnt = if p.ffa_max <= irq.len() {
                        p.ffa_max as int
                    } else {
                        irq.len() as int
                    };
                    &&& post.game_players@ matches GamePlayersV::FFA { in_game }
                        && in_game.len() == cnt && (forall|x: int|
                        0 <= x < cnt ==> (#[trigger] in_game[x]).name == irq[x].name
                            && in_game[x].id == irq[x].id && in_game[x].team == 1)
                    &&& forall|x: int|
                        0 <= x < cnt ==> has_change_team(acts, (#[trigger] irq[x]).id, 1)
                    &&& selection_entered(p, post, acts)
                    &&& acts.len() > 0 && acts.last() == Action::SendStartCountdown
                }
            }
        },
    }
}

/// Try to launch from `Idle`; see `idle_launch_post` for what each
/// queue kind does.
#[verifier::rlimit(100)]
pub fn transition_idle(room: &mut BonkRoom) -> (acts: Vec<Action>)
    requires
        old(room).wf(),
        old(room).state == RoomState::Idle,
    ensures
        idle_launch_post(*old(room), *final(room), acts@),
{
    let mut acts: Vec<Action> = Vec::new();
    let q = room.in_room_queue();
    let ghost irq = players_view(in_room_filter(old(room).queue@));
    proof {
        assert(plv(q@) == irq);
    }
    match room.room_parameters.queue {
        Queue::Singles => {
            if q.len() >= 2 {
                let mut picker = q[0].duplicate();
                let pteam: i32 = if let Mode::Football = room.room_parameters.mode {
                    room.team_flip = coin_flip();
                    if room.team_flip {
                        2
                    } else {
                        3
                    }
                } else {
                    1
                };
                picker.team = pteam;
                acts.push(Action::ChangeTeam { id: picker.id, team: pteam });
                room.set_queue_team(picker.id, pteam);
                if q.len() == 2 {
                    let mut picked = q[1].duplicate();
                    let oteam: i32 = if let Mode::Football = room.room_parameters.mode {
                        if room.team_flip {
                            3
                        } else {
                            2
                        }
                    } else {
                        1
                    };
                    picked.team = oteam;
                    acts.push(Action::ChangeTeam { id: picked.id, team: oteam });
                    room.set_queue_team(picked.id, oteam);
                    room.game_players = GamePlayers::Singles {
                        picker: Some(picker),
                        picked: Some(picked),
                    };
                    let ghost abase = acts@.len() as int;
                    let ghost apre = acts@;
                    let mut more = start_map_selection(room);
                    let ghost mg = more@;
                    acts.append(&mut more);
                    proof {
                        assert(acts@[0] == (Action::ChangeTeam { id: irq[0].id, team: pteam }));
                        assert(acts@[1] == (Action::ChangeTeam {
                            id: irq[1].id,
                            team: oteam,
                        }));
                        assert(acts@ == apre + mg);
                        if old(room).room_parameters.mode == Mode::Football {
                            assert(is_arm(acts@[abase], TimerArm::Secs(
                                old(room).room_parameters.ready_time,
                            )));
                            assert(is_chat(acts@[abase + 1], "Use !r to start."@));
                        } else {
                            let mi = choose|mi: int|
                                0 <= mi < room.map_strikes@.len() && room.map_strikes@[mi]
                                    && mg[0] == (Action::LoadMap { map_index: mi as usize });
                            assert(acts@[abase] == (Action::LoadMap {
                                map_index: mi as usize,
                            }));
                            assert(acts@[abase + 1] == Action::AllReadyReset);
                            assert(is_arm(acts@[abase + 2], mg[2]->ArmTimer_timer));
                            let skip = old(room).room_parameters.strike_num == 0
                                || old(room).room_parameters.maps@.len() < 2;
                            assert(is_arm(acts@[abase + 2], TimerArm::Secs(if skip {
                                old(room).room_parameters.ready_time
                            } else {
                                old(room).room_parameters.strike_time
                            })));
                            assert(is_chat(acts@[abase + 3], if skip {
                                "Use !r to start."@
                            } else {
                                "Use !s to roll another map or use !r to start."@
                            }));
                        }
                    }
                } else {
                    room.game_players = GamePlayers::Singles {
                        picker: Some(picker),
                        picked: None,
                    };
                    room.state = RoomState::Pick;
                    room.warning_step = 0;
                    acts.push(
                        Action::ArmTimer {
                            timer: TimerArm::Secs(room.room_parameters.pick_time),
                        },
                    );
                    let m = prompt_string(&q[0].name, false);
                    acts.push(Action::Chat { message: m });
                    proof {
                        assert(acts@[0] == (Action::ChangeTeam { id: irq[0].id, team: pteam }));
                        assert(is_arm(acts@[1], TimerArm::Secs(
                            old(room).room_parameters.pick_time,
                        )));
                        assert(is_chat(acts@[2], irq[0].name
                            + ", pick an opponent with !p <abbreviation>"@));
                    }
                }
                let ghost before_cd = acts@;
                acts.push(Action::SendStartCountdown);
                proof {
                    lemma_actions_extend(before_cd, acts@);
                    assert(acts@[0] == (Action::ChangeTeam { id: irq[0].id, team: pteam }));
                }
            } else {
                acts.push(
                    Action::ArmTimer { timer: TimerArm::Secs(room.room_parameters.idle_time) },
                );
            }
        },
        Queue::Teams => {
            let mut team_num: usize = if let Mode::Football = room.room_parameters.mode {
                2
            } else {
                room.room_parameters.team_num
            };
            if team_num > 4 {
                team_num = 4;
            }
            room.room_parameters.team_num = team_num;
            if q.len() / team_num >= room.room_parameters.team_size {
                proof {
                    let ll = q@.len() as int;
                    let tnn = team_num as int;
                    let d = ll / tnn;
                    vstd::arithmetic::div_mod::lemma_fundamental_div_mod(ll, tnn);
                    assert(d >= 1);
                    assert(tnn * d >= tnn * 1) by (nonlinear_arith)
                        requires
                            d >= 1,
                            tnn >= 1,
                    ;
                    assert(team_num <= q@.len());
                }
                if let Mode::Football = room.room_parameters.mode {
                    room.team_flip = coin_flip();
                }
                let flip = room.team_flip;
                let football = match room.room_parameters.mode {
                    Mode::Football => true,
                    _ => false,
                };
                let ghost s1 = *room;
                let mut teams: Vec<Vec<Player>> = Vec::new();
                let mut i: usize = 0;
                while i < team_num
                    invariant
                        i <= team_num,
                        team_num <= 4,
                        team_num <= q@.len(),
                        plv(q@) == irq,
                        irq.len() == q@.len(),
                        s1.wf(),
                        room.wf(),
                        queue_kept(room.queue@, s1.queue@),
                        *room == (BonkRoom { queue: room.queue, ..s1 }),
                        teams@.len() == i,
                        forall|x: int|
                            0 <= x < i ==> (#[trigger] teams@[x])@.len() == 1
                                && teams@[x]@[0]@.name == irq[x].name && teams@[x]@[0]@.id
                                == irq[x].id,
                        room.team_flip == flip,
                        forall|x: int|
                            0 <= x < i ==> has_change_team(acts@, (#[trigger] irq[x]).id, if
                            football {
                                if x == 0 {
                                    football_picker_team(flip)
                                } else {
                                    football_other_team(flip)
                                }
                            } else {
                                (2 + x) as i32
                            }),
                    decreases team_num - i,
                {
                    let mut cap = q[i].duplicate();
                    let team: i32 = if football {
                        if i == 0 {
                            if flip {
                                2
                            } else {
                                3
                            }
                        } else {
                            if flip {
                                3
                            } else {
                                2
                            }
                        }
                    } else {
                        (2 + i) as i32
                    };
                    cap.team = team;
                    let ghost aprev = acts@;
                    acts.push(Action::ChangeTeam { id: cap.id, team });
                    proof {
                        lemma_actions_extend(aprev, acts@);
                        assert(acts@[acts@.len() - 1] == (Action::ChangeTeam {
                            id: irq[i as int].id,
                            team,
                        }));
                    }
                    room.set_queue_team(cap.id, team);
                    let mut t1: Vec<Player> = Vec::new();
                    t1.push(cap);
                    teams.push(t1);
                    i += 1;
                }
                room.game_players = GamePlayers::Teams { teams, picker_idx: 0 };
                room.state = RoomState::Pick;
                room.warning_step = 0;
                let ghost act_loop = acts@;
                acts.push(
                    Action::ArmTimer { timer: TimerArm::Secs(room.room_parameters.pick_time) },
                );
                proof {
                    lemma_actions_extend(act_loop, acts@);
                }
                let ghost act_ct = acts@;
                let m = prompt_string(&q[0].name, true);
                acts.push(Action::Chat { message: m });
                acts.push(Action::SendStartCountdown);
                proof {
                    lemma_actions_extend(act_ct, acts@);
                    let a = acts@;
                    assert(is_chat(a[a.len() - 2], irq[0].name
                        + ", pick a teammate with !p <abbreviation>"@));
                    assert(is_arm(a[a.len() - 3], TimerArm::Secs(
                        old(room).room_parameters.pick_time,
                    )));
                }
            } else {
                acts.push(
                    Action::ArmTimer { timer: TimerArm::Secs(room.room_parameters.idle_time) },
                );
            }
        },
        Queue::FFA => {
            if let Mode::Football = room.room_parameters.mode {
                room.room_parameters.queue = Queue::Singles;
                acts.push(Action::ArmTimer { timer: TimerArm::Zero });
            } else {
                if q.len() >= room.room_parameters.ffa_min {
                    let cnt: usize = if room.room_parameters.ffa_max <= q.len() {
                        room.room_parameters.ffa_max
                    } else {
                        q.len()
                    };
                    let ghost s1 = *room;
                    let mut in_game: Vec<Player> = Vec::new();
                    let mut i: usize = 0;
                    while i < cnt
                        invariant
                            i <= cnt,
                            cnt <= q@.len(),
                            plv(q@) == irq,
                            irq.len() == q@.len(),
                            s1.wf(),
                            room.wf(),
                            queue_kept(room.queue@, s1.queue@),
                            *room == (BonkRoom { queue: room.queue, ..s1 }),
                            in_game@.len() == i,
                            forall|x: int|
                                0 <= x < i ==> (#[trigger] in_game@[x])@.name == irq[x].name
                                    && in_game@[x]@.id == irq[x].id && in_game@[x]@.team
                                    == 1,
                            forall|x: int|
                                0 <= x < i ==> has_change_team(
                                    acts@,
                                    (#[trigger] irq[x]).id,
                                    1,
                                ),
                        decreases cnt - i,
                    {
                        let mut p = q[i].duplicate();
                        p.team = 1;
                        let ghost aprev = acts@;
                        acts.push(Action::ChangeTeam { id: p.id, team: 1 });
                        proof {
                            lemma_actions_extend(aprev, acts@);
                            assert(acts@[acts@.len() - 1] == (Action::ChangeTeam {
                                id: irq[i as int].id,
                                team: 1,
                            }));
                        }
                        room.set_queue_team(p.id, 1);
                        in_game.push(p);
                        i += 1;
                    }
                    room.game_players = GamePlayers::FFA { in_game };
                    let ghost abase = acts@.len() as int;
                    let ghost apre = acts@;
                    let mut more = start_map_selection(room);
                    let ghost mg = more@;
                    acts.append(&mut more);
                    let ghost before_cd2 = acts@;
                    acts.push(Action::SendStartCountdown);
                    proof {
                        assert(before_cd2 == apre + mg);
                        lemma_actions_extend(apre, before_cd2);
                        lemma_actions_extend(before_cd2, acts@);
                        lemma_actions_extend(apre, acts@);
                        let pmode = old(room).room_parameters.mode;
                        assert(pmode != Mode::Football);
                        let mi = choose|mi: int|
                            0 <= mi < room.map_strikes@.len() && room.map_strikes@[mi]
                                && mg[0] == (Action::LoadMap { map_index: mi as usize });
                        assert(acts@[abase] == (Action::LoadMap { map_index: mi as usize }));
                        assert(acts@[abase + 1] == Action::AllReadyReset);
                        let skip = old(room).room_parameters.strike_num == 0
                            || old(room).room_parameters.maps@.len() < 2;
                        assert(is_arm(acts@[abase + 2], TimerArm::Secs(if skip {
                            old(room).room_parameters.ready_time
                        } else {
                            old(room).room_parameters.strike_time
                        })));
                        assert(is_chat(acts@[abase + 3], if skip {
                            "Use !r to start."@
                        } else {
                            "Use !s to roll another map or use !r to start."@
                        }));
                    }
                } else {
                    acts.push(
                        Action::ArmTimer {
                            timer: TimerArm::Secs(room.room_parameters.idle_time),
                        },
                    );
                }
            }
        },
    }
    proof {
        let p = old(room).room_parameters;
        if p.queue == Queue::Singles {
            if irq.len() < 2 {
                assert(room.state == RoomState::Idle);
                assert(acts@ =~= seq![
                    Action::ArmTimer { timer: TimerArm::Secs(p.idle_time) },
                ]);
            } else {
                assert(room.game_players@ matches GamePlayersV::Singles {
                    picker: Some(pk),
                    picked,
                } && pk.name == irq[0].name && pk.id == irq[0].id);
                if irq.len() == 2 {
                    assert(room.game_players@ matches GamePlayersV::Singles {
                        picker: _,
                        picked: Some(pd),
                    } && pd.name == irq[1].name);
                    assert(room.state == RoomState::MapSelection || room.state
                        == RoomState::Ready);
                } else {
                    assert(room.state == RoomState::Pick);
                    assert(is_arm(acts@[1], TimerArm::Secs(p.pick_time)));
                    assert(has_arm(acts@, TimerArm::Secs(p.pick_time)));
                    assert(is_chat(acts@[2], irq[0].name
                        + ", pick an opponent with !p <abbreviation>"@));
                    assert(has_chat(acts@, irq[0].name
                        + ", pick an opponent with !p <abbreviation>"@));
                }
                assert(has_change_team(acts@, irq[0].id, if p.mode == Mode::Football {
                    football_picker_team(room.team_flip)
                } else {
                    1
                }));
                assert(acts@.len() > 0 && acts@.last() == Action::SendStartCountdown);
            }
        }
    }
    acts
}

/// The player a pick timeout punishes: the singles captain, or the
/// picking team's captain.
pub open spec fn pick_target(gp: GamePlayersV) -> Option<i32> {
    match gp {
        GamePlayersV::Singles { picker: Some(pk), picked: _ } => Some(pk.id),
        GamePlayersV::Singles { picker: None, picked: _ } => None,
        GamePlayersV::Teams { teams, picker_idx } => if 0 <= picker_idx < teams.len()
            && teams[picker_idx].len() > 0 {
            Some(teams[picker_idx][0].id)
        } else {
            None
        },
        GamePlayersV::FFA { in_game: _ } => None,
    }
}

/// What a pick timeout leaves behind: the captain who failed to pick
/// is kicked and their spot leaves the queue before the reset; a
/// free-for-all assignment has no picker, so the room parks its timer.
pub open spec fn pick_timeout_post(pre: BonkRoom, post: BonkRoom, acts: Seq<Action>) -> bool {
    &&& post.wf()
    &&& valid_step(pre.state, post.state)
    &&& pre.game_players@ matches GamePlayersV::FFA { in_game: _ } ==> post == pre && acts
        =~= seq![Action::ArmTimer { timer: TimerArm::Max }]
    &&& !(pre.game_players@ matches GamePlayersV::FFA { in_game: _ }) ==> {
        &&& post.state == RoomState::Idle || pre.closing
        &&& pick_target(pre.game_players@) matches Some(id) ==> {
            &&& acts.len() > 0
            &&& acts[0] == (Action::Kick { id })
            &&& ({
                let r = first_with_id(pre.queue@, id);
                if r == -1 {
                    crate::bonk_room::names_seq(post.queue@) == crate::bonk_room::names_seq(
                        pre.queue@,
                    )
                } else {
                    crate::bonk_room::names_seq(post.queue@) == crate::bonk_room::names_seq(
                        pre.queue@.remove(r),
                    )
                }
            })
        }
        &&& pick_target(pre.game_players@) is None ==> crate::bonk_room::names_seq(
            post.queue@,
        ) == crate::bonk_room::names_seq(pre.queue@)
    }
}

/// Pick timed out; see `pick_timeout_post`.
pub fn transition_pick(room: &mut BonkRoom) -> (acts: Vec<Action>)
    requires
        old(room).wf(),
        old(room).state == RoomState::Pick,
    ensures
        pick_timeout_post(*old(room), *final(room), acts@),
{
    let mut acts: Vec<Action> = Vec::new();
    let target: Option<i32> = match &room.game_players {
        GamePlayers::Singles { picker, picked: _ } => match picker {
            Some(p) => Some(p.id),
            None => None,
        },
        GamePlayers::Teams { teams, picker_idx } => {
            if *picker_idx < teams.len() {
                let t = &teams[*picker_idx];
                if t.len() > 0 {
                    Some(t[0].id)
                } else {
                    None
                }
            } else {
                None
            }
        },
        GamePlayers::FFA { in_game: _ } => {
            acts.push(Action::ArmTimer { timer: TimerArm::Max });
            return acts;
        },
    };
    if let Some(id) = target {
        acts.push(Action::Kick { id });
        room.remove_queue_by_id(id);
        proof {
            lemma_first_with_id(old(room).queue@, id);
        }
    }
    let ghost mid = room.queue@;
    let mut more = reset(room);
    proof {
        assert(crate::bonk_room::names_seq(room.queue@) == crate::bonk_room::names_seq(mid));
    }
    acts.append(&mut more);
    proof {
        assert(room.state == RoomState::Idle || old(room).closing);
        match pick_target(old(room).game_players@) {
            Some(id) => {
                assert(acts@[0] == (Action::Kick { id }));
                let r = first_with_id(old(room).queue@, id);
                if r == -1 {
                    assert(room.queue@.len() == old(room).queue@.len());
                } else {
                    assert(room.queue@.len() == old(room).queue@.len() - 1);
                }
            },
            None => {},
        }
    }
    acts
}

/// The game players the queue does not mark ready, in slot order.
pub open spec fn unready(q: Seq<QueueEntry>, ps: Seq<PlayerV>) -> Seq<PlayerV> {
    ps.filter(|p: PlayerV| !ready_in(q, p.id))
}

/// The kicks a ready timeout issues: one per game player the queue
/// does not mark ready, in slot order.
pub open spec fn kick_acts(q: Seq<QueueEntry>, ps: Seq<PlayerV>) -> Seq<Action> {
    unready(q, ps).map_values(|p: PlayerV| Action::Kick { id: p.id })
}

/// The ids of those kicks, in the same order.
pub open spec fn kick_ids(q: Seq<QueueEntry>, ps: Seq<PlayerV>) -> Seq<i32> {
    unready(q, ps).map_values(|p: PlayerV| p.id)
}

/// The queue with the first spot holding this id moved to the back,
/// if present.
pub open spec fn rotate_one(q: Seq<QueueEntry>, id: i32) -> Seq<QueueEntry> {
    let r = first_with_id(q, id);
    if r == -1 {
        q
    } else {
        q.remove(r).push(q[r])
    }
}

/// The rendered names of one team row.
pub open spec fn team_names(row: Seq<PlayerV>) -> Seq<Seq<char>> {
    row.map_values(|p: PlayerV| p.name)
}

/// The character views of a name list.
pub open spec fn name_views(v: Seq<String>) -> Seq<Seq<char>> {
    v.map_values(|s: String| s@)
}

/// One action carrying exactly the teams-mode rating update spec
/// section 4.1.10 asks for: the team name lists ranked by descending
/// effective score (the winner slot overridden to the round count),
/// each team exactly once, and tie flags from adjacent score equality
/// (all true on a declared tie).
pub open spec fn is_team_update(
    a: Action,
    teams0: Seq<Seq<PlayerV>>,
    sc: Seq<i64>,
    winner: Option<i64>,
    rounds: i64,
    tie: bool,
) -> bool {
    a matches Action::RatingUpdate { teams: t2, ties: v2 } && (exists|ord: Seq<int>|
        #![trigger ord.len()]
        {
            &&& ord.len() == teams0.len()
            &&& forall|x: int| 0 <= x < ord.len() ==> 0 <= #[trigger] ord[x] < teams0.len()
            &&& forall|x: int, y: int|
                0 <= x < y < ord.len() ==> #[trigger] ord[x] != #[trigger] ord[y]
            &&& forall|x: int, y: int|
                0 <= x < y < ord.len() ==> eff_team_score(sc, winner, rounds, #[trigger] ord[x])
                    >= eff_team_score(sc, winner, rounds, #[trigger] ord[y])
            &&& t2@.len() == ord.len()
            &&& forall|k: int|
                0 <= k < ord.len() ==> name_views((#[trigger] t2@[k])@) == team_names(
                    teams0[ord[k]],
                )
            &&& v2@.len() == ord.len() - 1
            &&& forall|x: int|
                0 <= x < v2@.len() ==> (#[trigger] v2@[x]) == (tie || eff_team_score(
                    sc,
                    winner,
                    rounds,
                    ord[x],
                ) == eff_team_score(sc, winner, rounds, ord[x + 1]))
        })
}

/// One action carrying exactly the free-for-all rating update: one
/// single-name placement per game player, ranked by descending
/// effective score, each player exactly once, tie flags from adjacent
/// score equality.
pub open spec fn is_ffa_update(
    a: Action,
    players0: Seq<PlayerV>,
    sc: Seq<(i32, i64)>,
    winner: Option<i64>,
    rounds: i64,
    tie: bool,
) -> bool {
    a matches Action::RatingUpdate { teams: t2, ties: v2 } && (exists|ord: Seq<int>|
        #![trigger ord.len()]
        {
            &&& ord.len() == players0.len()
            &&& forall|x: int| 0 <= x < ord.len() ==> 0 <= #[trigger] ord[x] < players0.len()
            &&& forall|x: int, y: int|
                0 <= x < y < ord.len() ==> #[trigger] ord[x] != #[trigger] ord[y]
            &&& forall|x: int, y: int|
                0 <= x < y < ord.len() ==> eff_player_score(
                    sc,
                    winner,
                    rounds,
                    players0[#[trigger] ord[x]],
                ) >= eff_player_score(sc, winner, rounds, players0[#[trigger] ord[y]])
            &&& t2@.len() == ord.len()
            &&& forall|k: int|
                0 <= k < ord.len() ==> name_views((#[trigger] t2@[k])@) == seq![
                    players0[ord[k]].name,
                ]
            &&& v2@.len() == ord.len() - 1
            &&& forall|x: int|
                0 <= x < v2@.len() ==> (#[trigger] v2@[x]) == (tie || eff_player_score(
                    sc,
                    winner,
                    rounds,
                    players0[ord[x]],
                ) == eff_player_score(sc, winner, rounds, players0[ord[x + 1]]))
        })
}

/// The queue with the first spot holding this id removed, if present.
pub open spec fn remove_one(q: Seq<QueueEntry>, id: i32) -> Seq<QueueEntry> {
    let r = first_with_id(q, id);
    if r == -1 {
        q
    } else {
        q.remove(r)
    }
}

/// The queue after removing each listed id's first spot, in order.
pub open spec fn remove_each(q: Seq<QueueEntry>, ids: Seq<i32>) -> Seq<QueueEntry>
    decreases ids.len(),
{
    if ids.len() == 0 {
        q
    } else {
        remove_each(remove_one(q, ids.first()), ids.drop_first())
    }
}

proof fn lemma_remove_each_push(q: Seq<QueueEntry>, ids: Seq<i32>, x: i32)
    ensures
        remove_each(q, ids.push(x)) == remove_one(remove_each(q, ids), x),
    decreases ids.len(),
{
    if ids.len() == 0 {
        assert(ids.push(x).first() == x);
        assert(ids.push(x).drop_first() =~= Seq::<i32>::empty());
        assert(remove_each(q, ids.push(x)) == remove_each(
            remove_one(q, x),
            Seq::<i32>::empty(),
        ));
        assert(remove_each(q, ids) == q);
    } else {
        assert(ids.push(x).first() == ids.first());
        assert(ids.push(x).drop_first() =~= ids.drop_first().push(x));
        lemma_remove_each_push(remove_one(q, ids.first()), ids.drop_first(), x);
        assert(remove_each(q, ids.push(x)) == remove_each(
            remove_one(q, ids.first()),
            ids.drop_first().push(x),
        ));
        assert(remove_each(q, ids) == remove_each(
            remove_one(q, ids.first()),
            ids.drop_first(),
        ));
    }
}

/// The transition timer fired: launch from idle, punish a pick
/// timeout, close map selection, kick the unready on a ready timeout,
/// park while a game starts, and declare a timed-out game finished.
pub fn on_transition_timer_expired(room: &mut BonkRoom) -> (acts: Vec<Action>)
    requires
        old(room).wf(),
    ensures
        final(room).wf(),
        valid_step(old(room).state, final(room).state),
        old(room).state == RoomState::Idle ==> idle_launch_post(
            *old(room),
            *final(room),
            acts@,
        ),
        old(room).state == RoomState::Pick ==> pick_timeout_post(
            *old(room),
            *final(room),
            acts@,
        ),
        old(room).state == RoomState::MapSelection ==> {
            &&& final(room).state == RoomState::Ready
            &&& acts@.len() == 2
            &&& is_arm(acts@[0], TimerArm::Secs(old(room).room_parameters.ready_time))
            &&& is_chat(acts@[1], "The current map has been selected. Use !r to start."@)
            &&& *final(room) == (BonkRoom {
                state: RoomState::Ready,
                warning_step: 0,
                ..*old(room)
            })
        },
        old(room).state == RoomState::Ready ==> {
            let ps = old(room).game_players@.players_seq();
            &&& acts@.len() >= kick_acts(old(room).queue@, ps).len()
            &&& acts@.subrange(0, kick_acts(old(room).queue@, ps).len() as int) == kick_acts(
                old(room).queue@,
                ps,
            )
            &&& crate::bonk_room::names_seq(final(room).queue@)
                == crate::bonk_room::names_seq(remove_each(
                old(room).queue@,
                kick_ids(old(room).queue@, ps),
            ))
            &&& final(room).state == RoomState::Idle || old(room).closing
        },
        old(room).state == RoomState::GameStarting ==> *final(room) == *old(room) && acts@
            =~= seq![Action::ArmTimer { timer: TimerArm::Max }],
        old(room).state == RoomState::InGame ==> *final(room) == *old(room) && acts@ =~= seq![
            Action::EndGame { winner: None, tie: false },
        ],
{
    match room.state {
        RoomState::Idle => {
            let a = transition_idle(room);
            proof {
                assert(valid_step(old(room).state, room.state));
            }
            a
        },
        RoomState::Pick => {
            let a = transition_pick(room);
            proof {
                assert(valid_step(old(room).state, room.state));
            }
            a
        },

        RoomState::MapSelection => {
            let mut acts: Vec<Action> = Vec::new();
            room.state = RoomState::Ready;
            room.warning_step = 0;
            acts.push(
                Action::ArmTimer { timer: TimerArm::Secs(room.room_parameters.ready_time) },
            );
            proof {
                reveal_strlit("The current map has been selected. Use !r to start.");
            }
            acts.push(
                Action::Chat {
                    message: String::from_str(
                        "The current map has been selected. Use !r to start.",
                    ),
                },
            );
            acts
        },
        RoomState::Ready => {
            let mut acts: Vec<Action> = Vec::new();
            let ps = in_game_players(room);
            let ghost psv = old(room).game_players@.players_seq();
            let ghost q0 = room.queue@;
            let mut kicked: Vec<i32> = Vec::new();
            let n = ps.len();
            let mut x: usize = 0;
            proof {
                reveal(Seq::filter);
                assert(psv.take(0) =~= Seq::<PlayerV>::empty());
                assert(acts@ =~= kick_acts(q0, psv.take(0)));
            }
            while x < n
                invariant
                    x <= n,
                    n == ps@.len(),
                    *room == *old(room),
                    q0 == room.queue@,
                    plv(ps@) == psv,
                    psv.len() == n,
                    acts@ == kick_acts(q0, psv.take(x as int)),
                    kicked@ == kick_ids(q0, psv.take(x as int)),
                decreases n - x,
            {
                let ghost t1 = psv.take(x + 1);
                let ghost t0 = psv.take(x as int);
                proof {
                    reveal(Seq::filter);
                    assert(t1.drop_last() =~= t0);
                    assert(t1.last() == psv[x as int]);
                    assert(psv[x as int] == ps@[x as int]@);
                }
                if !queue_ready(room, ps[x].id) {
                    acts.push(Action::Kick { id: ps[x].id });
                    kicked.push(ps[x].id);
                    proof {
                        assert(t1.filter(|p: PlayerV| !ready_in(q0, p.id)) == t0.filter(
                            |p: PlayerV| !ready_in(q0, p.id),
                        ).push(psv[x as int]));
                        assert(acts@ =~= kick_acts(q0, t1));
                        assert(kicked@ =~= kick_ids(q0, t1));
                    }
                } else {
                    proof {
                        assert(t1.filter(|p: PlayerV| !ready_in(q0, p.id)) == t0.filter(
                            |p: PlayerV| !ready_in(q0, p.id),
                        ));
                    }
                }
                x += 1;
            }
            proof {
                assert(psv.take(n as int) == psv);
            }
            let ghost kacts = acts@;
            let ghost kids = kicked@;
            let m = kicked.len();
            let mut y: usize = 0;
            proof {
                assert(kids.take(0) =~= Seq::<i32>::empty());
            }
            while y < m
                invariant
                    y <= m,
                    m == kicked@.len(),
                    kicked@ == kids,
                    q0 == old(room).queue@,
                    room.wf(),
                    acts@ == kacts,
                    room.queue@ == remove_each(q0, kids.take(y as int)),
                    *room == (BonkRoom { queue: room.queue, ..*old(room) }),
                decreases m - y,
            {
                proof {
                    lemma_first_with_id(room.queue@, kicked@[y as int]);
                }
                room.remove_queue_by_id(kicked[y]);
                proof {
                    assert(kids.take(y + 1) =~= kids.take(y as int).push(kids[y as int]));
                    lemma_remove_each_push(q0, kids.take(y as int), kids[y as int]);
                    assert(room.queue@ == remove_each(q0, kids.take(y + 1)));
                }
                y += 1;
            }
            proof {
                assert(kids.take(m as int) == kids);
            }
            let ghost mid = room.queue@;
            let mut more = reset(room);
            acts.append(&mut more);
            proof {
                assert(acts@.subrange(0, kacts.len() as int) =~= kacts);
                assert(kacts == kick_acts(old(room).queue@,
                    old(room).game_players@.players_seq()));
                assert(crate::bonk_room::names_seq(room.queue@)
                    == crate::bonk_room::names_seq(mid));
                assert(room.state == RoomState::Idle || old(room).closing);
                assert(valid_step(old(room).state, room.state));
            }
            acts
        },
        RoomState::GameStarting => {
            let mut acts: Vec<Action> = Vec::new();
            acts.push(Action::ArmTimer { timer: TimerArm::Max });
            acts
        },
        RoomState::InGame => {
            let mut acts: Vec<Action> = Vec::new();
            acts.push(Action::EndGame { winner: None, tie: false });
            acts
        },
    }
}

/// Whether the queue currently lists this id as present in the room.
pub open spec fn in_room_by_id(q: Seq<QueueEntry>, id: i32) -> bool {
    let r = first_with_id(q, id);
    r != -1 && q[r].player.in_room
}

/// Whether some member of this team is still present.
pub open spec fn team_alive(q: Seq<QueueEntry>, team: Seq<PlayerV>) -> bool {
    exists|k: int| 0 <= k < team.len() && in_room_by_id(q, (#[trigger] team[k]).id)
}

/// How many teams still have a present member.
pub open spec fn alive_team_count(q: Seq<QueueEntry>, teams: Seq<Seq<PlayerV>>) -> int
    decreases teams.len(),
{
    if teams.len() == 0 {
        0
    } else {
        alive_team_count(q, teams.drop_last()) + if team_alive(q, teams.last()) {
            1int
        } else {
            0int
        }
    }
}

/// How many of these players are still present.
pub open spec fn alive_player_count(q: Seq<QueueEntry>, ps: Seq<PlayerV>) -> int
    decreases ps.len(),
{
    if ps.len() == 0 {
        0
    } else {
        alive_player_count(q, ps.drop_last()) + if in_room_by_id(q, ps.last().id) {
            1int
        } else {
            0int
        }
    }
}

/// Whether the queue currently lists this id as present.
pub fn queue_in_room(room: &BonkRoom, id: i32) -> (b: bool)
    ensures
        b == in_room_by_id(room.queue@, id),
{
    proof {
        lemma_first_with_id(room.queue@, id);
    }
    let n = room.queue.len();
    let mut i: usize = 0;
    while i < n
        invariant
            i <= n,
            n == room.queue@.len(),
            forall|j: int| 0 <= j < i ==> room.queue@[j].player.id != id,
        decreases n - i,
    {
        if room.queue[i].player.id == id {
            proof {
                lemma_first_with_id(room.queue@, id);
                assert(first_with_id(room.queue@, id) == i as int);
            }
            return room.queue[i].player.in_room;
        }
        i += 1;
    }
    proof {
        lemma_first_with_id(room.queue@, id);
    }
    false
}

/// A player image with the host id refreshed when the name matches the
/// joiner's.
pub open spec fn refresh_id(p: PlayerV, joiner: PlayerV) -> PlayerV {
    if p.name == joiner.name {
        PlayerV { id: joiner.id, ..p }
    } else {
        p
    }
}

/// Player images with the joiner's id wherever the name matches.
pub open spec fn refresh_all(ps: Seq<PlayerV>, joiner: PlayerV) -> Seq<PlayerV> {
    ps.map_values(|p: PlayerV| refresh_id(p, joiner))
}

/// The game assignment with every slot matching the joiner's name
/// given their fresh id.
pub open spec fn refresh_gp(gp: GamePlayersV, joiner: PlayerV) -> GamePlayersV {
    match gp {
        GamePlayersV::Singles { picker, picked } => GamePlayersV::Singles {
            picker: match picker {
                Some(p) => Some(refresh_id(p, joiner)),
                None => None,
            },
            picked: match picked {
                Some(p) => Some(refresh_id(p, joiner)),
                None => None,
            },
        },
        GamePlayersV::Teams { teams, picker_idx } => GamePlayersV::Teams {
            teams: teams.map_values(|t: Seq<PlayerV>| refresh_all(t, joiner)),
            picker_idx,
        },
        GamePlayersV::FFA { in_game } => GamePlayersV::FFA {
            in_game: refresh_all(in_game, joiner),
        },
    }
}

fn refresh_player(p: &Player, joiner: &Player) -> (r: Player)
    ensures
        r@ == refresh_id(p@, joiner@),
{
    if p.name.eq(&joiner.name) {
        let mut r = p.duplicate();
        r.id = joiner.id;
        r
    } else {
        p.duplicate()
    }
}

/// A player joined (or re-joined): refresh the id their name holds in
/// the game assignment; from idle, launch at once when this join meets
/// the quorum; during a running game, restore a rejoining game player
/// to their team on the host.
pub fn on_player_join(room: &mut BonkRoom, player: &Player) -> (acts: Vec<Action>)
    requires
        old(room).wf(),
    ensures
        final(room).wf(),
        final(room).state == old(room).state,
        final(room).queue == old(room).queue,
        final(room).game_players@ == refresh_gp(old(room).game_players@, player@),
        *final(room) == (BonkRoom { game_players: final(room).game_players, ..*old(room) }),
        ({
            let irq = players_view(in_room_filter(old(room).queue@));
            let p = old(room).room_parameters;
            let quorum: bool = match p.queue {
                Queue::Singles => irq.len() == 2,
                Queue::Teams => irq.len() == p.team_size * p.team_num,
                Queue::FFA => irq.len() == p.ffa_min,
            };
            &&& old(room).state == RoomState::Idle && quorum ==> acts@ =~= seq![
                Action::ArmTimer { timer: TimerArm::Zero },
            ]
            &&& old(room).state == RoomState::Idle && !quorum ==> acts@.len() == 0
        }),
        (old(room).state == RoomState::Pick || old(room).state == RoomState::MapSelection
            || old(room).state == RoomState::Ready) ==> acts@.len() == 0,
        (old(room).state == RoomState::GameStarting || old(room).state == RoomState::InGame)
            ==> match refresh_gp(old(room).game_players@, player@) {
            GamePlayersV::Singles { picker: _, picked: _ } => acts@.len() == 0,
            GamePlayersV::Teams { teams, picker_idx: _ } => forall|ti: int|
                0 <= ti < teams.len() && (exists|mi: int|
                    0 <= mi < (#[trigger] teams[ti]).len() && teams[ti][mi].id == player.id)
                    ==> has_replay(acts@, player.id, (ti + 2) as i32),
            GamePlayersV::FFA { in_game } => (exists|mi: int|
                0 <= mi < in_game.len() && (#[trigger] in_game[mi]).id == player.id)
                ==> has_replay(acts@, player.id, 1),
        },
{
    let mut acts: Vec<Action> = Vec::new();
    let ghost gv0 = room.game_players@;
    let gp_new: GamePlayers = match &room.game_players {
        GamePlayers::Singles { picker, picked } => {
            let npk = match picker {
                Some(p) => Some(refresh_player(p, player)),
                None => None,
            };
            let npd = match picked {
                Some(p) => Some(refresh_player(p, player)),
                None => None,
            };
            GamePlayers::Singles { picker: npk, picked: npd }
        },
        GamePlayers::Teams { teams, picker_idx } => {
            let ghost tv = gv0->Teams_teams;
            let mut nt: Vec<Vec<Player>> = Vec::new();
            let tn = teams.len();
            let mut i: usize = 0;
            while i < tn
                invariant
                    i <= tn,
                    tn == teams@.len(),
                    tv == teams@.map_values(
                        |t: Vec<Player>| t@.map_values(|q: Player| q@),
                    ),
                    nt@.len() == i,
                    forall|x: int|
                        0 <= x < i ==> plv((#[trigger] nt@[x])@) == refresh_all(
                            tv[x],
                            player@,
                        ),
                decreases tn - i,
            {
                let team = &teams[i];
                let m = team.len();
                let mut row: Vec<Player> = Vec::new();
                let mut j: usize = 0;
                while j < m
                    invariant
                        j <= m,
                        i < tn,
                        tn == teams@.len(),
                        m == teams@[i as int]@.len(),
                        tv == teams@.map_values(
                            |t: Vec<Player>| t@.map_values(|q: Player| q@),
                        ),
                        team == teams@[i as int],
                        plv(row@) == refresh_all(tv[i as int].take(j as int), player@),
                    decreases m - j,
                {
                    let ghost rprev = row@;
                    row.push(refresh_player(&team[j], player));
                    proof {
                        assert(tv[i as int][j as int] == teams@[i as int]@[j as int]@);
                        assert(plv(row@) =~= plv(rprev).push(row@.last()@));
                        assert(tv[i as int].take(j + 1) =~= tv[i as int].take(
                            j as int,
                        ).push(tv[i as int][j as int]));
                        assert(refresh_all(tv[i as int].take(j + 1), player@)
                            =~= refresh_all(tv[i as int].take(j as int), player@).push(
                            refresh_id(tv[i as int][j as int], player@),
                        ));
                        assert(plv(row@) =~= refresh_all(tv[i as int].take(j + 1), player@));
                    }
                    j += 1;
                }
                let ghost ntprev = nt@;
                nt.push(row);
                proof {
                    assert(tv[i as int].take(m as int) == tv[i as int]);
                    assert(plv(nt@[i as int]@) == refresh_all(tv[i as int], player@));
                }
                i += 1;
            }
            GamePlayers::Teams { teams: nt, picker_idx: *picker_idx }
        },
        GamePlayers::FFA { in_game } => {
            let ghost fv = gv0->FFA_in_game;
            let mut row: Vec<Player> = Vec::new();
            let m = in_game.len();
            let mut j: usize = 0;
            while j < m
                invariant
                    j <= m,
                    m == in_game@.len(),
                    fv == in_game@.map_values(|q: Player| q@),
                    plv(row@) == refresh_all(fv.take(j as int), player@),
                decreases m - j,
            {
                let ghost rprev = row@;
                row.push(refresh_player(&in_game[j], player));
                proof {
                    assert(fv[j as int] == in_game@[j as int]@);
                    assert(plv(row@) =~= plv(rprev).push(row@.last()@));
                    assert(fv.take(j + 1) =~= fv.take(j as int).push(fv[j as int]));
                    assert(refresh_all(fv.take(j + 1), player@) =~= refresh_all(
                        fv.take(j as int),
                        player@,
                    ).push(refresh_id(fv[j as int], player@)));
                    assert(plv(row@) =~= refresh_all(fv.take(j + 1), player@));
                }
                j += 1;
            }
            proof {
                assert(fv.take(m as int) == fv);
            }
            GamePlayers::FFA { in_game: row }
        },
    };
    room.game_players = gp_new;
    proof {
        match gv0 {
            GamePlayersV::Teams { teams: tv0, picker_idx: _ } => {
                let built = room.game_players@->Teams_teams;
                assert forall|x: int| 0 <= x < built.len() implies built[x] == refresh_gp(
                    gv0,
                    player@,
                )->Teams_teams[x] by {}
                assert(built =~= refresh_gp(gv0, player@)->Teams_teams);
            },
            _ => {},
        }
        assert(room.game_players@ =~~= refresh_gp(gv0, player@));
    }
    match room.state {
        RoomState::Idle => {
            let q = room.in_room_queue();
            let quorum: bool = match room.room_parameters.queue {
                Queue::Singles => q.len() == 2,
                Queue::Teams => {
                    let ts = room.room_parameters.team_size;
                    let tn = room.room_parameters.team_num;
                    if tn == 0 {
                        false
                    } else {
                        q.len() / tn == ts && q.len() % tn == 0
                    }
                },
                Queue::FFA => q.len() == room.room_parameters.ffa_min,
            };
            proof {
                if room.room_parameters.queue == Queue::Teams {
                    vstd::arithmetic::div_mod::lemma_fundamental_div_mod(
                        q@.len() as int,
                        room.room_parameters.team_num as int,
                    );
                    vstd::arithmetic::div_mod::lemma_div_by_multiple(
                        room.room_parameters.team_size as int,
                        room.room_parameters.team_num as int,
                    );
                    vstd::arithmetic::div_mod::lemma_mod_multiples_basic(
                        room.room_parameters.team_size as int,
                        room.room_parameters.team_num as int,
                    );
                    let ts = room.room_parameters.team_size as int;
                    let tn = room.room_parameters.team_num as int;
                    if q@.len() as int == ts * tn {
                        vstd::arithmetic::mul::lemma_mul_is_commutative(ts, tn);
                        assert(q@.len() as int / tn == ts);
                        assert(q@.len() as int % tn == 0);
                    }
                    if q@.len() as int / tn == ts && q@.len() as int % tn == 0 {
                        vstd::arithmetic::mul::lemma_mul_is_commutative(ts, tn);
                        assert(q@.len() as int == tn * ts);
                    }
                }
                assert(plv(q@).len() == q@.len());
            }
            if quorum {
                acts.push(Action::ArmTimer { timer: TimerArm::Zero });
                proof {
                    assert(is_arm(acts@[acts@.len() - 1], TimerArm::Zero));
                }
            }
        },
        RoomState::Pick | RoomState::MapSelection | RoomState::Ready => {},
        RoomState::GameStarting | RoomState::InGame => {
            let ghost gv = room.game_players@;
            match &room.game_players {
                GamePlayers::Singles { picker: _, picked: _ } => {},
                GamePlayers::Teams { teams, picker_idx: _ } => {
                    let ghost tv = gv->Teams_teams;
                    let tn = teams.len();
                    let mut i: usize = 0;
                    while i < tn
                        invariant
                            i <= tn,
                            tn == teams@.len(),
                            tn <= 4,
                            tv == teams@.map_values(
                                |t: Vec<Player>| t@.map_values(|q: Player| q@),
                            ),
                            tv.len() == tn,
                            forall|ti: int|
                                0 <= ti < i && (exists|mi: int|
                                    0 <= mi < (#[trigger] tv[ti]).len() && tv[ti][mi].id
                                        == player.id) ==> has_replay(
                                    acts@,
                                    player.id,
                                    (ti + 2) as i32,
                                ),
                        decreases tn - i,
                    {
                        let team = &teams[i];
                        let m = team.len();
                        let mut j: usize = 0;
                        let mut hit: bool = false;
                        while j < m
                            invariant
                                j <= m,
                                i < tn,
                                tn <= 4,
                                m == teams@[i as int]@.len(),
                                team == teams@[i as int],
                                tv == teams@.map_values(
                                    |t: Vec<Player>| t@.map_values(|q: Player| q@),
                                ),
                                tv.len() == tn,
                                hit ==> has_replay(acts@, player.id, (i + 2) as i32),
                                !hit ==> forall|mi: int|
                                    0 <= mi < j ==> (#[trigger] tv[i as int][mi]).id
                                        != player.id,
                                forall|ti: int|
                                    0 <= ti < i && (exists|mi: int|
                                        0 <= mi < (#[trigger] tv[ti]).len() && tv[ti][
                                        mi].id == player.id) ==> has_replay(
                                        acts@,
                                        player.id,
                                        (ti + 2) as i32,
                                    ),
                            decreases m - j,
                        {
                            proof {
                                assert(tv[i as int][j as int] == teams@[i as int]@[
                                    j as int]@);
                            }
                            if team[j].id == player.id {
                                let ghost aprev = acts@;
                                acts.push(
                                    Action::HostReplayJoin {
                                        id: player.id,
                                        team: (i + 2) as i32,
                                    },
                                );
                                hit = true;
                                proof {
                                    assert(acts@[acts@.len() - 1]
                                        == (Action::HostReplayJoin {
                                        id: player.id,
                                        team: (i + 2) as i32,
                                    }));
                                    lemma_replays_extend(aprev, acts@, player.id);
                                }
                            }
                            j += 1;
                        }
                        proof {
                            assert forall|ti: int|
                                0 <= ti < i + 1 && (exists|mi: int|
                                    0 <= mi < (#[trigger] tv[ti]).len() && tv[ti][mi].id
                                        == player.id) implies has_replay(
                                acts@,
                                player.id,
                                (ti + 2) as i32,
                            ) by {}
                        }
                        i += 1;
                    }
                },
                GamePlayers::FFA { in_game } => {
                    let ghost fv = gv->FFA_in_game;
                    let m = in_game.len();
                    let mut j: usize = 0;
                    while j < m
                        invariant
                            j <= m,
                            m == in_game@.len(),
                            fv == in_game@.map_values(|q: Player| q@),
                            fv.len() == m,
                            (exists|mi: int|
                                0 <= mi < j && (#[trigger] fv[mi]).id == player.id)
                                ==> has_replay(acts@, player.id, 1),
                        decreases m - j,
                    {
                        proof {
                            assert(fv[j as int] == in_game@[j as int]@);
                        }
                        if in_game[j].id == player.id {
                            let ghost aprev = acts@;
                            acts.push(Action::HostReplayJoin { id: player.id, team: 1 });
                            proof {
                                assert(acts@[acts@.len() - 1] == (Action::HostReplayJoin {
                                    id: player.id,
                                    team: 1,
                                }));
                                lemma_replays_extend(aprev, acts@, player.id);
                            }
                        } else {
                            proof {
                                if exists|mi: int|
                                    0 <= mi < j && (#[trigger] fv[mi]).id == player.id {
                                    assert(has_replay(acts@, player.id, 1));
                                }
                            }
                        }
                        j += 1;
                    }
                },
            }
        },
    }
    acts
}

/// First index of this id within one team row, or -1.
pub open spec fn first_in_row(row: Seq<PlayerV>, id: i32) -> int
    decreases row.len(),
{
    if row.len() == 0 {
        -1
    } else if row[0].id == id {
        0
    } else {
        let r = first_in_row(row.drop_first(), id);
        if r == -1 {
            -1
        } else {
            r + 1
        }
    }
}

/// The first slot holding this id, scanning teams row by row.
pub open spec fn find_in_teams(teams: Seq<Seq<PlayerV>>, id: i32) -> Option<(int, int)>
    decreases teams.len(),
{
    if teams.len() == 0 {
        None
    } else {
        let r = first_in_row(teams.first(), id);
        if r != -1 {
            Some((0int, r))
        } else {
            match find_in_teams(teams.drop_first(), id) {
                Some((ti, mi)) => Some((ti + 1, mi)),
                None => None,
            }
        }
    }
}

proof fn lemma_first_in_row(row: Seq<PlayerV>, id: i32)
    ensures
        first_in_row(row, id) == -1 ==> forall|m: int| 0 <= m < row.len() ==> row[m].id != id,
        first_in_row(row, id) != -1 ==> {
            let r = first_in_row(row, id);
            &&& 0 <= r < row.len()
            &&& row[r].id == id
            &&& forall|m: int| 0 <= m < r ==> row[m].id != id
        },
    decreases row.len(),
{
    if row.len() > 0 && row[0].id != id {
        lemma_first_in_row(row.drop_first(), id);
        assert forall|m: int| 1 <= m < row.len() implies row.drop_first()[m - 1] == row[m] by {}
    }
}

pub proof fn lemma_find_in_teams(teams: Seq<Seq<PlayerV>>, id: i32)
    ensures
        find_in_teams(teams, id) is None ==> forall|ti: int, mi: int|
            0 <= ti < teams.len() && 0 <= mi < teams[ti].len() ==> (#[trigger] teams[ti][
            mi]).id != id,
        find_in_teams(teams, id) matches Some(pos) ==> {
            &&& 0 <= pos.0 < teams.len()
            &&& 0 <= pos.1 < teams[pos.0].len()
            &&& teams[pos.0][pos.1].id == id
            &&& forall|ti: int, mi: int|
                0 <= ti < pos.0 && 0 <= mi < teams[ti].len() ==> (#[trigger] teams[ti][
                mi]).id != id
            &&& forall|mi: int| 0 <= mi < pos.1 ==> teams[pos.0][mi].id != id
        },
    decreases teams.len(),
{
    if teams.len() > 0 {
        lemma_first_in_row(teams.first(), id);
        lemma_find_in_teams(teams.drop_first(), id);
        assert forall|ti: int| 1 <= ti < teams.len() implies teams.drop_first()[ti - 1]
            == teams[ti] by {}
    }
}

/// A player left the room: a leaving captain voids the pick phase, a
/// teamed player leaving map selection or the ready wait is sent to
/// the back of the queue with a reset, and a departure from a running
/// game ends it in favour of whoever remains.
pub fn on_player_leave(room: &mut BonkRoom, player: &Player) -> (acts: Vec<Action>)
    requires
        old(room).wf(),
    ensures
        final(room).wf(),
        valid_step(old(room).state, final(room).state),
        final(room).queue@.len() == old(room).queue@.len(),
        crate::bonk_room::names_seq(final(room).queue@).to_multiset()
            == crate::bonk_room::names_seq(old(room).queue@).to_multiset(),
        crate::bonk_room::stamps_seq(final(room).queue@).to_multiset()
            == crate::bonk_room::stamps_seq(old(room).queue@).to_multiset(),
        final(room).state == old(room).state || final(room).state == RoomState::Idle,
        old(room).state == RoomState::Idle ==> *final(room) == *old(room) && acts@.len() == 0,
        old(room).state == RoomState::Pick ==> {
            &&& (old(room).game_players@ matches GamePlayersV::Singles {
                picker: Some(pk),
                picked: _,
            } && pk.id == player.id) ==> final(room).state == RoomState::Idle
                || old(room).closing
            &&& old(room).game_players@ matches GamePlayersV::Teams {
                teams: teams0,
                picker_idx: pi0,
            } ==> match find_in_teams(teams0, player.id) {
                None => *final(room) == *old(room) && acts@.len() == 0,
                Some(pos) => {
                    &&& pos.1 == 0 ==> final(room).state == RoomState::Idle
                        || old(room).closing
                    &&& pos.1 >= 1 ==> acts@.len() == 0 && (final(room).game_players@
                    matches GamePlayersV::Teams { teams: nt, picker_idx: npi } && {
                        &&& npi == pi0
                        &&& nt.len() == teams0.len()
                        &&& nt[pos.0] == teams0[pos.0].remove(pos.1)
                        &&& forall|x: int|
                            0 <= x < nt.len() && x != pos.0 ==> #[trigger] nt[x]
                                == teams0[x]
                    }) && *final(room) == (BonkRoom {
                        game_players: final(room).game_players,
                        ..*old(room)
                    })
                },
            }
        },
        (old(room).state == RoomState::MapSelection || old(room).state == RoomState::Ready)
            ==> {
            &&& player.team != 0 ==> (final(room).state == RoomState::Idle
                || old(room).closing) && ({
                let r = first_with_id(old(room).queue@, player.id);
                if r == -1 {
                    crate::bonk_room::names_seq(final(room).queue@)
                        == crate::bonk_room::names_seq(old(room).queue@)
                } else {
                    crate::bonk_room::names_seq(final(room).queue@)
                        == crate::bonk_room::names_seq(old(room).queue@.remove(r).push(
                        old(room).queue@[r],
                    ))
                }
            })
            &&& player.team == 0 ==> *final(room) == *old(room) && acts@.len() == 0
        },
        (old(room).state == RoomState::Pick && old(room).game_players@ matches
        GamePlayersV::FFA { in_game: _ }) ==> *final(room) == *old(room) && acts@.len() == 0,
        (old(room).state == RoomState::GameStarting || old(room).state == RoomState::InGame)
            ==> match old(room).game_players@ {
            GamePlayersV::Singles { picker: Some(pk), picked: Some(pd) } => {
                let fb = old(room).room_parameters.mode == Mode::Football;
                let flip = old(room).team_flip;
                &&& (fb && pk.id == player.id) ==> acts@ =~= seq![
                    Action::EndGame {
                        winner: Some(football_other_team(flip) as i64),
                        tie: false,
                    },
                ] && *final(room) == *old(room)
                &&& (fb && pk.id != player.id && pd.id == player.id) ==> acts@ =~= seq![
                    Action::EndGame {
                        winner: Some(football_picker_team(flip) as i64),
                        tie: false,
                    },
                ] && *final(room) == *old(room)
                &&& (!fb && pk.id == player.id) ==> acts@ =~= seq![
                    Action::EndGame { winner: Some(pd.id as i64), tie: false },
                ] && *final(room) == *old(room)
                &&& (!fb && pk.id != player.id && pd.id == player.id) ==> acts@ =~= seq![
                    Action::EndGame { winner: Some(pk.id as i64), tie: false },
                ] && *final(room) == *old(room)
            },
            GamePlayersV::Teams { teams, picker_idx: _ } => {
                let alive = alive_team_count(old(room).queue@, teams);
                &&& alive == 1 ==> exists|w: int|
                    0 <= w < teams.len() && team_alive(old(room).queue@, #[trigger] teams[w])
                        && acts@ =~= seq![
                        Action::EndGame { winner: Some(w as i64), tie: false },
                    ]
                &&& alive == 0 ==> final(room).state == RoomState::Idle
                    || old(room).closing
                &&& alive >= 2 ==> *final(room) == *old(room) && acts@.len() == 0
            },
            GamePlayersV::FFA { in_game } => {
                let alive = alive_player_count(old(room).queue@, in_game);
                &&& alive == 1 ==> exists|w: int|
                    0 <= w < in_game.len() && in_room_by_id(
                        old(room).queue@,
                        (#[trigger] in_game[w]).id,
                    ) && acts@ =~= seq![
                        Action::EndGame { winner: Some(in_game[w].id as i64), tie: false },
                    ]
                &&& alive == 0 ==> final(room).state == RoomState::Idle
                    || old(room).closing
                &&& alive >= 2 ==> *final(room) == *old(room) && acts@.len() == 0
            },
            // a singles game with a missing slot cannot be scored; the
            // room stands as it was
            _ => *final(room) == *old(room) && acts@.len() == 0,
        },
{
    let mut acts: Vec<Action> = Vec::new();
    match room.state {
        RoomState::Idle => acts,
        RoomState::Pick => {
            match &room.game_players {
                GamePlayers::Singles { picker, picked: _ } => {
                    let pid: Option<i32> = match picker {
                        Some(p) => Some(p.id),
                        None => None,
                    };
                    if let Some(pid) = pid {
                        if pid == player.id {
                            let ghost mid = room.queue@;
                            let mut more = reset(room);
                            acts.append(&mut more);
                            proof {
                                assert(crate::bonk_room::stamps_seq(room.queue@)
                                    == crate::bonk_room::stamps_seq(mid));
                                assert(crate::bonk_room::names_seq(room.queue@)
                                    == crate::bonk_room::names_seq(mid));
                            }
                        }
                    }
                    acts
                },
                GamePlayers::Teams { teams: _, picker_idx: _ } => {
                    let (cap, member): (bool, Option<(usize, usize)>) = scan_teams_for(
                        room,
                        player.id,
                    );
                    if cap {
                        let ghost mid = room.queue@;
                        let mut more = reset(room);
                        acts.append(&mut more);
                        proof {
                            assert(crate::bonk_room::stamps_seq(room.queue@)
                                == crate::bonk_room::stamps_seq(mid));
                            assert(crate::bonk_room::names_seq(room.queue@)
                                == crate::bonk_room::names_seq(mid));
                        }
                        return acts;
                    }
                    if let Some((ti, mi)) = member {
                        drop_team_member(room, ti, mi);
                    }
                    acts
                },
                GamePlayers::FFA { in_game: _ } => acts,
            }
        },
        RoomState::MapSelection | RoomState::Ready => {
            if player.team != 0 {
                proof {
                    lemma_first_with_id(room.queue@, player.id);
                }
                room.rotate_queue_to_back(player.id);
                proof {
                    let r = first_with_id(old(room).queue@, player.id);
                    if r != -1 {
                        assert(room.queue@ == old(room).queue@.remove(r).push(
                            old(room).queue@[r],
                        ));
                    }
                }
                let ghost mid = room.queue@;
                let mut more = reset(room);
                acts.append(&mut more);
                proof {
                    assert(crate::bonk_room::names_seq(mid).to_multiset()
                        == crate::bonk_room::names_seq(old(room).queue@).to_multiset());
                    assert(crate::bonk_room::names_seq(room.queue@) == crate::bonk_room::names_seq(
                        mid,
                    ));
                    assert(crate::bonk_room::stamps_seq(room.queue@)
                        == crate::bonk_room::stamps_seq(mid));
                }
            }
            acts
        },
        RoomState::GameStarting | RoomState::InGame => {
            match &room.game_players {
                GamePlayers::Singles { picker, picked } => {
                    let (pk, pd) = match (picker, picked) {
                        (Some(a), Some(b)) => (a, b),
                        _ => {
                            return acts;
                        },
                    };
                    let fb = room.room_parameters.mode == Mode::Football;
                    let flip = room.team_flip;
                    if fb {
                        if pk.id == player.id {
                            acts.push(
                                Action::EndGame {
                                    winner: Some(
                                        (if flip {
                                            3i64
                                        } else {
                                            2i64
                                        }),
                                    ),
                                    tie: false,
                                },
                            );
                        } else if pd.id == player.id {
                            acts.push(
                                Action::EndGame {
                                    winner: Some(
                                        (if flip {
                                            2i64
                                        } else {
                                            3i64
                                        }),
                                    ),
                                    tie: false,
                                },
                            );
                        }
                    } else {
                        if pk.id == player.id {
                            acts.push(
                                Action::EndGame { winner: Some(pd.id as i64), tie: false },
                            );
                        } else if pd.id == player.id {
                            acts.push(
                                Action::EndGame { winner: Some(pk.id as i64), tie: false },
                            );
                        }
                    }
                    acts
                },
                GamePlayers::Teams { teams: _, picker_idx: _ } => {
                    let (alive, wi) = count_alive_teams(room);
                    if alive == 1 {
                        acts.push(
                            Action::EndGame { winner: Some(wi as i64), tie: false },
                        );
                        acts
                    } else if alive == 0 {
                        let ghost mid = room.queue@;
                        let mut more = reset(room);
                        acts.append(&mut more);
                        proof {
                            assert(crate::bonk_room::stamps_seq(room.queue@)
                                == crate::bonk_room::stamps_seq(mid));
                            assert(crate::bonk_room::names_seq(room.queue@)
                                == crate::bonk_room::names_seq(mid));
                        }
                        acts
                    } else {
                        acts
                    }
                },
                GamePlayers::FFA { in_game: _ } => {
                    let (alive, wid) = count_alive_players(room);
                    if alive == 1 {
                        acts.push(
                            Action::EndGame { winner: Some(wid as i64), tie: false },
                        );
                        acts
                    } else if alive == 0 {
                        let ghost mid = room.queue@;
                        let mut more = reset(room);
                        acts.append(&mut more);
                        proof {
                            assert(crate::bonk_room::stamps_seq(room.queue@)
                                == crate::bonk_room::stamps_seq(mid));
                            assert(crate::bonk_room::names_seq(room.queue@)
                                == crate::bonk_room::names_seq(mid));
                        }
                        acts
                    } else {
                        acts
                    }
                },
            }
        },
    }
}

/// Whether this id heads a team (a captain), or else where it sits:
/// the row-major first occurrence decides, as `find_in_teams` says.
fn scan_teams_for(room: &BonkRoom, id: i32) -> (r: (bool, Option<(usize, usize)>))
    ensures
        r.1 matches Some(pos) ==> {
            let teams = room.game_players@->Teams_teams;
            &&& room.game_players@ matches GamePlayersV::Teams { teams: _, picker_idx: _ }
            &&& 0 <= pos.0 < teams.len()
            &&& 1 <= pos.1 < teams[pos.0 as int].len()
        },
        room.game_players@ matches GamePlayersV::Teams { teams, picker_idx: _ }
            ==> match find_in_teams(teams, id) {
            None => !r.0 && r.1 is None,
            Some(pos) => {
                &&& pos.1 == 0 ==> r.0 && r.1 is None
                &&& pos.1 >= 1 ==> !r.0 && (r.1 matches Some(p) && p.0 == pos.0 && p.1
                    == pos.1)
            },
        },
{
    match &room.game_players {
        GamePlayers::Teams { teams, picker_idx: _ } => {
            let ghost tv = room.game_players@->Teams_teams;
            let tn = teams.len();
            let mut i: usize = 0;
            while i < tn
                invariant
                    i <= tn,
                    tn == teams@.len(),
                    teams@.map_values(
                        |t: Vec<Player>| t@.map_values(|p: Player| p@),
                    ) == room.game_players@->Teams_teams,
                    tv == room.game_players@->Teams_teams,
                    tv.len() == tn,
                    room.game_players@ matches GamePlayersV::Teams {
                        teams: _,
                        picker_idx: _,
                    },
                    forall|ti: int, mi: int|
                        0 <= ti < i && 0 <= mi < tv[ti].len() ==> (#[trigger] tv[ti][
                        mi]).id != id,
                decreases tn - i,
            {
                let team = &teams[i];
                let m = team.len();
                let mut j: usize = 0;
                while j < m
                    invariant
                        j <= m,
                        i < tn,
                        tn == teams@.len(),
                        m == teams@[i as int]@.len(),
                        team == teams@[i as int],
                        teams@.map_values(
                            |t: Vec<Player>| t@.map_values(|p: Player| p@),
                        ) == room.game_players@->Teams_teams,
                        tv == room.game_players@->Teams_teams,
                        tv.len() == tn,
                        room.game_players@ matches GamePlayersV::Teams {
                            teams: _,
                            picker_idx: _,
                        },
                        forall|ti: int, mi: int|
                            0 <= ti < i && 0 <= mi < tv[ti].len() ==> (#[trigger] tv[ti][
                            mi]).id != id,
                        forall|mi: int| 0 <= mi < j ==> (#[trigger] tv[i as int][mi]).id != id,
                    decreases m - j,
                {
                    proof {
                        assert(tv[i as int] == teams@[i as int]@.map_values(
                            |p: Player| p@,
                        ));
                        assert(tv[i as int][j as int] == teams@[i as int]@[j as int]@);
                    }
                    if team[j].id == id {
                        proof {
                            lemma_find_in_teams(tv, id);
                            assert(tv[i as int][j as int].id == id);
                            assert(find_in_teams(tv, id) == Some((i as int, j as int)));
                        }
                        if j == 0 {
                            return (true, None);
                        }
                        return (false, Some((i, j)));
                    }
                    j += 1;
                }
                i += 1;
            }
            proof {
                lemma_find_in_teams(tv, id);
            }
            (false, None)
        },
        _ => (false, None),
    }
}

/// Remove one non-captain member from a team.
fn drop_team_member(room: &mut BonkRoom, ti: usize, mi: usize)
    requires
        old(room).wf(),
        old(room).game_players@ matches GamePlayersV::Teams { teams, picker_idx: _ }
            && 0 <= ti < teams.len() && 1 <= mi < teams[ti as int].len(),
    ensures
        final(room).wf(),
        final(room).state == old(room).state,
        final(room).queue == old(room).queue,
        *final(room) == (BonkRoom { game_players: final(room).game_players, ..*old(room) }),
        final(room).game_players@ matches GamePlayersV::Teams { teams: nt, picker_idx: npi }
            && {
            let teams0 = old(room).game_players@->Teams_teams;
            let pi0 = old(room).game_players@->Teams_picker_idx;
            &&& npi == pi0
            &&& nt.len() == teams0.len()
            &&& nt[ti as int] == teams0[ti as int].remove(mi as int)
            &&& forall|x: int|
                0 <= x < nt.len() && x != ti as int ==> #[trigger] nt[x] == teams0[x]
        },
{
    let ghost gv0 = room.game_players@;
    match &mut room.game_players {
        GamePlayers::Teams { teams, picker_idx: _ } => {
            let ghost tv0 = teams@;
            let mut team = teams.remove(ti);
            team.remove(mi);
            teams.insert(ti, team);
            proof {
                assert forall|x: int|
                    0 <= x < tv0.len() && x != ti as int implies #[trigger] teams@[x]
                    == tv0[x] by {
                    assert(teams@[x] == tv0.remove(ti as int).insert(
                        ti as int,
                        teams@[ti as int],
                    )[x]);
                }
                assert(teams@[ti as int]@.map_values(|p: Player| p@) =~= tv0[ti as int]@
                    .map_values(|p: Player| p@).remove(mi as int));
            }
        },
        _ => {},
    }
    proof {
        let t0 = gv0->Teams_teams;
        let nt = room.game_players@->Teams_teams;
        assert forall|x: int| 0 <= x < nt.len() && x != ti as int implies #[trigger] nt[x]
            == t0[x] by {}
        assert(nt[ti as int] =~= t0[ti as int].remove(mi as int));
    }
}

/// How many teams still have a present member, and the index of one.
fn count_alive_teams(room: &BonkRoom) -> (r: (usize, usize))
    requires
        room.wf(),
        room.game_players@ matches GamePlayersV::Teams { teams: _, picker_idx: _ },
    ensures
        ({
            let teams = room.game_players@->Teams_teams;
            &&& r.0 == alive_team_count(room.queue@, teams)
            &&& r.0 >= 1 ==> 0 <= (r.1 as int) < teams.len() && team_alive(
                room.queue@,
                teams[r.1 as int],
            )
        }),
{
    let ghost tv = room.game_players@->Teams_teams;
    let mut alive: usize = 0;
    let mut wi: usize = 0;
    match &room.game_players {
        GamePlayers::Teams { teams, picker_idx: _ } => {
            let tn = teams.len();
            let mut i: usize = 0;
            proof {
                assert(tv.take(0) =~= Seq::<Seq<PlayerV>>::empty());
            }
            while i < tn
                invariant
                    i <= tn,
                    tn == teams@.len(),
                    tv == room.game_players@->Teams_teams,
                    tv == teams@.map_values(
                        |t: Vec<Player>| t@.map_values(|p: Player| p@),
                    ),
                    tv.len() == tn,
                    alive <= i,
                    alive == alive_team_count(room.queue@, tv.take(i as int)),
                    alive >= 1 ==> wi < tn && team_alive(room.queue@, tv[wi as int]),
                decreases tn - i,
            {
                proof {
                    assert(tv.take(i + 1).drop_last() =~= tv.take(i as int));
                    assert(tv.take(i + 1).last() == tv[i as int]);
                }
                let team = &teams[i];
                let m = team.len();
                let mut j: usize = 0;
                let mut found: bool = false;
                let ghost trow = tv[i as int];
                while j < m
                    invariant
                        j <= m,
                        i < tn,
                        m == teams@[i as int]@.len(),
                        team == teams@[i as int],
                        trow == teams@[i as int]@.map_values(|p: Player| p@),
                        trow.len() == m,
                        found ==> team_alive(room.queue@, trow),
                        !found ==> forall|k: int|
                            0 <= k < j ==> !in_room_by_id(
                                room.queue@,
                                (#[trigger] trow[k]).id,
                            ),
                    decreases m - j,
                {
                    if !found && queue_in_room(room, team[j].id) {
                        found = true;
                        proof {
                            assert(trow[j as int] == teams@[i as int]@[j as int]@);
                            assert(in_room_by_id(room.queue@, trow[j as int].id));
                        }
                    }
                    proof {
                        assert(trow[j as int] == teams@[i as int]@[j as int]@);
                    }
                    j += 1;
                }
                if found {
                    alive += 1;
                    wi = i;
                    proof {
                        assert(team_alive(room.queue@, tv[i as int]));
                    }
                } else {
                    proof {
                        assert(!team_alive(room.queue@, tv[i as int]));
                    }
                }
                i += 1;
            }
            proof {
                assert(tv.take(tn as int) == tv);
            }
        },
        _ => {},
    }
    (alive, wi)
}

/// How many game players are still present, and the id of one.
fn count_alive_players(room: &BonkRoom) -> (r: (usize, i32))
    requires
        room.wf(),
        room.game_players@ matches GamePlayersV::FFA { in_game: _ },
    ensures
        ({
            let ps = room.game_players@->FFA_in_game;
            &&& r.0 == alive_player_count(room.queue@, ps)
            &&& r.0 >= 1 ==> exists|w: int|
                0 <= w < ps.len() && in_room_by_id(room.queue@, (#[trigger] ps[w]).id)
                    && ps[w].id == r.1
        }),
{
    let ghost fv = room.game_players@->FFA_in_game;
    let mut alive: usize = 0;
    let mut wid: i32 = 0;
    match &room.game_players {
        GamePlayers::FFA { in_game } => {
            let m = in_game.len();
            let mut j: usize = 0;
            proof {
                assert(fv.take(0) =~= Seq::<PlayerV>::empty());
            }
            while j < m
                invariant
                    j <= m,
                    m == in_game@.len(),
                    fv == room.game_players@->FFA_in_game,
                    fv == in_game@.map_values(|p: Player| p@),
                    fv.len() == m,
                    alive <= j,
                    alive == alive_player_count(room.queue@, fv.take(j as int)),
                    alive >= 1 ==> exists|w: int|
                        0 <= w < fv.len() && in_room_by_id(
                            room.queue@,
                            (#[trigger] fv[w]).id,
                        ) && fv[w].id == wid,
                decreases m - j,
            {
                proof {
                    assert(fv.take(j + 1).drop_last() =~= fv.take(j as int));
                    assert(fv.take(j + 1).last() == fv[j as int]);
                    assert(fv[j as int] == in_game@[j as int]@);
                }
                if queue_in_room(room, in_game[j].id) {
                    alive += 1;
                    wid = in_game[j].id;
                    proof {
                        assert(in_room_by_id(room.queue@, fv[j as int].id));
                    }
                }
                j += 1;
            }
            proof {
                assert(fv.take(m as int) == fv);
            }
        },
        _ => {},
    }
    (alive, wid)
}

/// Placement rows ordered by descending score.
pub open spec fn sorted_desc<T>(s: Seq<(i64, T)>) -> bool {
    forall|a: int, b: int| 0 <= a < b < s.len() ==> (#[trigger] s[a]).0 >= (#[trigger] s[b]).0
}

/// Order placement rows by descending score; the rows themselves are
/// kept, only rearranged.
pub fn sort_placements_desc<T>(v: Vec<(i64, T)>) -> (r: Vec<(i64, T)>)
    ensures
        sorted_desc(r@),
        r@.to_multiset() == v@.to_multiset(),
        r@.len() == v@.len(),
{
    broadcast use vstd::seq_lib::group_to_multiset_ensures;

    let ghost orig = v@;
    let mut inp = v;
    let mut out: Vec<(i64, T)> = Vec::new();
    proof {
        assert(out@.to_multiset().add(inp@.to_multiset()) =~= orig.to_multiset());
    }
    while inp.len() > 0
        invariant
            sorted_desc(out@),
            out@.to_multiset().add(inp@.to_multiset()) == orig.to_multiset(),
            out@.len() + inp@.len() == orig.len(),
            forall|a: int, b: int|
                0 <= a < out@.len() && 0 <= b < inp@.len() ==> (#[trigger] out@[a]).0
                    >= (#[trigger] inp@[b]).0,
        decreases inp@.len(),
    {
        let n = inp.len();
        let mut mi: usize = 0;
        let mut x: usize = 1;
        while x < n
            invariant
                mi < x <= n,
                n == inp@.len(),
                forall|y: int| 0 <= y < x ==> inp@[mi as int].0 >= (#[trigger] inp@[y]).0,
            decreases n - x,
        {
            if inp[x].0 > inp[mi].0 {
                mi = x;
            }
            x += 1;
        }
        let ghost inp0 = inp@;
        let ghost out0 = out@;
        let e = inp.remove(mi);
        out.push(e);
        proof {
            inp0.to_multiset_ensures();
            out0.to_multiset_ensures();
            assert(inp@ == inp0.remove(mi as int));
            assert(out@ == out0.push(e));
            assert(inp0.remove(mi as int).to_multiset() =~= inp0.to_multiset().remove(
                inp0[mi as int],
            ));
            assert(out0.push(e).to_multiset() =~= out0.to_multiset().insert(e));
            assert(inp@.to_multiset() =~= inp0.to_multiset().remove(inp0[mi as int]));
            assert(out@.to_multiset() =~= out0.to_multiset().insert(inp0[mi as int]));
            assert(inp0.to_multiset().contains(inp0[mi as int]));
            assert(out@.to_multiset().add(inp@.to_multiset()) =~= out0.to_multiset().add(
                inp0.to_multiset(),
            ));
            assert forall|b: int| 0 <= b < inp@.len() implies e.0 >= (#[trigger] inp@[b]).0 by {
                if b < mi as int {
                    assert(inp@[b] == inp0[b]);
                } else {
                    assert(inp@[b] == inp0[b + 1]);
                }
            }
        }
    }
    proof {
        assert(inp@.to_multiset() =~= Multiset::<(i64, T)>::empty());
        assert(out@.to_multiset() =~= orig.to_multiset());
        assert(out@.len() == orig.len());
    }
    out
}

/// The tie flags between adjacent placements: all tied on a declared
/// tie, otherwise tied exactly where the scores are equal.
pub fn build_ties<T>(pl: &Vec<(i64, T)>, tie: bool) -> (r: Vec<bool>)
    requires
        pl@.len() >= 1,
    ensures
        r@.len() == pl@.len() - 1,
        forall|i: int|
            0 <= i < r@.len() ==> (#[trigger] r@[i]) == (tie || pl@[i].0 == pl@[i + 1].0),
{
    let mut r: Vec<bool> = Vec::new();
    let n = pl.len();
    let mut i: usize = 0;
    while i + 1 < n
        invariant
            i + 1 <= n,
            n == pl@.len(),
            r@.len() == i,
            forall|j: int|
                0 <= j < i ==> (#[trigger] r@[j]) == (tie || pl@[j].0 == pl@[j + 1].0),
        decreases n - i,
    {
        if tie {
            r.push(true);
        } else {
            r.push(pl[i].0 == pl[i + 1].0);
        }
        i += 1;
    }
    r
}

/// The queue after rotating each listed id's first spot to the back,
/// in order: earlier-listed participants end up in front of later
/// ones, and everyone else keeps their relative order.
pub open spec fn rotate_ids(q: Seq<QueueEntry>, ids: Seq<i32>) -> Seq<QueueEntry>
    decreases ids.len(),
{
    if ids.len() == 0 {
        q
    } else {
        rotate_ids(rotate_one(q, ids.first()), ids.drop_first())
    }
}

proof fn lemma_rotate_ids_push(q: Seq<QueueEntry>, ids: Seq<i32>, x: i32)
    ensures
        rotate_ids(q, ids.push(x)) == rotate_one(rotate_ids(q, ids), x),
    decreases ids.len(),
{
    if ids.len() == 0 {
        assert(ids.push(x).first() == x);
        assert(ids.push(x).drop_first() =~= Seq::<i32>::empty());
        assert(rotate_ids(q, ids.push(x)) == rotate_ids(
            rotate_one(q, x),
            Seq::<i32>::empty(),
        ));
        assert(rotate_ids(q, ids) == q);
    } else {
        assert(ids.push(x).first() == ids.first());
        assert(ids.push(x).drop_first() =~= ids.drop_first().push(x));
        lemma_rotate_ids_push(rotate_one(q, ids.first()), ids.drop_first(), x);
        assert(rotate_ids(q, ids.push(x)) == rotate_ids(
            rotate_one(q, ids.first()),
            ids.drop_first().push(x),
        ));
        assert(rotate_ids(q, ids) == rotate_ids(rotate_one(q, ids.first()), ids.drop_first()));
    }
}

/// The host ids of a list of players.
pub open spec fn ids_of_players(ps: Seq<Player>) -> Seq<i32> {
    ps.map_values(|p: Player| p.id)
}

/// The captains' ids, one per non-empty team, in team order.
pub open spec fn captain_ids(teams: Seq<Seq<PlayerV>>) -> Seq<i32> {
    teams.filter(|t: Seq<PlayerV>| t.len() > 0).map_values(|t: Seq<PlayerV>| t[0].id)
}

/// The non-captains' ids, row by row.
pub open spec fn other_ids(teams: Seq<Seq<PlayerV>>) -> Seq<i32> {
    teams.map_values(
        |t: Seq<PlayerV>| if t.len() == 0 {
            Seq::<i32>::empty()
        } else {
            t.skip(1).map_values(|p: PlayerV| p.id)
        },
    ).flatten()
}

/// The ids of a free-for-all roster.
pub open spec fn ffa_ids(ps: Seq<PlayerV>) -> Seq<i32> {
    ps.map_values(|p: PlayerV| p.id)
}

/// Two sequences with one multiset map to sequences with one multiset.
proof fn lemma_map_values_multiset<A, B>(s1: Seq<A>, s2: Seq<A>, f: spec_fn(A) -> B)
    requires
        s1.to_multiset() == s2.to_multiset(),
    ensures
        s1.map_values(f).to_multiset() == s2.map_values(f).to_multiset(),
    decreases s1.len(),
{
    broadcast use vstd::seq_lib::group_to_multiset_ensures;

    if s1.len() == 0 {
        assert(s1.to_multiset().len() == 0);
        assert(s2.to_multiset().len() == 0);
        assert(s2.len() == 0);
        assert(s1.map_values(f) =~= s2.map_values(f));
    } else {
        let x = s1.last();
        assert(s1.to_multiset().contains(x));
        assert(s2.to_multiset().contains(x));
        assert(s2.contains(x));
        let w = choose|w: int| 0 <= w < s2.len() && s2[w] == x;
        let s1p = s1.drop_last();
        let s2p = s2.remove(w);
        assert(s1 =~= s1p.push(x));
        assert(s1p.push(x).to_multiset() =~= s1p.to_multiset().insert(x));
        assert(s2p.to_multiset() =~= s2.to_multiset().remove(x));
        assert(s1p.to_multiset() =~= s2p.to_multiset()) by {
            assert(s1p.to_multiset() =~= s1.to_multiset().remove(x));
        }
        lemma_map_values_multiset(s1p, s2p, f);
        assert(s1.map_values(f) =~= s1p.map_values(f).push(f(x)));
        assert(s2p.map_values(f) =~= s2.map_values(f).remove(w));
        assert(s2.map_values(f).remove(w).to_multiset() =~= s2.map_values(f).to_multiset()
            .remove(f(x))) by {
            assert(s2.map_values(f)[w] == f(x));
        }
        assert(s1.map_values(f).to_multiset() =~= s1p.map_values(f).to_multiset().insert(
            f(x),
        ));
        assert(s2.map_values(f).to_multiset().contains(f(x))) by {
            assert(s2.map_values(f)[w] == f(x));
        }
        assert(s1.map_values(f).to_multiset() =~= s2.map_values(f).to_multiset());
    }
}

/// A team slot's effective score: the winner slot is overridden to
/// the round count; slots past the score list rank lowest.
pub open spec fn eff_team_score(sc: Seq<i64>, winner: Option<i64>, rounds: i64, t: int) -> i64 {
    match winner {
        Some(w) => if w == t {
            rounds
        } else if 0 <= t < sc.len() {
            sc[t]
        } else {
            i64::MIN
        },
        None => if 0 <= t < sc.len() {
            sc[t]
        } else {
            i64::MIN
        },
    }
}

/// The score listed for this player id, first match; missing players
/// score zero.
pub open spec fn score_lookup(s: Seq<(i32, i64)>, id: i32) -> i64
    decreases s.len(),
{
    if s.len() == 0 {
        0
    } else if s[0].0 == id {
        s[0].1
    } else {
        score_lookup(s.drop_first(), id)
    }
}

/// A player's effective score: the declared winner is overridden to
/// the round count, everyone else keeps their listed score.
pub open spec fn eff_player_score(
    s: Seq<(i32, i64)>,
    winner: Option<i64>,
    rounds: i64,
    p: PlayerV,
) -> i64 {
    match winner {
        Some(w) => if w == p.id as i64 {
            rounds
        } else {
            score_lookup(s, p.id)
        },
        None => score_lookup(s, p.id),
    }
}

proof fn lemma_score_lookup_at(s: Seq<(i32, i64)>, id: i32, i: int)
    requires
        0 <= i <= s.len(),
        forall|j: int| 0 <= j < i ==> s[j].0 != id,
        i < s.len() ==> s[i].0 == id,
    ensures
        score_lookup(s, id) == if i < s.len() {
            s[i].1
        } else {
            0
        },
    decreases s.len(),
{
    if s.len() > 0 && i > 0 {
        assert forall|j: int| 0 <= j < i - 1 implies s.drop_first()[j].0 != id by {
            assert(s.drop_first()[j] == s[j + 1]);
        }
        lemma_score_lookup_at(s.drop_first(), id, i - 1);
        assert(i - 1 < s.drop_first().len() ==> s.drop_first()[i - 1] == s[i]);
    }
}

/// The winner a pair of per-player scores determines: the higher
/// scorer's id, or 0 for a draw; nothing without two scores.
pub open spec fn winner_from_pairs(s: Seq<(i32, i64)>) -> Option<i64> {
    if s.len() < 2 {
        None
    } else if s[0].1 > s[1].1 {
        Some(s[0].0 as i64)
    } else if s[1].1 > s[0].1 {
        Some(s[1].0 as i64)
    } else {
        Some(0int as i64)
    }
}

/// True when some action sends this two-team rating update.
pub open spec fn has_pair_update(
    acts: Seq<Action>,
    first: Seq<char>,
    second: Seq<char>,
    tied: bool,
) -> bool {
    exists|i: int| 0 <= i < acts.len() && is_pair_update(#[trigger] acts[i], first, second, tied)
}

/// A game ended: the participants are pushed to the back of the queue
/// (opponent before captain; team members shuffled within their
/// group), the placements are ranked by the scores the driver read,
/// the attached leaderboard is asked to rate them, and the room
/// resets.
pub fn on_game_end(
    room: &mut BonkRoom,
    winner: Option<i64>,
    tie: bool,
    scores: &GameScores,
) -> (acts: Vec<Action>)
    requires
        old(room).wf(),
    ensures
        final(room).wf(),
        valid_step(old(room).state, final(room).state),
        final(room).queue@.len() == old(room).queue@.len(),
        crate::bonk_room::names_seq(final(room).queue@).to_multiset()
            == crate::bonk_room::names_seq(old(room).queue@).to_multiset(),
        old(room).game_players@ matches GamePlayersV::Teams { teams: teams0, picker_idx: _ }
            ==> {
            &&& final(room).state == RoomState::Idle || old(room).closing
            // participants move behind everyone else: first the team
            // members, then the captains, each group in some shuffled
            // order; everyone else keeps their relative order
            &&& exists|oo: Seq<i32>, co: Seq<i32>|
                #![trigger rotate_ids(rotate_ids(old(room).queue@, oo), co)]
                oo.to_multiset() == other_ids(teams0).to_multiset() && co.to_multiset()
                    == captain_ids(teams0).to_multiset() && crate::bonk_room::names_seq(
                    final(room).queue@,
                ) == crate::bonk_room::names_seq(rotate_ids(
                    rotate_ids(old(room).queue@, oo),
                    co,
                ))
            &&& match scores {
                GameScores::ByTeam(s) => (old(room).has_leaderboard && teams0.len() >= 1)
                    ==> exists|i: int|
                    0 <= i < acts@.len() && is_team_update(
                        #[trigger] acts@[i],
                        teams0,
                        s@,
                        winner,
                        old(room).room_parameters.rounds,
                        tie,
                    ),
                _ => true,
            }
        },
        old(room).game_players@ matches GamePlayersV::FFA { in_game: players0 } ==> {
            &&& final(room).state == RoomState::Idle || old(room).closing
            &&& exists|po: Seq<i32>|
                #![trigger rotate_ids(old(room).queue@, po)]
                po.to_multiset() == ffa_ids(players0).to_multiset()
                    && crate::bonk_room::names_seq(final(room).queue@)
                    == crate::bonk_room::names_seq(rotate_ids(old(room).queue@, po))
            &&& match scores {
                GameScores::ByPlayer(s) => (old(room).has_leaderboard && players0.len() >= 1)
                    ==> exists|i: int|
                    0 <= i < acts@.len() && is_ffa_update(
                        #[trigger] acts@[i],
                        players0,
                        s@,
                        winner,
                        old(room).room_parameters.rounds,
                        tie,
                    ),
                _ => true,
            }
        },
        old(room).game_players@ matches GamePlayersV::Singles { picker, picked } ==> match (
            picker,
            picked,
        ) {
            (Some(pk), Some(pd)) => {
                let fb = old(room).room_parameters.mode == Mode::Football;
                let flip = old(room).team_flip;
                &&& final(room).state == RoomState::Idle || old(room).closing
                &&& crate::bonk_room::names_seq(final(room).queue@)
                    == crate::bonk_room::names_seq(rotate_one(
                    rotate_one(old(room).queue@, pd.id),
                    pk.id,
                ))
                &&& old(room).has_leaderboard ==> {
                    &&& tie ==> has_pair_update(acts@, pk.name, pd.name, true)
                    &&& (!tie && fb) ==> {
                        let wopt = match winner {
                            Some(w) => Some(w),
                            None => match scores {
                                GameScores::WinnerSlot(w) => Some(*w),
                                _ => None::<i64>,
                            },
                        };
                        wopt matches Some(w) ==> {
                            let pw = football_other_team(flip) as i64;
                            if w == pw {
                                has_pair_update(acts@, pd.name, pk.name, w == 0)
                            } else {
                                has_pair_update(acts@, pk.name, pd.name, w == 0)
                            }
                        }
                    }
                    &&& (!tie && !fb) ==> {
                        let wopt = match winner {
                            Some(w) => Some(w),
                            None => match scores {
                                GameScores::ByPlayer(s) => winner_from_pairs(s@),
                                _ => None::<i64>,
                            },
                        };
                        wopt matches Some(w) ==> {
                            if w == pk.id as i64 || w == 0 {
                                has_pair_update(acts@, pk.name, pd.name, w == 0)
                            } else {
                                has_pair_update(acts@, pd.name, pk.name, w == 0)
                            }
                        }
                    }
                }
            },
            _ => *final(room) == *old(room) && acts@.len() == 0,
        },
{
    let mut acts: Vec<Action> = Vec::new();
    let kind: usize = match &room.game_players {
        GamePlayers::Singles { picker: _, picked: _ } => 0,
        GamePlayers::Teams { teams: _, picker_idx: _ } => 1,
        GamePlayers::FFA { in_game: _ } => 2,
    };
    if kind == 0 {
        let (pk, pd): (Player, Player) = match &room.game_players {
            GamePlayers::Singles { picker: Some(a), picked: Some(b) } => (
                a.duplicate(),
                b.duplicate(),
            ),
            _ => {
                return acts;
            },
        };
        proof {
            lemma_first_with_id(room.queue@, pd.id);
        }
        room.rotate_queue_to_back(pd.id);
        proof {
            assert(room.queue@ == rotate_one(old(room).queue@, pd.id));
            lemma_first_with_id(room.queue@, pk.id);
        }
        room.rotate_queue_to_back(pk.id);
        proof {
            assert(room.queue@ == rotate_one(rotate_one(old(room).queue@, pd.id), pk.id));
        }
        let ghost qrot = room.queue@;
        if room.has_leaderboard {
            let fb = room.room_parameters.mode == Mode::Football;
            let flip = room.team_flip;
            if tie {
                push_pair_update(&mut acts, &pk.name, &pd.name, true);
            } else if fb {
                let wopt: Option<i64> = match winner {
                    Some(w) => Some(w),
                    None => match scores {
                        GameScores::WinnerSlot(w) => Some(*w),
                        _ => None,
                    },
                };
                if let Some(w) = wopt {
                    let pw: i64 = if flip {
                        3
                    } else {
                        2
                    };
                    if w == pw {
                        push_pair_update(&mut acts, &pd.name, &pk.name, w == 0);
                    } else {
                        push_pair_update(&mut acts, &pk.name, &pd.name, w == 0);
                    }
                }
            } else {
                let wopt: Option<i64> = match winner {
                    Some(w) => Some(w),
                    None => match scores {
                        GameScores::ByPlayer(s) => {
                            if s.len() < 2 {
                                None
                            } else if s[0].1 > s[1].1 {
                                Some(s[0].0 as i64)
                            } else if s[1].1 > s[0].1 {
                                Some(s[1].0 as i64)
                            } else {
                                Some(0)
                            }
                        },
                        _ => None,
                    },
                };
                if let Some(w) = wopt {
                    if w == pk.id as i64 || w == 0 {
                        push_pair_update(&mut acts, &pk.name, &pd.name, w == 0);
                    } else {
                        push_pair_update(&mut acts, &pd.name, &pk.name, w == 0);
                    }
                }
            }
        }
        let ghost asofar = acts@;
        let mut more = reset(room);
        acts.append(&mut more);
        proof {
            assert forall|i: int| 0 <= i < asofar.len() implies acts@[i] == asofar[i] by {}
            assert(crate::bonk_room::names_seq(room.queue@) == crate::bonk_room::names_seq(
                qrot,
            ));
        }
        return acts;
    }
    if kind == 1 {
        let ghost teams0 = room.game_players@->Teams_teams;
        let ghost q0 = room.queue@;
        let (mut captains, mut others): (Vec<Player>, Vec<Player>) = split_teams(room);
        let ghost others0 = others@;
        let ghost captains0 = captains@;
        crate::random::shuffle_players(&mut others);
        crate::random::shuffle_players(&mut captains);
        proof {
            lemma_map_values_multiset(others@, others0, |p: Player| p.id);
            lemma_map_values_multiset(captains@, captains0, |p: Player| p.id);
        }
        rotate_all(room, &others);
        rotate_all(room, &captains);
        let ghost oo_w = ids_of_players(others@);
        let ghost co_w = ids_of_players(captains@);
        proof {
            assert(room.queue@ == rotate_ids(rotate_ids(q0, oo_w), co_w));
            assert(oo_w.to_multiset() == other_ids(teams0).to_multiset());
            assert(co_w.to_multiset() == captain_ids(teams0).to_multiset());
        }
        if room.has_leaderboard {
            match scores {
                GameScores::ByTeam(s) => {
                    let tn2: usize = match &room.game_players {
                        GamePlayers::Teams { teams, picker_idx: _ } => teams.len(),
                        _ => 0,
                    };
                    proof {
                        assert(tn2 as int == teams0.len());
                    }
                    if tn2 > 0 {
                        // rank the team slots by effective score
                        let mut rows: Vec<(i64, usize)> = Vec::new();
                        let mut t: usize = 0;
                        proof {
                            assert(tn2 <= 4);
                        }
                        while t < tn2
                            invariant
                                t <= tn2,
                                tn2 <= 4,
                                rows@.len() == t,
                                forall|x: int|
                                    0 <= x < t ==> (#[trigger] rows@[x]) == (eff_team_score(
                                        s@,
                                        winner,
                                        room.room_parameters.rounds,
                                        x,
                                    ), x as usize),
                                *room == (BonkRoom { queue: room.queue, ..*old(room) }),
                            decreases tn2 - t,
                        {
                            let sc_t: i64 = match winner {
                                Some(w) if w == t as i64 => room.room_parameters.rounds,
                                _ => {
                                    if t < s.len() {
                                        s[t]
                                    } else {
                                        i64::MIN
                                    }
                                },
                            };
                            rows.push((sc_t, t));
                            proof {
                                assert(sc_t == eff_team_score(
                                    s@,
                                    winner,
                                    room.room_parameters.rounds,
                                    t as int,
                                ));
                                assert(rows@[t as int] == (sc_t, t));
                            }
                            t += 1;
                        }
                        let ghost rows0 = rows@;
                        let sorted = sort_placements_desc(rows);
                        proof {
                            broadcast use vstd::seq_lib::group_to_multiset_ensures;

                            assert(rows0.no_duplicates()) by {
                                assert forall|x: int, y: int|
                                    0 <= x < y < rows0.len() implies rows0[x]
                                    != rows0[y] by {
                                    assert(rows0[x].1 == x as usize && rows0[y].1
                                        == y as usize);
                                }
                            }
                            rows0.lemma_multiset_has_no_duplicates();
                            assert forall|x: (i64, usize)| #[trigger] sorted@.to_multiset()
                                .contains(x) implies sorted@.to_multiset().count(x)
                                == 1 by {}
                            sorted@.lemma_multiset_has_no_duplicates_conv();
                            assert forall|y: int|
                                0 <= y < sorted@.len() implies (#[trigger] sorted@[y])
                                == (eff_team_score(
                                s@,
                                winner,
                                old(room).room_parameters.rounds,
                                sorted@[y].1 as int,
                            ), sorted@[y].1) && sorted@[y].1 < tn2 by {
                                assert(sorted@.to_multiset().contains(sorted@[y]));
                                assert(rows0.to_multiset().contains(sorted@[y]));
                                assert(rows0.contains(sorted@[y]));
                                let w = choose|w: int|
                                    0 <= w < rows0.len() && rows0[w] == sorted@[y];
                            }
                        }
                        let ties_v = build_ties(&sorted, tie);
                        // team name lists in ranked order
                        let m3 = sorted.len();
                        let mut teams_strings: Vec<Vec<String>> = Vec::new();
                        let ghost mut ordg: Seq<int> = Seq::empty();
                        let mut x: usize = 0;
                        while x < m3
                            invariant
                                x <= m3,
                                m3 == sorted@.len(),
                                m3 == tn2,
                                tn2 as int == teams0.len(),
                                sorted@.no_duplicates(),
                                crate::events::sorted_desc(sorted@),
                                forall|y: int|
                                    0 <= y < m3 ==> (#[trigger] sorted@[y])
                                        == (eff_team_score(
                                        s@,
                                        winner,
                                        old(room).room_parameters.rounds,
                                        sorted@[y].1 as int,
                                    ), sorted@[y].1) && sorted@[y].1 < tn2,
                                teams0 == room.game_players@->Teams_teams,
                                room.game_players@ matches GamePlayersV::Teams {
                                    teams: _,
                                    picker_idx: _,
                                },
                                *room == (BonkRoom { queue: room.queue, ..*old(room) }),
                                ordg.len() == x as int,
                                teams_strings@.len() == x,
                                forall|z: int|
                                    0 <= z < x ==> (#[trigger] ordg[z]) == sorted@[z].1 as int,
                                forall|k: int|
                                    0 <= k < x ==> name_views((#[trigger] teams_strings@[
                                    k])@) == team_names(teams0[ordg[k]]),
                            decreases m3 - x,
                        {
                            let ti = sorted[x].1;
                            let mut names: Vec<String> = Vec::new();
                            match &room.game_players {
                                GamePlayers::Teams { teams, picker_idx: _ } => {
                                    let mrow = teams[ti].len();
                                    let mut y: usize = 0;
                                    while y < mrow
                                        invariant
                                            y <= mrow,
                                            ti < teams@.len(),
                                            mrow == teams@[ti as int]@.len(),
                                            teams0 == teams@.map_values(
                                                |tt: Vec<Player>| tt@.map_values(
                                                    |p: Player| p@,
                                                ),
                                            ),
                                            name_views(names@) == team_names(
                                                teams0[ti as int],
                                            ).take(y as int),
                                        decreases mrow - y,
                                    {
                                        let ghost nprev = names@;
                                        names.push(teams[ti][y].name.clone());
                                        proof {
                                            assert(teams0[ti as int][y as int]
                                                == teams@[ti as int]@[y as int]@);
                                            assert(name_views(names@) =~= name_views(
                                                nprev,
                                            ).push(teams0[ti as int][y as int].name));
                                            assert(team_names(teams0[ti as int]).take(y + 1)
                                                =~= team_names(teams0[ti as int]).take(
                                                y as int,
                                            ).push(teams0[ti as int][y as int].name));
                                        }
                                        y += 1;
                                    }
                                    proof {
                                        assert(team_names(teams0[ti as int]).take(
                                            mrow as int,
                                        ) =~= team_names(teams0[ti as int]));
                                    }
                                },
                                _ => {},
                            }
                            teams_strings.push(names);
                            proof {
                                ordg = ordg.push(ti as int);
                                assert(teams_strings@[x as int] == teams_strings@.last());
                                assert(name_views(teams_strings@[x as int]@) == team_names(
                                    teams0[ti as int],
                                ));
                                assert(ordg[x as int] == ti as int);
                            }
                            x += 1;
                        }
                        acts.push(
                            Action::RatingUpdate { teams: teams_strings, ties: ties_v },
                        );
                        proof {
                            let a = acts@[acts@.len() - 1];
                            assert(is_team_update(
                                a,
                                teams0,
                                s@,
                                winner,
                                old(room).room_parameters.rounds,
                                tie,
                            )) by {
                                assert(ordg.len() == teams0.len());
                                assert forall|p2: int, y2: int|
                                    0 <= p2 < y2 < ordg.len() implies #[trigger] ordg[p2]
                                    != #[trigger] ordg[y2] by {
                                    assert(sorted@[p2] != sorted@[y2]);
                                    assert(sorted@[p2].1 == ordg[p2] as usize);
                                    assert(sorted@[y2].1 == ordg[y2] as usize);
                                    assert(sorted@[p2].0 == eff_team_score(
                                        s@,
                                        winner,
                                        old(room).room_parameters.rounds,
                                        ordg[p2],
                                    ));
                                    assert(sorted@[y2].0 == eff_team_score(
                                        s@,
                                        winner,
                                        old(room).room_parameters.rounds,
                                        ordg[y2],
                                    ));
                                }
                            }
                        }
                    }
                },
                _ => {},
            }
        }
        let ghost asofar2 = acts@;
        let ghost qpre_reset = room.queue@;
        let mut more = reset(room);
        acts.append(&mut more);
        proof {
            assert forall|i: int| 0 <= i < asofar2.len() implies acts@[i] == asofar2[i] by {}
            assert(crate::bonk_room::names_seq(room.queue@) == crate::bonk_room::names_seq(
                qpre_reset,
            ));
            assert(q0 == old(room).queue@);
            assert forall|i0: int|
                0 <= i0 < asofar2.len() && is_team_update(
                    #[trigger] asofar2[i0],
                    teams0,
                    match scores {
                        GameScores::ByTeam(s) => s@,
                        _ => Seq::empty(),
                    },
                    winner,
                    old(room).room_parameters.rounds,
                    tie,
                ) implies is_team_update(
                acts@[i0],
                teams0,
                match scores {
                    GameScores::ByTeam(s) => s@,
                    _ => Seq::empty(),
                },
                winner,
                old(room).room_parameters.rounds,
                tie,
            ) by {}
        }
        return acts;
    }
    // free-for-all
    let ghost players0 = room.game_players@->FFA_in_game;
    let ghost q0f = room.queue@;
    let mut in_game_copy: Vec<Player> = match &room.game_players {
        GamePlayers::FFA { in_game } => {
            let mut v: Vec<Player> = Vec::new();
            let m = in_game.len();
            let mut j: usize = 0;
            while j < m
                invariant
                    j <= m,
                    m == in_game@.len(),
                    players0 == in_game@.map_values(|p: Player| p@),
                    v@.len() == j,
                    ids_of_players(v@) == ffa_ids(players0).take(j as int),
                decreases m - j,
            {
                let ghost vprev = v@;
                v.push(in_game[j].duplicate());
                proof {
                    assert(players0[j as int] == in_game@[j as int]@);
                    assert(ids_of_players(v@) =~= ids_of_players(vprev).push(
                        players0[j as int].id,
                    ));
                    assert(ffa_ids(players0).take(j + 1) =~= ffa_ids(players0).take(
                        j as int,
                    ).push(players0[j as int].id));
                }
                j += 1;
            }
            proof {
                assert(ffa_ids(players0).take(m as int) == ffa_ids(players0));
            }
            v
        },
        _ => Vec::new(),
    };
    let ghost copy0 = in_game_copy@;
    crate::random::shuffle_players(&mut in_game_copy);
    proof {
        lemma_map_values_multiset(in_game_copy@, copy0, |p: Player| p.id);
    }
    rotate_all(room, &in_game_copy);
    let ghost po_w = ids_of_players(in_game_copy@);
    proof {
        assert(room.queue@ == rotate_ids(q0f, po_w));
        assert(po_w.to_multiset() == ffa_ids(players0).to_multiset());
    }
    if room.has_leaderboard {
        match scores {
            GameScores::ByPlayer(s) => {
                let fn2: usize = match &room.game_players {
                    GamePlayers::FFA { in_game } => in_game.len(),
                    _ => 0,
                };
                proof {
                    assert(fn2 as int == players0.len());
                }
                if fn2 > 0 {
                    let mut rows: Vec<(i64, usize)> = Vec::new();
                    match &room.game_players {
                        GamePlayers::FFA { in_game } => {
                            let mut t: usize = 0;
                            while t < fn2
                                invariant
                                    t <= fn2,
                                    fn2 == in_game@.len(),
                                    players0 == in_game@.map_values(|p: Player| p@),
                                    rows@.len() == t,
                                    forall|x: int|
                                        0 <= x < t ==> (#[trigger] rows@[x])
                                            == (eff_player_score(
                                            s@,
                                            winner,
                                            old(room).room_parameters.rounds,
                                            players0[x],
                                        ), x as usize),
                                    *room == (BonkRoom { queue: room.queue, ..*old(room) }),
                                decreases fn2 - t,
                            {
                                let pid = in_game[t].id;
                                proof {
                                    assert(players0[t as int] == in_game@[t as int]@);
                                }
                                let base = lookup_score(s, pid);
                                let sc_t: i64 = match winner {
                                    Some(w) if w == pid as i64 => room
                                        .room_parameters
                                        .rounds,
                                    _ => base,
                                };
                                rows.push((sc_t, t));
                                t += 1;
                            }
                        },
                        _ => {},
                    }
                    let ghost rows0 = rows@;
                    let sorted = sort_placements_desc(rows);
                    proof {
                        broadcast use vstd::seq_lib::group_to_multiset_ensures;

                        assert(rows0.no_duplicates()) by {
                            assert forall|x: int, y: int|
                                0 <= x < y < rows0.len() implies rows0[x] != rows0[y] by {
                                assert(rows0[x].1 == x as usize && rows0[y].1 == y as usize);
                            }
                        }
                        rows0.lemma_multiset_has_no_duplicates();
                        assert forall|x: (i64, usize)| #[trigger] sorted@.to_multiset()
                            .contains(x) implies sorted@.to_multiset().count(x) == 1 by {}
                        sorted@.lemma_multiset_has_no_duplicates_conv();
                        assert forall|y: int|
                            0 <= y < sorted@.len() implies (#[trigger] sorted@[y])
                            == (eff_player_score(
                            s@,
                            winner,
                            old(room).room_parameters.rounds,
                            players0[sorted@[y].1 as int],
                        ), sorted@[y].1) && sorted@[y].1 < fn2 by {
                            assert(sorted@.to_multiset().contains(sorted@[y]));
                            assert(rows0.to_multiset().contains(sorted@[y]));
                            assert(rows0.contains(sorted@[y]));
                            let w = choose|w: int|
                                0 <= w < rows0.len() && rows0[w] == sorted@[y];
                        }
                    }
                    let ties_v = build_ties(&sorted, tie);
                    let m3 = sorted.len();
                    let mut teams_strings: Vec<Vec<String>> = Vec::new();
                    let ghost mut ordg: Seq<int> = Seq::empty();
                    let mut x: usize = 0;
                    while x < m3
                        invariant
                            x <= m3,
                            m3 == sorted@.len(),
                            m3 == fn2,
                            fn2 as int == players0.len(),
                            sorted@.no_duplicates(),
                            crate::events::sorted_desc(sorted@),
                            forall|y: int|
                                0 <= y < m3 ==> (#[trigger] sorted@[y]) == (eff_player_score(
                                    s@,
                                    winner,
                                    old(room).room_parameters.rounds,
                                    players0[sorted@[y].1 as int],
                                ), sorted@[y].1) && sorted@[y].1 < fn2,
                            players0 == room.game_players@->FFA_in_game,
                            room.game_players@ matches GamePlayersV::FFA { in_game: _ },
                            *room == (BonkRoom { queue: room.queue, ..*old(room) }),
                            ordg.len() == x as int,
                            teams_strings@.len() == x,
                            forall|z: int|
                                0 <= z < x ==> (#[trigger] ordg[z]) == sorted@[z].1 as int,
                            forall|k: int|
                                0 <= k < x ==> name_views((#[trigger] teams_strings@[k])@)
                                    == seq![players0[ordg[k]].name],
                        decreases m3 - x,
                    {
                        let ti = sorted[x].1;
                        let mut names: Vec<String> = Vec::new();
                        match &room.game_players {
                            GamePlayers::FFA { in_game } => {
                                names.push(in_game[ti].name.clone());
                                proof {
                                    assert(players0[ti as int] == in_game@[ti as int]@);
                                    assert(name_views(names@) =~= seq![
                                        players0[ti as int].name,
                                    ]);
                                }
                            },
                            _ => {},
                        }
                        teams_strings.push(names);
                        proof {
                            ordg = ordg.push(ti as int);
                            assert(teams_strings@[x as int] == teams_strings@.last());
                            assert(name_views(teams_strings@[x as int]@) == seq![
                                players0[ti as int].name,
                            ]);
                            assert(ordg[x as int] == ti as int);
                        }
                        x += 1;
                    }
                    acts.push(Action::RatingUpdate { teams: teams_strings, ties: ties_v });
                    proof {
                        let a = acts@[acts@.len() - 1];
                        assert(is_ffa_update(
                            a,
                            players0,
                            s@,
                            winner,
                            old(room).room_parameters.rounds,
                            tie,
                        )) by {
                            assert(ordg.len() == players0.len());
                            assert forall|p2: int, y2: int|
                                0 <= p2 < y2 < ordg.len() implies #[trigger] ordg[p2]
                                != #[trigger] ordg[y2] by {
                                assert(sorted@[p2] != sorted@[y2]);
                                assert(sorted@[p2].1 == ordg[p2] as usize);
                                assert(sorted@[y2].1 == ordg[y2] as usize);
                                assert(sorted@[p2].0 == eff_player_score(
                                    s@,
                                    winner,
                                    old(room).room_parameters.rounds,
                                    players0[ordg[p2]],
                                ));
                                assert(sorted@[y2].0 == eff_player_score(
                                    s@,
                                    winner,
                                    old(room).room_parameters.rounds,
                                    players0[ordg[y2]],
                                ));
                            }
                        }
                    }
                }
            },
            _ => {},
        }
    }
    let ghost asofar3 = acts@;
    let ghost qpre_reset3 = room.queue@;
    let mut more = reset(room);
    acts.append(&mut more);
    proof {
        assert forall|i: int| 0 <= i < asofar3.len() implies acts@[i] == asofar3[i] by {}
        assert(crate::bonk_room::names_seq(room.queue@) == crate::bonk_room::names_seq(
            qpre_reset3,
        ));
        assert(q0f == old(room).queue@);
        assert forall|i0: int|
            0 <= i0 < asofar3.len() && is_ffa_update(
                #[trigger] asofar3[i0],
                players0,
                match scores {
                    GameScores::ByPlayer(s) => s@,
                    _ => Seq::empty(),
                },
                winner,
                old(room).room_parameters.rounds,
                tie,
            ) implies is_ffa_update(
            acts@[i0],
            players0,
            match scores {
                GameScores::ByPlayer(s) => s@,
                _ => Seq::empty(),
            },
            winner,
            old(room).room_parameters.rounds,
            tie,
        ) by {}
    }
    acts
}

/// Queue a two-team rating update./// Queue a two-team rating update.
fn push_pair_update(acts: &mut Vec<Action>, first: &String, second: &String, tied: bool)
    ensures
        final(acts)@ == old(acts)@.push(final(acts)@.last()),
        final(acts)@.len() == old(acts)@.len() + 1,
        is_pair_update(final(acts)@.last(), first@, second@, tied),
        has_pair_update(final(acts)@, first@, second@, tied),
{
    let mut t1: Vec<String> = Vec::new();
    t1.push(first.clone());
    let mut t2: Vec<String> = Vec::new();
    t2.push(second.clone());
    let mut teams: Vec<Vec<String>> = Vec::new();
    teams.push(t1);
    teams.push(t2);
    let mut ties: Vec<bool> = Vec::new();
    ties.push(tied);
    acts.push(Action::RatingUpdate { teams, ties });
    proof {
        assert(ties@ =~= seq![tied]);
        assert(is_pair_update(acts@.last(), first@, second@, tied));
        assert(has_pair_update(acts@, first@, second@, tied));
    }
}

/// One action carrying exactly this two-team rating update.
pub open spec fn is_pair_update(a: Action, first: Seq<char>, second: Seq<char>, tied: bool) -> bool {
    a matches Action::RatingUpdate { teams, ties } && teams@.len() == 2 && teams@[0]@.len()
        == 1 && teams@[0]@[0]@ == first && teams@[1]@.len() == 1 && teams@[1]@[0]@ == second
        && ties@ == seq![tied]
}

/// The captains and the other members of every team, as copies, in
/// row-major order.
fn split_teams(room: &BonkRoom) -> (r: (Vec<Player>, Vec<Player>))
    ensures
        room.game_players@ matches GamePlayersV::Teams { teams, picker_idx: _ }
            ==> ids_of_players(r.0@) == captain_ids(teams) && ids_of_players(r.1@)
            == other_ids(teams),
{
    let mut captains: Vec<Player> = Vec::new();
    let mut others: Vec<Player> = Vec::new();
    match &room.game_players {
        GamePlayers::Teams { teams, picker_idx: _ } => {
            let ghost tv = room.game_players@->Teams_teams;
            let ghost tails = tv.map_values(
                |t: Seq<PlayerV>| if t.len() == 0 {
                    Seq::<i32>::empty()
                } else {
                    t.skip(1).map_values(|p: PlayerV| p.id)
                },
            );
            let tn = teams.len();
            let mut i: usize = 0;
            proof {
                reveal(Seq::filter);
                assert(tv.take(0) =~= Seq::<Seq<PlayerV>>::empty());
                assert(ids_of_players(captains@) =~= captain_ids(tv.take(0)));
                assert(tails.take(0) =~= Seq::<Seq<i32>>::empty());
                assert(ids_of_players(others@) =~= tails.take(0).flatten_alt());
            }
            while i < tn
                invariant
                    i <= tn,
                    tn == teams@.len(),
                    tv == teams@.map_values(
                        |t: Vec<Player>| t@.map_values(|p: Player| p@),
                    ),
                    tv == room.game_players@->Teams_teams,
                    tails == tv.map_values(
                        |t: Seq<PlayerV>| if t.len() == 0 {
                            Seq::<i32>::empty()
                        } else {
                            t.skip(1).map_values(|p: PlayerV| p.id)
                        },
                    ),
                    tv.len() == tn,
                    ids_of_players(captains@) == captain_ids(tv.take(i as int)),
                    ids_of_players(others@) == tails.take(i as int).flatten_alt(),
                decreases tn - i,
            {
                let ghost t1 = tv.take(i + 1);
                let ghost t0 = tv.take(i as int);
                proof {
                    reveal(Seq::filter);
                    assert(t1.drop_last() =~= t0);
                    assert(t1.last() == tv[i as int]);
                    assert(tails.take(i + 1).drop_last() =~= tails.take(i as int));
                    assert(tails.take(i + 1).last() == tails[i as int]);
                }
                let team = &teams[i];
                let m = team.len();
                proof {
                    assert(tv[i as int] == teams@[i as int]@.map_values(|p: Player| p@));
                    assert(tv[i as int].len() == m);
                    if m == 0 {
                        assert(t1.filter(|t: Seq<PlayerV>| t.len() > 0) == t0.filter(
                            |t: Seq<PlayerV>| t.len() > 0,
                        ));
                        assert(tails[i as int] =~= Seq::<i32>::empty());
                        assert(ids_of_players(others@) =~= tails.take(i + 1).flatten_alt());
                    }
                }
                let mut j: usize = 0;
                while j < m
                    invariant
                        j <= m,
                        i < tn,
                        tn == teams@.len(),
                        m == teams@[i as int]@.len(),
                        team == teams@[i as int],
                        tv == teams@.map_values(
                            |t: Vec<Player>| t@.map_values(|p: Player| p@),
                        ),
                        tails == tv.map_values(
                            |t: Seq<PlayerV>| if t.len() == 0 {
                                Seq::<i32>::empty()
                            } else {
                                t.skip(1).map_values(|p: PlayerV| p.id)
                            },
                        ),
                        tv.len() == tn,
                        tv[i as int].len() == m,
                        j >= 1 ==> ids_of_players(captains@) == captain_ids(
                            tv.take(i as int),
                        ).push(tv[i as int][0].id),
                        j == 0 ==> ids_of_players(captains@) == captain_ids(tv.take(i as int)),
                        ids_of_players(others@) == tails.take(i as int).flatten_alt() + tails[
                            i as int
                        ].take(if j >= 1 {
                            j - 1
                        } else {
                            0
                        }),
                    decreases m - j,
                {
                    proof {
                        assert(tv[i as int][j as int] == teams@[i as int]@[j as int]@);
                    }
                    if j == 0 {
                        let ghost cprev = captains@;
                        captains.push(team[j].duplicate());
                        proof {
                            assert(ids_of_players(captains@) =~= ids_of_players(cprev).push(
                                tv[i as int][0].id,
                            ));
                            assert(ids_of_players(others@) =~= tails.take(
                                i as int,
                            ).flatten_alt() + tails[i as int].take(0));
                        }
                    } else {
                        let ghost oprev = others@;
                        others.push(team[j].duplicate());
                        proof {
                            assert(tails[i as int][j - 1] == tv[i as int].skip(1)[j - 1].id);
                            assert(tv[i as int].skip(1)[j - 1] == tv[i as int][j as int]);
                            assert(tails[i as int].take(j as int) =~= tails[i as int].take(
                                j - 1,
                            ).push(tails[i as int][j - 1]));
                            assert(ids_of_players(others@) =~= ids_of_players(oprev).push(
                                tv[i as int][j as int].id,
                            ));
                            assert(ids_of_players(others@) =~= tails.take(
                                i as int,
                            ).flatten_alt() + tails[i as int].take(j as int));
                        }
                    }
                    j += 1;
                }
                proof {
                    reveal(Seq::filter);
                    if m > 0 {
                        assert(t1.filter(|t: Seq<PlayerV>| t.len() > 0) == t0.filter(
                            |t: Seq<PlayerV>| t.len() > 0,
                        ).push(tv[i as int]));
                        assert(ids_of_players(captains@) =~= captain_ids(t1));
                        assert(tails[i as int].take(m - 1) =~= tails[i as int]);
                        assert(ids_of_players(others@) =~= tails.take(i + 1).flatten_alt());
                    } else {
                        assert(ids_of_players(captains@) =~= captain_ids(t1));
                    }
                }
                i += 1;
            }
            proof {
                assert(tv.take(tn as int) == tv);
                assert(tails.take(tn as int) == tails);
                tails.lemma_flatten_and_flatten_alt_are_equivalent();
            }
        },
        _ => {},
    }
    (captains, others)
}

/// Push each listed player's queue spot to the back, in order.
fn rotate_all(room: &mut BonkRoom, ps: &Vec<Player>)
    requires
        old(room).wf(),
    ensures
        final(room).wf(),
        final(room).queue@.len() == old(room).queue@.len(),
        crate::bonk_room::names_seq(final(room).queue@).to_multiset()
            == crate::bonk_room::names_seq(old(room).queue@).to_multiset(),
        crate::bonk_room::stamps_seq(final(room).queue@).to_multiset()
            == crate::bonk_room::stamps_seq(old(room).queue@).to_multiset(),
        final(room).queue@ == rotate_ids(old(room).queue@, ids_of_players(ps@)),
        *final(room) == (BonkRoom { queue: final(room).queue, ..*old(room) }),
{
    let n = ps.len();
    let mut x: usize = 0;
    proof {
        assert(ids_of_players(ps@).take(0) =~= Seq::<i32>::empty());
    }
    while x < n
        invariant
            x <= n,
            n == ps@.len(),
            room.wf(),
            room.queue@.len() == old(room).queue@.len(),
            crate::bonk_room::names_seq(room.queue@).to_multiset()
                == crate::bonk_room::names_seq(old(room).queue@).to_multiset(),
            crate::bonk_room::stamps_seq(room.queue@).to_multiset()
                == crate::bonk_room::stamps_seq(old(room).queue@).to_multiset(),
            room.queue@ == rotate_ids(old(room).queue@, ids_of_players(ps@).take(x as int)),
            *room == (BonkRoom { queue: room.queue, ..*old(room) }),
        decreases n - x,
    {
        proof {
            lemma_first_with_id(room.queue@, ps@[x as int].id);
        }
        room.rotate_queue_to_back(ps[x].id);
        proof {
            let ids = ids_of_players(ps@);
            assert(ids.take(x + 1) =~= ids.take(x as int).push(ids[x as int]));
            lemma_rotate_ids_push(old(room).queue@, ids.take(x as int), ids[x as int]);
            assert(room.queue@ == rotate_ids(old(room).queue@, ids.take(x + 1)));
        }
        x += 1;
    }
    proof {
        assert(ids_of_players(ps@).take(n as int) == ids_of_players(ps@));
    }
}

/// Look a player's score up by id; missing players score zero.
fn lookup_score(s: &Vec<(i32, i64)>, id: i32) -> (r: i64)
    ensures
        r == score_lookup(s@, id),
{
    let n = s.len();
    let mut x: usize = 0;
    while x < n
        invariant
            x <= n,
            n == s@.len(),
            forall|j: int| 0 <= j < x ==> s@[j].0 != id,
        decreases n - x,
    {
        if s[x].0 == id {
            proof {
                lemma_score_lookup_at(s@, id, x as int);
            }
            return s[x].1;
        }
        x += 1;
    }
    proof {
        lemma_score_lookup_at(s@, id, n as int);
    }
    0
}

/// The name lists of ranked placements, in rank order.
fn extract_name_lists(pl: &Vec<(i64, Vec<String>)>) -> (r: Vec<Vec<String>>)
    ensures
        r@.len() == pl@.len(),
{
    let mut r: Vec<Vec<String>> = Vec::new();
    let n = pl.len();
    let mut x: usize = 0;
    while x < n
        invariant
            x <= n,
            n == pl@.len(),
            r@.len() == x,
        decreases n - x,
    {
        let row = &pl[x].1;
        let m = row.len();
        let mut names: Vec<String> = Vec::new();
        let mut y: usize = 0;
        while y < m
            invariant
                y <= m,
                m == row@.len(),
            decreases m - y,
        {
            names.push(row[y].clone());
            y += 1;
        }
        r.push(names);
        x += 1;
    }
    r
}

/// Milliseconds a vacated queue spot is held before eviction.
pub const SPOT_HOLD_MS: u64 = 60000;

/// An entry still inside the hold window at this time.
pub open spec fn fresh_at(e: QueueEntry, now: u64) -> bool {
    e.last_seen > now || now - e.last_seen <= SPOT_HOLD_MS
}

/// Refresh or insert one snapshot player: a queued name is re-stamped
/// and its host data refreshed; a new name is appended at the back.
fn refresh_one(room: &mut BonkRoom, sp: &Player, now: u64) -> (r: (bool, bool))
    requires
        old(room).wf(),
    ensures
        final(room).wf(),
        *final(room) == (BonkRoom { queue: final(room).queue, ..*old(room) }),
        forall|i: int|
            0 <= i < old(room).queue@.len() ==> exists|j: int|
                0 <= j < final(room).queue@.len() && (#[trigger] old(room).queue@[i]).player
                    .name@ == final(room).queue@[j].player.name@
                    && ((final(room).queue@[j].last_seen == old(room).queue@[i].last_seen
                    && final(room).queue@[j].player.in_room
                    == old(room).queue@[i].player.in_room)
                    || (final(room).queue@[j].last_seen == now
                    && final(room).queue@[j].player.in_room)),
        exists|j: int|
            0 <= j < final(room).queue@.len() && (#[trigger] final(room).queue@[j]).player
                .name@ == sp.name@ && final(room).queue@[j].player.in_room && final(room).queue@[j].last_seen == now,
        crate::bonk_room::names_seq(final(room).queue@) == crate::bonk_room::names_seq(
            old(room).queue@,
        ) || crate::bonk_room::names_seq(final(room).queue@) == crate::bonk_room::names_seq(
            old(room).queue@,
        ).push(sp.name@),
        forall|i: int|
            0 <= i < old(room).queue@.len() && (#[trigger] old(room).queue@[i]).player.name@
                != sp.name@ ==> final(room).queue@[i] == old(room).queue@[i],
{
    let ghost q0 = room.queue@;
    proof {
        lemma_first_with_name(q0, sp.name@);
    }
    let fi = crate::bonk_commands::find_queue_index_by_name(room, &sp.name);
    if fi < room.queue.len() {
        let e = room.queue.remove(fi);
        let was_in = e.player.in_room;
        let was_ready = e.player.ready;
        let mut p = e.player;
        p.id = sp.id;
        p.team = sp.team;
        p.ready = sp.ready;
        p.in_room = true;
        room.queue.insert(fi, QueueEntry { last_seen: now, player: p });
        proof {
            let q1 = room.queue@;
            assert forall|j: int| 0 <= j < q1.len() && j != fi as int implies #[trigger]
                q1[j] == q0[j] by {
                assert(q1[j] == q0.remove(fi as int).insert(fi as int, q1[fi as int])[j]);
            }
            assert(q1[fi as int].player.name@ == q0[fi as int].player.name@);
            assert(queue_names_unique(q1));
            assert forall|i: int| 0 <= i < q0.len() implies exists|j: int|
                0 <= j < q1.len() && (#[trigger] q0[i]).player.name@ == q1[j].player.name@
                    && ((q1[j].last_seen == q0[i].last_seen && q1[j].player.in_room == q0[
                    i
                ].player.in_room) || (q1[j].last_seen == now && q1[j].player.in_room)) by {
                assert(q0[i].player.name@ == q1[i].player.name@);
                if i != fi as int {
                    assert(q1[i] == q0[i]);
                }
            }
            assert(q1[fi as int].player.name@ == sp.name@ && q1[fi as int].player.in_room
                && q1[fi as int].last_seen == now);
            assert(crate::bonk_room::names_seq(q1) =~= crate::bonk_room::names_seq(q0));
        }
        (!was_in, sp.ready && !was_ready)
    } else {
        let mut p = sp.duplicate();
        p.in_room = true;
        p.ready_cmd = false;
        room.queue.push(QueueEntry { last_seen: now, player: p });
        proof {
            let q1 = room.queue@;
            assert(queue_names_unique(q1)) by {
                assert forall|a: int, b: int| 0 <= a < b < q1.len() implies q1[a].player
                    .name@ != q1[b].player.name@ by {
                    if b == q1.len() - 1 {
                        assert(q1[a] == q0[a]);
                    }
                }
            }
            assert forall|i: int| 0 <= i < q0.len() implies exists|j: int|
                0 <= j < q1.len() && (#[trigger] q0[i]).player.name@ == q1[j].player.name@
                    && ((q1[j].last_seen == q0[i].last_seen && q1[j].player.in_room == q0[
                    i
                ].player.in_room) || (q1[j].last_seen == now && q1[j].player.in_room)) by {
                assert(q1[i] == q0[i]);
            }
            assert(q1[q1.len() - 1].player.name@ == sp.name@ && q1[q1.len() - 1].player
                .in_room && q1[q1.len() - 1].last_seen == now);
            assert(crate::bonk_room::names_seq(q1) =~= crate::bonk_room::names_seq(
                q0,
            ).push(sp.name@));
        }
        (true, sp.ready)
    }
}

/// A name the host snapshot still lists.
pub open spec fn in_snapshot(snap: Seq<Player>, name: Seq<char>) -> bool {
    exists|k: int| 0 <= k < snap.len() && (#[trigger] snap[k]).name@ == name
}

/// The queue spots still inside the hold window.
pub open spec fn fresh_filter(q: Seq<QueueEntry>, now: u64) -> Seq<QueueEntry> {
    q.filter(|e: QueueEntry| fresh_at(e, now))
}

/// Flag every queued name the snapshot no longer lists as absent, and
/// report who newly left.
fn mark_absent(room: &mut BonkRoom, snapshot: &Vec<Player>) -> (left: Vec<Player>)
    requires
        old(room).wf(),
    ensures
        final(room).wf(),
        *final(room) == (BonkRoom { queue: final(room).queue, ..*old(room) }),
        final(room).queue@.len() == old(room).queue@.len(),
        forall|j: int|
            0 <= j < old(room).queue@.len() ==> {
                let e0 = old(room).queue@[j];
                let e1 = #[trigger] final(room).queue@[j];
                &&& e1.last_seen == e0.last_seen
                &&& e1.player@ == (PlayerV { in_room: e1.player@.in_room, ..e0.player@ })
                &&& in_snapshot(snapshot@, e0.player.name@) ==> e1.player@.in_room == e0
                    .player@.in_room
                &&& !in_snapshot(snapshot@, e0.player.name@) ==> !e1.player@.in_room
            },
{
    let ghost q0 = room.queue@;
    let mut left: Vec<Player> = Vec::new();
    let mut nq: Vec<QueueEntry> = Vec::new();
    let n = room.queue.len();
    let mut j: usize = 0;
    while j < n
        invariant
            j <= n,
            n == q0.len(),
            room.queue@ == q0,
            *room == *old(room),
            nq@.len() == j,
            forall|x: int|
                0 <= x < j ==> {
                    let e0 = q0[x];
                    let e1 = #[trigger] nq@[x];
                    &&& e1.last_seen == e0.last_seen
                    &&& e1.player@ == (PlayerV {
                        in_room: e1.player@.in_room,
                        ..e0.player@
                    })
                    &&& in_snapshot(snapshot@, e0.player.name@) ==> e1.player@.in_room
                        == e0.player@.in_room
                    &&& !in_snapshot(snapshot@, e0.player.name@) ==> !e1.player@.in_room
                },
        decreases n - j,
    {
        let e = &room.queue[j];
        let m = snapshot.len();
        let mut k: usize = 0;
        let mut present: bool = false;
        while k < m
            invariant
                k <= m,
                m == snapshot@.len(),
                j < n,
                n == q0.len(),
                room.queue@ == q0,
                e == q0[j as int],
                present ==> in_snapshot(snapshot@, e.player.name@),
                !present ==> forall|y: int|
                    0 <= y < k ==> (#[trigger] snapshot@[y]).name@ != e.player.name@,
            decreases m - k,
        {
            if snapshot[k].name.eq(&e.player.name) {
                present = true;
            }
            k += 1;
        }
        let mut p = e.player.duplicate();
        if !present {
            if p.in_room {
                left.push(e.player.duplicate());
            }
            p.in_room = false;
        }
        nq.push(QueueEntry { last_seen: e.last_seen, player: p });
        j += 1;
    }
    room.queue = nq;
    proof {
        assert(queue_names_unique(room.queue@));
    }
    left
}

/// Evict every queue spot whose hold window has lapsed.
fn evict_stale(room: &mut BonkRoom, now: u64)
    requires
        old(room).wf(),
    ensures
        final(room).wf(),
        *final(room) == (BonkRoom { queue: final(room).queue, ..*old(room) }),
        final(room).queue@ == fresh_filter(old(room).queue@, now),
{
    let ghost q0 = room.queue@;
    let mut nq: Vec<QueueEntry> = Vec::new();
    proof {
        reveal(Seq::filter);
        assert(q0.take(0) =~= Seq::<QueueEntry>::empty());
        assert(nq@ =~= fresh_filter(q0.take(0), now));
        assert(room.queue@ =~= q0.skip(0));
    }
    while room.queue.len() > 0
        invariant
            old(room).wf(),
            q0 == old(room).queue@,
            room.queue@.len() <= q0.len(),
            *room == (BonkRoom { queue: room.queue, ..*old(room) }),
            room.queue@ == q0.skip(q0.len() - room.queue@.len()),
            nq@ == fresh_filter(q0.take(q0.len() - room.queue@.len()), now),
            forall|x: int|
                0 <= x < nq@.len() ==> exists|y: int|
                    0 <= y < q0.len() - room.queue@.len() && #[trigger] nq@[x] == q0[y],
        decreases room.queue@.len(),
    {
        let ghost c = q0.len() - room.queue@.len();
        let ghost t1 = q0.take(c + 1);
        let ghost t0 = q0.take(c);
        proof {
            reveal(Seq::filter);
            assert(t1.drop_last() =~= t0);
            assert(t1.last() == q0[c]);
            assert(room.queue@[0] == q0.skip(c)[0]);
            assert(q0.skip(c)[0] == q0[c]);
        }
        let e = room.queue.remove(0);
        proof {
            assert(room.queue@ =~= q0.skip(c + 1));
        }
        let keep: bool = e.last_seen > now || now - e.last_seen <= SPOT_HOLD_MS;
        if keep {
            nq.push(e);
            proof {
                assert(t1.filter(|x: QueueEntry| fresh_at(x, now)) == t0.filter(
                    |x: QueueEntry| fresh_at(x, now),
                ).push(q0[c]));
            }
        } else {
            proof {
                assert(t1.filter(|x: QueueEntry| fresh_at(x, now)) == t0.filter(
                    |x: QueueEntry| fresh_at(x, now),
                ));
            }
        }
    }
    proof {
        assert(q0.take(q0.len() as int) == q0);
    }
    room.queue = nq;
    proof {
        assert forall|a: int, b: int|
            0 <= a < b < room.queue@.len() implies room.queue@[a].player.name@ != room
            .queue@[b].player.name@ by {
            let ya = choose|y: int| 0 <= y < q0.len() && room.queue@[a] == q0[y];
            let yb = choose|y: int| 0 <= y < q0.len() && room.queue@[b] == q0[y];
            if ya == yb {
                assert(fresh_filter(q0, now)[a] == fresh_filter(q0, now)[b]);
                lemma_filter_distinct_indices(q0, now, a, b);
            }
        }
        assert(queue_names_unique(room.queue@));
    }
}

/// Two positions of the fresh filter never come from one source spot.
proof fn lemma_filter_distinct_indices(q: Seq<QueueEntry>, now: u64, a: int, b: int)
    requires
        queue_names_unique(q),
        0 <= a < b < fresh_filter(q, now).len(),
    ensures
        fresh_filter(q, now)[a].player.name@ != fresh_filter(q, now)[b].player.name@,
    decreases q.len(),
{
    reveal(Seq::filter);
    if q.len() > 0 {
        let f = fresh_filter(q, now);
        let fp = fresh_filter(q.drop_last(), now);
        assert(queue_names_unique(q.drop_last())) by {
            assert forall|i: int, j: int|
                0 <= i < j < q.drop_last().len() implies q.drop_last()[i].player.name@ != q
                .drop_last()[j].player.name@ by {
                assert(q.drop_last()[i] == q[i]);
                assert(q.drop_last()[j] == q[j]);
            }
        }
        if b < fp.len() {
            lemma_filter_distinct_indices(q.drop_last(), now, a, b);
        } else {
            // the last filtered row is the last source spot; earlier rows
            // come from earlier spots with distinct names
            assert(f[b] == q.last());
            lemma_filter_element_from(q.drop_last(), now, a);
        }
    }
}

/// Every filtered row is one of the source spots.
proof fn lemma_filter_element_from(q: Seq<QueueEntry>, now: u64, a: int)
    requires
        0 <= a < fresh_filter(q, now).len(),
    ensures
        exists|y: int| 0 <= y < q.len() && fresh_filter(q, now)[a] == #[trigger] q[y],
    decreases q.len(),
{
    reveal(Seq::filter);
    if q.len() > 0 {
        let f = fresh_filter(q, now);
        let fp = fresh_filter(q.drop_last(), now);
        if a < fp.len() {
            lemma_filter_element_from(q.drop_last(), now, a);
            let y = choose|y: int| 0 <= y < q.drop_last().len() && fp[a] == q.drop_last()[y];
            assert(f[a] == q[y]);
        } else {
            assert(f[a] == q[q.len() - 1]);
        }
    }
}

/// Apply a host player snapshot: present names are re-stamped and
/// refreshed, names the host no longer lists are flagged absent, and
/// spots beyond the hold window are evicted. The returned lists name
/// who joined and who left, for the caller to feed to the join and
/// leave handlers; a readiness check runs when a ready flag came up
/// while a map was being chosen or awaited.
pub fn update_players(room: &mut BonkRoom, snapshot: &Vec<Player>, now: u64, my_name: &String)
    -> (r: (Vec<Player>, Vec<Player>, Vec<Action>))
    requires
        old(room).wf(),
    ensures
        final(room).wf(),
        valid_step(old(room).state, final(room).state),
        final(room).state == old(room).state || final(room).state == RoomState::GameStarting,
        // every snapshot name but the bot's own holds a present queue
        // spot afterwards; well-formedness keeps any name to one spot
        forall|k: int|
            0 <= k < snapshot@.len() && (#[trigger] snapshot@[k]).name@ != my_name@
                ==> exists|j: int|
                0 <= j < final(room).queue@.len() && (#[trigger] final(room).queue@[j]).player
                    .name@ == snapshot@[k].name@ && final(room).queue@[j].player.in_room
                    && final(room).queue@[j].last_seen == now,
        // no spot outlives the hold window
        forall|j: int|
            0 <= j < final(room).queue@.len() ==> fresh_at(
                #[trigger] final(room).queue@[j],
                now,
            ),
        // surviving spots keep their order: the final queue is the
        // fresh filter of the refreshed queue, whose leading names are
        // the old queue's names in place
        exists|mid: Seq<QueueEntry>|
            final(room).queue@ == #[trigger] fresh_filter(mid, now) && mid.len()
                >= old(room).queue@.len() && crate::bonk_room::names_seq(mid).take(
                old(room).queue@.len() as int,
            ) == crate::bonk_room::names_seq(old(room).queue@),
        // a spot the snapshot omits keeps its stamp, is flagged absent,
        // and survives while still inside the hold window
        forall|i: int|
            0 <= i < old(room).queue@.len() && !in_snapshot(
                snapshot@,
                (#[trigger] old(room).queue@[i]).player.name@,
            ) && fresh_at(old(room).queue@[i], now) ==> exists|j: int|
                0 <= j < final(room).queue@.len() && (#[trigger] final(room).queue@[j]).player
                    .name@ == old(room).queue@[i].player.name@ && final(room).queue@[j]
                    .last_seen == old(room).queue@[i].last_seen && !final(room).queue@[j]
                    .player.in_room,
{
    let mut joined: Vec<Player> = Vec::new();
    let mut newly_ready: bool = false;

    // refresh or insert what the host lists
    let n = snapshot.len();
    let mut k: usize = 0;
    while k < n
        invariant
            k <= n,
            n == snapshot@.len(),
            room.wf(),
            *room == (BonkRoom { queue: room.queue, ..*old(room) }),
            forall|m: int|
                0 <= m < k && (#[trigger] snapshot@[m]).name@ != my_name@ ==> exists|j: int|
                    0 <= j < room.queue@.len() && (#[trigger] room.queue@[j]).player.name@
                        == snapshot@[m].name@ && room.queue@[j].player.in_room
                        && room.queue@[j].last_seen == now,
            room.queue@.len() >= old(room).queue@.len(),
            crate::bonk_room::names_seq(room.queue@).take(old(room).queue@.len() as int)
                == crate::bonk_room::names_seq(old(room).queue@),
            forall|i: int|
                0 <= i < old(room).queue@.len() && !in_snapshot(
                    snapshot@,
                    (#[trigger] old(room).queue@[i]).player.name@,
                ) ==> room.queue@[i] == old(room).queue@[i],
        decreases n - k,
    {
        let sp = &snapshot[k];
        if !sp.name.eq(my_name) {
            let ghost qpre = room.queue@;
            let (j_edge, n_ready) = refresh_one(room, sp, now);
            proof {
                assert forall|i: int|
                    0 <= i < old(room).queue@.len() && !in_snapshot(
                        snapshot@,
                        (#[trigger] old(room).queue@[i]).player.name@,
                    ) implies room.queue@[i] == old(room).queue@[i] by {
                    assert(snapshot@[k as int].name@ == sp.name@);
                    assert(old(room).queue@[i].player.name@ != sp.name@);
                    assert(qpre[i] == old(room).queue@[i]);
                }
            }
            proof {
                assert(crate::bonk_room::names_seq(room.queue@).take(
                    old(room).queue@.len() as int,
                ) =~= crate::bonk_room::names_seq(qpre).take(
                    old(room).queue@.len() as int,
                ));
            }
            if j_edge {
                joined.push(sp.duplicate());
            }
            if n_ready {
                newly_ready = true;
            }
        }
        k += 1;
    }

    // flag what the host no longer lists
    let ghost qa = room.queue@;
    let left = mark_absent(room, snapshot);
    proof {
        assert forall|m: int|
            0 <= m < snapshot@.len() && (#[trigger] snapshot@[m]).name@ != my_name@
            implies exists|j: int|
            0 <= j < room.queue@.len() && (#[trigger] room.queue@[j]).player.name@
                == snapshot@[m].name@ && room.queue@[j].player.in_room && room.queue@[j]
                .last_seen == now by {
            let j0 = choose|j0: int|
                0 <= j0 < qa.len() && qa[j0].player.name@ == snapshot@[m].name@
                    && qa[j0].player.in_room && qa[j0].last_seen == now;
            assert(in_snapshot(snapshot@, qa[j0].player.name@));
            assert(room.queue@[j0].player.name@ == snapshot@[m].name@);
            assert(room.queue@[j0].player.in_room);
            assert(room.queue@[j0].last_seen == now);
        }
    }

    // evict lapsed spots
    let ghost qb = room.queue@;
    evict_stale(room, now);
    proof {
        assert(crate::bonk_room::names_seq(qb).take(old(room).queue@.len() as int)
            == crate::bonk_room::names_seq(old(room).queue@));
        assert forall|m: int|
            0 <= m < snapshot@.len() && (#[trigger] snapshot@[m]).name@ != my_name@
            implies exists|j: int|
            0 <= j < room.queue@.len() && (#[trigger] room.queue@[j]).player.name@
                == snapshot@[m].name@ && room.queue@[j].player.in_room && room.queue@[j]
                .last_seen == now by {
            let j0 = choose|j0: int|
                0 <= j0 < qb.len() && qb[j0].player.name@ == snapshot@[m].name@
                    && qb[j0].player.in_room && qb[j0].last_seen == now;
            assert(fresh_at(qb[j0], now));
            qb.lemma_filter_contains(|e: QueueEntry| fresh_at(e, now), j0);
            assert(fresh_filter(qb, now).contains(qb[j0]));
            let j1 = choose|j1: int|
                0 <= j1 < fresh_filter(qb, now).len() && fresh_filter(qb, now)[j1]
                    == qb[j0];
            assert(room.queue@[j1] == qb[j0]);
        }
        assert forall|j: int| 0 <= j < room.queue@.len() implies fresh_at(
            #[trigger] room.queue@[j],
            now,
        ) by {
            qb.lemma_filter_pred(|e: QueueEntry| fresh_at(e, now), j);
        }
        assert forall|i: int|
            0 <= i < old(room).queue@.len() && !in_snapshot(
                snapshot@,
                (#[trigger] old(room).queue@[i]).player.name@,
            ) && fresh_at(old(room).queue@[i], now) implies exists|j: int|
            0 <= j < room.queue@.len() && (#[trigger] room.queue@[j]).player.name@
                == old(room).queue@[i].player.name@ && room.queue@[j].last_seen
                == old(room).queue@[i].last_seen && !room.queue@[j].player.in_room by {
            // the spot sat unchanged through the refresh, was flagged
            // absent, and its fresh stamp carries it through eviction
            assert(qa[i] == old(room).queue@[i]);
            assert(qb[i].last_seen == old(room).queue@[i].last_seen);
            assert(!qb[i].player@.in_room);
            assert(fresh_at(qb[i], now));
            qb.lemma_filter_contains(|e: QueueEntry| fresh_at(e, now), i);
            assert(fresh_filter(qb, now).contains(qb[i]));
            let j1 = choose|j1: int|
                0 <= j1 < fresh_filter(qb, now).len() && fresh_filter(qb, now)[j1] == qb[i];
            assert(room.queue@[j1] == qb[i]);
        }
    }

    // a flag that came up during selection may complete the ready set
    let mut acts: Vec<Action> = Vec::new();
    if newly_ready && (room.state == RoomState::MapSelection || room.state
        == RoomState::Ready) {
        let mut more = crate::bonk_commands::check_ready_start(room);
        acts.append(&mut more);
    }
    (joined, left, acts)
}

/// The update loop observed the host lobby's visibility: a running
/// start completes when the lobby vanishes, and a game ends when the
/// lobby comes back.
pub fn on_lobby_visibility(room: &mut BonkRoom, visible: bool) -> (acts: Vec<Action>)
    requires
        old(room).wf(),
    ensures
        final(room).wf(),
        valid_step(old(room).state, final(room).state),
        (old(room).state == RoomState::GameStarting && !visible) ==> {
            &&& final(room).state == RoomState::InGame
            &&& acts@ =~= seq![
                Action::ArmTimer {
                    timer: TimerArm::Secs(old(room).room_parameters.game_time),
                },
            ]
            &&& *final(room) == (BonkRoom {
                state: RoomState::InGame,
                warning_step: 0,
                ..*old(room)
            })
        },
        (old(room).state == RoomState::InGame && visible) ==> *final(room) == *old(room)
            && acts@ =~= seq![Action::EndGame { winner: None, tie: false }],
        !((old(room).state == RoomState::GameStarting && !visible) || (old(room).state
            == RoomState::InGame && visible)) ==> *final(room) == *old(room) && acts@.len()
            == 0,
{
    let mut acts: Vec<Action> = Vec::new();
    if room.state == RoomState::GameStarting && !visible {
        room.state = RoomState::InGame;
        room.warning_step = 0;
        acts.push(
            Action::ArmTimer { timer: TimerArm::Secs(room.room_parameters.game_time) },
        );
    } else if room.state == RoomState::InGame && visible {
        acts.push(Action::EndGame { winner: None, tie: false });
    }
    acts
}

/// The in-game reminder thresholds: halftime, then sixty, thirty and
/// ten seconds, each included only when below the previous one.
pub open spec fn warning_ladder(game_time: u64) -> Seq<u64> {
    let a = seq![(game_time / 2) as u64];
    let a = if 60 < game_time / 2 {
        a.push(60u64)
    } else {
        a
    };
    let a = if 30 < a.last() {
        a.push(30u64)
    } else {
        a
    };
    if 10 < a.last() {
        a.push(10u64)
    } else {
        a
    }
}

/// Emit the reminder for a crossed warning threshold, at most once per
/// threshold: halfway through a pick or ready wait, and down the
/// in-game ladder. `warning_step` only ever advances, and resets with
/// every state transition.
pub fn update_warning(room: &mut BonkRoom, remaining: u64) -> (acts: Vec<Action>)
    requires
        old(room).wf(),
    ensures
        final(room).wf(),
        final(room).state == old(room).state,
        final(room).warning_step >= old(room).warning_step,
        *final(room) == (BonkRoom { warning_step: final(room).warning_step, ..*old(room) }),
        old(room).state == RoomState::Pick ==> {
            let half = old(room).room_parameters.pick_time / 2;
            if old(room).warning_step == 0 && remaining < half {
                &&& final(room).warning_step == 1
                &&& acts@.len() == 1
                &&& is_chat(acts@[0], dec_digits(half as nat) + " seconds left to pick."@)
            } else {
                *final(room) == *old(room) && acts@.len() == 0
            }
        },
        old(room).state == RoomState::Ready ==> {
            let half = old(room).room_parameters.ready_time / 2;
            if old(room).warning_step == 0 && remaining < half {
                &&& final(room).warning_step == 1
                &&& acts@.len() == 1
                &&& is_chat(acts@[0], "Use !r to start."@)
            } else {
                *final(room) == *old(room) && acts@.len() == 0
            }
        },
        old(room).state == RoomState::InGame ==> {
            let ts = warning_ladder(old(room).room_parameters.game_time);
            if old(room).warning_step < ts.len() && remaining < ts[
                old(room).warning_step as int
            ] {
                &&& final(room).warning_step == old(room).warning_step + 1
                &&& acts@.len() == 1
                &&& is_chat(acts@[0], dec_digits(
                    ts[old(room).warning_step as int] as nat,
                ) + " seconds remaining."@)
            } else {
                *final(room) == *old(room) && acts@.len() == 0
            }
        },
        (old(room).state == RoomState::Idle || old(room).state == RoomState::MapSelection
            || old(room).state == RoomState::GameStarting) ==> *final(room) == *old(room)
            && acts@.len() == 0,
{
    proof {
        reveal_strlit(" seconds left to pick.");
        reveal_strlit("Use !r to start.");
        reveal_strlit(" seconds remaining.");
    }
    let mut acts: Vec<Action> = Vec::new();
    match room.state {
        RoomState::Pick => {
            let half = room.room_parameters.pick_time / 2;
            if room.warning_step == 0 && remaining < half {
                room.warning_step = 1;
                let mut m = u64_string(half);
                m.append(" seconds left to pick.");
                acts.push(Action::Chat { message: m });
            }
        },
        RoomState::Ready => {
            let half = room.room_parameters.ready_time / 2;
            if room.warning_step == 0 && remaining < half {
                room.warning_step = 1;
                acts.push(Action::Chat { message: String::from_str("Use !r to start.") });
            }
        },
        RoomState::InGame => {
            let mut ts: Vec<u64> = Vec::new();
            ts.push(room.room_parameters.game_time / 2);
            if 60 < room.room_parameters.game_time / 2 {
                ts.push(60);
            }
            if 30 < ts[ts.len() - 1] {
                ts.push(30);
            }
            if 10 < ts[ts.len() - 1] {
                ts.push(10);
            }
            proof {
                assert(ts@ =~= warning_ladder(old(room).room_parameters.game_time));
            }
            let step = room.warning_step as usize;
            if step < ts.len() && remaining < ts[step] {
                room.warning_step = room.warning_step + 1;
                let mut m = u64_string(ts[step]);
                m.append(" seconds remaining.");
                acts.push(Action::Chat { message: m });
            }
        },
        _ => {},
    }
    acts
}

/// The index of the first space after the leading mark, or the length.
pub open spec fn sp_from(m: Seq<char>, i: int) -> int
    decreases m.len() - i,
    when 1 <= i
{
    if i >= m.len() {
        m.len() as int
    } else if m[i] == ' ' {
        i
    } else {
        sp_from(m, i + 1)
    }
}

/// Where a command line splits: the first space after the mark.
pub open spec fn sp_of(m: Seq<char>) -> int {
    sp_from(m, 1)
}

/// The command word of a chat line.
pub open spec fn cmd_of(m: Seq<char>) -> Seq<char> {
    m.subrange(1, sp_of(m))
}

/// The argument text of a chat line: what follows the first space.
pub open spec fn arg_of(m: Seq<char>) -> Seq<char> {
    if sp_of(m) < m.len() {
        m.subrange(sp_of(m) + 1, m.len() as int)
    } else {
        Seq::empty()
    }
}

proof fn lemma_sp_from(m: Seq<char>, i: int)
    requires
        1 <= i <= m.len(),
    ensures
        i <= sp_from(m, i) <= m.len(),
        sp_from(m, i) < m.len() ==> m[sp_from(m, i)] == ' ',
        forall|j: int| i <= j < sp_from(m, i) ==> m[j] != ' ',
    decreases m.len() - i,
{
    if i < m.len() && m[i] != ' ' {
        lemma_sp_from(m, i + 1);
    }
}

/// Names joined with commas, oldest first.
pub open spec fn joined(names: Seq<Seq<char>>) -> Seq<char>
    decreases names.len(),
{
    if names.len() == 0 {
        Seq::empty()
    } else if names.len() == 1 {
        names[0]
    } else {
        joined(names.drop_last()) + ", "@ + names.last()
    }
}

/// The names the queue command lists: every present queued player.
pub open spec fn listed_names(q: Seq<QueueEntry>) -> Seq<Seq<char>> {
    in_room_filter(q).map_values(|e: QueueEntry| e.player.name@)
}

/// What one chat line leaves behind, by its command word: the fixed
/// replies, the queue listing, and the pick, strike, ready and vote
/// dispatches, each exactly as the command's own contract says.
pub open spec fn on_message_post(
    pre: BonkRoom,
    post: BonkRoom,
    id: i32,
    m: Seq<char>,
    remaining: u64,
    chat_idle: bool,
    acts: Seq<Action>,
) -> bool {
    if m.len() == 0 || m[0] != '!' {
        post == pre && acts.len() == 0
    } else {
        let c = cmd_of(m);
        if c == "help"@ || c == "h"@ || c == "?"@ {
            post == pre && acts.len() == 1 && is_chat(acts[0], "!queue (lists the queue)"@)
        } else if c == "ping"@ {
            post == pre && acts.len() == 1 && is_chat(acts[0], "Pong!"@)
        } else if c == "discord"@ || c == "d"@ {
            post == pre && acts.len() == 1 && is_chat(
                acts[0],
                "Check the room description for the community server link."@,
            )
        } else if c == "queue"@ || c == "q"@ {
            post == pre && acts.len() == 1 && is_chat(acts[0], joined(listed_names(pre.queue@)))
        } else if c == "pick"@ || c == "p"@ {
            crate::bonk_commands::pick_post(pre, post, id, arg_of(m), acts)
        } else if c == "strike"@ || c == "s"@ {
            crate::bonk_commands::strike_post(pre, post, id, remaining, acts)
        } else if c == "ready"@ || c == "r"@ {
            crate::bonk_commands::ready_post(pre, post, id, chat_idle, acts)
        } else if c == "reset"@ || c == "re"@ {
            crate::bonk_commands::vote_reset_post(pre, post, id, acts)
        } else if c == "cancel"@ || c == "c"@ {
            crate::bonk_commands::vote_cancel_post(pre, post, id, acts)
        } else {
            post == pre && acts.len() == 1 && is_chat(acts[0], "!queue (lists the queue)"@)
        }
    }
}

/// Character-for-character equality of two strings.
pub fn str_eq_chars(a: &str, b: &str) -> (r: bool)
    ensures
        r == (a@ == b@),
{
    let an = a.unicode_len();
    let bn = b.unicode_len();
    if an != bn {
        proof {
            assert(a@ != b@);
        }
        return false;
    }
    let mut i: usize = 0;
    while i < an
        invariant
            i <= an,
            an == a@.len(),
            an == b@.len(),
            forall|j: int| 0 <= j < i ==> a@[j] == b@[j],
        decreases an - i,
    {
        if a.get_char(i) != b.get_char(i) {
            proof {
                assert(a@[i as int] != b@[i as int]);
            }
            return false;
        }
        i += 1;
    }
    proof {
        assert(a@ =~= b@);
    }
    true
}

/// Handle one chat line from this player: lines that do not start
/// with an exclamation mark are ignored; otherwise the first word
/// picks the command and the rest is its argument, as
/// `on_message_post` says command by command.
#[verifier::rlimit(100)]
pub fn on_message(
    room: &mut BonkRoom,
    id: i32,
    message: &str,
    remaining: u64,
    chat_idle: bool,
) -> (acts: Vec<Action>)
    requires
        old(room).wf(),
    ensures
        final(room).wf(),
        valid_step(old(room).state, final(room).state),
        on_message_post(*old(room), *final(room), id, message@, remaining, chat_idle, acts@),
{
    proof {
        reveal_strlit("Pong!");
        reveal_strlit("!queue (lists the queue)");
        reveal_strlit("Check the room description for the community server link.");
        reveal_strlit("help");
        reveal_strlit("h");
        reveal_strlit("?");
        reveal_strlit("ping");
        reveal_strlit("discord");
        reveal_strlit("d");
        reveal_strlit("queue");
        reveal_strlit("q");
        reveal_strlit("pick");
        reveal_strlit("p");
        reveal_strlit("strike");
        reveal_strlit("s");
        reveal_strlit("ready");
        reveal_strlit("r");
        reveal_strlit("reset");
        reveal_strlit("re");
        reveal_strlit("cancel");
        reveal_strlit("c");
        reveal_strlit(", ");
    }
    let mut acts: Vec<Action> = Vec::new();
    let n = message.unicode_len();
    if n == 0 {
        return acts;
    }
    if message.get_char(0) != '!' {
        return acts;
    }
    // split the line at the first space: command word, then argument
    let mut sp: usize = n;
    let mut i: usize = 1;
    while i < n
        invariant
            1 <= i <= n,
            n == message@.len(),
            sp == n || (1 <= sp < n && sp < i && message@[sp as int] == ' '),
            sp == n ==> forall|j: int| 1 <= j < i ==> message@[j] != ' ',
            forall|j: int| 1 <= j < sp && j < i ==> message@[j] != ' ',
        decreases n - i,
    {
        if sp == n && message.get_char(i) == ' ' {
            sp = i;
        }
        i += 1;
    }
    proof {
        lemma_sp_from(message@, 1);
        assert(sp as int == sp_of(message@)) by {
            let so = sp_of(message@);
            if so < sp {
                assert(message@[so] == ' ');
            }
            if sp < so {
                assert(message@[sp as int] != ' ');
            }
        }
    }
    let cmd: &str = message.substring_char(1, sp);
    let rest: String = if sp < n {
        message.substring_char(sp + 1, n).to_owned()
    } else {
        String::new()
    };
    proof {
        assert(cmd@ == cmd_of(message@));
        assert(rest@ == arg_of(message@));
    }
    if str_eq_chars(cmd, "help") || str_eq_chars(cmd, "h") || str_eq_chars(cmd, "?") {
        acts.push(
            Action::Chat { message: String::from_str("!queue (lists the queue)") },
        );
        proof {
            assert(is_chat(acts@[0], "!queue (lists the queue)"@));
        }
        acts
    } else if str_eq_chars(cmd, "ping") {
        acts.push(Action::Chat { message: String::from_str("Pong!") });
        proof {
            assert(is_chat(acts@[0], "Pong!"@));
        }
        acts
    } else if str_eq_chars(cmd, "discord") || str_eq_chars(cmd, "d") {
        acts.push(
            Action::Chat {
                message: String::from_str(
                    "Check the room description for the community server link.",
                ),
            },
        );
        proof {
            assert(is_chat(acts@[0],
                "Check the room description for the community server link."@));
        }
        acts
    } else if str_eq_chars(cmd, "queue") || str_eq_chars(cmd, "q") {
        let present = room.in_room_queue();
        let ghost lst = listed_names(room.queue@);
        let mut line = String::new();
        let m = present.len();
        let mut x: usize = 0;
        proof {
            assert(plv(present@).len() == lst.len());
            assert forall|y: int| 0 <= y < m implies (#[trigger] lst[y])
                == present@[y]@.name by {
                assert(plv(present@)[y] == present@[y]@);
                assert(players_view(in_room_filter(room.queue@))[y] == in_room_filter(
                    room.queue@,
                )[y].player@);
                assert(listed_names(room.queue@)[y] == in_room_filter(room.queue@)[y]
                    .player.name@);
            }
            assert(lst.take(0) =~= Seq::<Seq<char>>::empty());
            assert(line@ =~= joined(lst.take(0)));
        }
        while x < m
            invariant
                x <= m,
                m == present@.len(),
                plv(present@) == players_view(in_room_filter(room.queue@)),
                lst == listed_names(room.queue@),
                lst.len() == m,
                forall|y: int| 0 <= y < m ==> (#[trigger] lst[y]) == present@[y]@.name,
                line@ == joined(lst.take(x as int)),
            decreases m - x,
        {
            proof {
                assert(lst.take(x + 1).drop_last() =~= lst.take(x as int));
                assert(lst.take(x + 1).last() == lst[x as int]);
            }
            if x > 0 {
                line.append(", ");
            }
            line.append(present[x].name.as_str());
            proof {
                if x == 0 {
                    assert(line@ =~= joined(lst.take(1)));
                } else {
                    assert(line@ =~= joined(lst.take(x as int)) + ", "@ + lst[x as int]);
                    assert(line@ =~= joined(lst.take(x + 1)));
                }
            }
            x += 1;
        }
        proof {
            assert(lst.take(m as int) == lst);
        }
        acts.push(Action::Chat { message: line });
        proof {
            assert(is_chat(acts@[0], joined(listed_names(old(room).queue@))));
        }
        acts
    } else if str_eq_chars(cmd, "pick") || str_eq_chars(cmd, "p") {
        crate::bonk_commands::pick(room, id, &rest)
    } else if str_eq_chars(cmd, "strike") || str_eq_chars(cmd, "s") {
        crate::bonk_commands::strike(room, id, remaining)
    } else if str_eq_chars(cmd, "ready") || str_eq_chars(cmd, "r") {
        crate::bonk_commands::ready(room, id, chat_idle)
    } else if str_eq_chars(cmd, "reset") || str_eq_chars(cmd, "re") {
        crate::bonk_commands::vote_reset(room, id)
    } else if str_eq_chars(cmd, "cancel") || str_eq_chars(cmd, "c") {
        crate::bonk_commands::vote_cancel(room, id)
    } else {
        acts.push(
            Action::Chat { message: String::from_str("!queue (lists the queue)") },
        );
        proof {
            assert(is_chat(acts@[0], "!queue (lists the queue)"@));
        }
        acts
    }
}

} // verus!