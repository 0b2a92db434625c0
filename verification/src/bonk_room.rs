//! Room-local data model: players, the queue, the per-game player
//! assignment, the room state machine and the actions a room hands back
//! to its host driver.

use vstd::prelude::*;
use crate::room_maker::{Queue, RoomParameters};

verus! {

/// One player as the room sees them. Identity across join/leave is by
/// `name`; the `id` may change when the player re-joins.
#[derive(Clone)]
pub struct Player {
    /// Host-assigned id; changes on re-join.
    pub id: i32,
    /// Team number; 0 means spectator.
    pub team: i32,
    /// Readiness reported by the game itself.
    pub ready: bool,
    /// Readiness set through the explicit ready command.
    pub ready_cmd: bool,
    /// Display name; the room key for a player.
    pub name: String,
    /// False once the host snapshot no longer lists the name.
    pub in_room: bool,
}

/// Mathematical image of a player: the same fields with the name as a
/// character sequence.
pub struct PlayerV {
    pub id: i32,
    pub team: i32,
    pub ready: bool,
    pub ready_cmd: bool,
    pub name: Seq<char>,
    pub in_room: bool,
}

impl View for Player {
    type V = PlayerV;

    open spec fn view(&self) -> PlayerV {
        PlayerV {
            id: self.id,
            team: self.team,
            ready: self.ready,
            ready_cmd: self.ready_cmd,
            name: self.name@,
            in_room: self.in_room,
        }
    }
}

impl Player {
    /// An explicit copy whose mathematical image equals the original's.
    pub fn duplicate(&self) -> (r: Player)
        ensures
            r@ == self@,
    {
        Player {
            id: self.id,
            team: self.team,
            ready: self.ready,
            ready_cmd: self.ready_cmd,
            name: self.name.clone(),
            in_room: self.in_room,
        }
    }

    /// A fresh spectator entry with no name.
    pub fn new() -> (p: Player)
        ensures
            p.id == 0,
            p.team == 0,
            !p.ready,
            !p.ready_cmd,
            p.name@ == Seq::<char>::empty(),
            p.in_room,
    {
        Player {
            id: 0,
            team: 0,
            ready: false,
            ready_cmd: false,
            name: String::new(),
            in_room: true,
        }
    }
}

/// A queue spot: the player and when the host snapshot last listed them.
/// A spot whose name has been absent longer than the hold time is
/// evicted; a name that re-appears before that keeps its position.
#[derive(Clone)]
pub struct QueueEntry {
    /// Milliseconds timestamp of the last snapshot that listed the name.
    pub last_seen: u64,
    pub player: Player,
}

/// The room state machine. The initial state is `Idle`; the room only
/// leaves the machine through shutdown.
#[derive(Clone, Copy, PartialEq, Eq, Structural)]
pub enum RoomState {
    Idle,
    Pick,
    MapSelection,
    Ready,
    GameStarting,
    InGame,
}

/// One legal move of the room state machine: states advance along
/// `Idle -> Pick -> MapSelection -> Ready -> GameStarting -> InGame`,
/// possibly skipping launch stages (a full singles queue skips picking,
/// Football skips map selection, a short map list skips striking), and
/// every state may fall back to `Idle` on a reset.
pub open spec fn valid_step(s1: RoomState, s2: RoomState) -> bool {
    if s1 == s2 {
        true
    } else if s2 == RoomState::Idle {
        true
    } else {
        match s1 {
            RoomState::Idle => s2 == RoomState::Pick || s2 == RoomState::MapSelection
                || s2 == RoomState::Ready,
            RoomState::Pick => s2 == RoomState::MapSelection || s2 == RoomState::Ready,
            RoomState::MapSelection => s2 == RoomState::Ready || s2 == RoomState::GameStarting,
            RoomState::Ready => s2 == RoomState::GameStarting,
            RoomState::GameStarting => s2 == RoomState::InGame,
            RoomState::InGame => false,
        }
    }
}

/// Who is in the current game, by queue kind.
#[derive(Clone)]
pub enum GamePlayers {
    /// One versus one: the captain and, once picked, the opponent.
    Singles { picker: Option<Player>, picked: Option<Player> },
    /// Fixed teams; `teams[picker_idx][0]` is the captain currently
    /// picking.
    Teams { teams: Vec<Vec<Player>>, picker_idx: usize },
    /// Free-for-all.
    FFA { in_game: Vec<Player> },
}

/// Mathematical image of a game assignment.
pub enum GamePlayersV {
    Singles { picker: Option<PlayerV>, picked: Option<PlayerV> },
    Teams { teams: Seq<Seq<PlayerV>>, picker_idx: int },
    FFA { in_game: Seq<PlayerV> },
}

impl View for GamePlayers {
    type V = GamePlayersV;

    open spec fn view(&self) -> GamePlayersV {
        match self {
            GamePlayers::Singles { picker, picked } => GamePlayersV::Singles {
                picker: match picker {
                    Some(p) => Some(p@),
                    None => None,
                },
                picked: match picked {
                    Some(p) => Some(p@),
                    None => None,
                },
            },
            GamePlayers::Teams { teams, picker_idx } => GamePlayersV::Teams {
                teams: teams@.map_values(|t: Vec<Player>| t@.map_values(|p: Player| p@)),
                picker_idx: *picker_idx as int,
            },
            GamePlayers::FFA { in_game } => GamePlayersV::FFA {
                in_game: in_game@.map_values(|p: Player| p@),
            },
        }
    }
}

impl GamePlayersV {
    /// All players currently assigned to the game, in slot order.
    pub open spec fn players_seq(self) -> Seq<PlayerV> {
        match self {
            GamePlayersV::Singles { picker, picked } => {
                let a = match picker {
                    Some(p) => seq![p],
                    None => Seq::<PlayerV>::empty(),
                };
                let b = match picked {
                    Some(p) => seq![p],
                    None => Seq::<PlayerV>::empty(),
                };
                a + b
            },
            GamePlayersV::Teams { teams, picker_idx: _ } => teams.flatten(),
            GamePlayersV::FFA { in_game } => in_game,
        }
    }
}

/// Control messages a room accepts from the outside.
pub enum BonkRoomMessage {
    /// Finish the current game first, then shut the room down.
    Close,
    /// Shut the room down immediately.
    ForceClose,
}

/// What the single transition timer should be re-armed to.
#[derive(Clone, Copy, PartialEq, Eq, Structural)]
pub enum TimerArm {
    /// Fire after this many seconds.
    Secs(u64),
    /// Fire immediately.
    Zero,
    /// Never fire; wait for an external edge.
    Max,
}

/// Scores the driver read from the host when a game ended.
pub enum GameScores {
    /// The host could not be read; skip the leaderboard.
    Unavailable,
    /// One score per team slot.
    ByTeam(Vec<i64>),
    /// Scores keyed by player id.
    ByPlayer(Vec<(i32, i64)>),
    /// The winning Football side as the host computed it (0 for a
    /// draw).
    WinnerSlot(i64),
}

/// An effect the room asks its driver to carry out, in order. The room
/// itself never touches the host, the chat transport or the leaderboard
/// task; it only decides.
pub enum Action {
    /// Move a player to a team on the host (0 is spectator).
    ChangeTeam { id: i32, team: i32 },
    /// Kick a player from the host.
    Kick { id: i32 },
    /// Say something in room chat (through the chat throttle).
    Chat { message: String },
    /// Load this entry of the map list on the host.
    LoadMap { map_index: usize },
    /// Clear every ready flag on the host.
    AllReadyReset,
    /// Press start on the host.
    StartGame,
    /// Replay the start countdown on the host.
    SendStartCountdown,
    /// Replay a host-side join so a rejoining player lands on their team.
    HostReplayJoin { id: i32, team: i32 },
    /// Re-arm the transition timer.
    ArmTimer { timer: TimerArm },
    /// Fetch the scores for the current game from the host, then call
    /// `on_game_end` with these arguments and the scores.
    EndGame { winner: Option<i64>, tie: bool },
    /// Send a rating update to the attached leaderboard and chat the
    /// returned summary.
    RatingUpdate { teams: Vec<Vec<String>>, ties: Vec<bool> },
    /// Shut the room down.
    Terminate,
}

/// True when the action is a chat with exactly this text.
pub open spec fn is_chat(a: Action, m: Seq<char>) -> bool {
    a matches Action::Chat { message } && message@ == m
}

/// True when the action re-arms the transition timer to this value.
pub open spec fn is_arm(a: Action, t: TimerArm) -> bool {
    a matches Action::ArmTimer { timer } && timer == t
}

/// No two queue spots share a name.
pub open spec fn queue_names_unique(q: Seq<QueueEntry>) -> bool {
    forall|i: int, j: int|
        0 <= i < j < q.len() ==> q[i].player.name@ != q[j].player.name@
}

/// No two queue spots share a host id.
pub open spec fn queue_ids_unique(q: Seq<QueueEntry>) -> bool {
    forall|i: int, j: int|
        0 <= i < j < q.len() ==> q[i].player.id != q[j].player.id
}

/// First queue index holding this player id, or -1.
pub open spec fn first_with_id(q: Seq<QueueEntry>, id: i32) -> int
    decreases q.len(),
{
    if q.len() == 0 {
        -1
    } else if q[0].player.id == id {
        0
    } else {
        let r = first_with_id(q.drop_first(), id);
        if r == -1 {
            -1
        } else {
            r + 1
        }
    }
}

/// First strike-table index holding this player id, or -1.
pub open spec fn first_strike_idx(s: Seq<(i32, u32)>, id: i32) -> int
    decreases s.len(),
{
    if s.len() == 0 {
        -1
    } else if s[0].0 == id {
        0
    } else {
        let r = first_strike_idx(s.drop_first(), id);
        if r == -1 {
            -1
        } else {
            r + 1
        }
    }
}

/// Strikes this player has used.
pub open spec fn strikes_of(s: Seq<(i32, u32)>, id: i32) -> u32 {
    let r = first_strike_idx(s, id);
    if r == -1 {
        0
    } else {
        s[r].1
    }
}

pub proof fn lemma_first_strike_idx(s: Seq<(i32, u32)>, id: i32)
    ensures
        first_strike_idx(s, id) == -1 ==> forall|i: int| 0 <= i < s.len() ==> s[i].0 != id,
        first_strike_idx(s, id) != -1 ==> {
            let r = first_strike_idx(s, id);
            &&& 0 <= r < s.len()
            &&& s[r].0 == id
            &&& forall|i: int| 0 <= i < r ==> s[i].0 != id
        },
    decreases s.len(),
{
    if s.len() > 0 && s[0].0 != id {
        lemma_first_strike_idx(s.drop_first(), id);
        assert forall|i: int| 1 <= i < s.len() implies s.drop_first()[i - 1] == s[i] by {}
    }
}

/// First queue index holding this player name, or -1.
pub open spec fn first_with_name(q: Seq<QueueEntry>, name: Seq<char>) -> int
    decreases q.len(),
{
    if q.len() == 0 {
        -1
    } else if q[0].player.name@ == name {
        0
    } else {
        let r = first_with_name(q.drop_first(), name);
        if r == -1 {
            -1
        } else {
            r + 1
        }
    }
}

pub proof fn lemma_first_with_id(q: Seq<QueueEntry>, id: i32)
    ensures
        first_with_id(q, id) == -1 ==> forall|i: int|
            0 <= i < q.len() ==> q[i].player.id != id,
        first_with_id(q, id) != -1 ==> {
            let r = first_with_id(q, id);
            &&& 0 <= r < q.len()
            &&& q[r].player.id == id
            &&& forall|i: int| 0 <= i < r ==> q[i].player.id != id
        },
    decreases q.len(),
{
    if q.len() > 0 && q[0].player.id != id {
        lemma_first_with_id(q.drop_first(), id);
        assert forall|i: int| 1 <= i < q.len() implies q.drop_first()[i - 1] == q[i] by {}
    }
}

pub proof fn lemma_first_with_name(q: Seq<QueueEntry>, name: Seq<char>)
    ensures
        first_with_name(q, name) == -1 ==> forall|i: int|
            0 <= i < q.len() ==> q[i].player.name@ != name,
        first_with_name(q, name) != -1 ==> {
            let r = first_with_name(q, name);
            &&& 0 <= r < q.len()
            &&& q[r].player.name@ == name
            &&& forall|i: int| 0 <= i < r ==> q[i].player.name@ != name
        },
    decreases q.len(),
{
    if q.len() > 0 && q[0].player.name@ != name {
        lemma_first_with_name(q.drop_first(), name);
        assert forall|i: int| 1 <= i < q.len() implies q.drop_first()[i - 1] == q[i] by {}
    }
}

/// One open room: its parameters, state machine position, queue, game
/// assignment and strike bookkeeping. The host driver, chat transport
/// and leaderboard task live outside; every handler returns the actions
/// the driver must carry out.
pub struct BonkRoom {
    pub room_parameters: RoomParameters,
    pub state: RoomState,
    pub queue: Vec<QueueEntry>,
    pub game_players: GamePlayers,
    /// Coin flip deciding which Football side the captain sits on.
    pub team_flip: bool,
    /// Struck flags aligned with the map list.
    pub map_strikes: Vec<bool>,
    /// Strikes used, per player id.
    pub player_strikes: Vec<(i32, u32)>,
    /// Last reminder emitted for the current timed state.
    pub warning_step: u32,
    /// Set by a graceful close; the room terminates at the next reset.
    pub closing: bool,
    /// Whether a leaderboard task is attached to this room.
    pub has_leaderboard: bool,
    /// Ids that voted to reset the current game.
    pub reset_votes: Vec<i32>,
    /// Ids that voted to cancel the current game.
    pub cancel_votes: Vec<i32>,
}

impl BonkRoom {
    /// Well-formedness: sound parameters, strike flags aligned with the
    /// map list, unique queue names, per-player strike counts within the
    /// allowance, and at least one unstruck map while striking runs.
    pub open spec fn wf(self) -> bool {
        &&& self.room_parameters.wf()
        &&& self.map_strikes@.len() == self.room_parameters.maps@.len()
        &&& queue_names_unique(self.queue@)
        &&& forall|i: int|
            0 <= i < self.player_strikes@.len()
                ==> (#[trigger] self.player_strikes@[i]).1
                <= self.room_parameters.strike_num
        &&& forall|i: int, j: int|
            0 <= i < j < self.player_strikes@.len() ==> self.player_strikes@[i].0
                != self.player_strikes@[j].0
        &&& self.state == RoomState::MapSelection ==> count_false(self.map_strikes@) >= 1
        &&& self.game_players@ matches GamePlayersV::Teams { teams, picker_idx }
            ==> teams.len() <= 4 && picker_idx <= teams.len()
    }

    /// A new room in `Idle` with an empty queue.
    pub fn new(room_parameters: RoomParameters, has_leaderboard: bool) -> (room: BonkRoom)
        requires
            room_parameters.wf(),
        ensures
            room.wf(),
            room.state == RoomState::Idle,
            room.queue@.len() == 0,
            room.room_parameters == room_parameters,
            room.has_leaderboard == has_leaderboard,
            !room.closing,
            room.map_strikes@.len() == room_parameters.maps@.len(),
            forall|i: int| 0 <= i < room.map_strikes@.len() ==> !room.map_strikes@[i],
    {
        let n = room_parameters.maps.len();
        let mut map_strikes: Vec<bool> = Vec::new();
        let mut i: usize = 0;
        while i < n
            invariant
                i <= n,
                map_strikes@.len() == i,
                forall|j: int| 0 <= j < i ==> !map_strikes@[j],
            decreases n - i,
        {
            map_strikes.push(false);
            i += 1;
        }
        let empty_game = match room_parameters.queue {
            Queue::Singles => GamePlayers::Singles { picker: None, picked: None },
            Queue::Teams => GamePlayers::Teams { teams: Vec::new(), picker_idx: 0 },
            Queue::FFA => GamePlayers::FFA { in_game: Vec::new() },
        };
        BonkRoom {
            room_parameters,
            state: RoomState::Idle,
            queue: Vec::new(),
            game_players: empty_game,
            team_flip: false,
            map_strikes,
            player_strikes: Vec::new(),
            warning_step: 0,
            closing: false,
            has_leaderboard,
            reset_votes: Vec::new(),
            cancel_votes: Vec::new(),
        }
    }

    /// The queued players the host currently lists, in queue order.
    pub fn in_room_queue(&self) -> (q: Vec<Player>)
        ensures
            plv(q@) == players_view(in_room_filter(self.queue@)),
    {
        let mut q: Vec<Player> = Vec::new();
        let n = self.queue.len();
        let mut i: usize = 0;
        proof {
            reveal(Seq::filter);
            assert(self.queue@.take(0) =~= Seq::<QueueEntry>::empty());
            assert(plv(q@) =~= players_view(in_room_filter(self.queue@.take(0))));
        }
        while i < n
            invariant
                i <= n,
                n == self.queue@.len(),
                plv(q@) == players_view(in_room_filter(self.queue@.take(i as int))),
            decreases n - i,
        {
            let ghost t1 = self.queue@.take(i + 1);
            let ghost t0 = self.queue@.take(i as int);
            proof {
                reveal(Seq::filter);
                assert(t1.drop_last() =~= t0);
                assert(t1.last() == self.queue@[i as int]);
            }
            if self.queue[i].player.in_room {
                let ghost qprev = q@;
                q.push(self.queue[i].player.duplicate());
                proof {
                    assert(in_room_filter(t1) == in_room_filter(t0).push(
                        self.queue@[i as int],
                    ));
                    assert(q@ == qprev.push(q@.last()));
                    assert(q@.last()@ == self.queue@[i as int].player@);
                    assert(plv(q@) =~= plv(qprev).push(q@.last()@));
                    assert(players_view(in_room_filter(t0).push(self.queue@[i as int]))
                        =~= players_view(in_room_filter(t0)).push(
                        self.queue@[i as int].player@,
                    ));
                    assert(plv(q@) =~= players_view(in_room_filter(t1)));
                }
            } else {
                proof {
                    assert(in_room_filter(t1) == in_room_filter(t0));
                }
            }
            i += 1;
        }
        proof {
            assert(self.queue@.take(n as int) == self.queue@);
        }
        q
    }

    /// Remove the first queue spot holding this id, if any.
    pub fn remove_queue_by_id(&mut self, id: i32)
        requires
            old(self).wf(),
        ensures
            final(self).wf(),
            ({
                let r = first_with_id(old(self).queue@, id);
                if r == -1 {
                    final(self).queue == old(self).queue
                } else {
                    final(self).queue@ == old(self).queue@.remove(r)
                }
            }),
            *final(self) == (BonkRoom { queue: final(self).queue, ..*old(self) }),
    {
        let ghost s0 = *self;
        let n = self.queue.len();
        let mut i: usize = 0;
        while i < n
            invariant
                i <= n,
                s0.wf(),
                s0 == *old(self),
                n == s0.queue@.len(),
                *self == s0,
                forall|j: int| 0 <= j < i ==> s0.queue@[j].player.id != id,
            decreases n - i,
        {
            if self.queue[i].player.id == id {
                proof {
                    lemma_first_with_id(s0.queue@, id);
                    assert(first_with_id(s0.queue@, id) == i as int);
                }
                self.queue.remove(i);
                proof {
                    lemma_remove_keeps_unique(s0.queue@, i as int);
                }
                return;
            }
            i += 1;
        }
        proof {
            lemma_first_with_id(s0.queue@, id);
        }
    }

    /// Move the first queue spot holding this id to the back of the
    /// queue, if any; everything else keeps its order.
    pub fn rotate_queue_to_back(&mut self, id: i32)
        requires
            old(self).wf(),
        ensures
            final(self).wf(),
            ({
                let r = first_with_id(old(self).queue@, id);
                if r == -1 {
                    final(self).queue == old(self).queue
                } else {
                    final(self).queue@ == old(self).queue@.remove(r).push(
                        old(self).queue@[r],
                    )
                }
            }),
            final(self).queue@.to_multiset() == old(self).queue@.to_multiset(),
            names_seq(final(self).queue@).to_multiset() == names_seq(
                old(self).queue@,
            ).to_multiset(),
            stamps_seq(final(self).queue@).to_multiset() == stamps_seq(
                old(self).queue@,
            ).to_multiset(),
            *final(self) == (BonkRoom { queue: final(self).queue, ..*old(self) }),
    {
        let ghost s0 = *self;
        let n = self.queue.len();
        let mut i: usize = 0;
        while i < n
            invariant
                i <= n,
                s0.wf(),
                s0 == *old(self),
                n == s0.queue@.len(),
                *self == s0,
                forall|j: int| 0 <= j < i ==> s0.queue@[j].player.id != id,
            decreases n - i,
        {
            if self.queue[i].player.id == id {
                proof {
                    lemma_first_with_id(s0.queue@, id);
                    assert(first_with_id(s0.queue@, id) == i as int);
                }
                let ghost q0 = self.queue@;
                let spot = self.queue.remove(i);
                self.queue.push(spot);
                proof {
                    let r = i as int;
                    assert(self.queue@ == q0.remove(r).push(q0[r]));
                    lemma_rotate_keeps_unique(q0, r);
                    lemma_rotate_multiset(q0, r);
                    assert(names_seq(self.queue@) =~= names_seq(q0).remove(r).push(
                        names_seq(q0)[r],
                    ));
                    lemma_rotate_multiset(names_seq(q0), r);
                    assert(stamps_seq(self.queue@) =~= stamps_seq(q0).remove(r).push(
                        stamps_seq(q0)[r],
                    ));
                    lemma_rotate_multiset(stamps_seq(q0), r);
                }
                return;
            }
            i += 1;
        }
        proof {
            lemma_first_with_id(s0.queue@, id);
        }
    }

    /// Clear every queued player's command-readiness.
    pub fn clear_ready_cmds(&mut self)
        requires
            old(self).wf(),
        ensures
            final(self).wf(),
            final(self).queue@.len() == old(self).queue@.len(),
            forall|i: int|
                0 <= i < old(self).queue@.len() ==> (#[trigger] final(self).queue@[i]).player@
                    == (PlayerV { ready_cmd: false, ..old(self).queue@[i].player@ })
                    && final(self).queue@[i].last_seen == old(self).queue@[i].last_seen,
            *final(self) == (BonkRoom { queue: final(self).queue, ..*old(self) }),
    {
        let ghost s0 = *self;
        let n = self.queue.len();
        let mut nq: Vec<QueueEntry> = Vec::new();
        let mut i: usize = 0;
        while i < n
            invariant
                i <= n,
                s0 == *old(self),
                *self == s0,
                s0.wf(),
                n == s0.queue@.len(),
                nq@.len() == i,
                forall|j: int|
                    0 <= j < i ==> (#[trigger] nq@[j]).player@ == (PlayerV {
                        ready_cmd: false,
                        ..s0.queue@[j].player@
                    }) && nq@[j].last_seen == s0.queue@[j].last_seen,
            decreases n - i,
        {
            let e = &self.queue[i];
            let mut p = e.player.duplicate();
            p.ready_cmd = false;
            nq.push(QueueEntry { last_seen: e.last_seen, player: p });
            i += 1;
        }
        self.queue = nq;
        proof {
            assert(queue_names_unique(self.queue@));
        }
    }

    /// Send every queued player to spectator and clear their
    /// command-readiness.
    pub fn all_queue_to_spec(&mut self)
        requires
            old(self).wf(),
        ensures
            final(self).wf(),
            final(self).queue@.len() == old(self).queue@.len(),
            forall|i: int|
                0 <= i < old(self).queue@.len() ==> (#[trigger] final(self).queue@[i]).player@
                    == (PlayerV { team: 0, ready_cmd: false, ..old(self).queue@[i].player@ })
                    && final(self).queue@[i].last_seen == old(self).queue@[i].last_seen,
            *final(self) == (BonkRoom { queue: final(self).queue, ..*old(self) }),
    {
        let ghost s0 = *self;
        let n = self.queue.len();
        let mut nq: Vec<QueueEntry> = Vec::new();
        let mut i: usize = 0;
        while i < n
            invariant
                i <= n,
                s0 == *old(self),
                *self == s0,
                s0.wf(),
                n == s0.queue@.len(),
                nq@.len() == i,
                forall|j: int|
                    0 <= j < i ==> (#[trigger] nq@[j]).player@ == (PlayerV {
                        team: 0,
                        ready_cmd: false,
                        ..s0.queue@[j].player@
                    }) && nq@[j].last_seen == s0.queue@[j].last_seen,
            decreases n - i,
        {
            let e = &self.queue[i];
            let mut p = e.player.duplicate();
            p.team = 0;
            p.ready_cmd = false;
            nq.push(QueueEntry { last_seen: e.last_seen, player: p });
            i += 1;
        }
        self.queue = nq;
        proof {
            assert(queue_names_unique(self.queue@));
        }
    }

    /// Record the team of the first queued player with this id.
    pub fn set_queue_team(&mut self, id: i32, team: i32)
        requires
            old(self).wf(),
        ensures
            final(self).wf(),
            final(self).queue@.len() == old(self).queue@.len(),
            ({
                let r = first_with_id(old(self).queue@, id);
                &&& forall|i: int|
                    0 <= i < old(self).queue@.len() && i != r
                        ==> #[trigger] final(self).queue@[i] == old(self).queue@[i]
                &&& r != -1 ==> final(self).queue@[r].player@ == (PlayerV {
                    team: team as i32,
                    ..old(self).queue@[r].player@
                }) && final(self).queue@[r].last_seen == old(self).queue@[r].last_seen
            }),
            *final(self) == (BonkRoom { queue: final(self).queue, ..*old(self) }),
    {
        proof {
            lemma_first_with_id(self.queue@, id);
        }
        let ghost s0 = *self;
        let n = self.queue.len();
        let mut i: usize = 0;
        while i < n
            invariant
                i <= n,
                s0 == *old(self),
                *self == s0,
                s0.wf(),
                n == s0.queue@.len(),
                forall|j: int| 0 <= j < i ==> s0.queue@[j].player.id != id,
            decreases n - i,
        {
            if self.queue[i].player.id == id {
                proof {
                    lemma_first_with_id(s0.queue@, id);
                    assert(first_with_id(s0.queue@, id) == i as int);
                }
                let e = self.queue.remove(i);
                let mut p = e.player;
                p.team = team;
                self.queue.insert(i, QueueEntry { last_seen: e.last_seen, player: p });
                proof {
                    assert forall|j: int|
                        0 <= j < s0.queue@.len() && j != i as int implies #[trigger] self
                        .queue@[j] == s0.queue@[j] by {
                        assert(self.queue@[j] == s0.queue@.remove(i as int).insert(
                            i as int,
                            self.queue@[i as int],
                        )[j]);
                    }
                    assert(queue_names_unique(self.queue@));
                }
                return;
            }
            i += 1;
        }
        proof {
            lemma_first_with_id(s0.queue@, id);
        }
    }

    /// Record command-readiness for the first queued player with this
    /// id.
    pub fn set_queue_ready_cmd(&mut self, id: i32)
        requires
            old(self).wf(),
        ensures
            final(self).wf(),
            final(self).queue@.len() == old(self).queue@.len(),
            ({
                let r = first_with_id(old(self).queue@, id);
                &&& forall|i: int|
                    0 <= i < old(self).queue@.len() && i != r
                        ==> #[trigger] final(self).queue@[i] == old(self).queue@[i]
                &&& r != -1 ==> final(self).queue@[r].player@ == (PlayerV {
                    ready_cmd: true,
                    ..old(self).queue@[r].player@
                }) && final(self).queue@[r].last_seen == old(self).queue@[r].last_seen
            }),
            *final(self) == (BonkRoom { queue: final(self).queue, ..*old(self) }),
    {
        proof {
            lemma_first_with_id(self.queue@, id);
        }
        let ghost s0 = *self;
        let n = self.queue.len();
        let mut i: usize = 0;
        while i < n
            invariant
                i <= n,
                s0 == *old(self),
                *self == s0,
                s0.wf(),
                n == s0.queue@.len(),
                forall|j: int| 0 <= j < i ==> s0.queue@[j].player.id != id,
            decreases n - i,
        {
            if self.queue[i].player.id == id {
                proof {
                    lemma_first_with_id(s0.queue@, id);
                    assert(first_with_id(s0.queue@, id) == i as int);
                }
                let e = self.queue.remove(i);
                let mut p = e.player;
                p.ready_cmd = true;
                self.queue.insert(i, QueueEntry { last_seen: e.last_seen, player: p });
                proof {
                    assert forall|j: int|
                        0 <= j < s0.queue@.len() && j != i as int implies #[trigger] self
                        .queue@[j] == s0.queue@[j] by {
                        assert(self.queue@[j] == s0.queue@.remove(i as int).insert(
                            i as int,
                            self.queue@[i as int],
                        )[j]);
                    }
                    assert(queue_names_unique(self.queue@));
                }
                return;
            }
            i += 1;
        }
        proof {
            lemma_first_with_id(s0.queue@, id);
        }
    }
}

/// The players of a queue segment, as mathematical images.
pub open spec fn players_view(q: Seq<QueueEntry>) -> Seq<PlayerV> {
    q.map_values(|e: QueueEntry| e.player@)
}

/// The queue spots whose player the host currently lists.
pub open spec fn in_room_filter(q: Seq<QueueEntry>) -> Seq<QueueEntry> {
    q.filter(|e: QueueEntry| e.player.in_room)
}

/// Mathematical images of a list of players.
pub open spec fn plv(q: Seq<Player>) -> Seq<PlayerV> {
    q.map_values(|p: Player| p@)
}

/// Number of unstruck entries in a strike table.
pub open spec fn count_false(s: Seq<bool>) -> int
    decreases s.len(),
{
    if s.len() == 0 {
        0
    } else {
        count_false(s.drop_last()) + if s.last() { 0int } else { 1int }
    }
}

/// The strike table never marks more maps than it holds: the struck
/// count `s.len() - count_false(s)` always lies between zero and the
/// map count. With well-formedness aligning the table to the map
/// list, a room can never have struck more maps than it has.
pub proof fn lemma_struck_count_bounded(s: Seq<bool>)
    ensures
        0 <= count_false(s),
        count_false(s) <= s.len(),
    decreases s.len(),
{
    if s.len() > 0 {
        lemma_struck_count_bounded(s.drop_last());
    }
}

proof fn lemma_remove_keeps_unique(q: Seq<QueueEntry>, r: int)
    requires
        0 <= r < q.len(),
        queue_names_unique(q),
    ensures
        queue_names_unique(q.remove(r)),
{
    let q2 = q.remove(r);
    assert forall|i: int, j: int| 0 <= i < j < q2.len() implies q2[i].player.name@
        != q2[j].player.name@ by {
        let oi = if i < r { i } else { i + 1 };
        let oj = if j < r { j } else { j + 1 };
        assert(q2[i] == q[oi]);
        assert(q2[j] == q[oj]);
    }
}

proof fn lemma_rotate_keeps_unique(q: Seq<QueueEntry>, r: int)
    requires
        0 <= r < q.len(),
        queue_names_unique(q),
    ensures
        queue_names_unique(q.remove(r).push(q[r])),
{
    let q2 = q.remove(r).push(q[r]);
    assert forall|i: int, j: int| 0 <= i < j < q2.len() implies q2[i].player.name@
        != q2[j].player.name@ by {
        let oi = if i < r { i } else if i == q2.len() - 1 { r } else { i + 1 };
        let oj = if j < r { j } else if j == q2.len() - 1 { r } else { j + 1 };
        assert(q2[i] == q[oi]);
        assert(q2[j] == q[oj]);
    }
}

/// Rotating one element to the back of a sequence keeps its multiset.
pub proof fn lemma_rotate_multiset<A>(q: Seq<A>, r: int)
    requires
        0 <= r < q.len(),
    ensures
        q.remove(r).push(q[r]).to_multiset() == q.to_multiset(),
{
    broadcast use vstd::seq_lib::group_to_multiset_ensures;

    q.to_multiset_ensures();
    assert(q.remove(r).push(q[r]).to_multiset() =~= q.to_multiset()) by {
        assert(q.remove(r).to_multiset() =~= q.to_multiset().remove(q[r]));
        assert(q.remove(r).push(q[r]).to_multiset() =~= q.remove(r).to_multiset().insert(q[r]));
        assert(q.to_multiset().contains(q[r]));
    }
}

/// The queued names, in order.
pub open spec fn names_seq(q: Seq<QueueEntry>) -> Seq<Seq<char>> {
    q.map_values(|e: QueueEntry| e.player.name@)
}

/// The queued snapshot stamps, in order.
pub open spec fn stamps_seq(q: Seq<QueueEntry>) -> Seq<u64> {
    q.map_values(|e: QueueEntry| e.last_seen)
}

} // verus!
