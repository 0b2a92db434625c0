//! Immutable room parameters and the game-mode and queue-kind enums.

use vstd::prelude::*;

verus! {

/// Game mode of a room.
#[derive(Clone, Copy, PartialEq, Eq, Structural)]
pub enum Mode {
    Football,
    Simple,
    DeathArrows,
    Arrows,
    Grapple,
    VTOL,
    Classic,
}

/// Kind of queue a room runs: one-versus-one, fixed teams, or
/// free-for-all.
#[derive(Clone, Copy, PartialEq, Eq, Structural)]
pub enum Queue {
    Singles,
    Teams,
    FFA,
}

/// Parameters a room is opened with. Fixed after the room opens, with one
/// exception: the team count is clamped on the first launch, and a
/// free-for-all queue is coerced to singles under Football.
#[derive(Clone)]
pub struct RoomParameters {
    pub name: String,
    pub password: Option<String>,
    pub max_players: i32,
    pub min_level: i32,
    pub unlisted: bool,
    pub headless: bool,
    pub mode: Mode,
    pub queue: Queue,
    pub rounds: i64,
    pub maps: Vec<String>,
    /// Map strikes each in-game player may use.
    pub strike_num: u32,
    /// Seconds on the strike timer.
    pub strike_time: u64,
    pub team_size: usize,
    pub team_num: usize,
    pub ffa_min: usize,
    pub ffa_max: usize,
    /// Seconds the room idles before trying to launch.
    pub idle_time: u64,
    /// Seconds a captain has to pick.
    pub pick_time: u64,
    /// Seconds the players have to ready up.
    pub ready_time: u64,
    /// Seconds a game may run.
    pub game_time: u64,
    /// Abbreviation of an attached leaderboard, if any.
    pub leaderboard: Option<String>,
}

impl RoomParameters {
    /// Structural soundness of the parameters: at least one map to load,
    /// no empty teams, and counts small enough that quorum arithmetic
    /// cannot overflow.
    pub open spec fn wf(self) -> bool {
        &&& self.maps@.len() >= 1
        &&& self.team_size >= 1
        &&& self.team_num >= 1
        &&& self.ffa_min >= 1
        &&& self.strike_time <= 0xffff_ffff_ffff_0000u64
    }
}

/// Milliseconds the room maker keeps between room creations.
pub const CREATION_SPACING_MS: u64 = 5000;

/// Milliseconds a graceful close of all rooms may take before it
/// escalates to a forced close.
pub const CLOSE_DEADLINE_MS: u64 = 600000;

/// How long to wait before creating the next room: enough that two
/// creations never start within the spacing of one another.
pub fn creation_wait(last_creation: Option<u64>, now: u64) -> (wait: u64)
    requires
        last_creation matches Some(t) ==> t <= now,
    ensures
        match last_creation {
            None => wait == 0,
            Some(t) => wait as int == if now - t >= CREATION_SPACING_MS {
                0int
            } else {
                t + CREATION_SPACING_MS - now
            },
        },
{
    match last_creation {
        None => 0,
        Some(t) => {
            if now - t >= CREATION_SPACING_MS {
                0
            } else {
                CREATION_SPACING_MS - (now - t)
            }
        },
    }
}

/// The room maker's bounded retry count: an attempt at making a room
/// may be repeated until the allowance is spent.
pub struct RetryPolicy {
    /// Attempts already failed.
    pub failures: u32,
    /// Failed attempts allowed before the error surfaces.
    pub allowance: u32,
}

impl RetryPolicy {
    /// A fresh policy with this many retries allowed.
    pub fn new(allowance: u32) -> (r: RetryPolicy)
        ensures
            r.failures == 0,
            r.allowance == allowance,
    {
        RetryPolicy { failures: 0, allowance }
    }

    /// An attempt failed: count it, and say whether another may run.
    pub fn on_failure(&mut self) -> (retry: bool)
        requires
            old(self).failures < u32::MAX,
        ensures
            final(self).failures == old(self).failures + 1,
            final(self).allowance == old(self).allowance,
            retry == (final(self).failures < final(self).allowance),
    {
        self.failures = self.failures + 1;
        self.failures < self.allowance
    }
}

/// Whether a graceful close has outrun its deadline and must escalate
/// to a forced close.
pub fn close_escalates(started: u64, now: u64) -> (b: bool)
    requires
        started <= now,
    ensures
        b == (now - started > CLOSE_DEADLINE_MS),
{
    now - started > CLOSE_DEADLINE_MS
}

} // verus!
