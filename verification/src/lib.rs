//! Match-making room controller and leaderboard core for a hosted
//! browser-game bot.
//!
//! The crate drives one state machine per open room: it queues players,
//! selects captains, runs team picking, randomizes and strikes maps, counts
//! ready players, detects game completion and reorders the queue afterwards.
//! A leaderboard module renders placement summaries and coalesces board
//! refreshes. All decisions are made here on plain values; the host driver,
//! the database and the chat transport live outside the crate and only hand
//! values in and carry actions out.

pub mod bonk_room;
pub mod bonk_commands;
pub mod events;
pub mod leaderboard;
pub mod room_maker;
pub mod chat;
pub mod text;
mod random;
