//! Core of a multiplayer player-state replication protocol for a small
//! platformer: an authoritative server that accepts join/move/leave events,
//! tracks per-player liveness, periodically broadcasts interest-filtered
//! snapshots, and arbitrates a shared highscore record; and a client that
//! turns incoming snapshots into spawned/updated/despawned remote-player
//! ghosts. Transport, rendering and input stay outside this crate; the
//! library works on plain values and hands actions back to its caller.

pub mod client;
pub mod codec;
pub mod ghost_player;
pub mod highscore;
pub mod server;
pub mod session;
pub mod text;
pub mod timer;
pub mod wire;
