//! The message vocabulary exchanged between client and server: no logic,
//! just the shapes that the rest of the crate routes, stores and encodes.

use vstd::prelude::*;

verus! {

/// Kinematic state of one player: velocity and translation, by component.
/// Each component carries an IEEE-754 single-precision value as its raw
/// 32-bit pattern. The protocol core never does arithmetic on these values;
/// it only stores and forwards them, so the bit pattern is the whole truth
/// about a component. Callers that live in floating point convert with
/// `f32::to_bits` / `f32::from_bits` at the boundary.
#[derive(Debug, Clone, Copy, PartialEq, Eq, Structural)]
pub struct PlayerMovement {
    pub velocity_x: u32,
    pub velocity_y: u32,
    pub translation_x: u32,
    pub translation_y: u32,
}

impl PlayerMovement {
    /// The all-zero movement (zero velocity at the origin; the bit pattern
    /// of +0.0 is 0). Sent with the initial join.
    pub open spec fn zero_spec() -> PlayerMovement {
        PlayerMovement { velocity_x: 0, velocity_y: 0, translation_x: 0, translation_y: 0 }
    }

    pub fn zero() -> (m: PlayerMovement)
        ensures
            m == PlayerMovement::zero_spec(),
    {
        PlayerMovement { velocity_x: 0, velocity_y: 0, translation_x: 0, translation_y: 0 }
    }
}

/// One entry of a snapshot: the id of a remote player together with its
/// movement. Needed to show the position of other players in the background
/// of the game.
#[derive(Debug, Clone, Copy, PartialEq, Eq, Structural)]
pub struct PlayerMovedUpdate {
    pub id: u64,
    pub movement: PlayerMovement,
}

/// The current best time for the level. If `time_in_seconds` is zero there
/// is no highscore yet.
#[derive(Debug, Clone, Copy, PartialEq, Eq, Structural)]
pub struct Highscore {
    pub time_in_seconds: u64,
}

/// Messages sent from the player to the server.
#[derive(Debug, Clone, Copy, PartialEq, Eq, Structural)]
pub enum PlayerMessage {
    Ping,
    JoinGame(PlayerMovement),
    PlayerMoved(PlayerMovement),
    RequestPossibleHighscore(Highscore),
    LeaveGame,
}

/// Messages sent from the server to the player.
#[derive(Debug, Clone, PartialEq, Eq)]
pub enum ServerMessage {
    Pong,
    InformAboutHighscore(Highscore),
    UpdateMovedPlayers(Vec<PlayerMovedUpdate>),
}

} // verus!
