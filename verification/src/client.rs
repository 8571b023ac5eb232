//! The client side of the protocol: the connection controller's decisions
//! (what to send when the connection comes up, goes away, or a cadence
//! timer fires), the dispatcher for inbound server messages, and the
//! highscore display reconciler. Opening and polling the transport itself
//! stays with the caller; this module turns its events into protocol
//! messages and display updates.

use vstd::prelude::*;

use crate::text::{dec_digits, u64_to_string};
use crate::timer::RepeatingTimer;
use crate::wire::{Highscore, PlayerMessage, PlayerMovedUpdate, PlayerMovement, ServerMessage};

verus! {

/// Event fired when the server announces a highscore.
#[derive(Debug, Clone, Copy, PartialEq, Eq, Structural)]
pub struct HighscoreInfoEvent(pub Highscore);

/// Event fired when the server sends the positions of the remote players.
#[derive(Debug, Clone, PartialEq, Eq)]
pub struct GhostPlayersMovedEvent(pub Vec<PlayerMovedUpdate>);

/// Where one inbound server message goes.
#[derive(Debug, Clone, PartialEq, Eq)]
pub enum RoutedServerMessage {
    /// A pong; nothing to do beyond noting liveness.
    Pong,
    /// Hand the snapshot to the ghost reconciliation engine.
    GhostPlayersMoved(GhostPlayersMovedEvent),
    /// Hand the announcement to the highscore reconciler.
    HighscoreInfo(HighscoreInfoEvent),
}

/// The lifecycle of the client's one outbound connection.
#[derive(Debug, Clone, Copy, PartialEq, Eq, Structural)]
pub enum ConnectionStatus {
    /// Opened, not yet confirmed by the transport.
    Connecting,
    /// Confirmed; the join has been sent.
    Connected,
    /// Lost; the user sees a lost-connection indication, no reconnect.
    Lost,
}

/// The connection controller's own state: where the one outbound
/// connection stands.
#[derive(Debug, Clone, Copy, PartialEq, Eq, Structural)]
pub struct ClientConnection {
    pub status: ConnectionStatus,
}

impl ClientConnection {
    /// A controller that has just asked the transport to connect.
    pub fn new() -> (c: ClientConnection)
        ensures
            c.status is Connecting,
    {
        ClientConnection { status: ConnectionStatus::Connecting }
    }

    /// The transport confirmed the connection: join the game, reporting the
    /// local player's initial movement (zero velocity at the origin). The
    /// connection alone does not mean the player has joined; joining is
    /// this message.
    pub fn handle_connection_event(&mut self) -> (m: PlayerMessage)
        ensures
            final(self).status is Connected,
            m == PlayerMessage::JoinGame(PlayerMovement::zero_spec()),
    {
        self.status = ConnectionStatus::Connected;
        PlayerMessage::JoinGame(PlayerMovement::zero())
    }

    /// The transport reported the connection lost.
    pub fn handle_connection_lost_event(&mut self)
        ensures
            final(self).status is Lost,
    {
        self.status = ConnectionStatus::Lost;
    }

    /// Whether the connection is up; messages are sent only while it is.
    pub fn is_player_connected(&self) -> (connected: bool)
        ensures
            connected == (self.status is Connected),
    {
        match self.status {
            ConnectionStatus::Connected => true,
            _ => false,
        }
    }
}

/// Dispatch one inbound server message to the system responsible for it.
pub fn handle_server_messages(message: ServerMessage) -> (routed: RoutedServerMessage)
    ensures
        message is Pong ==> routed == RoutedServerMessage::Pong,
        forall|h: Highscore|
            message == ServerMessage::InformAboutHighscore(h) ==> routed
                == RoutedServerMessage::HighscoreInfo(HighscoreInfoEvent(h)),
        (message matches ServerMessage::UpdateMovedPlayers(updates) ==> (routed matches
        RoutedServerMessage::GhostPlayersMoved(ev) && ev.0@ == updates@)),
{
    match message {
        ServerMessage::Pong => RoutedServerMessage::Pong,
        ServerMessage::UpdateMovedPlayers(updates) => RoutedServerMessage::GhostPlayersMoved(
            GhostPlayersMovedEvent(updates),
        ),
        ServerMessage::InformAboutHighscore(h) => RoutedServerMessage::HighscoreInfo(
            HighscoreInfoEvent(h),
        ),
    }
}

/// The movement-submission cadence: on each tick, advance the submission
/// timer by the elapsed time, and when it fires, report the local player's
/// current movement to the server. The submission interval is deliberately
/// far tighter than the server's broadcast interval: the client is the
/// authoritative source of its own movement.
pub fn update_player_movement(
    timer: &mut RepeatingTimer,
    delta_millis: u64,
    movement: PlayerMovement,
) -> (m: Option<PlayerMessage>)
    requires
        old(timer).wf(),
    ensures
        final(timer).wf(),
        final(timer).interval_millis == old(timer).interval_millis,
        old(timer).elapsed_millis + delta_millis >= old(timer).interval_millis ==> m == Some(
            PlayerMessage::PlayerMoved(movement),
        ),
        old(timer).elapsed_millis + delta_millis < old(timer).interval_millis ==> m is None
            && final(timer).elapsed_millis == old(timer).elapsed_millis + delta_millis,
{
    let fired = timer.tick(delta_millis);
    if fired {
        Some(PlayerMessage::PlayerMoved(movement))
    } else {
        None
    }
}

/// The process is exiting: say goodbye. The message is sent best-effort,
/// with no acknowledgment awaited; the liveness reaper covers the case
/// where it never arrives.
pub fn on_process_exit() -> (m: PlayerMessage)
    ensures
        m == PlayerMessage::LeaveGame,
{
    PlayerMessage::LeaveGame
}

/// The player finished the level: propose the elapsed time as a highscore
/// candidate, subject to server arbitration.
pub fn on_player_finish_level(elapsed_time_seconds: u64) -> (m: PlayerMessage)
    ensures
        m == PlayerMessage::RequestPossibleHighscore(
            Highscore { time_in_seconds: elapsed_time_seconds },
        ),
{
    PlayerMessage::RequestPossibleHighscore(Highscore { time_in_seconds: elapsed_time_seconds })
}

/// The locally displayed best time; zero until a real highscore arrives.
#[derive(Debug, Clone, Copy, PartialEq, Eq, Structural)]
pub struct HighscoreText {
    pub value: u64,
}

/// The label shown beside the displayed best time.
pub open spec fn highscore_label_spec(value: u64) -> Seq<char> {
    "Highscore: "@ + dec_digits(value as nat)
}

/// Apply a server highscore announcement to the displayed best time. An
/// announcement of the unset sentinel changes nothing (there is no
/// highscore yet); a real time overwrites the display and yields the new
/// label text.
pub fn update_highscore(text: &mut HighscoreText, event: &HighscoreInfoEvent) -> (label: Option<
    String,
>)
    ensures
        event.0.time_in_seconds != 0 ==> final(text).value == event.0.time_in_seconds && (
        label matches Some(s) && s@ == highscore_label_spec(event.0.time_in_seconds)),
        event.0.time_in_seconds == 0 ==> final(text).value == old(text).value && label is None,
{
    if event.0.time_in_seconds != 0 {
        text.value = event.0.time_in_seconds;
        let mut label = String::from_str("Highscore: ");
        let number = u64_to_string(text.value);
        label.append(number.as_str());
        Some(label)
    } else {
        None
    }
}

} // verus!
