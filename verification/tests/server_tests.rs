use replication::server::{Outbound, ServerState};
use replication::wire::{Highscore, PlayerMessage, PlayerMovement, ServerMessage};

fn zero() -> PlayerMovement {
    PlayerMovement { velocity_x: 0, velocity_y: 0, translation_x: 0, translation_y: 0 }
}

fn movement(vx: f32, vy: f32, tx: f32, ty: f32) -> PlayerMovement {
    PlayerMovement {
        velocity_x: vx.to_bits(),
        velocity_y: vy.to_bits(),
        translation_x: tx.to_bits(),
        translation_y: ty.to_bits(),
    }
}

#[test]
fn test_player_join() {
    let mut server = ServerState::new();
    let _ = server.handle_player_message(
        1,
        PlayerMessage::JoinGame(PlayerMovement {
            velocity_x: 0.0f32.to_bits(),
            velocity_y: 0.0f32.to_bits(),
            translation_x: 0.0f32.to_bits(),
            translation_y: 0.0f32.to_bits(),
        }),
    );
    assert!(server.sessions.len() == 1);
}

// Scenario: a join from id 7 with zero movement leaves one session with zero
// velocity, and the server immediately informs id 7 of the (unset) record.
#[test]
fn join_creates_session_and_informs_highscore() {
    let mut server = ServerState::new();
    let out = server.handle_player_message(7, PlayerMessage::JoinGame(zero()));
    assert_eq!(server.sessions.len(), 1);
    let session = server.sessions.get(0);
    assert_eq!(session.client_id, 7);
    assert_eq!(f32::from_bits(session.movement.velocity_x), 0.0);
    assert_eq!(f32::from_bits(session.movement.velocity_y), 0.0);
    assert_eq!(session.inactive_millis, 0);
    assert_eq!(
        out,
        vec![Outbound::Send {
            to: 7,
            message: ServerMessage::InformAboutHighscore(Highscore { time_in_seconds: 0 }),
        }]
    );
}

// A duplicate join re-initializes the session rather than adding a second one.
#[test]
fn duplicate_join_overwrites_session() {
    let mut server = ServerState::new();
    let m1 = movement(1.0, 2.0, 3.0, 4.0);
    let _ = server.handle_player_message(7, PlayerMessage::JoinGame(m1));
    let _ = server.handle_player_message(7, PlayerMessage::PlayerMoved(movement(9.0, 9.0, 9.0, 9.0)));
    let out = server.handle_player_message(7, PlayerMessage::JoinGame(zero()));
    assert_eq!(server.sessions.len(), 1);
    assert_eq!(server.sessions.get(0).movement, zero());
    assert_eq!(server.sessions.get(0).inactive_millis, 0);
    assert_eq!(out.len(), 1);
}

#[test]
fn ping_is_answered_with_pong_and_nothing_else() {
    let mut server = ServerState::new();
    let out = server.handle_player_message(3, PlayerMessage::Ping);
    assert_eq!(out, vec![Outbound::Send { to: 3, message: ServerMessage::Pong }]);
    assert_eq!(server.sessions.len(), 0);
}

#[test]
fn movement_updates_session_and_resets_timer() {
    let mut server = ServerState::new();
    let _ = server.handle_player_message(7, PlayerMessage::JoinGame(zero()));
    let _ = server.remove_inactive_players(4_000, 10_000);
    assert_eq!(server.sessions.get(0).inactive_millis, 4_000);
    let m = movement(1.5, -2.0, 10.0, 20.0);
    let out = server.handle_player_message(7, PlayerMessage::PlayerMoved(m));
    assert!(out.is_empty());
    assert_eq!(server.sessions.get(0).movement, m);
    assert_eq!(server.sessions.get(0).inactive_millis, 0);
}

#[test]
fn movement_for_unknown_id_is_dropped() {
    let mut server = ServerState::new();
    let out = server.handle_player_message(42, PlayerMessage::PlayerMoved(movement(1.0, 1.0, 1.0, 1.0)));
    assert!(out.is_empty());
    assert_eq!(server.sessions.len(), 0);
}

#[test]
fn leave_destroys_session() {
    let mut server = ServerState::new();
    let _ = server.handle_player_message(7, PlayerMessage::JoinGame(zero()));
    let _ = server.handle_player_message(8, PlayerMessage::JoinGame(zero()));
    let out = server.handle_player_message(7, PlayerMessage::LeaveGame);
    assert!(out.is_empty());
    assert_eq!(server.sessions.len(), 1);
    assert_eq!(server.sessions.get(0).client_id, 8);
}

#[test]
fn leave_for_unknown_id_is_dropped() {
    let mut server = ServerState::new();
    let out = server.handle_player_message(7, PlayerMessage::LeaveGame);
    assert!(out.is_empty());
    assert_eq!(server.sessions.len(), 0);
}

// A whole drained queue is routed in arrival order.
#[test]
fn drained_queue_is_routed_in_order() {
    let mut server = ServerState::new();
    let queue = vec![
        PlayerMessage::JoinGame(zero()),
        PlayerMessage::PlayerMoved(movement(1.0, 0.0, 5.0, 5.0)),
        PlayerMessage::Ping,
    ];
    let out = server.handle_player_messages(7, &queue);
    assert_eq!(server.sessions.len(), 1);
    assert_eq!(server.sessions.get(0).movement, movement(1.0, 0.0, 5.0, 5.0));
    assert_eq!(out.len(), 2);
    assert!(matches!(out[0], Outbound::Send { to: 7, message: ServerMessage::InformAboutHighscore(_) }));
    assert_eq!(out[1], Outbound::Send { to: 7, message: ServerMessage::Pong });
}

// A snapshot never contains its recipient's own id, and one with zero peers
// is empty, not omitted.
#[test]
fn snapshot_excludes_recipient() {
    let mut server = ServerState::new();
    let _ = server.handle_player_message(1, PlayerMessage::JoinGame(movement(1.0, 0.0, 0.0, 0.0)));
    let _ = server.handle_player_message(2, PlayerMessage::JoinGame(movement(2.0, 0.0, 0.0, 0.0)));
    let _ = server.handle_player_message(3, PlayerMessage::JoinGame(movement(3.0, 0.0, 0.0, 0.0)));
    let snapshot = server.build_snapshot(2);
    let ids: Vec<u64> = snapshot.iter().map(|u| u.id).collect();
    assert_eq!(ids, vec![1, 3]);

    let mut lonely = ServerState::new();
    let _ = lonely.handle_player_message(9, PlayerMessage::JoinGame(zero()));
    assert!(lonely.build_snapshot(9).is_empty());
}

#[test]
fn broadcast_round_sends_one_snapshot_per_client() {
    let mut server = ServerState::new();
    let _ = server.handle_player_message(1, PlayerMessage::JoinGame(zero()));
    let _ = server.handle_player_message(2, PlayerMessage::JoinGame(zero()));
    let out = server.send_updates_to_players();
    assert_eq!(out.len(), 2);
    match &out[0] {
        Outbound::Send { to, message: ServerMessage::UpdateMovedPlayers(snapshot) } => {
            assert_eq!(*to, 1);
            assert_eq!(snapshot.len(), 1);
            assert_eq!(snapshot[0].id, 2);
        }
        other => panic!("unexpected action {:?}", other),
    }
    match &out[1] {
        Outbound::Send { to, message: ServerMessage::UpdateMovedPlayers(snapshot) } => {
            assert_eq!(*to, 2);
            assert_eq!(snapshot.len(), 1);
            assert_eq!(snapshot[0].id, 1);
        }
        other => panic!("unexpected action {:?}", other),
    }
}

// Scenario: id 7 stays silent past the timeout; the reaper removes the
// session and asks the transport to disconnect id 7, and a late movement
// update afterwards does not recreate the session.
#[test]
fn silent_session_is_reaped_and_late_movement_is_dropped() {
    let mut server = ServerState::new();
    let _ = server.handle_player_message(7, PlayerMessage::JoinGame(zero()));
    let out = server.remove_inactive_players(10_001, 10_000);
    assert_eq!(server.sessions.len(), 0);
    assert_eq!(out, vec![Outbound::Disconnect { client_id: 7 }]);
    let late = server.handle_player_message(7, PlayerMessage::PlayerMoved(movement(1.0, 1.0, 1.0, 1.0)));
    assert!(late.is_empty());
    assert_eq!(server.sessions.len(), 0);
}

// A session that keeps reporting movement survives the reaper.
#[test]
fn active_session_survives_reaper() {
    let mut server = ServerState::new();
    let _ = server.handle_player_message(7, PlayerMessage::JoinGame(zero()));
    let _ = server.handle_player_message(8, PlayerMessage::JoinGame(zero()));
    let out1 = server.remove_inactive_players(6_000, 10_000);
    assert!(out1.is_empty());
    let _ = server.handle_player_message(7, PlayerMessage::PlayerMoved(zero()));
    let out2 = server.remove_inactive_players(6_000, 10_000);
    assert_eq!(out2, vec![Outbound::Disconnect { client_id: 8 }]);
    assert_eq!(server.sessions.len(), 1);
    assert_eq!(server.sessions.get(0).client_id, 7);
}

// For any join/move/leave run, the session exists exactly between the join
// and the leave (or timeout), here checked at each step of one run.
#[test]
fn session_exists_iff_joined_and_not_gone() {
    let mut server = ServerState::new();
    assert_eq!(server.sessions.len(), 0);
    let _ = server.handle_player_message(5, PlayerMessage::JoinGame(zero()));
    assert_eq!(server.sessions.len(), 1);
    let _ = server.handle_player_message(5, PlayerMessage::PlayerMoved(movement(1.0, 0.0, 0.0, 0.0)));
    assert_eq!(server.sessions.len(), 1);
    let _ = server.handle_player_message(5, PlayerMessage::LeaveGame);
    assert_eq!(server.sessions.len(), 0);
    let _ = server.handle_player_message(5, PlayerMessage::JoinGame(zero()));
    assert_eq!(server.sessions.len(), 1);
    let _ = server.remove_inactive_players(10_000, 10_000);
    assert_eq!(server.sessions.len(), 0);
}
