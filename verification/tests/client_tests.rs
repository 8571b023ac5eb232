use replication::client::{
    handle_server_messages, on_player_finish_level, update_highscore, update_player_movement,
    ClientConnection, HighscoreInfoEvent, HighscoreText, RoutedServerMessage,
};
use replication::timer::RepeatingTimer;
use replication::wire::{Highscore, PlayerMessage, PlayerMovedUpdate, PlayerMovement, ServerMessage};

fn zero() -> PlayerMovement {
    PlayerMovement { velocity_x: 0, velocity_y: 0, translation_x: 0, translation_y: 0 }
}

#[test]
fn connection_event_joins_with_zero_movement() {
    let mut connection = ClientConnection::new();
    assert!(!connection.is_player_connected());
    let m = connection.handle_connection_event();
    assert!(connection.is_player_connected());
    assert_eq!(m, PlayerMessage::JoinGame(zero()));
    connection.handle_connection_lost_event();
    assert!(!connection.is_player_connected());
}

#[test]
fn server_messages_are_dispatched() {
    assert_eq!(handle_server_messages(ServerMessage::Pong), RoutedServerMessage::Pong);

    let snapshot = vec![PlayerMovedUpdate { id: 4, movement: zero() }];
    match handle_server_messages(ServerMessage::UpdateMovedPlayers(snapshot.clone())) {
        RoutedServerMessage::GhostPlayersMoved(ev) => assert_eq!(ev.0, snapshot),
        other => panic!("unexpected routing {:?}", other),
    }

    let record = Highscore { time_in_seconds: 12 };
    match handle_server_messages(ServerMessage::InformAboutHighscore(record)) {
        RoutedServerMessage::HighscoreInfo(ev) => assert_eq!(ev.0.time_in_seconds, 12),
        other => panic!("unexpected routing {:?}", other),
    }
}

// Movement is submitted only when the submission interval fires.
#[test]
fn movement_is_submitted_on_the_interval() {
    let mut timer = RepeatingTimer::new(20);
    let m = PlayerMovement {
        velocity_x: 1.0f32.to_bits(),
        velocity_y: 0.0f32.to_bits(),
        translation_x: 2.0f32.to_bits(),
        translation_y: 0.0f32.to_bits(),
    };
    assert_eq!(update_player_movement(&mut timer, 10, m), None);
    assert_eq!(
        update_player_movement(&mut timer, 10, m),
        Some(PlayerMessage::PlayerMoved(m))
    );
    assert_eq!(update_player_movement(&mut timer, 19, m), None);
    assert_eq!(
        update_player_movement(&mut timer, 1, m),
        Some(PlayerMessage::PlayerMoved(m))
    );
}

#[test]
fn repeating_timer_keeps_the_remainder() {
    let mut timer = RepeatingTimer::new(20);
    assert!(timer.tick(45));
    assert_eq!(timer.elapsed_millis, 5);
    assert!(!timer.tick(10));
    assert_eq!(timer.elapsed_millis, 15);
    assert!(timer.tick(5));
    assert_eq!(timer.elapsed_millis, 0);
}

#[test]
fn finishing_the_level_proposes_the_elapsed_time() {
    assert_eq!(
        on_player_finish_level(73),
        PlayerMessage::RequestPossibleHighscore(Highscore { time_in_seconds: 73 })
    );
}

#[test]
fn highscore_announcement_updates_the_label() {
    let mut text = HighscoreText { value: 0 };
    let label = update_highscore(&mut text, &HighscoreInfoEvent(Highscore { time_in_seconds: 42 }));
    assert_eq!(text.value, 42);
    assert_eq!(label.as_deref(), Some("Highscore: 42"));
}

// The unset sentinel means "no highscore yet" and changes nothing.
#[test]
fn sentinel_announcement_changes_nothing() {
    let mut text = HighscoreText { value: 37 };
    let label = update_highscore(&mut text, &HighscoreInfoEvent(Highscore { time_in_seconds: 0 }));
    assert_eq!(text.value, 37);
    assert_eq!(label, None);
}

#[test]
fn process_exit_says_goodbye() {
    assert_eq!(replication::client::on_process_exit(), PlayerMessage::LeaveGame);
}
