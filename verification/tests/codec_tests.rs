use replication::codec::{
    decode_player_message, decode_server_message, encode_player_message, encode_server_message,
    encode_server_message_checked, frame_message, take_frame,
};
use replication::wire::{Highscore, PlayerMessage, PlayerMovedUpdate, PlayerMovement, ServerMessage};

fn movement(vx: f32, vy: f32, tx: f32, ty: f32) -> PlayerMovement {
    PlayerMovement {
        velocity_x: vx.to_bits(),
        velocity_y: vy.to_bits(),
        translation_x: tx.to_bits(),
        translation_y: ty.to_bits(),
    }
}

#[test]
fn player_messages_round_trip() {
    let messages = vec![
        PlayerMessage::Ping,
        PlayerMessage::JoinGame(movement(0.0, 0.0, 0.0, 0.0)),
        PlayerMessage::PlayerMoved(movement(1.5, -2.25, 300.0, -0.001)),
        PlayerMessage::RequestPossibleHighscore(Highscore { time_in_seconds: 42 }),
        PlayerMessage::LeaveGame,
    ];
    for m in messages {
        let bytes = encode_player_message(&m);
        assert_eq!(decode_player_message(&bytes), Some(m));
    }
}

#[test]
fn server_messages_round_trip() {
    let messages = vec![
        ServerMessage::Pong,
        ServerMessage::InformAboutHighscore(Highscore { time_in_seconds: 0 }),
        ServerMessage::InformAboutHighscore(Highscore { time_in_seconds: u64::MAX }),
        ServerMessage::UpdateMovedPlayers(Vec::new()),
        ServerMessage::UpdateMovedPlayers(vec![
            PlayerMovedUpdate { id: 1, movement: movement(1.0, 2.0, 3.0, 4.0) },
            PlayerMovedUpdate { id: u64::MAX, movement: movement(-1.0, 0.5, -300.25, 8.0) },
        ]),
    ];
    for m in messages {
        let bytes = encode_server_message(&m);
        assert_eq!(decode_server_message(&bytes), Some(m));
    }
}

#[test]
fn checked_encoding_accepts_ordinary_snapshots() {
    let m = ServerMessage::UpdateMovedPlayers(vec![PlayerMovedUpdate {
        id: 3,
        movement: movement(0.0, 0.0, 0.0, 0.0),
    }]);
    let bytes = encode_server_message_checked(&m).expect("a one-entry snapshot fits");
    assert_eq!(decode_server_message(&bytes), Some(m));
}

// The exact byte layout of two small messages: tag byte, then the
// little-endian payload.
#[test]
fn exact_byte_layout() {
    assert_eq!(encode_player_message(&PlayerMessage::Ping), vec![0u8]);
    assert_eq!(encode_player_message(&PlayerMessage::LeaveGame), vec![4u8]);
    let request = PlayerMessage::RequestPossibleHighscore(Highscore { time_in_seconds: 0x0102 });
    assert_eq!(
        encode_player_message(&request),
        vec![3u8, 0x02, 0x01, 0, 0, 0, 0, 0, 0]
    );
    let inform = ServerMessage::InformAboutHighscore(Highscore { time_in_seconds: 7 });
    assert_eq!(encode_server_message(&inform), vec![1u8, 7, 0, 0, 0, 0, 0, 0, 0]);
    let empty_snapshot = ServerMessage::UpdateMovedPlayers(Vec::new());
    assert_eq!(encode_server_message(&empty_snapshot), vec![2u8, 0, 0, 0, 0]);
}

#[test]
fn malformed_player_messages_are_rejected() {
    assert_eq!(decode_player_message(&Vec::new()), None);
    assert_eq!(decode_player_message(&vec![9u8]), None);
    assert_eq!(decode_player_message(&vec![0u8, 0u8]), None);
    assert_eq!(decode_player_message(&vec![1u8, 1, 2, 3]), None);
    let mut truncated = encode_player_message(&PlayerMessage::JoinGame(movement(1.0, 1.0, 1.0, 1.0)));
    truncated.pop();
    assert_eq!(decode_player_message(&truncated), None);
    let mut padded = encode_player_message(&PlayerMessage::RequestPossibleHighscore(Highscore {
        time_in_seconds: 1,
    }));
    padded.push(0);
    assert_eq!(decode_player_message(&padded), None);
}

#[test]
fn malformed_server_messages_are_rejected() {
    assert_eq!(decode_server_message(&Vec::new()), None);
    assert_eq!(decode_server_message(&vec![7u8]), None);
    assert_eq!(decode_server_message(&vec![0u8, 0u8]), None);
    // a snapshot whose entry count does not match its length
    assert_eq!(decode_server_message(&vec![2u8, 1, 0, 0, 0]), None);
    let mut truncated = encode_server_message(&ServerMessage::UpdateMovedPlayers(vec![
        PlayerMovedUpdate { id: 1, movement: movement(0.0, 0.0, 0.0, 0.0) },
    ]));
    truncated.pop();
    assert_eq!(decode_server_message(&truncated), None);
}

#[test]
fn frames_round_trip_on_a_stream() {
    let first = encode_player_message(&PlayerMessage::Ping);
    let second = encode_player_message(&PlayerMessage::LeaveGame);
    let mut stream = frame_message(&first);
    stream.extend_from_slice(&frame_message(&second));

    let (body1, rest) = take_frame(&stream).expect("first frame is whole");
    assert_eq!(body1, first);
    let (body2, rest2) = take_frame(&rest).expect("second frame is whole");
    assert_eq!(body2, second);
    assert!(rest2.is_empty());
    assert_eq!(take_frame(&rest2), None);
}

#[test]
fn partial_frames_wait_for_more_bytes() {
    let body = encode_player_message(&PlayerMessage::JoinGame(movement(1.0, 2.0, 3.0, 4.0)));
    let framed = frame_message(&body);
    for cut in 0..framed.len() {
        let partial: Vec<u8> = framed[..cut].to_vec();
        assert_eq!(take_frame(&partial), None);
    }
}
