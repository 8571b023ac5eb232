use replication::highscore::accept;
use replication::server::{Outbound, ServerState};
use replication::wire::{Highscore, PlayerMessage, ServerMessage};

fn time(seconds: u64) -> Highscore {
    Highscore { time_in_seconds: seconds }
}

#[test]
fn first_real_candidate_replaces_unset_record() {
    assert_eq!(accept(time(0), time(42)).time_in_seconds, 42);
}

#[test]
fn smaller_candidate_replaces_record() {
    assert_eq!(accept(time(42), time(30)).time_in_seconds, 30);
}

#[test]
fn larger_candidate_is_rejected() {
    assert_eq!(accept(time(30), time(42)).time_in_seconds, 30);
}

#[test]
fn equal_candidate_is_rejected() {
    assert_eq!(accept(time(30), time(30)).time_in_seconds, 30);
}

// A zero candidate is conflated with the "no highscore yet" sentinel on the
// wire, so it is never treated as a real (instant) time: it neither
// replaces a set record nor fills an unset one.
#[test]
fn zero_candidate_is_never_a_real_time() {
    assert_eq!(accept(time(30), time(0)).time_in_seconds, 30);
    assert_eq!(accept(time(0), time(0)).time_in_seconds, 0);
}

// Scenario: candidates 42, 30, 0 in that order against an initial 0 record
// leave the record at 30.
#[test]
fn candidates_in_tick_order_leave_minimum_real_time() {
    let mut server = ServerState::new();
    for candidate in [42u64, 30, 0] {
        let _ = server.handle_player_message(
            1,
            PlayerMessage::RequestPossibleHighscore(time(candidate)),
        );
    }
    assert_eq!(server.highscore.time_in_seconds, 30);
}

#[test]
fn replacement_is_announced_to_everyone_and_rejection_is_silent() {
    let mut server = ServerState::new();
    let out1 = server.handle_player_message(1, PlayerMessage::RequestPossibleHighscore(time(42)));
    assert_eq!(
        out1,
        vec![Outbound::Broadcast { message: ServerMessage::InformAboutHighscore(time(42)) }]
    );
    let out2 = server.handle_player_message(1, PlayerMessage::RequestPossibleHighscore(time(50)));
    assert!(out2.is_empty());
    assert_eq!(server.highscore.time_in_seconds, 42);
}

// Once set, the record never increases and never returns to the sentinel,
// across a mixed sequence of candidates.
#[test]
fn record_is_monotone_once_set() {
    let mut server = ServerState::new();
    let mut previous: u64 = 0;
    for candidate in [50u64, 80, 0, 47, 47, 120, 3, 0, 9] {
        let _ = server.handle_player_message(
            1,
            PlayerMessage::RequestPossibleHighscore(time(candidate)),
        );
        let current = server.highscore.time_in_seconds;
        if previous != 0 {
            assert!(current <= previous);
            assert!(current != 0);
        }
        previous = current;
    }
    assert_eq!(previous, 3);
}
