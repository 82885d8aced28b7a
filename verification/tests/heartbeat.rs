//! The heartbeat monitor's tick decisions and the session's liveness
//! timestamp.

use axum_websockets::configuration::WebsocketSettings;
use axum_websockets::heartbeat::{heartbeat_tick, MonitorState};
use axum_websockets::message::WebsocketMessage;
use axum_websockets::websocket::Session;

#[test]
fn tick_probes_within_the_timeout() {
    let (event, state) = heartbeat_tick(MonitorState::Active, 1_250, 1_000, 500);
    assert_eq!(event, WebsocketMessage::Ping(vec![]));
    assert_eq!(state, MonitorState::Active);
}

#[test]
fn tick_probes_exactly_at_the_timeout() {
    let (event, state) = heartbeat_tick(MonitorState::Active, 1_500, 1_000, 500);
    assert_eq!(event, WebsocketMessage::Ping(vec![]));
    assert_eq!(state, MonitorState::Active);
}

#[test]
fn tick_closes_past_the_timeout() {
    let (event, state) = heartbeat_tick(MonitorState::Active, 1_501, 1_000, 500);
    assert_eq!(event, WebsocketMessage::Close);
    assert_eq!(state, MonitorState::Terminated);
}

#[test]
fn tick_tolerates_a_clock_behind_the_timestamp() {
    let (event, state) = heartbeat_tick(MonitorState::Active, 900, 1_000, 500);
    assert_eq!(event, WebsocketMessage::Ping(vec![]));
    assert_eq!(state, MonitorState::Active);
}

#[test]
fn responding_client_survives_many_cycles() {
    // a pong lands before every tick, so each tick sees a fresh timestamp
    let mut last_heard: u64 = 10_000;
    let mut state = MonitorState::Active;
    for cycle in 0..100u64 {
        let now = 10_000 + (cycle + 1) * 250;
        last_heard = now - 50;
        let (event, next) = heartbeat_tick(state, now, last_heard, 500);
        assert_eq!(event, WebsocketMessage::Ping(vec![]));
        state = next;
    }
    assert_eq!(state, MonitorState::Active);
}

#[test]
fn silent_client_gets_probes_then_the_close() {
    // interval 250, timeout 600: ticks at 250 and 500 probe, 750 closes
    let last_heard: u64 = 0;
    let mut events = Vec::new();
    let mut state = MonitorState::Active;
    let mut k: u64 = 1;
    while state == MonitorState::Active {
        let (event, next) = heartbeat_tick(state, k * 250, last_heard, 600);
        events.push(event);
        state = next;
        k += 1;
    }
    assert_eq!(
        events,
        vec![
            WebsocketMessage::Ping(vec![]),
            WebsocketMessage::Ping(vec![]),
            WebsocketMessage::Close,
        ]
    );
}

#[test]
fn session_keeps_settings_and_moves_forward() {
    let settings = WebsocketSettings { heartbeat_interval: 250, client_timeout: 500 };
    let mut session = Session::new(&settings);
    assert_eq!(session.settings, settings);
    let before = session.hb;
    session.record_signal();
    assert!(session.hb >= before);
}

#[test]
fn settings_validity() {
    assert!(WebsocketSettings { heartbeat_interval: 1, client_timeout: 2 }.is_valid());
    assert!(!WebsocketSettings { heartbeat_interval: 0, client_timeout: 2 }.is_valid());
    assert!(!WebsocketSettings { heartbeat_interval: 2, client_timeout: 2 }.is_valid());
    assert!(!WebsocketSettings { heartbeat_interval: 3, client_timeout: 2 }.is_valid());
}

#[test]
fn session_starts_and_advances_with_the_given_time() {
    let settings = WebsocketSettings { heartbeat_interval: 250, client_timeout: 500 };
    let mut session = Session::at(&settings, 7_000);
    assert_eq!(session.hb, 7_000);
    session.signal_at(7_300);
    assert_eq!(session.hb, 7_300);
    // a clock reading behind the timestamp does not move it back
    session.signal_at(7_100);
    assert_eq!(session.hb, 7_300);
}
