//! The dispatcher's frame decisions and the relay's translation to wire
//! frames.

use axum_websockets::json::JsonVal;
use axum_websockets::message::{ResultMessage, WebsocketMessage, WebsocketSystem};
use axum_websockets::websocket::{dispatch_frame, relay_batch, relay_step, DispatchOutcome, InFrame, OutFrame};

fn text_frame(text: &str) -> InFrame {
    InFrame::Text(text.as_bytes().to_vec())
}

#[test]
fn routes_a_request_to_the_system_it_names() {
    let r = dispatch_frame(text_frame(
        "{\"system\": \"python_repo\", \"task\": \"get_files\", \"payload\": \"x\"}",
    ));
    match r {
        DispatchOutcome::Route(system, envelope) => {
            assert_eq!(system, WebsocketSystem::PythonRepo);
            assert_eq!(envelope.name, b"get_files".to_vec());
            assert_eq!(envelope.payload, JsonVal::Str(b"x".to_vec()));
        }
        other => panic!("expected a routed request, got {:?}", other),
    }
}

#[test]
fn decode_error_shape() {
    // a malformed frame yields a failed envelope attributed to no subsystem
    let r = dispatch_frame(text_frame("{\"system\": \"python_repo\""));
    match r {
        DispatchOutcome::ProtocolError(envelope) => {
            assert_eq!(envelope.system, None);
            assert!(!envelope.success);
            assert_eq!(
                envelope.payload,
                JsonVal::Str(b"Failed to deserialize message: invalid syntax.".to_vec())
            );
        }
        other => panic!("expected a protocol error, got {:?}", other),
    }
}

#[test]
fn ping_is_answered_with_a_pong_and_counts_as_life() {
    let r = dispatch_frame(InFrame::Ping(b"beat".to_vec()));
    assert_eq!(r, DispatchOutcome::EchoPong(b"beat".to_vec()));
}

#[test]
fn pong_counts_as_life_only() {
    assert_eq!(dispatch_frame(InFrame::Pong(b"x".to_vec())), DispatchOutcome::Heard);
}

#[test]
fn binary_frames_are_dropped() {
    assert_eq!(dispatch_frame(InFrame::Binary(vec![1, 2, 3])), DispatchOutcome::Ignore);
}

#[test]
fn close_frame_stops_the_dispatcher() {
    assert_eq!(dispatch_frame(InFrame::Close), DispatchOutcome::Stop);
}

#[test]
fn relay_translates_each_event() {
    let (frame, stop) = relay_step(&WebsocketMessage::Ping(b"p".to_vec()));
    assert_eq!(frame, OutFrame::Ping(b"p".to_vec()));
    assert!(!stop);

    let (frame, stop) = relay_step(&WebsocketMessage::Pong(b"beat".to_vec()));
    assert_eq!(frame, OutFrame::Pong(b"beat".to_vec()));
    assert!(!stop);

    let envelope = ResultMessage::from_json(JsonVal::Null, Some(WebsocketSystem::PcUsage));
    let (frame, stop) = relay_step(&WebsocketMessage::TaskResult(envelope));
    assert_eq!(
        frame,
        OutFrame::Text(b"{\"system\":\"pc_usage\",\"success\":true,\"payload\":null}".to_vec())
    );
    assert!(!stop);

    let (frame, stop) = relay_step(&WebsocketMessage::Close);
    assert_eq!(frame, OutFrame::Close);
    assert!(stop);
}

#[test]
fn relay_keeps_arrival_order_and_stops_at_the_close() {
    let events = vec![
        WebsocketMessage::Ping(b"1".to_vec()),
        WebsocketMessage::Pong(b"2".to_vec()),
        WebsocketMessage::Close,
        WebsocketMessage::Ping(b"never".to_vec()),
    ];
    let frames = relay_batch(&events);
    assert_eq!(
        frames,
        vec![
            OutFrame::Ping(b"1".to_vec()),
            OutFrame::Pong(b"2".to_vec()),
            OutFrame::Close,
        ]
    );
}

#[test]
fn relay_writes_everything_without_a_close() {
    let events = vec![
        WebsocketMessage::Ping(b"a".to_vec()),
        WebsocketMessage::Ping(b"b".to_vec()),
    ];
    let frames = relay_batch(&events);
    assert_eq!(frames.len(), 2);
}
