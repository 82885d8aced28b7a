//! Decoding client requests and printing result envelopes.

use axum_websockets::json::JsonVal;
use axum_websockets::message::{
    decode_client_message, encode_result, DecodeError, ResultMessage, WebsocketSystem,
};
use axum_websockets::subsystems::{pc_usage, python_repo};

fn decode(text: &str) -> Result<axum_websockets::message::ClientMessage, DecodeError> {
    decode_client_message(&text.as_bytes().to_vec())
}

#[test]
fn correctly_deserialize_websocket_message() {
    let message = decode("{\"system\": \"python_repo\", \"task\": \"some_task\"}").unwrap();
    assert_eq!(WebsocketSystem::PythonRepo, message.system);
}

#[test]
fn pc_usage_correctly_deserialize_task_name() {
    let message = decode("{\"system\": \"pc_usage\", \"task\": \"cpu_load\"}").unwrap();
    let task = pc_usage::parse_task(&message.task).unwrap();
    assert_eq!(pc_usage::Task::CpuLoad, task);
}

#[test]
fn python_repo_correctly_deserialize_task_name() {
    let message = decode(
        "{\"system\": \"python_repo\", \"task\": \"get_files\", \"payload\": \"tests/examples\"}",
    )
    .unwrap();
    let task = python_repo::parse_task(&message.task).unwrap();
    assert_eq!(python_repo::Task::GetFiles, task);
}

#[test]
fn decode_keeps_the_payload() {
    let message = decode("{\"system\": \"pc_usage\", \"task\": \"t\", \"payload\": [1]}").unwrap();
    assert_eq!(message.payload, JsonVal::Arr(vec![JsonVal::Num(b"1".to_vec())]));
    assert_eq!(message.task, b"t".to_vec());
}

#[test]
fn decode_missing_payload_means_null() {
    let message = decode("{\"system\": \"pc_usage\", \"task\": \"t\"}").unwrap();
    assert_eq!(message.payload, JsonVal::Null);
}

#[test]
fn decode_ignores_unknown_fields() {
    let message = decode("{\"system\": \"pc_usage\", \"task\": \"t\", \"extra\": 1}").unwrap();
    assert_eq!(WebsocketSystem::PcUsage, message.system);
}

#[test]
fn decode_error_on_malformed_text() {
    assert_eq!(decode("{\"system\": ").unwrap_err(), DecodeError::Syntax);
}

#[test]
fn decode_error_on_non_object() {
    assert_eq!(decode("[]").unwrap_err(), DecodeError::NotObject);
}

#[test]
fn decode_error_on_missing_fields() {
    assert_eq!(
        decode("{\"task\": \"t\"}").unwrap_err(),
        DecodeError::MissingSystem
    );
    assert_eq!(
        decode("{\"system\": \"pc_usage\"}").unwrap_err(),
        DecodeError::MissingTask
    );
}

#[test]
fn decode_error_on_unknown_system() {
    assert_eq!(
        decode("{\"system\": \"mainframe\", \"task\": \"t\"}").unwrap_err(),
        DecodeError::BadSystem
    );
    assert_eq!(
        decode("{\"system\": 3, \"task\": \"t\"}").unwrap_err(),
        DecodeError::BadSystem
    );
}

#[test]
fn decode_error_on_bad_task_value() {
    assert_eq!(
        decode("{\"system\": \"pc_usage\", \"task\": 5}").unwrap_err(),
        DecodeError::BadTask
    );
}

#[test]
fn decode_error_on_duplicate_field() {
    assert_eq!(
        decode("{\"system\": \"pc_usage\", \"system\": \"pc_usage\", \"task\": \"t\"}")
            .unwrap_err(),
        DecodeError::DuplicateField
    );
}

#[test]
fn encode_success_envelope_exactly() {
    let m = ResultMessage::from_json(
        JsonVal::Arr(vec![JsonVal::Str(b"a.py".to_vec())]),
        Some(WebsocketSystem::PythonRepo),
    );
    assert_eq!(
        String::from_utf8(encode_result(&m)).unwrap(),
        "{\"system\":\"python_repo\",\"success\":true,\"payload\":[\"a.py\"]}"
    );
}

#[test]
fn encode_protocol_error_envelope_exactly() {
    let m = ResultMessage::from_error(b"broken".to_vec(), None);
    assert_eq!(
        String::from_utf8(encode_result(&m)).unwrap(),
        "{\"system\":null,\"success\":false,\"payload\":\"broken\"}"
    );
}

#[test]
fn decode_error_messages_name_the_cause() {
    assert_eq!(
        String::from_utf8(DecodeError::MissingTask.message()).unwrap(),
        "Failed to deserialize message: missing field `task`."
    );
    assert_eq!(
        String::from_utf8(DecodeError::Syntax.message()).unwrap(),
        "Failed to deserialize message: invalid syntax."
    );
}
