//! The subsystem workers: task-name parsing, handler outcomes, and the
//! result envelopes the client sees — including one request driven end to
//! end through dispatch, worker and encoder.

use axum_websockets::json::JsonVal;
use axum_websockets::message::{clone_val, encode_result, TaskMessage, WebsocketSystem};
use axum_websockets::subsystems::{pc_usage, python_repo, wrap_outcome};
use axum_websockets::websocket::{dispatch_frame, DispatchOutcome, InFrame};

fn envelope(name: &str, payload: JsonVal) -> TaskMessage {
    TaskMessage { name: name.as_bytes().to_vec(), payload }
}

#[test]
fn python_repo_receive_error_on_invalid_task_name() {
    let r = python_repo::python_repo_step(&envelope("invalid_task_name", JsonVal::Null));
    assert_eq!(r.system.unwrap(), WebsocketSystem::PythonRepo);
    assert!(!r.success, "Call should not success.");
}

#[test]
fn pc_usage_receive_error_on_invalid_task_name() {
    let r = pc_usage::prepare(&envelope("invalid_task_name", JsonVal::Null)).unwrap_err();
    assert_eq!(r.system.unwrap(), WebsocketSystem::PcUsage);
    assert!(!r.success, "Call should not success.");
}

#[test]
fn unknown_task_failure_names_the_subsystem_not_null() {
    let r = python_repo::python_repo_step(&envelope("nope", JsonVal::Null));
    assert_eq!(r.system, Some(WebsocketSystem::PythonRepo));
    assert_eq!(
        r.payload,
        JsonVal::Str(b"Failed to deserialize message.".to_vec())
    );
}

#[test]
fn parse_task_names() {
    assert_eq!(
        python_repo::parse_task(&b"get_files".to_vec()),
        Some(python_repo::Task::GetFiles)
    );
    assert_eq!(python_repo::parse_task(&b"get_Files".to_vec()), None);
    assert_eq!(
        pc_usage::parse_task(&b"cpu_load".to_vec()),
        Some(pc_usage::Task::CpuLoad)
    );
    assert_eq!(pc_usage::parse_task(&b"cpu".to_vec()), None);
}

#[test]
fn get_files_receive_error_on_invalid_path() {
    let r = python_repo::python_repo_step(&envelope(
        "get_files",
        JsonVal::Str(b"tests/some_incorrect_path".to_vec()),
    ));
    assert_eq!(r.system.unwrap(), WebsocketSystem::PythonRepo);
    assert!(!r.success, "Call should not success.");
    assert_eq!(
        r.payload,
        JsonVal::Str(b"Invalid path: \"tests/some_incorrect_path\"".to_vec())
    );
}

#[test]
fn get_files_lists_python_files_of_an_existing_path() {
    // the crate's own source tree exists and holds no Python files
    let r = python_repo::python_repo_step(&envelope("get_files", JsonVal::Str(b"src".to_vec())));
    assert_eq!(r.system.unwrap(), WebsocketSystem::PythonRepo);
    assert!(r.success, "Call was not successful.");
    assert_eq!(r.payload, JsonVal::Arr(vec![]));
}

#[test]
fn get_files_rejects_a_missing_payload_as_an_empty_path() {
    let r = python_repo::python_repo_step(&envelope("get_files", JsonVal::Null));
    assert!(!r.success);
    assert_eq!(r.payload, JsonVal::Str(b"Invalid path: \"\"".to_vec()));
}

#[test]
fn pc_usage_prepare_and_finish() {
    let task = pc_usage::prepare(&envelope("cpu_load", JsonVal::Null)).unwrap();
    assert_eq!(task, pc_usage::Task::CpuLoad);

    // the handler's value comes back wrapped under this subsystem's id
    let loads = JsonVal::Arr(vec![JsonVal::Obj(vec![
        (b"user".to_vec(), JsonVal::Num(b"0.25".to_vec())),
        (b"system".to_vec(), JsonVal::Num(b"0.05".to_vec())),
    ])]);
    let r = pc_usage::finish(Ok(clone_val(&loads)));
    assert_eq!(r.system, Some(WebsocketSystem::PcUsage));
    assert!(r.success);
    assert_eq!(r.payload, loads);

    let r = pc_usage::finish(Err(b"Failed to read cpu load.".to_vec()));
    assert!(!r.success);
    assert_eq!(r.payload, JsonVal::Str(b"Failed to read cpu load.".to_vec()));
}

#[test]
fn wrap_outcome_keeps_value_and_error_apart() {
    let ok = wrap_outcome(WebsocketSystem::PythonRepo, Ok(JsonVal::Bool(true)));
    assert!(ok.success);
    assert_eq!(ok.payload, JsonVal::Bool(true));
    let err = wrap_outcome(WebsocketSystem::PythonRepo, Err(b"why".to_vec()));
    assert!(!err.success);
    assert_eq!(err.payload, JsonVal::Str(b"why".to_vec()));
}

#[test]
fn request_travels_end_to_end() {
    // a whole round: wire text in, routed envelope, worker, wire text out
    let frame = InFrame::Text(
        b"{\"system\":\"python_repo\",\"task\":\"get_files\",\"payload\":\"tests/some_incorrect_path\"}"
            .to_vec(),
    );
    let (system, envelope) = match dispatch_frame(frame) {
        DispatchOutcome::Route(system, envelope) => (system, envelope),
        other => panic!("expected a routed request, got {:?}", other),
    };
    assert_eq!(system, WebsocketSystem::PythonRepo);
    let result = python_repo::python_repo_step(&envelope);
    assert_eq!(
        String::from_utf8(encode_result(&result)).unwrap(),
        "{\"system\":\"python_repo\",\"success\":false,\"payload\":\"Invalid path: \\\"tests/some_incorrect_path\\\"\"}"
    );
}

#[test]
fn successful_request_travels_end_to_end() {
    let frame = InFrame::Text(
        b"{\"system\":\"python_repo\",\"task\":\"get_files\",\"payload\":\"src\"}".to_vec(),
    );
    let (_, envelope) = match dispatch_frame(frame) {
        DispatchOutcome::Route(system, envelope) => (system, envelope),
        other => panic!("expected a routed request, got {:?}", other),
    };
    let result = python_repo::python_repo_step(&envelope);
    assert_eq!(
        String::from_utf8(encode_result(&result)).unwrap(),
        "{\"system\":\"python_repo\",\"success\":true,\"payload\":[]}"
    );
}

#[test]
fn invalid_path_message_escapes_like_debug_formatting() {
    // quote, backslash, newline, tab, a bare control byte and a C1 control
    let path = "a\"b\\c\nd\te\u{1}f\u{85}g";
    let r = python_repo::python_repo_step(&envelope(
        "get_files",
        JsonVal::Str(path.as_bytes().to_vec()),
    ));
    assert!(!r.success);
    let expected = format!("Invalid path: {:?}", path);
    assert_eq!(r.payload, JsonVal::Str(expected.into_bytes()));
}
