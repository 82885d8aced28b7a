//! The runtime environment selector and the plumbing errors.

use axum_websockets::configuration::Environment;
use axum_websockets::error::WebsocketError;

#[test]
fn environment_names() {
    assert_eq!(Environment::Local.as_str(), "local");
    assert_eq!(Environment::Production.as_str(), "production");
}

#[test]
fn environment_parses_case_aside() {
    assert_eq!(Environment::try_from("local".to_string()), Ok(Environment::Local));
    assert_eq!(Environment::try_from("LOCAL".to_string()), Ok(Environment::Local));
    assert_eq!(
        Environment::try_from("Production".to_string()),
        Ok(Environment::Production)
    );
}

#[test]
fn environment_rejects_other_names() {
    let err = Environment::try_from("staging".to_string()).unwrap_err();
    assert_eq!(
        err,
        "staging is not a supported environment. Use either `local` or `production`."
    );
    // the message names the folded form of the value
    let err = Environment::try_from("StaGing".to_string()).unwrap_err();
    assert_eq!(
        err,
        "staging is not a supported environment. Use either `local` or `production`."
    );
}

#[test]
fn websocket_error_messages() {
    assert_eq!(
        String::from_utf8(WebsocketError::MpscSendError.message()).unwrap(),
        "Channel closed."
    );
    assert_eq!(
        String::from_utf8(WebsocketError::UnexpectedError(b"boom".to_vec()).message()).unwrap(),
        "boom"
    );
}
