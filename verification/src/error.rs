//! Errors of the session's own plumbing. Decode failures and subsystem
//! failures have their own types next to the code that raises them; this one
//! covers the queues and everything unexpected.

use vstd::prelude::*;
use vstd::string::*;

verus! {

/// Failure of the session's internal machinery.
#[derive(Debug, PartialEq, Eq)]
pub enum WebsocketError {
    /// An internal queue closed while an event was to be sent on it: the
    /// session is shutting down.
    MpscSendError,
    /// Any other failure, with its description.
    UnexpectedError(Vec<u8>),
}

/// The description of a session failure.
pub open spec fn websocket_error_text(e: WebsocketError) -> Seq<u8> {
    match e {
        WebsocketError::MpscSendError => ("Channel closed.").spec_bytes(),
        WebsocketError::UnexpectedError(m) => m@,
    }
}

impl WebsocketError {
    /// The description of this failure.
    pub fn message(&self) -> (r: Vec<u8>)
        ensures
            r@ == websocket_error_text(*self),
    {
        match self {
            WebsocketError::MpscSendError => crate::message::str_to_bytes("Channel closed."),
            WebsocketError::UnexpectedError(m) => crate::message::clone_bytes(m),
        }
    }
}

} // verus!
