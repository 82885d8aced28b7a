//! The subsystems behind the message bus. Each registered subsystem has a
//! task enumeration, a parser from the opaque wire task name into it, and a
//! handler; the session guarantees that a worker handles one envelope at a
//! time and wraps every handler outcome — value or error — into the
//! standard result envelope carrying the subsystem's identifier.

pub mod pc_usage;
pub mod python_repo;

pub use crate::message::WebsocketSystem;

use crate::json::{JVal, JsonVal};
use crate::message::ResultMessage;
use vstd::prelude::*;

verus! {

/// Wraps what a handler concluded into the result envelope the client
/// sees: the envelope always carries the subsystem's own identifier, its
/// success flag is the handler's, and its payload is the handler's value
/// or the error's description.
pub fn wrap_outcome(system: WebsocketSystem, outcome: Result<JsonVal, Vec<u8>>) -> (r:
    ResultMessage)
    ensures
        r.system == Some(system),
        r.success == (outcome is Ok),
        (match outcome {
            Ok(v) => r.payload@ == v@,
            Err(e) => r.payload@ == JVal::Str(e@),
        }),
{
    match outcome {
        Ok(v) => ResultMessage::from_json(v, Some(system)),
        Err(e) => ResultMessage::from_error(e, Some(system)),
    }
}

} // verus!
