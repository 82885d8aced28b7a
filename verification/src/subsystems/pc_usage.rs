//! The machine-usage subsystem: its one task reports the CPU load. The
//! reading itself suspends on the machine's counters and yields floating
//! point fractions, so it is the embedding application's handler; the
//! worker's two decisions — which task an envelope names, and what the
//! client sees for each handler outcome — are verified here.

use super::wrap_outcome;
use crate::json::{JVal, JsonVal};
use crate::message::{
    bytes_eq, clone_bytes, str_to_bytes, ResultMessage, TaskMessage, WebsocketSystem,
};
use vstd::prelude::*;
use vstd::string::*;

verus! {

/// The tasks of this subsystem.
#[derive(Clone, Copy, PartialEq, Eq, Structural, Debug)]
pub enum Task {
    CpuLoad,
}

/// Failure of a machine-usage task.
#[derive(Debug, PartialEq, Eq)]
pub enum PcUsageError {
    /// Any failure, with its description.
    UnexpectedError(Vec<u8>),
}

/// The description of a machine-usage failure, as the client sees it.
pub open spec fn pc_usage_error_text(e: PcUsageError) -> Seq<u8> {
    match e {
        PcUsageError::UnexpectedError(m) => m@,
    }
}

impl PcUsageError {
    /// The description of this failure.
    pub fn message(&self) -> (r: Vec<u8>)
        ensures
            r@ == pc_usage_error_text(*self),
    {
        match self {
            PcUsageError::UnexpectedError(m) => clone_bytes(m),
        }
    }
}

/// The wire name of the CPU-load task.
pub open spec fn cpu_load_name() -> Seq<u8> {
    ("cpu_load").spec_bytes()
}

/// Parses the opaque task name of an envelope: exactly `cpu_load` names a
/// task of this subsystem.
pub fn parse_task(name: &Vec<u8>) -> (r: Option<Task>)
    ensures
        r == (if name@ == cpu_load_name() {
            Some(Task::CpuLoad)
        } else {
            None::<Task>
        }),
{
    let cl = str_to_bytes("cpu_load");
    if bytes_eq(name, &cl) {
        Some(Task::CpuLoad)
    } else {
        None
    }
}

/// First half of one worker step: the task an envelope names, or — for an
/// unregistered name — the failed envelope the client sees, carrying this
/// subsystem's identifier. The worker goes on to the next envelope either
/// way.
pub fn prepare(msg: &TaskMessage) -> (r: Result<Task, ResultMessage>)
    ensures
        msg.name@ == cpu_load_name() ==> r == Ok::<Task, ResultMessage>(Task::CpuLoad),
        msg.name@ != cpu_load_name() ==> (match r {
            Err(m) => m.system == Some(WebsocketSystem::PcUsage) && m.success == false
                && m.payload@ == JVal::Str(("Failed to deserialize message.").spec_bytes()),
            Ok(_) => false,
        }),
{
    match parse_task(&msg.name) {
        Some(t) => Ok(t),
        None => Err(
            wrap_outcome(
                WebsocketSystem::PcUsage,
                Err(str_to_bytes("Failed to deserialize message.")),
            ),
        ),
    }
}

/// Second half of one worker step: what the client sees for the handler's
/// outcome, always under this subsystem's identifier.
pub fn finish(outcome: Result<JsonVal, Vec<u8>>) -> (r: ResultMessage)
    ensures
        r.system == Some(WebsocketSystem::PcUsage),
        r.success == (outcome is Ok),
        (match outcome {
            Ok(v) => r.payload@ == v@,
            Err(e) => r.payload@ == JVal::Str(e@),
        }),
{
    wrap_outcome(WebsocketSystem::PcUsage, outcome)
}

} // verus!
