//! Session manager for a persistent bidirectional socket protocol: one
//! client connection carries requests addressed to independent subsystems,
//! interleaved with a ping/pong heartbeat, and takes each subsystem's
//! results back over the same connection.
//!
//! The library holds every decision of the session and proves it against
//! its contract: the wire codec ([`json`]), the request and result
//! envelopes and their decoding ([`message`]), the heartbeat state machine
//! ([`heartbeat`]), the per-frame dispatch and the outbound relay
//! discipline ([`websocket`]), and the subsystem workers ([`subsystems`]).
//! The sockets, timers and queues that act on those decisions are the
//! embedding application's; the disk and the clock are read behind a few
//! trusted wrappers, each documented where it stands.

pub mod configuration;
pub mod error;
pub mod heartbeat;
pub mod json;
pub mod message;
pub mod subsystems;
pub mod websocket;
