//! One connection's session: the liveness timestamp and heartbeat
//! settings, the dispatcher that decides what each inbound frame means,
//! and the relay that turns outbound events into wire frames in arrival
//! order. The concurrent activities around these decisions — socket reads
//! and writes, timers, queues — belong to the embedding application; every
//! decision they act on is taken here.

use crate::configuration::WebsocketSettings;
use crate::heartbeat::{heartbeat_tick, MonitorState};
use crate::json::{sp_json, JVal};
use crate::message::{
    decode_error_text, decode_spec, encode_result, ResultMessage, TaskMessage, WebsocketMessage,
    WebsocketSystem,
};
use vstd::prelude::*;

verus! {

/// One client's session: the liveness timestamp — the last time any signal
/// was received from the peer, in milliseconds — and the heartbeat
/// settings. The timestamp only ever moves forward.
pub struct Session {
    pub hb: u64,
    pub settings: WebsocketSettings,
}

impl Session {
    /// A new session for an accepted connection, heard from at the
    /// clock's reading (see `at` for the exact shape). Construction
    /// requires settings that can drive a session; the subsystem registry
    /// is the closed set of `WebsocketSystem` variants, so it is never
    /// empty.
    pub fn new(settings: &WebsocketSettings) -> (s: Session)
        requires
            settings.wf(),
        ensures
            s.settings == *settings,
    {
        Session::at(settings, now_millis())
    }

    /// A session as of a known time: the liveness timestamp starts at
    /// `now`, so a full timeout stands before any close can fire.
    pub fn at(settings: &WebsocketSettings, now: u64) -> (s: Session)
        requires
            settings.wf(),
        ensures
            s.settings == *settings,
            s.hb == now,
    {
        Session { hb: now, settings: *settings }
    }

    /// Records a signal from the peer at the clock's reading (see
    /// `signal_at` for the exact shape): the liveness timestamp moves
    /// forward, never back, whatever the clock returned.
    pub fn record_signal(&mut self)
        ensures
            final(self).hb >= old(self).hb,
            final(self).settings == old(self).settings,
    {
        let now = now_millis();
        self.signal_at(now);
    }

    /// Records a signal heard at `now`: the liveness timestamp advances
    /// to `now` unless it already stands later.
    pub fn signal_at(&mut self, now: u64)
        ensures
            final(self).hb == (if now > old(self).hb {
                now
            } else {
                old(self).hb
            }),
            final(self).settings == old(self).settings,
    {
        if now > self.hb {
            self.hb = now;
        }
    }

    /// One heartbeat tick against the clock: the exact decision is
    /// `heartbeat_tick`'s; whatever time the clock returned, the tick
    /// either probes and stays active or closes and terminates.
    pub fn hb_step(&self) -> (r: (WebsocketMessage, MonitorState))
        ensures
            (r.0 is Close && r.1 == MonitorState::Terminated) || ((match r.0 {
                WebsocketMessage::Ping(p) => p@ == Seq::<u8>::empty(),
                _ => false,
            }) && r.1 == MonitorState::Active),
    {
        let now = now_millis();
        heartbeat_tick(MonitorState::Active, now, self.hb, self.settings.client_timeout)
    }
}

/// Relies on std::time::SystemTime: the clock's milliseconds since the
/// epoch. What it returns depends on the clock alone, so nothing is
/// promised of it; the session clamps it so the liveness timestamp never
/// moves backward.
#[verifier::external_body]
fn now_millis() -> u64 {
    match std::time::SystemTime::now().duration_since(std::time::UNIX_EPOCH) {
        Ok(d) => d.as_millis() as u64,
        Err(_) => 0,
    }
}

/// One frame from the peer, as the transport hands it to the dispatcher.
#[derive(Debug, PartialEq, Eq)]
pub enum InFrame {
    Text(Vec<u8>),
    Binary(Vec<u8>),
    Ping(Vec<u8>),
    Pong(Vec<u8>),
    Close,
}

/// What the dispatcher decides for one inbound frame.
#[derive(Debug, PartialEq, Eq)]
pub enum DispatchOutcome {
    /// A decoded request, to be delivered to exactly this subsystem's queue.
    Route(WebsocketSystem, TaskMessage),
    /// A malformed text frame: the failed envelope goes back to the client,
    /// attributed to no subsystem.
    ProtocolError(ResultMessage),
    /// A ping: the liveness timestamp is updated and the payload echoed
    /// back as a pong.
    EchoPong(Vec<u8>),
    /// A pong: the liveness timestamp is updated, nothing else.
    Heard,
    /// A binary frame: invalid, dropped without an answer.
    Ignore,
    /// A close frame: the dispatcher ends and the session tears down.
    Stop,
}

/// Decides one inbound frame. A text frame is decoded: well-formed, it is
/// routed to the subsystem it names, with exactly the task name and payload
/// it carries; malformed, it becomes a failed result envelope with no
/// subsystem and the decode error's description. Binary frames are
/// dropped, a ping counts as a sign of life and is answered with a pong
/// carrying the same payload, a pong counts as a sign of life alone, and
/// a close ends the session.
pub fn dispatch_frame(frame: InFrame) -> (r: DispatchOutcome)
    ensures
        (match frame {
            InFrame::Text(b) => match sp_json(b@) {
                Some(v) => match decode_spec(v) {
                    Ok(m) => r matches DispatchOutcome::Route(sys, env) && sys == m.system
                        && env.name@ == m.task && env.payload@ == m.payload,
                    Err(e) => r matches DispatchOutcome::ProtocolError(pe) && pe.system is None
                        && pe.success == false && pe.payload@ == JVal::Str(decode_error_text(e)),
                },
                None => r matches DispatchOutcome::ProtocolError(pe) && pe.system is None
                    && pe.success == false && pe.payload@ == JVal::Str(
                    decode_error_text(crate::message::DecodeError::Syntax),
                ),
            },
            InFrame::Binary(_) => r is Ignore,
            InFrame::Ping(p) => r matches DispatchOutcome::EchoPong(q) && q@ == p@,
            InFrame::Pong(_) => r is Heard,
            InFrame::Close => r is Stop,
        }),
{
    match frame {
        InFrame::Text(b) => {
            match crate::message::decode_client_message(&b) {
                Ok(m) => {
                    let sys = m.system;
                    DispatchOutcome::Route(sys, TaskMessage::from(m))
                },
                Err(e) => {
                    DispatchOutcome::ProtocolError(ResultMessage::from_error(e.message(), None))
                },
            }
        },
        InFrame::Binary(_) => DispatchOutcome::Ignore,
        InFrame::Ping(p) => DispatchOutcome::EchoPong(p),
        InFrame::Pong(_) => DispatchOutcome::Heard,
        InFrame::Close => DispatchOutcome::Stop,
    }
}

/// One frame to the peer.
#[derive(Debug, PartialEq, Eq)]
pub enum OutFrame {
    Text(Vec<u8>),
    Ping(Vec<u8>),
    Pong(Vec<u8>),
    Close,
}

/// Model of an outbound event.
pub enum WMView {
    TaskResult(crate::message::RMView),
    Ping(Seq<u8>),
    Pong(Seq<u8>),
    Close,
}

impl View for WebsocketMessage {
    type V = WMView;

    open spec fn view(&self) -> WMView {
        match self {
            WebsocketMessage::TaskResult(m) => WMView::TaskResult(m@),
            WebsocketMessage::Ping(p) => WMView::Ping(p@),
            WebsocketMessage::Pong(p) => WMView::Pong(p@),
            WebsocketMessage::Close => WMView::Close,
        }
    }
}

/// Model of an outbound frame.
pub enum OFView {
    Text(Seq<u8>),
    Ping(Seq<u8>),
    Pong(Seq<u8>),
    Close,
}

impl View for OutFrame {
    type V = OFView;

    open spec fn view(&self) -> OFView {
        match self {
            OutFrame::Text(b) => OFView::Text(b@),
            OutFrame::Ping(p) => OFView::Ping(p@),
            OutFrame::Pong(p) => OFView::Pong(p@),
            OutFrame::Close => OFView::Close,
        }
    }
}

/// The frame one outbound event becomes: a result envelope is printed as a
/// text frame, a probe becomes a ping frame, a pong event becomes a pong
/// frame with the same payload, a close event becomes the close frame.
pub open spec fn frame_of(e: WMView) -> OFView {
    match e {
        WMView::TaskResult(m) => OFView::Text(
            crate::json::ser_val(crate::message::result_json(m)),
        ),
        WMView::Ping(p) => OFView::Ping(p),
        WMView::Pong(p) => OFView::Pong(p),
        WMView::Close => OFView::Close,
    }
}

/// Translates one outbound event to its wire frame; the second part of the
/// pair says whether the relay stops after writing it, which it does
/// exactly on a close.
pub fn relay_step(msg: &WebsocketMessage) -> (r: (OutFrame, bool))
    ensures
        r.0@ == frame_of(msg@),
        r.1 == (msg is Close),
{
    match msg {
        WebsocketMessage::TaskResult(m) => (OutFrame::Text(encode_result(m)), false),
        WebsocketMessage::Ping(p) => (OutFrame::Ping(crate::message::clone_bytes(p)), false),
        WebsocketMessage::Pong(p) => (OutFrame::Pong(crate::message::clone_bytes(p)), false),
        WebsocketMessage::Close => (OutFrame::Close, true),
    }
}

/// What a queue of outbound events becomes on the wire: each event's frame
/// in arrival order, up to and including the first close; events behind a
/// close are dropped, and without one the whole queue is written.
pub open spec fn relay_spec(evs: Seq<WMView>) -> Seq<OFView>
    decreases evs.len(),
{
    if evs.len() == 0 {
        Seq::empty()
    } else if evs[0] is Close {
        seq![OFView::Close]
    } else {
        seq![frame_of(evs[0])] + relay_spec(evs.subrange(1, evs.len() as int))
    }
}

/// The views of a queue of outbound events.
pub open spec fn event_views(evs: Seq<WebsocketMessage>) -> Seq<WMView> {
    Seq::new(evs.len(), |i: int| evs[i]@)
}

/// The views of a queue of outbound frames.
pub open spec fn frame_views(fs: Seq<OutFrame>) -> Seq<OFView> {
    Seq::new(fs.len(), |i: int| fs[i]@)
}

/// Drains a queue of outbound events: exactly `relay_spec` of it.
pub fn relay_batch(events: &Vec<WebsocketMessage>) -> (frames: Vec<OutFrame>)
    ensures
        frame_views(frames@) == relay_spec(event_views(events@)),
{
    let mut out: Vec<OutFrame> = Vec::new();
    let mut x: usize = 0;
    let ghost evs = event_views(events@);
    while x < events.len()
        invariant
            x <= events.len(),
            evs == event_views(events@),
            evs.len() == events@.len(),
            forall|k: int| 0 <= k < x ==> !(#[trigger] evs[k] is Close),
            frame_views(out@).len() == x,
            forall|k: int| 0 <= k < x ==> #[trigger] out@[k]@ == frame_of(evs[k]),
        decreases events@.len() - x,
    {
        let (f, stop) = relay_step(&events[x]);
        out.push(f);
        if stop {
            proof {
                lemma_relay_spec_prefix(evs, x as int + 1);
                assert(frame_views(out@) =~= relay_spec(evs));
            }
            return out;
        }
        x = x + 1;
    }
    proof {
        lemma_relay_spec_all(evs, x as int);
        assert(frame_views(out@) =~= relay_spec(evs));
    }
    out
}

/// Where the first close stands at `n - 1`, the relay writes exactly the
/// first `n` frames.
proof fn lemma_relay_spec_prefix(evs: Seq<WMView>, n: int)
    requires
        1 <= n <= evs.len(),
        forall|k: int| 0 <= k < n - 1 ==> !(#[trigger] evs[k] is Close),
        evs[n - 1] is Close,
    ensures
        relay_spec(evs).len() == n,
        forall|k: int| 0 <= k < n - 1 ==> #[trigger] relay_spec(evs)[k] == frame_of(evs[k]),
        relay_spec(evs)[n - 1] == OFView::Close,
    decreases evs.len(),
{
    if evs[0] is Close {
    } else {
        let tail = evs.subrange(1, evs.len() as int);
        assert(forall|k: int| 0 <= k < n - 2 ==> tail[k] == evs[k + 1]);
        lemma_relay_spec_prefix(tail, n - 1);
        assert(frame_of(evs[n - 1]) == OFView::Close);
        assert forall|k: int| 0 <= k < n - 1 implies #[trigger] relay_spec(evs)[k] == frame_of(
            evs[k],
        ) by {
            if k > 0 {
                assert(relay_spec(evs)[k] == relay_spec(tail)[k - 1]);
                assert(tail[k - 1] == evs[k]);
            }
        }
    }
}

/// Without a close, the relay writes every event's frame.
proof fn lemma_relay_spec_all(evs: Seq<WMView>, n: int)
    requires
        n == evs.len(),
        forall|k: int| 0 <= k < n ==> !(#[trigger] evs[k] is Close),
    ensures
        relay_spec(evs).len() == n,
        forall|k: int| 0 <= k < n ==> #[trigger] relay_spec(evs)[k] == frame_of(evs[k]),
    decreases evs.len(),
{
    if evs.len() > 0 {
        let tail = evs.subrange(1, evs.len() as int);
        assert(forall|k: int| 0 <= k < n - 1 ==> tail[k] == evs[k + 1]);
        lemma_relay_spec_all(tail, n - 1);
        assert forall|k: int| 0 <= k < n implies #[trigger] relay_spec(evs)[k] == frame_of(
            evs[k],
        ) by {
            if k > 0 {
                assert(relay_spec(evs)[k] == relay_spec(tail)[k - 1]);
                assert(tail[k - 1] == evs[k]);
            }
        }
    }
}

} // verus!
