//! The heartbeat monitor's state machine: on each timer tick it compares
//! how long the peer has stayed silent against the timeout threshold, and
//! either emits a liveness probe and stays active or emits the session's
//! close and terminates.

use crate::message::WebsocketMessage;
use vstd::arithmetic::div_mod::{lemma_fundamental_div_mod, lemma_mod_bound};
use vstd::arithmetic::mul::lemma_mul_inequality;
use vstd::prelude::*;

verus! {

/// State of the heartbeat monitor.
#[derive(Clone, Copy, PartialEq, Eq, Structural, Debug)]
pub enum MonitorState {
    Active,
    Terminated,
}

/// Has the peer stayed silent past the timeout at this tick?
pub open spec fn silence_exceeds(now: int, last_heard: int, timeout: int) -> bool {
    now - last_heard > timeout
}

/// One tick of the monitor: past the timeout it emits the close event and
/// terminates; otherwise it emits a probe with an empty payload and stays
/// active. Times are in milliseconds.
pub fn heartbeat_tick(state: MonitorState, now: u64, last_heard: u64, timeout: u64) -> (r: (
    WebsocketMessage,
    MonitorState,
))
    requires
        state == MonitorState::Active,
    ensures
        silence_exceeds(now as int, last_heard as int, timeout as int) ==> r.0 is Close && r.1
            == MonitorState::Terminated,
        !silence_exceeds(now as int, last_heard as int, timeout as int) ==> (match r.0 {
            WebsocketMessage::Ping(p) => p@ == Seq::<u8>::empty(),
            _ => false,
        }) && r.1 == MonitorState::Active,
{
    let elapsed: u64 = if now > last_heard {
        now - last_heard
    } else {
        0
    };
    if elapsed > timeout {
        (WebsocketMessage::Close, MonitorState::Terminated)
    } else {
        (WebsocketMessage::Ping(Vec::new()), MonitorState::Active)
    }
}

/// Heartbeat liveness: with probe interval `p` and timeout `t`, `t > p`,
/// and ticks at `last + p`, `last + 2p`, ... after the peer's last signal
/// at `last`, the first tick emits a probe (so a silent client still
/// receives at least one), every tick up to the `(t/p)`-th emits a probe,
/// and the `(t/p + 1)`-th tick emits the close — no later than `t + p`
/// after the last signal.
pub proof fn lemma_heartbeat_liveness(last: int, p: int, t: int)
    requires
        0 < p < t,
    ensures
        !silence_exceeds(last + p, last, t),
        forall|k: int| 1 <= k <= t / p ==> !#[trigger] silence_exceeds(last + k * p, last, t),
        silence_exceeds(last + (t / p + 1) * p, last, t),
        last + (t / p + 1) * p <= last + t + p,
{
    lemma_fundamental_div_mod(t, p);
    lemma_mod_bound(t, p);
    assert((t / p + 1) * p == (t / p) * p + p) by (nonlinear_arith);
    assert((t / p) * p == p * (t / p)) by (nonlinear_arith);
    assert((t / p + 1) * p == t - t % p + p);
    assert forall|k: int| 1 <= k <= t / p implies !#[trigger] silence_exceeds(
        last + k * p,
        last,
        t,
    ) by {
        lemma_mul_inequality(k, t / p, p);
        assert(k * p <= (t / p) * p);
        assert((t / p) * p == t - t % p);
    }
    assert(1 * p == p) by (nonlinear_arith);
    assert(1 <= t / p) by {
        assert(t / p >= 1) by (nonlinear_arith)
            requires 0 < p < t, t == p * (t / p) + t % p, 0 <= t % p < p,
        ;
    }
}

/// State of the monitor after a run of ticks, each observed as the pair of
/// the tick's time and the liveness timestamp it read: it terminates as
/// soon as one tick finds the peer silent past the timeout, and not before.
pub open spec fn monitor_after(ticks: Seq<(int, int)>, timeout: int) -> MonitorState
    decreases ticks.len(),
{
    if ticks.len() == 0 {
        MonitorState::Active
    } else if monitor_after(ticks.drop_last(), timeout) == MonitorState::Terminated {
        MonitorState::Terminated
    } else if silence_exceeds(ticks.last().0, ticks.last().1, timeout) {
        MonitorState::Terminated
    } else {
        MonitorState::Active
    }
}

/// Heartbeat responsiveness: a client whose signals keep every tick within
/// the timeout is never disconnected, for an arbitrary number of cycles.
pub proof fn lemma_heartbeat_responsiveness(ticks: Seq<(int, int)>, timeout: int)
    requires
        forall|i: int| 0 <= i < ticks.len() ==> #[trigger] ticks[i].0 - ticks[i].1 <= timeout,
    ensures
        monitor_after(ticks, timeout) == MonitorState::Active,
    decreases ticks.len(),
{
    if ticks.len() > 0 {
        assert(forall|i: int|
            0 <= i < ticks.drop_last().len() ==> #[trigger] ticks.drop_last()[i].0
                - ticks.drop_last()[i].1 <= timeout) by {
            assert(forall|i: int|
                0 <= i < ticks.drop_last().len() ==> ticks.drop_last()[i] == ticks[i]);
        }
        lemma_heartbeat_responsiveness(ticks.drop_last(), timeout);
        assert(ticks.last() == ticks[ticks.len() - 1]);
    }
}

} // verus!
