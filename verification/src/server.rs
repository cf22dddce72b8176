//! The server's decision logic: bounded admission of connections, the
//! accept loop's exponential backoff, the listener's accept gate, and
//! the handler's per-event state machine. The surrounding I/O (sockets,
//! tasks, the broadcast channel) performs these decisions' actions.

use crate::cmd::{valid_get, valid_set, Command};
use crate::frame::{Frame, FrameModel};
use crate::parse::{bytes_of, text_of};
use crate::store::{live, EntryModel, Store};
use vstd::prelude::*;
use vstd::string::StringExecFns;

verus! {

/// The fixed bound on concurrently served connections.
pub const MAX_CONNECTIONS: usize = 250;

/// The ceiling, in time units, beyond which an accept retry gives up.
pub const MAX_BACKOFF: u64 = 64;

/// A counting admission permit: at most `capacity` connections are
/// served at once; further attempts wait rather than being rejected.
pub struct Admission {
    capacity: usize,
    active: usize,
}

impl Admission {
    /// The bound this admission control enforces.
    pub closed spec fn capacity(&self) -> int {
        self.capacity as int
    }

    /// How many permits are currently held.
    pub closed spec fn active(&self) -> int {
        self.active as int
    }

    /// Never more holders than the capacity.
    pub closed spec fn wf(&self) -> bool {
        self.active <= self.capacity
    }

    /// Fresh admission control with all permits free.
    pub fn new(capacity: usize) -> (a: Admission)
        ensures
            a.wf(),
            a.capacity() == capacity,
            a.active() == 0,
    {
        Admission { capacity, active: 0 }
    }

    /// Takes one permit when one is free: the next connection is
    /// admitted if and only if fewer than `capacity` are being served,
    /// so the capacity-plus-first concurrent attempt waits until some
    /// earlier connection finishes.
    pub fn try_acquire(&mut self) -> (ok: bool)
        requires
            old(self).wf(),
        ensures
            final(self).wf(),
            final(self).capacity() == old(self).capacity(),
            ok <==> old(self).active() < old(self).capacity(),
            ok ==> final(self).active() == old(self).active() + 1,
            !ok ==> final(self).active() == old(self).active(),
    {
        if self.active < self.capacity {
            self.active = self.active + 1;
            true
        } else {
            false
        }
    }

    /// Returns a permit when its connection finishes, whatever the
    /// outcome of the connection was.
    pub fn release(&mut self)
        requires
            old(self).wf(),
            old(self).active() > 0,
        ensures
            final(self).wf(),
            final(self).capacity() == old(self).capacity(),
            final(self).active() == old(self).active() - 1,
    {
        self.active = self.active - 1;
    }
}

/// With admission full, one more attempt fails the admission test that
/// `try_acquire` decides by; once any holder releases, the count is
/// back under the bound and the same test admits the next attempt.
pub proof fn lemma_admission_blocks(a: Admission)
    requires
        a.wf(),
        a.active() == a.capacity(),
    ensures
        !(a.active() < a.capacity()),
        a.active() > 0 ==> a.active() - 1 < a.capacity(),
{
}

/// The accept loop's retry delay: starts at one time unit and doubles
/// on each transient failure; past the ceiling the listener gives up.
pub struct AcceptBackoff {
    delay: u64,
}

impl AcceptBackoff {
    /// The delay to sleep before the next retry.
    pub closed spec fn delay(&self) -> u64 {
        self.delay
    }

    /// The delay stays within one doubling of the ceiling.
    pub closed spec fn wf(&self) -> bool {
        1 <= self.delay <= 2 * MAX_BACKOFF
    }

    /// A fresh backoff of one time unit.
    pub fn new() -> (b: AcceptBackoff)
        ensures
            b.wf(),
            b.delay() == 1,
    {
        AcceptBackoff { delay: 1 }
    }

    /// The current delay, for the caller's sleep.
    pub fn current(&self) -> (d: u64)
        ensures
            d == self.delay(),
    {
        self.delay
    }

    /// Registers one failed accept: fatal exactly when the delay has
    /// already passed the ceiling, otherwise the delay doubles.
    pub fn on_error(&mut self) -> (fatal: bool)
        requires
            old(self).wf(),
        ensures
            final(self).wf(),
            fatal <==> old(self).delay() > MAX_BACKOFF,
            !fatal ==> final(self).delay() == 2 * old(self).delay(),
            fatal ==> final(self).delay() == old(self).delay(),
    {
        if self.delay > MAX_BACKOFF {
            true
        } else {
            self.delay = self.delay * 2;
            false
        }
    }
}

/// Whether the accept loop takes another connection: only while no
/// shutdown has been triggered and a permit is free.
pub fn listener_should_accept(shutdown_triggered: bool, admission: &Admission) -> (r: bool)
    requires
        admission.wf(),
    ensures
        r <==> (!shutdown_triggered && admission.active() < admission.capacity()),
        shutdown_triggered ==> !r,
{
    if shutdown_triggered {
        false
    } else {
        admission.active < admission.capacity
    }
}

/// A connection handler's phase: serving requests, finishing the last
/// response after a shutdown request, or done.
#[derive(Debug, Clone, Copy, PartialEq, Eq, Structural)]
pub enum HandlerState {
    Running,
    Draining,
    Closed,
}

/// What the handler's race between reading and the shutdown signal
/// produced.
#[derive(Debug)]
pub enum ConnEvent {
    FrameArrived(Frame),
    StreamEnded,
    ShutdownSignal,
    TransportFailed,
}

/// What the caller must do next: write a frame to the client, or
/// nothing.
#[derive(Debug)]
pub enum HandlerAction {
    Respond(Frame),
    Stop,
}

/// The reply a GET for `key` is owed at time `now`.
pub open spec fn get_response(m: Map<Seq<char>, EntryModel>, key: Seq<char>, now: u64) -> FrameModel {
    if m.contains_key(key) && live(m[key], now) {
        FrameModel::Bulk(m[key].data)
    } else {
        FrameModel::Null
    }
}

/// One step of the handler's request/response loop. A message whose
/// read already won the race is processed fully and answered even when
/// shutdown is pending (the handler then drains); every other event,
/// and every state but `Running`, closes the handler without touching
/// the store.
pub fn handler_step(
    state: HandlerState,
    shutdown_pending: bool,
    event: ConnEvent,
    store: &mut Store,
    now: u64,
) -> (r: (HandlerState, HandlerAction))
    requires
        old(store).wf(),
        old(store).generation() < u64::MAX,
    ensures
        final(store).wf(),
        final(store).closing() == old(store).closing(),
        !(state is Running) ==> r.0 is Closed && r.1 is Stop && *final(store) == *old(store),
        state is Running && !(event is FrameArrived) ==> r.0 is Closed && r.1 is Stop && *final(store) == *old(store),
        state is Running ==> match event {
            ConnEvent::FrameArrived(f) => {
            let m = f.model();
            &&& valid_get(m) ==> (r.1 matches HandlerAction::Respond(resp) && resp.model()
                == get_response(old(store).map(), text_of(m->Array_0[1]), now) && *final(store)
                == *old(store) && r.0 == (if shutdown_pending {
                HandlerState::Draining
            } else {
                HandlerState::Running
            }))
            &&& valid_set(m) ==> (r.1 matches HandlerAction::Respond(resp) && resp.model()
                == FrameModel::Simple("OK"@) && final(store).map() == old(store).map().insert(
                text_of(m->Array_0[1]),
                EntryModel {
                    id: old(store).generation(),
                    data: bytes_of(m->Array_0[2]),
                    expires_at: None,
                },
            ) && final(store).sched() == old(store).sched() && r.0 == (if shutdown_pending {
                HandlerState::Draining
            } else {
                HandlerState::Running
            }))
            &&& !valid_get(m) && !valid_set(m) ==> r.0 is Closed && (r.1 matches
                HandlerAction::Respond(resp) && resp.model() is Error) && *final(store) == *old(store)
            },
            _ => true,
        },
        shutdown_pending ==> !(r.0 is Running),
{
    match state {
        HandlerState::Running => {
            match event {
                ConnEvent::FrameArrived(f) => {
                    match Command::from_frame(f) {
                        Ok(Command::Get(g)) => {
                            let resp = g.apply(store, now);
                            let next = if shutdown_pending {
                                HandlerState::Draining
                            } else {
                                HandlerState::Running
                            };
                            (next, HandlerAction::Respond(resp))
                        },
                        Ok(Command::SetCmd(s)) => {
                            let resp = s.apply(store, now);
                            let next = if shutdown_pending {
                                HandlerState::Draining
                            } else {
                                HandlerState::Running
                            };
                            (next, HandlerAction::Respond(resp))
                        },
                        Err(e) => {
                            let mut text = String::from_str("unexpected frame; ");
                            text.append(e.message().as_str());
                            (HandlerState::Closed, HandlerAction::Respond(Frame::Error(text)))
                        },
                    }
                },
                _ => (HandlerState::Closed, HandlerAction::Stop),
            }
        },
        _ => (HandlerState::Closed, HandlerAction::Stop),
    }
}

} // verus!
