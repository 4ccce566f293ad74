//! Supervisor decision logic: the bounded-backoff policy of the accept loop
//! and the per-handler state machine. The surrounding event loop — sockets,
//! timers, task spawning — performs the actions these functions decide.

use vstd::prelude::*;

verus! {

use crate::frame::Frame;

/// The retry policy of one `accept` attempt sequence: the delay doubles after
/// every failure, starting at one time unit, and once it has grown past 64
/// units the next failure is fatal to the whole server.
pub struct AcceptBackoff {
    backoff: u64,
}

impl AcceptBackoff {
    /// The delay, in time units, that the next failure will impose.
    pub closed spec fn current(&self) -> u64 {
        self.backoff
    }

    /// A fresh policy: the first retry waits one time unit.
    pub fn new() -> (p: AcceptBackoff)
        ensures
            p.current() == 1,
    {
        AcceptBackoff { backoff: 1 }
    }

    /// Decide what one more failed accept attempt means: `Some(delay)` tells
    /// the caller to pause that many time units and retry, doubling the
    /// stored delay; `None` says the failure is fatal and the error must
    /// propagate to stop the server.
    pub fn on_failure(&mut self) -> (r: Option<u64>)
        ensures
            old(self).current() > 64 ==> r is None && *final(self) == *old(self),
            old(self).current() <= 64 ==> r == Some(old(self).current())
                && final(self).current() == 2 * old(self).current(),
    {
        if self.backoff > 64 {
            None
        } else {
            let delay = self.backoff;
            self.backoff = self.backoff * 2;
            Some(delay)
        }
    }
}

/// What one handler iteration observed.
pub enum HandlerEvent {
    /// A complete frame arrived on the connection.
    Frame(Frame),
    /// The peer closed its write side with the buffer empty.
    EndOfStream,
    /// The shutdown broadcast was observed at a safe point.
    ShutdownObserved,
    /// The connection failed: a transport error or malformed bytes.
    ConnectionError,
}

/// What the handler must do next.
pub enum HandlerAction {
    /// Write this frame back to the peer.
    Echo(Frame),
    /// Stop cleanly without touching the socket further.
    Stop,
    /// Stop and report the connection's failure; other connections and the
    /// supervisor are unaffected.
    Fail,
}

/// The lifecycle of one handler.
#[derive(Clone, Copy, Debug, PartialEq, Eq, Structural)]
pub enum HandlerState {
    Active,
    Terminated,
    TerminatedWithError,
}

/// One transition of the per-handler state machine: a received frame is
/// dispatched (echoed) and the handler stays active; end of stream and
/// shutdown terminate it cleanly; a connection error terminates it with an
/// error that never propagates past the handler.
pub fn handler_step(state: HandlerState, event: HandlerEvent) -> (r: (HandlerState, HandlerAction))
    requires
        state is Active,
    ensures
        match event {
            HandlerEvent::Frame(f) => r.0 is Active && (r.1 matches HandlerAction::Echo(g)
                && g@ == f@),
            HandlerEvent::EndOfStream => r.0 is Terminated && r.1 is Stop,
            HandlerEvent::ShutdownObserved => r.0 is Terminated && r.1 is Stop,
            HandlerEvent::ConnectionError => r.0 is TerminatedWithError && r.1 is Fail,
        },
{
    match event {
        HandlerEvent::Frame(f) => (HandlerState::Active, HandlerAction::Echo(f)),
        HandlerEvent::EndOfStream => (HandlerState::Terminated, HandlerAction::Stop),
        HandlerEvent::ShutdownObserved => (HandlerState::Terminated, HandlerAction::Stop),
        HandlerEvent::ConnectionError => (
            HandlerState::TerminatedWithError,
            HandlerAction::Fail,
        ),
    }
}

} // verus!
