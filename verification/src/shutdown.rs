//! Cooperative shutdown: one origin broadcasts a single zero-payload event to
//! any number of observers, each of which turns sticky once it has seen the
//! event. The channel that actually wakes sleeping observers is the caller's
//! concern; this module carries the state that decides behaviour.

use vstd::prelude::*;

verus! {

/// The single process-wide origin of the shutdown event.
pub struct Coordinator {
    fired: bool,
}

/// One observer of the shutdown broadcast, owned by a single handler.
/// Its report is sticky: once true it stays true forever.
pub struct Shutdown {
    observed: bool,
}

impl Coordinator {
    /// The broadcast has been sent at least once.
    pub closed spec fn has_fired(&self) -> bool {
        self.fired
    }

    /// A fresh coordinator that has not yet broadcast.
    pub fn new() -> (c: Coordinator)
        ensures
            !c.has_fired(),
    {
        Coordinator { fired: false }
    }

    /// Broadcast the shutdown event. The first broadcast is definitive;
    /// repeating it changes nothing.
    pub fn broadcast(&mut self)
        ensures
            final(self).has_fired(),
    {
        self.fired = true;
    }

    /// A new observer. One subscribed after the broadcast has fired starts
    /// out already signalled: late subscription never hangs.
    pub fn subscribe(&self) -> (o: Shutdown)
        ensures
            o.is_shutdown_spec() == self.has_fired(),
    {
        Shutdown { observed: self.fired }
    }
}

impl Shutdown {
    /// This observer has seen the shutdown event.
    pub closed spec fn is_shutdown_spec(&self) -> bool {
        self.observed
    }

    /// Whether shutdown has been observed; sticky, true forever once seen.
    pub fn is_shutdown(&self) -> (b: bool)
        ensures
            b == self.is_shutdown_spec(),
    {
        self.observed
    }

    /// Record that the broadcast reached this observer (its wait on the
    /// signal resolved). Never un-observes: the transition is one-way.
    pub fn note_signal(&mut self)
        ensures
            final(self).is_shutdown_spec(),
    {
        self.observed = true;
    }
}

/// Law: after the coordinator has broadcast shutdown, every observer it hands
/// out reports shutdown immediately — late subscription never waits.
pub proof fn lemma_late_subscriber_sees_shutdown(c: Coordinator, o: Shutdown)
    requires
        c.has_fired(),
        o.is_shutdown_spec() == c.has_fired(),
    ensures
        o.is_shutdown_spec(),
{
}

} // verus!
