//! The connection handler's accept/drain state machine.
//!
//! One handler owns one listening socket for one mapping. The caller runs
//! the I/O loop: it feeds each observed event (bind outcome, accepted
//! connection, finished connection, cancellation) into [`Handler::step`] and
//! performs the returned action. Cancellation is cooperative: it is only
//! observed while waiting at the accept point, never mid-transfer, and it
//! drains — connections already open keep running until they finish on
//! their own.

use vstd::prelude::*;

use crate::config::IntMapping;

verus! {

/// The fixed bind backoff, in seconds: how long [`HandlerAction::Backoff`]
/// waits before the next bind attempt.
pub const BIND_BACKOFF_SECS: u64 = 5;

/// Where the handler stands.
#[derive(Clone, Copy, PartialEq, Eq, Structural, Debug)]
pub enum HandlerPhase {
    /// Trying to bind the listening socket (retrying with backoff).
    Binding,
    /// Bound; accepting connections.
    Accepting,
    /// Cancelled; no longer accepting, waiting for open connections.
    Draining,
    /// Finished; the handler task returns successfully.
    Done,
}

/// What the I/O loop observed.
#[derive(Clone, Copy, PartialEq, Eq, Structural, Debug)]
pub enum HandlerEvent {
    /// The listening socket bound successfully.
    BindSucceeded,
    /// Binding failed.
    BindFailed,
    /// The cancellation handle fired while waiting at the accept point.
    Cancelled,
    /// A connection was accepted.
    Accepted,
    /// An accept attempt failed.
    AcceptFailed,
    /// One spawned connection task finished.
    ConnFinished,
}

/// What the I/O loop must do next.
#[derive(Clone, Copy, PartialEq, Eq, Structural, Debug)]
pub enum HandlerAction {
    /// Sleep the fixed backoff, then try binding again.
    Backoff,
    /// Wait on accept, cancellation, or a finished connection.
    AwaitNext,
    /// Spawn an independent relay task for the accepted connection, then
    /// wait again.
    SpawnConnection,
    /// Stop accepting (drop the listener) and wait for open connections.
    WaitConnections,
    /// Return successfully.
    ReturnSuccess,
}

/// The handler's state: its phase, how many accepted connections are still
/// running, and the mapping it serves.
#[derive(Clone, Copy, PartialEq, Eq, Structural, Debug)]
pub struct Handler {
    pub phase: HandlerPhase,
    pub open_conns: u64,
    pub mapping: IntMapping,
}

/// Which events can be observed in which phase. Cancellation is only
/// observed at the accept point; connection tasks can finish while
/// accepting or draining; nothing is observed once done.
pub open spec fn event_allowed(h: Handler, ev: HandlerEvent) -> bool {
    match ev {
        HandlerEvent::BindSucceeded => h.phase is Binding,
        HandlerEvent::BindFailed => h.phase is Binding,
        HandlerEvent::Cancelled => h.phase is Accepting,
        HandlerEvent::Accepted => h.phase is Accepting && h.open_conns < u64::MAX,
        HandlerEvent::AcceptFailed => h.phase is Accepting,
        HandlerEvent::ConnFinished => (h.phase is Accepting || h.phase is Draining)
            && h.open_conns > 0,
    }
}

/// The transition relation, as a function: the next state and the action
/// the I/O loop must perform.
pub open spec fn spec_step(h: Handler, ev: HandlerEvent) -> (Handler, HandlerAction) {
    match ev {
        HandlerEvent::BindSucceeded => (
            Handler { phase: HandlerPhase::Accepting, ..h },
            HandlerAction::AwaitNext,
        ),
        HandlerEvent::BindFailed => (h, HandlerAction::Backoff),
        HandlerEvent::Cancelled => {
            if h.open_conns == 0 {
                (Handler { phase: HandlerPhase::Done, ..h }, HandlerAction::ReturnSuccess)
            } else {
                (Handler { phase: HandlerPhase::Draining, ..h }, HandlerAction::WaitConnections)
            }
        },
        HandlerEvent::Accepted => (
            Handler { open_conns: (h.open_conns + 1) as u64, ..h },
            HandlerAction::SpawnConnection,
        ),
        HandlerEvent::AcceptFailed => (h, HandlerAction::AwaitNext),
        HandlerEvent::ConnFinished => {
            let n = (h.open_conns - 1) as u64;
            if h.phase is Draining && n == 0 {
                (
                    Handler { phase: HandlerPhase::Done, open_conns: n, ..h },
                    HandlerAction::ReturnSuccess,
                )
            } else {
                (
                    Handler { open_conns: n, ..h },
                    if h.phase is Draining {
                        HandlerAction::WaitConnections
                    } else {
                        HandlerAction::AwaitNext
                    },
                )
            }
        },
    }
}

impl Handler {
    /// A fresh handler for one mapping: not yet bound, nothing open. The
    /// first action is to try binding.
    pub fn new(mapping: IntMapping) -> (r: Handler)
        ensures
            r == (Handler { phase: HandlerPhase::Binding, open_conns: 0, mapping }),
    {
        Handler { phase: HandlerPhase::Binding, open_conns: 0, mapping }
    }

    /// Feeds one observed event in; returns the action to perform.
    pub fn step(&mut self, ev: HandlerEvent) -> (action: HandlerAction)
        requires
            event_allowed(*old(self), ev),
        ensures
            (*final(self), action) == spec_step(*old(self), ev),
            final(self).mapping == old(self).mapping,
    {
        match ev {
            HandlerEvent::BindSucceeded => {
                self.phase = HandlerPhase::Accepting;
                HandlerAction::AwaitNext
            },
            HandlerEvent::BindFailed => HandlerAction::Backoff,
            HandlerEvent::Cancelled => {
                if self.open_conns == 0 {
                    self.phase = HandlerPhase::Done;
                    HandlerAction::ReturnSuccess
                } else {
                    self.phase = HandlerPhase::Draining;
                    HandlerAction::WaitConnections
                }
            },
            HandlerEvent::Accepted => {
                self.open_conns = self.open_conns + 1;
                HandlerAction::SpawnConnection
            },
            HandlerEvent::AcceptFailed => HandlerAction::AwaitNext,
            HandlerEvent::ConnFinished => {
                self.open_conns = self.open_conns - 1;
                let draining = self.phase == HandlerPhase::Draining;
                if draining && self.open_conns == 0 {
                    self.phase = HandlerPhase::Done;
                    HandlerAction::ReturnSuccess
                } else if draining {
                    HandlerAction::WaitConnections
                } else {
                    HandlerAction::AwaitNext
                }
            },
        }
    }
}

/// Drain correctness: once cancellation has been observed (the handler is
/// draining or done), no event can accept a new connection — acceptance is
/// not even observable — and the open count never grows; a connection open
/// at cancellation time can still finish ([`HandlerEvent::ConnFinished`]
/// stays observable while any is open), and only when the last one finishes
/// does the handler return.
pub proof fn lemma_drain_correct(h: Handler, ev: HandlerEvent)
    requires
        h.phase is Draining || h.phase is Done,
        event_allowed(h, ev),
    ensures
        !(ev is Accepted),
        !(spec_step(h, ev).1 is SpawnConnection),
        spec_step(h, ev).0.open_conns <= h.open_conns,
        spec_step(h, ev).0.phase is Draining || spec_step(h, ev).0.phase is Done,
        spec_step(h, ev).0.phase is Done <==> spec_step(h, ev).0.open_conns == 0,
        h.phase is Draining && h.open_conns > 0 ==> event_allowed(h, HandlerEvent::ConnFinished),
        spec_step(h, ev).1 is ReturnSuccess <==> spec_step(h, ev).0.open_conns == 0,
{
}

} // verus!
