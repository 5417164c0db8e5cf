//! The lifecycle controller: the phases of an orderly shutdown.
//!
//! The process runs, then drains, then is stopped, and never goes back. A
//! shutdown request starts the drain; the process is stopped only when no
//! attempt is in flight any more and the spool has been flushed.

use vstd::prelude::*;

verus! {

/// The phase of the process.
#[derive(Clone, Copy, Debug, PartialEq, Eq, Structural)]
pub enum Phase {
    /// New work is accepted and attempts are started.
    Running,
    /// No new work is accepted; attempts in flight run to their end.
    Draining,
    /// Nothing is in flight and the spool is flushed.
    Stopped,
}

impl Phase {
    /// The place of a phase in the order in which phases follow each other.
    pub open spec fn rank(self) -> nat {
        match self {
            Phase::Running => 0,
            Phase::Draining => 1,
            Phase::Stopped => 2,
        }
    }
}

/// The lifecycle controller.
#[derive(Clone, Copy, Debug, PartialEq, Eq, Structural)]
pub struct LifeCycle {
    /// The current phase.
    pub phase: Phase,
    /// Set when a flush failed during the drain: what the spool had not yet
    /// made durable may be lost.
    pub durability_risk: bool,
}

impl LifeCycle {
    /// The controller after a shutdown request: a running process starts to
    /// drain, any other stays as it is.
    pub open spec fn requested(self) -> LifeCycle {
        if self.phase == Phase::Running {
            LifeCycle { phase: Phase::Draining, ..self }
        } else {
            self
        }
    }

    /// The controller after a report on the drain. A draining process with
    /// nothing in flight stops if the flush succeeded, and notes a
    /// durability risk if it failed; every other report changes nothing.
    pub open spec fn reported(self, idle: bool, flushed: bool) -> LifeCycle {
        if self.phase == Phase::Draining && idle {
            if flushed {
                LifeCycle { phase: Phase::Stopped, ..self }
            } else {
                LifeCycle { durability_risk: true, ..self }
            }
        } else {
            self
        }
    }

    /// Whether the process may exit: it is stopped, or it has drained and
    /// only a failed flush keeps it from being stopped.
    pub open spec fn exit_allowed(self) -> bool {
        self.phase == Phase::Stopped || (self.phase == Phase::Draining && self.durability_risk)
    }

    /// A controller for a process that has just started.
    pub fn new() -> (controller: Self)
        ensures
            controller == (LifeCycle { phase: Phase::Running, durability_risk: false }),
    {
        LifeCycle { phase: Phase::Running, durability_risk: false }
    }

    /// Asks for a shutdown. Returns whether this request started the drain;
    /// a repeated request changes nothing.
    pub fn request_shutdown(&mut self) -> (started: bool)
        ensures
            *final(self) == old(self).requested(),
            started == (old(self).phase == Phase::Running),
            final(self).phase != Phase::Running,
    {
        match self.phase {
            Phase::Running => {
                self.phase = Phase::Draining;
                true
            },
            _ => false,
        }
    }

    /// Takes a report on the drain: whether every queue is idle and whether
    /// the flush of the spool succeeded. Returns the phase after it.
    pub fn report(&mut self, idle: bool, flushed: bool) -> (phase: Phase)
        ensures
            *final(self) == old(self).reported(idle, flushed),
            phase == final(self).phase,
    {
        match self.phase {
            Phase::Draining => {
                if idle {
                    if flushed {
                        self.phase = Phase::Stopped;
                    } else {
                        self.durability_risk = true;
                    }
                }
            },
            _ => {},
        }
        self.phase
    }

    /// Whether new work is accepted.
    pub fn is_running(&self) -> (running: bool)
        ensures
            running == (self.phase == Phase::Running),
    {
        match self.phase {
            Phase::Running => true,
            _ => false,
        }
    }

    /// Whether the process may exit.
    pub fn may_exit(&self) -> (allowed: bool)
        ensures
            allowed == self.exit_allowed(),
    {
        match self.phase {
            Phase::Stopped => true,
            Phase::Draining => self.durability_risk,
            Phase::Running => false,
        }
    }

    /// A shutdown request is idempotent: a second one changes nothing.
    pub proof fn lemma_request_idempotent(self)
        ensures
            self.requested().requested() == self.requested(),
            self.requested().phase != Phase::Running,
    {
    }

    /// No request and no report moves the controller to an earlier phase,
    /// and only a report of an idle, flushed drain stops it.
    pub proof fn lemma_phases_ordered(self, idle: bool, flushed: bool)
        ensures
            self.requested().phase.rank() >= self.phase.rank(),
            self.reported(idle, flushed).phase.rank() >= self.phase.rank(),
            self.reported(idle, flushed).phase == Phase::Stopped && self.phase != Phase::Stopped
                ==> self.phase == Phase::Draining && idle && flushed,
            self.requested().phase == Phase::Stopped ==> self.phase == Phase::Stopped,
    {
    }
}

} // verus!
