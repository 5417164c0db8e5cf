//! What follows from the result of a delivery attempt.
//!
//! An attempt ends with a report from the transport. The queue's configuration
//! turns the report into a disposition, and the disposition together with the
//! record's retry state decides whether the record is delivered, delayed or
//! bounced.

use crate::record::{FailureClass, MessageRecord, RecordState, RecordView};
use crate::retry::RetryPolicy;
use vstd::prelude::*;

verus! {

/// Default status code from which a response counts as a transient failure.
pub const DEFAULT_TRANSIENT_FROM: u16 = 400;

/// Default status code from which a response counts as a permanent failure.
pub const DEFAULT_PERMANENT_FROM: u16 = 500;

/// What the transport reports at the end of one attempt.
#[derive(Clone, Copy, Debug, PartialEq, Eq, Structural)]
pub enum AttemptOutcome {
    /// The destination answered the transmission with this status code.
    Response { code: u16 },
    /// The connection failed before any protocol exchange began.
    ConnectionFailed,
    /// A per-operation timeout ran out during the exchange.
    TimedOut,
}

/// How an outcome is to be treated.
#[derive(Clone, Copy, Debug, PartialEq, Eq, Structural)]
pub enum Disposition {
    /// The message was handed over.
    Success,
    /// Worth retrying; `counted` says whether the failure is charged to the
    /// message's attempt count.
    Transient { counted: bool },
    /// Retrying is pointless.
    Permanent,
}

/// Per-queue parameters: retry schedule and classification of outcomes.
#[derive(Clone, Copy, Debug, PartialEq, Eq, Structural)]
pub struct QueueConfig {
    pub retry: RetryPolicy,
    /// Responses with a code below this are successes.
    pub transient_from: u16,
    /// Responses with a code from this upwards are permanent failures.
    pub permanent_from: u16,
    /// Whether a connection failure before any exchange is charged to the
    /// message's attempt count.
    pub count_connection_failures: bool,
}

/// What the spool has to do to make a resolved outcome durable.
#[derive(Clone, Copy, Debug, PartialEq, Eq, Structural)]
pub enum SpoolInstruction {
    /// Store the new retry state of a record that stays in the queue.
    Persist { id: u64, attempts: u32, due: u64, last_error: Option<FailureClass> },
    /// Delete the entry of a record that reached a terminal state.
    Release { id: u64 },
}

/// The instruction that makes the state of a resolved record durable.
pub open spec fn instruction_for(record: RecordView) -> SpoolInstruction {
    if record.state.is_terminal() {
        SpoolInstruction::Release { id: record.id }
    } else {
        SpoolInstruction::Persist {
            id: record.id,
            attempts: record.attempts,
            due: record.due,
            last_error: record.last_error,
        }
    }
}

impl QueueConfig {
    /// A configuration is usable when its retry policy is and the two
    /// thresholds are in order.
    pub open spec fn wf(&self) -> bool {
        &&& self.retry.wf()
        &&& self.transient_from <= self.permanent_from
    }

    /// The disposition of an outcome under this configuration.
    pub open spec fn classify(&self, outcome: AttemptOutcome) -> Disposition {
        match outcome {
            AttemptOutcome::Response { code } => if code < self.transient_from {
                Disposition::Success
            } else if code < self.permanent_from {
                Disposition::Transient { counted: true }
            } else {
                Disposition::Permanent
            },
            AttemptOutcome::ConnectionFailed => Disposition::Transient {
                counted: self.count_connection_failures,
            },
            AttemptOutcome::TimedOut => Disposition::Transient { counted: true },
        }
    }

    /// The attempt count after a transient failure.
    pub open spec fn charged(attempts: u32, counted: bool) -> u32 {
        if counted && attempts < u32::MAX {
            (attempts + 1) as u32
        } else {
            attempts
        }
    }

    /// The record after an attempt that ended at `now` with `outcome`.
    ///
    /// A success delivers. A permanent failure bounces. A transient failure
    /// bounces a record that has already used all its attempts, and delays
    /// any other until the rescheduled due time.
    pub open spec fn resolved(&self, record: RecordView, outcome: AttemptOutcome, now: u64)
        -> RecordView {
        match self.classify(outcome) {
            Disposition::Success => RecordView { state: RecordState::Delivered, ..record },
            Disposition::Permanent => RecordView {
                state: RecordState::Bounced,
                last_error: Some(FailureClass::Permanent),
                ..record
            },
            Disposition::Transient { counted } => {
                let attempts = Self::charged(record.attempts, counted);
                if record.attempts >= self.retry.max_attempts {
                    RecordView {
                        state: RecordState::Bounced,
                        attempts,
                        last_error: Some(FailureClass::Transient),
                        ..record
                    }
                } else {
                    RecordView {
                        state: RecordState::Delayed,
                        attempts,
                        last_error: Some(FailureClass::Transient),
                        due: self.retry.next_due(now, record.due, attempts as nat) as u64,
                        ..record
                    }
                }
            },
        }
    }

    /// The documented defaults as a value.
    pub open spec fn defaults() -> QueueConfig {
        QueueConfig {
            retry: RetryPolicy::defaults(),
            transient_from: DEFAULT_TRANSIENT_FROM,
            permanent_from: DEFAULT_PERMANENT_FROM,
            count_connection_failures: false,
        }
    }

    /// The configuration with the documented defaults.
    pub fn standard() -> (config: Self)
        ensures
            config.wf(),
            config == Self::defaults(),
    {
        QueueConfig {
            retry: RetryPolicy::standard(),
            transient_from: DEFAULT_TRANSIENT_FROM,
            permanent_from: DEFAULT_PERMANENT_FROM,
            count_connection_failures: false,
        }
    }

    /// Whether the configuration can be used.
    pub fn is_valid(&self) -> (ok: bool)
        ensures
            ok == self.wf(),
    {
        self.retry.is_valid() && self.transient_from <= self.permanent_from
    }

    /// Classifies an outcome.
    pub fn disposition(&self, outcome: AttemptOutcome) -> (d: Disposition)
        ensures
            d == self.classify(outcome),
    {
        match outcome {
            AttemptOutcome::Response { code } => if code < self.transient_from {
                Disposition::Success
            } else if code < self.permanent_from {
                Disposition::Transient { counted: true }
            } else {
                Disposition::Permanent
            },
            AttemptOutcome::ConnectionFailed => Disposition::Transient {
                counted: self.count_connection_failures,
            },
            AttemptOutcome::TimedOut => Disposition::Transient { counted: true },
        }
    }

    /// Applies the outcome of an attempt to the record it was made for.
    pub fn resolve(&self, record: MessageRecord, outcome: AttemptOutcome, now: u64) -> (next:
        MessageRecord)
        requires
            self.wf(),
        ensures
            next@ == self.resolved(record@, outcome, now),
    {
        let mut next = record;
        match self.disposition(outcome) {
            Disposition::Success => {
                next.state = RecordState::Delivered;
            },
            Disposition::Permanent => {
                next.state = RecordState::Bounced;
                next.last_error = Some(FailureClass::Permanent);
            },
            Disposition::Transient { counted } => {
                let exhausted: bool = next.attempts >= self.retry.max_attempts;
                if counted && next.attempts < u32::MAX {
                    next.attempts = next.attempts + 1;
                }
                next.last_error = Some(FailureClass::Transient);
                if exhausted {
                    next.state = RecordState::Bounced;
                } else {
                    next.state = RecordState::Delayed;
                    next.due = self.retry.reschedule(now, next.due, next.attempts);
                }
            },
        }
        next
    }

    /// The instruction that makes the state of a resolved record durable.
    pub fn instruction(record: &MessageRecord) -> (op: SpoolInstruction)
        ensures
            op == instruction_for(record@),
    {
        if record.state.terminal() {
            SpoolInstruction::Release { id: record.id }
        } else {
            SpoolInstruction::Persist {
                id: record.id,
                attempts: record.attempts,
                due: record.due,
                last_error: record.last_error,
            }
        }
    }

    /// No outcome lowers the attempt count, and every outcome moves the
    /// record to `Delivered`, `Delayed` or `Bounced` and leaves its identity
    /// and envelope alone.
    pub proof fn lemma_resolved_shape(&self, record: RecordView, outcome: AttemptOutcome, now: u64)
        ensures
            self.resolved(record, outcome, now).attempts >= record.attempts,
            self.resolved(record, outcome, now).id == record.id,
            self.resolved(record, outcome, now).envelope == record.envelope,
            self.resolved(record, outcome, now).body_ref == record.body_ref,
            ({
                let s = self.resolved(record, outcome, now).state;
                s == RecordState::Delivered || s == RecordState::Delayed || s
                    == RecordState::Bounced
            }),
            self.resolved(record, outcome, now).state == RecordState::Delivered
                <==> self.classify(outcome) == Disposition::Success,
    {
    }

    /// A record that is delayed by a failure gets a due time strictly after
    /// its previous one and no earlier than the failure, at a distance from
    /// the later of the two that the configured maximum bounds.
    pub proof fn lemma_backoff_monotone(
        &self,
        record: RecordView,
        outcome: AttemptOutcome,
        now: u64,
    )
        requires
            self.wf(),
            record.due < u64::MAX,
            self.resolved(record, outcome, now).state == RecordState::Delayed,
        ensures
            self.resolved(record, outcome, now).due > record.due,
            self.resolved(record, outcome, now).due >= now,
            self.resolved(record, outcome, now).due <= (if now < record.due {
                record.due
            } else {
                now
            }) + self.retry.max_interval,
    {
        let counted = self.classify(outcome)->counted;
        let attempts = Self::charged(record.attempts, counted);
        self.retry.lemma_interval_bounded(attempts as nat);
        self.retry.lemma_next_due_later(now, record.due, attempts as nat);
    }

    /// A record that has used all its attempts leaves the queue on its next
    /// outcome: delivered on a success, bounced on a failure of any kind.
    pub proof fn lemma_exhausted_is_terminal(
        &self,
        record: RecordView,
        outcome: AttemptOutcome,
        now: u64,
    )
        requires
            record.attempts >= self.retry.max_attempts,
        ensures
            self.resolved(record, outcome, now).state.is_terminal(),
            self.classify(outcome) != Disposition::Success ==> self.resolved(
                record,
                outcome,
                now,
            ).state == RecordState::Bounced,
    {
    }

    /// The record after a run of attempts, each given by its outcome and
    /// the time at which it ended.
    pub open spec fn after_outcomes(&self, record: RecordView, ends: Seq<(AttemptOutcome, u64)>)
        -> RecordView
        decreases ends.len(),
    {
        if ends.len() == 0 {
            record
        } else {
            self.resolved(
                self.after_outcomes(record, ends.drop_last()),
                ends.last().0,
                ends.last().1,
            )
        }
    }

    /// Whether every attempt of a run ends in a delay.
    pub open spec fn all_delayed(&self, record: RecordView, ends: Seq<(AttemptOutcome, u64)>)
        -> bool
        decreases ends.len(),
    {
        ends.len() == 0 || (self.all_delayed(record, ends.drop_last()) && self.after_outcomes(
            record,
            ends,
        ).state == RecordState::Delayed)
    }

    /// Backoff monotonicity: over a run of consecutive failures that each
    /// delay the record, every due time lies strictly after the one before,
    /// so that the last lies at least as many time units after the first as
    /// there were failures; and the attempt count never falls. The end of
    /// time, where due times cannot rise any more, is left out.
    pub proof fn lemma_consecutive_failures(
        &self,
        record: RecordView,
        ends: Seq<(AttemptOutcome, u64)>,
    )
        requires
            self.wf(),
            self.all_delayed(record, ends),
            self.after_outcomes(record, ends).due < u64::MAX,
        ensures
            self.after_outcomes(record, ends).due >= record.due + ends.len(),
            self.after_outcomes(record, ends).attempts >= record.attempts,
            ends.len() > 0 ==> self.after_outcomes(record, ends).due > self.after_outcomes(
                record,
                ends.drop_last(),
            ).due,
        decreases ends.len(),
    {
        if ends.len() > 0 {
            let before = self.after_outcomes(record, ends.drop_last());
            let outcome = ends.last().0;
            let now = ends.last().1;
            let counted = self.classify(outcome)->counted;
            let attempts = Self::charged(before.attempts, counted);
            self.retry.lemma_interval_bounded(attempts as nat);
            assert(before.due < u64::MAX);
            self.lemma_backoff_monotone(before, outcome, now);
            self.lemma_resolved_shape(before, outcome, now);
            self.lemma_consecutive_failures(record, ends.drop_last());
        }
    }
}

} // verus!
