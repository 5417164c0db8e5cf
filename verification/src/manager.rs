//! The queue manager: the registry of queues, by routing key.
//!
//! The manager takes newly spooled records, finds or creates the queue of
//! each record's routing key and hands the record to it. It drives the
//! queues' scheduling steps against the destination sites, applies the
//! outcomes of attempts, and follows the lifecycle: once a shutdown is
//! requested it takes no new record and starts no new attempt.

use crate::lifecycle::{LifeCycle, Phase};
use crate::policy::{instruction_for, AttemptOutcome, QueueConfig};
use crate::queue::{
    dispatch_count, dispatch_views, has_id, index_of_id, lemma_has_id_parts, AdmitError,
    CompleteError, Completion, Dispatch, DispatchView, Queue, QueueView,
};
use crate::record::{MessageRecord, RecordState, RecordView};
use crate::site::{pool_after, ConfigureError, DestSiteConfig, SiteManager};
use vstd::prelude::*;

verus! {

/// Why a record was not routed.
#[derive(Clone, Copy, Debug, PartialEq, Eq, Structural)]
pub enum RouteError {
    /// A shutdown was requested; no new record is taken.
    Draining,
    /// The record is already delivered or bounced.
    Terminal,
    /// Some queue already owns a record with this identifier.
    Duplicate,
}

/// Why an outcome was not applied.
#[derive(Clone, Copy, Debug, PartialEq, Eq, Structural)]
pub enum OutcomeError {
    /// No queue has an attempt in flight for this identifier.
    NotInFlight,
}

/// Why a queue configuration was not put in force.
#[derive(Clone, Copy, Debug, PartialEq, Eq, Structural)]
pub enum QueueConfigError {
    /// The intervals are not positive and ordered, or the thresholds are out
    /// of order.
    Invalid,
}

/// What the queues report when asked to drain.
#[derive(Clone, Copy, Debug, PartialEq, Eq, Structural)]
pub struct DrainReport {
    /// Whether no queue has an attempt in flight.
    pub idle: bool,
    /// The phase of the lifecycle.
    pub phase: Phase,
}

/// The queue manager.
#[derive(Debug)]
pub struct QueueManager {
    queues: Vec<Queue>,
    sites: SiteManager,
    lifecycle: LifeCycle,
    queue_config: QueueConfig,
}

/// A queue manager as plain values.
pub struct ManagerView {
    /// The queues, in the order in which they were created.
    pub queues: Seq<QueueView>,
    pub lifecycle: LifeCycle,
    /// The configuration that every new queue gets.
    pub queue_config: QueueConfig,
}

/// A queue without records.
pub open spec fn empty_queue(key: Seq<char>, config: QueueConfig) -> QueueView {
    QueueView {
        key,
        config,
        ready: Seq::empty(),
        delayed: Seq::empty(),
        in_flight: Seq::empty(),
        permits: Seq::empty(),
    }
}

impl ManagerView {
    /// Whether the routing key has a queue.
    pub open spec fn has_queue(self, key: Seq<char>) -> bool {
        exists|i: int| 0 <= i < self.queues.len() && (#[trigger] self.queues[i]).key == key
    }

    /// The place of the routing key's queue.
    pub open spec fn queue_index(self, key: Seq<char>) -> int {
        choose|i: int| 0 <= i < self.queues.len() && (#[trigger] self.queues[i]).key == key
    }

    /// Whether some queue owns a record with the identifier.
    pub open spec fn owns(self, id: u64) -> bool {
        exists|i: int| 0 <= i < self.queues.len() && #[trigger] self.queues[i].owns(id)
    }

    /// Whether some queue has an attempt in flight for the identifier.
    pub open spec fn in_flight(self, id: u64) -> bool {
        exists|i: int| 0 <= i < self.queues.len() && has_id((#[trigger] self.queues[i]).in_flight, id)
    }

    /// The place of the queue that has the attempt for the identifier.
    pub open spec fn flight_index(self, id: u64) -> int {
        choose|i: int| 0 <= i < self.queues.len() && has_id((#[trigger] self.queues[i]).in_flight, id)
    }

    /// Whether no queue has an attempt in flight.
    pub open spec fn idle(self) -> bool {
        forall|i: int| 0 <= i < self.queues.len() ==> (#[trigger] self.queues[i]).in_flight.len() == 0
    }

    /// Every queue is well formed, no routing key has two queues, no
    /// identifier is owned by two queues, and a stopped manager is idle.
    pub open spec fn wf(self) -> bool {
        &&& self.queue_config.wf()
        &&& forall|i: int| 0 <= i < self.queues.len() ==> (#[trigger] self.queues[i]).wf()
        &&& forall|i: int, j: int|
            0 <= i < j < self.queues.len() ==> (#[trigger] self.queues[i]).key
                != (#[trigger] self.queues[j]).key
        &&& forall|i: int, j: int, id: u64|
            #![trigger self.queues[i].owns(id), self.queues[j].owns(id)]
            0 <= i < self.queues.len() && 0 <= j < self.queues.len() && i != j ==> !(
            self.queues[i].owns(id) && self.queues[j].owns(id))
        &&& self.lifecycle.phase == Phase::Stopped ==> self.idle()
    }

    /// Whether a record is taken: the manager is running, the record is not
    /// terminal, and no queue owns its identifier.
    pub open spec fn accepts(self, record: RecordView) -> bool {
        &&& self.lifecycle.phase == Phase::Running
        &&& !record.state.is_terminal()
        &&& !self.owns(record.id)
    }

    /// The manager after a record was offered to it at `now`: a record that
    /// is taken goes to the queue of its routing key, which is created if
    /// the key has none.
    pub open spec fn routed(self, record: RecordView, now: u64) -> ManagerView {
        let key = record.routing_key();
        if !self.accepts(record) {
            self
        } else if self.has_queue(key) {
            let at = self.queue_index(key);
            ManagerView {
                queues: self.queues.update(at, self.queues[at].admitted(record, now)),
                ..self
            }
        } else {
            ManagerView {
                queues: self.queues.push(
                    empty_queue(key, self.queue_config).admitted(record, now),
                ),
                ..self
            }
        }
    }

    /// The manager after a scheduling step at `now` against the given
    /// sites: while it runs, every queue promotes and dispatches; otherwise
    /// nothing moves.
    pub open spec fn ticked(self, now: u64, sites: SiteManager) -> ManagerView {
        if self.lifecycle.phase != Phase::Running {
            self
        } else {
            ManagerView {
                queues: Seq::new(
                    self.queues.len(),
                    |i: int|
                        self.queues[i].promoted(now).dispatched(
                            now,
                            sites.pool(self.queues[i].key),
                            sites.config(self.queues[i].key),
                        ),
                ),
                ..self
            }
        }
    }

    /// The attempts that the first `upto` queues start in a scheduling step,
    /// queue after queue.
    pub open spec fn tick_output(self, now: u64, sites: SiteManager, upto: int) -> Seq<DispatchView>
        decreases upto,
    {
        if upto <= 0 {
            Seq::empty()
        } else {
            self.tick_output(now, sites, upto - 1) + self.queues[upto - 1].promoted(
                now,
            ).dispatches(
                now,
                sites.pool(self.queues[upto - 1].key),
                sites.config(self.queues[upto - 1].key),
            )
        }
    }

    /// The manager after the attempt for a record ended. Without an attempt
    /// in flight for the identifier it stays as it is.
    pub open spec fn completed(self, id: u64, outcome: AttemptOutcome, now: u64) -> ManagerView {
        if !self.in_flight(id) {
            self
        } else {
            let at = self.flight_index(id);
            ManagerView {
                queues: self.queues.update(at, self.queues[at].completed(id, outcome, now)),
                ..self
            }
        }
    }

    /// The manager after a configuration was put in force for the queue of
    /// a routing key, which is created if the key has none. A configuration
    /// that cannot be used changes nothing.
    pub open spec fn configured(self, key: Seq<char>, config: QueueConfig) -> ManagerView {
        if !config.wf() {
            self
        } else if self.has_queue(key) {
            let at = self.queue_index(key);
            ManagerView {
                queues: self.queues.update(at, QueueView { config, ..self.queues[at] }),
                ..self
            }
        } else {
            ManagerView { queues: self.queues.push(empty_queue(key, config)), ..self }
        }
    }

    /// A new configuration leaves a well-formed manager well formed and
    /// changes nothing about the records it owns or has in flight.
    pub proof fn lemma_configured(self, key: Seq<char>, config: QueueConfig)
        requires
            self.wf(),
        ensures
            self.configured(key, config).wf(),
            self.configured(key, config).lifecycle == self.lifecycle,
            forall|id: u64|
                #![trigger self.configured(key, config).owns(id)]
                self.configured(key, config).owns(id) <==> self.owns(id),
    {
        let after = self.configured(key, config);
        if config.wf() {
            let known = self.has_queue(key);
            let at = if known {
                self.queue_index(key)
            } else {
                self.queues.len() as int
            };
            if !known {
                assert(after.queues[at].records() =~= Seq::<RecordView>::empty());
                assert(after.queues[at].wf());
                assert(forall|id: u64| !after.queues[at].owns(id));
            } else {
                assert(self.queues[at].wf());
                assert(after.queues[at].records() == self.queues[at].records());
            }
            assert forall|i: int| 0 <= i < after.queues.len() implies (
            #[trigger] after.queues[i]).wf() by {
                if i != at {
                    assert(self.queues[i].wf());
                }
            }
            assert forall|i: int, j: int| 0 <= i < j < after.queues.len() implies (
            #[trigger] after.queues[i]).key != (#[trigger] after.queues[j]).key by {
                if known {
                    assert(self.queues[i].key != self.queues[j].key);
                } else if j == at {
                    assert(self.queues[i].key != key);
                } else {
                    assert(self.queues[i].key != self.queues[j].key);
                }
            }
            assert forall|i: int, j: int, id: u64|
                #![trigger after.queues[i].owns(id), after.queues[j].owns(id)]
                0 <= i < after.queues.len() && 0 <= j < after.queues.len() && i != j implies !(
            after.queues[i].owns(id) && after.queues[j].owns(id)) by {
                if known || (i != at && j != at) {
                    assert(!(self.queues[i].owns(id) && self.queues[j].owns(id)));
                }
            }
            assert forall|id: u64| #![trigger after.owns(id)] after.owns(id) <==> self.owns(
                id,
            ) by {
                if after.owns(id) {
                    let i = choose|i: int|
                        0 <= i < after.queues.len() && #[trigger] after.queues[i].owns(id);
                    assert(self.queues[i].owns(id));
                }
                if self.owns(id) {
                    let i = choose|i: int|
                        0 <= i < self.queues.len() && #[trigger] self.queues[i].owns(id);
                    assert(after.queues[i].owns(id));
                }
            }
            if self.lifecycle.phase == Phase::Stopped {
                assert forall|i: int| 0 <= i < after.queues.len() implies (
                #[trigger] after.queues[i]).in_flight.len() == 0 by {
                    if i < self.queues.len() {
                        assert(self.queues[i].in_flight.len() == 0);
                    }
                }
            }
        }
    }

    /// The manager after a shutdown request.
    pub open spec fn shutdown_requested(self) -> ManagerView {
        ManagerView { lifecycle: self.lifecycle.requested(), ..self }
    }

    /// The manager after the drain was reported on with the result of the
    /// spool's flush.
    pub open spec fn stop_tried(self, flushed: bool) -> ManagerView {
        ManagerView { lifecycle: self.lifecycle.reported(self.idle(), flushed), ..self }
    }

    /// Routing leaves a well-formed manager well formed, and brings in no
    /// identifier but that of a record it took.
    pub proof fn lemma_routed(self, record: RecordView, now: u64)
        requires
            self.wf(),
        ensures
            self.routed(record, now).wf(),
            self.routed(record, now).lifecycle == self.lifecycle,
            forall|id: u64|
                #![trigger self.routed(record, now).owns(id)]
                self.routed(record, now).owns(id) <==> self.owns(id) || (self.accepts(record)
                    && id == record.id),
            forall|id: u64|
                #![trigger self.routed(record, now).in_flight(id)]
                self.routed(record, now).in_flight(id) <==> self.in_flight(id),
    {
        let after = self.routed(record, now);
        if self.accepts(record) {
            let key = record.routing_key();
            let known = self.has_queue(key);
            let at = if known {
                self.queue_index(key)
            } else {
                self.queues.len() as int
            };
            let source = if known {
                self.queues[at]
            } else {
                empty_queue(key, self.queue_config)
            };
            if !known {
                assert(source.records() =~= Seq::<RecordView>::empty());
                assert(source.permits.len() == 0);
                assert(source.wf());
            } else {
                assert(self.queues[at].wf());
            }
            assert(!source.owns(record.id));
            source.lemma_admitted_wf(record, now);
            assert(after.queues[at] == source.admitted(record, now));
            assert forall|i: int| 0 <= i < after.queues.len() implies (
            #[trigger] after.queues[i]).wf() by {
                if i != at {
                    assert(self.queues[i].wf());
                }
            }
            assert forall|i: int, j: int| 0 <= i < j < after.queues.len() implies (
            #[trigger] after.queues[i]).key != (#[trigger] after.queues[j]).key by {
                source.lemma_admitted_owns(record, now, record.id);
                if known {
                    assert(self.queues[i].key != self.queues[j].key);
                } else if j == at {
                    assert(self.queues[i].key != key);
                } else {
                    assert(self.queues[i].key != self.queues[j].key);
                }
            }
            assert forall|i: int, j: int, id: u64|
                #![trigger after.queues[i].owns(id), after.queues[j].owns(id)]
                0 <= i < after.queues.len() && 0 <= j < after.queues.len() && i != j implies !(
            after.queues[i].owns(id) && after.queues[j].owns(id)) by {
                source.lemma_admitted_owns(record, now, id);
                if i != at && j != at {
                    assert(!(self.queues[i].owns(id) && self.queues[j].owns(id)));
                } else {
                    let other = if i == at { j } else { i };
                    if id == record.id {
                        assert(!self.queues[other].owns(id));
                    } else if known {
                        assert(!(self.queues[at].owns(id) && self.queues[other].owns(id)));
                    }
                }
            }
            assert forall|id: u64| #![trigger after.owns(id)] after.owns(id) <==> self.owns(id)
                || id == record.id by {
                source.lemma_admitted_owns(record, now, id);
                if after.owns(id) {
                    let i = choose|i: int|
                        0 <= i < after.queues.len() && #[trigger] after.queues[i].owns(id);
                    if i != at {
                        assert(self.queues[i].owns(id));
                    } else if known && id != record.id {
                        assert(self.queues[at].owns(id));
                    }
                }
                if self.owns(id) {
                    let i = choose|i: int|
                        0 <= i < self.queues.len() && #[trigger] self.queues[i].owns(id);
                    assert(after.queues[i].owns(id));
                }
                if id == record.id {
                    assert(after.queues[at].owns(id));
                }
            }
            assert forall|id: u64| #![trigger after.in_flight(id)] after.in_flight(id)
                <==> self.in_flight(id) by {
                source.lemma_admitted_owns(record, now, id);
                if after.in_flight(id) {
                    let i = after.flight_index(id);
                    if i != at || known {
                        assert(has_id(self.queues[i].in_flight, id));
                    } else {
                        assert(after.queues[at].in_flight =~= Seq::<RecordView>::empty());
                    }
                }
                if self.in_flight(id) {
                    let i = self.flight_index(id);
                    assert(has_id(after.queues[i].in_flight, id));
                }
            }
        }
    }

    /// A scheduling step leaves a well-formed manager well formed and
    /// changes nothing about which identifiers it owns.
    pub proof fn lemma_ticked(self, now: u64, sites: SiteManager)
        requires
            self.wf(),
        ensures
            self.ticked(now, sites).wf(),
            self.ticked(now, sites).lifecycle == self.lifecycle,
            forall|id: u64|
                #![trigger self.ticked(now, sites).owns(id)]
                self.ticked(now, sites).owns(id) <==> self.owns(id),
    {
        let after = self.ticked(now, sites);
        if self.lifecycle.phase == Phase::Running {
            assert forall|i: int| 0 <= i < after.queues.len() implies (
            #[trigger] after.queues[i]).wf() by {
                let q = self.queues[i];
                assert(q.wf());
                q.lemma_promoted_wf(now);
                q.promoted(now).lemma_dispatched_wf(now, sites.pool(q.key), sites.config(q.key));
            }
            assert forall|a: int, b: int| 0 <= a < b < after.queues.len() implies (
            #[trigger] after.queues[a]).key != (#[trigger] after.queues[b]).key by {
                assert(self.queues[a].key != self.queues[b].key);
            }
            assert forall|a: int, b: int, id: u64|
                #![trigger after.queues[a].owns(id), after.queues[b].owns(id)]
                0 <= a < after.queues.len() && 0 <= b < after.queues.len() && a != b implies !(
            after.queues[a].owns(id) && after.queues[b].owns(id)) by {
                let qa = self.queues[a];
                let qb = self.queues[b];
                qa.lemma_ticked_owns(now, sites.pool(qa.key), sites.config(qa.key), id);
                qb.lemma_ticked_owns(now, sites.pool(qb.key), sites.config(qb.key), id);
                assert(!(self.queues[a].owns(id) && self.queues[b].owns(id)));
            }
            assert forall|id: u64| #![trigger after.owns(id)] after.owns(id) <==> self.owns(
                id,
            ) by {
                if after.owns(id) {
                    let i = choose|i: int|
                        0 <= i < after.queues.len() && #[trigger] after.queues[i].owns(id);
                    let q = self.queues[i];
                    q.lemma_ticked_owns(now, sites.pool(q.key), sites.config(q.key), id);
                    assert(self.queues[i].owns(id));
                }
                if self.owns(id) {
                    let i = choose|i: int|
                        0 <= i < self.queues.len() && #[trigger] self.queues[i].owns(id);
                    let q = self.queues[i];
                    q.lemma_ticked_owns(now, sites.pool(q.key), sites.config(q.key), id);
                    assert(after.queues[i].owns(id));
                }
            }
        }
    }

    /// The end of an attempt leaves a well-formed manager well formed. It
    /// brings no identifier in, and it takes the attempt's identifier out
    /// exactly when the outcome delivers or bounces the record.
    pub proof fn lemma_completed(self, id: u64, outcome: AttemptOutcome, now: u64)
        requires
            self.wf(),
        ensures
            self.completed(id, outcome, now).wf(),
            self.completed(id, outcome, now).lifecycle == self.lifecycle,
            forall|x: u64|
                #![trigger self.completed(id, outcome, now).owns(x)]
                self.completed(id, outcome, now).owns(x) ==> self.owns(x),
            !self.completed(id, outcome, now).in_flight(id),
            self.in_flight(id) ==> self.owns(id) && (self.completed(id, outcome, now).owns(id)
                <==> self.queues[self.flight_index(id)].resolution(id, outcome, now).state
                == RecordState::Delayed),
    {
        let after = self.completed(id, outcome, now);
        if self.in_flight(id) {
            let at = self.flight_index(id);
            let q = self.queues[at];
            assert(q.wf());
            q.lemma_completed_wf(id, outcome, now);
            q.lemma_completed_owns(id, outcome, now, id);
            lemma_has_id_parts(q.ready, q.delayed, q.in_flight, id);
            assert(q.owns(id));
            assert forall|a: int| 0 <= a < after.queues.len() implies (
            #[trigger] after.queues[a]).wf() by {
                if a != at {
                    assert(self.queues[a].wf());
                }
            }
            assert forall|a: int, b: int| 0 <= a < b < after.queues.len() implies (
            #[trigger] after.queues[a]).key != (#[trigger] after.queues[b]).key by {
                assert(self.queues[a].key != self.queues[b].key);
            }
            assert forall|a: int, b: int, x: u64|
                #![trigger after.queues[a].owns(x), after.queues[b].owns(x)]
                0 <= a < after.queues.len() && 0 <= b < after.queues.len() && a != b implies !(
            after.queues[a].owns(x) && after.queues[b].owns(x)) by {
                q.lemma_completed_owns(id, outcome, now, x);
                assert(!(self.queues[a].owns(x) && self.queues[b].owns(x)));
            }
            if self.lifecycle.phase == Phase::Stopped {
                assert(self.queues[at].in_flight.len() == 0);
            }
            assert forall|x: u64| #![trigger after.owns(x)] after.owns(x) implies self.owns(x) by {
                let i = choose|i: int|
                    0 <= i < after.queues.len() && #[trigger] after.queues[i].owns(x);
                q.lemma_completed_owns(id, outcome, now, x);
                assert(self.queues[i].owns(x));
            }
            assert(!has_id(after.queues[at].in_flight, id));
            if after.in_flight(id) {
                let i = after.flight_index(id);
                if i != at {
                    let other = self.queues[i];
                    lemma_has_id_parts(other.ready, other.delayed, other.in_flight, id);
                    assert(self.queues[i].owns(id) && self.queues[at].owns(id));
                }
            }
            if after.owns(id) {
                let i = choose|i: int|
                    0 <= i < after.queues.len() && #[trigger] after.queues[i].owns(id);
                if i != at {
                    assert(self.queues[i].owns(id) && self.queues[at].owns(id));
                }
            }
            if q.resolution(id, outcome, now).state == RecordState::Delayed {
                assert(after.queues[at].owns(id));
            }
        }
    }

    /// A shutdown request and a report on the drain leave a well-formed
    /// manager well formed and its queues as they are.
    pub proof fn lemma_lifecycle_steps(self, flushed: bool)
        requires
            self.wf(),
        ensures
            self.shutdown_requested().wf(),
            self.stop_tried(flushed).wf(),
            self.shutdown_requested().queues == self.queues,
            self.stop_tried(flushed).queues == self.queues,
            self.stop_tried(flushed).lifecycle.phase == Phase::Stopped ==> self.idle(),
    {
    }

    /// In a well-formed manager the queue that owns an identifier is the
    /// only one that does, and a queue is found by its key.
    pub proof fn lemma_unique(self, at: int)
        requires
            self.wf(),
            0 <= at < self.queues.len(),
        ensures
            self.has_queue(self.queues[at].key),
            self.queue_index(self.queues[at].key) == at,
            forall|id: u64|
                has_id(self.queues[at].in_flight, id) ==> self.in_flight(id) && self.flight_index(
                    id,
                ) == at,
    {
        let key = self.queues[at].key;
        let k = self.queue_index(key);
        assert(0 <= k < self.queues.len() && self.queues[k].key == key);
        if k < at {
            assert(self.queues[k].key != self.queues[at].key);
        } else if at < k {
            assert(self.queues[at].key != self.queues[k].key);
        }
        assert forall|id: u64| has_id(self.queues[at].in_flight, id) implies self.in_flight(id)
            && self.flight_index(id) == at by {
            let j = self.flight_index(id);
            assert(0 <= j < self.queues.len() && has_id(self.queues[j].in_flight, id));
            crate::queue::lemma_has_id_parts(
                self.queues[at].ready,
                self.queues[at].delayed,
                self.queues[at].in_flight,
                id,
            );
            crate::queue::lemma_has_id_parts(
                self.queues[j].ready,
                self.queues[j].delayed,
                self.queues[j].in_flight,
                id,
            );
            if j != at {
                assert(self.queues[at].owns(id) && self.queues[j].owns(id));
            }
        }
    }
}

impl View for QueueManager {
    type V = ManagerView;

    closed spec fn view(&self) -> ManagerView {
        ManagerView {
            queues: self.queues@.map_values(|q: Queue| q@),
            lifecycle: self.lifecycle,
            queue_config: self.queue_config,
        }
    }
}

impl QueueManager {
    /// The destination sites that the manager schedules against.
    pub closed spec fn sites(&self) -> SiteManager {
        self.sites
    }

    /// Whether every queue has no more attempts in flight than its
    /// destination has permits outstanding.
    pub open spec fn within_permits(&self) -> bool {
        forall|i: int|
            0 <= i < self@.queues.len() ==> (#[trigger] self@.queues[i]).in_flight.len()
                <= self.sites().in_flight(self@.queues[i].key)
    }

    /// The manager's queues and its sites are well formed, and no queue has
    /// more attempts in flight than its destination has permits outstanding.
    pub open spec fn wf(&self) -> bool {
        self@.wf() && self.sites().wf() && self.within_permits()
    }

    /// Bound enforcement: no queue ever has more attempts in flight than
    /// its destination may have connections.
    pub proof fn lemma_attempts_within_bound(&self, i: int)
        requires
            self.wf(),
            0 <= i < self@.queues.len(),
        ensures
            self@.queues[i].in_flight.len() <= self.sites().in_flight(self@.queues[i].key),
            self.sites().in_flight(self@.queues[i].key) <= self.sites().config(
                self@.queues[i].key,
            ).max_connections,
    {
        self.sites().lemma_bound_enforced(self@.queues[i].key);
    }

    /// A running manager without queues. Every queue that it creates gets
    /// `queue_config`; every destination without a configuration of its own
    /// gets `site_config`.
    pub fn new(queue_config: QueueConfig, site_config: DestSiteConfig) -> (manager: Self)
        requires
            queue_config.wf(),
        ensures
            manager.wf(),
            manager@ == (ManagerView {
                queues: Seq::empty(),
                lifecycle: LifeCycle { phase: Phase::Running, durability_risk: false },
                queue_config,
            }),
            manager.sites().fallback() == site_config,
            forall|k: Seq<char>| !manager.sites().has(k),
    {
        let manager = QueueManager {
            queues: Vec::new(),
            sites: SiteManager::new(site_config),
            lifecycle: LifeCycle::new(),
            queue_config,
        };
        assert(manager@.queues =~= Seq::<QueueView>::empty());
        manager
    }

    /// The phase of the lifecycle.
    pub fn phase(&self) -> (phase: Phase)
        ensures
            phase == self@.lifecycle.phase,
    {
        self.lifecycle.phase
    }

    /// The number of queues.
    pub fn queue_count(&self) -> (n: usize)
        ensures
            n == self@.queues.len(),
    {
        self.queues.len()
    }

    fn find(&self, key: &String) -> (found: Option<usize>)
        requires
            self@.wf(),
        ensures
            match found {
                Some(i) => i < self@.queues.len() && self@.queues[i as int].key == key@
                    && self@.has_queue(key@) && self@.queue_index(key@) == i,
                None => !self@.has_queue(key@),
            },
    {
        let n: usize = self.queues.len();
        let mut i: usize = 0;
        while i < n
            invariant
                self@.wf(),
                n == self.queues.len(),
                i <= n,
                forall|j: int| 0 <= j < i ==> (#[trigger] self@.queues[j]).key != key@,
            decreases n - i,
        {
            if self.queues[i].routing_key().eq(key) {
                proof {
                    self@.lemma_unique(i as int);
                }
                return Some(i);
            }
            i = i + 1;
        }
        None
    }

    /// The queue of a routing key, if the key has one.
    pub fn queue(&self, key: &String) -> (queue: Option<&Queue>)
        requires
            self.wf(),
        ensures
            match queue {
                Some(q) => self@.has_queue(key@) && q@ == self@.queues[self@.queue_index(key@)]
                    && q.wf(),
                None => !self@.has_queue(key@),
            },
    {
        match self.find(key) {
            Some(i) => {
                assert(self@.queues[i as int].wf());
                Some(&self.queues[i])
            },
            None => None,
        }
    }

    /// Whether some queue owns a record with the identifier.
    pub fn contains(&self, id: u64) -> (owned: bool)
        ensures
            owned == self@.owns(id),
    {
        let n: usize = self.queues.len();
        let mut i: usize = 0;
        while i < n
            invariant
                n == self.queues.len(),
                i <= n,
                forall|j: int| 0 <= j < i ==> !(#[trigger] self@.queues[j]).owns(id),
            decreases n - i,
        {
            if self.queues[i].contains(id) {
                assert(self@.queues[i as int].owns(id));
                return true;
            }
            i = i + 1;
        }
        false
    }

    /// Whether no queue has an attempt in flight.
    pub fn is_idle(&self) -> (idle: bool)
        ensures
            idle == self@.idle(),
    {
        let n: usize = self.queues.len();
        let mut i: usize = 0;
        while i < n
            invariant
                n == self.queues.len(),
                i <= n,
                forall|j: int| 0 <= j < i ==> (#[trigger] self@.queues[j]).in_flight.len() == 0,
            decreases n - i,
        {
            if !self.queues[i].is_idle() {
                assert(self@.queues[i as int].in_flight.len() != 0);
                return false;
            }
            i = i + 1;
        }
        true
    }

    /// Takes a newly spooled record and hands it to the queue of its routing
    /// key, creating the queue if the key has none.
    ///
    /// Nothing is taken once a shutdown was requested. A record in a
    /// terminal state is refused, and so is one whose identifier some queue
    /// already owns.
    pub fn route(&mut self, record: MessageRecord, now: u64) -> (done: Result<(), RouteError>)
        requires
            old(self).wf(),
        ensures
            final(self).wf(),
            final(self)@ == old(self)@.routed(record@, now),
            final(self).sites() == old(self).sites(),
            match done {
                Ok(()) => old(self)@.accepts(record@),
                Err(RouteError::Draining) => old(self)@.lifecycle.phase != Phase::Running,
                Err(RouteError::Terminal) => old(self)@.lifecycle.phase == Phase::Running
                    && record@.state.is_terminal(),
                Err(RouteError::Duplicate) => old(self)@.lifecycle.phase == Phase::Running
                    && !record@.state.is_terminal() && old(self)@.owns(record.id),
            },
    {
        if !self.lifecycle.is_running() {
            return Err(RouteError::Draining);
        }
        if record.state.terminal() {
            return Err(RouteError::Terminal);
        }
        if self.contains(record.id) {
            return Err(RouteError::Duplicate);
        }
        let ghost before = self@;
        let ghost rv = record@;
        let key: String = record.routing_key();
        match self.find(&key) {
            Some(at) => {
                proof {
                    assert(!before.queues[at as int].owns(rv.id));
                    assert(before.queues[at as int].wf());
                }
                let queue = &mut self.queues[at];
                let taken = queue.admit_record(record, now);
                proof {
                    let after = self@;
                    assert(after.queues =~= before.queues.update(
                        at as int,
                        before.queues[at as int].admitted(rv, now),
                    ));
                    before.lemma_routed(rv, now);
                    assert forall|i: int| 0 <= i < after.queues.len() implies (
                    #[trigger] after.queues[i]).in_flight.len() <= self.sites().in_flight(
                        after.queues[i].key,
                    ) by {
                        assert(before.queues[i].in_flight.len() <= self.sites().in_flight(
                            before.queues[i].key,
                        ));
                    }
                }
                match taken {
                    Ok(()) => Ok(()),
                    Err(AdmitError::Terminal) => Err(RouteError::Terminal),
                    Err(AdmitError::Duplicate) => Err(RouteError::Duplicate),
                }
            },
            None => {
                let mut queue = Queue::new(key, self.queue_config);
                let taken = queue.admit_record(record, now);
                self.queues.push(queue);
                proof {
                    let after = self@;
                    let fresh = empty_queue(rv.routing_key(), before.queue_config);
                    assert(fresh.records() =~= Seq::<RecordView>::empty());
                    assert(!fresh.owns(rv.id));
                    assert(after.queues =~= before.queues.push(fresh.admitted(rv, now)));
                    before.lemma_routed(rv, now);
                    assert forall|i: int| 0 <= i < after.queues.len() implies (
                    #[trigger] after.queues[i]).in_flight.len() <= self.sites().in_flight(
                        after.queues[i].key,
                    ) by {
                        if i < before.queues.len() {
                            assert(before.queues[i].in_flight.len() <= self.sites().in_flight(
                                before.queues[i].key,
                            ));
                        }
                    }
                }
                match taken {
                    Ok(()) => Ok(()),
                    Err(AdmitError::Terminal) => Err(RouteError::Terminal),
                    Err(AdmitError::Duplicate) => Err(RouteError::Duplicate),
                }
            },
        }
    }

    /// One scheduling step of every queue, in the order of the queues'
    /// creation. A manager that is not running starts nothing and moves
    /// nothing.
    pub fn tick(&mut self, now: u64) -> (out: Vec<Dispatch>)
        requires
            old(self).wf(),
        ensures
            final(self).wf(),
            final(self)@ == old(self)@.ticked(now, old(self).sites()),
            dispatch_views(out@) == if old(self)@.lifecycle.phase == Phase::Running {
                old(self)@.tick_output(now, old(self).sites(), old(self)@.queues.len() as int)
            } else {
                Seq::empty()
            },
            old(self)@.lifecycle.phase != Phase::Running ==> final(self).sites() == old(
                self,
            ).sites(),
            final(self).sites().fallback() == old(self).sites().fallback(),
            forall|k: Seq<char>| #[trigger]
                final(self).sites().config(k) == old(self).sites().config(k),
            forall|k: Seq<char>|
                !old(self)@.has_queue(k) ==> #[trigger] final(self).sites().has(k) == old(
                    self,
                ).sites().has(k) && #[trigger] final(self).sites().pool(k) == old(
                    self,
                ).sites().pool(k),
            old(self)@.lifecycle.phase == Phase::Running ==> forall|i: int|
                0 <= i < old(self)@.queues.len() ==> final(self).sites().pool(
                    (#[trigger] old(self)@.queues[i]).key,
                ) == pool_after(
                    old(self).sites().pool(old(self)@.queues[i].key),
                    old(self).sites().config(old(self)@.queues[i].key),
                    now,
                    dispatch_count(
                        old(self)@.queues[i].promoted(now).ready,
                        old(self).sites().pool(old(self)@.queues[i].key),
                        old(self).sites().config(old(self)@.queues[i].key),
                        now,
                    ),
                ),
    {
        let mut out: Vec<Dispatch> = Vec::new();
        if !self.lifecycle.is_running() {
            assert(dispatch_views(out@) =~= Seq::<DispatchView>::empty());
            return out;
        }
        let ghost before = self@;
        let ghost q0 = self@.queues;
        let ghost s0 = self.sites;
        let n: usize = self.queues.len();
        let mut i: usize = 0;
        proof {
            assert(dispatch_views(out@) =~= before.tick_output(now, s0, 0));
        }
        while i < n
            invariant
                before.wf(),
                before.queues == q0,
                n == self.queues.len(),
                n == q0.len(),
                i <= n,
                self@.lifecycle == before.lifecycle,
                self@.queue_config == before.queue_config,
                self.sites.wf(),
                self.sites.fallback() == s0.fallback(),
                forall|j: int|
                    0 <= j < n ==> (#[trigger] q0[j]).in_flight.len() <= s0.in_flight(q0[j].key),
                forall|j: int|
                    0 <= j < i ==> (#[trigger] self@.queues[j]).in_flight.len()
                        <= self.sites.in_flight(q0[j].key),
                forall|j: int| 0 <= j < n ==> (#[trigger] self@.queues[j]).wf(),
                forall|j: int|
                    0 <= j < i ==> (#[trigger] self@.queues[j]) == q0[j].promoted(now).dispatched(
                        now,
                        s0.pool(q0[j].key),
                        s0.config(q0[j].key),
                    ),
                forall|j: int| i <= j < n ==> (#[trigger] self@.queues[j]) == q0[j],
                forall|k: Seq<char>| #[trigger] self.sites.config(k) == s0.config(k),
                forall|k: Seq<char>|
                    (forall|j: int| 0 <= j < i ==> (#[trigger] q0[j]).key != k)
                        ==> #[trigger] self.sites.has(k) == s0.has(k),
                forall|k: Seq<char>|
                    (forall|j: int| 0 <= j < i ==> (#[trigger] q0[j]).key != k)
                        ==> #[trigger] self.sites.pool(k) == s0.pool(k),
                forall|j: int|
                    0 <= j < i ==> self.sites.pool((#[trigger] q0[j]).key) == pool_after(
                        s0.pool(q0[j].key),
                        s0.config(q0[j].key),
                        now,
                        dispatch_count(
                            q0[j].promoted(now).ready,
                            s0.pool(q0[j].key),
                            s0.config(q0[j].key),
                            now,
                        ),
                    ),
                dispatch_views(out@) == before.tick_output(now, s0, i as int),
            decreases n - i,
        {
            let ghost mid_sites = self.sites;
            let ghost key = q0[i as int].key;
            let ghost seen = dispatch_views(out@);
            proof {
                assert(self@.queues[i as int] == q0[i as int]);
                assert(self@.queues[i as int].wf());
                assert forall|j: int| 0 <= j < i implies (#[trigger] q0[j]).key != key by {
                    assert(before.queues[j].key != before.queues[i as int].key);
                }
                assert(self.sites.pool(key) == s0.pool(key));
                assert(self.sites.config(key) == s0.config(key));
            }
            let ghost mid = self@;
            let queue = &mut self.queues[i];
            let mut started: Vec<Dispatch> = queue.tick(now, &mut self.sites);
            let ghost fresh = dispatch_views(started@);
            proof {
                assert(fresh.len() == started@.len());
            }
            out.append(&mut started);
            proof {
                assert(self@.queues =~= mid.queues.update(
                    i as int,
                    q0[i as int].promoted(now).dispatched(now, s0.pool(key), s0.config(key)),
                ));
                assert forall|j: int| 0 <= j < n implies (#[trigger] self@.queues[j]).wf() by {
                    if j != i {
                        assert(mid.queues[j].wf());
                    }
                }
                assert(dispatch_views(out@) =~= seen + fresh);
                assert forall|j: int| 0 <= j < i + 1 implies (
                #[trigger] self@.queues[j]).in_flight.len() <= self.sites.in_flight(
                    q0[j].key,
                ) by {
                    if j < i {
                        assert(before.queues[j].key != before.queues[i as int].key);
                        assert(self.sites.pool(q0[j].key) == mid_sites.pool(q0[j].key));
                        assert(self@.queues[j] == mid.queues[j]);
                    } else {
                        assert(q0[j].in_flight.len() <= s0.in_flight(q0[j].key));
                    }
                }
                assert forall|k: Seq<char>| #[trigger] self.sites.config(k) == s0.config(k) by {
                    if k != key {
                        assert(self.sites.config(k) == mid_sites.config(k));
                    }
                    assert(mid_sites.config(k) == s0.config(k));
                }
                assert forall|k: Seq<char>|
                    (forall|j: int| 0 <= j < i + 1 ==> (#[trigger] q0[j]).key != k)
                    implies #[trigger] self.sites.has(k) == s0.has(k) by {
                    assert(q0[i as int].key != k);
                    assert(self.sites.has(k) == mid_sites.has(k));
                    assert(mid_sites.has(k) == s0.has(k));
                }
                assert forall|k: Seq<char>|
                    (forall|j: int| 0 <= j < i + 1 ==> (#[trigger] q0[j]).key != k)
                    implies #[trigger] self.sites.pool(k) == s0.pool(k) by {
                    assert(q0[i as int].key != k);
                    assert(self.sites.pool(k) == mid_sites.pool(k));
                    assert(mid_sites.pool(k) == s0.pool(k));
                }
                assert forall|j: int| 0 <= j < i + 1 implies self.sites.pool(
                    (#[trigger] q0[j]).key,
                ) == pool_after(
                    s0.pool(q0[j].key),
                    s0.config(q0[j].key),
                    now,
                    dispatch_count(
                        q0[j].promoted(now).ready,
                        s0.pool(q0[j].key),
                        s0.config(q0[j].key),
                        now,
                    ),
                ) by {
                    if j < i {
                        assert(before.queues[j].key != before.queues[i as int].key);
                        assert(self.sites.pool(q0[j].key) == mid_sites.pool(q0[j].key));
                    }
                }
            }
            i = i + 1;
        }
        proof {
            let after = self@;
            assert(after.queues =~= before.ticked(now, s0).queues);
            assert forall|a: int, b: int| 0 <= a < b < after.queues.len() implies (
            #[trigger] after.queues[a]).key != (#[trigger] after.queues[b]).key by {
                q0[a].lemma_ticked_owns(now, s0.pool(q0[a].key), s0.config(q0[a].key), 0);
                q0[b].lemma_ticked_owns(now, s0.pool(q0[b].key), s0.config(q0[b].key), 0);
                assert(before.queues[a].key != before.queues[b].key);
            }
            assert forall|a: int, b: int, id: u64|
                #![trigger after.queues[a].owns(id), after.queues[b].owns(id)]
                0 <= a < after.queues.len() && 0 <= b < after.queues.len() && a != b implies !(
            after.queues[a].owns(id) && after.queues[b].owns(id)) by {
                q0[a].lemma_ticked_owns(now, s0.pool(q0[a].key), s0.config(q0[a].key), id);
                q0[b].lemma_ticked_owns(now, s0.pool(q0[b].key), s0.config(q0[b].key), id);
                assert(!(before.queues[a].owns(id) && before.queues[b].owns(id)));
            }
            assert forall|k: Seq<char>| !before.has_queue(k) implies #[trigger] self.sites.has(k)
                == s0.has(k) && #[trigger] self.sites.pool(k) == s0.pool(k) by {
                assert forall|j: int| 0 <= j < n implies (#[trigger] q0[j]).key != k by {}
            }
            assert forall|j: int| 0 <= j < after.queues.len() implies (
            #[trigger] after.queues[j]).in_flight.len() <= self.sites().in_flight(
                after.queues[j].key,
            ) by {
                q0[j].lemma_ticked_owns(now, s0.pool(q0[j].key), s0.config(q0[j].key), 0);
                assert(self@.queues[j].in_flight.len() <= self.sites.in_flight(q0[j].key));
            }
        }
        out
    }

    fn find_flight(&self, id: u64) -> (found: Option<usize>)
        ensures
            match found {
                Some(i) => i < self@.queues.len() && has_id(self@.queues[i as int].in_flight, id),
                None => !self@.in_flight(id),
            },
    {
        let n: usize = self.queues.len();
        let mut i: usize = 0;
        while i < n
            invariant
                n == self.queues.len(),
                i <= n,
                forall|j: int| 0 <= j < i ==> !has_id((#[trigger] self@.queues[j]).in_flight, id),
            decreases n - i,
        {
            if self.queues[i].has_in_flight(id) {
                return Some(i);
            }
            i = i + 1;
        }
        None
    }

    /// What the record with the identifier would be after its attempt ended
    /// with the outcome, if some queue has an attempt in flight for it.
    /// Nothing changes.
    pub fn preview(&self, id: u64, outcome: AttemptOutcome, now: u64) -> (after: Option<
        MessageRecord,
    >)
        requires
            self.wf(),
        ensures
            after is Some <==> self@.in_flight(id),
            after matches Some(r) ==> r@ == self@.queues[self@.flight_index(id)].resolution(
                id,
                outcome,
                now,
            ),
    {
        match self.find_flight(id) {
            Some(at) => {
                proof {
                    self@.lemma_unique(at as int);
                    assert(self@.queues[at as int].wf());
                }
                self.queues[at].preview(id, outcome, now)
            },
            None => None,
        }
    }

    /// Applies the outcome of the attempt for a record in flight, in the
    /// queue that owns the record. See `Queue::complete`.
    pub fn complete(&mut self, id: u64, outcome: AttemptOutcome, now: u64) -> (done: Result<
        Completion,
        OutcomeError,
    >)
        requires
            old(self).wf(),
        ensures
            final(self).wf(),
            final(self)@ == old(self)@.completed(id, outcome, now),
            done is Err <==> !old(self)@.in_flight(id),
            done is Err ==> final(self).sites() == old(self).sites(),
            done matches Ok(c) ==> ({
                let queue = old(self)@.queues[old(self)@.flight_index(id)];
                let permit = queue.permits[index_of_id(queue.in_flight, id)];
                let after = queue.resolution(id, outcome, now);
                &&& c.record@ == after
                &&& c.instruction == instruction_for(after)
                &&& c.permit_released == old(self).sites().holds(permit)
                &&& permit.key == queue.key
                &&& final(self).sites().same_elsewhere(&old(self).sites(), permit.key)
                &&& final(self).sites().has(permit.key) == old(self).sites().has(permit.key)
                &&& final(self).sites().config(permit.key) == old(self).sites().config(permit.key)
                &&& final(self).sites().pool(permit.key) == old(self).sites().released_pool(
                    permit,
                    outcome,
                    now,
                )
            }),
    {
        let ghost before = self@;
        let ghost sites0 = self.sites;
        let i: usize = match self.find_flight(id) {
            Some(i) => i,
            None => {
                return Err(OutcomeError::NotInFlight);
            },
        };
        proof {
            before.lemma_unique(i as int);
            assert(before.queues[i as int].wf());
        }
        let queue = &mut self.queues[i];
        let done = queue.complete(id, outcome, now, &mut self.sites);
        proof {
            let after = self@;
            let at = i as int;
            assert(after.queues =~= before.queues.update(
                at,
                before.queues[at].completed(id, outcome, now),
            ));
            assert forall|a: int| 0 <= a < after.queues.len() implies (
            #[trigger] after.queues[a]).wf() by {
                if a != at {
                    assert(before.queues[a].wf());
                }
            }
            assert forall|a: int, b: int| 0 <= a < b < after.queues.len() implies (
            #[trigger] after.queues[a]).key != (#[trigger] after.queues[b]).key by {
                before.queues[at].lemma_completed_owns(id, outcome, now, id);
                assert(before.queues[a].key != before.queues[b].key);
            }
            assert forall|a: int, b: int, x: u64|
                #![trigger after.queues[a].owns(x), after.queues[b].owns(x)]
                0 <= a < after.queues.len() && 0 <= b < after.queues.len() && a != b implies !(
            after.queues[a].owns(x) && after.queues[b].owns(x)) by {
                before.queues[at].lemma_completed_owns(id, outcome, now, x);
                assert(!(before.queues[a].owns(x) && before.queues[b].owns(x)));
            }
            if before.lifecycle.phase == Phase::Stopped {
                assert(before.queues[at].in_flight.len() == 0);
            }
            let key = before.queues[at].key;
            assert forall|a: int| 0 <= a < after.queues.len() implies (
            #[trigger] after.queues[a]).in_flight.len() <= self.sites().in_flight(
                after.queues[a].key,
            ) by {
                assert(before.queues[a].in_flight.len() <= sites0.in_flight(before.queues[a].key));
                before.queues[at].lemma_completed_owns(id, outcome, now, id);
                if a != at {
                    if a < at {
                        assert(before.queues[a].key != before.queues[at].key);
                    } else {
                        assert(before.queues[at].key != before.queues[a].key);
                    }
                    assert(self.sites().pool(before.queues[a].key) == sites0.pool(
                        before.queues[a].key,
                    ));
                } else {
                    let permit = before.queues[at].permits[index_of_id(
                        before.queues[at].in_flight,
                        id,
                    )];
                    if sites0.holds(permit) {
                        crate::site::lemma_busy_count_update(
                            sites0.pool(key),
                            permit.slot,
                            self.sites().pool(key)[permit.slot],
                        );
                    } else {
                        assert(self.sites().pool(key) == sites0.pool(key));
                    }
                }
            }
        }
        match done {
            Ok(c) => Ok(c),
            Err(CompleteError::NotInFlight) => Err(OutcomeError::NotInFlight),
        }
    }

    /// Asks for a shutdown. From then on no record is taken and no attempt
    /// is started. Returns whether this request started the drain; a
    /// repeated request changes nothing.
    pub fn request_shutdown(&mut self) -> (started: bool)
        requires
            old(self).wf(),
        ensures
            final(self).wf(),
            final(self)@ == old(self)@.shutdown_requested(),
            final(self).sites() == old(self).sites(),
            final(self)@.lifecycle.phase != Phase::Running,
            started == (old(self)@.lifecycle.phase == Phase::Running),
    {
        self.lifecycle.request_shutdown()
    }

    /// Stops taking records and reports whether the queues have drained.
    pub fn shutdown_drain(&mut self) -> (report: DrainReport)
        requires
            old(self).wf(),
        ensures
            final(self).wf(),
            final(self)@ == old(self)@.shutdown_requested(),
            final(self).sites() == old(self).sites(),
            report.idle == old(self)@.idle(),
            report.phase == final(self)@.lifecycle.phase,
            report.phase != Phase::Running,
    {
        let idle: bool = self.is_idle();
        let _ = self.lifecycle.request_shutdown();
        DrainReport { idle, phase: self.lifecycle.phase }
    }

    /// Tries to end the drain, given whether the flush of the spool
    /// succeeded. The manager stops only if it is draining, no queue has an
    /// attempt in flight, and the flush succeeded; a failed flush of a
    /// drained manager is noted as a durability risk. Returns the phase
    /// after the call.
    pub fn try_stop(&mut self, flushed: bool) -> (phase: Phase)
        requires
            old(self).wf(),
        ensures
            final(self).wf(),
            final(self)@ == old(self)@.stop_tried(flushed),
            final(self).sites() == old(self).sites(),
            phase == final(self)@.lifecycle.phase,
    {
        let idle: bool = self.is_idle();
        self.lifecycle.report(idle, flushed)
    }

    /// Whether the process may exit.
    pub fn may_exit(&self) -> (allowed: bool)
        ensures
            allowed == self@.lifecycle.exit_allowed(),
    {
        self.lifecycle.may_exit()
    }

    /// Puts a configuration in force for the queue of a routing key, which
    /// is created if the key has none. The configuration governs the
    /// outcomes that are applied from now on. One that cannot be used is
    /// refused and changes nothing.
    pub fn configure_queue(&mut self, key: &String, config: QueueConfig) -> (done: Result<
        (),
        QueueConfigError,
    >)
        requires
            old(self).wf(),
        ensures
            final(self).wf(),
            final(self)@ == old(self)@.configured(key@, config),
            final(self).sites() == old(self).sites(),
            done is Ok <==> config.wf(),
    {
        if !config.is_valid() {
            return Err(QueueConfigError::Invalid);
        }
        let ghost before = self@;
        match self.find(key) {
            Some(at) => {
                proof {
                    assert(before.queues[at as int].wf());
                }
                let queue = &mut self.queues[at];
                queue.set_config(config);
                proof {
                    assert(self@.queues =~= before.configured(key@, config).queues);
                }
            },
            None => {
                self.queues.push(Queue::new(key.clone(), config));
                proof {
                    assert(self@.queues =~= before.configured(key@, config).queues);
                }
            },
        }
        proof {
            before.lemma_configured(key@, config);
            let after = self@;
            assert forall|i: int| 0 <= i < after.queues.len() implies (
            #[trigger] after.queues[i]).in_flight.len() <= self.sites().in_flight(
                after.queues[i].key,
            ) by {
                if i < before.queues.len() {
                    assert(before.queues[i].in_flight.len() <= self.sites().in_flight(
                        before.queues[i].key,
                    ));
                }
            }
        }
        Ok(())
    }

    /// Puts a configuration in force for a destination. See
    /// `SiteManager::configure`.
    pub fn configure_site(&mut self, key: &String, config: DestSiteConfig) -> (done: Result<
        (),
        ConfigureError,
    >)
        requires
            old(self).wf(),
        ensures
            final(self).wf(),
            final(self)@ == old(self)@,
            final(self).sites().same_elsewhere(&old(self).sites(), key@),
            done is Err <==> old(self).sites().in_flight(key@) > 0,
            done is Err ==> final(self).sites() == old(self).sites(),
            done is Ok ==> {
                &&& final(self).sites().has(key@)
                &&& final(self).sites().config(key@) == config
                &&& final(self).sites().pool(key@) == Seq::<crate::site::Slot>::empty()
            },
    {
        self.sites.configure(key, config)
    }

    /// The number of attempts in flight to a destination.
    pub fn in_flight_to(&self, key: &String) -> (count: usize)
        requires
            self.wf(),
        ensures
            count == self.sites().in_flight(key@),
            count <= self.sites().config(key@).max_connections,
    {
        self.sites.in_flight_count(key)
    }
}

} // verus!
