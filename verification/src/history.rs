//! Histories of the queue manager: what holds after any sequence of steps.
//!
//! A step is one call of the manager: a record is offered, the queues are
//! scheduled against some state of the destination sites, an attempt ends, a
//! shutdown is requested, or the end of the drain is tried. The functions of
//! this module state what no sequence of such steps can do.

use crate::lifecycle::Phase;
use crate::manager::ManagerView;
use crate::policy::{AttemptOutcome, QueueConfig};
use crate::record::{RecordState, RecordView};
use crate::site::SiteManager;
use vstd::prelude::*;

verus! {

/// One step of a queue manager.
pub enum Step {
    /// A record is offered for routing.
    Route { record: RecordView, now: u64 },
    /// The queues are scheduled while the destination sites are as given.
    Tick { now: u64, sites: SiteManager },
    /// The attempt for a record ends.
    Complete { id: u64, outcome: AttemptOutcome, now: u64 },
    /// A configuration is put in force for the queue of a routing key.
    ConfigureQueue { key: Seq<char>, config: QueueConfig },
    /// A shutdown is requested.
    RequestShutdown,
    /// The end of the drain is tried after a flush of the spool.
    TryStop { flushed: bool },
}

/// The manager after one step.
pub open spec fn after_step(m: ManagerView, step: Step) -> ManagerView {
    match step {
        Step::Route { record, now } => m.routed(record, now),
        Step::Tick { now, sites } => m.ticked(now, sites),
        Step::Complete { id, outcome, now } => m.completed(id, outcome, now),
        Step::ConfigureQueue { key, config } => m.configured(key, config),
        Step::RequestShutdown => m.shutdown_requested(),
        Step::TryStop { flushed } => m.stop_tried(flushed),
    }
}

/// The manager after a sequence of steps.
pub open spec fn after_steps(m: ManagerView, steps: Seq<Step>) -> ManagerView
    decreases steps.len(),
{
    if steps.len() == 0 {
        m
    } else {
        after_step(after_steps(m, steps.drop_last()), steps.last())
    }
}

/// Whether a step delivers the record with the identifier: it ends an
/// attempt that is in flight for it, with an outcome that counts as a
/// success.
pub open spec fn delivers(m: ManagerView, step: Step, id: u64) -> bool {
    step matches Step::Complete { id: ended, outcome, now } && ended == id && m.in_flight(id)
        && m.queues[m.flight_index(id)].resolution(id, outcome, now).state
        == RecordState::Delivered
}

/// How often the record with the identifier is delivered in a sequence of
/// steps.
pub open spec fn deliveries(m: ManagerView, steps: Seq<Step>, id: u64) -> nat
    decreases steps.len(),
{
    if steps.len() == 0 {
        0
    } else {
        deliveries(m, steps.drop_last(), id) + if delivers(
            after_steps(m, steps.drop_last()),
            steps.last(),
            id,
        ) {
            1nat
        } else {
            0nat
        }
    }
}

/// How often a record with the identifier is offered in a sequence of
/// steps.
pub open spec fn offers(steps: Seq<Step>, id: u64) -> nat
    decreases steps.len(),
{
    if steps.len() == 0 {
        0
    } else {
        offers(steps.drop_last(), id) + if steps.last() matches Step::Route { record, .. }
            && record.id == id {
            1nat
        } else {
            0nat
        }
    }
}

/// One if the manager owns the identifier, else zero.
pub open spec fn owned(m: ManagerView, id: u64) -> nat {
    if m.owns(id) {
        1
    } else {
        0
    }
}

/// Every step leaves a well-formed manager well formed and never moves the
/// lifecycle to an earlier phase.
pub proof fn lemma_step(m: ManagerView, step: Step)
    requires
        m.wf(),
    ensures
        after_step(m, step).wf(),
        after_step(m, step).lifecycle.phase.rank() >= m.lifecycle.phase.rank(),
{
    match step {
        Step::Route { record, now } => {
            m.lemma_routed(record, now);
        },
        Step::Tick { now, sites } => {
            m.lemma_ticked(now, sites);
        },
        Step::Complete { id, outcome, now } => {
            m.lemma_completed(id, outcome, now);
        },
        Step::ConfigureQueue { key, config } => {
            m.lemma_configured(key, config);
        },
        Step::RequestShutdown => {
            m.lemma_lifecycle_steps(true);
        },
        Step::TryStop { flushed } => {
            m.lemma_lifecycle_steps(flushed);
        },
    }
}

/// Every sequence of steps leaves a well-formed manager well formed and
/// never moves the lifecycle to an earlier phase.
pub proof fn lemma_steps(m: ManagerView, steps: Seq<Step>)
    requires
        m.wf(),
    ensures
        after_steps(m, steps).wf(),
        after_steps(m, steps).lifecycle.phase.rank() >= m.lifecycle.phase.rank(),
    decreases steps.len(),
{
    if steps.len() > 0 {
        lemma_steps(m, steps.drop_last());
        lemma_step(after_steps(m, steps.drop_last()), steps.last());
    }
}

/// No duplicate delivery: over any sequence of steps, a record is delivered
/// no more often than a record with its identifier was in the manager at
/// the start or was offered to it since, less what the manager still owns.
pub proof fn lemma_deliveries_bounded(m: ManagerView, steps: Seq<Step>, id: u64)
    requires
        m.wf(),
    ensures
        deliveries(m, steps, id) + owned(after_steps(m, steps), id) <= owned(m, id) + offers(
            steps,
            id,
        ),
    decreases steps.len(),
{
    if steps.len() > 0 {
        let before = after_steps(m, steps.drop_last());
        let step = steps.last();
        lemma_deliveries_bounded(m, steps.drop_last(), id);
        lemma_steps(m, steps.drop_last());
        let after = after_step(before, step);
        match step {
            Step::Route { record, now } => {
                before.lemma_routed(record, now);
                assert(after.owns(id) <==> before.owns(id) || (before.accepts(record) && id
                    == record.id));
            },
            Step::Tick { now, sites } => {
                before.lemma_ticked(now, sites);
                assert(after.owns(id) <==> before.owns(id));
            },
            Step::Complete { id: ended, outcome, now } => {
                before.lemma_completed(ended, outcome, now);
                assert(after.owns(id) ==> before.owns(id));
            },
            Step::ConfigureQueue { key, config } => {
                before.lemma_configured(key, config);
                assert(after.owns(id) <==> before.owns(id));
            },
            Step::RequestShutdown => {
                assert(after.owns(id) <==> before.owns(id)) by {
                    assert(after.queues == before.queues);
                }
            },
            Step::TryStop { flushed } => {
                assert(after.owns(id) <==> before.owns(id)) by {
                    assert(after.queues == before.queues);
                }
            },
        }
    }
}

/// No duplicate delivery: a record that is accepted once, either held at
/// the start or offered once since, is delivered at most once, whatever
/// else happens.
pub proof fn lemma_delivered_at_most_once(m: ManagerView, steps: Seq<Step>, id: u64)
    requires
        m.wf(),
        owned(m, id) + offers(steps, id) <= 1,
    ensures
        deliveries(m, steps, id) <= 1,
{
    lemma_deliveries_bounded(m, steps, id);
}

/// At any moment at most one attempt is in flight for a record: the queue
/// that has it is the only one, and has it at one place.
pub proof fn lemma_one_attempt_at_a_time(m: ManagerView, a: int, b: int, i: int, j: int)
    requires
        m.wf(),
        0 <= a < m.queues.len(),
        0 <= b < m.queues.len(),
        0 <= i < m.queues[a].in_flight.len(),
        0 <= j < m.queues[b].in_flight.len(),
        m.queues[a].in_flight[i].id == m.queues[b].in_flight[j].id,
    ensures
        a == b,
        i == j,
{
    let id = m.queues[a].in_flight[i].id;
    let qa = m.queues[a];
    let qb = m.queues[b];
    assert(qa.wf() && qb.wf());
    crate::queue::lemma_has_id_parts(qa.ready, qa.delayed, qa.in_flight, id);
    crate::queue::lemma_has_id_parts(qb.ready, qb.delayed, qb.in_flight, id);
    assert(qa.owns(id) && qb.owns(id));
    crate::queue::lemma_parts_wf(qa.ready, qa.delayed, qa.in_flight);
    if i < j {
        assert(qa.in_flight[i].id != qa.in_flight[j].id);
    } else if j < i {
        assert(qa.in_flight[j].id != qa.in_flight[i].id);
    }
}

/// Drain completeness: once a shutdown is requested, no sequence of steps
/// makes the manager take a record or start an attempt again.
pub proof fn lemma_no_admission_after_shutdown(
    m: ManagerView,
    steps: Seq<Step>,
    record: RecordView,
    now: u64,
    sites: SiteManager,
)
    requires
        m.wf(),
    ensures
        ({
            let later = after_steps(m.shutdown_requested(), steps);
            &&& later.lifecycle.phase != Phase::Running
            &&& !later.accepts(record)
            &&& later.routed(record, now) == later
            &&& later.ticked(now, sites) == later
        }),
{
    m.lemma_lifecycle_steps(true);
    lemma_steps(m.shutdown_requested(), steps);
}

/// Drain completeness: once a shutdown is requested, the manager owns no
/// record later that it did not own then.
pub proof fn lemma_nothing_new_after_shutdown(m: ManagerView, steps: Seq<Step>, id: u64)
    requires
        m.wf(),
        m.lifecycle.phase != Phase::Running,
    ensures
        after_steps(m, steps).owns(id) ==> m.owns(id),
    decreases steps.len(),
{
    if steps.len() > 0 {
        let before = after_steps(m, steps.drop_last());
        lemma_nothing_new_after_shutdown(m, steps.drop_last(), id);
        lemma_steps(m, steps.drop_last());
        match steps.last() {
            Step::Route { record, now } => {
                before.lemma_routed(record, now);
            },
            Step::Tick { now, sites } => {
                before.lemma_ticked(now, sites);
            },
            Step::Complete { id: ended, outcome, now } => {
                before.lemma_completed(ended, outcome, now);
            },
            Step::ConfigureQueue { key, config } => {
                before.lemma_configured(key, config);
            },
            Step::RequestShutdown => {
                assert(after_steps(m, steps).queues == before.queues);
            },
            Step::TryStop { flushed } => {
                assert(after_steps(m, steps).queues == before.queues);
            },
        }
    }
}

/// Drain completeness: whatever the steps, a manager that is stopped has
/// no attempt in flight in any queue, and the step that stopped it found
/// it draining, idle and flushed.
pub proof fn lemma_stopped_means_idle(m: ManagerView, steps: Seq<Step>)
    requires
        m.wf(),
    ensures
        after_steps(m, steps).lifecycle.phase == Phase::Stopped ==> after_steps(m, steps).idle(),
        steps.len() > 0 && after_steps(m, steps).lifecycle.phase == Phase::Stopped && after_steps(
            m,
            steps.drop_last(),
        ).lifecycle.phase != Phase::Stopped ==> {
            &&& steps.last() matches Step::TryStop { flushed }
            &&& flushed
            &&& after_steps(m, steps.drop_last()).lifecycle.phase == Phase::Draining
            &&& after_steps(m, steps.drop_last()).idle()
        },
{
    lemma_steps(m, steps);
    if steps.len() > 0 {
        let before = after_steps(m, steps.drop_last());
        lemma_steps(m, steps.drop_last());
        match steps.last() {
            Step::Route { record, now } => {
                before.lemma_routed(record, now);
            },
            Step::Tick { now, sites } => {
                before.lemma_ticked(now, sites);
            },
            Step::Complete { id, outcome, now } => {
                before.lemma_completed(id, outcome, now);
            },
            Step::ConfigureQueue { key, config } => {
                before.lemma_configured(key, config);
            },
            Step::RequestShutdown => {},
            Step::TryStop { flushed } => {},
        }
    }
}

} // verus!
