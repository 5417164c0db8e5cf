//! The pipeline: spool storage and queue manager, moved together.
//!
//! A message is accepted by storing it and routing the stored record; an
//! attempt is settled by making its outcome durable and applying it to the
//! queue. Either both halves of a step happen or neither does, so that the
//! queues never own a record that the spool does not hold.

use crate::lifecycle::Phase;
use crate::manager::QueueManager;
use crate::policy::{instruction_for, AttemptOutcome, QueueConfig, SpoolInstruction};
use crate::queue::{dispatch_views, index_of_id, Completion, Dispatch};
use crate::record::{Envelope, EnvelopeView, MessageRecord, RecordState, RecordView};
use crate::site::DestSiteConfig;
use crate::spool::{
    blob_views, next_after, restored, stored, IoStatus, RetryState, SpoolError, SpoolStorage,
    SpoolView,
};
use crate::spool_params::SpoolKind;
use vstd::pervasive::unreached;
use vstd::prelude::*;

verus! {

/// Why a message was not accepted.
#[derive(Clone, Copy, Debug, PartialEq, Eq)]
pub enum AcceptError {
    /// A shutdown was requested; no new message is taken.
    Draining,
    /// The spool did not store the message.
    Storage(SpoolError),
}

/// Why an outcome was not settled.
#[derive(Clone, Copy, Debug, PartialEq, Eq)]
pub enum SettleError {
    /// No attempt is in flight for the identifier.
    NotInFlight,
    /// The spool did not record the outcome; it is to be settled again.
    Storage(SpoolError),
}

/// Spool storage and queue manager.
#[derive(Debug)]
pub struct Pipeline {
    spool: SpoolStorage,
    manager: QueueManager,
}

/// A record for a message that was just received.
pub open spec fn received(envelope: EnvelopeView, due: u64) -> RecordView {
    RecordView {
        id: 0,
        envelope,
        body_ref: 0,
        due,
        attempts: 0,
        last_error: None,
        state: RecordState::Queued,
    }
}

/// The spool after an instruction was carried out.
pub open spec fn instructed(spool: SpoolView, instruction: SpoolInstruction) -> SpoolView {
    match instruction {
        SpoolInstruction::Persist { id, attempts, due, last_error } => spool.updated(
            id,
            RetryState { attempts, due, last_error },
        ),
        SpoolInstruction::Release { id } => spool.deleted(id),
    }
}

impl Pipeline {
    /// The spool.
    pub closed spec fn spool(&self) -> SpoolView {
        self.spool@
    }

    /// The queue manager.
    pub closed spec fn manager(&self) -> QueueManager {
        self.manager
    }

    /// Spool and queue manager are well formed, and the spool holds every
    /// record that a queue owns.
    pub open spec fn wf(&self) -> bool {
        &&& self.spool().wf()
        &&& self.manager().wf()
        &&& forall|id: u64| #[trigger] self.manager()@.owns(id) ==> self.spool().holds(id)
    }

    /// An empty pipeline. Every queue that it creates gets `queue_config`;
    /// every destination without a configuration of its own gets
    /// `site_config`.
    pub fn new(
        kind: SpoolKind,
        sync: bool,
        queue_config: QueueConfig,
        site_config: DestSiteConfig,
    ) -> (pipeline: Self)
        requires
            queue_config.wf(),
        ensures
            pipeline.wf(),
            pipeline.spool() == (SpoolView {
                kind,
                sync,
                live: Seq::empty(),
                durable: Seq::empty(),
                next_id: 0,
            }),
            pipeline.manager()@.queues == Seq::<crate::queue::QueueView>::empty(),
            pipeline.manager()@.lifecycle.phase == Phase::Running,
    {
        let pipeline = Pipeline {
            spool: SpoolStorage::new(kind, sync),
            manager: QueueManager::new(queue_config, site_config),
        };
        assert(forall|id: u64| !pipeline.manager()@.owns(id));
        pipeline
    }

    /// The spool.
    pub fn storage(&self) -> (spool: &SpoolStorage)
        ensures
            spool@ == self.spool(),
    {
        &self.spool
    }

    /// The queue manager.
    pub fn queues(&self) -> (manager: &QueueManager)
        ensures
            *manager == self.manager(),
    {
        &self.manager
    }

    /// Accepts a message: stores it in the spool under a new identifier and
    /// routes the stored record to the queue of its routing key.
    ///
    /// Nothing is accepted once a shutdown was requested, nor when no
    /// identifier is left, nor when the backend's write failed; then
    /// nothing changes. `io` is the backend's report on the write.
    pub fn accept(&mut self, envelope: Envelope, body: Vec<u8>, due: u64, now: u64, io: IoStatus)
        -> (done: Result<u64, AcceptError>)
        requires
            old(self).wf(),
        ensures
            final(self).wf(),
            final(self).manager().sites() == old(self).manager().sites(),
            match done {
                Ok(id) => {
                    &&& old(self).manager()@.lifecycle.phase == Phase::Running
                    &&& old(self).spool().next_id < u64::MAX
                    &&& io == IoStatus::Done
                    &&& id == old(self).spool().next_id
                    &&& final(self).spool() == old(self).spool().put(
                        received(envelope@, due),
                        body@,
                    )
                    &&& final(self).manager()@ == old(self).manager()@.routed(
                        stored(received(envelope@, due), id),
                        now,
                    )
                    &&& final(self).manager()@.owns(id)
                    &&& final(self).spool().holds(id)
                },
                Err(AcceptError::Draining) => old(self).manager()@.lifecycle.phase
                    != Phase::Running && final(self).spool() == old(self).spool() && final(self).manager()@ == old(self).manager()@,
                Err(AcceptError::Storage(e)) => {
                    &&& old(self).manager()@.lifecycle.phase == Phase::Running
                    &&& final(self).spool() == old(self).spool()
                    &&& final(self).manager()@ == old(self).manager()@
                    &&& if old(self).spool().next_id == u64::MAX {
                        e == SpoolError::Exhausted
                    } else {
                        e == SpoolError::Io && io == IoStatus::Failed
                    }
                },
            },
    {
        if !matches!(self.manager.phase(), Phase::Running) {
            return Err(AcceptError::Draining);
        }
        let ghost spool0 = self.spool@;
        let ghost manager0 = self.manager@;
        let record = MessageRecord::new(0, envelope, due);
        let id: u64 = match self.spool.put(record, body, io) {
            Ok(id) => id,
            Err(e) => {
                return Err(AcceptError::Storage(e));
            },
        };
        let stored_record = match self.spool.get(id) {
            Ok(r) => r,
            Err(_) => unreached(),
        };
        proof {
            spool0.lemma_put_wf(received(envelope@, due), body@);
            assert(!spool0.holds(id)) by {
                if spool0.holds(id) {
                    let k = crate::spool::entry_index(spool0.live, id);
                    assert(spool0.live[k].record.id < spool0.next_id);
                }
            }
            assert(!manager0.owns(id));
            manager0.lemma_routed(stored_record@, now);
        }
        match self.manager.route(stored_record, now) {
            Ok(()) => {
                proof {
                    let after = self.manager@;
                    assert(after.owns(id));
                    assert forall|x: u64| #[trigger] after.owns(x) implies self.spool().holds(
                        x,
                    ) by {
                        if x != id {
                            assert(manager0.owns(x));
                            assert(spool0.holds(x));
                        }
                    }
                }
                Ok(id)
            },
            Err(_) => unreached(),
        }
    }

    /// One scheduling step of every queue. See `QueueManager::tick`.
    pub fn tick(&mut self, now: u64) -> (out: Vec<Dispatch>)
        requires
            old(self).wf(),
        ensures
            final(self).wf(),
            final(self).spool() == old(self).spool(),
            final(self).manager()@ == old(self).manager()@.ticked(now, old(self).manager().sites()),
            dispatch_views(out@) == if old(self).manager()@.lifecycle.phase == Phase::Running {
                old(self).manager()@.tick_output(
                    now,
                    old(self).manager().sites(),
                    old(self).manager()@.queues.len() as int,
                )
            } else {
                Seq::empty()
            },
    {
        let ghost manager0 = self.manager@;
        let ghost sites0 = self.manager.sites();
        let out = self.manager.tick(now);
        proof {
            manager0.lemma_ticked(now, sites0);
            assert forall|x: u64| #[trigger] self.manager()@.owns(x) implies self.spool().holds(
                x,
            ) by {
                assert(manager0.owns(x));
            }
        }
        out
    }

    /// Settles the attempt for a record: makes what the outcome does to the
    /// record durable, then applies the outcome to the record's queue.
    ///
    /// `io` is the backend's report on the write that the outcome needs: the
    /// removal of the entry if the record is delivered or bounced, the write
    /// of its retry state if it is delayed. If the write failed nothing
    /// changes and the attempt stays in flight, to be settled again.
    pub fn settle(&mut self, id: u64, outcome: AttemptOutcome, now: u64, io: IoStatus) -> (done:
        Result<Completion, SettleError>)
        requires
            old(self).wf(),
        ensures
            final(self).wf(),
            match done {
                Ok(c) => {
                    let queue = old(self).manager()@.queues[old(self).manager()@.flight_index(id)];
                    let after = queue.resolution(id, outcome, now);
                    &&& old(self).manager()@.in_flight(id)
                    &&& io == IoStatus::Done
                    &&& c.record@ == after
                    &&& c.instruction == instruction_for(after)
                    &&& final(self).spool() == instructed(old(self).spool(), c.instruction)
                    &&& final(self).manager()@ == old(self).manager()@.completed(id, outcome, now)
                    &&& after.state.is_terminal() ==> !final(self).spool().holds(id)
                        && !final(self).manager()@.owns(id)
                },
                Err(SettleError::NotInFlight) => {
                    &&& !old(self).manager()@.in_flight(id)
                    &&& final(self).spool() == old(self).spool()
                    &&& final(self).manager() == old(self).manager()
                },
                Err(SettleError::Storage(e)) => {
                    &&& old(self).manager()@.in_flight(id)
                    &&& e == SpoolError::Io
                    &&& io == IoStatus::Failed
                    &&& final(self).spool() == old(self).spool()
                    &&& final(self).manager() == old(self).manager()
                },
            },
    {
        let ghost spool0 = self.spool@;
        let ghost manager0 = self.manager@;
        let next = match self.manager.preview(id, outcome, now) {
            Some(r) => r,
            None => {
                return Err(SettleError::NotInFlight);
            },
        };
        let instruction = QueueConfig::instruction(&next);
        proof {
            manager0.lemma_completed(id, outcome, now);
            let queue = manager0.queues[manager0.flight_index(id)];
            queue.config.lemma_resolved_shape(
                queue.in_flight[index_of_id(queue.in_flight, id)],
                outcome,
                now,
            );
            assert(queue.wf());
            crate::queue::lemma_has_id_parts(queue.ready, queue.delayed, queue.in_flight, id);
            assert(manager0.owns(id));
            assert(spool0.holds(id));
        }
        match self.spool.apply(instruction, io) {
            Ok(()) => {},
            Err(e) => {
                return Err(SettleError::Storage(e));
            },
        }
        let done = self.manager.complete(id, outcome, now);
        proof {
            let after = self.manager@;
            assert forall|x: u64| #[trigger] after.owns(x) implies self.spool().holds(x) by {
                assert(manager0.owns(x));
                assert(spool0.holds(x));
                if next@.state.is_terminal() {
                    spool0.lemma_deleted_wf(id);
                    assert(x != id);
                } else {
                    spool0.lemma_updated_wf(
                        id,
                        RetryState {
                            attempts: next@.attempts,
                            due: next@.due,
                            last_error: next@.last_error,
                        },
                    );
                }
            }
            if next@.state.is_terminal() {
                spool0.lemma_deleted_wf(id);
            }
        }
        match done {
            Ok(c) => Ok(c),
            Err(_) => unreached(),
        }
    }

    /// Asks for a shutdown. See `QueueManager::request_shutdown`.
    pub fn request_shutdown(&mut self) -> (started: bool)
        requires
            old(self).wf(),
        ensures
            final(self).wf(),
            final(self).spool() == old(self).spool(),
            final(self).manager()@ == old(self).manager()@.shutdown_requested(),
            started == (old(self).manager()@.lifecycle.phase == Phase::Running),
    {
        let ghost manager0 = self.manager@;
        let started = self.manager.request_shutdown();
        proof {
            assert forall|x: u64| #[trigger] self.manager()@.owns(x) implies self.spool().holds(
                x,
            ) by {
                assert(self.manager()@.queues == manager0.queues);
                assert(manager0.owns(x));
            }
        }
        started
    }

    /// Whether the drain has come to the point where the spool is to be
    /// flushed: a shutdown was requested, the manager is not yet stopped,
    /// and no attempt is in flight.
    pub fn ready_to_stop(&self) -> (ready: bool)
        ensures
            ready == (self.manager()@.lifecycle.phase == Phase::Draining && self.manager()@.idle()),
    {
        matches!(self.manager.phase(), Phase::Draining) && self.manager.is_idle()
    }

    /// Ends the drain if it can be ended. `io` is the backend's report on
    /// the flush of the spool, which is due once a draining manager is
    /// idle.
    ///
    /// A draining, idle manager stops if the flush succeeded, and notes a
    /// durability risk if it failed. In every other case nothing changes.
    /// Returns the phase after the call.
    pub fn try_stop(&mut self, io: IoStatus) -> (phase: Phase)
        requires
            old(self).wf(),
        ensures
            final(self).wf(),
            phase == final(self).manager()@.lifecycle.phase,
            if old(self).manager()@.lifecycle.phase == Phase::Draining && old(self).manager()@.idle() {
                &&& final(self).manager()@ == old(self).manager()@.stop_tried(io == IoStatus::Done)
                &&& final(self).spool() == if io == IoStatus::Done {
                    old(self).spool().flushed()
                } else {
                    old(self).spool()
                }
            } else {
                &&& final(self).manager()@ == old(self).manager()@
                &&& final(self).spool() == old(self).spool()
            },
    {
        if !self.ready_to_stop() {
            return self.manager.phase();
        }
        let ghost manager0 = self.manager@;
        let ghost spool0 = self.spool@;
        let flushed: bool = self.spool.flush(io).is_ok();
        let phase = self.manager.try_stop(flushed);
        proof {
            assert forall|x: u64| #[trigger] self.manager()@.owns(x) implies self.spool().holds(
                x,
            ) by {
                assert(self.manager()@.queues == manager0.queues);
                assert(manager0.owns(x));
                assert(spool0.holds(x));
            }
        }
        phase
    }

    /// Rebuilds a pipeline at startup from the byte sequences that the
    /// spool's backend holds: the spool is restored, and every restored
    /// record is routed, in rising order of identifier.
    pub fn recover(
        kind: SpoolKind,
        sync: bool,
        blobs: &Vec<Vec<u8>>,
        queue_config: QueueConfig,
        site_config: DestSiteConfig,
        now: u64,
    ) -> (pipeline: Self)
        requires
            queue_config.wf(),
        ensures
            pipeline.wf(),
            pipeline.spool() == (SpoolView {
                kind,
                sync,
                live: restored(blob_views(blobs@)),
                durable: restored(blob_views(blobs@)),
                next_id: next_after(restored(blob_views(blobs@))),
            }),
            pipeline.manager()@.lifecycle.phase == Phase::Running,
            forall|id: u64|
                #![trigger pipeline.manager()@.owns(id)]
                pipeline.manager()@.owns(id) <==> pipeline.spool().holds(id),
            pipeline.manager()@.idle(),
    {
        let spool = SpoolStorage::restore(kind, sync, blobs);
        let mut manager = QueueManager::new(queue_config, site_config);
        let records = spool.load_all();
        let ghost all = spool@.load_all();
        let ghost live = spool@.live;
        let n: usize = records.len();
        let mut done: usize = 0;
        proof {
            assert(forall|id: u64| !manager@.owns(id));
            assert(manager@.idle());
            assert(crate::record::views(records@).len() == records@.len());
            assert(all.len() == live.len());
        }
        while done < n
            invariant
                done <= n,
                n == records.len(),
                n == live.len(),
                n == all.len(),
                crate::record::views(records@) == all,
                all == crate::spool::records_of(live),
                live == spool@.live,
                spool.wf(),
                manager.wf(),
                manager@.lifecycle.phase == Phase::Running,
                manager@.idle(),
                forall|id: u64|
                    #![trigger manager@.owns(id)]
                    manager@.owns(id) <==> exists|k: int|
                        0 <= k < done && (#[trigger] all[k]).id == id,
            decreases n - done,
        {
            let record = records[done].duplicate();
            let ghost before = manager@;
            let ghost rv = record@;
            proof {
                assert(crate::record::views(records@)[done as int] == records@[done as int]@);
                assert(rv == all[done as int]);
                assert(crate::spool::records_of(live)[done as int] == live[done as int].record);
                assert(rv == live[done as int].record);
                assert(rv.state == RecordState::Queued);
                assert(!before.owns(rv.id)) by {
                    if before.owns(rv.id) {
                        let k = choose|k: int| 0 <= k < done && (#[trigger] all[k]).id == rv.id;
                        assert(crate::spool::records_of(live)[k] == live[k].record);
                        assert(live[k].record.id < live[done as int].record.id);
                    }
                }
                before.lemma_routed(rv, now);
            }
            let taken = manager.route(record, now);
            done = done + 1;
            proof {
                let after = manager@;
                assert(taken is Ok);
                assert forall|id: u64| #![trigger after.owns(id)] after.owns(id) <==> (exists|k: int|
                    0 <= k < done && (#[trigger] all[k]).id == id) by {
                    if after.owns(id) {
                        if id == rv.id {
                            assert(all[done - 1].id == id);
                        } else {
                            assert(before.owns(id));
                            let k = choose|k: int|
                                0 <= k < done - 1 && (#[trigger] all[k]).id == id;
                            assert(all[k].id == id);
                        }
                    }
                    if exists|k: int| 0 <= k < done && (#[trigger] all[k]).id == id {
                        let k = choose|k: int| 0 <= k < done && (#[trigger] all[k]).id == id;
                        if k < done - 1 {
                            assert(before.owns(id));
                        }
                    }
                }
                assert(after.idle()) by {
                    assert forall|q: int| 0 <= q < after.queues.len() implies (
                    #[trigger] after.queues[q]).in_flight.len() == 0 by {
                        if after.queues[q].in_flight.len() > 0 {
                            let x = after.queues[q].in_flight[0].id;
                            assert(crate::queue::has_id(after.queues[q].in_flight, x));
                            assert(after.in_flight(x));
                            assert(before.in_flight(x));
                            let b = before.flight_index(x);
                            assert(before.queues[b].in_flight.len() == 0);
                        }
                    }
                }
            }
        }
        let pipeline = Pipeline { spool, manager };
        proof {
            assert forall|id: u64|
                #![trigger pipeline.manager()@.owns(id)]
                pipeline.manager()@.owns(id) <==> pipeline.spool().holds(id) by {
                if pipeline.manager()@.owns(id) {
                    let k = choose|k: int| 0 <= k < n && (#[trigger] all[k]).id == id;
                    assert(crate::spool::records_of(live)[k] == live[k].record);
                    assert(live[k].record.id == id);
                }
                if pipeline.spool().holds(id) {
                    let k = crate::spool::entry_index(live, id);
                    assert(crate::spool::records_of(live)[k] == live[k].record);
                    assert(all[k].id == id);
                }
            }
        }
        pipeline
    }
}

} // verus!
