use kumod::policy::{AttemptOutcome, QueueConfig, SpoolInstruction};
use kumod::queue::{AdmitError, CompleteError, Queue};
use kumod::record::{Envelope, FailureClass, MessageRecord, RecordState};
use kumod::site::{DestSiteConfig, SiteManager};

fn record(id: u64, due: u64) -> MessageRecord {
    MessageRecord::new(
        id,
        Envelope::new("sender@origin.test".to_string(), "rcpt@example.com".to_string()),
        due,
    )
}

fn sites(max_connections: usize) -> SiteManager {
    SiteManager::new(DestSiteConfig {
        max_connections,
        max_message_per_connection: 100,
        idle_timeout: 60,
        connect_timeout: 30,
    })
}

fn queue() -> Queue {
    Queue::new("example.com".to_string(), QueueConfig::standard())
}

const OK: AttemptOutcome = AttemptOutcome::Response { code: 250 };
const TEMPFAIL: AttemptOutcome = AttemptOutcome::Response { code: 451 };
const PERMFAIL: AttemptOutcome = AttemptOutcome::Response { code: 550 };

#[test]
fn new_queue_is_empty() {
    let q = queue();
    assert!(q.is_empty());
    assert!(q.is_idle());
    assert_eq!(q.routing_key(), "example.com");
    assert_eq!(q.ready_len(), 0);
    assert_eq!(q.delayed_len(), 0);
    assert_eq!(q.in_flight_len(), 0);
}

#[test]
fn due_records_enter_the_ready_set_in_order_of_admission() {
    let mut q = queue();
    assert_eq!(q.admit_record(record(3, 10), 10), Ok(()));
    assert_eq!(q.admit_record(record(1, 0), 10), Ok(()));
    assert_eq!(q.admit_record(record(2, 5), 10), Ok(()));
    assert_eq!(q.ready_ids(), vec![3, 1, 2]);
    assert_eq!(q.delayed_len(), 0);
    assert!(q.contains(1) && q.contains(2) && q.contains(3));
    assert!(!q.contains(4));
}

#[test]
fn future_records_enter_the_delayed_set_in_order_of_due_time() {
    let mut q = queue();
    assert_eq!(q.admit_record(record(1, 300), 10), Ok(()));
    assert_eq!(q.admit_record(record(2, 100), 10), Ok(()));
    assert_eq!(q.admit_record(record(3, 200), 10), Ok(()));
    assert_eq!(q.admit_record(record(4, 100), 10), Ok(()));
    assert_eq!(q.admit_record(record(5, 11), 10), Ok(()));
    assert_eq!(q.delayed_ids(), vec![5, 2, 4, 3, 1]);
    assert_eq!(q.ready_len(), 0);
}

#[test]
fn duplicates_and_terminal_records_are_refused() {
    let mut q = queue();
    assert_eq!(q.admit_record(record(1, 0), 10), Ok(()));
    assert_eq!(q.admit_record(record(1, 0), 10), Err(AdmitError::Duplicate));
    assert_eq!(q.admit_record(record(1, 500), 10), Err(AdmitError::Duplicate));
    let mut done = record(2, 0);
    done.state = RecordState::Delivered;
    assert_eq!(q.admit_record(done, 10), Err(AdmitError::Terminal));
    let mut bounced = record(3, 0);
    bounced.state = RecordState::Bounced;
    assert_eq!(q.admit_record(bounced, 10), Err(AdmitError::Terminal));
    assert_eq!(q.ready_ids(), vec![1]);
}

#[test]
fn a_record_that_was_in_flight_is_admitted_as_queued() {
    let mut q = queue();
    let mut r = record(1, 0);
    r.state = RecordState::InFlight;
    assert_eq!(q.admit_record(r, 10), Ok(()));
    assert_eq!(q.ready_ids(), vec![1]);
    assert_eq!(q.in_flight_len(), 0);
}

#[test]
fn promote_moves_exactly_the_due_records() {
    let mut q = queue();
    assert_eq!(q.admit_record(record(9, 0), 0), Ok(()));
    assert_eq!(q.admit_record(record(1, 300), 0), Ok(()));
    assert_eq!(q.admit_record(record(2, 100), 0), Ok(()));
    assert_eq!(q.admit_record(record(3, 200), 0), Ok(()));
    assert_eq!(q.promote(99), 0);
    assert_eq!(q.promote(200), 2);
    assert_eq!(q.ready_ids(), vec![9, 2, 3]);
    assert_eq!(q.delayed_ids(), vec![1]);
    assert_eq!(q.promote(299), 0);
    assert_eq!(q.promote(300), 1);
    assert_eq!(q.ready_ids(), vec![9, 2, 3, 1]);
    assert_eq!(q.delayed_len(), 0);
}

#[test]
fn dispatch_is_first_in_first_out_and_bounded() {
    let mut q = queue();
    let mut s = sites(2);
    assert_eq!(q.admit_record(record(1, 0), 0), Ok(()));
    assert_eq!(q.admit_record(record(2, 0), 0), Ok(()));
    assert_eq!(q.admit_record(record(3, 0), 0), Ok(()));
    let out = q.dispatch(0, &mut s);
    assert_eq!(out.len(), 2);
    assert_eq!(out[0].record.id, 1);
    assert_eq!(out[1].record.id, 2);
    assert_eq!(out[0].record.state, RecordState::InFlight);
    assert_eq!(out[0].slot, 0);
    assert_eq!(out[1].slot, 1);
    assert!(!out[0].reuses_connection);
    assert_eq!(out[0].connect_timeout, 30);
    assert_eq!(q.in_flight_ids(), vec![1, 2]);
    assert_eq!(q.ready_ids(), vec![3]);
    assert_eq!(s.in_flight_count(&"example.com".to_string()), 2);
    assert_eq!(q.dispatch(0, &mut s).len(), 0);
}

#[test]
fn a_record_that_is_not_due_is_never_dispatched() {
    let mut q = queue();
    let mut s = sites(4);
    assert_eq!(q.admit_record(record(1, 50), 100), Ok(()));
    assert_eq!(q.admit_record(record(2, 500), 100), Ok(()));
    assert_eq!(q.ready_ids(), vec![1]);
    assert_eq!(q.tick(40, &mut s).len(), 0);
    assert_eq!(q.ready_ids(), vec![1]);
    assert_eq!(q.tick(499, &mut s).len(), 1);
    assert_eq!(q.in_flight_ids(), vec![1]);
    assert_eq!(q.delayed_ids(), vec![2]);
    let out = q.tick(500, &mut s);
    assert_eq!(out.len(), 1);
    assert_eq!(out[0].record.id, 2);
}

#[test]
fn second_attempt_waits_for_the_first_permit() {
    let mut q = queue();
    let mut s = sites(1);
    assert_eq!(q.admit_record(record(1, 0), 0), Ok(()));
    assert_eq!(q.admit_record(record(2, 0), 0), Ok(()));
    let first = q.tick(0, &mut s);
    assert_eq!(first.len(), 1);
    assert_eq!(first[0].record.id, 1);
    assert_eq!(first[0].record.routing_key(), "example.com");
    assert_eq!(q.tick(1, &mut s).len(), 0);
    assert_eq!(q.tick(2, &mut s).len(), 0);
    assert_eq!(q.ready_ids(), vec![2]);
    assert_eq!(q.in_flight_ids(), vec![1]);
    assert_eq!(s.in_flight_count(&"example.com".to_string()), 1);
    let done = q.complete(1, OK, 3, &mut s).unwrap();
    assert!(done.permit_released);
    assert_eq!(done.record.state, RecordState::Delivered);
    assert_eq!(s.in_flight_count(&"example.com".to_string()), 0);
    let second = q.tick(3, &mut s);
    assert_eq!(second.len(), 1);
    assert_eq!(second[0].record.id, 2);
    assert!(second[0].reuses_connection);
}

#[test]
fn success_removes_the_record_and_releases_the_entry() {
    let mut q = queue();
    let mut s = sites(1);
    assert_eq!(q.admit_record(record(7, 0), 0), Ok(()));
    assert_eq!(q.tick(0, &mut s).len(), 1);
    let done = q.complete(7, OK, 1, &mut s).unwrap();
    assert_eq!(done.record.id, 7);
    assert_eq!(done.record.state, RecordState::Delivered);
    assert_eq!(done.instruction, SpoolInstruction::Release { id: 7 });
    assert!(q.is_empty());
    assert!(!q.contains(7));
}

#[test]
fn a_record_is_delivered_at_most_once() {
    let mut q = queue();
    let mut s = sites(2);
    assert_eq!(q.admit_record(record(7, 0), 0), Ok(()));
    assert_eq!(q.tick(0, &mut s).len(), 1);
    assert_eq!(q.tick(0, &mut s).len(), 0);
    assert!(q.complete(7, OK, 1, &mut s).is_ok());
    assert_eq!(q.complete(7, OK, 2, &mut s).err(), Some(CompleteError::NotInFlight));
    assert_eq!(q.tick(3, &mut s).len(), 0);
    assert_eq!(s.in_flight_count(&"example.com".to_string()), 0);
}

#[test]
fn outcome_without_an_attempt_is_refused() {
    let mut q = queue();
    let mut s = sites(1);
    assert_eq!(q.admit_record(record(1, 0), 0), Ok(()));
    assert_eq!(q.complete(1, OK, 0, &mut s).err(), Some(CompleteError::NotInFlight));
    assert_eq!(q.complete(2, OK, 0, &mut s).err(), Some(CompleteError::NotInFlight));
    assert_eq!(q.ready_ids(), vec![1]);
}

#[test]
fn transient_failure_delays_then_requeues() {
    let mut q = queue();
    let mut s = sites(1);
    assert_eq!(q.admit_record(record(1, 0), 0), Ok(()));
    assert_eq!(q.tick(10, &mut s).len(), 1);
    let done = q.complete(1, TEMPFAIL, 20, &mut s).unwrap();
    assert_eq!(done.record.state, RecordState::Delayed);
    assert_eq!(done.record.attempts, 1);
    assert_eq!(done.record.due, 81);
    assert_eq!(
        done.instruction,
        SpoolInstruction::Persist {
            id: 1,
            attempts: 1,
            due: 81,
            last_error: Some(FailureClass::Transient)
        }
    );
    assert_eq!(q.delayed_ids(), vec![1]);
    assert!(q.is_idle());
    assert_eq!(q.tick(80, &mut s).len(), 0);
    let again = q.tick(81, &mut s);
    assert_eq!(again.len(), 1);
    assert_eq!(again[0].record.attempts, 1);
    assert_eq!(again[0].record.state, RecordState::InFlight);
}

#[test]
fn permanent_failure_bounces_and_leaves_the_queue() {
    let mut q = queue();
    let mut s = sites(1);
    assert_eq!(q.admit_record(record(1, 0), 0), Ok(()));
    assert_eq!(q.tick(0, &mut s).len(), 1);
    let done = q.complete(1, PERMFAIL, 1, &mut s).unwrap();
    assert_eq!(done.record.state, RecordState::Bounced);
    assert_eq!(done.record.last_error, Some(FailureClass::Permanent));
    assert_eq!(done.instruction, SpoolInstruction::Release { id: 1 });
    assert!(q.is_empty());
    assert_eq!(q.ready_len(), 0);
}

#[test]
fn delayed_records_come_back_earliest_due_first() {
    let mut config = QueueConfig::standard();
    config.retry.jitter_span = 0;
    let mut q = Queue::new("example.com".to_string(), config);
    let mut s = sites(3);
    assert_eq!(q.admit_record(record(1, 0), 0), Ok(()));
    assert_eq!(q.admit_record(record(2, 0), 0), Ok(()));
    assert_eq!(q.admit_record(record(3, 0), 0), Ok(()));
    assert_eq!(q.tick(0, &mut s).len(), 3);
    assert!(q.complete(2, TEMPFAIL, 30, &mut s).is_ok());
    assert!(q.complete(3, TEMPFAIL, 10, &mut s).is_ok());
    assert!(q.complete(1, TEMPFAIL, 20, &mut s).is_ok());
    assert_eq!(q.delayed_ids(), vec![3, 1, 2]);
    let out = q.tick(1000, &mut s);
    assert_eq!(out.len(), 3);
    assert_eq!(out[0].record.id, 3);
    assert_eq!(out[1].record.id, 1);
    assert_eq!(out[2].record.id, 2);
}

#[test]
fn attempts_complete_out_of_order() {
    let mut q = queue();
    let mut s = sites(3);
    assert_eq!(q.admit_record(record(1, 0), 0), Ok(()));
    assert_eq!(q.admit_record(record(2, 0), 0), Ok(()));
    assert_eq!(q.admit_record(record(3, 0), 0), Ok(()));
    assert_eq!(q.tick(0, &mut s).len(), 3);
    assert!(q.has_in_flight(2));
    assert!(q.complete(2, OK, 1, &mut s).is_ok());
    assert_eq!(q.in_flight_ids(), vec![1, 3]);
    assert!(!q.has_in_flight(2));
    assert!(q.complete(3, OK, 1, &mut s).is_ok());
    assert!(q.complete(1, OK, 1, &mut s).is_ok());
    assert!(q.is_empty());
    assert_eq!(s.in_flight_count(&"example.com".to_string()), 0);
}
