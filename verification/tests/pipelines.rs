use kumod::entry::encode_entry;
use kumod::entry::SpoolEntry;
use kumod::lifecycle::Phase;
use kumod::pipeline::{AcceptError, Pipeline, SettleError};
use kumod::policy::{AttemptOutcome, QueueConfig, SpoolInstruction};
use kumod::record::{Envelope, MessageRecord, RecordState};
use kumod::site::DestSiteConfig;
use kumod::spool::{IoStatus, SpoolError};
use kumod::spool_params::SpoolKind;

fn envelope(recipient: &str) -> Envelope {
    Envelope::new("sender@origin.test".to_string(), recipient.to_string())
}

fn site(max_connections: usize) -> DestSiteConfig {
    DestSiteConfig {
        max_connections,
        max_message_per_connection: 100,
        idle_timeout: 60,
        connect_timeout: 30,
    }
}

fn pipeline(sync: bool, max_connections: usize) -> Pipeline {
    Pipeline::new(SpoolKind::LocalDisk, sync, QueueConfig::standard(), site(max_connections))
}

const OK: AttemptOutcome = AttemptOutcome::Response { code: 250 };
const TEMPFAIL: AttemptOutcome = AttemptOutcome::Response { code: 451 };
const PERMFAIL: AttemptOutcome = AttemptOutcome::Response { code: 550 };

#[test]
fn accept_stores_and_queues() {
    let mut p = pipeline(true, 2);
    assert_eq!(p.accept(envelope("a@example.com"), vec![1], 0, 0, IoStatus::Done), Ok(0));
    assert_eq!(p.accept(envelope("b@other.test"), vec![2], 50, 0, IoStatus::Done), Ok(1));
    assert_eq!(p.storage().len(), 2);
    assert!(p.queues().contains(0) && p.queues().contains(1));
    assert_eq!(p.storage().body(0), Ok(vec![1]));
    assert_eq!(p.queues().queue(&"example.com".to_string()).unwrap().ready_ids(), vec![0]);
    assert_eq!(p.queues().queue(&"other.test".to_string()).unwrap().delayed_ids(), vec![1]);
}

#[test]
fn a_failed_write_accepts_nothing() {
    let mut p = pipeline(true, 2);
    assert_eq!(
        p.accept(envelope("a@example.com"), vec![1], 0, 0, IoStatus::Failed),
        Err(AcceptError::Storage(SpoolError::Io))
    );
    assert_eq!(p.storage().len(), 0);
    assert_eq!(p.queues().queue_count(), 0);
    assert_eq!(p.accept(envelope("a@example.com"), vec![1], 0, 0, IoStatus::Done), Ok(0));
}

#[test]
fn nothing_is_accepted_while_draining() {
    let mut p = pipeline(true, 2);
    assert!(p.request_shutdown());
    assert_eq!(
        p.accept(envelope("a@example.com"), vec![1], 0, 0, IoStatus::Done),
        Err(AcceptError::Draining)
    );
    assert_eq!(p.storage().len(), 0);
    assert_eq!(p.storage().next_id(), 0);
}

#[test]
fn delivery_releases_the_entry_once() {
    let mut p = pipeline(true, 2);
    let id = p.accept(envelope("a@example.com"), vec![1], 0, 0, IoStatus::Done).unwrap();
    let out = p.tick(0);
    assert_eq!(out.len(), 1);
    assert_eq!(out[0].record.id, id);
    assert_eq!(out[0].record.body_ref, id);
    let done = p.settle(id, OK, 1, IoStatus::Done).unwrap();
    assert_eq!(done.record.state, RecordState::Delivered);
    assert_eq!(done.instruction, SpoolInstruction::Release { id });
    assert_eq!(p.storage().get(id).err(), Some(SpoolError::NotFound));
    assert!(!p.queues().contains(id));
    assert_eq!(p.settle(id, OK, 2, IoStatus::Done).err(), Some(SettleError::NotInFlight));
    assert_eq!(p.tick(3).len(), 0);
}

#[test]
fn bounce_releases_the_entry() {
    let mut p = pipeline(false, 2);
    let id = p.accept(envelope("a@example.com"), vec![1], 0, 0, IoStatus::Done).unwrap();
    assert_eq!(p.tick(0).len(), 1);
    let done = p.settle(id, PERMFAIL, 1, IoStatus::Done).unwrap();
    assert_eq!(done.record.state, RecordState::Bounced);
    assert_eq!(p.storage().get(id).err(), Some(SpoolError::NotFound));
    assert!(p.queues().queue(&"example.com".to_string()).unwrap().is_empty());
}

#[test]
fn a_delay_is_made_durable() {
    let mut p = pipeline(true, 2);
    let id = p.accept(envelope("a@example.com"), vec![1], 0, 0, IoStatus::Done).unwrap();
    assert_eq!(p.tick(10).len(), 1);
    let done = p.settle(id, TEMPFAIL, 20, IoStatus::Done).unwrap();
    assert_eq!(done.record.state, RecordState::Delayed);
    assert_eq!(done.record.due, 81);
    let stored = p.storage().get(id).unwrap();
    assert_eq!(stored.attempts, 1);
    assert_eq!(stored.due, 81);
    assert_eq!(stored.state, RecordState::Queued);
}

#[test]
fn a_failed_write_leaves_the_attempt_in_flight() {
    let mut p = pipeline(true, 1);
    let id = p.accept(envelope("a@example.com"), vec![1], 0, 0, IoStatus::Done).unwrap();
    assert_eq!(p.tick(0).len(), 1);
    assert_eq!(
        p.settle(id, OK, 1, IoStatus::Failed).err(),
        Some(SettleError::Storage(SpoolError::Io))
    );
    assert!(p.storage().contains(id));
    assert!(!p.queues().is_idle());
    assert_eq!(p.queues().in_flight_to(&"example.com".to_string()), 1);
    assert_eq!(
        p.settle(id, TEMPFAIL, 1, IoStatus::Failed).err(),
        Some(SettleError::Storage(SpoolError::Io))
    );
    assert_eq!(p.storage().get(id).unwrap().attempts, 0);
    let done = p.settle(id, OK, 2, IoStatus::Done).unwrap();
    assert_eq!(done.record.state, RecordState::Delivered);
    assert!(p.queues().is_idle());
    assert!(!p.storage().contains(id));
}

#[test]
fn the_drain_flushes_and_stops() {
    let mut p = pipeline(false, 1);
    let a = p.accept(envelope("a@example.com"), vec![1], 0, 0, IoStatus::Done).unwrap();
    let b = p.accept(envelope("b@example.com"), vec![2], 0, 0, IoStatus::Done).unwrap();
    assert_eq!(p.tick(0).len(), 1);
    assert!(!p.ready_to_stop());
    assert_eq!(p.try_stop(IoStatus::Done), Phase::Running);
    assert!(p.request_shutdown());
    assert!(!p.request_shutdown());
    assert!(!p.ready_to_stop());
    assert_eq!(p.try_stop(IoStatus::Done), Phase::Draining);
    assert_eq!(p.tick(5).len(), 0);
    assert!(p.settle(a, TEMPFAIL, 6, IoStatus::Done).is_ok());
    assert!(p.ready_to_stop());
    assert_eq!(p.try_stop(IoStatus::Failed), Phase::Draining);
    assert!(p.queues().may_exit());
    assert_eq!(p.try_stop(IoStatus::Done), Phase::Stopped);
    assert!(p.queues().is_idle());
    assert!(p.storage().contains(a) && p.storage().contains(b));
    assert_eq!(p.try_stop(IoStatus::Done), Phase::Stopped);
}

#[test]
fn recover_rebuilds_spool_and_queues() {
    let mut first = SpoolEntry {
        record: MessageRecord::new(4, envelope("a@example.com"), 0),
        body: vec![1],
    };
    first.record.attempts = 2;
    first.record.due = 500;
    let second = SpoolEntry {
        record: MessageRecord::new(2, envelope("b@example.com"), 0),
        body: vec![2],
    };
    let third = SpoolEntry {
        record: MessageRecord::new(9, envelope("c@other.test"), 0),
        body: vec![3],
    };
    let blobs = vec![
        encode_entry(&first),
        vec![0xde, 0xad],
        encode_entry(&second),
        encode_entry(&third),
    ];
    let mut p = Pipeline::recover(
        SpoolKind::LocalDisk,
        true,
        &blobs,
        QueueConfig::standard(),
        site(4),
        100,
    );
    assert_eq!(p.storage().len(), 3);
    assert_eq!(p.storage().next_id(), 10);
    assert_eq!(p.queues().queue_count(), 2);
    let q = p.queues().queue(&"example.com".to_string()).unwrap();
    assert_eq!(q.ready_ids(), vec![2]);
    assert_eq!(q.delayed_ids(), vec![4]);
    assert_eq!(p.queues().queue(&"other.test".to_string()).unwrap().ready_ids(), vec![9]);
    assert!(p.queues().is_idle());
    assert_eq!(p.accept(envelope("d@example.com"), vec![4], 0, 100, IoStatus::Done), Ok(10));
    let out = p.tick(100);
    assert_eq!(out.len(), 3);
    let late = p.tick(500);
    assert_eq!(late.len(), 1);
    assert_eq!(late[0].record.id, 4);
    assert_eq!(late[0].record.attempts, 2);
}

#[test]
fn accepted_messages_survive_a_restart() {
    let mut p = pipeline(true, 1);
    let a = p.accept(envelope("a@example.com"), vec![1], 0, 0, IoStatus::Done).unwrap();
    let b = p.accept(envelope("b@example.com"), vec![2], 0, 0, IoStatus::Done).unwrap();
    assert_eq!(p.tick(0).len(), 1);
    assert!(p.settle(a, OK, 1, IoStatus::Done).is_ok());
    assert_eq!(p.tick(1).len(), 1);
    let blobs = vec![p.storage().export(b).unwrap()];
    assert_eq!(p.storage().export(a).err(), Some(SpoolError::NotFound));
    let mut q = Pipeline::recover(SpoolKind::LocalDisk, true, &blobs, QueueConfig::standard(), site(1), 2);
    assert!(!q.queues().contains(a));
    assert!(q.queues().contains(b));
    let out = q.tick(2);
    assert_eq!(out.len(), 1);
    assert_eq!(out[0].record.id, b);
    assert!(q.settle(b, OK, 3, IoStatus::Done).is_ok());
    assert_eq!(q.storage().len(), 0);
}

#[test]
fn nothing_is_accepted_without_an_identifier() {
    let last = SpoolEntry {
        record: MessageRecord::new(u64::MAX - 1, envelope("z@example.com"), 0),
        body: vec![5],
    };
    let blobs = vec![encode_entry(&last)];
    let mut p = Pipeline::recover(SpoolKind::LocalDisk, true, &blobs, QueueConfig::standard(), site(1), 0);
    assert_eq!(
        p.accept(envelope("a@example.com"), vec![1], 0, 0, IoStatus::Done),
        Err(AcceptError::Storage(SpoolError::Exhausted))
    );
    assert_eq!(p.storage().len(), 1);
    assert_eq!(p.queues().queue_count(), 1);
}
