use kumod::policy::SpoolInstruction;
use kumod::record::{Envelope, FailureClass, MessageRecord, RecordState};
use kumod::entry::copy_bytes;
use kumod::spool::{IoStatus, RetryState, SpoolError, SpoolStorage};
use kumod::spool_params::{DefineSpoolParams, SpoolKind};
use std::path::PathBuf;

fn record(recipient: &str, due: u64) -> MessageRecord {
    MessageRecord::new(
        999,
        Envelope::new("sender@origin.test".to_string(), recipient.to_string()),
        due,
    )
}

fn ids(records: &Vec<MessageRecord>) -> Vec<u64> {
    let mut out = Vec::new();
    for r in records {
        out.push(r.id);
    }
    out
}

#[test]
fn open_follows_the_definition() {
    let p = DefineSpoolParams {
        name: "data".to_string(),
        path: PathBuf::from("/var/spool/data"),
        kind: SpoolKind::RocksDB,
        flush: true,
    };
    let s = SpoolStorage::open(&p);
    assert_eq!(s.kind(), SpoolKind::RocksDB);
    assert!(s.is_sync());
    assert_eq!(s.len(), 0);
    assert_eq!(s.next_id(), 0);
    let d = DefineSpoolParams::with_defaults("meta".to_string(), PathBuf::from("/m"));
    let s = SpoolStorage::open(&d);
    assert_eq!(s.kind(), SpoolKind::LocalDisk);
    assert!(!s.is_sync());
}

#[test]
fn put_assigns_rising_identifiers() {
    let mut s = SpoolStorage::new(SpoolKind::LocalDisk, false);
    assert_eq!(s.put(record("a@example.com", 5), vec![1], IoStatus::Done), Ok(0));
    assert_eq!(s.put(record("b@example.com", 6), vec![2, 2], IoStatus::Done), Ok(1));
    assert_eq!(s.put(record("c@example.com", 7), vec![], IoStatus::Done), Ok(2));
    assert_eq!(s.len(), 3);
    assert_eq!(s.next_id(), 3);
    assert!(s.contains(0) && s.contains(1) && s.contains(2));
    assert!(!s.contains(3));
}

#[test]
fn get_returns_the_stored_record() {
    let mut s = SpoolStorage::new(SpoolKind::LocalDisk, false);
    let mut r = record("a@example.com", 5);
    r.state = RecordState::InFlight;
    r.attempts = 2;
    r.last_error = Some(FailureClass::Transient);
    let id = s.put(r, vec![7, 8, 9], IoStatus::Done).unwrap();
    let got = s.get(id).unwrap();
    assert_eq!(got.id, id);
    assert_eq!(got.body_ref, id);
    assert_eq!(got.state, RecordState::Queued);
    assert_eq!(got.attempts, 2);
    assert_eq!(got.due, 5);
    assert_eq!(got.last_error, Some(FailureClass::Transient));
    assert_eq!(got.envelope.recipient, "a@example.com");
    assert_eq!(got.envelope.sender, "sender@origin.test");
    assert_eq!(s.body(got.body_ref), Ok(vec![7, 8, 9]));
    assert_eq!(s.get(id + 1).err(), Some(SpoolError::NotFound));
    assert_eq!(s.body(id + 1), Err(SpoolError::NotFound));
}

#[test]
fn put_refuses_terminal_records_and_failed_writes() {
    let mut s = SpoolStorage::new(SpoolKind::LocalDisk, true);
    let mut done = record("a@example.com", 0);
    done.state = RecordState::Delivered;
    assert_eq!(s.put(done, vec![], IoStatus::Done), Err(SpoolError::Terminal));
    let mut bounced = record("a@example.com", 0);
    bounced.state = RecordState::Bounced;
    assert_eq!(s.put(bounced, vec![], IoStatus::Failed), Err(SpoolError::Terminal));
    assert_eq!(s.put(record("a@example.com", 0), vec![1], IoStatus::Failed), Err(SpoolError::Io));
    assert_eq!(s.len(), 0);
    assert_eq!(s.next_id(), 0);
    assert_eq!(s.put(record("a@example.com", 0), vec![1], IoStatus::Done), Ok(0));
}

#[test]
fn update_metadata_changes_the_retry_state_only() {
    let mut s = SpoolStorage::new(SpoolKind::LocalDisk, false);
    let a = s.put(record("a@example.com", 5), vec![1], IoStatus::Done).unwrap();
    let b = s.put(record("b@example.com", 6), vec![2], IoStatus::Done).unwrap();
    let retry = RetryState { attempts: 3, due: 500, last_error: Some(FailureClass::Transient) };
    assert_eq!(s.update_metadata(a, retry, IoStatus::Done), Ok(()));
    let got = s.get(a).unwrap();
    assert_eq!(got.attempts, 3);
    assert_eq!(got.due, 500);
    assert_eq!(got.last_error, Some(FailureClass::Transient));
    assert_eq!(got.envelope.recipient, "a@example.com");
    assert_eq!(got.state, RecordState::Queued);
    assert_eq!(s.body(a), Ok(vec![1]));
    let other = s.get(b).unwrap();
    assert_eq!(other.attempts, 0);
    assert_eq!(other.due, 6);
    assert_eq!(s.update_metadata(77, retry, IoStatus::Done), Err(SpoolError::NotFound));
}

#[test]
fn a_failed_update_is_not_applied() {
    let mut s = SpoolStorage::new(SpoolKind::LocalDisk, true);
    let a = s.put(record("a@example.com", 5), vec![1], IoStatus::Done).unwrap();
    let b = s.put(record("b@example.com", 6), vec![2], IoStatus::Done).unwrap();
    let retry = RetryState { attempts: 3, due: 500, last_error: Some(FailureClass::Transient) };
    assert_eq!(s.update_metadata(a, retry, IoStatus::Failed), Err(SpoolError::Io));
    assert_eq!(s.get(a).unwrap().attempts, 0);
    assert_eq!(s.get(a).unwrap().due, 5);
    assert_eq!(s.get(b).unwrap().due, 6);
    assert_eq!(s.update_metadata(a, retry, IoStatus::Done), Ok(()));
    assert_eq!(s.get(a).unwrap().attempts, 3);
}

#[test]
fn delete_removes_an_entry_once() {
    let mut s = SpoolStorage::new(SpoolKind::LocalDisk, false);
    let a = s.put(record("a@example.com", 5), vec![1], IoStatus::Done).unwrap();
    let b = s.put(record("b@example.com", 6), vec![2], IoStatus::Done).unwrap();
    assert_eq!(s.delete(a, IoStatus::Failed), Err(SpoolError::Io));
    assert!(s.contains(a));
    assert_eq!(s.delete(a, IoStatus::Done), Ok(()));
    assert_eq!(s.delete(a, IoStatus::Done), Err(SpoolError::NotFound));
    assert_eq!(s.get(a).err(), Some(SpoolError::NotFound));
    assert!(s.contains(b));
    assert_eq!(s.len(), 1);
    let c = s.put(record("c@example.com", 7), vec![3], IoStatus::Done).unwrap();
    assert_eq!(c, 2);
    assert_eq!(s.delete(a, IoStatus::Done), Err(SpoolError::NotFound));
}

#[test]
fn load_all_yields_the_records_in_rising_order() {
    let mut s = SpoolStorage::new(SpoolKind::RocksDB, false);
    for n in 0..5u64 {
        assert_eq!(s.put(record("a@example.com", n), vec![], IoStatus::Done), Ok(n));
    }
    assert_eq!(s.delete(2, IoStatus::Done), Ok(()));
    let all = s.load_all();
    assert_eq!(ids(&all), vec![0, 1, 3, 4]);
    assert_eq!(all[2].due, 3);
    assert_eq!(all[0].state, RecordState::Queued);
}

#[test]
fn crash_after_flush_loses_nothing() {
    let mut s = SpoolStorage::new(SpoolKind::LocalDisk, false);
    let a = s.put(record("a@example.com", 5), vec![1], IoStatus::Done).unwrap();
    let b = s.put(record("b@example.com", 6), vec![2], IoStatus::Done).unwrap();
    let retry = RetryState { attempts: 2, due: 900, last_error: Some(FailureClass::Transient) };
    assert_eq!(s.update_metadata(b, retry, IoStatus::Done), Ok(()));
    assert_eq!(s.flush(IoStatus::Done), Ok(()));
    s.simulate_crash();
    let all = s.load_all();
    assert_eq!(ids(&all), vec![a, b]);
    assert_eq!(all[1].attempts, 2);
    assert_eq!(all[1].due, 900);
    assert_eq!(all[0].attempts, 0);
    assert_eq!(all[0].due, 5);
    assert_eq!(s.body(a), Ok(vec![1]));
}

#[test]
fn crash_without_flush_keeps_what_was_flushed() {
    let mut s = SpoolStorage::new(SpoolKind::LocalDisk, false);
    let a = s.put(record("a@example.com", 5), vec![1], IoStatus::Done).unwrap();
    assert_eq!(s.flush(IoStatus::Done), Ok(()));
    let b = s.put(record("b@example.com", 6), vec![2], IoStatus::Done).unwrap();
    let retry = RetryState { attempts: 2, due: 900, last_error: Some(FailureClass::Transient) };
    assert_eq!(s.update_metadata(a, retry, IoStatus::Done), Ok(()));
    s.simulate_crash();
    let all = s.load_all();
    assert_eq!(ids(&all), vec![a]);
    assert_eq!(all[0].attempts, 0);
    assert_eq!(all[0].due, 5);
    assert!(!s.contains(b));
    let c = s.put(record("c@example.com", 7), vec![3], IoStatus::Done).unwrap();
    assert!(c > b);
}

#[test]
fn a_failed_flush_makes_nothing_durable() {
    let mut s = SpoolStorage::new(SpoolKind::LocalDisk, false);
    let a = s.put(record("a@example.com", 5), vec![1], IoStatus::Done).unwrap();
    assert_eq!(s.flush(IoStatus::Failed), Err(SpoolError::Io));
    assert!(s.contains(a));
    s.simulate_crash();
    assert_eq!(s.len(), 0);
}

#[test]
fn synchronous_spool_survives_a_crash_at_any_moment() {
    let mut s = SpoolStorage::new(SpoolKind::LocalDisk, true);
    let a = s.put(record("a@example.com", 5), vec![1], IoStatus::Done).unwrap();
    s.simulate_crash();
    assert!(s.contains(a));
    let retry = RetryState { attempts: 1, due: 70, last_error: Some(FailureClass::Transient) };
    assert_eq!(s.update_metadata(a, retry, IoStatus::Done), Ok(()));
    let b = s.put(record("b@example.com", 6), vec![2], IoStatus::Done).unwrap();
    s.simulate_crash();
    let all = s.load_all();
    assert_eq!(ids(&all), vec![a, b]);
    assert_eq!(all[0].attempts, 1);
    assert_eq!(all[0].due, 70);
    assert_eq!(s.flush(IoStatus::Done), Ok(()));
    assert_eq!(ids(&s.load_all()), vec![a, b]);
}

#[test]
fn a_deleted_record_does_not_come_back_after_a_crash() {
    let mut s = SpoolStorage::new(SpoolKind::LocalDisk, false);
    let a = s.put(record("a@example.com", 5), vec![1], IoStatus::Done).unwrap();
    let b = s.put(record("b@example.com", 6), vec![2], IoStatus::Done).unwrap();
    assert_eq!(s.flush(IoStatus::Done), Ok(()));
    assert_eq!(s.delete(a, IoStatus::Done), Ok(()));
    s.simulate_crash();
    assert_eq!(ids(&s.load_all()), vec![b]);
    assert_eq!(s.get(a).err(), Some(SpoolError::NotFound));
    assert_eq!(s.delete(a, IoStatus::Done), Err(SpoolError::NotFound));
}

#[test]
fn apply_carries_out_instructions() {
    let mut s = SpoolStorage::new(SpoolKind::LocalDisk, true);
    let a = s.put(record("a@example.com", 5), vec![1], IoStatus::Done).unwrap();
    let persist = SpoolInstruction::Persist {
        id: a,
        attempts: 4,
        due: 44,
        last_error: Some(FailureClass::Transient),
    };
    assert_eq!(s.apply(persist, IoStatus::Failed), Err(SpoolError::Io));
    assert_eq!(s.apply(persist, IoStatus::Done), Ok(()));
    assert_eq!(s.get(a).unwrap().attempts, 4);
    assert_eq!(s.get(a).unwrap().due, 44);
    assert_eq!(s.apply(SpoolInstruction::Release { id: a }, IoStatus::Done), Ok(()));
    assert_eq!(
        s.apply(SpoolInstruction::Release { id: a }, IoStatus::Done),
        Err(SpoolError::NotFound)
    );
    assert_eq!(s.apply(persist, IoStatus::Done), Err(SpoolError::NotFound));
}

#[test]
fn copy_bytes_copies() {
    assert_eq!(copy_bytes(&vec![1, 2, 3]), vec![1, 2, 3]);
    assert_eq!(copy_bytes(&Vec::new()), Vec::<u8>::new());
}
