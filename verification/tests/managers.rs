use kumod::lifecycle::{LifeCycle, Phase};
use kumod::manager::{OutcomeError, QueueConfigError, QueueManager, RouteError};
use kumod::policy::{AttemptOutcome, QueueConfig, SpoolInstruction};
use kumod::record::{Envelope, MessageRecord, RecordState};
use kumod::site::{ConfigureError, DestSiteConfig};
use kumod::spool::{IoStatus, SpoolError, SpoolStorage};
use kumod::spool_params::SpoolKind;

fn record_to(id: u64, recipient: &str, due: u64) -> MessageRecord {
    MessageRecord::new(
        id,
        Envelope::new("sender@origin.test".to_string(), recipient.to_string()),
        due,
    )
}

fn manager(max_connections: usize) -> QueueManager {
    QueueManager::new(
        QueueConfig::standard(),
        DestSiteConfig {
            max_connections,
            max_message_per_connection: 100,
            idle_timeout: 60,
            connect_timeout: 30,
        },
    )
}

const OK: AttemptOutcome = AttemptOutcome::Response { code: 250 };
const TEMPFAIL: AttemptOutcome = AttemptOutcome::Response { code: 451 };
const PERMFAIL: AttemptOutcome = AttemptOutcome::Response { code: 550 };

#[test]
fn lifecycle_phases() {
    let mut l = LifeCycle::new();
    assert_eq!(l.phase, Phase::Running);
    assert!(l.is_running());
    assert!(!l.may_exit());
    assert_eq!(l.report(true, true), Phase::Running);
    assert!(l.request_shutdown());
    assert_eq!(l.phase, Phase::Draining);
    assert!(!l.request_shutdown());
    assert_eq!(l.phase, Phase::Draining);
    assert_eq!(l.report(false, true), Phase::Draining);
    assert!(!l.may_exit());
    assert_eq!(l.report(true, true), Phase::Stopped);
    assert!(l.may_exit());
    assert!(!l.request_shutdown());
    assert_eq!(l.phase, Phase::Stopped);
    assert_eq!(l.report(false, false), Phase::Stopped);
    assert!(!l.durability_risk);
}

#[test]
fn failed_flush_is_a_durability_risk_but_allows_exit() {
    let mut l = LifeCycle::new();
    assert!(l.request_shutdown());
    assert_eq!(l.report(false, false), Phase::Draining);
    assert!(!l.durability_risk);
    assert_eq!(l.report(true, false), Phase::Draining);
    assert!(l.durability_risk);
    assert!(l.may_exit());
    assert_eq!(l.report(true, true), Phase::Stopped);
}

#[test]
fn route_creates_one_queue_per_routing_key() {
    let mut m = manager(2);
    assert_eq!(m.queue_count(), 0);
    assert_eq!(m.route(record_to(1, "a@example.com", 0), 0), Ok(()));
    assert_eq!(m.route(record_to(2, "b@example.com", 0), 0), Ok(()));
    assert_eq!(m.route(record_to(3, "c@other.test", 0), 0), Ok(()));
    assert_eq!(m.queue_count(), 2);
    let q = m.queue(&"example.com".to_string()).unwrap();
    assert_eq!(q.ready_ids(), vec![1, 2]);
    let q = m.queue(&"other.test".to_string()).unwrap();
    assert_eq!(q.ready_ids(), vec![3]);
    assert!(m.queue(&"nowhere.test".to_string()).is_none());
    assert!(m.contains(1) && m.contains(2) && m.contains(3));
    assert!(!m.contains(4));
}

#[test]
fn route_follows_an_explicit_route() {
    let mut m = manager(2);
    let r = MessageRecord::new(
        1,
        Envelope::with_route(
            "s@origin.test".to_string(),
            "a@example.com".to_string(),
            "relay".to_string(),
        ),
        0,
    );
    assert_eq!(m.route(r, 0), Ok(()));
    assert!(m.queue(&"example.com".to_string()).is_none());
    assert_eq!(m.queue(&"relay".to_string()).unwrap().ready_ids(), vec![1]);
}

#[test]
fn route_refuses_duplicates_across_queues_and_terminal_records() {
    let mut m = manager(2);
    assert_eq!(m.route(record_to(1, "a@example.com", 0), 0), Ok(()));
    assert_eq!(m.route(record_to(1, "a@example.com", 0), 0), Err(RouteError::Duplicate));
    assert_eq!(m.route(record_to(1, "a@other.test", 0), 0), Err(RouteError::Duplicate));
    let mut done = record_to(2, "a@example.com", 0);
    done.state = RecordState::Delivered;
    assert_eq!(m.route(done, 0), Err(RouteError::Terminal));
    assert_eq!(m.queue_count(), 1);
}

#[test]
fn future_records_wait_in_the_delayed_set() {
    let mut m = manager(2);
    assert_eq!(m.route(record_to(1, "a@example.com", 100), 10), Ok(()));
    let q = m.queue(&"example.com".to_string()).unwrap();
    assert_eq!(q.delayed_ids(), vec![1]);
    assert_eq!(m.tick(99).len(), 0);
    let out = m.tick(100);
    assert_eq!(out.len(), 1);
    assert_eq!(out[0].record.id, 1);
}

#[test]
fn tick_serves_every_queue_within_its_bound() {
    let mut m = manager(1);
    assert_eq!(m.route(record_to(1, "a@example.com", 0), 0), Ok(()));
    assert_eq!(m.route(record_to(2, "b@example.com", 0), 0), Ok(()));
    assert_eq!(m.route(record_to(3, "c@other.test", 0), 0), Ok(()));
    let out = m.tick(0);
    assert_eq!(out.len(), 2);
    assert_eq!(out[0].record.id, 1);
    assert_eq!(out[1].record.id, 3);
    assert_eq!(m.in_flight_to(&"example.com".to_string()), 1);
    assert_eq!(m.in_flight_to(&"other.test".to_string()), 1);
    assert_eq!(m.tick(1).len(), 0);
    assert!(!m.is_idle());
}

#[test]
fn second_record_is_deferred_until_the_permit_is_released() {
    let mut spool = SpoolStorage::new(SpoolKind::LocalDisk, true);
    let mut m = manager(1);
    m.configure_site(
        &"example.com".to_string(),
        DestSiteConfig {
            max_connections: 1,
            max_message_per_connection: 10,
            idle_timeout: 60,
            connect_timeout: 30,
        },
    )
    .unwrap();
    let a = spool.put(record_to(0, "a@example.com", 0), vec![1, 2, 3], IoStatus::Done).unwrap();
    let b = spool.put(record_to(0, "b@example.com", 0), vec![4, 5], IoStatus::Done).unwrap();
    assert_eq!(spool.get(a).unwrap().routing_key(), "example.com");
    assert_eq!(m.route(spool.get(a).unwrap(), 0), Ok(()));
    assert_eq!(m.route(spool.get(b).unwrap(), 0), Ok(()));
    let first = m.tick(0);
    assert_eq!(first.len(), 1);
    assert_eq!(first[0].record.id, a);
    assert_eq!(m.tick(1).len(), 0);
    assert_eq!(m.in_flight_to(&"example.com".to_string()), 1);
    assert_eq!(m.queue(&"example.com".to_string()).unwrap().ready_ids(), vec![b]);
    let done = m.complete(a, OK, 2).unwrap();
    assert!(done.permit_released);
    assert_eq!(spool.apply(done.instruction, IoStatus::Done), Ok(()));
    assert_eq!(m.in_flight_to(&"example.com".to_string()), 0);
    let second = m.tick(2);
    assert_eq!(second.len(), 1);
    assert_eq!(second[0].record.id, b);
}

#[test]
fn permanent_failure_bounces_and_releases_the_entry() {
    let mut spool = SpoolStorage::new(SpoolKind::LocalDisk, true);
    let mut m = manager(1);
    let id = spool.put(record_to(0, "a@example.com", 0), vec![9], IoStatus::Done).unwrap();
    assert_eq!(m.route(spool.get(id).unwrap(), 0), Ok(()));
    assert_eq!(m.tick(0).len(), 1);
    let done = m.complete(id, PERMFAIL, 1).unwrap();
    assert_eq!(done.record.state, RecordState::Bounced);
    assert_eq!(done.instruction, SpoolInstruction::Release { id });
    let q = m.queue(&"example.com".to_string()).unwrap();
    assert_eq!(q.ready_len(), 0);
    assert!(q.is_empty());
    assert!(!m.contains(id));
    assert_eq!(spool.apply(done.instruction, IoStatus::Done), Ok(()));
    assert_eq!(spool.get(id).err(), Some(SpoolError::NotFound));
}

#[test]
fn sixth_outcome_bounces_through_the_manager() {
    let mut m = manager(1);
    assert_eq!(m.route(record_to(1, "a@example.com", 0), 0), Ok(()));
    let mut now: u64 = 0;
    let mut n: u32 = 0;
    while n < 5 {
        assert_eq!(m.tick(now).len(), 1);
        let done = m.complete(1, TEMPFAIL, now).unwrap();
        assert_eq!(done.record.state, RecordState::Delayed);
        assert_eq!(done.record.attempts, n + 1);
        assert!(done.record.due > now);
        now = done.record.due;
        n += 1;
    }
    assert_eq!(m.tick(now).len(), 1);
    let done = m.complete(1, TEMPFAIL, now).unwrap();
    assert_eq!(done.record.state, RecordState::Bounced);
    assert!(!m.contains(1));
}

#[test]
fn no_second_delivery_of_the_same_record() {
    let mut m = manager(4);
    assert_eq!(m.route(record_to(1, "a@example.com", 0), 0), Ok(()));
    assert_eq!(m.tick(0).len(), 1);
    assert_eq!(m.tick(0).len(), 0);
    assert!(m.complete(1, OK, 1).is_ok());
    assert_eq!(m.complete(1, OK, 1).err(), Some(OutcomeError::NotInFlight));
    assert_eq!(m.tick(2).len(), 0);
    assert!(m.is_idle());
}

#[test]
fn outcome_for_an_unknown_record_is_refused() {
    let mut m = manager(4);
    assert_eq!(m.complete(1, OK, 1).err(), Some(OutcomeError::NotInFlight));
    assert_eq!(m.route(record_to(1, "a@example.com", 0), 0), Ok(()));
    assert_eq!(m.complete(1, OK, 1).err(), Some(OutcomeError::NotInFlight));
}

#[test]
fn drain_takes_no_record_and_stops_only_when_idle() {
    let mut m = manager(2);
    assert_eq!(m.phase(), Phase::Running);
    assert_eq!(m.route(record_to(1, "a@example.com", 0), 0), Ok(()));
    assert_eq!(m.route(record_to(2, "b@example.com", 0), 0), Ok(()));
    assert_eq!(m.route(record_to(3, "c@example.com", 500), 0), Ok(()));
    assert_eq!(m.tick(0).len(), 2);
    assert_eq!(m.try_stop(true), Phase::Running);
    assert!(m.request_shutdown());
    assert!(!m.request_shutdown());
    assert_eq!(m.phase(), Phase::Draining);
    assert_eq!(m.route(record_to(4, "d@example.com", 0), 1), Err(RouteError::Draining));
    assert!(!m.contains(4));
    assert_eq!(m.tick(1000).len(), 0);
    assert_eq!(m.try_stop(true), Phase::Draining);
    assert!(!m.may_exit());
    assert!(m.complete(1, OK, 2).is_ok());
    let report = m.shutdown_drain();
    assert!(!report.idle);
    assert_eq!(report.phase, Phase::Draining);
    assert_eq!(m.try_stop(true), Phase::Draining);
    assert!(m.complete(2, TEMPFAIL, 3).is_ok());
    assert!(m.shutdown_drain().idle);
    assert_eq!(m.try_stop(false), Phase::Draining);
    assert!(m.may_exit());
    assert_eq!(m.try_stop(true), Phase::Stopped);
    assert!(m.may_exit());
    assert!(m.is_idle());
    assert_eq!(m.route(record_to(5, "e@example.com", 0), 4), Err(RouteError::Draining));
    assert_eq!(m.tick(5000).len(), 0);
    assert_eq!(m.phase(), Phase::Stopped);
}

#[test]
fn shutdown_drain_requests_the_shutdown() {
    let mut m = manager(2);
    let report = m.shutdown_drain();
    assert!(report.idle);
    assert_eq!(report.phase, Phase::Draining);
    assert_eq!(m.route(record_to(1, "a@example.com", 0), 0), Err(RouteError::Draining));
    assert_eq!(m.try_stop(true), Phase::Stopped);
}

#[test]
fn site_configuration_is_kept_while_attempts_are_in_flight() {
    let mut m = manager(1);
    let key = "example.com".to_string();
    assert_eq!(m.route(record_to(1, "a@example.com", 0), 0), Ok(()));
    assert_eq!(m.route(record_to(2, "b@example.com", 0), 0), Ok(()));
    assert_eq!(m.tick(0).len(), 1);
    let wide = DestSiteConfig {
        max_connections: 5,
        max_message_per_connection: 100,
        idle_timeout: 60,
        connect_timeout: 30,
    };
    assert_eq!(m.configure_site(&key, wide), Err(ConfigureError::InFlight));
    assert_eq!(m.tick(0).len(), 0);
    assert!(m.complete(1, OK, 1).is_ok());
    assert_eq!(m.configure_site(&key, wide), Ok(()));
    assert_eq!(m.tick(1).len(), 1);
}

#[test]
fn in_flight_stays_within_the_bound_under_load() {
    let mut m = manager(3);
    let key = "example.com".to_string();
    let mut id: u64 = 0;
    while id < 20 {
        assert_eq!(m.route(record_to(id, "a@example.com", 0), 0), Ok(()));
        id += 1;
    }
    let mut delivered: u64 = 0;
    let mut now: u64 = 0;
    while delivered < 20 {
        let out = m.tick(now);
        assert!(m.in_flight_to(&key) <= 3);
        assert_eq!(m.in_flight_to(&key), m.queue(&key).unwrap().in_flight_len());
        let ids = m.queue(&key).unwrap().in_flight_ids();
        assert!(out.len() <= 3);
        for one in ids {
            assert!(m.complete(one, OK, now).is_ok());
            delivered += 1;
        }
        now += 1;
    }
    assert!(m.is_idle());
    assert!(m.queue(&key).unwrap().is_empty());
}

#[test]
fn queue_configuration_is_per_routing_key() {
    let mut m = manager(1);
    let key = "example.com".to_string();
    let mut patient = QueueConfig::standard();
    patient.retry.max_attempts = 0;
    patient.retry.jitter_span = 0;
    assert_eq!(m.configure_queue(&key, patient), Ok(()));
    assert_eq!(m.queue_count(), 1);
    assert_eq!(m.queue(&key).unwrap().config(), patient);
    let mut broken = QueueConfig::standard();
    broken.retry.base_interval = 0;
    assert_eq!(m.configure_queue(&key, broken), Err(QueueConfigError::Invalid));
    assert_eq!(m.configure_queue(&"new.test".to_string(), broken), Err(QueueConfigError::Invalid));
    assert_eq!(m.queue_count(), 1);
    assert_eq!(m.queue(&key).unwrap().config(), patient);
    assert_eq!(m.route(record_to(1, "a@example.com", 0), 0), Ok(()));
    assert_eq!(m.route(record_to(2, "a@other.test", 0), 0), Ok(()));
    assert_eq!(m.queue(&"other.test".to_string()).unwrap().config(), QueueConfig::standard());
    assert_eq!(m.tick(0).len(), 2);
    let first = m.complete(1, TEMPFAIL, 1).unwrap();
    assert_eq!(first.record.state, RecordState::Bounced);
    let second = m.complete(2, TEMPFAIL, 1).unwrap();
    assert_eq!(second.record.state, RecordState::Delayed);
    assert_eq!(m.configure_queue(&"other.test".to_string(), patient), Ok(()));
    assert_eq!(m.tick(second.record.due).len(), 1);
    let again = m.complete(2, TEMPFAIL, second.record.due).unwrap();
    assert_eq!(again.record.state, RecordState::Bounced);
}
