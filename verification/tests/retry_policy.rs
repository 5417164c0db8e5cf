use kumod::policy::{AttemptOutcome, Disposition, QueueConfig, SpoolInstruction};
use kumod::record::{Envelope, FailureClass, MessageRecord, RecordState};
use kumod::retry::RetryPolicy;

fn record(id: u64, due: u64) -> MessageRecord {
    MessageRecord::new(
        id,
        Envelope::new("sender@origin.test".to_string(), "rcpt@example.com".to_string()),
        due,
    )
}

#[test]
fn standard_policy_is_valid() {
    let p = RetryPolicy::standard();
    assert!(p.is_valid());
    assert_eq!(p.base_interval, 60);
    assert_eq!(p.multiplier, 2);
    assert_eq!(p.max_interval, 86_400);
    assert_eq!(p.max_attempts, 5);
    assert_eq!(p.jitter_span, 30);
}

#[test]
fn invalid_policies_are_recognised() {
    let mut p = RetryPolicy::standard();
    p.base_interval = 0;
    assert!(!p.is_valid());
    let mut p = RetryPolicy::standard();
    p.multiplier = 0;
    assert!(!p.is_valid());
    let mut p = RetryPolicy::standard();
    p.max_interval = 59;
    assert!(!p.is_valid());
}

#[test]
fn geometric_interval_doubles_until_capped() {
    let p = RetryPolicy::standard();
    assert_eq!(p.geometric_interval(0), 60);
    assert_eq!(p.geometric_interval(1), 60);
    assert_eq!(p.geometric_interval(2), 120);
    assert_eq!(p.geometric_interval(3), 240);
    assert_eq!(p.geometric_interval(11), 61_440);
    assert_eq!(p.geometric_interval(12), 86_400);
    assert_eq!(p.geometric_interval(u32::MAX), 86_400);
}

#[test]
fn geometric_interval_is_flat_with_unit_multiplier() {
    let p = RetryPolicy {
        base_interval: 7,
        multiplier: 1,
        max_interval: 100,
        max_attempts: 3,
        jitter_span: 0,
    };
    assert_eq!(p.geometric_interval(1), 7);
    assert_eq!(p.geometric_interval(1_000_000), 7);
    assert_eq!(p.backoff(1_000_000), 7);
}

#[test]
fn geometric_interval_survives_overflow() {
    let p = RetryPolicy {
        base_interval: 1 << 40,
        multiplier: 1 << 40,
        max_interval: u64::MAX,
        max_attempts: 3,
        jitter_span: 0,
    };
    assert_eq!(p.geometric_interval(1), 1 << 40);
    assert_eq!(p.geometric_interval(2), u64::MAX);
    assert_eq!(p.geometric_interval(3), u64::MAX);
}

#[test]
fn jitter_is_a_fixed_function_of_the_attempt_count() {
    let p = RetryPolicy::standard();
    assert_eq!(p.jitter_for(0), 0);
    assert_eq!(p.jitter_for(1), 1);
    assert_eq!(p.jitter_for(2), 2);
    assert_eq!(p.jitter_for(31), 1);
    assert_eq!(p.jitter_for(7), p.jitter_for(7));
    let wide = RetryPolicy { jitter_span: 1000, ..p };
    assert_eq!(wide.jitter_for(1), 761);
    assert_eq!(wide.jitter_for(3), 283);
    let off = RetryPolicy { jitter_span: 0, ..p };
    assert_eq!(off.jitter_for(12345), 0);
}

#[test]
fn backoff_exact_values() {
    let p = RetryPolicy::standard();
    assert_eq!(p.backoff(1), 61);
    assert_eq!(p.backoff(2), 122);
    assert_eq!(p.backoff(3), 243);
    assert_eq!(p.backoff(11), 61_451);
    assert_eq!(p.backoff(12), 86_400);
}

#[test]
fn backoff_is_bounded_for_every_attempt_count() {
    let p = RetryPolicy::standard();
    let mut n: u32 = 0;
    while n < 200 {
        let wait = p.backoff(n);
        assert!(wait >= 1);
        assert!(wait <= p.max_interval);
        n += 1;
    }
    assert!(p.backoff(u32::MAX) <= p.max_interval);
}

#[test]
fn reschedule_counts_from_the_later_of_now_and_due() {
    let p = RetryPolicy::standard();
    assert_eq!(p.reschedule(1000, 900, 1), 1061);
    assert_eq!(p.reschedule(100, 900, 1), 961);
    assert_eq!(p.reschedule(900, 900, 2), 1022);
}

#[test]
fn reschedule_saturates_at_the_end_of_time() {
    let p = RetryPolicy::standard();
    assert_eq!(p.reschedule(u64::MAX - 10, 0, 1), u64::MAX);
    assert_eq!(p.reschedule(0, u64::MAX, 1), u64::MAX);
}

#[test]
fn standard_config_classifies_by_status_code() {
    let c = QueueConfig::standard();
    assert!(c.is_valid());
    assert_eq!(c.disposition(AttemptOutcome::Response { code: 250 }), Disposition::Success);
    assert_eq!(c.disposition(AttemptOutcome::Response { code: 399 }), Disposition::Success);
    assert_eq!(
        c.disposition(AttemptOutcome::Response { code: 400 }),
        Disposition::Transient { counted: true }
    );
    assert_eq!(
        c.disposition(AttemptOutcome::Response { code: 451 }),
        Disposition::Transient { counted: true }
    );
    assert_eq!(c.disposition(AttemptOutcome::Response { code: 499 }), Disposition::Transient { counted: true });
    assert_eq!(c.disposition(AttemptOutcome::Response { code: 500 }), Disposition::Permanent);
    assert_eq!(c.disposition(AttemptOutcome::Response { code: 550 }), Disposition::Permanent);
    assert_eq!(c.disposition(AttemptOutcome::TimedOut), Disposition::Transient { counted: true });
    assert_eq!(
        c.disposition(AttemptOutcome::ConnectionFailed),
        Disposition::Transient { counted: false }
    );
}

#[test]
fn thresholds_and_connection_failures_are_configurable() {
    let mut c = QueueConfig::standard();
    c.transient_from = 300;
    c.permanent_from = 600;
    c.count_connection_failures = true;
    assert!(c.is_valid());
    assert_eq!(c.disposition(AttemptOutcome::Response { code: 299 }), Disposition::Success);
    assert_eq!(
        c.disposition(AttemptOutcome::Response { code: 550 }),
        Disposition::Transient { counted: true }
    );
    assert_eq!(c.disposition(AttemptOutcome::Response { code: 600 }), Disposition::Permanent);
    assert_eq!(
        c.disposition(AttemptOutcome::ConnectionFailed),
        Disposition::Transient { counted: true }
    );
    c.transient_from = 601;
    assert!(!c.is_valid());
}

#[test]
fn success_delivers() {
    let c = QueueConfig::standard();
    let next = c.resolve(record(1, 10), AttemptOutcome::Response { code: 250 }, 50);
    assert_eq!(next.state, RecordState::Delivered);
    assert_eq!(next.attempts, 0);
    assert_eq!(next.due, 10);
    assert_eq!(next.last_error, None);
    assert_eq!(QueueConfig::instruction(&next), SpoolInstruction::Release { id: 1 });
}

#[test]
fn transient_failure_delays_and_counts() {
    let c = QueueConfig::standard();
    let next = c.resolve(record(1, 10), AttemptOutcome::Response { code: 451 }, 50);
    assert_eq!(next.state, RecordState::Delayed);
    assert_eq!(next.attempts, 1);
    assert_eq!(next.due, 50 + 61);
    assert_eq!(next.last_error, Some(FailureClass::Transient));
    assert_eq!(next.id, 1);
    assert_eq!(
        QueueConfig::instruction(&next),
        SpoolInstruction::Persist {
            id: 1,
            attempts: 1,
            due: 111,
            last_error: Some(FailureClass::Transient)
        }
    );
}

#[test]
fn connection_failure_delays_without_counting() {
    let c = QueueConfig::standard();
    let next = c.resolve(record(1, 10), AttemptOutcome::ConnectionFailed, 50);
    assert_eq!(next.state, RecordState::Delayed);
    assert_eq!(next.attempts, 0);
    assert_eq!(next.due, 50 + 60);
    assert_eq!(next.last_error, Some(FailureClass::Transient));
}

#[test]
fn connection_failure_counts_when_configured() {
    let mut c = QueueConfig::standard();
    c.count_connection_failures = true;
    let next = c.resolve(record(1, 10), AttemptOutcome::ConnectionFailed, 50);
    assert_eq!(next.attempts, 1);
    assert_eq!(next.due, 50 + 61);
}

#[test]
fn permanent_failure_bounces() {
    let c = QueueConfig::standard();
    let next = c.resolve(record(9, 10), AttemptOutcome::Response { code: 550 }, 50);
    assert_eq!(next.state, RecordState::Bounced);
    assert_eq!(next.last_error, Some(FailureClass::Permanent));
    assert_eq!(next.attempts, 0);
    assert_eq!(QueueConfig::instruction(&next), SpoolInstruction::Release { id: 9 });
}

#[test]
fn sixth_outcome_after_five_transient_failures_bounces() {
    let c = QueueConfig::standard();
    assert_eq!(c.retry.max_attempts, 5);
    let mut r = record(3, 0);
    let mut now: u64 = 0;
    let mut n: u32 = 0;
    while n < 5 {
        r = c.resolve(r, AttemptOutcome::Response { code: 450 }, now);
        assert_eq!(r.state, RecordState::Delayed);
        assert_eq!(r.attempts, n + 1);
        now = r.due;
        n += 1;
    }
    let sixth_transient = c.resolve(r.duplicate(), AttemptOutcome::Response { code: 450 }, now);
    assert_eq!(sixth_transient.state, RecordState::Bounced);
    assert_eq!(sixth_transient.attempts, 6);
    assert_eq!(sixth_transient.last_error, Some(FailureClass::Transient));
    let sixth_timeout = c.resolve(r.duplicate(), AttemptOutcome::TimedOut, now);
    assert_eq!(sixth_timeout.state, RecordState::Bounced);
    let sixth_connect = c.resolve(r.duplicate(), AttemptOutcome::ConnectionFailed, now);
    assert_eq!(sixth_connect.state, RecordState::Bounced);
    assert_eq!(sixth_connect.attempts, 5);
    let sixth_permanent = c.resolve(r.duplicate(), AttemptOutcome::Response { code: 550 }, now);
    assert_eq!(sixth_permanent.state, RecordState::Bounced);
    assert_eq!(sixth_permanent.last_error, Some(FailureClass::Permanent));
    let sixth_success = c.resolve(r, AttemptOutcome::Response { code: 250 }, now);
    assert_eq!(sixth_success.state, RecordState::Delivered);
}

#[test]
fn consecutive_transient_failures_move_due_strictly_later() {
    let mut c = QueueConfig::standard();
    c.retry.max_attempts = 50;
    let mut r = record(4, 100);
    let mut n: u32 = 0;
    while n < 40 {
        let before = r.due;
        let now = before;
        r = c.resolve(r, AttemptOutcome::TimedOut, now);
        assert_eq!(r.state, RecordState::Delayed);
        assert!(r.due > before);
        assert!(r.due - now <= c.retry.max_interval);
        n += 1;
    }
}

#[test]
fn due_moves_later_even_when_the_clock_runs_behind() {
    let c = QueueConfig::standard();
    let r = c.resolve(record(4, 5000), AttemptOutcome::TimedOut, 10);
    assert_eq!(r.due, 5061);
}

#[test]
fn attempts_never_decrease() {
    let c = QueueConfig::standard();
    let mut r = record(5, 0);
    r.attempts = u32::MAX;
    let next = c.resolve(r, AttemptOutcome::TimedOut, 0);
    assert_eq!(next.attempts, u32::MAX);
    assert_eq!(next.state, RecordState::Bounced);
}
