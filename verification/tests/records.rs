use kumod::record::{domain_part, Envelope, MessageRecord, RecordState};
use kumod::spool_params::{DefineSpoolParams, SpoolKind};
use std::path::PathBuf;

#[test]
fn default_spool_kind_is_local_disk() {
    assert_eq!(SpoolKind::default(), SpoolKind::LocalDisk);
    assert_ne!(SpoolKind::default(), SpoolKind::RocksDB);
}

#[test]
fn spool_params_defaults() {
    let p = DefineSpoolParams::with_defaults("data".to_string(), PathBuf::from("/var/spool/data"));
    assert_eq!(p.name, "data");
    assert_eq!(p.path, PathBuf::from("/var/spool/data"));
    assert_eq!(p.kind, SpoolKind::LocalDisk);
    assert!(!p.flush);
}

#[test]
fn spool_params_fields_are_plain() {
    let p = DefineSpoolParams {
        name: "meta".to_string(),
        path: PathBuf::from("/tmp/meta"),
        kind: SpoolKind::RocksDB,
        flush: true,
    };
    assert_eq!(p.kind, SpoolKind::RocksDB);
    assert!(p.flush);
}

#[test]
fn domain_is_what_follows_the_last_at() {
    assert_eq!(domain_part(&"user@example.com".to_string()), "example.com");
    assert_eq!(domain_part(&"\"a@b\"@example.org".to_string()), "example.org");
    assert_eq!(domain_part(&"no-at-sign".to_string()), "no-at-sign");
    assert_eq!(domain_part(&"trailing@".to_string()), "");
    assert_eq!(domain_part(&"".to_string()), "");
    assert_eq!(domain_part(&"@lead".to_string()), "lead");
}

#[test]
fn domain_of_a_non_ascii_address() {
    assert_eq!(domain_part(&"jürgen@müller.example".to_string()), "müller.example");
    assert_eq!(domain_part(&"用户@例え.jp".to_string()), "例え.jp");
}

#[test]
fn routing_key_is_the_recipient_domain() {
    let e = Envelope::new("a@origin.test".to_string(), "b@example.com".to_string());
    assert_eq!(e.routing_key(), "example.com");
    assert_eq!(e.routing_key(), e.routing_key());
}

#[test]
fn routing_key_follows_an_explicit_route() {
    let e = Envelope::with_route(
        "a@origin.test".to_string(),
        "b@example.com".to_string(),
        "smarthost".to_string(),
    );
    assert_eq!(e.routing_key(), "smarthost");
}

#[test]
fn new_record_is_queued_without_attempts() {
    let r = MessageRecord::new(
        17,
        Envelope::new("a@origin.test".to_string(), "b@example.com".to_string()),
        99,
    );
    assert_eq!(r.id, 17);
    assert_eq!(r.body_ref, 17);
    assert_eq!(r.due, 99);
    assert_eq!(r.attempts, 0);
    assert_eq!(r.last_error, None);
    assert_eq!(r.state, RecordState::Queued);
    assert_eq!(r.routing_key(), "example.com");
}

#[test]
fn duplicate_keeps_every_field() {
    let mut r = MessageRecord::new(
        17,
        Envelope::with_route("a@o.test".to_string(), "b@e.com".to_string(), "r".to_string()),
        99,
    );
    r.attempts = 3;
    r.state = RecordState::Delayed;
    let d = r.duplicate();
    assert_eq!(d.id, 17);
    assert_eq!(d.envelope.sender, "a@o.test");
    assert_eq!(d.envelope.recipient, "b@e.com");
    assert_eq!(d.envelope.route, Some("r".to_string()));
    assert_eq!(d.attempts, 3);
    assert_eq!(d.state, RecordState::Delayed);
    assert_eq!(d.due, 99);
}

#[test]
fn terminal_states() {
    assert!(RecordState::Bounced.terminal());
    assert!(RecordState::Delivered.terminal());
    assert!(!RecordState::Queued.terminal());
    assert!(!RecordState::InFlight.terminal());
    assert!(!RecordState::Delayed.terminal());
}
