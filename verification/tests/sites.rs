use kumod::policy::AttemptOutcome;
use kumod::site::{Acquired, ConfigureError, DestSiteConfig, Permit, SiteManager};

fn config(max_connections: usize) -> DestSiteConfig {
    DestSiteConfig {
        max_connections,
        max_message_per_connection: 3,
        idle_timeout: 10,
        connect_timeout: 5,
    }
}

fn key(s: &str) -> String {
    s.to_string()
}

fn permit(a: Acquired) -> Permit {
    match a {
        Acquired::Permit(p) => p,
        Acquired::WouldBlock => panic!("expected a permit"),
    }
}

const OK: AttemptOutcome = AttemptOutcome::Response { code: 250 };

#[test]
fn standard_site_config() {
    let c = DestSiteConfig::standard();
    assert_eq!(c.max_connections, 32);
    assert_eq!(c.max_message_per_connection, 1024);
    assert_eq!(c.idle_timeout, 60);
    assert_eq!(c.connect_timeout, 60);
}

#[test]
fn new_manager_knows_no_destination() {
    let m = SiteManager::new(config(2));
    assert!(!m.knows(&key("example.com")));
    assert_eq!(m.in_flight_count(&key("example.com")), 0);
    assert_eq!(m.site_config(&key("example.com")), config(2));
}

#[test]
fn first_permit_creates_the_site_and_opens_a_connection() {
    let mut m = SiteManager::new(config(2));
    let p = permit(m.acquire(&key("example.com"), 100));
    assert!(m.knows(&key("example.com")));
    assert_eq!(p.routing_key(), "example.com");
    assert_eq!(p.slot(), 0);
    assert!(!p.reuses_connection());
    assert_eq!(p.connect_timeout(), 5);
    assert_eq!(m.in_flight_count(&key("example.com")), 1);
}

#[test]
fn permits_are_refused_at_the_bound() {
    let mut m = SiteManager::new(config(2));
    let k = key("example.com");
    let a = permit(m.acquire(&k, 0));
    let b = permit(m.acquire(&k, 0));
    assert_eq!(a.slot(), 0);
    assert_eq!(b.slot(), 1);
    assert!(matches!(m.acquire(&k, 0), Acquired::WouldBlock));
    assert_eq!(m.in_flight_count(&k), 2);
    assert!(m.release(a, OK, 1));
    assert_eq!(m.in_flight_count(&k), 1);
    let c = permit(m.acquire(&k, 1));
    assert_eq!(c.slot(), 0);
    assert!(matches!(m.acquire(&k, 1), Acquired::WouldBlock));
    assert!(m.release(b, OK, 2));
    assert!(m.release(c, OK, 2));
    assert_eq!(m.in_flight_count(&k), 0);
}

#[test]
fn zero_connections_always_block() {
    let mut m = SiteManager::new(config(0));
    assert!(matches!(m.acquire(&key("example.com"), 0), Acquired::WouldBlock));
    assert!(m.knows(&key("example.com")));
    assert_eq!(m.in_flight_count(&key("example.com")), 0);
}

#[test]
fn destinations_do_not_share_a_pool() {
    let mut m = SiteManager::new(config(1));
    let a = permit(m.acquire(&key("a.test"), 0));
    assert!(matches!(m.acquire(&key("a.test"), 0), Acquired::WouldBlock));
    let b = permit(m.acquire(&key("b.test"), 0));
    assert_eq!(m.in_flight_count(&key("a.test")), 1);
    assert_eq!(m.in_flight_count(&key("b.test")), 1);
    assert!(m.release(a, OK, 0));
    assert_eq!(m.in_flight_count(&key("a.test")), 0);
    assert_eq!(m.in_flight_count(&key("b.test")), 1);
    assert!(m.release(b, OK, 0));
}

#[test]
fn a_healthy_connection_is_reused() {
    let mut m = SiteManager::new(config(2));
    let k = key("example.com");
    let a = permit(m.acquire(&k, 0));
    assert!(m.release(a, OK, 5));
    let b = permit(m.acquire(&k, 6));
    assert!(b.reuses_connection());
    assert_eq!(b.slot(), 0);
    assert!(m.release(b, AttemptOutcome::Response { code: 550 }, 7));
    let c = permit(m.acquire(&k, 8));
    assert!(c.reuses_connection());
    assert!(m.release(c, OK, 9));
}

#[test]
fn a_connection_is_closed_after_its_share_of_messages() {
    let mut m = SiteManager::new(config(1));
    let k = key("example.com");
    let a = permit(m.acquire(&k, 0));
    assert!(!a.reuses_connection());
    assert!(m.release(a, OK, 0));
    let b = permit(m.acquire(&k, 0));
    assert!(b.reuses_connection());
    assert!(m.release(b, OK, 0));
    let c = permit(m.acquire(&k, 0));
    assert!(c.reuses_connection());
    assert!(m.release(c, OK, 0));
    let d = permit(m.acquire(&k, 0));
    assert!(!d.reuses_connection());
    assert!(m.release(d, OK, 0));
}

#[test]
fn a_failed_connection_is_not_reused() {
    let mut m = SiteManager::new(config(1));
    let k = key("example.com");
    let a = permit(m.acquire(&k, 0));
    assert!(m.release(a, AttemptOutcome::ConnectionFailed, 1));
    let b = permit(m.acquire(&k, 2));
    assert!(!b.reuses_connection());
    assert!(m.release(b, AttemptOutcome::TimedOut, 3));
    let c = permit(m.acquire(&k, 4));
    assert!(!c.reuses_connection());
    assert!(m.release(c, OK, 5));
}

#[test]
fn an_idle_connection_expires() {
    let mut m = SiteManager::new(config(1));
    let k = key("example.com");
    let a = permit(m.acquire(&k, 0));
    assert!(m.release(a, OK, 100));
    let b = permit(m.acquire(&k, 109));
    assert!(b.reuses_connection());
    assert!(m.release(b, OK, 200));
    let c = permit(m.acquire(&k, 210));
    assert!(!c.reuses_connection());
    assert_eq!(c.slot(), 0);
    assert!(m.release(c, OK, 300));
    let d = permit(m.acquire(&k, 250));
    assert!(d.reuses_connection());
    assert!(m.release(d, OK, 300));
}

#[test]
fn a_permit_of_another_manager_is_not_known() {
    let mut m1 = SiteManager::new(config(2));
    let mut m2 = SiteManager::new(config(2));
    let p = permit(m1.acquire(&key("example.com"), 0));
    assert!(!m2.release(p, OK, 0));
    assert_eq!(m1.in_flight_count(&key("example.com")), 1);
    assert_eq!(m2.in_flight_count(&key("example.com")), 0);
    assert!(!m2.knows(&key("example.com")));
}

#[test]
fn configure_sets_the_bound_of_one_destination() {
    let mut m = SiteManager::new(config(1));
    let k = key("big.test");
    assert_eq!(m.configure(&k, config(3)), Ok(()));
    assert!(m.knows(&k));
    assert_eq!(m.site_config(&k), config(3));
    assert_eq!(m.site_config(&key("other.test")), config(1));
    let a = permit(m.acquire(&k, 0));
    let b = permit(m.acquire(&k, 0));
    let c = permit(m.acquire(&k, 0));
    assert!(matches!(m.acquire(&k, 0), Acquired::WouldBlock));
    assert_eq!(m.configure(&k, config(5)), Err(ConfigureError::InFlight));
    assert_eq!(m.site_config(&k), config(3));
    assert!(m.release(a, OK, 0));
    assert!(m.release(b, OK, 0));
    assert!(m.release(c, OK, 0));
    assert_eq!(m.configure(&k, config(1)), Ok(()));
    let d = permit(m.acquire(&k, 0));
    assert!(!d.reuses_connection());
    assert!(matches!(m.acquire(&k, 0), Acquired::WouldBlock));
    assert!(m.release(d, OK, 0));
}

#[test]
fn in_flight_never_exceeds_the_bound() {
    let mut m = SiteManager::new(config(3));
    let k = key("example.com");
    let mut held: Vec<Permit> = Vec::new();
    let mut round: u64 = 0;
    while round < 50 {
        match m.acquire(&k, round) {
            Acquired::Permit(p) => held.push(p),
            Acquired::WouldBlock => {
                assert_eq!(m.in_flight_count(&k), 3);
                let p = held.remove(0);
                assert!(m.release(p, OK, round));
            }
        }
        assert!(m.in_flight_count(&k) <= 3);
        assert_eq!(m.in_flight_count(&k), held.len());
        round += 1;
    }
}
