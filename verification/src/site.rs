//! Destination sites: one bounded pool of outbound connections per routing key.
//!
//! A delivery attempt may only run while it holds a permit. A permit stands
//! for one slot of the destination's pool; the pool never has more slots than
//! the site's configuration allows, so the number of attempts in flight to
//! one destination cannot exceed that bound.

use crate::policy::AttemptOutcome;
use vstd::prelude::*;

verus! {

/// Default cap on concurrent connections to one destination.
pub const DEFAULT_MAX_CONNECTIONS: usize = 32;

/// Default number of messages after which a connection is closed.
pub const DEFAULT_MAX_MESSAGE_PER_CONNECTION: u32 = 1024;

/// Default time after which an unused connection is closed, in time units.
pub const DEFAULT_IDLE_TIMEOUT: u64 = 60;

/// Default time allowed for establishing a connection, in time units.
pub const DEFAULT_CONNECT_TIMEOUT: u64 = 60;

/// Per-destination transport parameters.
#[derive(Clone, Copy, Debug, PartialEq, Eq, Structural)]
pub struct DestSiteConfig {
    /// Cap on concurrent connections, and so on attempts in flight.
    pub max_connections: usize,
    /// A connection that has carried this many messages is closed.
    pub max_message_per_connection: u32,
    /// An idle connection of this age or older is not used again.
    pub idle_timeout: u64,
    /// Handed to the transport with every permit for a new connection.
    pub connect_timeout: u64,
}

/// One slot of a pool.
#[derive(Clone, Copy, Debug, PartialEq, Eq, Structural)]
pub enum Slot {
    /// No connection.
    Closed,
    /// An open connection that has carried `used` messages and has been
    /// unused since `since`.
    Idle { used: u32, since: u64 },
    /// A connection held by a permit; it had carried `used` messages before.
    Busy { used: u32 },
}

/// The number of busy slots in a pool.
pub open spec fn busy_count(pool: Seq<Slot>) -> nat
    decreases pool.len(),
{
    if pool.len() == 0 {
        0
    } else {
        busy_count(pool.drop_last()) + if pool.last() is Busy {
            1nat
        } else {
            0nat
        }
    }
}

/// Whether a slot holds an idle connection that is still young enough at
/// `now` to be used again.
pub open spec fn fresh(slot: Slot, config: DestSiteConfig, now: u64) -> bool {
    slot matches Slot::Idle { since, .. } && !(since <= now && now - since >= config.idle_timeout)
}

/// Whether `i` is the first slot of the pool with a fresh idle connection.
pub open spec fn first_fresh(pool: Seq<Slot>, config: DestSiteConfig, now: u64, i: int) -> bool {
    &&& 0 <= i < pool.len()
    &&& fresh(pool[i], config, now)
    &&& forall|j: int| 0 <= j < i ==> !fresh(#[trigger] pool[j], config, now)
}

/// Whether `i` is the first slot of the pool that no permit holds.
pub open spec fn first_vacant(pool: Seq<Slot>, i: int) -> bool {
    &&& 0 <= i < pool.len()
    &&& !(pool[i] is Busy)
    &&& forall|j: int| 0 <= j < i ==> #[trigger] pool[j] is Busy
}

/// The slot that the next permit gets, and whether it comes with an open
/// connection: the first fresh idle slot to be reused; failing that the
/// first slot without a permit, or a new slot while the pool may still grow,
/// for a new connection; none when every allowed slot is busy.
pub open spec fn grant(pool: Seq<Slot>, config: DestSiteConfig, now: u64) -> Option<(int, bool)> {
    if exists|i: int| first_fresh(pool, config, now, i) {
        Some((choose|i: int| first_fresh(pool, config, now, i), true))
    } else if exists|i: int| first_vacant(pool, i) {
        Some((choose|i: int| first_vacant(pool, i), false))
    } else if pool.len() < config.max_connections {
        Some((pool.len() as int, false))
    } else {
        None
    }
}

/// The pool after slot `slot` was handed out.
pub open spec fn after_grant(pool: Seq<Slot>, slot: int, reused: bool) -> Seq<Slot> {
    if slot == pool.len() {
        pool.push(Slot::Busy { used: 0 })
    } else {
        let used = if reused {
            pool[slot]->Idle_used
        } else {
            0u32
        };
        pool.update(slot, Slot::Busy { used })
    }
}

/// The pool after `n` permits were granted on it one after another.
pub open spec fn pool_after(pool: Seq<Slot>, config: DestSiteConfig, now: u64, n: nat) -> Seq<Slot>
    decreases n,
{
    if n == 0 {
        pool
    } else {
        let before = pool_after(pool, config, now, (n - 1) as nat);
        match grant(before, config, now) {
            Some((slot, reused)) => after_grant(before, slot, reused),
            None => before,
        }
    }
}

/// The slot that the permit after the first `n` gets, and whether it comes
/// with an open connection.
pub open spec fn nth_grant(pool: Seq<Slot>, config: DestSiteConfig, now: u64, n: nat) -> (int, bool) {
    match grant(pool_after(pool, config, now, n), config, now) {
        Some(g) => g,
        None => (0, false),
    }
}

/// The permits that `n` grants in a row hand out for a destination.
pub open spec fn granted_permits(
    key: Seq<char>,
    pool: Seq<Slot>,
    config: DestSiteConfig,
    now: u64,
    n: nat,
) -> Seq<PermitView> {
    Seq::new(
        n,
        |i: int|
            PermitView {
                key,
                slot: nth_grant(pool, config, now, i as nat).0,
                reused: nth_grant(pool, config, now, i as nat).1,
                connect_timeout: config.connect_timeout,
            },
    )
}

/// What a busy slot becomes when its permit comes back: its connection stays
/// open for reuse after an answered transmission, unless it has then carried
/// as many messages as one connection may; after any other outcome it is
/// closed.
pub open spec fn settled(used: u32, config: DestSiteConfig, outcome: AttemptOutcome, now: u64)
    -> Slot {
    if outcome is Response && used < u32::MAX && used + 1 < config.max_message_per_connection {
        Slot::Idle { used: (used + 1) as u32, since: now }
    } else {
        Slot::Closed
    }
}

/// A pool has no more busy slots than slots.
pub proof fn lemma_busy_count_bound(pool: Seq<Slot>)
    ensures
        busy_count(pool) <= pool.len(),
    decreases pool.len(),
{
    if pool.len() > 0 {
        lemma_busy_count_bound(pool.drop_last());
    }
}

/// Every slot is busy exactly when the busy count equals the pool's size.
pub proof fn lemma_busy_count_full(pool: Seq<Slot>)
    ensures
        busy_count(pool) == pool.len() <==> (forall|i: int|
            0 <= i < pool.len() ==> #[trigger] pool[i] is Busy),
    decreases pool.len(),
{
    if pool.len() > 0 {
        let front = pool.drop_last();
        lemma_busy_count_full(front);
        lemma_busy_count_bound(front);
        if busy_count(pool) == pool.len() {
            assert forall|i: int| 0 <= i < pool.len() implies #[trigger] pool[i] is Busy by {
                if i < front.len() {
                    assert(front[i] is Busy);
                }
            }
        }
        if forall|i: int| 0 <= i < pool.len() ==> #[trigger] pool[i] is Busy {
            assert forall|i: int| 0 <= i < front.len() implies #[trigger] front[i] is Busy by {
                assert(pool[i] is Busy);
            }
            assert(pool.last() == pool[pool.len() - 1]);
        }
    }
}

/// Appending a slot raises the busy count by one if the slot is busy.
pub proof fn lemma_busy_count_push(pool: Seq<Slot>, slot: Slot)
    ensures
        busy_count(pool.push(slot)) == busy_count(pool) + if slot is Busy {
            1nat
        } else {
            0nat
        },
{
    assert(pool.push(slot).drop_last() =~= pool);
}

/// Replacing a slot changes the busy count by what the old and the new slot
/// contribute.
pub proof fn lemma_busy_count_update(pool: Seq<Slot>, i: int, slot: Slot)
    requires
        0 <= i < pool.len(),
    ensures
        busy_count(pool.update(i, slot)) + (if pool[i] is Busy {
            1nat
        } else {
            0nat
        }) == busy_count(pool) + (if slot is Busy {
            1nat
        } else {
            0nat
        }),
    decreases pool.len(),
{
    let next = pool.update(i, slot);
    if i == pool.len() - 1 {
        assert(next.drop_last() =~= pool.drop_last());
    } else {
        lemma_busy_count_update(pool.drop_last(), i, slot);
        assert(next.drop_last() =~= pool.drop_last().update(i, slot));
    }
}

/// A permit is refused exactly when the pool has as many busy slots as the
/// site may have connections; a granted slot lies in the pool or just
/// behind it, within the bound, and is not busy.
pub proof fn lemma_grant(pool: Seq<Slot>, config: DestSiteConfig, now: u64)
    requires
        pool.len() <= config.max_connections,
    ensures
        grant(pool, config, now) is None <==> busy_count(pool) >= config.max_connections,
        grant(pool, config, now) matches Some((slot, reused)) ==> {
            &&& 0 <= slot <= pool.len()
            &&& slot < config.max_connections
            &&& slot < pool.len() ==> !(pool[slot] is Busy)
            &&& reused ==> slot < pool.len() && fresh(pool[slot], config, now)
            &&& after_grant(pool, slot, reused).len() <= config.max_connections
            &&& busy_count(after_grant(pool, slot, reused)) == busy_count(pool) + 1
        },
{
    lemma_busy_count_bound(pool);
    lemma_busy_count_full(pool);
    match grant(pool, config, now) {
        Some((slot, reused)) => {
            if slot < pool.len() {
                if exists|i: int| first_fresh(pool, config, now, i) {
                    assert(first_fresh(pool, config, now, slot));
                } else {
                    assert(first_vacant(pool, slot));
                }
                assert(!(pool[slot] is Busy));
                lemma_busy_count_update(pool, slot, after_grant(pool, slot, reused)[slot]);
            } else {
                lemma_busy_count_push(pool, Slot::Busy { used: 0 });
            }
        },
        None => {
            assert forall|i: int| 0 <= i < pool.len() implies #[trigger] pool[i] is Busy by {
                if !(pool[i] is Busy) {
                    lemma_least_vacant(pool, i);
                }
            }
        },
    }
}

/// A pool with a slot that is not busy has a first such slot.
proof fn lemma_least_vacant(pool: Seq<Slot>, i: int)
    requires
        0 <= i < pool.len(),
        !(pool[i] is Busy),
    ensures
        exists|k: int| first_vacant(pool, k),
    decreases i,
{
    if forall|j: int| 0 <= j < i ==> #[trigger] pool[j] is Busy {
        assert(first_vacant(pool, i));
    } else {
        let j = choose|j: int| 0 <= j < i && !(#[trigger] pool[j] is Busy);
        lemma_least_vacant(pool, j);
    }
}

/// The transport parameters with the documented defaults.
pub open spec fn default_site_config() -> DestSiteConfig {
    DestSiteConfig {
        max_connections: DEFAULT_MAX_CONNECTIONS,
        max_message_per_connection: DEFAULT_MAX_MESSAGE_PER_CONNECTION,
        idle_timeout: DEFAULT_IDLE_TIMEOUT,
        connect_timeout: DEFAULT_CONNECT_TIMEOUT,
    }
}

impl DestSiteConfig {
    /// The transport parameters with the documented defaults.
    pub fn standard() -> (config: Self)
        ensures
            config == default_site_config(),
    {
        DestSiteConfig {
            max_connections: DEFAULT_MAX_CONNECTIONS,
            max_message_per_connection: DEFAULT_MAX_MESSAGE_PER_CONNECTION,
            idle_timeout: DEFAULT_IDLE_TIMEOUT,
            connect_timeout: DEFAULT_CONNECT_TIMEOUT,
        }
    }
}

/// Hands out a slot of the pool, if one can be had.
fn claim(pool: &mut Vec<Slot>, config: &DestSiteConfig, now: u64) -> (claimed: Option<
    (usize, bool),
>)
    requires
        old(pool).len() <= config.max_connections,
    ensures
        match grant(old(pool)@, *config, now) {
            Some((slot, reused)) => claimed == Some((slot as usize, reused)) && final(pool)@
                == after_grant(old(pool)@, slot, reused),
            None => claimed is None && final(pool)@ == old(pool)@,
        },
{
    let n: usize = pool.len();
    let mut i: usize = 0;
    while i < n
        invariant
            n == pool.len(),
            i <= n,
            pool@ == old(pool)@,
            forall|j: int| 0 <= j < i ==> !fresh(#[trigger] pool[j], *config, now),
        decreases n - i,
    {
        if let Slot::Idle { used, since } = pool[i] {
            if !(since <= now && now - since >= config.idle_timeout) {
                proof {
                    assert(first_fresh(pool@, *config, now, i as int));
                    let c = choose|c: int| first_fresh(pool@, *config, now, c);
                    assert(c == i) by {
                        if c < i {
                            assert(!fresh(pool[c], *config, now));
                        } else if i < c {
                            assert(!fresh(pool[i as int], *config, now));
                        }
                    }
                }
                pool.set(i, Slot::Busy { used });
                return Some((i, true));
            }
        }
        i = i + 1;
    }
    assert(!(exists|c: int| first_fresh(pool@, *config, now, c)));
    let mut k: usize = 0;
    while k < n
        invariant
            n == pool.len(),
            k <= n,
            pool@ == old(pool)@,
            !(exists|c: int| first_fresh(pool@, *config, now, c)),
            forall|j: int| 0 <= j < k ==> #[trigger] pool[j] is Busy,
        decreases n - k,
    {
        let vacant: bool = match pool[k] {
            Slot::Busy { .. } => false,
            _ => true,
        };
        if vacant {
            proof {
                assert(first_vacant(pool@, k as int));
                let c = choose|c: int| first_vacant(pool@, c);
                assert(c == k) by {
                    if c < k {
                        assert(pool[c] is Busy);
                    } else if k < c {
                        assert(pool[k as int] is Busy);
                    }
                }
            }
            pool.set(k, Slot::Busy { used: 0 });
            return Some((k, false));
        }
        k = k + 1;
    }
    assert(!(exists|c: int| first_vacant(pool@, c)));
    if n < config.max_connections {
        pool.push(Slot::Busy { used: 0 });
        Some((n, false))
    } else {
        None
    }
}

/// A claimed slot of one destination's pool. It cannot be copied, and it is
/// used up when it is released.
#[derive(Debug)]
pub struct Permit {
    key: String,
    slot: usize,
    reused: bool,
    connect_timeout: u64,
}

/// A permit as plain values.
pub struct PermitView {
    pub key: Seq<char>,
    pub slot: int,
    pub reused: bool,
    pub connect_timeout: u64,
}

impl View for Permit {
    type V = PermitView;

    closed spec fn view(&self) -> PermitView {
        PermitView {
            key: self.key@,
            slot: self.slot as int,
            reused: self.reused,
            connect_timeout: self.connect_timeout,
        }
    }
}

impl Permit {
    /// The routing key of the destination.
    pub fn routing_key(&self) -> (key: &String)
        ensures
            key@ == self@.key,
    {
        &self.key
    }

    /// The slot of the pool that the permit claims.
    pub fn slot(&self) -> (slot: usize)
        ensures
            slot == self@.slot,
    {
        self.slot
    }

    /// Whether the slot came with an open connection, so that the transport
    /// need not connect.
    pub fn reuses_connection(&self) -> (reused: bool)
        ensures
            reused == self@.reused,
    {
        self.reused
    }

    /// The time that the transport may spend on connecting.
    pub fn connect_timeout(&self) -> (limit: u64)
        ensures
            limit == self@.connect_timeout,
    {
        self.connect_timeout
    }
}

/// The answer to a request for a permit.
#[derive(Debug)]
pub enum Acquired {
    /// A slot was claimed.
    Permit(Permit),
    /// The pool is saturated; try again after a release.
    WouldBlock,
}

/// Why a configuration was not put in force.
#[derive(Clone, Copy, Debug, PartialEq, Eq, Structural)]
pub enum ConfigureError {
    /// The destination has attempts in flight.
    InFlight,
}

/// The record of one destination.
#[derive(Debug)]
struct Site {
    key: String,
    config: DestSiteConfig,
    pool: Vec<Slot>,
}

/// The pools of all destinations, by routing key.
#[derive(Debug)]
pub struct SiteManager {
    sites: Vec<Site>,
    fallback: DestSiteConfig,
}

impl SiteManager {
    /// No routing key has two records, and no pool is larger than its site
    /// allows.
    pub closed spec fn wf(&self) -> bool {
        &&& forall|i: int, j: int|
            0 <= i < j < self.sites.len() ==> #[trigger] self.sites[i].key@
                != #[trigger] self.sites[j].key@
        &&& forall|i: int|
            0 <= i < self.sites.len() ==> (#[trigger] self.sites[i]).pool.len()
                <= self.sites[i].config.max_connections
    }

    /// Whether the destination has a record.
    pub closed spec fn has(&self, key: Seq<char>) -> bool {
        exists|i: int| 0 <= i < self.sites.len() && (#[trigger] self.sites[i]).key@ == key
    }

    spec fn index_of(&self, key: Seq<char>) -> int {
        choose|i: int| 0 <= i < self.sites.len() && (#[trigger] self.sites[i]).key@ == key
    }

    /// The configuration that a destination gets when it has none of its own.
    pub closed spec fn fallback(&self) -> DestSiteConfig {
        self.fallback
    }

    /// The configuration in force for a destination.
    pub closed spec fn config(&self, key: Seq<char>) -> DestSiteConfig {
        if self.has(key) {
            self.sites[self.index_of(key)].config
        } else {
            self.fallback
        }
    }

    /// The pool of a destination; empty while it has no record.
    pub closed spec fn pool(&self, key: Seq<char>) -> Seq<Slot> {
        if self.has(key) {
            self.sites[self.index_of(key)].pool@
        } else {
            Seq::empty()
        }
    }

    /// The number of attempts in flight to a destination.
    pub open spec fn in_flight(&self, key: Seq<char>) -> nat {
        busy_count(self.pool(key))
    }

    /// Whether a permit is outstanding: its slot exists and is busy.
    pub open spec fn holds(&self, permit: PermitView) -> bool {
        &&& 0 <= permit.slot < self.pool(permit.key).len()
        &&& self.pool(permit.key)[permit.slot] is Busy
    }

    /// Whether two managers agree on every destination but `key`.
    pub open spec fn same_elsewhere(&self, other: &SiteManager, key: Seq<char>) -> bool {
        &&& self.fallback() == other.fallback()
        &&& forall|k: Seq<char>|
            #![trigger self.has(k)]
            #![trigger self.pool(k)]
            #![trigger self.config(k)]
            k != key ==> {
                &&& self.has(k) == other.has(k)
                &&& self.pool(k) == other.pool(k)
                &&& self.config(k) == other.config(k)
            }
    }

    /// The number of attempts in flight to any destination never exceeds the
    /// number of connections configured for it.
    pub proof fn lemma_bound_enforced(&self, key: Seq<char>)
        requires
            self.wf(),
        ensures
            self.in_flight(key) <= self.config(key).max_connections,
            self.pool(key).len() <= self.config(key).max_connections,
    {
        lemma_busy_count_bound(self.pool(key));
        if self.has(key) {
            let i = self.index_of(key);
            assert(self.sites[i].pool.len() <= self.sites[i].config.max_connections);
        }
    }

    proof fn lemma_index(&self, i: int)
        requires
            self.wf(),
            0 <= i < self.sites.len(),
        ensures
            self.has(self.sites[i].key@),
            self.index_of(self.sites[i].key@) == i,
            self.pool(self.sites[i].key@) == self.sites[i].pool@,
            self.config(self.sites[i].key@) == self.sites[i].config,
    {
        let key = self.sites[i].key@;
        let k = self.index_of(key);
        assert(0 <= k < self.sites.len() && self.sites[k].key@ == key);
        if k < i {
            assert(self.sites[k].key@ != self.sites[i].key@);
        } else if i < k {
            assert(self.sites[i].key@ != self.sites[k].key@);
        }
    }

    /// A manager without any destination record.
    pub fn new(fallback: DestSiteConfig) -> (manager: Self)
        ensures
            manager.wf(),
            manager.fallback() == fallback,
            forall|k: Seq<char>| !manager.has(k),
            forall|k: Seq<char>| #[trigger] manager.pool(k) == Seq::<Slot>::empty(),
            forall|k: Seq<char>| #[trigger] manager.config(k) == fallback,
    {
        SiteManager { sites: Vec::new(), fallback }
    }

    /// A destination without a record has an empty pool and the fallback
    /// configuration.
    pub proof fn lemma_unknown_site(&self, key: Seq<char>)
        requires
            !self.has(key),
        ensures
            self.pool(key) == Seq::<Slot>::empty(),
            self.config(key) == self.fallback(),
    {
    }

    fn find(&self, key: &String) -> (found: Option<usize>)
        requires
            self.wf(),
        ensures
            match found {
                Some(i) => i < self.sites.len() && self.sites[i as int].key@ == key@ && self.has(
                    key@,
                ) && self.index_of(key@) == i,
                None => !self.has(key@),
            },
    {
        let n: usize = self.sites.len();
        let mut i: usize = 0;
        while i < n
            invariant
                self.wf(),
                n == self.sites.len(),
                i <= n,
                forall|j: int| 0 <= j < i ==> (#[trigger] self.sites[j]).key@ != key@,
            decreases n - i,
        {
            if self.sites[i].key.eq(key) {
                proof {
                    self.lemma_index(i as int);
                }
                return Some(i);
            }
            i = i + 1;
        }
        None
    }

    /// Whether the destination has a record.
    pub fn knows(&self, key: &String) -> (known: bool)
        requires
            self.wf(),
        ensures
            known == self.has(key@),
    {
        self.find(key).is_some()
    }

    /// The configuration in force for a destination.
    pub fn site_config(&self, key: &String) -> (config: DestSiteConfig)
        requires
            self.wf(),
        ensures
            config == self.config(key@),
    {
        match self.find(key) {
            Some(i) => self.sites[i].config,
            None => self.fallback,
        }
    }

    /// The number of attempts in flight to a destination.
    pub fn in_flight_count(&self, key: &String) -> (count: usize)
        requires
            self.wf(),
        ensures
            count == self.in_flight(key@),
            count <= self.config(key@).max_connections,
    {
        proof {
            self.lemma_bound_enforced(key@);
        }
        match self.find(key) {
            Some(i) => {
                let pool = &self.sites[i].pool;
                let n: usize = pool.len();
                let mut count: usize = 0;
                let mut j: usize = 0;
                while j < n
                    invariant
                        n == pool.len(),
                        j <= n,
                        count == busy_count(pool@.subrange(0, j as int)),
                        count <= j,
                    decreases n - j,
                {
                    proof {
                        assert(pool@.subrange(0, j + 1).drop_last() =~= pool@.subrange(0, j as int));
                    }
                    if let Slot::Busy { .. } = pool[j] {
                        count = count + 1;
                    }
                    j = j + 1;
                }
                proof {
                    assert(pool@.subrange(0, n as int) =~= pool@);
                }
                count
            },
            None => 0,
        }
    }

    /// Puts a configuration in force for a destination, creating its record
    /// if there is none. A destination with attempts in flight keeps its
    /// configuration; otherwise its connections are closed and the new
    /// configuration holds from the next permit on.
    pub fn configure(&mut self, key: &String, config: DestSiteConfig) -> (done: Result<
        (),
        ConfigureError,
    >)
        requires
            old(self).wf(),
        ensures
            final(self).wf(),
            final(self).same_elsewhere(old(self), key@),
            done is Err <==> old(self).in_flight(key@) > 0,
            done is Err ==> *final(self) == *old(self),
            done is Ok ==> {
                &&& final(self).has(key@)
                &&& final(self).config(key@) == config
                &&& final(self).pool(key@) == Seq::<Slot>::empty()
            },
    {
        let busy: usize = self.in_flight_count(key);
        if busy > 0 {
            return Err(ConfigureError::InFlight);
        }
        let ghost before = *self;
        match self.find(key) {
            Some(i) => {
                let site = Site { key: key.clone(), config, pool: Vec::new() };
                self.sites.set(i, site);
                proof {
                    assert forall|a: int, b: int| 0 <= a < b < self.sites.len() implies (
                    #[trigger] self.sites[a]).key@ != (#[trigger] self.sites[b]).key@ by {
                        assert(before.sites[a].key@ != before.sites[b].key@);
                    }
                    self.lemma_index(i as int);
                    assert forall|k: Seq<char>| k != key@ implies self.has(k) == before.has(k)
                        && self.pool(k) == before.pool(k) && self.config(k) == before.config(
                        k,
                    ) by {
                        Self::lemma_same_site(&before, self, k);
                    }
                    assert(self.same_elsewhere(&before, key@));
                }
            },
            None => {
                let site = Site { key: key.clone(), config, pool: Vec::new() };
                self.sites.push(site);
                proof {
                    let last = self.sites.len() - 1;
                    assert forall|a: int, b: int| 0 <= a < b < self.sites.len() implies (
                    #[trigger] self.sites[a]).key@ != (#[trigger] self.sites[b]).key@ by {
                        if b == last {
                            assert(before.sites[a].key@ != key@);
                        } else {
                            assert(before.sites[a].key@ != before.sites[b].key@);
                        }
                    }
                    self.lemma_index(last);
                    assert forall|k: Seq<char>| k != key@ implies self.has(k) == before.has(k)
                        && self.pool(k) == before.pool(k) && self.config(k) == before.config(
                        k,
                    ) by {
                        Self::lemma_same_site(&before, self, k);
                    }
                    assert(self.same_elsewhere(&before, key@));
                }
            },
        }
        Ok(())
    }

    /// The place of the destination's record, which is created with the
    /// fallback configuration if there is none.
    fn find_or_insert(&mut self, key: &String) -> (at: usize)
        requires
            old(self).wf(),
        ensures
            final(self).wf(),
            final(self).same_elsewhere(old(self), key@),
            final(self).has(key@),
            final(self).config(key@) == old(self).config(key@),
            final(self).pool(key@) == old(self).pool(key@),
            at < final(self).sites.len(),
            final(self).sites[at as int].key@ == key@,
    {
        match self.find(key) {
            Some(i) => {
                proof {
                    self.lemma_index(i as int);
                }
                i
            },
            None => {
                let ghost before = *self;
                let site = Site { key: key.clone(), config: self.fallback, pool: Vec::new() };
                self.sites.push(site);
                proof {
                    let last = self.sites.len() - 1;
                    assert forall|a: int, b: int| 0 <= a < b < self.sites.len() implies (
                    #[trigger] self.sites[a]).key@ != (#[trigger] self.sites[b]).key@ by {
                        if b == last {
                            assert(before.sites[a].key@ != key@);
                        } else {
                            assert(before.sites[a].key@ != before.sites[b].key@);
                        }
                    }
                    self.lemma_index(last);
                    assert forall|k: Seq<char>| k != key@ implies self.has(k) == before.has(k)
                        && self.pool(k) == before.pool(k) && self.config(k) == before.config(
                        k,
                    ) by {
                        Self::lemma_same_site(&before, self, k);
                    }
                    assert(self.pool(key@) =~= before.pool(key@));
                }
                self.sites.len() - 1
            },
        }
    }

    /// Asks for a permit for one attempt to a destination.
    ///
    /// The destination gets a record with the fallback configuration if it
    /// has none. The permit is refused exactly when the destination has as
    /// many attempts in flight as it may have connections; otherwise the
    /// slot that `grant` names becomes busy and the permit stands for it.
    pub fn acquire(&mut self, key: &String, now: u64) -> (acquired: Acquired)
        requires
            old(self).wf(),
        ensures
            final(self).wf(),
            final(self).same_elsewhere(old(self), key@),
            final(self).has(key@),
            final(self).config(key@) == old(self).config(key@),
            match grant(old(self).pool(key@), old(self).config(key@), now) {
                Some((slot, reused)) => {
                    &&& acquired matches Acquired::Permit(p)
                    &&& p@ == (PermitView {
                        key: key@,
                        slot,
                        reused,
                        connect_timeout: old(self).config(key@).connect_timeout,
                    })
                    &&& final(self).pool(key@) == after_grant(old(self).pool(key@), slot, reused)
                    &&& final(self).holds(p@)
                    &&& final(self).in_flight(key@) == old(self).in_flight(key@) + 1
                },
                None => acquired is WouldBlock && final(self).pool(key@) == old(self).pool(key@),
            },
            acquired is WouldBlock <==> old(self).in_flight(key@) >= old(self).config(
                key@,
            ).max_connections,
    {
        proof {
            self.lemma_bound_enforced(key@);
            lemma_grant(self.pool(key@), self.config(key@), now);
        }
        let ghost before = *self;
        let at: usize = self.find_or_insert(key);
        let ghost mid = *self;
        proof {
            self.lemma_index(at as int);
        }
        let config: DestSiteConfig = self.sites[at].config;
        let site = &mut self.sites[at];
        let claimed: Option<(usize, bool)> = claim(&mut site.pool, &config, now);
        proof {
            assert forall|a: int| 0 <= a < self.sites.len() implies (#[trigger] self.sites[a]).key@
                == mid.sites[a].key@ by {}
            assert forall|a: int, b: int| 0 <= a < b < self.sites.len() implies (
            #[trigger] self.sites[a]).key@ != (#[trigger] self.sites[b]).key@ by {
                assert(mid.sites[a].key@ != mid.sites[b].key@);
            }
            assert(self.wf());
            self.lemma_index(at as int);
            assert forall|k: Seq<char>| k != key@ implies self.has(k) == before.has(k)
                && self.pool(k) == before.pool(k) && self.config(k) == before.config(k) by {
                Self::lemma_same_site(&mid, self, k);
                assert(mid.has(k) == before.has(k));
                assert(mid.pool(k) == before.pool(k));
                assert(mid.config(k) == before.config(k));
            }
        }
        match claimed {
            Some((slot, reused)) => Acquired::Permit(
                Permit { key: key.clone(), slot, reused, connect_timeout: config.connect_timeout },
            ),
            None => Acquired::WouldBlock,
        }
    }

    /// The manager after a permit came back with the outcome of its attempt:
    /// the permit's slot settles; a permit that is not outstanding changes
    /// nothing.
    pub open spec fn released_pool(
        &self,
        permit: PermitView,
        outcome: AttemptOutcome,
        now: u64,
    ) -> Seq<Slot> {
        let pool = self.pool(permit.key);
        if self.holds(permit) {
            pool.update(
                permit.slot,
                settled(pool[permit.slot]->Busy_used, self.config(permit.key), outcome, now),
            )
        } else {
            pool
        }
    }

    /// Takes a permit back when its attempt has ended.
    ///
    /// Returns whether the permit was outstanding. If so its slot settles as
    /// the outcome says and the destination has one attempt less in flight;
    /// if not, nothing changes.
    pub fn release(&mut self, permit: Permit, outcome: AttemptOutcome, now: u64) -> (known: bool)
        requires
            old(self).wf(),
        ensures
            final(self).wf(),
            known == old(self).holds(permit@),
            final(self).same_elsewhere(old(self), permit@.key),
            final(self).has(permit@.key) == old(self).has(permit@.key),
            final(self).config(permit@.key) == old(self).config(permit@.key),
            final(self).pool(permit@.key) == old(self).released_pool(permit@, outcome, now),
            known ==> final(self).in_flight(permit@.key) + 1 == old(self).in_flight(permit@.key),
            known ==> !final(self).holds(permit@),
            !known ==> *final(self) == *old(self),
    {
        let ghost before = *self;
        let at: usize = match self.find(&permit.key) {
            Some(i) => i,
            None => {
                return false;
            },
        };
        proof {
            self.lemma_index(at as int);
        }
        if permit.slot >= self.sites[at].pool.len() {
            return false;
        }
        let used: u32 = match self.sites[at].pool[permit.slot] {
            Slot::Busy { used } => used,
            _ => {
                return false;
            },
        };
        let config: DestSiteConfig = self.sites[at].config;
        let next: Slot = if matches!(outcome, AttemptOutcome::Response { .. }) && used < u32::MAX
            && used + 1 < config.max_message_per_connection {
            Slot::Idle { used: used + 1, since: now }
        } else {
            Slot::Closed
        };
        let site = &mut self.sites[at];
        site.pool.set(permit.slot, next);
        proof {
            assert forall|a: int, b: int| 0 <= a < b < self.sites.len() implies (
            #[trigger] self.sites[a]).key@ != (#[trigger] self.sites[b]).key@ by {
                assert(before.sites[a].key@ != before.sites[b].key@);
            }
            assert(self.wf());
            self.lemma_index(at as int);
            assert forall|k: Seq<char>| k != permit@.key implies self.has(k) == before.has(k)
                && self.pool(k) == before.pool(k) && self.config(k) == before.config(k) by {
                Self::lemma_same_site(&before, self, k);
            }
            lemma_busy_count_update(before.pool(permit@.key), permit.slot as int, next);
        }
        true
    }

    /// A destination whose record sits unchanged at the same place in two
    /// managers, or is missing from both, looks the same in both.
    proof fn lemma_same_site(before: &SiteManager, after: &SiteManager, k: Seq<char>)
        requires
            before.wf(),
            after.wf(),
            before.fallback == after.fallback,
            before.sites.len() <= after.sites.len(),
            forall|i: int|
                0 <= i < before.sites.len() ==> (#[trigger] after.sites[i]).key@
                    == before.sites[i].key@,
            forall|i: int|
                0 <= i < before.sites.len() && before.sites[i].key@ == k ==> (
                #[trigger] after.sites[i]) == before.sites[i],
            forall|i: int|
                before.sites.len() <= i < after.sites.len() ==> (#[trigger] after.sites[i]).key@
                    != k,
        ensures
            after.has(k) == before.has(k),
            after.pool(k) == before.pool(k),
            after.config(k) == before.config(k),
    {
        if before.has(k) {
            let i = before.index_of(k);
            assert(after.sites[i].key@ == k);
            after.lemma_index(i);
            before.lemma_index(i);
        } else if after.has(k) {
            let i = after.index_of(k);
            if i < before.sites.len() {
                assert(before.sites[i].key@ == k);
            }
        }
    }
}

} // verus!
