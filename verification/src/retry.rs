//! Retry policy: how long a message waits after a transient failure.
//!
//! The interval grows geometrically with the number of attempts already made,
//! is shifted by a jitter that is a fixed function of that number, and never
//! leaves the range from one time unit to the configured maximum.

use vstd::prelude::*;

verus! {

/// Default first retry interval, in time units.
pub const DEFAULT_BASE_INTERVAL: u64 = 60;

/// Default growth factor between consecutive retry intervals.
pub const DEFAULT_MULTIPLIER: u64 = 2;

/// Default upper bound on any retry interval, in time units.
pub const DEFAULT_MAX_INTERVAL: u64 = 86_400;

/// Default number of attempts after which any further failure is terminal.
pub const DEFAULT_MAX_ATTEMPTS: u32 = 5;

/// Default width of the jitter window, in time units.
pub const DEFAULT_JITTER_SPAN: u64 = 30;

/// Multiplier that spreads attempt counts over the jitter window.
pub const JITTER_STRIDE: u64 = 2_654_435_761;

/// Parameters of the retry schedule of one queue.
#[derive(Clone, Copy, Debug, PartialEq, Eq, Structural)]
pub struct RetryPolicy {
    /// Interval before the first retry.
    pub base_interval: u64,
    /// Factor by which the interval grows from one retry to the next.
    pub multiplier: u64,
    /// No interval is ever longer than this.
    pub max_interval: u64,
    /// A failure of a record that has used this many attempts is terminal.
    pub max_attempts: u32,
    /// Jitter is taken from `0..jitter_span`; zero switches jitter off.
    pub jitter_span: u64,
}

impl RetryPolicy {
    /// A policy is usable when its intervals are positive and ordered and its
    /// growth factor does not shrink them.
    pub open spec fn wf(&self) -> bool {
        &&& 1 <= self.base_interval
        &&& self.base_interval <= self.max_interval
        &&& 1 <= self.multiplier
    }

    /// The interval before jitter: the base interval multiplied up once per
    /// attempt after the first, capped at the maximum on every step.
    pub open spec fn geometric(&self, attempts: nat) -> nat
        decreases attempts,
    {
        if attempts <= 1 {
            self.base_interval as nat
        } else {
            let grown = self.geometric((attempts - 1) as nat) * (self.multiplier as nat);
            if grown < self.max_interval {
                grown
            } else {
                self.max_interval as nat
            }
        }
    }

    /// The jitter for a given attempt count: a fixed scrambling of the count,
    /// reduced into the jitter window.
    pub open spec fn jitter(&self, attempts: nat) -> nat {
        if self.jitter_span == 0 {
            0
        } else {
            (attempts * (JITTER_STRIDE as nat)) % (self.jitter_span as nat)
        }
    }

    /// The interval to wait after a failure of a record with `attempts`
    /// attempts on its count.
    pub open spec fn interval(&self, attempts: nat) -> nat {
        let shifted = self.geometric(attempts) + self.jitter(attempts);
        if shifted < self.max_interval {
            shifted
        } else {
            self.max_interval as nat
        }
    }

    /// The time before which the next attempt must not start, given the time
    /// of the failure and the previous due time. Saturates at the end of time.
    pub open spec fn next_due(&self, now: u64, due: u64, attempts: nat) -> nat {
        let from = if now < due { due } else { now };
        let at: nat = (from + self.interval(attempts)) as nat;
        if at < u64::MAX {
            at
        } else {
            u64::MAX as nat
        }
    }

    /// The geometric interval never shrinks and stays within the bounds.
    pub proof fn lemma_geometric_bounds(&self, attempts: nat)
        requires
            self.wf(),
        ensures
            self.base_interval <= self.geometric(attempts) <= self.max_interval,
            self.geometric(attempts) <= self.geometric(attempts + 1),
        decreases attempts,
    {
        if attempts > 1 {
            self.lemma_geometric_bounds((attempts - 1) as nat);
            let prev = self.geometric((attempts - 1) as nat);
            assert(prev * (self.multiplier as nat) >= prev) by (nonlinear_arith)
                requires
                    self.multiplier >= 1,
            ;
        }
        let cur = self.geometric(attempts);
        assert(cur * (self.multiplier as nat) >= cur) by (nonlinear_arith)
            requires
                self.multiplier >= 1,
        ;
    }

    /// Once the geometric interval has reached the maximum it stays there.
    pub proof fn lemma_geometric_saturates(&self, reached: nat, later: nat)
        requires
            self.wf(),
            1 <= reached <= later,
            self.geometric(reached) == self.max_interval,
        ensures
            self.geometric(later) == self.max_interval,
        decreases later - reached,
    {
        if reached < later {
            self.lemma_geometric_bounds(reached);
            self.lemma_geometric_bounds(reached + 1);
            self.lemma_geometric_saturates(reached + 1, later);
        }
    }

    /// With a growth factor of one every geometric interval is the base interval.
    pub proof fn lemma_geometric_flat(&self, attempts: nat)
        requires
            self.wf(),
            self.multiplier == 1,
        ensures
            self.geometric(attempts) == self.base_interval,
        decreases attempts,
    {
        if attempts > 1 {
            self.lemma_geometric_flat((attempts - 1) as nat);
        }
    }

    /// Every retry interval is at least one time unit and at most the
    /// configured maximum.
    pub proof fn lemma_interval_bounded(&self, attempts: nat)
        requires
            self.wf(),
        ensures
            1 <= self.interval(attempts) <= self.max_interval,
    {
        self.lemma_geometric_bounds(attempts);
    }

    /// A rescheduled due time lies strictly after the previous one, and no
    /// earlier than the time of the failure, unless the previous due time
    /// already is the end of time.
    pub proof fn lemma_next_due_later(&self, now: u64, due: u64, attempts: nat)
        requires
            self.wf(),
            due < u64::MAX,
        ensures
            self.next_due(now, due, attempts) > due,
            self.next_due(now, due, attempts) >= now,
            self.next_due(now, due, attempts) <= u64::MAX,
    {
        self.lemma_interval_bounded(attempts);
    }

    /// The documented defaults as a value.
    pub open spec fn defaults() -> RetryPolicy {
        RetryPolicy {
            base_interval: DEFAULT_BASE_INTERVAL,
            multiplier: DEFAULT_MULTIPLIER,
            max_interval: DEFAULT_MAX_INTERVAL,
            max_attempts: DEFAULT_MAX_ATTEMPTS,
            jitter_span: DEFAULT_JITTER_SPAN,
        }
    }

    /// The policy with the documented defaults.
    pub fn standard() -> (policy: Self)
        ensures
            policy.wf(),
            policy == Self::defaults(),
    {
        RetryPolicy {
            base_interval: DEFAULT_BASE_INTERVAL,
            multiplier: DEFAULT_MULTIPLIER,
            max_interval: DEFAULT_MAX_INTERVAL,
            max_attempts: DEFAULT_MAX_ATTEMPTS,
            jitter_span: DEFAULT_JITTER_SPAN,
        }
    }

    /// Whether the policy can be used to schedule retries.
    pub fn is_valid(&self) -> (ok: bool)
        ensures
            ok == self.wf(),
    {
        1 <= self.base_interval && self.base_interval <= self.max_interval && 1 <= self.multiplier
    }

    /// Computes the geometric part of the interval.
    pub fn geometric_interval(&self, attempts: u32) -> (raw: u64)
        requires
            self.wf(),
        ensures
            raw == self.geometric(attempts as nat),
    {
        let mut cur: u64 = self.base_interval;
        if self.multiplier == 1 || attempts <= 1 {
            proof {
                if self.multiplier == 1 {
                    self.lemma_geometric_flat(attempts as nat);
                }
            }
            return cur;
        }
        let mut done: u32 = 1;
        while done < attempts && cur < self.max_interval
            invariant
                self.wf(),
                2 <= self.multiplier,
                1 <= done <= attempts,
                cur == self.geometric(done as nat),
            decreases attempts - done,
        {
            let grown: Option<u64> = cur.checked_mul(self.multiplier);
            proof {
                self.lemma_geometric_bounds(done as nat);
            }
            cur = match grown {
                Some(g) => if g < self.max_interval {
                    g
                } else {
                    self.max_interval
                },
                None => self.max_interval,
            };
            done = done + 1;
        }
        proof {
            if done < attempts {
                self.lemma_geometric_bounds(done as nat);
                self.lemma_geometric_saturates(done as nat, attempts as nat);
            }
        }
        cur
    }

    /// Computes the jitter for an attempt count.
    pub fn jitter_for(&self, attempts: u32) -> (shift: u64)
        ensures
            shift == self.jitter(attempts as nat),
    {
        if self.jitter_span == 0 {
            0
        } else {
            assert((attempts as nat) * (JITTER_STRIDE as nat) <= u64::MAX) by (nonlinear_arith)
                requires
                    attempts <= u32::MAX,
                    JITTER_STRIDE == 2_654_435_761,
            ;
            let wide: u64 = attempts as u64;
            (wide * JITTER_STRIDE) % self.jitter_span
        }
    }

    /// Computes the interval to wait after a failure of a record that has
    /// `attempts` attempts on its count.
    pub fn backoff(&self, attempts: u32) -> (wait: u64)
        requires
            self.wf(),
        ensures
            wait == self.interval(attempts as nat),
            1 <= wait <= self.max_interval,
    {
        let raw: u64 = self.geometric_interval(attempts);
        let shift: u64 = self.jitter_for(attempts);
        proof {
            self.lemma_interval_bounded(attempts as nat);
        }
        match raw.checked_add(shift) {
            Some(sum) => if sum < self.max_interval {
                sum
            } else {
                self.max_interval
            },
            None => self.max_interval,
        }
    }

    /// Computes the due time of the next attempt after a failure at `now` of a
    /// record that was due at `due`.
    pub fn reschedule(&self, now: u64, due: u64, attempts: u32) -> (at: u64)
        requires
            self.wf(),
        ensures
            at == self.next_due(now, due, attempts as nat),
            due < u64::MAX ==> at > due,
            at >= now,
    {
        let from: u64 = if now < due {
            due
        } else {
            now
        };
        let wait: u64 = self.backoff(attempts);
        from.saturating_add(wait)
    }
}

} // verus!
