//! One upstream endpoint: health, head tracking, latency and rate limiting.

use vstd::prelude::*;
use crate::block::SavedBlock;

verus! {

/// How many consecutive request failures turn a connection Unhealthy.
pub const MAX_CONSECUTIVE_FAILURES: u64 = 3;

/// Transport used to reach the upstream.
#[derive(Clone, Copy, PartialEq, Eq, Structural, Debug)]
pub enum Transport {
    Http,
    Ws,
}

/// Health of an upstream connection.
#[derive(Clone, Copy, PartialEq, Eq, Structural, Debug)]
pub enum Health {
    Initializing,
    Healthy,
    Lagging,
    Unhealthy,
}

/// Local token bucket enforcing a hard rate limit, in whole tokens per
/// second. Tokens are tracked in thousandths so that refill stays exact at
/// sub-second granularity; `now` is a monotonic clock in milliseconds.
#[derive(Clone, Copy, PartialEq, Eq, Structural, Debug)]
pub struct TokenBucket {
    /// Greatest number of stored thousandth-tokens.
    pub capacity_milli: u64,
    /// Tokens added per millisecond, in thousandths: equal to the
    /// requests-per-second limit.
    pub rate_per_sec: u64,
    /// Stored thousandth-tokens.
    pub tokens_milli: u64,
    /// Clock reading of the last refill, in milliseconds.
    pub last_refill_ms: u64,
}

impl TokenBucket {
    pub open spec fn wf(self) -> bool {
        &&& self.tokens_milli <= self.capacity_milli
        &&& 1 <= self.rate_per_sec <= 0xffff_ffff
        &&& self.capacity_milli <= self.rate_per_sec * 1000
    }

    /// A full bucket allowing `rate` requests per second of burst.
    pub fn new(rate: u64, now_ms: u64) -> (r: TokenBucket)
        requires
            1 <= rate <= 0xffff_ffff,
        ensures
            r.wf(),
            r.capacity_milli == rate * 1000,
            r.tokens_milli == r.capacity_milli,
            r.rate_per_sec == rate,
            r.last_refill_ms == now_ms,
    {
        proof {
            assert(rate * 1000 <= 0xffff_ffff * 1000) by (nonlinear_arith)
                requires
                    rate <= 0xffff_ffff,
            ;
        }
        TokenBucket {
            capacity_milli: rate * 1000,
            rate_per_sec: rate,
            tokens_milli: rate * 1000,
            last_refill_ms: now_ms,
        }
    }

    /// Tokens after refilling for `elapsed` milliseconds, capped at capacity.
    pub open spec fn spec_refilled(self, now_ms: u64) -> u64 {
        if now_ms <= self.last_refill_ms {
            self.tokens_milli
        } else {
            let earned = (now_ms - self.last_refill_ms) * self.rate_per_sec;
            if self.tokens_milli + earned >= self.capacity_milli {
                self.capacity_milli
            } else {
                (self.tokens_milli + earned) as u64
            }
        }
    }

    /// Takes one request's worth of tokens if available. Returns true iff
    /// the request may proceed; false leaves only the refill applied.
    pub fn try_acquire(&mut self, now_ms: u64) -> (granted: bool)
        requires
            old(self).wf(),
            now_ms <= 0xffff_ffff_ffff,
        ensures
            final(self).wf(),
            final(self).capacity_milli == old(self).capacity_milli,
            final(self).rate_per_sec == old(self).rate_per_sec,
            granted == (old(self).spec_refilled(now_ms) >= 1000),
            granted ==> final(self).tokens_milli == old(self).spec_refilled(now_ms) - 1000,
            !granted ==> final(self).tokens_milli == old(self).spec_refilled(now_ms),
            final(self).last_refill_ms == (if now_ms > old(self).last_refill_ms {
                now_ms
            } else {
                old(self).last_refill_ms
            }),
    {
        if now_ms > self.last_refill_ms {
            let elapsed: u64 = now_ms - self.last_refill_ms;
            if elapsed >= 1000 {
                proof {
                    assert(elapsed * self.rate_per_sec >= 1000 * self.rate_per_sec)
                        by (nonlinear_arith)
                        requires
                            elapsed >= 1000 && self.rate_per_sec >= 1,
                    ;
                }
                self.tokens_milli = self.capacity_milli;
            } else {
                proof {
                    assert(elapsed * self.rate_per_sec <= 1000 * 0xffff_ffff)
                        by (nonlinear_arith)
                        requires
                            elapsed <= 1000 && self.rate_per_sec <= 0xffff_ffff,
                    ;
                }
                let earned: u64 = elapsed * self.rate_per_sec;
                if earned >= self.capacity_milli || self.tokens_milli >= self.capacity_milli
                    - earned {
                    self.tokens_milli = self.capacity_milli;
                } else {
                    self.tokens_milli = self.tokens_milli + earned;
                }
            }
            self.last_refill_ms = now_ms;
        }
        if self.tokens_milli >= 1000 {
            self.tokens_milli = self.tokens_milli - 1000;
            true
        } else {
            false
        }
    }
}

/// One upstream endpoint and everything the router reads of it.
pub struct Connection {
    /// Stable identity.
    pub name: String,
    pub transport: Transport,
    /// How many blocks of history the upstream retains; `None` is an
    /// archive node with full history.
    pub block_data_limit: Option<u64>,
    /// Advisory weight used by consensus.
    pub soft_limit: u64,
    /// Local token bucket, present iff a hard limit is configured.
    pub hard_limit: Option<TokenBucket>,
    /// Quality band; 0 is fastest and most trusted.
    pub tier: u64,
    pub health: Health,
    /// Most recent head this upstream reported.
    pub head: Option<SavedBlock>,
    /// Exponentially weighted recent latency, microseconds.
    pub latency_us: u64,
    /// Requests currently outstanding against this upstream.
    pub in_flight: u64,
    /// Failures since the last success.
    pub consecutive_failures: u64,
}

/// New exponentially weighted latency: seven parts old, one part sample.
pub open spec fn spec_ewma(old_latency: u64, sample: u64) -> u64 {
    ((old_latency * 7 + sample) / 8) as u64
}

impl Connection {
    pub open spec fn wf(self) -> bool {
        &&& self.soft_limit >= 1
        &&& self.soft_limit <= 0xffff_ffff
        &&& self.latency_us <= 0xffff_ffff
        &&& self.hard_limit matches Some(b) ==> b.wf()
    }

    /// Healthy and reporting a head: eligible for consensus.
    pub open spec fn spec_votes(self) -> bool {
        self.health == Health::Healthy && self.head is Some
    }

    pub fn new(name: String, transport: Transport, soft_limit: u64, tier: u64) -> (r: Connection)
        requires
            1 <= soft_limit <= 0xffff_ffff,
        ensures
            r.wf(),
            r.name == name,
            r.transport == transport,
            r.soft_limit == soft_limit,
            r.tier == tier,
            r.health == Health::Initializing,
            r.head is None,
            r.hard_limit is None,
            r.block_data_limit is None,
            r.latency_us == 0,
            r.in_flight == 0,
    {
        Connection {
            name,
            transport,
            block_data_limit: None,
            soft_limit,
            hard_limit: None,
            tier,
            health: Health::Initializing,
            head: None,
            latency_us: 0,
            in_flight: 0,
            consecutive_failures: 0,
        }
    }

    /// Whether this upstream can serve data for the given block: its head
    /// must have reached the block and its retained history must cover it.
    pub open spec fn spec_has_block(self, number: u64) -> bool {
        match self.head {
            Option::None => false,
            Option::Some(h) => {
                &&& number <= h.number
                &&& match self.block_data_limit {
                    Option::None => true,
                    Option::Some(limit) => h.number - number <= limit,
                }
            },
        }
    }

    pub fn has_block(&self, number: u64) -> (r: bool)
        ensures
            r == self.spec_has_block(number),
    {
        match &self.head {
            Option::None => false,
            Option::Some(h) => {
                if number > h.number {
                    false
                } else {
                    match &self.block_data_limit {
                        Option::None => true,
                        Option::Some(limit) => h.number - number <= *limit,
                    }
                }
            },
        }
    }

    /// A healthy head observation: any state recovers to Healthy and the
    /// head is replaced.
    pub fn on_head_observation(&mut self, b: SavedBlock)
        requires
            old(self).wf(),
        ensures
            final(self).wf(),
            final(self).health == Health::Healthy,
            final(self).head == Some(b),
            final(self).consecutive_failures == 0,
            *final(self) == (Connection {
                health: Health::Healthy,
                head: Some(b),
                consecutive_failures: 0,
                ..*old(self)
            }),
    {
        self.health = Health::Healthy;
        self.head = Some(b);
        self.consecutive_failures = 0;
    }

    /// A request failure. After `MAX_CONSECUTIVE_FAILURES` in a row the
    /// connection turns Unhealthy.
    pub fn on_request_failure(&mut self)
        requires
            old(self).wf(),
            old(self).consecutive_failures < MAX_CONSECUTIVE_FAILURES,
        ensures
            final(self).wf(),
            final(self).consecutive_failures == old(self).consecutive_failures + 1,
            final(self).consecutive_failures == MAX_CONSECUTIVE_FAILURES ==> final(self).health
                == Health::Unhealthy,
            final(self).consecutive_failures < MAX_CONSECUTIVE_FAILURES ==> final(self).health
                == old(self).health,
            *final(self) == (Connection {
                health: final(self).health,
                consecutive_failures: final(self).consecutive_failures,
                ..*old(self)
            }),
    {
        self.consecutive_failures = self.consecutive_failures + 1;
        if self.consecutive_failures >= MAX_CONSECUTIVE_FAILURES {
            self.health = Health::Unhealthy;
        }
    }

    /// A request success: failures reset and the recent latency moves
    /// toward the sample.
    pub fn on_request_success(&mut self, latency_sample_us: u64)
        requires
            old(self).wf(),
            latency_sample_us <= 0xffff_ffff,
        ensures
            final(self).wf(),
            final(self).consecutive_failures == 0,
            final(self).latency_us == spec_ewma(old(self).latency_us, latency_sample_us),
            *final(self) == (Connection {
                consecutive_failures: 0,
                latency_us: final(self).latency_us,
                ..*old(self)
            }),
    {
        self.consecutive_failures = 0;
        self.latency_us = (self.latency_us * 7 + latency_sample_us) / 8;
    }

    /// Whether a head observed at `received_at` trails by more than the
    /// allowed blocks or the allowed seconds of a monotonic clock now at
    /// `now_ms`.
    pub open spec fn spec_lagging(
        head: Option<SavedBlock>,
        consensus_head_number: u64,
        max_lag_blocks: u64,
        now_ms: u64,
        max_lag_seconds: u64,
    ) -> bool {
        match head {
            Option::None => true,
            Option::Some(h) => h.number + max_lag_blocks < consensus_head_number
                || h.received_at + max_lag_seconds * 1000 < now_ms,
        }
    }

    /// Lag check against the consensus head: a Healthy connection whose
    /// head trails by more than `max_lag_blocks` blocks, or whose head is
    /// older than `max_lag_seconds`, becomes Lagging. Other states are
    /// left for their own transitions.
    pub fn check_lag(
        &mut self,
        consensus_head_number: u64,
        max_lag_blocks: u64,
        now_ms: u64,
        max_lag_seconds: u64,
    )
        requires
            old(self).wf(),
            max_lag_seconds <= 0xffff_ffff,
        ensures
            final(self).wf(),
            *final(self) == (Connection { health: final(self).health, ..*old(self) }),
            final(self).health == (if old(self).health == Health::Healthy && Self::spec_lagging(
                old(self).head,
                consensus_head_number,
                max_lag_blocks,
                now_ms,
                max_lag_seconds,
            ) {
                Health::Lagging
            } else {
                old(self).health
            }),
    {
        if self.health == Health::Healthy {
            let lagging = match &self.head {
                Option::None => true,
                Option::Some(h) => {
                    let behind_blocks = if consensus_head_number > max_lag_blocks {
                        h.number < consensus_head_number - max_lag_blocks
                    } else {
                        false
                    };
                    proof {
                        assert(max_lag_seconds * 1000 <= 0xffff_ffff * 1000) by (nonlinear_arith)
                            requires
                                max_lag_seconds <= 0xffff_ffff,
                        ;
                    }
                    let age_limit: u64 = max_lag_seconds * 1000;
                    let behind_time = if now_ms > age_limit {
                        h.received_at < now_ms - age_limit
                    } else {
                        false
                    };
                    behind_blocks || behind_time
                },
            };
            if lagging {
                self.health = Health::Lagging;
            }
        }
    }
}

/// Reconnect backoff before a given retry attempt, in milliseconds:
/// doubling from one second up to the sixty-second cap. The caller adds
/// its jitter on top.
pub open spec fn spec_backoff_ms(attempt: u64) -> u64 {
    if attempt >= 6 {
        60000
    } else {
        (1000u64 << attempt) as u64
    }
}

pub fn reconnect_backoff_ms(attempt: u64) -> (r: u64)
    ensures
        r == spec_backoff_ms(attempt),
        1000 <= r <= 60000,
{
    if attempt >= 6 {
        60000
    } else {
        proof {
            assert(attempt < 6 ==> 1000 <= (1000u64 << attempt) <= 32000) by (bit_vector);
        }
        1000u64 << attempt
    }
}

} // verus!
