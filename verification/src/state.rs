//! Connection statistics and dial bookkeeping reported by the pool.
use vstd::prelude::*;
use std::time::Instant;
use crate::measurements::Duration;
use vstd::arithmetic::power2::{pow2, lemma2_to64, lemma_pow2_unfold, lemma_pow2_strictly_increases};

verus! {

#[verifier::external_type_specification]
#[verifier::external_body]
pub struct ExInstant(Instant);

/// Statistics of one transport connection.
#[derive(Clone, Copy, Debug)]
pub struct Stats {
    pub rtt: Duration,
    pub lost_packets: u64,
    pub sent_packets: u64,
    pub congestion_events: u64,
    pub cwnd: u64,
    pub black_holes_detected: u64,
}

/// A transport connection to a peer, with its request queue and statistics.
#[derive(Clone, Copy, Debug)]
pub struct TransportConnectionInfo {
    pub redundant: bool,
    pub request_queue_cap: usize,
    pub request_queue_max_cap: usize,
    pub stats: Stats,
}

/// How often a peer was dialed, and when last.
#[derive(Debug)]
pub struct DialInfo {
    pub num_tries: u32,
    pub last_try: Instant,
}

impl DialInfo {
    /// A peer dialed for the first time, the dial made at `last_try`.
    pub fn first_dial(last_try: Instant) -> (d: DialInfo)
        ensures
            d.num_tries == 1,
            d.last_try == last_try,
    {
        DialInfo { num_tries: 1, last_try }
    }

    /// The dial info after one more dial, made at `last_try`.
    pub fn dialed_again(&self, last_try: Instant) -> (d: DialInfo)
        requires
            self.num_tries < u32::MAX,
        ensures
            d.num_tries == self.num_tries + 1,
            d.last_try == last_try,
    {
        DialInfo { num_tries: self.num_tries + 1, last_try }
    }

    /// The dial info once a connection proved healthy: no failed tries.
    pub fn reset(&self) -> (d: DialInfo)
        ensures
            d.num_tries == 0,
            d.last_try == self.last_try,
    {
        DialInfo { num_tries: 0, last_try: self.last_try }
    }
}

/// The delay before redialing a peer whose connection closed soon after it
/// was dialed, in seconds: the shortest delay (ten seconds) doubled for each
/// failed try, capped at the longest (thirty minutes).
pub open spec fn unhealthy_retry_secs(num_tries: u32) -> int {
    let d: int = 10 * (pow2(num_tries as nat) as int);
    if d < 1800 { d } else { 1800 }
}

/// The delay before redialing a peer whose connection closed soon after it
/// was dialed.
pub fn unhealthy_retry_delay(num_tries: u32) -> (d: Duration)
    ensures
        d.nanos == unhealthy_retry_secs(num_tries) * 1_000_000_000,
{
    let mut secs: u64 = 10;
    let mut i: u32 = 0;
    proof {
        lemma2_to64();
    }
    while i < num_tries && secs < 1800
        invariant
            i <= num_tries,
            secs == 10 * pow2(i as nat),
            secs < 3600,
        decreases num_tries - i,
    {
        proof {
            lemma_pow2_unfold((i + 1) as nat);
        }
        secs = secs * 2;
        i = i + 1;
    }
    proof {
        if i < num_tries {
            lemma_pow2_strictly_increases(i as nat, num_tries as nat);
        }
    }
    let capped: u64 = if secs < 1800 { secs } else { 1800 };
    Duration { nanos: (capped as u128) * 1_000_000_000u128 }
}

} // verus!
