//! The running measurements kept for one peer: mean latency, the weighted
//! balance of satisfactory and unsatisfactory interactions, bytes transferred,
//! ping answers and hop count.
use vstd::prelude::*;

verus! {

/// The largest span a `Duration` can hold, in nanoseconds: `u64::MAX`
/// seconds and 999 999 999 nanoseconds.
pub const MAX_DURATION_NANOS: u128 = 18_446_744_073_709_551_615_999_999_999u128;

pub const NANOS_PER_MILLI: u128 = 1_000_000u128;

/// A span of time, counted in nanoseconds.
#[derive(Clone, Copy, Debug, PartialEq, Eq, Structural)]
pub struct Duration {
    pub nanos: u128,
}

impl Duration {
    pub open spec fn wf(self) -> bool {
        self.nanos <= MAX_DURATION_NANOS
    }

    pub fn from_millis(millis: u64) -> (d: Duration)
        ensures
            d.nanos == millis * NANOS_PER_MILLI,
            d.wf(),
    {
        Duration { nanos: (millis as u128) * NANOS_PER_MILLI }
    }

    pub fn from_nanos(nanos: u128) -> (d: Duration)
        requires
            nanos <= MAX_DURATION_NANOS,
        ensures
            d.nanos == nanos,
    {
        Duration { nanos }
    }

    /// The number of whole milliseconds in the span.
    pub fn as_millis(&self) -> (m: u128)
        ensures
            m == self.nanos / NANOS_PER_MILLI,
    {
        self.nanos / NANOS_PER_MILLI
    }

    pub fn as_nanos(&self) -> (n: u128)
        ensures
            n == self.nanos,
    {
        self.nanos
    }
}

/// How much an interaction counts towards a peer's interaction balance.
#[derive(Clone, Copy, Debug, PartialEq, Eq, Structural)]
pub enum Weight {
    Weak,
    Strong,
    VeryStrong,
    Provable,
}

pub open spec fn weight_value(weight: Weight) -> int {
    match weight {
        Weight::Weak => 1,
        Weight::Strong => 5,
        Weight::VeryStrong => 10,
        Weight::Provable => 20,
    }
}

/// The mean of the non-zero latencies reported for a peer.
#[derive(Clone, Copy, Debug, PartialEq, Eq, Structural)]
pub struct Latency {
    pub sum: Duration,
    pub count: u32,
}

/// The mean latency of a running sum and count; `None` before any sample.
pub open spec fn latency_mean(sum: Duration, count: u32) -> Option<Duration> {
    if count > 0 {
        Some(Duration { nanos: (sum.nanos as int / count as int) as u128 })
    } else {
        None
    }
}

impl Latency {
    pub open spec fn value(self) -> Option<Duration> {
        latency_mean(self.sum, self.count)
    }

    /// Whether `latency` can be registered: spans under a millisecond are
    /// ignored, and otherwise neither the sum nor the count may overflow.
    pub open spec fn can_register(self, latency: Duration) -> bool {
        latency.nanos / NANOS_PER_MILLI > 0 ==> self.sum.nanos + latency.nanos
            <= MAX_DURATION_NANOS && self.count < u32::MAX
    }

    pub fn new() -> (l: Latency)
        ensures
            l.sum.nanos == 0,
            l.count == 0,
            l.value() is None,
    {
        Latency { sum: Duration { nanos: 0 }, count: 0 }
    }

    /// Adds a sample (ignored when under a millisecond) and returns the mean
    /// before and after.
    pub fn register_latency(&mut self, latency: Duration) -> (r: (Option<Duration>, Option<Duration>))
        requires
            old(self).can_register(latency),
        ensures
            latency.nanos / NANOS_PER_MILLI > 0 ==> final(self).sum.nanos == old(self).sum.nanos
                + latency.nanos && final(self).count == old(self).count + 1,
            latency.nanos / NANOS_PER_MILLI == 0 ==> *final(self) == *old(self),
            r == (old(self).value(), final(self).value()),
    {
        let old_value = self.get();
        if latency.as_millis() > 0 {
            self.sum = Duration { nanos: self.sum.nanos + latency.nanos };
            self.count = self.count + 1;
        }
        let new_value = self.get();
        (old_value, new_value)
    }

    pub fn get(&self) -> (r: Option<Duration>)
        ensures
            r == self.value(),
    {
        if self.count > 0 {
            Some(Duration { nanos: self.sum.nanos / (self.count as u128) })
        } else {
            None
        }
    }
}

/// The weighted balance of satisfactory minus unsatisfactory interactions.
#[derive(Clone, Copy, Debug, PartialEq, Eq, Structural)]
pub struct Interactions {
    pub sum: Option<i64>,
}

/// The balance after one more interaction.
pub open spec fn interactions_after(sum: Option<i64>, sat: bool, weight: Weight) -> int {
    let base: int = match sum {
        Some(s) => s as int,
        None => 0,
    };
    if sat {
        base + weight_value(weight)
    } else {
        base - weight_value(weight)
    }
}

/// A satisfied interaction raises the balance, and an unsatisfied one
/// lowers it, by its weight: 1 for a weak one, 5 for a strong one, 10 for a
/// very strong one and 20 for a provable one; a peer with no balance yet
/// starts from zero.
pub proof fn law_interaction_weights(sum: Option<i64>, sat: bool, weight: Weight)
    ensures
        interactions_after(sum, sat, weight) - (match sum {
            Some(s) => s as int,
            None => 0,
        }) == (if sat { 1int } else { -1int }) * (match weight {
            Weight::Weak => 1int,
            Weight::Strong => 5int,
            Weight::VeryStrong => 10int,
            Weight::Provable => 20int,
        }),
{
}

/// A satisfied report followed by an unsatisfied one of the same weight
/// restores the balance (a peer with none before holds zero after).
pub proof fn law_sat_then_unsat_cancel(sum: Option<i64>, weight: Weight)
    requires
        i64::MIN <= interactions_after(sum, true, weight) <= i64::MAX,
    ensures
        interactions_after(Some(interactions_after(sum, true, weight) as i64), false, weight) == (match sum {
            Some(s) => s as int,
            None => 0,
        }),
{
}

impl Interactions {
    pub open spec fn value(self) -> Option<i64> {
        self.sum
    }

    pub open spec fn can_register(self, sat: bool, weight: Weight) -> bool {
        i64::MIN <= interactions_after(self.sum, sat, weight) <= i64::MAX
    }

    pub fn new() -> (i: Interactions)
        ensures
            i.sum is None,
    {
        Interactions { sum: None }
    }

    /// Adds (when `sat`) or subtracts the weight of an interaction and returns
    /// the balance before and after.
    pub fn register_interaction(&mut self, sat: bool, weight: Weight) -> (r: (Option<i64>, Option<i64>))
        requires
            old(self).can_register(sat, weight),
        ensures
            final(self).sum == Some(interactions_after(old(self).sum, sat, weight) as i64),
            r == (old(self).value(), final(self).value()),
    {
        let old_value = self.get();
        let base: i64 = match self.sum {
            Some(s) => s,
            None => 0,
        };
        if sat {
            self.sum = Some(base + Interactions::get_weight(weight));
        } else {
            self.sum = Some(base - Interactions::get_weight(weight));
        }
        let new_value = self.get();
        (old_value, new_value)
    }

    pub fn get(&self) -> (r: Option<i64>)
        ensures
            r == self.value(),
    {
        self.sum
    }

    /// How much an interaction of the given weight counts.
    pub fn get_weight(weight: Weight) -> (w: i64)
        ensures
            w == weight_value(weight),
    {
        match weight {
            Weight::Weak => 1,
            Weight::Strong => 5,
            Weight::VeryStrong => 10,
            Weight::Provable => 20,
        }
    }
}

/// The total number of bytes transferred.
#[derive(Clone, Copy, Debug, PartialEq, Eq, Structural)]
pub struct BytesTransferred {
    pub bytes: u128,
}

impl BytesTransferred {
    pub fn new() -> (b: BytesTransferred)
        ensures
            b.bytes == 0,
    {
        BytesTransferred { bytes: 0 }
    }

    /// Adds `bytes` to the total and returns the total before and after.
    pub fn register_bytes_transferred(&mut self, bytes: u64) -> (r: (u128, u128))
        requires
            old(self).bytes + bytes <= u128::MAX,
        ensures
            final(self).bytes == old(self).bytes + bytes,
            r == (old(self).bytes, final(self).bytes),
    {
        let old_value = self.get();
        self.bytes = self.bytes + bytes as u128;
        let new_value = self.get();
        (old_value, new_value)
    }

    pub fn get(&self) -> (r: u128)
        ensures
            r == self.bytes,
    {
        self.bytes
    }
}

/// The fewest pings that must be recorded for a peer before its uptime is
/// reported.
pub const MIN_NUM_PINGS: usize = 3;

/// How many pings were sent to a peer and how many it answered.
#[derive(Clone, Copy, Debug, PartialEq, Eq, Structural)]
pub struct Pings {
    pub num_pings: usize,
    pub num_pings_responded: usize,
}

impl Pings {
    pub open spec fn wf(self) -> bool {
        self.num_pings_responded <= self.num_pings
    }

    /// The ping counts from which uptime is computed; `None` while fewer than
    /// `MIN_NUM_PINGS` pings were recorded.
    pub open spec fn value(self) -> Option<Pings> {
        if self.num_pings < MIN_NUM_PINGS {
            None
        } else {
            Some(self)
        }
    }

    pub fn new() -> (p: Pings)
        ensures
            p.num_pings == 0,
            p.num_pings_responded == 0,
            p.wf(),
    {
        Pings { num_pings: 0, num_pings_responded: 0 }
    }

    /// Counts one ping, and one answer when `responded`.
    pub fn register_ping(&mut self, responded: bool)
        requires
            old(self).num_pings < usize::MAX,
            old(self).wf(),
        ensures
            final(self).num_pings == old(self).num_pings + 1,
            final(self).num_pings_responded == old(self).num_pings_responded + (if responded {
                1int
            } else {
                0int
            }),
            final(self).wf(),
    {
        self.num_pings = self.num_pings + 1;
        if responded {
            self.num_pings_responded = self.num_pings_responded + 1;
        }
    }

    pub fn get(&self) -> (r: Option<Pings>)
        ensures
            r == self.value(),
    {
        if self.num_pings < MIN_NUM_PINGS {
            None
        } else {
            Some(*self)
        }
    }
}

/// The last hop count reported for a peer.
#[derive(Clone, Copy, Debug, PartialEq, Eq, Structural)]
pub struct Hops {
    pub hops: Option<u8>,
}

impl Hops {
    pub fn new() -> (h: Hops)
        ensures
            h.hops is None,
    {
        Hops { hops: None }
    }

    /// Replaces the hop count and returns the value before and after.
    pub fn register_hops(&mut self, hops: u8) -> (r: (Option<u8>, Option<u8>))
        ensures
            final(self).hops == Some(hops),
            r == (old(self).hops, Some(hops)),
    {
        let old_value = self.get();
        self.hops = Some(hops);
        let new_value = self.get();
        (old_value, new_value)
    }

    pub fn get(&self) -> (r: Option<u8>)
        ensures
            r == self.hops,
    {
        self.hops
    }
}

/// All current measurements of one peer. The bandwidth means are computed by
/// the caller from its own running sums and recorded here as they change.
#[derive(Clone, Copy, Debug, PartialEq, Eq, Structural)]
pub struct MeasurementStore {
    pub latency: Latency,
    pub interactions: Interactions,
    pub inbound_bandwidth: Option<u128>,
    pub outbound_bandwidth: Option<u128>,
    pub bytes_received: BytesTransferred,
    pub bytes_sent: BytesTransferred,
    pub pings: Pings,
    pub hops: Hops,
}

impl MeasurementStore {
    pub open spec fn wf(self) -> bool {
        self.pings.wf()
    }

    /// A store with no measurement.
    pub open spec fn empty() -> MeasurementStore {
        MeasurementStore {
            latency: Latency { sum: Duration { nanos: 0 }, count: 0 },
            interactions: Interactions { sum: None },
            inbound_bandwidth: None,
            outbound_bandwidth: None,
            bytes_received: BytesTransferred { bytes: 0 },
            bytes_sent: BytesTransferred { bytes: 0 },
            pings: Pings { num_pings: 0, num_pings_responded: 0 },
            hops: Hops { hops: None },
        }
    }

    pub fn new() -> (s: MeasurementStore)
        ensures
            s == MeasurementStore::empty(),
            s.wf(),
    {
        MeasurementStore {
            latency: Latency::new(),
            interactions: Interactions::new(),
            inbound_bandwidth: None,
            outbound_bandwidth: None,
            bytes_received: BytesTransferred::new(),
            bytes_sent: BytesTransferred::new(),
            pings: Pings::new(),
            hops: Hops::new(),
        }
    }

    pub fn register_latency(&mut self, latency: Duration) -> (r: (Option<Duration>, Option<Duration>))
        requires
            old(self).latency.can_register(latency),
        ensures
            *final(self) == (MeasurementStore { latency: final(self).latency, ..*old(self) }),
            latency.nanos / NANOS_PER_MILLI > 0 ==> final(self).latency.sum.nanos == old(
                self,
            ).latency.sum.nanos + latency.nanos && final(self).latency.count == old(
                self,
            ).latency.count + 1,
            latency.nanos / NANOS_PER_MILLI == 0 ==> final(self).latency == old(self).latency,
            r == (old(self).latency.value(), final(self).latency.value()),
    {
        self.latency.register_latency(latency)
    }

    pub fn register_interaction(&mut self, sat: bool, weight: Weight) -> (r: (
        Option<i64>,
        Option<i64>,
    ))
        requires
            old(self).interactions.can_register(sat, weight),
        ensures
            *final(self) == (MeasurementStore {
                interactions: Interactions {
                    sum: Some(interactions_after(old(self).interactions.sum, sat, weight) as i64),
                },
                ..*old(self)
            }),
            r == (old(self).interactions.value(), final(self).interactions.value()),
    {
        self.interactions.register_interaction(sat, weight)
    }

    /// Records a new mean inbound bandwidth; returns the mean before and after.
    pub fn register_inbound_bandwidth(&mut self, bandwidth: u128) -> (r: (Option<u128>, Option<u128>))
        ensures
            *final(self) == (MeasurementStore { inbound_bandwidth: Some(bandwidth), ..*old(self) }),
            r == (old(self).inbound_bandwidth, Some(bandwidth)),
    {
        let old_value = self.inbound_bandwidth;
        self.inbound_bandwidth = Some(bandwidth);
        (old_value, self.inbound_bandwidth)
    }

    /// Records a new mean outbound bandwidth; returns the mean before and after.
    pub fn register_outbound_bandwidth(&mut self, bandwidth: u128) -> (r: (Option<u128>, Option<u128>))
        ensures
            *final(self) == (MeasurementStore { outbound_bandwidth: Some(bandwidth), ..*old(self) }),
            r == (old(self).outbound_bandwidth, Some(bandwidth)),
    {
        let old_value = self.outbound_bandwidth;
        self.outbound_bandwidth = Some(bandwidth);
        (old_value, self.outbound_bandwidth)
    }

    pub fn register_bytes_received(&mut self, bytes: u64) -> (r: (u128, u128))
        requires
            old(self).bytes_received.bytes + bytes <= u128::MAX,
        ensures
            *final(self) == (MeasurementStore {
                bytes_received: BytesTransferred {
                    bytes: (old(self).bytes_received.bytes + bytes) as u128,
                },
                ..*old(self)
            }),
            r == (old(self).bytes_received.bytes, final(self).bytes_received.bytes),
    {
        self.bytes_received.register_bytes_transferred(bytes)
    }

    pub fn register_bytes_sent(&mut self, bytes: u64) -> (r: (u128, u128))
        requires
            old(self).bytes_sent.bytes + bytes <= u128::MAX,
        ensures
            *final(self) == (MeasurementStore {
                bytes_sent: BytesTransferred { bytes: (old(self).bytes_sent.bytes + bytes) as u128 },
                ..*old(self)
            }),
            r == (old(self).bytes_sent.bytes, final(self).bytes_sent.bytes),
    {
        self.bytes_sent.register_bytes_transferred(bytes)
    }

    pub fn register_ping(&mut self, responded: bool)
        requires
            old(self).pings.num_pings < usize::MAX,
            old(self).wf(),
        ensures
            *final(self) == (MeasurementStore {
                pings: Pings {
                    num_pings: (old(self).pings.num_pings + 1) as usize,
                    num_pings_responded: (old(self).pings.num_pings_responded + (if responded {
                        1int
                    } else {
                        0int
                    })) as usize,
                },
                ..*old(self)
            }),
            final(self).wf(),
    {
        self.pings.register_ping(responded);
    }

    pub fn register_hops(&mut self, hops: u8) -> (r: (Option<u8>, Option<u8>))
        ensures
            *final(self) == (MeasurementStore { hops: Hops { hops: Some(hops) }, ..*old(self) }),
            r == (old(self).hops.hops, Some(hops)),
    {
        self.hops.register_hops(hops)
    }
}


/// The measurements reported for a peer. Uptime is carried as the ping
/// counts from which the percentage is computed.
#[derive(Clone, Copy, Debug, PartialEq, Eq, Structural)]
pub struct ReputationMeasurements {
    pub latency: Option<Duration>,
    pub interactions: Option<i64>,
    pub inbound_bandwidth: Option<u128>,
    pub outbound_bandwidth: Option<u128>,
    pub bytes_received: Option<u128>,
    pub bytes_sent: Option<u128>,
    pub uptime: Option<Pings>,
    pub hops: Option<u8>,
}

impl MeasurementStore {
    pub open spec fn measurements(self) -> ReputationMeasurements {
        ReputationMeasurements {
            latency: self.latency.value(),
            interactions: self.interactions.value(),
            inbound_bandwidth: self.inbound_bandwidth,
            outbound_bandwidth: self.outbound_bandwidth,
            bytes_received: Some(self.bytes_received.bytes),
            bytes_sent: Some(self.bytes_sent.bytes),
            uptime: self.pings.value(),
            hops: self.hops.hops,
        }
    }

    /// The measurements a store reports.
    pub fn to_measurements(&self) -> (r: ReputationMeasurements)
        ensures
            r == self.measurements(),
    {
        ReputationMeasurements {
            latency: self.latency.get(),
            interactions: self.interactions.get(),
            inbound_bandwidth: self.inbound_bandwidth,
            outbound_bandwidth: self.outbound_bandwidth,
            bytes_received: Some(self.bytes_received.get()),
            bytes_sent: Some(self.bytes_sent.get()),
            uptime: self.pings.get(),
            hops: self.hops.get(),
        }
    }
}

} // verus!
