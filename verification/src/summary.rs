//! Summary statistics over the current measurements of all peers: for each
//! kind of measurement, how many peers currently hold each value. The
//! smallest and largest value held are the bounds used to normalise a peer's
//! measurement.
use vstd::prelude::*;
use std::collections::BTreeMap;
use vstd::laws_cmp::obeys_cmp;
use vstd::multiset::Multiset;
use vstd::std_specs::cmp::OrdSpec;
use crate::measurements::{Duration, MeasurementStore};

verus! {

broadcast use vstd::std_specs::btree::group_btree_axioms;

/// The number of peers holding `k`, read from a count map.
pub open spec fn count_of<K>(m: Map<K, u32>, k: K) -> nat {
    if m.contains_key(k) {
        m[k] as nat
    } else {
        0
    }
}

/// Every value in a count map is held by at least one peer.
pub open spec fn counts_positive<K>(m: Map<K, u32>) -> bool {
    forall|k: K| m.contains_key(k) ==> #[trigger] m[k] >= 1
}

/// `m` counts exactly the values of the multiset `ms`.
pub open spec fn counts_match<K>(m: Map<K, u32>, ms: Multiset<K>) -> bool {
    &&& counts_positive(m)
    &&& forall|k: K| #[trigger] count_of(m, k) == ms.count(k)
}

/// The smallest key of a non-empty count map.
pub open spec fn is_min_key<K: Ord>(m: Map<K, u32>, k: K) -> bool {
    &&& m.contains_key(k)
    &&& forall|j: K| #[trigger] m.contains_key(j) ==> !(k.cmp_spec(&j) is Greater)
}

/// The largest key of a non-empty count map.
pub open spec fn is_max_key<K: Ord>(m: Map<K, u32>, k: K) -> bool {
    &&& m.contains_key(k)
    &&& forall|j: K| #[trigger] m.contains_key(j) ==> !(k.cmp_spec(&j) is Less)
}

/// `BTreeMap::first_key_value`: the entry with the smallest key, `None` when
/// the map is empty. Only the key is handed out.
#[verifier::external_body]
fn first_key<K: Ord + Copy>(m: &BTreeMap<K, u32>) -> (r: Option<K>)
    ensures
        obeys_cmp::<K>() ==> (r is None <==> m@.dom().is_empty()),
        obeys_cmp::<K>() ==> (r matches Some(k) ==> is_min_key(m@, k)),
{
    m.first_key_value().map(|(k, _)| *k)
}

/// `BTreeMap::last_key_value`: the entry with the largest key, `None` when
/// the map is empty. Only the key is handed out.
#[verifier::external_body]
fn last_key<K: Ord + Copy>(m: &BTreeMap<K, u32>) -> (r: Option<K>)
    ensures
        obeys_cmp::<K>() ==> (r is None <==> m@.dom().is_empty()),
        obeys_cmp::<K>() ==> (r matches Some(k) ==> is_max_key(m@, k)),
{
    m.last_key_value().map(|(k, _)| *k)
}

/// `m` with one more peer holding `k`.
pub open spec fn add_one<K>(m: Map<K, u32>, k: K) -> Map<K, u32> {
    m.insert(k, (count_of(m, k) + 1) as u32)
}

/// `m` with one peer fewer holding `k`; unchanged when no peer holds it.
pub open spec fn remove_one<K>(m: Map<K, u32>, k: K) -> Map<K, u32> {
    if m.contains_key(k) {
        if m[k] == 1 {
            m.remove(k)
        } else {
            m.insert(k, (m[k] - 1) as u32)
        }
    } else {
        m
    }
}

pub open spec fn add_opt<K>(m: Map<K, u32>, v: Option<K>) -> Map<K, u32> {
    match v {
        Some(k) => add_one(m, k),
        None => m,
    }
}

pub open spec fn remove_opt<K>(m: Map<K, u32>, v: Option<K>) -> Map<K, u32> {
    match v {
        Some(k) => remove_one(m, k),
        None => m,
    }
}

pub open spec fn opt_key(d: Option<Duration>) -> Option<u128> {
    match d {
        Some(d) => Some(d.nanos),
        None => None,
    }
}

pub open spec fn can_add<K>(m: Map<K, u32>, v: Option<K>) -> bool {
    v matches Some(k) ==> count_of(m, k) < u32::MAX
}

pub proof fn lemma_remove_one_count<K>(m: Map<K, u32>, v: K, k: K)
    requires
        counts_positive(m),
    ensures
        count_of(remove_one(m, v), k) == (if k == v && count_of(m, v) > 0 {
            count_of(m, k) - 1
        } else {
            count_of(m, k) as int
        }),
        counts_positive(remove_one(m, v)),
{
}

pub proof fn lemma_add_one_count<K>(m: Map<K, u32>, v: K, k: K)
    requires
        counts_positive(m),
        count_of(m, v) < u32::MAX,
    ensures
        count_of(add_one(m, v), k) == count_of(m, k) + (if k == v {
            1int
        } else {
            0int
        }),
        counts_positive(add_one(m, v)),
{
}

/// Counting a value and then uncounting it leaves the counts as they were.
pub proof fn law_add_then_remove<K>(m: Map<K, u32>, v: K)
    requires
        counts_positive(m),
        count_of(m, v) < u32::MAX,
    ensures
        remove_one(add_one(m, v), v) == m,
{
    assert(remove_one(add_one(m, v), v) =~= m);
}

fn count_add<K: Ord + Copy>(m: &mut BTreeMap<K, u32>, v: K)
    requires
        obeys_cmp::<K>(),
        count_of(old(m)@, v) < u32::MAX,
    ensures
        final(m)@ == add_one(old(m)@, v),
{
    let c: u32 = match m.get(&v) {
        Some(c) => *c,
        None => 0,
    };
    m.insert(v, c + 1);
}

fn count_remove<K: Ord + Copy>(m: &mut BTreeMap<K, u32>, v: K)
    requires
        obeys_cmp::<K>(),
        counts_positive(old(m)@),
    ensures
        final(m)@ == remove_one(old(m)@, v),
{
    let c: Option<u32> = match m.get(&v) {
        Some(c) => Some(*c),
        None => None,
    };
    if let Some(c) = c {
        if c == 1 {
            m.remove(&v);
        } else {
            m.insert(v, c - 1);
        }
    }
}

/// For each kind of measurement, how many peers currently hold each value.
/// Latencies are keyed by their length in nanoseconds.
#[derive(Debug)]
pub struct SummaryStatistics {
    pub latency: BTreeMap<u128, u32>,
    pub interactions: BTreeMap<i64, u32>,
    pub inbound_bandwidth: BTreeMap<u128, u32>,
    pub outbound_bandwidth: BTreeMap<u128, u32>,
    pub bytes_received: BTreeMap<u128, u32>,
    pub bytes_sent: BTreeMap<u128, u32>,
    pub hops: BTreeMap<u8, u32>,
}

/// The smallest value of a count map over integers, `None` when empty.
pub open spec fn min_of<K: Ord>(m: Map<K, u32>, r: Option<K>) -> bool {
    &&& (r is None <==> m.dom().is_empty())
    &&& (r matches Some(k) ==> is_min_key(m, k))
}

/// The largest value of a count map over integers, `None` when empty.
pub open spec fn max_of<K: Ord>(m: Map<K, u32>, r: Option<K>) -> bool {
    &&& (r is None <==> m.dom().is_empty())
    &&& (r matches Some(k) ==> is_max_key(m, k))
}

pub open spec fn dur_opt(n: Option<u128>) -> Option<Duration> {
    match n {
        Some(n) => Some(Duration { nanos: n }),
        None => None,
    }
}

impl SummaryStatistics {
    pub open spec fn wf(&self) -> bool {
        &&& counts_positive(self.latency@)
        &&& counts_positive(self.interactions@)
        &&& counts_positive(self.inbound_bandwidth@)
        &&& counts_positive(self.outbound_bandwidth@)
        &&& counts_positive(self.bytes_received@)
        &&& counts_positive(self.bytes_sent@)
        &&& counts_positive(self.hops@)
    }

    pub open spec fn is_empty(&self) -> bool {
        &&& self.latency@ == Map::<u128, u32>::empty()
        &&& self.interactions@ == Map::<i64, u32>::empty()
        &&& self.inbound_bandwidth@ == Map::<u128, u32>::empty()
        &&& self.outbound_bandwidth@ == Map::<u128, u32>::empty()
        &&& self.bytes_received@ == Map::<u128, u32>::empty()
        &&& self.bytes_sent@ == Map::<u128, u32>::empty()
        &&& self.hops@ == Map::<u8, u32>::empty()
    }

    pub fn new() -> (s: SummaryStatistics)
        ensures
            s.is_empty(),
            s.wf(),
    {
        SummaryStatistics {
            latency: BTreeMap::new(),
            interactions: BTreeMap::new(),
            inbound_bandwidth: BTreeMap::new(),
            outbound_bandwidth: BTreeMap::new(),
            bytes_received: BTreeMap::new(),
            bytes_sent: BTreeMap::new(),
            hops: BTreeMap::new(),
        }
    }

    pub fn min_latency(&self) -> (r: Option<Duration>)
        ensures
            min_of(self.latency@, opt_key(r)),
    {
        match first_key(&self.latency) {
            Some(n) => Some(Duration { nanos: n }),
            None => None,
        }
    }

    pub fn max_latency(&self) -> (r: Option<Duration>)
        ensures
            max_of(self.latency@, opt_key(r)),
    {
        match last_key(&self.latency) {
            Some(n) => Some(Duration { nanos: n }),
            None => None,
        }
    }

    pub fn min_interactions(&self) -> (r: Option<i64>)
        ensures
            min_of(self.interactions@, r),
    {
        first_key(&self.interactions)
    }

    pub fn max_interactions(&self) -> (r: Option<i64>)
        ensures
            max_of(self.interactions@, r),
    {
        last_key(&self.interactions)
    }

    pub fn min_inbound_bandwidth(&self) -> (r: Option<u128>)
        ensures
            min_of(self.inbound_bandwidth@, r),
    {
        first_key(&self.inbound_bandwidth)
    }

    pub fn max_inbound_bandwidth(&self) -> (r: Option<u128>)
        ensures
            max_of(self.inbound_bandwidth@, r),
    {
        last_key(&self.inbound_bandwidth)
    }

    pub fn min_outbound_bandwidth(&self) -> (r: Option<u128>)
        ensures
            min_of(self.outbound_bandwidth@, r),
    {
        first_key(&self.outbound_bandwidth)
    }

    pub fn max_outbound_bandwidth(&self) -> (r: Option<u128>)
        ensures
            max_of(self.outbound_bandwidth@, r),
    {
        last_key(&self.outbound_bandwidth)
    }

    pub fn min_bytes_received(&self) -> (r: Option<u128>)
        ensures
            min_of(self.bytes_received@, r),
    {
        first_key(&self.bytes_received)
    }

    pub fn max_bytes_received(&self) -> (r: Option<u128>)
        ensures
            max_of(self.bytes_received@, r),
    {
        last_key(&self.bytes_received)
    }

    pub fn min_bytes_sent(&self) -> (r: Option<u128>)
        ensures
            min_of(self.bytes_sent@, r),
    {
        first_key(&self.bytes_sent)
    }

    pub fn max_bytes_sent(&self) -> (r: Option<u128>)
        ensures
            max_of(self.bytes_sent@, r),
    {
        last_key(&self.bytes_sent)
    }

    pub fn min_hops(&self) -> (r: Option<u8>)
        ensures
            min_of(self.hops@, r),
    {
        first_key(&self.hops)
    }

    pub fn max_hops(&self) -> (r: Option<u8>)
        ensures
            max_of(self.hops@, r),
    {
        last_key(&self.hops)
    }

    /// Counts one more peer holding `value`.
    pub fn add_latency(&mut self, value: Option<Duration>)
        requires
            old(self).wf(),
            can_add(old(self).latency@, opt_key(value)),
        ensures
            final(self).wf(),
            final(self).latency@ == add_opt(old(self).latency@, opt_key(value)),
            final(self).interactions@ == old(self).interactions@,
            final(self).inbound_bandwidth@ == old(self).inbound_bandwidth@,
            final(self).outbound_bandwidth@ == old(self).outbound_bandwidth@,
            final(self).bytes_received@ == old(self).bytes_received@,
            final(self).bytes_sent@ == old(self).bytes_sent@,
            final(self).hops@ == old(self).hops@,
    {
        if let Some(d) = value {
            count_add(&mut self.latency, d.nanos);
        }
    }

    /// Counts one peer fewer holding `value`.
    pub fn remove_latency(&mut self, value: Option<Duration>)
        requires
            old(self).wf(),
        ensures
            final(self).wf(),
            final(self).latency@ == remove_opt(old(self).latency@, opt_key(value)),
            final(self).interactions@ == old(self).interactions@,
            final(self).inbound_bandwidth@ == old(self).inbound_bandwidth@,
            final(self).outbound_bandwidth@ == old(self).outbound_bandwidth@,
            final(self).bytes_received@ == old(self).bytes_received@,
            final(self).bytes_sent@ == old(self).bytes_sent@,
            final(self).hops@ == old(self).hops@,
    {
        if let Some(d) = value {
            count_remove(&mut self.latency, d.nanos);
        }
    }

    /// Counts one more peer holding `value`.
    pub fn add_interactions(&mut self, value: Option<i64>)
        requires
            old(self).wf(),
            can_add(old(self).interactions@, value),
        ensures
            final(self).wf(),
            final(self).interactions@ == add_opt(old(self).interactions@, value),
            final(self).latency@ == old(self).latency@,
            final(self).inbound_bandwidth@ == old(self).inbound_bandwidth@,
            final(self).outbound_bandwidth@ == old(self).outbound_bandwidth@,
            final(self).bytes_received@ == old(self).bytes_received@,
            final(self).bytes_sent@ == old(self).bytes_sent@,
            final(self).hops@ == old(self).hops@,
    {
        if let Some(v) = value {
            count_add(&mut self.interactions, v);
        }
    }

    /// Counts one peer fewer holding `value`.
    pub fn remove_interactions(&mut self, value: Option<i64>)
        requires
            old(self).wf(),
        ensures
            final(self).wf(),
            final(self).interactions@ == remove_opt(old(self).interactions@, value),
            final(self).latency@ == old(self).latency@,
            final(self).inbound_bandwidth@ == old(self).inbound_bandwidth@,
            final(self).outbound_bandwidth@ == old(self).outbound_bandwidth@,
            final(self).bytes_received@ == old(self).bytes_received@,
            final(self).bytes_sent@ == old(self).bytes_sent@,
            final(self).hops@ == old(self).hops@,
    {
        if let Some(v) = value {
            count_remove(&mut self.interactions, v);
        }
    }

    /// Counts one more peer holding `value`.
    pub fn add_inbound_bandwidth(&mut self, value: Option<u128>)
        requires
            old(self).wf(),
            can_add(old(self).inbound_bandwidth@, value),
        ensures
            final(self).wf(),
            final(self).inbound_bandwidth@ == add_opt(old(self).inbound_bandwidth@, value),
            final(self).latency@ == old(self).latency@,
            final(self).interactions@ == old(self).interactions@,
            final(self).outbound_bandwidth@ == old(self).outbound_bandwidth@,
            final(self).bytes_received@ == old(self).bytes_received@,
            final(self).bytes_sent@ == old(self).bytes_sent@,
            final(self).hops@ == old(self).hops@,
    {
        if let Some(v) = value {
            count_add(&mut self.inbound_bandwidth, v);
        }
    }

    /// Counts one peer fewer holding `value`.
    pub fn remove_inbound_bandwidth(&mut self, value: Option<u128>)
        requires
            old(self).wf(),
        ensures
            final(self).wf(),
            final(self).inbound_bandwidth@ == remove_opt(old(self).inbound_bandwidth@, value),
            final(self).latency@ == old(self).latency@,
            final(self).interactions@ == old(self).interactions@,
            final(self).outbound_bandwidth@ == old(self).outbound_bandwidth@,
            final(self).bytes_received@ == old(self).bytes_received@,
            final(self).bytes_sent@ == old(self).bytes_sent@,
            final(self).hops@ == old(self).hops@,
    {
        if let Some(v) = value {
            count_remove(&mut self.inbound_bandwidth, v);
        }
    }

    /// Counts one more peer holding `value`.
    pub fn add_outbound_bandwidth(&mut self, value: Option<u128>)
        requires
            old(self).wf(),
            can_add(old(self).outbound_bandwidth@, value),
        ensures
            final(self).wf(),
            final(self).outbound_bandwidth@ == add_opt(old(self).outbound_bandwidth@, value),
            final(self).latency@ == old(self).latency@,
            final(self).interactions@ == old(self).interactions@,
            final(self).inbound_bandwidth@ == old(self).inbound_bandwidth@,
            final(self).bytes_received@ == old(self).bytes_received@,
            final(self).bytes_sent@ == old(self).bytes_sent@,
            final(self).hops@ == old(self).hops@,
    {
        if let Some(v) = value {
            count_add(&mut self.outbound_bandwidth, v);
        }
    }

    /// Counts one peer fewer holding `value`.
    pub fn remove_outbound_bandwidth(&mut self, value: Option<u128>)
        requires
            old(self).wf(),
        ensures
            final(self).wf(),
            final(self).outbound_bandwidth@ == remove_opt(old(self).outbound_bandwidth@, value),
            final(self).latency@ == old(self).latency@,
            final(self).interactions@ == old(self).interactions@,
            final(self).inbound_bandwidth@ == old(self).inbound_bandwidth@,
            final(self).bytes_received@ == old(self).bytes_received@,
            final(self).bytes_sent@ == old(self).bytes_sent@,
            final(self).hops@ == old(self).hops@,
    {
        if let Some(v) = value {
            count_remove(&mut self.outbound_bandwidth, v);
        }
    }

    /// Counts one more peer holding `value`.
    pub fn add_bytes_received(&mut self, value: u128)
        requires
            old(self).wf(),
            count_of(old(self).bytes_received@, value) < u32::MAX,
        ensures
            final(self).wf(),
            final(self).bytes_received@ == add_one(old(self).bytes_received@, value),
            final(self).latency@ == old(self).latency@,
            final(self).interactions@ == old(self).interactions@,
            final(self).inbound_bandwidth@ == old(self).inbound_bandwidth@,
            final(self).outbound_bandwidth@ == old(self).outbound_bandwidth@,
            final(self).bytes_sent@ == old(self).bytes_sent@,
            final(self).hops@ == old(self).hops@,
    {
        count_add(&mut self.bytes_received, value);
    }

    /// Counts one peer fewer holding `value`.
    pub fn remove_bytes_received(&mut self, value: u128)
        requires
            old(self).wf(),
        ensures
            final(self).wf(),
            final(self).bytes_received@ == remove_one(old(self).bytes_received@, value),
            final(self).latency@ == old(self).latency@,
            final(self).interactions@ == old(self).interactions@,
            final(self).inbound_bandwidth@ == old(self).inbound_bandwidth@,
            final(self).outbound_bandwidth@ == old(self).outbound_bandwidth@,
            final(self).bytes_sent@ == old(self).bytes_sent@,
            final(self).hops@ == old(self).hops@,
    {
        count_remove(&mut self.bytes_received, value);
    }

    /// Counts one more peer holding `value`.
    pub fn add_bytes_sent(&mut self, value: u128)
        requires
            old(self).wf(),
            count_of(old(self).bytes_sent@, value) < u32::MAX,
        ensures
            final(self).wf(),
            final(self).bytes_sent@ == add_one(old(self).bytes_sent@, value),
            final(self).latency@ == old(self).latency@,
            final(self).interactions@ == old(self).interactions@,
            final(self).inbound_bandwidth@ == old(self).inbound_bandwidth@,
            final(self).outbound_bandwidth@ == old(self).outbound_bandwidth@,
            final(self).bytes_received@ == old(self).bytes_received@,
            final(self).hops@ == old(self).hops@,
    {
        count_add(&mut self.bytes_sent, value);
    }

    /// Counts one peer fewer holding `value`.
    pub fn remove_bytes_sent(&mut self, value: u128)
        requires
            old(self).wf(),
        ensures
            final(self).wf(),
            final(self).bytes_sent@ == remove_one(old(self).bytes_sent@, value),
            final(self).latency@ == old(self).latency@,
            final(self).interactions@ == old(self).interactions@,
            final(self).inbound_bandwidth@ == old(self).inbound_bandwidth@,
            final(self).outbound_bandwidth@ == old(self).outbound_bandwidth@,
            final(self).bytes_received@ == old(self).bytes_received@,
            final(self).hops@ == old(self).hops@,
    {
        count_remove(&mut self.bytes_sent, value);
    }

    /// Counts one more peer holding `value`.
    pub fn add_hops(&mut self, value: Option<u8>)
        requires
            old(self).wf(),
            can_add(old(self).hops@, value),
        ensures
            final(self).wf(),
            final(self).hops@ == add_opt(old(self).hops@, value),
            final(self).latency@ == old(self).latency@,
            final(self).interactions@ == old(self).interactions@,
            final(self).inbound_bandwidth@ == old(self).inbound_bandwidth@,
            final(self).outbound_bandwidth@ == old(self).outbound_bandwidth@,
            final(self).bytes_received@ == old(self).bytes_received@,
            final(self).bytes_sent@ == old(self).bytes_sent@,
    {
        if let Some(v) = value {
            count_add(&mut self.hops, v);
        }
    }

    /// Counts one peer fewer holding `value`.
    pub fn remove_hops(&mut self, value: Option<u8>)
        requires
            old(self).wf(),
        ensures
            final(self).wf(),
            final(self).hops@ == remove_opt(old(self).hops@, value),
            final(self).latency@ == old(self).latency@,
            final(self).interactions@ == old(self).interactions@,
            final(self).inbound_bandwidth@ == old(self).inbound_bandwidth@,
            final(self).outbound_bandwidth@ == old(self).outbound_bandwidth@,
            final(self).bytes_received@ == old(self).bytes_received@,
            final(self).bytes_sent@ == old(self).bytes_sent@,
    {
        if let Some(v) = value {
            count_remove(&mut self.hops, v);
        }
    }

    /// Forgets every count.
    pub fn clear(&mut self)
        ensures
            final(self).is_empty(),
            final(self).wf(),
    {
        self.latency.clear();
        self.interactions.clear();
        self.inbound_bandwidth.clear();
        self.outbound_bandwidth.clear();
        self.bytes_received.clear();
        self.bytes_sent.clear();
        self.hops.clear();
    }

    /// Uncounts every measurement held in `measurements`.
    pub fn remove(&mut self, measurements: MeasurementStore)
        requires
            old(self).wf(),
        ensures
            final(self).wf(),
            final(self).latency@ == remove_opt(old(self).latency@, opt_key(measurements.latency.value())),
            final(self).interactions@ == remove_opt(old(self).interactions@, measurements.interactions.value()),
            final(self).inbound_bandwidth@ == remove_opt(old(self).inbound_bandwidth@, measurements.inbound_bandwidth),
            final(self).outbound_bandwidth@ == remove_opt(old(self).outbound_bandwidth@, measurements.outbound_bandwidth),
            final(self).bytes_received@ == remove_one(old(self).bytes_received@, measurements.bytes_received.bytes),
            final(self).bytes_sent@ == remove_one(old(self).bytes_sent@, measurements.bytes_sent.bytes),
            final(self).hops@ == remove_opt(old(self).hops@, measurements.hops.hops),
    {
        self.remove_latency(measurements.latency.get());
        self.remove_interactions(measurements.interactions.get());
        self.remove_inbound_bandwidth(measurements.inbound_bandwidth);
        self.remove_outbound_bandwidth(measurements.outbound_bandwidth);
        self.remove_bytes_received(measurements.bytes_received.get());
        self.remove_bytes_sent(measurements.bytes_sent.get());
        self.remove_hops(measurements.hops.get());
    }
}

} // verus!
