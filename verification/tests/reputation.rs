use std::collections::BTreeMap;

use lightning_core::measurements::{Duration, ReputationMeasurements};
use lightning_core::reputation::{
    calculate_normalized_measurements, calculate_reputation_scores, CollectedMeasurements,
    MinMaxValues, NormalizedMeasurements, RangeError, WeightedFloat, WeightedReputationMeasurements,
};
use lightning_core::statistics::{calculate_weighted_mean, calculate_z_normalized_weighted_mean, FIXED_ONE};

const ONE: i128 = FIXED_ONE as i128;

/// A fixed-point number from a whole part and thousandths.
fn fixed(units: i128, thousandths: i128) -> i128 {
    units * ONE + thousandths * (ONE / 1000)
}

fn wf(value: i128, weight: i128) -> WeightedFloat {
    WeightedFloat { value, weight }
}

/// A small deterministic generator, so that the tests run the same each time.
struct Lcg(u64);

impl Lcg {
    fn next(&mut self) -> u64 {
        self.0 = self.0.wrapping_mul(6364136223846793005).wrapping_add(1442695040888963407);
        self.0 >> 33
    }

    fn below(&mut self, n: u64) -> u64 {
        self.next() % n
    }

    /// True with probability one in ten.
    fn rarely(&mut self) -> bool {
        self.below(10) == 0
    }
}

fn generate_reputation_measurements(rng: &mut Lcg) -> ReputationMeasurements {
    ReputationMeasurements {
        latency: if rng.rarely() { None } else { Some(Duration::from_millis(rng.below(500) + 1)) },
        interactions: if rng.rarely() { None } else { Some(rng.below(100) as i64 - 20) },
        inbound_bandwidth: if rng.rarely() { None } else { Some(rng.below(1 << 30) as u128) },
        outbound_bandwidth: if rng.rarely() { None } else { Some(rng.below(1 << 30) as u128) },
        bytes_received: if rng.rarely() { None } else { Some(rng.below(1 << 32) as u128) },
        bytes_sent: if rng.rarely() { None } else { Some(rng.below(1 << 32) as u128) },
        uptime: None,
        hops: if rng.rarely() { None } else { Some(rng.below(10) as u8) },
    }
}

fn generate_weighted_measurements(num_measurements: usize, rng: &mut Lcg) -> Vec<WeightedReputationMeasurements> {
    (0..num_measurements)
        .map(|_| WeightedReputationMeasurements {
            measurements: generate_reputation_measurements(rng),
            weight: rng.below(101) as u8,
        })
        .collect()
}

fn generate_weighted_measurements_map(
    map_size: usize,
    rng: &mut Lcg,
) -> BTreeMap<u32, Vec<WeightedReputationMeasurements>> {
    let mut map = BTreeMap::new();
    for _ in 0..map_size {
        let node = rng.next() as u32;
        let n = rng.below(19) as usize + 1;
        map.insert(node, generate_weighted_measurements(n, rng));
    }
    map
}

fn all_weights(c: &CollectedMeasurements) -> Vec<&Vec<WeightedFloat>> {
    vec![&c.latency, &c.interactions, &c.inbound_bandwidth, &c.outbound_bandwidth, &c.bytes_received, &c.bytes_sent]
}

#[test]
fn test_from_weighted_measurements_for_collected_measurements_counts() {
    let mut rng = Lcg(7);
    let weighted_measurements = generate_weighted_measurements(10, &mut rng);
    let count = |f: &dyn Fn(&ReputationMeasurements) -> bool| {
        weighted_measurements.iter().filter(|m| f(&m.measurements)).count()
    };
    let latency_count = count(&|m| m.latency.is_some());
    let interactions_count = count(&|m| m.interactions.is_some());
    let inbound_bandwidth_count = count(&|m| m.inbound_bandwidth.is_some());
    let outbound_bandwidth_count = count(&|m| m.outbound_bandwidth.is_some());
    let bytes_received_count = count(&|m| m.bytes_received.is_some());
    let bytes_sent_count = count(&|m| m.bytes_sent.is_some());
    let collected = CollectedMeasurements::from_weighted_measurements(weighted_measurements.clone());
    assert_eq!(collected.latency.len(), latency_count);
    assert_eq!(collected.interactions.len(), interactions_count);
    assert_eq!(collected.inbound_bandwidth.len(), inbound_bandwidth_count);
    assert_eq!(collected.outbound_bandwidth.len(), outbound_bandwidth_count);
    assert_eq!(collected.bytes_received.len(), bytes_received_count);
    assert_eq!(collected.bytes_sent.len(), bytes_sent_count);
}

#[test]
fn test_from_weighted_measurements_for_collected_measurements_weights_sum_to_1() {
    let mut rng = Lcg(11);
    let weighted_measurements = generate_weighted_measurements(10, &mut rng);
    let collected = CollectedMeasurements::from_weighted_measurements(weighted_measurements);
    for ws in all_weights(&collected) {
        if ws.is_empty() {
            continue;
        }
        let mut weight_sum = 0i128;
        for w in ws {
            assert!((0..=ONE).contains(&w.weight));
            weight_sum += w.weight;
        }
        // Each weight is rounded down: the sum falls short of one by at most
        // one unit in the last place per weight.
        assert!((weight_sum - ONE).abs() <= ws.len() as i128);
    }
}

#[test]
fn test_from_weighted_measurements_for_collected_measurements_values() {
    let mut rng = Lcg(13);
    let weighted_measurements = generate_weighted_measurements(1, &mut rng);
    let collected = CollectedMeasurements::from_weighted_measurements(weighted_measurements.clone());
    let m = weighted_measurements[0].measurements;
    if let Some(latency) = m.latency {
        assert_eq!(latency.as_millis() as i128 * ONE, collected.latency[0].value);
    }
    if let Some(interactions) = m.interactions {
        assert_eq!(interactions as i128 * ONE, collected.interactions[0].value);
    }
    if let Some(inbound_bandwidth) = m.inbound_bandwidth {
        assert_eq!(inbound_bandwidth as i128 * ONE, collected.inbound_bandwidth[0].value);
    }
    if let Some(outbound_bandwidth) = m.outbound_bandwidth {
        assert_eq!(outbound_bandwidth as i128 * ONE, collected.outbound_bandwidth[0].value);
    }
    if let Some(bytes_received) = m.bytes_received {
        assert_eq!(bytes_received as i128 * ONE, collected.bytes_received[0].value);
    }
    if let Some(bytes_sent) = m.bytes_sent {
        assert_eq!(bytes_sent as i128 * ONE, collected.bytes_sent[0].value);
    }
}

#[test]
fn test_from_collected_measurements_for_normalized_measurements() {
    let mut rng = Lcg(17);
    let weighted_measurements = generate_weighted_measurements(10, &mut rng);
    let mut collected = CollectedMeasurements::from_weighted_measurements(weighted_measurements);
    collected.outbound_bandwidth = Vec::new();
    let lens: Vec<usize> = all_weights(&collected).iter().map(|v| v.len()).collect();

    let normalized = NormalizedMeasurements::from_collected(collected).unwrap();
    let values = [
        normalized.latency,
        normalized.interactions,
        normalized.inbound_bandwidth,
        normalized.outbound_bandwidth,
        normalized.bytes_received,
        normalized.bytes_sent,
    ];
    for (len, value) in lens.iter().zip(values.iter()) {
        if *len == 0 {
            assert!(value.is_none());
        } else {
            assert!(value.is_some());
        }
    }
}

#[test]
fn test_normalized_measurements_min_max_normalize() {
    let mut rng = Lcg(19);
    let weighted_measurements_map = generate_weighted_measurements_map(10, &mut rng);
    let normalized_map = calculate_normalized_measurements(weighted_measurements_map).unwrap();
    let bounds = MinMaxValues::from_normalized(&normalized_map);
    for (_, m) in normalized_map.iter() {
        let mut m = *m;
        m.min_max_normalize(&bounds).unwrap();
        for value in [m.latency, m.interactions, m.inbound_bandwidth, m.outbound_bandwidth, m.bytes_received, m.bytes_sent]
            .into_iter()
            .flatten()
        {
            assert!((0..=ONE).contains(&value));
        }
    }
}

#[test]
fn test_calculate_score() {
    let mut rng = Lcg(23);
    for _ in 0..10 {
        let mut value = || if rng.rarely() { None } else { Some((rng.below(1_000_001) as i128) * (ONE / 1_000_000)) };
        let m = NormalizedMeasurements {
            latency: value(),
            interactions: value(),
            inbound_bandwidth: value(),
            outbound_bandwidth: value(),
            bytes_received: value(),
            bytes_sent: value(),
        };
        if let Some(score) = m.calculate_score() {
            assert!((0u8..=100u8).contains(&score));
        }
    }
}

#[test]
fn test_calculate_weighted_mean() {
    let values = vec![
        wf(fixed(1, 0), fixed(0, 200)),
        wf(fixed(2, 0), fixed(0, 100)),
        wf(fixed(3, 0), fixed(0, 100)),
        wf(fixed(4, 0), fixed(0, 300)),
        wf(fixed(5, 0), fixed(0, 100)),
        wf(fixed(6, 0), fixed(0, 200)),
    ];
    assert_eq!(calculate_weighted_mean(&values), Ok(Some(fixed(3, 600))));
}

#[test]
fn test_calculate_weighted_mean_empty() {
    let values: Vec<WeightedFloat> = vec![];
    assert_eq!(calculate_weighted_mean(&values), Ok(None));
}

#[test]
fn test_calculate_z_normalized_weighted_mean() {
    let values = vec![
        wf(fixed(4, 0), fixed(0, 100)),
        wf(fixed(6, 0), fixed(0, 10)),
        wf(fixed(3, 0), fixed(0, 10)),
        wf(fixed(4, 0), fixed(0, 180)),
        wf(fixed(5, 0), fixed(0, 100)),
        wf(fixed(2, 0), fixed(0, 100)),
        wf(fixed(2, 0), fixed(0, 100)),
        wf(fixed(1, 0), fixed(0, 100)),
        wf(fixed(3, 0), fixed(0, 100)),
        wf(fixed(2, 0), fixed(0, 100)),
        wf(fixed(4, 0), fixed(0, 50)),
        wf(fixed(50, 0), fixed(0, 50)),
    ];
    assert_eq!(calculate_z_normalized_weighted_mean(values), Ok(Some(fixed(2, 910))));
}

#[test]
fn weighted_mean_overflow_is_an_error() {
    let values = vec![wf(i128::MAX, 2 * ONE)];
    assert!(calculate_weighted_mean(&values).is_err());
}

#[test]
fn equal_shares_when_every_weight_is_zero() {
    let report = |ms: u64| WeightedReputationMeasurements {
        measurements: ReputationMeasurements {
            latency: Some(Duration::from_millis(ms)),
            interactions: None,
            inbound_bandwidth: None,
            outbound_bandwidth: None,
            bytes_received: None,
            bytes_sent: None,
            uptime: None,
            hops: None,
        },
        weight: 0,
    };
    let c = CollectedMeasurements::from_weighted_measurements(vec![report(10), report(20), report(30), report(40)]);
    // Zero weights are not inverted.
    assert!(c.latency.iter().all(|w| w.weight == ONE / 4));
    assert!(c.interactions.is_empty());
}

#[test]
fn latency_weights_are_inverted() {
    let report = |ms: u64, weight: u8| WeightedReputationMeasurements {
        measurements: ReputationMeasurements {
            latency: Some(Duration::from_millis(ms)),
            interactions: Some(1),
            inbound_bandwidth: None,
            outbound_bandwidth: None,
            bytes_received: None,
            bytes_sent: None,
            uptime: None,
            hops: None,
        },
        weight,
    };
    let c = CollectedMeasurements::from_weighted_measurements(vec![report(10, 75), report(20, 25)]);
    // Reporter weights 3/4 and 1/4 become 1/4 and 3/4 for latency ...
    assert_eq!(c.latency[0].weight, fixed(0, 250));
    assert_eq!(c.latency[1].weight, fixed(0, 750));
    // ... and stay as they are for the other measurements.
    assert_eq!(c.interactions[0].weight, fixed(0, 750));
    assert_eq!(c.interactions[1].weight, fixed(0, 250));
}

#[test]
fn bounds_over_nodes() {
    let node = |latency: Option<i128>, interactions: Option<i128>| NormalizedMeasurements {
        latency,
        interactions,
        inbound_bandwidth: None,
        outbound_bandwidth: None,
        bytes_received: None,
        bytes_sent: None,
    };
    let mut map = BTreeMap::new();
    map.insert(1, node(Some(fixed(5, 0)), None));
    map.insert(2, node(Some(fixed(2, 0)), Some(fixed(-3, 0))));
    map.insert(3, node(Some(fixed(9, 0)), None));
    let b = MinMaxValues::from_normalized(&map);
    assert_eq!(b.min_values.latency, fixed(2, 0));
    assert_eq!(b.max_values.latency, fixed(9, 0));
    assert_eq!(b.min_values.interactions, fixed(-3, 0));
    assert_eq!(b.max_values.interactions, fixed(-3, 0));
    // No node has a value: the bounds stay at their extremes.
    assert_eq!(b.min_values.bytes_sent, i128::MAX);
    assert_eq!(b.max_values.bytes_sent, i128::MIN);

    // A single value has no range to be placed in, and is dropped.
    let mut m = map[&2];
    m.min_max_normalize(&b).unwrap();
    assert_eq!(m.latency, Some(0));
    assert_eq!(m.interactions, None);
    let mut m = map[&3];
    m.min_max_normalize(&b).unwrap();
    assert_eq!(m.latency, Some(ONE));
}

#[test]
fn score_of_normalized_values() {
    let m = NormalizedMeasurements {
        latency: Some(fixed(0, 200)),
        interactions: Some(fixed(0, 600)),
        inbound_bandwidth: None,
        outbound_bandwidth: None,
        bytes_received: None,
        bytes_sent: None,
    };
    // ((1 - 0.2) + 0.6) / 2 = 0.7
    assert_eq!(m.calculate_score(), Some(70));
    let none = NormalizedMeasurements {
        latency: None,
        interactions: None,
        inbound_bandwidth: None,
        outbound_bandwidth: None,
        bytes_received: None,
        bytes_sent: None,
    };
    assert_eq!(none.calculate_score(), None);
}

#[test]
fn reputation_scores_of_three_nodes() {
    let report = |ms: u64, interactions: i64| WeightedReputationMeasurements {
        measurements: ReputationMeasurements {
            latency: Some(Duration::from_millis(ms)),
            interactions: Some(interactions),
            inbound_bandwidth: None,
            outbound_bandwidth: None,
            bytes_received: None,
            bytes_sent: None,
            uptime: None,
            hops: None,
        },
        weight: 50,
    };
    let mut map = BTreeMap::new();
    map.insert(1, vec![report(100, 10)]);
    map.insert(2, vec![report(200, 20)]);
    map.insert(3, vec![report(300, 30)]);
    let scores = calculate_reputation_scores(map).unwrap();
    // Node 1 has the lowest latency but the fewest interactions, and so on.
    assert_eq!(scores[&1], 50);
    assert_eq!(scores[&2], 50);
    assert_eq!(scores[&3], 50);

    let mut map = BTreeMap::new();
    map.insert(1, vec![report(100, 30)]);
    map.insert(2, vec![report(300, 10)]);
    let scores = calculate_reputation_scores(map).unwrap();
    assert_eq!(scores[&1], 100);
    assert_eq!(scores[&2], 0);
}

#[test]
fn score_of_values_outside_the_unit_range() {
    let m = NormalizedMeasurements {
        latency: Some(fixed(2, 0)),
        interactions: Some(0),
        inbound_bandwidth: None,
        outbound_bandwidth: None,
        bytes_received: None,
        bytes_sent: None,
    };
    // ((1 - 2) + 0) / 2 = -0.5: the whole percentage -50, as a byte.
    assert_eq!(m.calculate_score(), Some((-50i128) as u8));
    let m = NormalizedMeasurements {
        latency: None,
        interactions: Some(fixed(3, 0)),
        inbound_bandwidth: None,
        outbound_bandwidth: None,
        bytes_received: None,
        bytes_sent: None,
    };
    // Capped at 100.
    assert_eq!(m.calculate_score(), Some(100));
}

#[test]
fn weighted_float_arithmetic() {
    let one = FIXED_ONE as i128;
    let three = WeightedFloat::from_count(3);
    assert_eq!(three.value, 3 * one);
    assert_eq!(three.weight, one);
    let half = WeightedFloat { value: one / 2, weight: one / 4 };
    assert_eq!(half.weighted_value(), Ok(one / 8));
    let sum = half.add_value(three).unwrap();
    assert_eq!(sum.value, 3 * one + one / 2);
    assert_eq!(sum.weight, one / 4);
    assert_eq!(three.sub_value(half).unwrap().value, 2 * one + one / 2);
    assert_eq!(three.mul_value(half).unwrap().value, one + one / 2);
    assert_eq!(three.div_value(half).unwrap().value, 6 * one);
    assert_eq!(WeightedFloat::from_fixed(one / 2).weight, one);
    let zero = WeightedFloat::default();
    assert_eq!((zero.value, zero.weight), (0, one));
    let big = WeightedFloat::from_fixed(i128::MAX);
    assert_eq!(big.add_value(three).err(), Some(RangeError));
    assert_eq!(big.mul_value(three).err(), Some(RangeError));
}
