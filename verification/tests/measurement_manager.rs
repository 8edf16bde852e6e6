use lightning_core::manager::{MeasurementManager, MAX_CAPACITY};
use lightning_core::measurements::{Duration, Interactions, Weight, MIN_NUM_PINGS};

/// A small deterministic generator standing in for a seeded random one.
struct Lcg(u64);

impl Lcg {
    fn next(&mut self) -> u64 {
        self.0 = self.0.wrapping_mul(6364136223846793005).wrapping_add(1442695040888963407);
        self.0 >> 33
    }

    fn gen_range(&mut self, lo: u64, hi: u64) -> u64 {
        lo + self.next() % (hi - lo)
    }

    fn gen_bool(&mut self) -> bool {
        self.next() % 2 == 0
    }
}

/// The mean bandwidth, in bytes per millisecond, of one timed transfer.
fn bandwidth(bytes: u64, millis: u64) -> u128 {
    (bytes as f64 / millis as f64) as u128
}

#[test]
fn test_report_sat() {
    let mut manager = MeasurementManager::new();
    let peer = 0;
    manager.report_sat(peer, Weight::Weak);
    let measurements = manager.get_measurements();
    assert_eq!(
        measurements[&peer].interactions.unwrap(),
        Interactions::get_weight(Weight::Weak)
    );
}

#[test]
fn test_report_unsat() {
    let mut manager = MeasurementManager::new();
    let peer = 0;
    manager.report_unsat(peer, Weight::Weak);
    let measurements = manager.get_measurements();
    assert_eq!(
        measurements[&peer].interactions.unwrap(),
        -Interactions::get_weight(Weight::Weak)
    );
}

#[test]
fn test_report_sat_unsat() {
    let mut manager = MeasurementManager::new();
    let peer = 0;
    manager.report_sat(peer, Weight::Weak);
    manager.report_unsat(peer, Weight::Weak);
    let measurements = manager.get_measurements();
    assert_eq!(measurements[&peer].interactions.unwrap(), 0);
}

#[test]
fn weights_of_interactions() {
    assert_eq!(Interactions::get_weight(Weight::Weak), 1);
    assert_eq!(Interactions::get_weight(Weight::Strong), 5);
    assert_eq!(Interactions::get_weight(Weight::VeryStrong), 10);
    assert_eq!(Interactions::get_weight(Weight::Provable), 20);
}

#[test]
fn test_report_latency() {
    let mut manager = MeasurementManager::new();
    let peer = 0;
    manager.report_latency(peer, Duration::from_millis(200));
    manager.report_latency(peer, Duration::from_millis(100));
    let measurements = manager.get_measurements();
    assert_eq!(measurements[&peer].latency.unwrap(), Duration::from_millis(150));
}

#[test]
fn latency_under_a_millisecond_is_ignored() {
    let mut manager = MeasurementManager::new();
    let peer = 3;
    manager.report_latency(peer, Duration::from_millis(100));
    manager.report_latency(peer, Duration::from_nanos(999_999));
    let measurements = manager.get_measurements();
    assert_eq!(measurements[&peer].latency.unwrap(), Duration::from_millis(100));
}

#[test]
fn test_report_bytes_received() {
    let mut manager = MeasurementManager::new();
    let peer = 0;
    manager.report_bytes_received(peer, 1024, Some(bandwidth(1024, 200)));
    let measurements = manager.get_measurements();
    assert_eq!(measurements[&peer].bytes_received.unwrap(), 1024);
    assert_eq!(measurements[&peer].outbound_bandwidth.unwrap(), 5);
}

#[test]
fn test_report_bytes_sent() {
    let mut manager = MeasurementManager::new();
    let peer = 0;
    manager.report_bytes_sent(peer, 1024, Some(bandwidth(1024, 200)));
    let measurements = manager.get_measurements();
    assert_eq!(measurements[&peer].bytes_sent.unwrap(), 1024);
    assert_eq!(measurements[&peer].inbound_bandwidth.unwrap(), 5);
}

#[test]
fn test_report_hops() {
    let mut manager = MeasurementManager::new();
    let peer = 0;
    manager.report_hops(peer, 10);
    let measurements = manager.get_measurements();
    assert_eq!(measurements[&peer].hops.unwrap(), 10);
}

fn uptime_percent(manager: &MeasurementManager, peer: u32) -> Option<f64> {
    manager.get_measurements()[&peer]
        .uptime
        .map(|p| p.num_pings_responded as f64 / p.num_pings as f64 * 100.0)
}

#[test]
fn test_report_ping() {
    let mut manager = MeasurementManager::new();
    let peer = 0;
    for _ in 0..MIN_NUM_PINGS {
        manager.report_ping(peer, false);
    }
    assert_eq!(uptime_percent(&manager, peer), Some(0.0));
    manager.report_ping(peer, true);
    assert_eq!(uptime_percent(&manager, peer), Some(25.0));
    manager.report_ping(peer, true);
    assert_eq!(uptime_percent(&manager, peer), Some(40.0));
    manager.report_ping(peer, false);
    let uptime = uptime_percent(&manager, peer).unwrap();
    assert!((uptime - 33.33333333333333).abs() < 1e-9);
}

#[test]
fn uptime_needs_enough_pings() {
    let mut manager = MeasurementManager::new();
    manager.report_ping(7, true);
    assert!(manager.get_measurements()[&7].uptime.is_none());
}

#[test]
fn test_lateny_min_max() {
    let mut rng = Lcg(42);
    let peers: Vec<u32> = (0..10).collect();
    let mut manager = MeasurementManager::new();

    for _ in 0..100 {
        let index = rng.gen_range(0, peers.len() as u64) as usize;
        let peer = peers[index];
        let latency = Duration::from_millis(rng.gen_range(1, 1000));
        manager.report_latency(peer, latency);
    }
    let mut min_val = Duration::from_nanos(u128::MAX / 2);
    let mut max_val = Duration::from_millis(0);
    for (_, measurements) in manager.get_measurements() {
        if let Some(value) = measurements.latency {
            if value.nanos < min_val.nanos {
                min_val = value;
            }
            if value.nanos > max_val.nanos {
                max_val = value;
            }
        }
    }
    assert_eq!(manager.summary_stats().min_latency().unwrap(), min_val);
    assert_eq!(manager.summary_stats().max_latency().unwrap(), max_val);
}

#[test]
fn test_interactions_min_max() {
    let mut rng = Lcg(7);
    let peers: Vec<u32> = (0..10).collect();
    let mut manager = MeasurementManager::new();

    for _ in 0..100 {
        let index = rng.gen_range(0, peers.len() as u64) as usize;
        let peer = peers[index];
        if rng.gen_bool() {
            manager.report_sat(peer, Weight::Weak);
        } else {
            manager.report_unsat(peer, Weight::Weak);
        }
    }
    let mut min_val = i64::MAX;
    let mut max_val = i64::MIN;
    for (_, measurements) in manager.get_measurements() {
        if let Some(value) = measurements.interactions {
            min_val = min_val.min(value);
            max_val = max_val.max(value);
        }
    }
    assert_eq!(manager.summary_stats().min_interactions().unwrap(), min_val);
    assert_eq!(manager.summary_stats().max_interactions().unwrap(), max_val);
}

#[test]
fn test_bytes_received_min_max() {
    let mut rng = Lcg(11);
    let peers: Vec<u32> = (0..10).collect();
    let mut manager = MeasurementManager::new();
    let mut bw: std::collections::HashMap<u32, (f64, u64)> = std::collections::HashMap::new();

    for _ in 0..100 {
        let index = rng.gen_range(0, peers.len() as u64) as usize;
        let peer = peers[index];
        let bytes = rng.gen_range(100, 10000);
        let millis = rng.gen_range(100, 10000);
        let entry = bw.entry(peer).or_insert((0.0, 0));
        entry.0 += bytes as f64 / millis as f64;
        entry.1 += 1;
        let mean = (entry.0 / entry.1 as f64) as u128;
        manager.report_bytes_received(peer, bytes, Some(mean));
    }
    let mut min_val_br = u128::MAX;
    let mut max_val_br = u128::MIN;
    let mut min_val_ob = u128::MAX;
    let mut max_val_ob = u128::MIN;
    for (_, measurements) in manager.get_measurements() {
        min_val_br = min_val_br.min(measurements.bytes_received.unwrap());
        max_val_br = max_val_br.max(measurements.bytes_received.unwrap());
        if let Some(value) = measurements.outbound_bandwidth {
            min_val_ob = min_val_ob.min(value);
            max_val_ob = max_val_ob.max(value);
        }
    }
    let stats = manager.summary_stats();
    assert_eq!(stats.min_bytes_received().unwrap(), min_val_br);
    assert_eq!(stats.max_bytes_received().unwrap(), max_val_br);
    assert_eq!(stats.min_outbound_bandwidth().unwrap(), min_val_ob);
    assert_eq!(stats.max_outbound_bandwidth().unwrap(), max_val_ob);
}

#[test]
fn test_bytes_sent_min_max() {
    let mut rng = Lcg(13);
    let peers: Vec<u32> = (0..10).collect();
    let mut manager = MeasurementManager::new();
    let mut bw: std::collections::HashMap<u32, (f64, u64)> = std::collections::HashMap::new();

    for _ in 0..100 {
        let index = rng.gen_range(0, peers.len() as u64) as usize;
        let peer = peers[index];
        let bytes = rng.gen_range(100, 10000);
        let millis = rng.gen_range(100, 10000);
        let entry = bw.entry(peer).or_insert((0.0, 0));
        entry.0 += bytes as f64 / millis as f64;
        entry.1 += 1;
        let mean = (entry.0 / entry.1 as f64) as u128;
        manager.report_bytes_sent(peer, bytes, Some(mean));
    }
    let mut min_val_bs = u128::MAX;
    let mut max_val_bs = u128::MIN;
    let mut min_val_ib = u128::MAX;
    let mut max_val_ib = u128::MIN;
    for (_, measurements) in manager.get_measurements() {
        min_val_bs = min_val_bs.min(measurements.bytes_sent.unwrap());
        max_val_bs = max_val_bs.max(measurements.bytes_sent.unwrap());
        if let Some(value) = measurements.inbound_bandwidth {
            min_val_ib = min_val_ib.min(value);
            max_val_ib = max_val_ib.max(value);
        }
    }
    let stats = manager.summary_stats();
    assert_eq!(stats.min_bytes_sent().unwrap(), min_val_bs);
    assert_eq!(stats.max_bytes_sent().unwrap(), max_val_bs);
    assert_eq!(stats.min_inbound_bandwidth().unwrap(), min_val_ib);
    assert_eq!(stats.max_inbound_bandwidth().unwrap(), max_val_ib);
}

#[test]
fn test_hops_min_max() {
    let mut rng = Lcg(17);
    let peers: Vec<u32> = (0..10).collect();
    let mut manager = MeasurementManager::new();

    for _ in 0..100 {
        let index = rng.gen_range(0, peers.len() as u64) as usize;
        let peer = peers[index];
        let hops = rng.gen_range(3, 10) as u8;
        manager.report_hops(peer, hops);
    }
    let mut min_val = u8::MAX;
    let mut max_val = u8::MIN;
    for (_, measurements) in manager.get_measurements() {
        if let Some(value) = measurements.hops {
            min_val = min_val.min(value);
            max_val = max_val.max(value);
        }
    }
    assert_eq!(manager.summary_stats().min_hops().unwrap(), min_val);
    assert_eq!(manager.summary_stats().max_hops().unwrap(), max_val);
}

#[test]
fn test_get_measurements_contains() {
    let mut manager = MeasurementManager::new();
    let peer1 = 1;
    manager.report_sat(peer1, Weight::Weak);
    let peer2 = 0;
    manager.report_sat(peer2, Weight::Weak);
    let peer_measurements = manager.get_measurements();
    assert!(peer_measurements.contains_key(&peer1));
    assert!(peer_measurements.contains_key(&peer2));
}

#[test]
fn test_get_measurements_equals() {
    let mut manager = MeasurementManager::new();
    let peer = 0;
    manager.report_sat(peer, Weight::Weak);
    manager.report_latency(peer, Duration::from_millis(200));
    let peer_measurements = manager.get_measurements();
    let measurements = peer_measurements.get(&peer).unwrap();
    assert_eq!(
        measurements.interactions.unwrap(),
        Interactions::get_weight(Weight::Weak)
    );
    assert_eq!(measurements.latency.unwrap(), Duration::from_millis(200));
}

#[test]
fn test_clear_measurements() {
    let mut manager = MeasurementManager::new();
    let peer = 0;
    manager.report_sat(peer, Weight::Weak);
    let peer_measurements = manager.get_measurements();
    assert!(peer_measurements.contains_key(&peer));
    manager.clear_measurements();
    let peer_measurements = manager.get_measurements();
    assert!(!peer_measurements.contains_key(&peer));
    assert!(manager.summary_stats().min_interactions().is_none());
}

#[test]
fn least_recently_reported_peer_is_evicted() {
    let mut manager = MeasurementManager::new();
    for peer in 0..MAX_CAPACITY as u32 {
        assert_eq!(manager.report_hops(peer, 5), None);
    }
    // Reporting on peer 0 makes peer 1 the least recently reported.
    manager.report_hops(0, 1);
    assert_eq!(manager.report_hops(1000, 9), Some(1));
    let measurements = manager.get_measurements();
    assert_eq!(measurements.len(), MAX_CAPACITY);
    assert!(!measurements.contains_key(&1));
    assert!(measurements.contains_key(&0));
    // The evicted peer's hop count no longer bounds the summary.
    assert_eq!(manager.summary_stats().min_hops(), Some(1));
    assert_eq!(manager.summary_stats().max_hops(), Some(9));
}

#[test]
fn score_inputs_hold_value_and_bounds() {
    let mut manager = MeasurementManager::new();
    manager.report_latency(1, Duration::from_millis(50));
    manager.report_latency(2, Duration::from_millis(150));
    manager.report_latency(3, Duration::from_millis(100));
    let inputs = manager.score_inputs(3).unwrap();
    let latency = inputs.latency.unwrap();
    assert_eq!(latency.value, Duration::from_millis(100));
    assert_eq!(latency.min, Duration::from_millis(50));
    assert_eq!(latency.max, Duration::from_millis(150));
    assert!(inputs.interactions.is_none());
    assert!(manager.score_inputs(4).is_none());
}
