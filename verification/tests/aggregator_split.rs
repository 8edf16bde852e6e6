use std::collections::BTreeMap;

use lightning_core::aggregator::split_submissions;
use lightning_core::measurements::ReputationMeasurements;

fn measurements(hops: u8) -> ReputationMeasurements {
    ReputationMeasurements {
        latency: None,
        interactions: None,
        inbound_bandwidth: None,
        outbound_bandwidth: None,
        bytes_received: Some(0),
        bytes_sent: Some(0),
        uptime: None,
        hops: Some(hops),
    }
}

fn map(nodes: &[u32]) -> BTreeMap<u32, ReputationMeasurements> {
    nodes.iter().map(|n| (*n, measurements(*n as u8))).collect()
}

fn keys(m: &BTreeMap<u32, ReputationMeasurements>) -> Vec<u32> {
    m.keys().copied().collect()
}

#[test]
fn nothing_to_submit() {
    assert!(split_submissions(&BTreeMap::new(), 3).is_empty());
}

#[test]
fn one_transaction_when_they_fit() {
    let m = map(&[5, 1, 9]);
    let r = split_submissions(&m, 3);
    assert_eq!(r.len(), 1);
    assert_eq!(r[0], m);
}

#[test]
fn two_transactions_of_the_lowest_indices() {
    let m = map(&[8, 3, 1, 7, 5]);
    let r = split_submissions(&m, 2);
    assert_eq!(r.len(), 2);
    assert_eq!(keys(&r[0]), vec![1, 3]);
    assert_eq!(keys(&r[1]), vec![5, 7]);
    assert_eq!(r[0][&3], measurements(3));

    let r = split_submissions(&m, 3);
    assert_eq!(keys(&r[0]), vec![1, 3, 5]);
    assert_eq!(keys(&r[1]), vec![7, 8]);
}
