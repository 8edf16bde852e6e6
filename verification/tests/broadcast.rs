use std::collections::BTreeSet;

use lightning_core::broadcast::BroadcastPeers;

fn set(v: &[u32]) -> BTreeSet<u32> {
    v.iter().copied().collect()
}

#[test]
fn topology_updates_keep_and_disconnect() {
    let mut b = BroadcastPeers::new();
    let u = b.update_connections(set(&[1, 2, 3]));
    assert_eq!(u.keep, set(&[1, 2, 3]));
    assert!(u.disconnect.is_empty());
    let u = b.update_connections(set(&[2, 3, 4]));
    assert_eq!(u.keep, set(&[2, 3, 4]));
    assert_eq!(u.disconnect, set(&[1]));
    assert!(b.contains(4));
    assert!(!b.contains(1));
}

#[test]
fn broadcast_targets() {
    let mut b = BroadcastPeers::new();
    b.update_connections(set(&[1, 2, 3, 4]));
    assert_eq!(b.targets_filtered(|i| i > 2), Some(set(&[3, 4])));
    assert_eq!(b.targets_filtered(|_| false), None);
    assert_eq!(BroadcastPeers::targets_index(9), Some(set(&[9])));
}
